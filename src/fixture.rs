//! The plain-text fixture format of test cases: labelled blocks of jobs with
//! their recorded Cmax values and dispatch order.
use crate::task::Task;
use vstd::prelude::*;

verus! {

/// Where the line starting at `i` ends: the first `\n` from `i` on, or the end.
pub open spec fn line_end(b: Seq<u8>, i: int) -> int
    decreases b.len() - i,
{
    if i >= b.len() || b[i] == 10u8 {
        i
    } else {
        line_end(b, i + 1)
    }
}

/// The line of `b` from `i` to `e`, without the `\r` of a `\r\n` ending.
pub open spec fn line_text(b: Seq<u8>, i: int, e: int) -> Seq<u8> {
    if e < b.len() && e > i && b[e - 1] == 13u8 {
        b.subrange(i, e - 1)
    } else {
        b.subrange(i, e)
    }
}

/// The lines of `b` from `i` on, as `str::lines` splits them.
pub open spec fn lines_from(b: Seq<u8>, i: int) -> Seq<Seq<u8>>
    decreases b.len() - i,
{
    if i >= b.len() || i < 0 {
        Seq::empty()
    } else {
        let e = line_end(b, i);
        if e < i {
            Seq::empty()
        } else if e >= b.len() {
            seq![line_text(b, i, e)]
        } else {
            seq![line_text(b, i, e)] + lines_from(b, e + 1)
        }
    }
}

proof fn lemma_line_end(b: Seq<u8>, i: int)
    requires
        0 <= i <= b.len(),
    ensures
        i <= line_end(b, i) <= b.len(),
        line_end(b, i) < b.len() ==> b[line_end(b, i)] == 10u8,
        forall|k: int| i <= k < line_end(b, i) ==> b[k] != 10u8,
    decreases b.len() - i,
{
    if i < b.len() && b[i] != 10u8 {
        lemma_line_end(b, i + 1);
    }
}

/// Splits `text` into lines at `\n`, dropping the `\r` of `\r\n` endings.
pub fn split_lines(text: &Vec<u8>) -> (lines: Vec<Vec<u8>>)
    ensures
        lines@.map_values(|l: Vec<u8>| l@) == lines_from(text@, 0),
{
    let ghost b = text@;
    let mut lines: Vec<Vec<u8>> = Vec::new();
    let mut i: usize = 0;
    while i < text.len()
        invariant
            i <= b.len(),
            b == text@,
            lines@.map_values(|l: Vec<u8>| l@) + lines_from(b, i as int) == lines_from(b, 0),
        decreases b.len() - i,
    {
        proof {
            lemma_line_end(b, i as int);
        }
        let mut e: usize = i;
        while e < text.len() && text[e] != 10u8
            invariant
                i <= e <= b.len(),
                b == text@,
                forall|k: int| i <= k < e ==> b[k] != 10u8,
            decreases b.len() - e,
        {
            e = e + 1;
        }
        proof {
            assert(e == line_end(b, i as int)) by {
                if e < line_end(b, i as int) {
                    assert(b[e as int] != 10u8);
                } else if e > line_end(b, i as int) {
                    assert(b[line_end(b, i as int)] != 10u8);
                }
            }
        }
        let stop = if e < text.len() && e > i && text[e - 1] == 13u8 {
            e - 1
        } else {
            e
        };
        let mut line: Vec<u8> = Vec::new();
        let mut k: usize = i;
        while k < stop
            invariant
                i <= k <= stop,
                stop <= b.len(),
                b == text@,
                line@ == b.subrange(i as int, k as int),
            decreases stop - k,
        {
            line.push(text[k]);
            proof {
                assert(b.subrange(i as int, k + 1) == b.subrange(i as int, k as int).push(b[k as int]));
            }
            k = k + 1;
        }
        let ghost before = lines@;
        lines.push(line);
        proof {
            assert(line@ == line_text(b, i as int, e as int));
            assert(lines@.map_values(|l: Vec<u8>| l@) == before.map_values(|l: Vec<u8>| l@).push(
                line@,
            ));
        }
        if e < text.len() {
            proof {
                assert(lines_from(b, i as int) == seq![line@] + lines_from(b, e + 1));
                assert(lines@.map_values(|l: Vec<u8>| l@) + lines_from(b, e + 1)
                    =~= before.map_values(|l: Vec<u8>| l@) + lines_from(b, i as int));
            }
            i = e + 1;
        } else {
            proof {
                assert(lines_from(b, i as int) == seq![line@]);
                assert(lines_from(b, e as int) == Seq::<Seq<u8>>::empty());
                assert(lines@.map_values(|l: Vec<u8>| l@) + lines_from(b, e as int)
                    =~= before.map_values(|l: Vec<u8>| l@) + lines_from(b, i as int));
            }
            i = e;
        }
    }
    proof {
        assert(lines_from(b, i as int) == Seq::<Seq<u8>>::empty());
        assert(lines@.map_values(|l: Vec<u8>| l@) =~= lines@.map_values(|l: Vec<u8>| l@)
            + lines_from(b, i as int));
    }
    lines
}

pub open spec fn is_digit(c: u8) -> bool {
    48u8 <= c <= 57u8
}

pub open spec fn digits_value(s: Seq<u8>) -> int
    decreases s.len(),
{
    if s.len() == 0 {
        0
    } else {
        digits_value(s.drop_last()) * 10 + (s.last() - 48u8)
    }
}

/// What `str::parse::<u32>` makes of `s`: an optional `+`, then one or more
/// decimal digits, of value at most `u32::MAX`.
pub open spec fn decimal(s: Seq<u8>) -> Option<u32> {
    let d = unsigned_digits(s);
    if all_digits(d) && d.len() > 0 && digits_value(d) <= u32::MAX {
        Some(digits_value(d) as u32)
    } else {
        None
    }
}

/// `s` without a leading `+`.
pub open spec fn unsigned_digits(s: Seq<u8>) -> Seq<u8> {
    if s.len() > 0 && s[0] == 43u8 {
        s.drop_first()
    } else {
        s
    }
}

pub open spec fn all_digits(d: Seq<u8>) -> bool {
    forall|k: int| 0 <= k < d.len() ==> is_digit(#[trigger] d[k])
}

proof fn lemma_digits_grow(d: Seq<u8>, k: int)
    requires
        0 <= k <= d.len(),
        forall|m: int| 0 <= m < d.len() ==> is_digit(#[trigger] d[m]),
    ensures
        digits_value(d.subrange(0, k)) <= digits_value(d),
        0 <= digits_value(d.subrange(0, k)),
    decreases d.len() - k,
{
    if k < d.len() {
        lemma_digits_grow(d, k + 1);
        assert(d.subrange(0, k + 1).drop_last() =~= d.subrange(0, k));
    } else {
        assert(d.subrange(0, k) =~= d);
        lemma_digits_nonneg(d);
    }
}

proof fn lemma_digits_nonneg(d: Seq<u8>)
    requires
        forall|m: int| 0 <= m < d.len() ==> is_digit(#[trigger] d[m]),
    ensures
        0 <= digits_value(d),
    decreases d.len(),
{
    if d.len() > 0 {
        lemma_digits_nonneg(d.drop_last());
    }
}

proof fn lemma_decimal_none(s: Seq<u8>, d: Seq<u8>)
    requires
        d == unsigned_digits(s),
        !all_digits(d) || digits_value(d) > u32::MAX,
    ensures
        decimal(s) == None::<u32>,
{
}

/// Reads a decimal number, as `str::parse::<u32>` does.
pub fn parse_decimal(s: &Vec<u8>) -> (r: Option<u32>)
    ensures
        r == decimal(s@),
{
    let start: usize = if s.len() > 0 && s[0] == 43u8 {
        1
    } else {
        0
    };
    let ghost d = s@.subrange(start as int, s@.len() as int);
    proof {
        if start == 1 {
            assert(d =~= s@.drop_first());
        } else {
            assert(d =~= s@);
        }
    }
    if start >= s.len() {
        return None;
    }
    let mut value: u64 = 0;
    let mut k: usize = start;
    while k < s.len()
        invariant
            start <= k <= s@.len(),
            d == s@.subrange(start as int, s@.len() as int),
            d == unsigned_digits(s@),
            forall|m: int| 0 <= m < k - start ==> is_digit(#[trigger] d[m]),
            value == digits_value(d.subrange(0, k - start)),
            value <= u32::MAX,
        decreases s@.len() - k,
    {
        let c = s[k];
        if c < 48u8 || c > 57u8 {
            proof {
                assert(d[k - start] == c);
                assert(!is_digit(d[k - start]));
                assert(!all_digits(d));
                lemma_decimal_none(s@, d);
            }
            return None;
        }
        proof {
            assert(d.subrange(0, k + 1 - start).drop_last() =~= d.subrange(0, k - start));
        }
        value = value * 10 + (c - 48u8) as u64;
        k = k + 1;
        if value > u32::MAX as u64 {
            proof {
                assert(value == digits_value(d.subrange(0, k - start)));
                if all_digits(d) {
                    lemma_digits_grow(d, k - start);
                }
                lemma_decimal_none(s@, d);
            }
            return None;
        }
    }
    proof {
        assert(d.subrange(0, k - start) =~= d);
    }
    Some(value as u32)
}

/// Where the field starting at `i` ends: the first space from `i` on, or the end.
pub open spec fn field_end(s: Seq<u8>, i: int) -> int
    decreases s.len() - i,
{
    if i >= s.len() || s[i] == 32u8 {
        i
    } else {
        field_end(s, i + 1)
    }
}

/// The fields of `s` from `i` on, as `str::split(' ')` cuts them: two spaces
/// in a row, or a space at an end, give an empty field.
pub open spec fn fields_from(s: Seq<u8>, i: int) -> Seq<Seq<u8>>
    decreases s.len() - i,
{
    if i > s.len() || i < 0 {
        Seq::empty()
    } else {
        let e = field_end(s, i);
        if e < i || e >= s.len() {
            seq![s.subrange(i, if e < i { i } else { s.len() as int })]
        } else {
            seq![s.subrange(i, e)] + fields_from(s, e + 1)
        }
    }
}

proof fn lemma_field_end(s: Seq<u8>, i: int)
    requires
        0 <= i <= s.len(),
    ensures
        i <= field_end(s, i) <= s.len(),
        field_end(s, i) < s.len() ==> s[field_end(s, i)] == 32u8,
        forall|k: int| i <= k < field_end(s, i) ==> s[k] != 32u8,
    decreases s.len() - i,
{
    if i < s.len() && s[i] != 32u8 {
        lemma_field_end(s, i + 1);
    }
}

/// Splits a line at each space.
pub fn split_fields(line: &Vec<u8>) -> (fields: Vec<Vec<u8>>)
    ensures
        fields@.map_values(|f: Vec<u8>| f@) == fields_from(line@, 0),
{
    let ghost b = line@;
    let mut fields: Vec<Vec<u8>> = Vec::new();
    let mut i: usize = 0;
    loop
        invariant
            i <= b.len(),
            b == line@,
            fields@.map_values(|f: Vec<u8>| f@) + fields_from(b, i as int) == fields_from(b, 0),
        decreases b.len() - i,
    {
        proof {
            lemma_field_end(b, i as int);
        }
        let mut e: usize = i;
        let mut piece: Vec<u8> = Vec::new();
        while e < line.len() && line[e] != 32u8
            invariant
                i <= e <= b.len(),
                b == line@,
                forall|k: int| i <= k < e ==> b[k] != 32u8,
                piece@ == b.subrange(i as int, e as int),
            decreases b.len() - e,
        {
            piece.push(line[e]);
            proof {
                assert(b.subrange(i as int, e + 1) == b.subrange(i as int, e as int).push(b[e as int]));
            }
            e = e + 1;
        }
        proof {
            assert(e == field_end(b, i as int)) by {
                if e < field_end(b, i as int) {
                    assert(b[e as int] != 32u8);
                } else if e > field_end(b, i as int) {
                    assert(b[field_end(b, i as int)] != 32u8);
                }
            }
        }
        let ghost before = fields@;
        fields.push(piece);
        proof {
            assert(fields@.map_values(|f: Vec<u8>| f@) == before.map_values(|f: Vec<u8>| f@).push(
                piece@,
            ));
        }
        if e >= line.len() {
            proof {
                assert(fields_from(b, i as int) == seq![piece@]);
                assert(fields@.map_values(|f: Vec<u8>| f@) =~= before.map_values(|f: Vec<u8>| f@)
                    + fields_from(b, i as int));
            }
            return fields;
        }
        proof {
            assert(fields_from(b, i as int) == seq![piece@] + fields_from(b, e + 1));
            assert(fields@.map_values(|f: Vec<u8>| f@) + fields_from(b, e + 1) =~= before.map_values(
                |f: Vec<u8>| f@,
            ) + fields_from(b, i as int));
        }
        i = e + 1;
    }
}

pub open spec fn texts(ls: Seq<Vec<u8>>) -> Seq<Seq<u8>> {
    ls.map_values(|l: Vec<u8>| l@)
}

/// A job line: its first three fields are `r`, `p` and `q`; later fields are
/// not read.
pub open spec fn job_line(line: Seq<u8>) -> Option<Task> {
    let f = fields_from(line, 0);
    if f.len() >= 3 && decimal(f[0]) is Some && decimal(f[1]) is Some && decimal(f[2]) is Some {
        Some(Task { r: decimal(f[0]).unwrap(), p: decimal(f[1]).unwrap(), q: decimal(f[2]).unwrap() })
    } else {
        None
    }
}

/// The job lines from `i` on, up to and past the first empty line (or to the
/// end), and the index after them.
pub open spec fn jobs_from(ls: Seq<Seq<u8>>, i: int) -> Option<(Seq<Task>, int)>
    decreases ls.len() - i,
{
    if i >= ls.len() || i < 0 {
        Some((Seq::empty(), i))
    } else if ls[i].len() == 0 {
        Some((Seq::empty(), i + 1))
    } else {
        match job_line(ls[i]) {
            None => None,
            Some(t) => match jobs_from(ls, i + 1) {
                None => None,
                Some((d, j)) => Some((seq![t] + d, j)),
            },
        }
    }
}

/// The index after the first line from `i` on that equals `marker`, or the
/// end.
pub open spec fn skip_past(ls: Seq<Seq<u8>>, i: int, marker: Seq<u8>) -> int
    decreases ls.len() - i,
{
    if i >= ls.len() || i < 0 {
        i
    } else if ls[i] == marker {
        i + 1
    } else {
        skip_past(ls, i + 1, marker)
    }
}

/// A 1-based position into `n` jobs.
pub open spec fn position_ok(field: Seq<u8>, n: int) -> bool {
    decimal(field) matches Some(v) && 1 <= v <= n
}

/// An order line: each field is a 1-based position into `data`.
pub open spec fn order_line(line: Seq<u8>, data: Seq<Task>) -> Option<Seq<Task>> {
    let f = fields_from(line, 0);
    if forall|k: int| 0 <= k < f.len() ==> position_ok(#[trigger] f[k], data.len() as int) {
        Some(Seq::new(f.len(), |k: int| data[decimal(f[k]).unwrap() - 1]))
    } else {
        None
    }
}

/// One test case of a fixture file.
pub struct Block {
    pub name: Seq<u8>,
    pub size: u32,
    pub data: Seq<Task>,
    pub order: Seq<Task>,
    pub cmax: u32,
    pub cmax_preemptive: u32,
}

/// The line after which the preemptive Cmax stands.
pub open spec fn preemptive_marker() -> Seq<u8> {
    seq![115u8, 99u8, 104u8, 114u8, 112u8, 109u8, 116u8, 110u8, 58u8]
}

/// The line after which the non-preemptive Cmax and the order stand.
pub open spec fn cmax_marker() -> Seq<u8> {
    seq![115u8, 99u8, 104u8, 114u8, 58u8]
}

/// The number on line `i` if there is one (`0` past the end), and the index
/// after it.
pub open spec fn number_at(ls: Seq<Seq<u8>>, i: int) -> (Option<u32>, int) {
    if 0 <= i < ls.len() {
        (decimal(ls[i]), i + 1)
    } else {
        (Some(0u32), i)
    }
}

/// The test case whose label is line `i`: the job count, the jobs, the
/// preemptive Cmax after its marker, the Cmax after its marker and the order
/// on the line after that; and the index after the case.
pub open spec fn block_at(ls: Seq<Seq<u8>>, i: int) -> Option<(Block, int)> {
    let (size, i2) = number_at(ls, i + 1);
    match size {
        None => None,
        Some(n) => match jobs_from(ls, i2) {
            None => None,
            Some((data, i3)) => {
                let (pre, i5) = number_at(ls, skip_past(ls, i3, preemptive_marker()));
                match pre {
                    None => None,
                    Some(cp) => {
                        let (c, i7) = number_at(ls, skip_past(ls, i5, cmax_marker()));
                        match c {
                            None => None,
                            Some(cm) => {
                                let order = if 0 <= i7 < ls.len() {
                                    order_line(ls[i7], data)
                                } else {
                                    Some(Seq::empty())
                                };
                                let i8 = if 0 <= i7 < ls.len() {
                                    i7 + 1
                                } else {
                                    i7
                                };
                                match order {
                                    None => None,
                                    Some(o) => Some(
                                        (
                                            Block {
                                                name: ls[i],
                                                size: n,
                                                data,
                                                order: o,
                                                cmax: cm,
                                                cmax_preemptive: cp,
                                            },
                                            i8,
                                        ),
                                    ),
                                }
                            },
                        }
                    },
                }
            },
        },
    }
}

/// The test cases from line `i` on: each starts at a line beginning with `d`;
/// other lines between cases are passed over. `None` where a case is
/// malformed.
pub open spec fn blocks_from(ls: Seq<Seq<u8>>, i: int) -> Option<Seq<Block>>
    decreases ls.len() - i,
{
    if i >= ls.len() || i < 0 {
        Some(Seq::empty())
    } else if ls[i].len() > 0 && ls[i][0] == 100u8 {
        match block_at(ls, i) {
            None => None,
            Some((b, j)) => if j <= i || j > ls.len() {
                None
            } else {
                match blocks_from(ls, j) {
                    None => None,
                    Some(rest) => Some(seq![b] + rest),
                }
            },
        }
    } else {
        blocks_from(ls, i + 1)
    }
}

/// One test case read from a fixture file.
#[derive(Debug)]
pub struct TestData {
    pub data_name: Vec<u8>,
    pub data_size: usize,
    pub data: Vec<Task>,
    pub order: Vec<Task>,
    pub cmax: u32,
    pub cmax_preemptive: u32,
}

pub open spec fn matches_block(d: TestData, b: Block) -> bool {
    &&& d.data_name@ == b.name
    &&& d.data_size == b.size
    &&& d.data@ == b.data
    &&& d.order@ == b.order
    &&& d.cmax == b.cmax
    &&& d.cmax_preemptive == b.cmax_preemptive
}

fn copy_bytes(v: &Vec<u8>) -> (r: Vec<u8>)
    ensures
        r@ == v@,
{
    let mut r: Vec<u8> = Vec::new();
    let mut k: usize = 0;
    while k < v.len()
        invariant
            k <= v@.len(),
            r@ == v@.subrange(0, k as int),
        decreases v@.len() - k,
    {
        r.push(v[k]);
        proof {
            assert(v@.subrange(0, k + 1) == v@.subrange(0, k as int).push(v@[k as int]));
        }
        k = k + 1;
    }
    proof {
        assert(v@.subrange(0, k as int) =~= v@);
    }
    r
}

fn same_bytes(a: &Vec<u8>, b: &Vec<u8>) -> (r: bool)
    ensures
        r == (a@ == b@),
{
    if a.len() != b.len() {
        return false;
    }
    let mut k: usize = 0;
    while k < a.len()
        invariant
            k <= a@.len(),
            a@.len() == b@.len(),
            forall|m: int| 0 <= m < k ==> a@[m] == b@[m],
        decreases a@.len() - k,
    {
        if a[k] != b[k] {
            return false;
        }
        k = k + 1;
    }
    proof {
        assert(a@ =~= b@);
    }
    true
}

fn parse_job_line(line: &Vec<u8>) -> (r: Option<Task>)
    ensures
        r == job_line(line@),
{
    let fields = split_fields(line);
    let ghost f = fields_from(line@, 0);
    proof {
        assert(fields@.len() == f.len());
    }
    if fields.len() < 3 {
        return None;
    }
    proof {
        assert(fields@[0]@ == f[0]);
        assert(fields@[1]@ == f[1]);
        assert(fields@[2]@ == f[2]);
    }
    match (parse_decimal(&fields[0]), parse_decimal(&fields[1]), parse_decimal(&fields[2])) {
        (Some(r), Some(p), Some(q)) => Some(Task { r, p, q }),
        _ => None,
    }
}

pub open spec fn prepend_jobs(acc: Seq<Task>, rest: Option<(Seq<Task>, int)>) -> Option<(Seq<Task>, int)> {
    match rest {
        None => None,
        Some((d, j)) => Some((acc + d, j)),
    }
}

proof fn lemma_jobs_from_range(ls: Seq<Seq<u8>>, i: int)
    requires
        0 <= i <= ls.len(),
    ensures
        jobs_from(ls, i) matches Some((d, j)) ==> i <= j <= ls.len(),
    decreases ls.len() - i,
{
    if i < ls.len() && ls[i].len() != 0 {
        lemma_jobs_from_range(ls, i + 1);
    }
}

proof fn lemma_skip_past_range(ls: Seq<Seq<u8>>, i: int, m: Seq<u8>)
    requires
        0 <= i <= ls.len(),
    ensures
        i <= skip_past(ls, i, m) <= ls.len(),
    decreases ls.len() - i,
{
    if i < ls.len() && ls[i] != m {
        lemma_skip_past_range(ls, i + 1, m);
    }
}

fn parse_jobs(ls: &Vec<Vec<u8>>, i: usize) -> (r: Option<(Vec<Task>, usize)>)
    requires
        i <= ls@.len(),
    ensures
        match r {
            None => jobs_from(texts(ls@), i as int) is None,
            Some((d, j)) => jobs_from(texts(ls@), i as int) == Some((d@, j as int)),
        },
{
    let ghost t = texts(ls@);
    let mut acc: Vec<Task> = Vec::new();
    let mut k: usize = i;
    while k < ls.len()
        invariant
            i <= k <= ls@.len(),
            t == texts(ls@),
            jobs_from(t, i as int) == prepend_jobs(acc@, jobs_from(t, k as int)),
        decreases ls@.len() - k,
    {
        proof {
            assert(t[k as int] == ls@[k as int]@);
        }
        if ls[k].len() == 0 {
            proof {
                assert(acc@ + Seq::<Task>::empty() =~= acc@);
            }
            return Some((acc, k + 1));
        }
        match parse_job_line(&ls[k]) {
            None => {
                return None;
            },
            Some(task) => {
                let ghost before = acc@;
                acc.push(task);
                proof {
                    match jobs_from(t, k + 1) {
                        None => {},
                        Some((d, j)) => {
                            assert(before + (seq![task] + d) =~= acc@ + d);
                        },
                    }
                }
                k = k + 1;
            },
        }
    }
    proof {
        assert(acc@ + Seq::<Task>::empty() =~= acc@);
    }
    Some((acc, k))
}

fn skip_to_after(ls: &Vec<Vec<u8>>, i: usize, marker: &Vec<u8>) -> (j: usize)
    requires
        i <= ls@.len(),
    ensures
        j == skip_past(texts(ls@), i as int, marker@),
        i <= j <= ls@.len(),
{
    let ghost t = texts(ls@);
    proof {
        lemma_skip_past_range(t, i as int, marker@);
    }
    let mut k: usize = i;
    while k < ls.len()
        invariant
            i <= k <= ls@.len(),
            t == texts(ls@),
            skip_past(t, i as int, marker@) == skip_past(t, k as int, marker@),
        decreases ls@.len() - k,
    {
        proof {
            assert(t[k as int] == ls@[k as int]@);
        }
        if same_bytes(&ls[k], marker) {
            return k + 1;
        }
        k = k + 1;
    }
    k
}

fn number_line(ls: &Vec<Vec<u8>>, i: usize) -> (r: (Option<u32>, usize))
    requires
        i <= ls@.len(),
    ensures
        r.0 == number_at(texts(ls@), i as int).0,
        r.1 == number_at(texts(ls@), i as int).1,
        i <= r.1 <= ls@.len(),
{
    if i < ls.len() {
        proof {
            assert(texts(ls@)[i as int] == ls@[i as int]@);
        }
        (parse_decimal(&ls[i]), i + 1)
    } else {
        (Some(0u32), i)
    }
}

fn parse_order(line: &Vec<u8>, data: &Vec<Task>) -> (r: Option<Vec<Task>>)
    ensures
        match r {
            None => order_line(line@, data@) is None,
            Some(o) => order_line(line@, data@) == Some(o@),
        },
{
    let fields = split_fields(line);
    let ghost f = fields_from(line@, 0);
    proof {
        assert(fields@.len() == f.len());
    }
    let mut out: Vec<Task> = Vec::new();
    let mut k: usize = 0;
    while k < fields.len()
        invariant
            k <= fields@.len(),
            fields@.len() == f.len(),
            f == fields@.map_values(|x: Vec<u8>| x@),
            f == fields_from(line@, 0),
            forall|m: int| 0 <= m < k ==> position_ok(#[trigger] f[m], data@.len() as int),
            out@ =~= Seq::new(k as nat, |m: int| data@[decimal(f[m]).unwrap() - 1]),
        decreases fields@.len() - k,
    {
        proof {
            assert(fields@[k as int]@ == f[k as int]);
        }
        match parse_decimal(&fields[k]) {
            None => {
                proof {
                    assert(!position_ok(f[k as int], data@.len() as int));
                }
                return None;
            },
            Some(v) => {
                if v < 1 || v as usize > data.len() {
                    proof {
                        assert(!position_ok(f[k as int], data@.len() as int));
                    }
                    return None;
                }
                out.push(data[v as usize - 1]);
                k = k + 1;
            },
        }
    }
    Some(out)
}

fn parse_block(ls: &Vec<Vec<u8>>, i: usize) -> (r: Option<(TestData, usize)>)
    requires
        i < ls@.len(),
    ensures
        match r {
            None => block_at(texts(ls@), i as int) is None,
            Some((d, j)) => block_at(texts(ls@), i as int) matches Some((b, j2)) && j2 == j
                && matches_block(d, b) && i < j <= ls@.len(),
        },
{
    let ghost t = texts(ls@);
    let count = ls.len();
    let (size, i2) = number_line(ls, i + 1);
    let n = match size {
        None => {
            return None;
        },
        Some(n) => n,
    };
    let (data, i3) = match parse_jobs(ls, i2) {
        None => {
            return None;
        },
        Some(pair) => pair,
    };
    proof {
        lemma_jobs_from_range(t, i2 as int);
    }
    let pre_marker: Vec<u8> = vec![115u8, 99u8, 104u8, 114u8, 112u8, 109u8, 116u8, 110u8, 58u8];
    let cmax_mark: Vec<u8> = vec![115u8, 99u8, 104u8, 114u8, 58u8];
    proof {
        assert(pre_marker@ =~= preemptive_marker());
        assert(cmax_mark@ =~= cmax_marker());
    }
    let i4 = skip_to_after(ls, i3, &pre_marker);
    let (pre, i5) = number_line(ls, i4);
    let cp = match pre {
        None => {
            return None;
        },
        Some(cp) => cp,
    };
    let i6 = skip_to_after(ls, i5, &cmax_mark);
    let (c, i7) = number_line(ls, i6);
    let cm = match c {
        None => {
            return None;
        },
        Some(cm) => cm,
    };
    let (order, i8) = if i7 < ls.len() {
        proof {
            assert(t[i7 as int] == ls@[i7 as int]@);
        }
        match parse_order(&ls[i7], &data) {
            None => {
                return None;
            },
            Some(o) => (o, i7 + 1),
        }
    } else {
        (Vec::new(), i7)
    };
    proof {
        assert(t[i as int] == ls@[i as int]@);
    }
    let name = copy_bytes(&ls[i]);
    Some(
        (
            TestData {
                data_name: name,
                data_size: n as usize,
                data,
                order,
                cmax: cm,
                cmax_preemptive: cp,
            },
            i8,
        ),
    )
}

pub open spec fn prepend_blocks(acc: Seq<Block>, rest: Option<Seq<Block>>) -> Option<Seq<Block>> {
    match rest {
        None => None,
        Some(r) => Some(acc + r),
    }
}

/// Reads the test cases of a fixture file: blocks that each begin with a line
/// starting with `d`, then the job count, the jobs as `r p q` lines up to an
/// empty line, the line `schrpmtn:` with the preemptive Cmax on the next
/// line, and the line `schr:` with the Cmax and then the 1-based dispatch
/// order on the two lines after it. `None` where a number or a position does
/// not read.
pub fn parse_test_file(text: &Vec<u8>) -> (r: Option<Vec<TestData>>)
    ensures
        match r {
            None => blocks_from(lines_from(text@, 0), 0) is None,
            Some(v) => blocks_from(lines_from(text@, 0), 0) matches Some(bs) && bs.len() == v@.len()
                && forall|k: int| 0 <= k < bs.len() ==> matches_block(#[trigger] v@[k], bs[k]),
        },
{
    let ls = split_lines(text);
    let ghost t = texts(ls@);
    proof {
        assert(t == lines_from(text@, 0));
    }
    let mut out: Vec<TestData> = Vec::new();
    let ghost mut got: Seq<Block> = Seq::empty();
    let mut i: usize = 0;
    while i < ls.len()
        invariant
            i <= ls@.len(),
            t == texts(ls@),
            t == lines_from(text@, 0),
            blocks_from(t, 0) == prepend_blocks(got, blocks_from(t, i as int)),
            got.len() == out@.len(),
            forall|k: int| 0 <= k < got.len() ==> matches_block(#[trigger] out@[k], got[k]),
        decreases ls@.len() - i,
    {
        proof {
            assert(t[i as int] == ls@[i as int]@);
        }
        if ls[i].len() > 0 && ls[i][0] == 100u8 {
            match parse_block(&ls, i) {
                None => {
                    proof {
                        assert(t[i as int].len() > 0 && t[i as int][0] == 100u8);
                        assert(blocks_from(t, i as int) is None);
                    }
                    return None;
                },
                Some((d, j)) => {
                    proof {
                        let (b, j2) = block_at(t, i as int).unwrap();
                        match blocks_from(t, j as int) {
                            None => {},
                            Some(rest) => {
                                assert(got + (seq![b] + rest) =~= got.push(b) + rest);
                            },
                        }
                        got = got.push(b);
                    }
                    out.push(d);
                    i = j;
                },
            }
        } else {
            i = i + 1;
        }
    }
    proof {
        assert(got + Seq::<Block>::empty() =~= got);
    }
    Some(out)
}

} // verus!
