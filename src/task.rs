//! The job record and its two ordering views.
use crate::heap::Ranked;
use std::cmp::Ordering;
use vstd::prelude::*;

verus! {

/// A job: release time `r`, processing time `p`, delivery (cooldown) time `q`.
#[derive(Clone, Copy, Debug, PartialEq, Eq, Structural, PartialOrd, Ord)]
pub struct Task {
    pub r: u32,
    pub p: u32,
    pub q: u32,
}

impl Task {
    pub fn new(r: u32, p: u32, q: u32) -> (t: Task)
        ensures
            t.r == r,
            t.p == p,
            t.q == q,
    {
        Task { r, p, q }
    }
}

/// Tasks order lexicographically by `(r, p, q)`, as the derived `Ord` does.
impl Ranked for Task {
    open spec fn rank(&self) -> int {
        self.r as int * 0x1_0000_0000_0000_0000 + self.p as int * 0x1_0000_0000 + self.q as int
    }

    fn greater(&self, other: &Self) -> (b: bool) {
        proof {
            let (a1, a2, a3) = (self.r as int, self.p as int, self.q as int);
            let (b1, b2, b3) = (other.r as int, other.p as int, other.q as int);
            assert(a1 > b1 ==> self.rank() > other.rank()) by (nonlinear_arith)
                requires
                    0 <= a2 < 0x1_0000_0000, 0 <= a3 < 0x1_0000_0000,
                    0 <= b2 < 0x1_0000_0000, 0 <= b3 < 0x1_0000_0000,
                    self.rank() == a1 * 0x1_0000_0000_0000_0000 + a2 * 0x1_0000_0000 + a3,
                    other.rank() == b1 * 0x1_0000_0000_0000_0000 + b2 * 0x1_0000_0000 + b3;
            assert(a1 < b1 ==> self.rank() < other.rank()) by (nonlinear_arith)
                requires
                    0 <= a2 < 0x1_0000_0000, 0 <= a3 < 0x1_0000_0000,
                    0 <= b2 < 0x1_0000_0000, 0 <= b3 < 0x1_0000_0000,
                    self.rank() == a1 * 0x1_0000_0000_0000_0000 + a2 * 0x1_0000_0000 + a3,
                    other.rank() == b1 * 0x1_0000_0000_0000_0000 + b2 * 0x1_0000_0000 + b3;
        }
        if self.r != other.r {
            self.r > other.r
        } else if self.p != other.p {
            self.p > other.p
        } else {
            self.q > other.q
        }
    }
}

/// Delivery-time view: the larger `q` ranks higher, so a max-heap of these
/// hands out the available job with the largest delivery time first.
/// Two views are equal when their delivery times are.
#[derive(Clone, Copy, Debug)]
pub struct QInvariant(pub Task);

/// Release-time view: the smaller `r` ranks higher, so a max-heap of these
/// hands out the job released soonest first.
/// Two views are equal when their release times are.
#[derive(Clone, Copy, Debug)]
pub struct RInvariant(pub Task);

impl Ranked for QInvariant {
    open spec fn rank(&self) -> int {
        self.0.q as int
    }

    fn greater(&self, other: &Self) -> (b: bool) {
        self.0.q > other.0.q
    }
}

impl Ranked for RInvariant {
    open spec fn rank(&self) -> int {
        -(self.0.r as int)
    }

    fn greater(&self, other: &Self) -> (b: bool) {
        self.0.r < other.0.r
    }
}

impl PartialEq for QInvariant {
    fn eq(&self, other: &QInvariant) -> (b: bool) {
        self.0.q == other.0.q
    }
}

impl vstd::std_specs::cmp::PartialEqSpecImpl for QInvariant {
    open spec fn obeys_eq_spec() -> bool {
        true
    }

    open spec fn eq_spec(&self, other: &QInvariant) -> bool {
        self.0.q == other.0.q
    }
}

impl PartialEq for RInvariant {
    fn eq(&self, other: &RInvariant) -> (b: bool) {
        self.0.r == other.0.r
    }
}

impl vstd::std_specs::cmp::PartialEqSpecImpl for RInvariant {
    open spec fn obeys_eq_spec() -> bool {
        true
    }

    open spec fn eq_spec(&self, other: &RInvariant) -> bool {
        self.0.r == other.0.r
    }
}

/// How two integers compare, as `Ord::cmp` on them.
pub open spec fn order_of(a: int, b: int) -> Ordering {
    if a < b {
        Ordering::Less
    } else if a == b {
        Ordering::Equal
    } else {
        Ordering::Greater
    }
}

fn compare(a: u32, b: u32) -> (o: Ordering)
    ensures
        o == order_of(a as int, b as int),
{
    if a < b {
        Ordering::Less
    } else if a == b {
        Ordering::Equal
    } else {
        Ordering::Greater
    }
}

/// Orders by delivery time.
impl PartialOrd for QInvariant {
    fn partial_cmp(&self, other: &QInvariant) -> (o: Option<Ordering>) {
        Some(compare(self.0.q, other.0.q))
    }
}

impl vstd::std_specs::cmp::PartialOrdSpecImpl for QInvariant {
    open spec fn obeys_partial_cmp_spec() -> bool {
        true
    }

    open spec fn partial_cmp_spec(&self, other: &QInvariant) -> Option<Ordering> {
        Some(order_of(self.0.q as int, other.0.q as int))
    }
}

/// Orders by release time, reversed: the earlier release is the greater.
impl PartialOrd for RInvariant {
    fn partial_cmp(&self, other: &RInvariant) -> (o: Option<Ordering>) {
        Some(compare(other.0.r, self.0.r))
    }
}

impl vstd::std_specs::cmp::PartialOrdSpecImpl for RInvariant {
    open spec fn obeys_partial_cmp_spec() -> bool {
        true
    }

    open spec fn partial_cmp_spec(&self, other: &RInvariant) -> Option<Ordering> {
        Some(order_of(other.0.r as int, self.0.r as int))
    }
}

impl From<Task> for QInvariant {
    fn from(task: Task) -> (v: QInvariant) {
        QInvariant(task)
    }
}

impl vstd::std_specs::convert::FromSpecImpl<Task> for QInvariant {
    open spec fn obeys_from_spec() -> bool {
        true
    }

    open spec fn from_spec(task: Task) -> QInvariant {
        QInvariant(task)
    }
}

impl From<Task> for RInvariant {
    fn from(task: Task) -> (v: RInvariant) {
        RInvariant(task)
    }
}

impl vstd::std_specs::convert::FromSpecImpl<Task> for RInvariant {
    open spec fn obeys_from_spec() -> bool {
        true
    }

    open spec fn from_spec(task: Task) -> RInvariant {
        RInvariant(task)
    }
}

impl From<QInvariant> for Task {
    fn from(value: QInvariant) -> (t: Task) {
        value.0
    }
}

impl vstd::std_specs::convert::FromSpecImpl<QInvariant> for Task {
    open spec fn obeys_from_spec() -> bool {
        true
    }

    open spec fn from_spec(value: QInvariant) -> Task {
        value.0
    }
}

impl From<RInvariant> for Task {
    fn from(value: RInvariant) -> (t: Task) {
        value.0
    }
}

impl vstd::std_specs::convert::FromSpecImpl<RInvariant> for Task {
    open spec fn obeys_from_spec() -> bool {
        true
    }

    open spec fn from_spec(value: RInvariant) -> Task {
        value.0
    }
}

} // verus!
