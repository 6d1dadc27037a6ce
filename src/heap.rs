//! A binary max-heap over an array, generic over a rank, with the heap
//! property and the contents proved through every operation.
use vstd::multiset::Multiset;
use vstd::prelude::*;
use vstd::seq_lib::group_to_multiset_ensures;

verus! {

broadcast use group_to_multiset_ensures;

/// An element type with a total preorder given by an integer rank.
/// The heap hands out elements of highest rank first.
pub trait Ranked: Copy + Sized {
    spec fn rank(&self) -> int;

    fn greater(&self, other: &Self) -> (b: bool)
        ensures
            b == (self.rank() > other.rank()),
    ;
}

impl Ranked for i32 {
    open spec fn rank(&self) -> int {
        *self as int
    }

    fn greater(&self, other: &Self) -> (b: bool) {
        *self > *other
    }
}

pub open spec fn parent(i: int) -> int {
    (i - 1) / 2
}

pub(crate) proof fn lemma_parent(i: int)
    requires
        i > 0,
    ensures
        0 <= parent(i) < i,
        i == 2 * parent(i) + 1 || i == 2 * parent(i) + 2,
{
}

/// The child at index `c` (if there is one) ranks no higher than the node at `j`.
pub open spec fn child_ok<T: Ranked>(s: Seq<T>, j: int, c: int) -> bool {
    c < s.len() ==> s[c].rank() <= s[j].rank()
}

pub open spec fn node_ok<T: Ranked>(s: Seq<T>, j: int) -> bool {
    child_ok(s, j, 2 * j + 1) && child_ok(s, j, 2 * j + 2)
}

/// Every node at index `k` or beyond ranks at least as high as its children.
pub open spec fn heap_from<T: Ranked>(s: Seq<T>, k: int) -> bool {
    forall|j: int| k <= j < s.len() ==> #[trigger] node_ok(s, j)
}

/// The max-heap property over the whole array.
pub open spec fn is_heap<T: Ranked>(s: Seq<T>) -> bool {
    heap_from(s, 0)
}

pub open spec fn node_ok_except<T: Ranked>(s: Seq<T>, j: int, i: int) -> bool {
    &&& (2 * j + 1 != i ==> child_ok(s, j, 2 * j + 1))
    &&& (2 * j + 2 != i ==> child_ok(s, j, 2 * j + 2))
}

/// A heap but for the node at `i`, which may outrank its parent; the
/// children of `i` rank no higher than that parent.
pub open spec fn heap_but_up<T: Ranked>(s: Seq<T>, i: int) -> bool {
    &&& forall|j: int| 0 <= j < s.len() ==> #[trigger] node_ok_except(s, j, i)
    &&& i > 0 ==> child_ok(s, parent(i), 2 * i + 1) && child_ok(s, parent(i), 2 * i + 2)
}

/// A heap from `start` on, but for the node at `i` in the subtree of `start`,
/// which may rank lower than its children; those rank no higher than its parent.
pub open spec fn heap_but_down<T: Ranked>(s: Seq<T>, start: int, i: int) -> bool {
    &&& forall|j: int| start <= j < s.len() && j != i ==> #[trigger] node_ok(s, j)
    &&& i > start ==> start <= parent(i) && child_ok(s, parent(i), 2 * i + 1) && child_ok(
        s,
        parent(i),
        2 * i + 2,
    )
}

/// The index that `sift_down` swaps node `i` with: its left child if that
/// outranks it, then its right child if that outranks the one chosen so far;
/// `i` itself if neither does.
pub open spec fn largest_of<T: Ranked>(s: Seq<T>, i: int) -> int {
    let a = if 2 * i + 1 < s.len() && s[2 * i + 1].rank() > s[i].rank() {
        2 * i + 1
    } else {
        i
    };
    if 2 * i + 2 < s.len() && s[2 * i + 2].rank() > s[a].rank() {
        2 * i + 2
    } else {
        a
    }
}

pub open spec fn swap_at<T>(s: Seq<T>, i: int, j: int) -> Seq<T> {
    s.update(i, s[j]).update(j, s[i])
}

/// The array after moving node `i` down, swap by swap, until no child
/// outranks it.
pub open spec fn sifted<T: Ranked>(s: Seq<T>, i: int) -> Seq<T>
    decreases s.len() - i,
{
    if i < 0 || i >= s.len() / 2 {
        s
    } else {
        let c = largest_of(s, i);
        if c == i || c >= s.len() {
            s
        } else {
            sifted(swap_at(s, i, c), c)
        }
    }
}

/// The array after moving node `i` up, swap by swap, while it outranks its
/// parent.
pub open spec fn lifted<T: Ranked>(s: Seq<T>, i: int) -> Seq<T>
    decreases i,
{
    if i <= 0 || i >= s.len() {
        s
    } else if s[i].rank() > s[parent(i)].rank() && 0 <= parent(i) < i {
        lifted(swap_at(s, i, parent(i)), parent(i))
    } else {
        s
    }
}

/// The array after `pop`: the last element moved to the root and sifted
/// down.
pub open spec fn after_pop<T: Ranked>(s: Seq<T>) -> Seq<T> {
    if s.len() <= 1 {
        Seq::empty()
    } else {
        sifted(s.update(0, s.last()).drop_last(), 0)
    }
}

/// The array after sifting down nodes `i - 1`, ..., `0` in turn.
pub open spec fn heapified<T: Ranked>(s: Seq<T>, i: int) -> Seq<T>
    decreases i,
{
    if i <= 0 {
        s
    } else {
        heapified(sifted(s, i - 1), i - 1)
    }
}

/// Index `j` lies in the subtree rooted at index `i`.
pub open spec fn in_subtree(j: int, i: int) -> bool
    decreases j,
{
    if j == i {
        true
    } else if j <= i || j <= 0 {
        false
    } else {
        in_subtree(parent(j), i)
    }
}

/// Every node of the subtree at `i`, but perhaps `i` itself, ranks at least
/// as high as its children.
pub open spec fn subtree_heap_but_root<T: Ranked>(s: Seq<T>, i: int) -> bool {
    forall|j: int| 0 <= j < s.len() && j != i && #[trigger] in_subtree(j, i) ==> node_ok(s, j)
}

/// Every node of the subtree at `i` ranks at least as high as its children.
pub open spec fn subtree_heap<T: Ranked>(s: Seq<T>, i: int) -> bool {
    forall|j: int| 0 <= j < s.len() && #[trigger] in_subtree(j, i) ==> node_ok(s, j)
}

/// The subtree at `start` is a heap but for the node at `i` in it, whose
/// children rank no higher than its parent.
pub open spec fn subtree_but_down<T: Ranked>(s: Seq<T>, start: int, i: int) -> bool {
    &&& forall|j: int| 0 <= j < s.len() && j != i && #[trigger] in_subtree(j, start) ==> node_ok(s, j)
    &&& i != start ==> child_ok(s, parent(i), 2 * i + 1) && child_ok(s, parent(i), 2 * i + 2)
}

proof fn lemma_subtree_child(i: int, c: int, start: int)
    requires
        in_subtree(i, start),
        c == 2 * i + 1 || c == 2 * i + 2,
        0 <= start,
    ensures
        in_subtree(c, start),
        parent(c) == i,
{
    assert(i >= start);
    assert(parent(c) == i);
}

proof fn lemma_subtree_parent(i: int, start: int)
    requires
        in_subtree(i, start),
        i != start,
    ensures
        in_subtree(parent(i), start),
        i > start,
        i > 0,
{
}

/// One swap of `sift_down` keeps the subtree shape, with the hole moved to
/// the child `c`.
proof fn lemma_down_step_subtree<T: Ranked>(s: Seq<T>, s2: Seq<T>, start: int, i: int, c: int)
    requires
        0 <= start,
        subtree_but_down(s, start, i),
        in_subtree(i, start),
        c == 2 * i + 1 || c == 2 * i + 2,
        c < s.len(),
        s[i].rank() < s[c].rank(),
        2 * i + 1 < s.len() ==> s[2 * i + 1].rank() <= s[c].rank(),
        2 * i + 2 < s.len() ==> s[2 * i + 2].rank() <= s[c].rank(),
        s2 == s.update(i, s[c]).update(c, s[i]),
    ensures
        subtree_but_down(s2, start, c),
        in_subtree(c, start),
{
    lemma_subtree_child(i, c, start);
    assert forall|j: int| 0 <= j < s2.len() && j != c && #[trigger] in_subtree(j, start) implies node_ok(
        s2,
        j,
    ) by {
        if j == i {
            assert(child_ok(s2, j, 2 * j + 1));
            assert(child_ok(s2, j, 2 * j + 2));
        } else if i != start && j == parent(i) {
            lemma_parent(i);
            assert(node_ok(s, j));
            assert(s2[j] == s[j]);
            if 2 * j + 2 != i && 2 * j + 2 < s.len() {
                assert(s2[2 * j + 2] == s[2 * j + 2]);
            }
            if 2 * j + 1 != i && 2 * j + 1 < s.len() {
                assert(s2[2 * j + 1] == s[2 * j + 1]);
            }
            assert(child_ok(s2, j, 2 * j + 1));
            assert(child_ok(s2, j, 2 * j + 2));
        } else {
            assert(node_ok(s, j));
            assert(2 * j + 1 != i && 2 * j + 2 != i);
            assert(2 * j + 1 != c && 2 * j + 2 != c);
        }
    }
    assert(node_ok(s, c));
}

/// In a heap, the root ranks at least as high as every element.
pub proof fn lemma_root_max<T: Ranked>(s: Seq<T>, i: int)
    requires
        is_heap(s),
        0 <= i < s.len(),
    ensures
        s[i].rank() <= s[0].rank(),
    decreases i,
{
    if i > 0 {
        lemma_root_max(s, parent(i));
        assert(node_ok(s, parent(i)));
    }
}

proof fn lemma_swap_multiset<T>(s: Seq<T>, i: int, j: int)
    requires
        0 <= i < s.len(),
        0 <= j < s.len(),
    ensures
        s.update(i, s[j]).update(j, s[i]).to_multiset() == s.to_multiset(),
{
    let s1 = s.update(i, s[j]);
    assert(s1.to_multiset() == s.to_multiset().insert(s[j]).remove(s[i]));
    assert(s1.update(j, s[i]).to_multiset() == s1.to_multiset().insert(s[i]).remove(s1[j]));
    if i == j {
        assert(s1.update(j, s[i]) =~= s);
    } else {
        assert(s1.update(j, s[i]).to_multiset() =~= s.to_multiset());
    }
}

/// `pops` is what successive `pop` calls hand out of a heap holding `m` until
/// it is empty: each element ranks highest among those still left.
pub open spec fn popped_by_rank<T: Ranked>(m: Multiset<T>, pops: Seq<T>) -> bool {
    &&& pops.to_multiset() == m
    &&& forall|k: int, y: T|
        0 <= k < pops.len() && #[trigger] m.sub(pops.subrange(0, k).to_multiset()).contains(y)
            ==> y.rank() <= (#[trigger] pops[k]).rank()
}

/// Emptying a heap by repeated `pop` yields its contents in non-increasing
/// order of rank.
pub proof fn lemma_pops_non_increasing<T: Ranked>(m: Multiset<T>, pops: Seq<T>)
    requires
        popped_by_rank(m, pops),
    ensures
        forall|i: int, j: int| 0 <= i < j < pops.len() ==> pops[j].rank() <= pops[i].rank(),
{
    assert forall|i: int, j: int| 0 <= i < j < pops.len() implies pops[j].rank()
        <= pops[i].rank() by {
        let pre = pops.subrange(0, i);
        let post = pops.subrange(i, pops.len() as int);
        assert(pops =~= pre + post);
        vstd::seq_lib::lemma_multiset_commutative(pre, post);
        assert(post[j - i] == pops[j]);
        assert(post.to_multiset().contains(pops[j]));
        assert(m.sub(pre.to_multiset()).count(pops[j]) > 0);
        assert(m.sub(pre.to_multiset()).contains(pops[j]));
    }
}

/// A binary max-heap over an array: `heap[i]` ranks at least as high as
/// `heap[2i+1]` and `heap[2i+2]`, where those exist.
#[derive(Debug)]
pub struct HeapTree<T> {
    pub heap: Vec<T>,
}

impl<T: Ranked> HeapTree<T> {
    pub open spec fn wf(&self) -> bool {
        is_heap(self.heap@)
    }

    /// What the heap holds, regardless of layout.
    pub open spec fn contents(&self) -> Multiset<T> {
        self.heap@.to_multiset()
    }

    pub fn new() -> (h: HeapTree<T>)
        ensures
            h.wf(),
            h.heap@ == Seq::<T>::empty(),
    {
        HeapTree { heap: Vec::new() }
    }

    /// Bulk construction: restores the heap property bottom-up.
    pub fn from_vec(vec: Vec<T>) -> (h: HeapTree<T>)
        ensures
            h.heap@ == heapified(vec@, (vec@.len() / 2 + 1) as int),
            h.wf(),
            h.contents() == vec@.to_multiset(),
            h.heap@.len() == vec@.len(),
            is_heap(vec@) ==> h.heap@ == vec@,
    {
        let mut h = HeapTree { heap: vec };
        h.heapify_vec();
        h
    }

    fn swap_nodes(&mut self, i: usize, j: usize)
        requires
            i < old(self).heap@.len(),
            j < old(self).heap@.len(),
        ensures
            final(self).heap@ == old(self).heap@.update(i as int, old(self).heap@[j as int]).update(
                j as int,
                old(self).heap@[i as int],
            ),
            final(self).contents() == old(self).contents(),
    {
        proof {
            lemma_swap_multiset(self.heap@, i as int, j as int);
        }
        let a = self.heap[i];
        let b = self.heap[j];
        self.heap.set(i, b);
        self.heap.set(j, a);
    }

    pub fn is_empty(&self) -> (b: bool)
        ensures
            b == (self.heap@.len() == 0),
    {
        self.heap.is_empty()
    }

    /// The element of highest rank, without removing it.
    pub fn peek(&self) -> (r: Option<&T>)
        ensures
            match r {
                None => self.heap@.len() == 0,
                Some(x) => {
                    &&& self.heap@.len() > 0
                    &&& *x == self.heap@[0]
                    &&& self.wf() ==> forall|y: T| #[trigger]
                        self.contents().contains(y) ==> y.rank() <= x.rank()
                },
            },
    {
        if self.heap.len() == 0 {
            None
        } else {
            proof {
                if self.wf() {
                    assert forall|y: T| #[trigger] self.contents().contains(y) implies y.rank()
                        <= self.heap@[0].rank() by {
                        let k = self.heap@.index_of(y);
                        lemma_root_max(self.heap@, k);
                    }
                }
            }
            Some(&self.heap[0])
        }
    }

    /// Moves the node at `starting_node` up while it outranks its parent.
    pub fn sift_up(&mut self, starting_node: usize)
        requires
            starting_node < old(self).heap@.len() || starting_node == 0,
        ensures
            final(self).contents() == old(self).contents(),
            final(self).heap@.len() == old(self).heap@.len(),
            heap_but_up(old(self).heap@, starting_node as int) ==> is_heap(final(self).heap@),
            final(self).heap@ == lifted(old(self).heap@, starting_node as int),
    {
        let ghost pre = heap_but_up(self.heap@, starting_node as int);
        let ghost n = self.heap@.len();
        let mut current = starting_node;
        while current > 0 && self.heap[current].greater(&self.heap[(current - 1) / 2])
            invariant
                lifted(self.heap@, current as int) == lifted(old(self).heap@, starting_node as int),
                current < n || current == 0,
                self.heap@.len() == n,
                self.contents() == old(self).contents(),
                pre ==> heap_but_up(self.heap@, current as int),
            decreases current,
        {
            let par = (current - 1) / 2;
            let ghost s = self.heap@;
            proof {
                lemma_parent(current as int);
                assert(par == parent(current as int));
            }
            self.swap_nodes(current, par);
            proof {
                if pre {
                    let s2 = self.heap@;
                    let c = current as int;
                    let p = par as int;
                    assert(p == parent(c));
                    assert(node_ok_except(s, p, c));
                    assert forall|j: int| 0 <= j < s2.len() implies #[trigger] node_ok_except(
                        s2,
                        j,
                        p,
                    ) by {
                        assert(node_ok_except(s, j, c));
                        if j == c {
                        } else if j == p {
                        } else if p > 0 && j == parent(p) {
                        } else {
                        }
                    }
                    if p > 0 {
                        assert(node_ok_except(s, parent(p), c));
                    }
                }
            }
            current = par;
        }
        proof {
            if pre {
                let s = self.heap@;
                assert forall|j: int| 0 <= j < s.len() implies #[trigger] node_ok(s, j) by {
                    assert(node_ok_except(s, j, current as int));
                }
            }
        }
    }

    /// Appends `elem` and moves it up to its place.
    pub fn push(&mut self, elem: T)
        requires
            old(self).wf(),
        ensures
            final(self).wf(),
            final(self).contents() == old(self).contents().insert(elem),
            final(self).heap@.len() == old(self).heap@.len() + 1,
            final(self).heap@ == lifted(old(self).heap@.push(elem), old(self).heap@.len() as int),
    {
        let ghost s0 = self.heap@;
        self.heap.push(elem);
        let n = self.heap.len() - 1;
        proof {
            let s = self.heap@;
            assert(s == s0.push(elem));
            assert forall|j: int| 0 <= j < s.len() implies #[trigger] node_ok_except(
                s,
                j,
                n as int,
            ) by {
                if j < n {
                    assert(node_ok(s0, j));
                }
            }
        }
        self.sift_up(n);
    }

    /// Moves the node at `index` down while a child outranks it, swapping it
    /// with its higher-ranked child.
    pub fn sift_down(&mut self, index: usize)
        ensures
            final(self).contents() == old(self).contents(),
            final(self).heap@.len() == old(self).heap@.len(),
            heap_from(old(self).heap@, index + 1) ==> heap_from(final(self).heap@, index as int),
            node_ok(old(self).heap@, index as int) ==> final(self).heap@ == old(self).heap@,
            final(self).heap@ == sifted(old(self).heap@, index as int),
            subtree_heap_but_root(old(self).heap@, index as int) ==> subtree_heap(
                final(self).heap@,
                index as int,
            ),
            forall|j: int|
                0 <= j < old(self).heap@.len() && !#[trigger] in_subtree(j, index as int)
                    ==> final(self).heap@[j] == old(self).heap@[j],
    {
        let ghost start = index as int;
        let ghost pre = heap_from(self.heap@, index + 1);
        let ghost pre2 = subtree_heap_but_root(self.heap@, index as int);
        let ghost n = self.heap@.len();
        let mut idx = index;
        loop
            invariant
                0 <= start <= idx,
                self.heap@.len() == n,
                self.contents() == old(self).contents(),
                pre ==> heap_but_down(self.heap@, start, idx as int),
                node_ok(old(self).heap@, start) ==> idx == start && self.heap@ == old(self).heap@,
                in_subtree(idx as int, start),
                sifted(self.heap@, idx as int) == sifted(old(self).heap@, start),
                forall|j: int|
                    0 <= j < n && !#[trigger] in_subtree(j, start) ==> self.heap@[j] == old(
                        self,
                    ).heap@[j],
                pre2 ==> subtree_but_down(self.heap@, start, idx as int),
            ensures
                self.heap@ == sifted(old(self).heap@, start),
                forall|j: int|
                    0 <= j < n && !#[trigger] in_subtree(j, start) ==> self.heap@[j] == old(
                        self,
                    ).heap@[j],
                pre2 ==> subtree_heap(self.heap@, start),
                self.heap@.len() == n,
                self.contents() == old(self).contents(),
                pre ==> heap_from(self.heap@, start),
                node_ok(old(self).heap@, start) ==> self.heap@ == old(self).heap@,
            decreases n - idx,
        {
            let len = self.heap.len();
            if idx >= len / 2 {
                proof {
                    if pre2 {
                        let s = self.heap@;
                        assert forall|j: int| 0 <= j < s.len() && #[trigger] in_subtree(j, start) implies node_ok(
                            s,
                            j,
                        ) by {
                            if j != idx {
                                assert(subtree_but_down(s, start, idx as int));
                            }
                        }
                    }
                    if pre {
                        let s = self.heap@;
                        assert forall|j: int| start <= j < s.len() implies #[trigger] node_ok(
                            s,
                            j,
                        ) by {
                            if j != idx {
                                assert(heap_but_down(s, start, idx as int));
                            }
                        }
                    }
                }
                break;
            }
            let left = 2 * idx + 1;
            let right = 2 * idx + 2;
            let mut largest = idx;
            if left < len && self.heap[left].greater(&self.heap[largest]) {
                largest = left;
            }
            if right < len && self.heap[right].greater(&self.heap[largest]) {
                largest = right;
            }
            assert(largest == idx || largest == left || largest == right);
            assert(left < len ==> self.heap@[left as int].rank() <= self.heap@[largest as int].rank());
            assert(right < len ==> self.heap@[right as int].rank() <= self.heap@[largest as int].rank());
            assert(largest < len);
            assert(largest == largest_of(self.heap@, idx as int));
            if largest != idx {
                let ghost s = self.heap@;
                self.swap_nodes(idx, largest);
                proof {
                    assert(self.heap@ == swap_at(s, idx as int, largest as int));
                    lemma_subtree_child(idx as int, largest as int, start);
                    if pre2 {
                        lemma_down_step_subtree(s, self.heap@, start, idx as int, largest as int);
                    }
                    if pre {
                        let s2 = self.heap@;
                        let i = idx as int;
                        let c = largest as int;
                        assert(parent(c) == i);
                        assert(c == 2 * i + 1 || c == 2 * i + 2);
                        assert forall|j: int|
                            start <= j < s2.len() && j != c implies #[trigger] node_ok(s2, j) by {
                            if j == i {
                                assert(s2[c] == s[i]);
                                assert(s2[i] == s[c]);
                                assert(child_ok(s2, j, 2 * j + 1));
                                assert(child_ok(s2, j, 2 * j + 2));
                            } else if i > start && j == parent(i) {
                                lemma_parent(i);
                                assert(node_ok(s, j));
                                assert(child_ok(s, j, 2 * i + 1));
                                assert(child_ok(s, j, 2 * i + 2));
                                assert(s2[c] == s[i]);
                                assert(s2[i] == s[c]);
                                assert(s2[j] == s[j]);
                                if 2 * j + 2 != i && 2 * j + 2 < s.len() {
                                    assert(s2[2 * j + 2] == s[2 * j + 2]);
                                }
                                if 2 * j + 1 != i && 2 * j + 1 < s.len() {
                                    assert(s2[2 * j + 1] == s[2 * j + 1]);
                                }
                                assert(child_ok(s2, j, 2 * j + 1));
                                assert(child_ok(s2, j, 2 * j + 2));
                            } else {
                                assert(node_ok(s, j));
                                assert(2 * j + 1 != i && 2 * j + 2 != i);
                                assert(2 * j + 1 != c && 2 * j + 2 != c);
                            }
                        }
                        assert(node_ok(s, c));
                    }
                }
                idx = largest;
            } else {
                proof {
                    if pre2 {
                        let s = self.heap@;
                        assert forall|j: int| 0 <= j < s.len() && #[trigger] in_subtree(j, start) implies node_ok(
                            s,
                            j,
                        ) by {
                            if j != idx {
                                assert(subtree_but_down(s, start, idx as int));
                            }
                        }
                    }
                    if pre {
                        let s = self.heap@;
                        assert forall|j: int| start <= j < s.len() implies #[trigger] node_ok(
                            s,
                            j,
                        ) by {
                            if j != idx {
                                assert(heap_but_down(s, start, idx as int));
                            }
                        }
                    }
                }
                break;
            }
        }
    }

    /// Removes and returns the element of highest rank.
    pub fn pop(&mut self) -> (r: Option<T>)
        requires
            old(self).wf(),
        ensures
            final(self).wf(),
            final(self).heap@ == after_pop(old(self).heap@),
            match r {
                None => old(self).heap@.len() == 0 && final(self).heap@ == old(self).heap@,
                Some(x) => {
                    &&& old(self).heap@.len() > 0
                    &&& x == old(self).heap@[0]
                    &&& old(self).contents().contains(x)
                    &&& forall|y: T| #[trigger]
                        old(self).contents().contains(y) ==> y.rank() <= x.rank()
                    &&& final(self).contents() == old(self).contents().remove(x)
                    &&& final(self).heap@.len() == old(self).heap@.len() - 1
                },
            },
    {
        let ghost s = self.heap@;
        proof {
            if s.len() > 0 {
                assert forall|y: T| #[trigger] s.to_multiset().contains(y) implies y.rank()
                    <= s[0].rank() by {
                    lemma_root_max(s, s.index_of(y));
                }
            }
        }
        if self.heap.len() == 0 {
            return None;
        }
        if self.heap.len() == 1 {
            proof {
                assert(s =~= seq![s[0]]);
                assert(s.to_multiset().remove(s[0]) =~= Multiset::empty());
            }
            return self.heap.pop();
        }
        let result = self.heap.swap_remove(0);
        proof {
            let s1 = self.heap@;
            let u = s.update(0, s.last());
            assert(s1 == u.drop_last());
            assert(u.to_multiset() == s.to_multiset().insert(s.last()).remove(s[0]));
            assert(u.drop_last() =~= u.remove(u.len() - 1));
            assert(s1.to_multiset() == u.to_multiset().remove(u.last()));
            assert(s1.to_multiset() =~= s.to_multiset().remove(s[0]));
            assert forall|j: int| 1 <= j < s1.len() implies #[trigger] node_ok(s1, j) by {
                assert(node_ok(s, j));
            }
        }
        self.sift_down(0);
        Some(result)
    }

    /// Empties the heap by repeated `pop`, returning what came out in turn:
    /// the contents in non-increasing order of rank.
    pub fn pop_all(&mut self) -> (out: Vec<T>)
        requires
            old(self).wf(),
        ensures
            popped_by_rank(old(self).contents(), out@),
            forall|i: int, j: int| 0 <= i < j < out@.len() ==> out@[j].rank() <= out@[i].rank(),
            final(self).heap@.len() == 0,
    {
        let ghost m = self.contents();
        let mut out: Vec<T> = Vec::new();
        proof {
            assert(out@.to_multiset().add(self.contents()) =~= m);
        }
        while !self.is_empty()
            invariant
                self.wf(),
                out@.to_multiset().add(self.contents()) == m,
                forall|k: int, y: T|
                    0 <= k < out@.len() && #[trigger] m.sub(out@.subrange(0, k).to_multiset()).contains(
                        y,
                    ) ==> y.rank() <= (#[trigger] out@[k]).rank(),
            decreases self.heap@.len(),
        {
            let ghost o = out@;
            let ghost c = self.contents();
            let x = self.pop().unwrap();
            out.push(x);
            proof {
                assert(m.sub(o.to_multiset()) =~= c);
                assert forall|k: int, y: T|
                    0 <= k < out@.len() && #[trigger] m.sub(out@.subrange(0, k).to_multiset()).contains(
                        y,
                    ) implies y.rank() <= (#[trigger] out@[k]).rank() by {
                    if k < o.len() {
                        assert(out@.subrange(0, k) =~= o.subrange(0, k));
                        assert(out@[k] == o[k]);
                    } else {
                        assert(out@.subrange(0, k) =~= o);
                    }
                }
                assert(out@.to_multiset().add(self.contents()) =~= m);
            }
        }
        proof {
            assert(self.contents() =~= Multiset::empty());
            assert(out@.to_multiset() =~= m);
            lemma_pops_non_increasing(m, out@);
        }
        out
    }

    /// Restores the heap property over the whole array, bottom-up.
    pub fn heapify_vec(&mut self)
        ensures
            final(self).wf(),
            final(self).heap@ == heapified(old(self).heap@, (old(self).heap@.len() / 2 + 1) as int),
            is_heap(old(self).heap@) ==> final(self).heap@ == old(self).heap@,
            final(self).contents() == old(self).contents(),
            final(self).heap@.len() == old(self).heap@.len(),
    {
        let mut i = self.heap.len() / 2 + 1;
        proof {
            let s = self.heap@;
            assert forall|j: int| i <= j < s.len() implies #[trigger] node_ok(s, j) by {}
        }
        while i > 0
            invariant
                heap_from(self.heap@, i as int),
                is_heap(old(self).heap@) ==> self.heap@ == old(self).heap@,
                heapified(self.heap@, i as int) == heapified(
                    old(self).heap@,
                    (old(self).heap@.len() / 2 + 1) as int,
                ),
                self.contents() == old(self).contents(),
                self.heap@.len() == old(self).heap@.len(),
            decreases i,
        {
            i = i - 1;
            proof {
                if is_heap(old(self).heap@) && i < self.heap@.len() {
                    assert(node_ok(self.heap@, i as int));
                }
            }
            self.sift_down(i);
        }
    }
}

/// Bulk construction, as `HeapTree::from_vec`.
impl<T: Ranked> From<Vec<T>> for HeapTree<T> {
    fn from(vec: Vec<T>) -> (h: HeapTree<T>)
        ensures
            h.heap@ == heapified(vec@, (vec@.len() / 2 + 1) as int),
            h.wf(),
            h.contents() == vec@.to_multiset(),
            h.heap@.len() == vec@.len(),
            is_heap(vec@) ==> h.heap@ == vec@,
    {
        HeapTree::from_vec(vec)
    }
}

/// The layout that heapify leaves is not given as a value: `from_vec` states
/// what holds of it.
impl<T: Ranked> vstd::std_specs::convert::FromSpecImpl<Vec<T>> for HeapTree<T> {
    open spec fn obeys_from_spec() -> bool {
        false
    }

    open spec fn from_spec(vec: Vec<T>) -> HeapTree<T> {
        HeapTree { heap: vec }
    }
}

} // verus!
