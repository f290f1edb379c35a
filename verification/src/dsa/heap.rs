//! An array-backed binary heap whose ordering mode is fixed at construction.

use crate::dsa::order::{follows, lemma_precedes_transitive, precedes, strict_weak_order};
use vstd::arithmetic::power2::{lemma2_to64, lemma_pow2_unfold, pow2};
use vstd::multiset::Multiset;
use vstd::prelude::*;

verus! {

/// Swapping two elements of a slice, as `<[T]>::swap` documents it: both
/// indices must be in bounds, and afterwards the two elements have traded
/// places while every other element is where it was.
pub assume_specification<Item>[ <[Item]>::swap ](slice: &mut [Item], a: usize, b: usize)
    requires
        a < old(slice)@.len(),
        b < old(slice)@.len(),
    ensures
        final(slice)@ == old(slice)@.update(a as int, old(slice)@[b as int]).update(
            b as int,
            old(slice)@[a as int],
        ),
;

/// Which end of the order sits at the root.
#[derive(Clone, Copy)]
pub enum HeapType {
    MinHeap,
    MaxHeap,
}

/// Index of the parent of the node at index `i > 0`.
pub open spec fn parent(i: int) -> int {
    (i - 1) / 2
}

/// `a` sorts before `b` under `mode`: strictly smaller in a min-heap, strictly
/// larger in a max-heap. Equal elements never dominate one another.
pub open spec fn dominates<T: Ord>(mode: HeapType, a: T, b: T) -> bool {
    match mode {
        HeapType::MinHeap => precedes(a, b),
        HeapType::MaxHeap => follows(a, b),
    }
}

/// The element at index `c` does not dominate its parent.
pub open spec fn link_holds<T: Ord>(s: Seq<T>, mode: HeapType, c: int) -> bool {
    !dominates(mode, s[c], s[parent(c)])
}

/// Every link whose parent is at index `k` or later holds.
pub open spec fn ordered_from<T: Ord>(s: Seq<T>, mode: HeapType, k: int) -> bool {
    forall|c: int| 0 < c < s.len() && parent(c) >= k ==> #[trigger] link_holds(s, mode, c)
}

/// The heap invariant: no element dominates its parent.
pub open spec fn is_heap<T: Ord>(s: Seq<T>, mode: HeapType) -> bool {
    ordered_from(s, mode, 0)
}

/// The node at index `c` is the node at index `root` or lies below it:
/// `root` is on the path from `c` up to the root of the whole tree.
pub open spec fn descends(c: int, root: int) -> bool
    decreases c,
{
    c == root || (c > root && c > 0 && descends(parent(c), root))
}

/// Every link inside the subtree of `root` holds: that subtree is a heap.
pub open spec fn ordered_under<T: Ord>(s: Seq<T>, mode: HeapType, root: int) -> bool {
    forall|c: int| 0 < c < s.len() && descends(parent(c), root) ==> #[trigger] link_holds(s, mode, c)
}

/// Every link inside the subtree of `root` holds but for the links right
/// under `root`: the subtrees of the children of `root` are heaps.
pub open spec fn ordered_below<T: Ord>(s: Seq<T>, mode: HeapType, root: int) -> bool {
    forall|c: int|
        0 < c < s.len() && parent(c) != root && descends(parent(c), root) ==> #[trigger] link_holds(
            s,
            mode,
            c,
        )
}

/// `s` with the elements at `i` and `j` exchanged.
pub open spec fn exchanged<T>(s: Seq<T>, i: int, j: int) -> Seq<T> {
    s.update(i, s[j]).update(j, s[i])
}

/// `s` after the element at `i` has risen: as long as it dominates its
/// parent it trades places with it.
pub open spec fn sifted_up<T: Ord>(s: Seq<T>, mode: HeapType, i: int) -> Seq<T>
    decreases i,
{
    if 0 < i < s.len() && dominates(mode, s[i], s[parent(i)]) {
        sifted_up(exchanged(s, i, parent(i)), mode, parent(i))
    } else {
        s
    }
}

/// Among the node at `i` and its children, the index of the one that
/// dominates the others: `i` itself unless a child dominates it, and of two
/// such children the right one only if it dominates the left one.
pub open spec fn most_dominant<T: Ord>(s: Seq<T>, mode: HeapType, i: int) -> int {
    let left = 2 * i + 1;
    let right = 2 * i + 2;
    let first = if left < s.len() && dominates(mode, s[left], s[i]) {
        left
    } else {
        i
    };
    if right < s.len() && dominates(mode, s[right], s[first]) {
        right
    } else {
        first
    }
}

/// `s` after the element at `i` has sunk: as long as a child dominates it,
/// it trades places with its most dominant child.
pub open spec fn sifted_down<T: Ord>(s: Seq<T>, mode: HeapType, i: int) -> Seq<T>
    decreases s.len() - i,
{
    if 0 <= i < s.len() && most_dominant(s, mode, i) != i {
        sifted_down(exchanged(s, i, most_dominant(s, mode, i)), mode, most_dominant(s, mode, i))
    } else {
        s
    }
}

/// Every link holds except possibly the one above `hole`, and the children of
/// `hole` do not dominate its parent: the state from which sifting `hole` up
/// restores the heap invariant.
pub open spec fn ordered_except_above<T: Ord>(s: Seq<T>, mode: HeapType, hole: int) -> bool {
    &&& forall|c: int| 0 < c < s.len() && c != hole ==> #[trigger] link_holds(s, mode, c)
    &&& hole > 0 ==> forall|c: int|
        0 < c < s.len() && #[trigger] parent(c) == hole ==> !dominates(
            mode,
            s[c],
            s[parent(hole)],
        )
}

/// `x` is in `m` and nothing in `m` dominates it.
pub open spec fn is_top<T: Ord>(m: Multiset<T>, mode: HeapType, x: T) -> bool {
    &&& m.contains(x)
    &&& forall|y: T| m.contains(y) ==> !#[trigger] dominates(mode, y, x)
}

/// Each element of `s` is not dominated by any later one.
pub open spec fn in_heap_order<T: Ord>(s: Seq<T>, mode: HeapType) -> bool {
    forall|i: int, j: int| 0 <= i < j < s.len() ==> !dominates(mode, s[j], s[i])
}

/// `out` can be produced by popping `m` until it is empty: each element is a
/// top of what is left when it comes out.
pub open spec fn drains_to<T: Ord>(m: Multiset<T>, mode: HeapType, out: Seq<T>) -> bool
    decreases out.len(),
{
    if out.len() == 0 {
        m.len() == 0
    } else {
        is_top(m, mode, out[0]) && drains_to(m.remove(out[0]), mode, out.skip(1))
    }
}

/// A binary heap over a growable array. The root is at index 0 and the
/// children of the node at index `i` are at `2i + 1` and `2i + 2`.
pub struct Heap<T> {
    data: Vec<T>,
    heap_type: HeapType,
}

impl<T> View for Heap<T> {
    type V = Seq<T>;

    /// The backing array, root first.
    closed spec fn view(&self) -> Seq<T> {
        self.data@
    }
}

impl<T: Ord + Clone> Heap<T> {
    /// The ordering mode chosen at construction.
    pub closed spec fn mode(&self) -> HeapType {
        self.heap_type
    }

    /// The heap invariant, as far as the element type's comparison can be
    /// reasoned about at all.
    pub open spec fn wf(&self) -> bool {
        strict_weak_order::<T>() ==> is_heap(self@, self.mode())
    }

    /// An empty heap of the given mode.
    pub fn new(heap_type: HeapType) -> (heap: Self)
        ensures
            heap@ == Seq::<T>::empty(),
            heap.mode() == heap_type,
            heap.wf(),
    {
        Heap { data: Vec::new(), heap_type }
    }

    /// Builds a heap of the elements of `vec` in linear time, sifting down
    /// every inner node from the last to the first.
    pub fn from_vec(vec: Vec<T>, heap_type: HeapType) -> (heap: Self)
        ensures
            heap.mode() == heap_type,
            heap@.len() == vec@.len(),
            heap@.to_multiset() == vec@.to_multiset(),
            heap.wf(),
    {
        let mut heap = Heap { data: vec, heap_type };
        let len = heap.data.len();
        let mut i = len / 2;
        while i > 0
            invariant
                i <= len / 2,
                heap@.len() == len,
                heap.mode() == heap_type,
                heap@.to_multiset() == vec@.to_multiset(),
                strict_weak_order::<T>() ==> ordered_from(heap@, heap_type, i as int),
            decreases i,
        {
            i -= 1;
            heap.heapify_down(i);
        }
        heap
    }

    /// A copy of the backing array, root first.
    pub fn to_vec(&self) -> (vec: Vec<T>)
        ensures
            vec@.len() == self@.len(),
            forall|i: int| 0 <= i < self@.len() ==> cloned::<T>(#[trigger] self@[i], vec@[i]),
    {
        self.data.clone()
    }

    /// Puts `val` in place of the root and hands the old root back; on an
    /// empty heap `val` simply becomes the only element.
    pub fn replace(&mut self, val: T) -> (old_root: Option<T>)
        requires
            old(self).wf(),
        ensures
            final(self).wf(),
            final(self).mode() == old(self).mode(),
            old(self)@.len() == 0 ==> old_root is None && final(self)@ == seq![val],
            old(self)@.len() > 0 ==> {
                &&& old_root == Some(old(self)@[0])
                &&& final(self)@.len() == old(self)@.len()
                &&& final(self)@.to_multiset() == old(self)@.to_multiset().remove(
                    old(self)@[0],
                ).insert(val)
                &&& strict_weak_order::<T>() ==> final(self)@ == sifted_down(
                    old(self)@.update(0, val),
                    old(self).mode(),
                    0,
                )
                &&& strict_weak_order::<T>() ==> is_top(
                    old(self)@.to_multiset(),
                    old(self).mode(),
                    old(self)@[0],
                )
            },
    {
        if self.data.is_empty() {
            self.data.push(val);
            return None;
        }
        proof {
            if strict_weak_order::<T>() {
                lemma_root_is_top(self@, self.mode());
            }
        }
        let ghost before = self@;
        let mut root = val;
        core::mem::swap(&mut self.data[0], &mut root);
        proof {
            assert(self@ =~= before.update(0, val));
            vstd::seq_lib::to_multiset_update(before, 0, val);
            vstd::seq_lib::to_multiset_contains(before, before[0]);
            lemma_insert_remove_commute(before.to_multiset(), val, before[0]);
            if strict_weak_order::<T>() {
                assert forall|c: int|
                    0 < c < self@.len() && parent(c) >= 1 implies #[trigger] link_holds(
                    self@,
                    self.mode(),
                    c,
                ) by {
                    assert(link_holds(before, self.mode(), c));
                }
            }
        }
        self.heapify_down(0);
        Some(root)
    }

    /// Moves every element of `other` into this heap and restores the heap
    /// invariant from the bottom up. Both heaps must be of the same mode.
    pub fn merge(&mut self, other: &mut Self)
        requires
            old(self).mode() == old(other).mode(),
        ensures
            final(self).wf(),
            final(self).mode() == old(self).mode(),
            final(self)@.len() == old(self)@.len() + old(other)@.len(),
            final(self)@.to_multiset() == old(self)@.to_multiset().add(old(other)@.to_multiset()),
            final(other)@ == Seq::<T>::empty(),
            final(other).mode() == old(other).mode(),
            final(other).wf(),
    {
        self.data.append(&mut other.data);
        proof {
            vstd::seq_lib::lemma_multiset_commutative(old(self)@, old(other)@);
        }
        let len = self.data.len();
        let mut i = len / 2;
        while i > 0
            invariant
                i <= len / 2,
                self@.len() == len,
                self.mode() == old(self).mode(),
                self@.to_multiset() == old(self)@.to_multiset().add(old(other)@.to_multiset()),
                strict_weak_order::<T>() ==> ordered_from(self@, self.mode(), i as int),
            decreases i,
        {
            i -= 1;
            self.heapify_down(i);
        }
    }

    /// Whether the heap holds no element.
    pub fn is_empty(&self) -> (empty: bool)
        ensures
            empty == (self@.len() == 0),
    {
        self.data.is_empty()
    }

    /// The number of elements.
    pub fn len(&self) -> (len: usize)
        ensures
            len == self@.len(),
    {
        self.data.len()
    }

    /// The root, left in place.
    pub fn peek(&self) -> (root: Option<&T>)
        ensures
            self@.len() == 0 ==> root is None,
            self@.len() > 0 ==> root == Some(&self@[0]),
            self@.len() > 0 && self.wf() && strict_weak_order::<T>() ==> is_top(
                self@.to_multiset(),
                self.mode(),
                self@[0],
            ),
    {
        proof {
            if self@.len() > 0 && self.wf() && strict_weak_order::<T>() {
                lemma_root_is_top(self@, self.mode());
            }
        }
        self.data.first()
    }

    /// Appends `val` and sifts it up to its place. It becomes the root if
    /// it dominates the old root; otherwise the old root stays.
    pub fn push(&mut self, val: T)
        requires
            old(self).wf(),
        ensures
            final(self).wf(),
            final(self).mode() == old(self).mode(),
            final(self)@.len() == old(self)@.len() + 1,
            final(self)@.to_multiset() == old(self)@.to_multiset().insert(val),
            old(self)@.len() == 0 ==> final(self)@ == seq![val],
            strict_weak_order::<T>() ==> final(self)@ == sifted_up(
                old(self)@.push(val),
                old(self).mode(),
                old(self)@.len() as int,
            ),
            strict_weak_order::<T>() && old(self)@.len() > 0 ==> final(self)@[0] == (if dominates(
                old(self).mode(),
                val,
                old(self)@[0],
            ) {
                val
            } else {
                old(self)@[0]
            }),
    {
        self.data.push(val);
        proof {
            if strict_weak_order::<T>() && old(self)@.len() > 0 {
                lemma_risen_root(old(self)@, self.mode(), val);
            }
            vstd::seq_lib::to_multiset_build(old(self)@, val);
            if strict_weak_order::<T>() {
                let hole = self@.len() - 1;
                assert forall|c: int| 0 < c < self@.len() && c != hole implies #[trigger] link_holds(
                    self@,
                    self.mode(),
                    c,
                ) by {
                    assert(link_holds(old(self)@, self.mode(), c));
                }
            }
        }
        self.heapify_up(self.data.len() - 1);
    }

    /// Removes the root and hands it back; `None` on an empty heap.
    pub fn pop(&mut self) -> (root: Option<T>)
        requires
            old(self).wf(),
        ensures
            final(self).wf(),
            final(self).mode() == old(self).mode(),
            old(self)@.len() == 0 ==> root is None && final(self)@ == old(self)@,
            old(self)@.len() > 0 ==> {
                &&& root == Some(old(self)@[0])
                &&& final(self)@.len() == old(self)@.len() - 1
                &&& final(self)@.to_multiset() == old(self)@.to_multiset().remove(old(self)@[0])
                &&& strict_weak_order::<T>() ==> final(self)@ == sifted_down(
                    old(self)@.update(0, old(self)@.last()).drop_last(),
                    old(self).mode(),
                    0,
                )
                &&& strict_weak_order::<T>() ==> is_top(
                    old(self)@.to_multiset(),
                    old(self).mode(),
                    old(self)@[0],
                )
            },
    {
        if self.data.is_empty() {
            return None;
        }
        proof {
            if strict_weak_order::<T>() {
                lemma_root_is_top(self@, self.mode());
            }
        }
        let ghost before = self@;
        let last_index = self.data.len() - 1;
        self.data.swap(0, last_index);
        let ghost swapped = self@;
        let root = self.data.pop();
        proof {
            assert(self@ =~= before.update(0, before.last()).drop_last());
            lemma_swap_keeps_multiset(before, 0, last_index as int);
            vstd::seq_lib::to_multiset_remove(swapped, last_index as int);
            if strict_weak_order::<T>() {
                assert forall|c: int|
                    0 < c < self@.len() && parent(c) >= 1 implies #[trigger] link_holds(
                    self@,
                    self.mode(),
                    c,
                ) by {
                    assert(link_holds(before, self.mode(), c));
                }
            }
        }
        self.heapify_down(0);
        root
    }

    /// Where the levels of the tree start in the backing array: the root at
    /// 0, and every further level at the left child of the one before, as
    /// long as there is one. Level `k` starts at `2^k - 1`.
    pub fn level_starts(&self) -> (starts: Vec<usize>)
        ensures
            (starts@.len() == 0) == (self@.len() == 0),
            forall|k: int| 0 <= k < starts@.len() ==> #[trigger] starts@[k] == pow2(k as nat) - 1,
            forall|k: int| 0 <= k < starts@.len() ==> #[trigger] starts@[k] < self@.len(),
            self@.len() <= pow2(starts@.len()) - 1,
    {
        let len = self.data.len();
        let mut starts: Vec<usize> = Vec::new();
        let mut start: usize = 0;
        proof {
            lemma2_to64();
        }
        loop
            invariant_except_break
                start == pow2(starts@.len()) - 1,
            invariant
                len == self@.len(),
                forall|k: int| 0 <= k < starts@.len() ==> #[trigger] starts@[k] == pow2(k as nat) - 1,
                forall|k: int| 0 <= k < starts@.len() ==> #[trigger] starts@[k] < len,
            ensures
                (starts@.len() == 0) == (self@.len() == 0),
                forall|k: int| 0 <= k < starts@.len() ==> #[trigger] starts@[k] == pow2(k as nat) - 1,
                forall|k: int| 0 <= k < starts@.len() ==> #[trigger] starts@[k] < self@.len(),
                self@.len() <= pow2(starts@.len()) - 1,
            decreases len - start,
        {
            if start >= len {
                proof {
                    lemma2_to64();
                    assert(starts@.len() > 0 ==> starts@[0] < len);
                }
                break;
            }
            starts.push(start);
            proof {
                lemma_pow2_unfold(starts@.len());
            }
            if start >= len / 2 {
                break;
            }
            start = 2 * start + 1;
        }
        starts
    }

    /// Whether `a` belongs nearer the root than `b`: strictly less in a
    /// min-heap, strictly greater in a max-heap.
    pub fn compare(&self, a: &T, b: &T) -> (r: bool)
        ensures
            strict_weak_order::<T>() ==> r == dominates(self.mode(), *a, *b),
    {
        match self.heap_type {
            HeapType::MinHeap => a < b,
            HeapType::MaxHeap => a > b,
        }
    }

    /// Sifts the element at `index` towards the root: as long as it dominates
    /// its parent the two trade places. Only positions on the way from
    /// `index` to the root can change.
    pub fn heapify_up(&mut self, index: usize)
        requires
            index == 0 || index < old(self)@.len(),
            strict_weak_order::<T>() ==> ordered_except_above(
                old(self)@,
                old(self).mode(),
                index as int,
            ),
        ensures
            final(self).wf(),
            final(self).mode() == old(self).mode(),
            final(self)@.len() == old(self)@.len(),
            final(self)@.to_multiset() == old(self)@.to_multiset(),
            forall|i: int|
                0 <= i < old(self)@.len() && !descends(index as int, i) ==> final(self)@[i] == old(
                    self,
                )@[i],
            strict_weak_order::<T>() ==> final(self)@ == sifted_up(
                old(self)@,
                old(self).mode(),
                index as int,
            ),
            strict_weak_order::<T>() && is_heap(old(self)@, old(self).mode()) ==> final(self)@ == old(
                self,
            )@,
            strict_weak_order::<T>() && index > 0 && !dominates(
                old(self).mode(),
                old(self)@[index as int],
                old(self)@[parent(index as int)],
            ) ==> final(self)@ == old(self)@,
            index == 0 ==> final(self)@ == old(self)@,
    {
        let mut hole = index;
        while hole > 0
            invariant_except_break
                strict_weak_order::<T>() ==> ordered_except_above(self@, self.mode(), hole as int),
            invariant
                hole <= index,
                hole == 0 || hole < self@.len(),
                descends(index as int, hole as int),
                index == 0 ==> self@ == old(self)@,
                self.mode() == old(self).mode(),
                self@.len() == old(self)@.len(),
                self@.to_multiset() == old(self)@.to_multiset(),
                forall|i: int|
                    0 <= i < old(self)@.len() && !descends(index as int, i) ==> self@[i] == old(
                        self,
                    )@[i],
                strict_weak_order::<T>() ==> sifted_up(self@, self.mode(), hole as int) == sifted_up(
                    old(self)@,
                    old(self).mode(),
                    index as int,
                ),
            ensures
                self.wf(),
                strict_weak_order::<T>() ==> self@ == sifted_up(
                    old(self)@,
                    old(self).mode(),
                    index as int,
                ),
            decreases hole,
        {
            let up = (hole - 1) / 2;
            if self.compare(&self.data[hole], &self.data[up]) {
                let ghost s = self@;
                self.data.swap(hole, up);
                proof {
                    lemma_swap_keeps_multiset(s, hole as int, up as int);
                    lemma_parent_is_on_the_way(index as int, hole as int);
                    if strict_weak_order::<T>() {
                        lemma_sift_up_step(s, self.mode(), hole as int);
                    }
                }
                hole = up;
            } else {
                break;
            }
        }
        proof {
            if strict_weak_order::<T>() && is_heap(old(self)@, old(self).mode()) && index > 0
                && index < old(self)@.len() {
                assert(link_holds(old(self)@, old(self).mode(), index as int));
            }
        }
    }

    /// Sifts the element at `index` towards the leaves: as long as one of
    /// its children dominates it, it trades places with the more dominant
    /// child. Only positions in the subtree of `index` can change, and the
    /// subtrees of its children must be heaps for that subtree to become
    /// one.
    pub fn heapify_down(&mut self, index: usize)
        requires
            strict_weak_order::<T>() ==> ordered_below(old(self)@, old(self).mode(), index as int),
        ensures
            final(self).mode() == old(self).mode(),
            final(self)@.len() == old(self)@.len(),
            final(self)@.to_multiset() == old(self)@.to_multiset(),
            forall|i: int|
                0 <= i < old(self)@.len() && !descends(i, index as int) ==> final(self)@[i] == old(
                    self,
                )@[i],
            strict_weak_order::<T>() ==> final(self)@ == sifted_down(
                old(self)@,
                old(self).mode(),
                index as int,
            ),
            strict_weak_order::<T>() ==> ordered_under(final(self)@, final(self).mode(), index as int),
            strict_weak_order::<T>() && ordered_from(old(self)@, old(self).mode(), index + 1)
                ==> ordered_from(final(self)@, final(self).mode(), index as int),
            strict_weak_order::<T>() && most_dominant(old(self)@, old(self).mode(), index as int)
                == index ==> final(self)@ == old(self)@,
    {
        let mut hole = index;
        let len = self.data.len();
        loop
            invariant_except_break
                strict_weak_order::<T>() ==> ordered_except_below(
                    self@,
                    self.mode(),
                    index as int,
                    hole as int,
                ),
            invariant
                index <= hole,
                descends(hole as int, index as int),
                len == self@.len(),
                self.mode() == old(self).mode(),
                self@.len() == old(self)@.len(),
                self@.to_multiset() == old(self)@.to_multiset(),
                forall|i: int|
                    0 <= i < old(self)@.len() && !descends(i, index as int) ==> self@[i] == old(
                        self,
                    )@[i],
                strict_weak_order::<T>() ==> sifted_down(self@, self.mode(), hole as int)
                    == sifted_down(old(self)@, old(self).mode(), index as int),
            ensures
                strict_weak_order::<T>() ==> ordered_under(self@, self.mode(), index as int),
                strict_weak_order::<T>() ==> self@ == sifted_down(
                    old(self)@,
                    old(self).mode(),
                    index as int,
                ),
            decreases len - hole,
        {
            if hole >= len / 2 {
                // A leaf: it has no links below it.
                break;
            }
            let left = 2 * hole + 1;
            let right = left + 1;
            let mut largest = hole;
            if self.compare(&self.data[left], &self.data[largest]) {
                largest = left;
            }
            if right < len && self.compare(&self.data[right], &self.data[largest]) {
                largest = right;
            }
            if largest == hole {
                break;
            }
            let ghost s = self@;
            self.data.swap(hole, largest);
            proof {
                lemma_swap_keeps_multiset(s, hole as int, largest as int);
                if strict_weak_order::<T>() {
                    lemma_sift_down_step(s, self.mode(), index as int, hole as int, largest as int);
                }
            }
            hole = largest;
        }
        proof {
            if strict_weak_order::<T>() && ordered_from(old(self)@, old(self).mode(), index + 1) {
                lemma_ordered_from_after_sift(old(self)@, self@, self.mode(), index as int);
            }
        }
    }
}

/// Rising changes no length.
proof fn lemma_sifted_up_len<T: Ord>(s: Seq<T>, mode: HeapType, i: int)
    ensures
        sifted_up(s, mode, i).len() == s.len(),
    decreases i,
{
    if 0 < i < s.len() && dominates(mode, s[i], s[parent(i)]) {
        lemma_sifted_up_len(exchanged(s, i, parent(i)), mode, parent(i));
    }
}

/// Where the element at `i` rises to: the root of the outcome is the old
/// root, unless the element has come all the way up, having dominated the
/// old root.
proof fn lemma_sifted_up_root<T: Ord>(s: Seq<T>, mode: HeapType, i: int)
    requires
        0 < i < s.len(),
    ensures
        sifted_up(s, mode, i).len() == s.len(),
        sifted_up(s, mode, i)[0] == s[0] || (sifted_up(s, mode, i)[0] == s[i] && dominates(
            mode,
            s[i],
            s[0],
        )),
    decreases i,
{
    lemma_sifted_up_len(s, mode, i);
    if dominates(mode, s[i], s[parent(i)]) {
        let next = exchanged(s, i, parent(i));
        if parent(i) > 0 {
            lemma_sifted_up_root(next, mode, parent(i));
        } else {
            assert(sifted_up(next, mode, 0) == next);
        }
    }
}

/// A value that dominates the root of the heap `s` dominates every element
/// of it. So where it stands at index `i` of `t`, above which `t` is as `s`
/// is, it rises to the root.
proof fn lemma_rises_to_root<T: Ord>(s: Seq<T>, t: Seq<T>, mode: HeapType, val: T, i: int)
    requires
        strict_weak_order::<T>(),
        is_heap(s, mode),
        s.len() > 0,
        dominates(mode, val, s[0]),
        t.len() == s.len() + 1,
        0 <= i < t.len(),
        t[i] == val,
        forall|a: int| 0 <= a < i && descends(i, a) ==> t[a] == s[a],
    ensures
        sifted_up(t, mode, i).len() == t.len(),
        sifted_up(t, mode, i)[0] == val,
    decreases i,
{
    lemma_sifted_up_len(t, mode, i);
    if i > 0 {
        let up = parent(i);
        assert(descends(up, up));
        assert(descends(i, up));
        lemma_nothing_dominates_root(s, mode, up);
        if !dominates(mode, val, s[up]) {
            lemma_not_dominates_transitive(mode, val, s[up], s[0]);
        }
        let next = exchanged(t, i, up);
        assert forall|a: int| 0 <= a < up && descends(up, a) implies next[a] == s[a] by {
            assert(descends(i, a));
        }
        lemma_rises_to_root(s, next, mode, val, up);
    }
}

/// Pushed onto a heap, a value rises to the root if and only if it
/// dominates the old root.
proof fn lemma_risen_root<T: Ord>(s: Seq<T>, mode: HeapType, val: T)
    requires
        strict_weak_order::<T>(),
        is_heap(s, mode),
        s.len() > 0,
    ensures
        sifted_up(s.push(val), mode, s.len() as int).len() == s.len() + 1,
        sifted_up(s.push(val), mode, s.len() as int)[0] == (if dominates(mode, val, s[0]) {
            val
        } else {
            s[0]
        }),
{
    let pushed = s.push(val);
    let last = s.len() as int;
    lemma_sifted_up_root(pushed, mode, last);
    if dominates(mode, val, s[0]) {
        lemma_rises_to_root(s, pushed, mode, val, last);
    }
}

/// The parent of a node on the way from `c` up to the root is on that way
/// too.
proof fn lemma_parent_is_on_the_way(c: int, a: int)
    requires
        descends(c, a),
        a > 0,
    ensures
        descends(c, parent(a)),
    decreases c,
{
    if c != a {
        lemma_parent_is_on_the_way(parent(c), a);
    } else {
        assert(descends(parent(a), parent(a)));
    }
}

/// Where the array was ordered after `index` and only the subtree of
/// `index` has changed and become a heap, the array is ordered from `index`.
proof fn lemma_ordered_from_after_sift<T: Ord>(
    before: Seq<T>,
    after: Seq<T>,
    mode: HeapType,
    index: int,
)
    requires
        0 <= index,
        before.len() == after.len(),
        ordered_from(before, mode, index + 1),
        ordered_under(after, mode, index),
        forall|i: int| 0 <= i < before.len() && !descends(i, index) ==> after[i] == before[i],
    ensures
        ordered_from(after, mode, index),
{
    assert forall|c: int| 0 < c < after.len() && parent(c) >= index implies #[trigger] link_holds(
        after,
        mode,
        c,
    ) by {
        if !descends(parent(c), index) {
            // neither end of the link is in the subtree
            assert(!descends(c, index));
            assert(link_holds(before, mode, c));
        }
    }
}

/// Every link inside the subtree of `start` holds, except possibly those
/// right under `hole`; and once `hole` has left `start`, its children do
/// not dominate its parent. From this state sifting `hole` down makes the
/// subtree of `start` a heap.
pub open spec fn ordered_except_below<T: Ord>(
    s: Seq<T>,
    mode: HeapType,
    start: int,
    hole: int,
) -> bool {
    &&& forall|c: int|
        0 < c < s.len() && descends(parent(c), start) && parent(c) != hole ==> #[trigger] link_holds(
            s,
            mode,
            c,
        )
    &&& hole != start ==> forall|c: int|
        0 < c < s.len() && #[trigger] parent(c) == hole ==> !dominates(
            mode,
            s[c],
            s[parent(hole)],
        )
}

proof fn lemma_insert_remove_commute<T>(m: Multiset<T>, a: T, b: T)
    requires
        m.contains(b),
    ensures
        m.insert(a).remove(b) == m.remove(b).insert(a),
{
    broadcast use vstd::multiset::group_multiset_axioms;

}

/// One step of sifting up: once the element at `hole` has traded places with
/// its dominated parent, the parent's index is the new hole.
proof fn lemma_sift_up_step<T: Ord>(s: Seq<T>, mode: HeapType, hole: int)
    requires
        strict_weak_order::<T>(),
        0 < hole < s.len(),
        ordered_except_above(s, mode, hole),
        dominates(mode, s[hole], s[parent(hole)]),
    ensures
        ordered_except_above(
            s.update(hole, s[parent(hole)]).update(parent(hole), s[hole]),
            mode,
            parent(hole),
        ),
{
    let up = parent(hole);
    let t = s.update(hole, s[up]).update(up, s[hole]);
    assert forall|c: int| 0 < c < t.len() && c != up implies #[trigger] link_holds(t, mode, c) by {
        if c == hole {
            lemma_dominates_asymmetric(mode, s[hole], s[up]);
        } else if parent(c) == up {
            assert(link_holds(s, mode, c));
            if dominates(mode, s[c], s[hole]) {
                lemma_dominates_transitive(mode, s[c], s[hole], s[up]);
            }
        } else if parent(c) != hole {
            assert(link_holds(s, mode, c));
        }
    }
    if up > 0 {
        assert forall|c: int| 0 < c < t.len() && #[trigger] parent(c) == up implies !dominates(
            mode,
            t[c],
            t[parent(up)],
        ) by {
            assert(link_holds(s, mode, up));
            if c != hole {
                assert(link_holds(s, mode, c));
                lemma_not_dominates_transitive(mode, s[c], s[up], s[parent(up)]);
            }
        }
    }
}

/// One step of sifting down: once the element at `hole` has traded places
/// with its most dominant child, that child's index is the new hole.
proof fn lemma_sift_down_step<T: Ord>(s: Seq<T>, mode: HeapType, start: int, hole: int, child: int)
    requires
        strict_weak_order::<T>(),
        0 <= start,
        descends(hole, start),
        0 < child < s.len(),
        parent(child) == hole,
        ordered_except_below(s, mode, start, hole),
        dominates(mode, s[child], s[hole]),
        forall|c: int| 0 < c < s.len() && parent(c) == hole ==> !dominates(mode, s[c], s[child]),
    ensures
        ordered_except_below(exchanged(s, hole, child), mode, start, child),
        descends(child, start),
{
    let t = exchanged(s, hole, child);
    assert forall|c: int|
        0 < c < t.len() && descends(parent(c), start) && parent(c) != child implies #[trigger] link_holds(
        t,
        mode,
        c,
    ) by {
        if c == child {
            lemma_dominates_asymmetric(mode, s[child], s[hole]);
        } else if parent(c) != hole && c != hole {
            assert(link_holds(s, mode, c));
        }
    }
    assert forall|c: int| 0 < c < t.len() && #[trigger] parent(c) == child implies !dominates(
        mode,
        t[c],
        t[parent(child)],
    ) by {
        assert(link_holds(s, mode, c));
    }
}

proof fn lemma_dominates_asymmetric<T: Ord>(mode: HeapType, a: T, b: T)
    requires
        strict_weak_order::<T>(),
        dominates(mode, a, b),
    ensures
        !dominates(mode, b, a),
{
}

proof fn lemma_dominates_transitive<T: Ord>(mode: HeapType, a: T, b: T, c: T)
    requires
        strict_weak_order::<T>(),
        dominates(mode, a, b),
        dominates(mode, b, c),
    ensures
        dominates(mode, a, c),
{
    match mode {
        HeapType::MinHeap => lemma_precedes_transitive(a, b, c),
        HeapType::MaxHeap => lemma_precedes_transitive(c, b, a),
    }
}

/// If `a` does not dominate `b` and `b` does not dominate `c`, then `a` does
/// not dominate `c`.
proof fn lemma_not_dominates_transitive<T: Ord>(mode: HeapType, a: T, b: T, c: T)
    requires
        strict_weak_order::<T>(),
        !dominates(mode, a, b),
        !dominates(mode, b, c),
    ensures
        !dominates(mode, a, c),
{
}

proof fn lemma_swap_keeps_multiset<T>(s: Seq<T>, i: int, j: int)
    requires
        0 <= i < s.len(),
        0 <= j < s.len(),
    ensures
        s.update(i, s[j]).update(j, s[i]).to_multiset() == s.to_multiset(),
{
    broadcast use vstd::seq_lib::group_to_multiset_ensures;
    broadcast use vstd::multiset::group_multiset_axioms;

    // Each of the two updates takes one occurrence out and puts one in.
    let t = s.update(i, s[j]);
    assert(t.update(j, s[i]).to_multiset() =~= s.to_multiset());
}

/// In a heap nothing dominates the root.
pub proof fn lemma_root_is_top<T: Ord>(s: Seq<T>, mode: HeapType)
    requires
        strict_weak_order::<T>(),
        is_heap(s, mode),
        s.len() > 0,
    ensures
        is_top(s.to_multiset(), mode, s[0]),
{
    broadcast use vstd::seq_lib::group_to_multiset_ensures;

    assert forall|i: int| 0 <= i < s.len() implies !dominates(mode, #[trigger] s[i], s[0]) by {
        lemma_nothing_dominates_root(s, mode, i);
    }
    assert forall|y: T| s.to_multiset().contains(y) implies !#[trigger] dominates(
        mode,
        y,
        s[0],
    ) by {
        assert(s.contains(y));
        let i = choose|i: int| 0 <= i < s.len() && s[i] == y;
        assert(!dominates(mode, s[i], s[0]));
    }
}

proof fn lemma_nothing_dominates_root<T: Ord>(s: Seq<T>, mode: HeapType, i: int)
    requires
        strict_weak_order::<T>(),
        is_heap(s, mode),
        0 <= i < s.len(),
    ensures
        !dominates(mode, s[i], s[0]),
    decreases i,
{
    if i == 0 {
        if dominates(mode, s[0], s[0]) {
            lemma_dominates_asymmetric(mode, s[0], s[0]);
        }
    } else {
        assert(link_holds(s, mode, i));
        lemma_nothing_dominates_root(s, mode, parent(i));
        lemma_not_dominates_transitive(mode, s[i], s[parent(i)], s[0]);
    }
}

/// Once `x` has been popped, and whatever is pushed afterwards as long as it
/// does not dominate `x`, no later pop returns an element that dominates `x`:
/// a min-heap hands its elements out in non-decreasing order, a max-heap in
/// non-increasing order.
pub proof fn lemma_later_pop_never_dominates<T: Ord>(
    m: Multiset<T>,
    mode: HeapType,
    x: T,
    pushed: Multiset<T>,
    y: T,
)
    requires
        strict_weak_order::<T>(),
        is_top(m, mode, x),
        forall|p: T| pushed.contains(p) ==> !#[trigger] dominates(mode, p, x),
        m.remove(x).add(pushed).contains(y),
    ensures
        !dominates(mode, y, x),
{
    broadcast use vstd::multiset::group_multiset_axioms;

}

/// Popping a heap until it is empty hands out exactly what it held, each
/// element before every element that it is not dominated by: built from a
/// sequence `v`, a min-heap drains to `v` sorted ascending and a max-heap to
/// `v` sorted descending.
pub proof fn lemma_drain_is_sorted<T: Ord>(v: Seq<T>, mode: HeapType, out: Seq<T>)
    requires
        strict_weak_order::<T>(),
        drains_to(v.to_multiset(), mode, out),
    ensures
        in_heap_order(out, mode),
        out.to_multiset() == v.to_multiset(),
{
    lemma_drain_of_multiset(v.to_multiset(), mode, out);
}

proof fn lemma_drain_of_multiset<T: Ord>(m: Multiset<T>, mode: HeapType, out: Seq<T>)
    requires
        strict_weak_order::<T>(),
        drains_to(m, mode, out),
    ensures
        in_heap_order(out, mode),
        out.to_multiset() == m,
    decreases out.len(),
{
    broadcast use vstd::multiset::group_multiset_axioms;
    broadcast use vstd::seq_lib::group_to_multiset_ensures;

    if out.len() > 0 {
        let x = out[0];
        let rest = out.skip(1);
        lemma_drain_of_multiset(m.remove(x), mode, rest);
        assert(out =~= seq![x] + rest);
        vstd::seq_lib::lemma_multiset_commutative(seq![x], rest);
        assert(out.to_multiset() =~= m);
        // An element after the first is in `rest`, hence in `m`; two such are in order in `rest`.
        assert forall|i: int, j: int| 0 <= i < j < out.len() implies !dominates(
            mode,
            out[j],
            out[i],
        ) by {
            assert(rest[j - 1] == out[j]);
            if i > 0 {
                assert(rest[i - 1] == out[i]);
            }
        }
    }
}

} // verus!
