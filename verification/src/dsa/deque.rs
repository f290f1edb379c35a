//! A double-ended queue over a doubly linked list that is bounded by two
//! sentinel nodes. The nodes live in an arena and link to one another by
//! slot number, so that no node is ever owned from two sides.

use vstd::prelude::*;
use vstd::string::*;

verus! {

/// A node of the list: a value and the slots of its two neighbours.
pub struct DoublyNode<T> {
    val: T,
    next: Option<usize>,
    prev: Option<usize>,
}

impl<T> DoublyNode<T> {
    /// The value stored at this node.
    pub closed spec fn item(&self) -> T {
        self.val
    }

    /// Whether the node has no neighbour on either side.
    pub closed spec fn is_unlinked(&self) -> bool {
        self.next is None && self.prev is None
    }

    /// A node holding `val` that is linked to nothing yet.
    pub fn new(val: T) -> (node: Self)
        ensures
            node.item() == val,
            node.is_unlinked(),
    {
        DoublyNode { val, next: None, prev: None }
    }
}

/// A doubly linked list between two sentinels, `header` and `trailer`, that
/// hold no value of the list. Slots that a removal has vacated are kept on a
/// free list and used again by later insertions.
pub struct DoublyLinkedList<T> {
    nodes: Vec<DoublyNode<T>>,
    free: Vec<usize>,
    header: usize,
    trailer: usize,
    length: usize,
    /// The slots of the nodes that hold the list's values, front to back.
    chain: Ghost<Seq<usize>>,
}

/// The node at position `k` of `spine` points forward to the next slot of
/// the spine and backward to the previous one; the first node has nothing
/// before it and the last nothing after it.
spec fn link_at<T>(nodes: Seq<DoublyNode<T>>, spine: Seq<usize>, k: int) -> bool {
    &&& nodes[spine[k] as int].next == (if k + 1 < spine.len() {
        Some(spine[k + 1])
    } else {
        None
    })
    &&& nodes[spine[k] as int].prev == (if k > 0 {
        Some(spine[k - 1])
    } else {
        None
    })
}

/// The links follow `spine` in both directions.
spec fn linked<T>(nodes: Seq<DoublyNode<T>>, spine: Seq<usize>) -> bool {
    forall|k: int| 0 <= k < spine.len() ==> #[trigger] link_at(nodes, spine, k)
}

/// The values of the nodes at the slots of `chain`, in its order.
spec fn values_along<T>(nodes: Seq<DoublyNode<T>>, chain: Seq<usize>) -> Seq<T> {
    Seq::new(chain.len(), |k: int| nodes[chain[k] as int].val)
}

/// The slots of `spine` and of `free` are slots of an arena of `n` nodes, and
/// no slot occurs twice among them.
spec fn apart(spine: Seq<usize>, free: Seq<usize>, n: nat) -> bool {
    &&& forall|i: int| 0 <= i < spine.len() ==> (#[trigger] spine[i]) < n
    &&& forall|j: int| 0 <= j < free.len() ==> (#[trigger] free[j]) < n
    &&& forall|i: int, j: int| 0 <= i < j < spine.len() ==> spine[i] != spine[j]
    &&& forall|i: int, j: int| 0 <= i < j < free.len() ==> free[i] != free[j]
    &&& forall|i: int, j: int| 0 <= i < spine.len() && 0 <= j < free.len() ==> spine[i] != free[j]
}

/// `slot` is a slot of the arena that is neither on `spine` nor in `free`.
spec fn spare(spine: Seq<usize>, free: Seq<usize>, n: nat, slot: usize) -> bool {
    &&& slot < n
    &&& forall|i: int| 0 <= i < spine.len() ==> (#[trigger] spine[i]) != slot
    &&& forall|j: int| 0 <= j < free.len() ==> (#[trigger] free[j]) != slot
}

impl<T> View for DoublyLinkedList<T> {
    type V = Seq<T>;

    /// The values from front to back.
    closed spec fn view(&self) -> Seq<T> {
        values_along(self.nodes@, self.chain@)
    }
}

impl<T> DoublyLinkedList<T> {
    /// The slots from the header to the trailer, both included.
    spec fn spine(&self) -> Seq<usize> {
        seq![self.header] + self.chain@ + seq![self.trailer]
    }

    /// The list invariant but for the count of slots: the sentinels bound
    /// the chain, the links follow it in both directions, and no slot is in
    /// use twice.
    spec fn chained(&self) -> bool {
        &&& self.length == self.chain@.len()
        &&& apart(self.spine(), self.free@, self.nodes@.len())
        &&& linked(self.nodes@, self.spine())
    }

    /// The list invariant while `slot` is held out of both the chain and the
    /// free list.
    spec fn wf_but(&self, slot: usize) -> bool {
        &&& self.chained()
        &&& spare(self.spine(), self.free@, self.nodes@.len(), slot)
        &&& self.spine().len() + self.free@.len() + 1 == self.nodes@.len()
    }

    /// The list invariant: the links run from the header through the chain
    /// to the trailer and back, so that in an empty list the two sentinels
    /// point at each other; and every slot of the arena is a sentinel, a node
    /// of the chain or a free slot, and exactly one of these.
    pub closed spec fn wf(&self) -> bool {
        &&& self.chained()
        &&& self.spine().len() + self.free@.len() == self.nodes@.len()
    }
}

impl<T: Clone + Default> DoublyLinkedList<T> {
    /// An empty list: the two sentinels, linked to each other.
    pub fn new() -> (list: Self)
        ensures
            list@ == Seq::<T>::empty(),
            list.wf(),
    {
        let mut header = DoublyNode::new(T::default());
        let mut trailer = DoublyNode::new(T::default());
        header.next = Some(1);
        trailer.prev = Some(0);
        let mut nodes = Vec::new();
        nodes.push(header);
        nodes.push(trailer);
        let list = DoublyLinkedList {
            nodes,
            free: Vec::new(),
            header: 0,
            trailer: 1,
            length: 0,
            chain: Ghost(Seq::empty()),
        };
        proof {
            assert(list.spine() =~= seq![0usize, 1usize]);
            assert(list@ =~= Seq::<T>::empty());
        }
        list
    }

    /// Whether the list holds no value.
    pub fn is_empty(&self) -> (empty: bool)
        requires
            self.wf(),
        ensures
            empty == (self@.len() == 0),
    {
        self.length == 0
    }

    /// The number of values in the list.
    pub fn len(&self) -> (len: usize)
        requires
            self.wf(),
        ensures
            len == self@.len(),
    {
        self.length
    }

    /// Finds a slot for `node`: one from the free list where there is one, a
    /// new one at the end of the arena otherwise.
    fn claim_slot(&mut self, node: DoublyNode<T>) -> (slot: usize)
        requires
            old(self).wf(),
        ensures
            final(self).wf_but(slot),
            final(self).nodes@[slot as int] == node,
            final(self).chain@ == old(self).chain@,
            final(self).header == old(self).header,
            final(self).trailer == old(self).trailer,
            final(self)@ == old(self)@,
    {
        let ghost spine = self.spine();
        let slot = match self.free.pop() {
            Some(slot) => {
                self.nodes[slot] = node;
                slot
            },
            None => {
                self.nodes.push(node);
                self.nodes.len() - 1
            },
        };
        proof {
            assert(self.spine() == spine);
            lemma_same_on_spine(old(self).nodes@, self.nodes@, spine, self.chain@, slot);
        }
        slot
    }

    /// Puts `slot`, which has been unlinked from the chain, on the free list
    /// and hands back the value it held.
    fn release_slot(&mut self, slot: usize) -> (val: T)
        requires
            old(self).wf_but(slot),
        ensures
            final(self).wf(),
            val == old(self).nodes@[slot as int].val,
            final(self).chain@ == old(self).chain@,
            final(self).header == old(self).header,
            final(self).trailer == old(self).trailer,
            final(self)@ == old(self)@,
    {
        let ghost spine = self.spine();
        let mut val = T::default();
        core::mem::swap(&mut self.nodes[slot].val, &mut val);
        self.nodes[slot].next = None;
        self.nodes[slot].prev = None;
        self.free.push(slot);
        proof {
            assert(self.spine() == spine);
            lemma_same_on_spine(old(self).nodes@, self.nodes@, spine, self.chain@, slot);
        }
        val
    }

    /// A copy of the first value.
    pub fn peek_head(&self) -> (head: Option<T>)
        requires
            self.wf(),
        ensures
            self@.len() == 0 ==> head is None,
            self@.len() > 0 ==> head is Some && cloned::<T>(self@[0], head->0),
    {
        if self.is_empty() {
            None
        } else {
            let ghost spine = self.spine();
            assert(link_at(self.nodes@, spine, 0));
            assert(spine[1] == self.chain@[0]);
            let first = self.nodes[self.header].next.unwrap();
            Some(self.nodes[first].val.clone())
        }
    }

    /// A copy of the last value.
    pub fn peek_tail(&self) -> (tail: Option<T>)
        requires
            self.wf(),
        ensures
            self@.len() == 0 ==> tail is None,
            self@.len() > 0 ==> tail is Some && cloned::<T>(self@[self@.len() - 1], tail->0),
    {
        if self.is_empty() {
            None
        } else {
            let ghost spine = self.spine();
            let ghost n = self.chain@.len() as int;
            assert(link_at(self.nodes@, spine, n + 1));
            assert(spine[n] == self.chain@[n - 1]);
            let last = self.nodes[self.trailer].prev.unwrap();
            Some(self.nodes[last].val.clone())
        }
    }

    /// Inserts `val` right after the header.
    pub fn push_head(&mut self, val: T)
        requires
            old(self).wf(),
        ensures
            final(self).wf(),
            final(self)@ == seq![val] + old(self)@,
    {
        let new_head = self.claim_slot(DoublyNode::new(val));
        let ghost spine = self.spine();
        let ghost held = self.nodes@;
        let header = self.header;
        proof {
            assert(link_at(held, spine, 0));
            assert(link_at(held, spine, 1));
            assert(spine[0] != spine[1]);
        }
        let old_head = self.nodes[header].next.unwrap();
        // The new node gets its own links first, then its neighbours learn of it.
        self.nodes[new_head].next = Some(old_head);
        self.nodes[new_head].prev = Some(header);
        self.nodes[old_head].prev = Some(new_head);
        self.nodes[header].next = Some(new_head);
        assert(self.length + 3 <= self.nodes.len()) by {
            assert(spine.len() == self.length + 2);
            assert(self.nodes@.len() == self.nodes.len());
        }
        self.length += 1;
        self.chain = Ghost(old(self).chain@.insert(0, new_head));
        proof {
            assert(self.spine() =~= spine.insert(1, new_head));
            lemma_spliced_in(held, self.nodes@, spine, old(self).chain@, self.free@, new_head, 1);
            assert(old(self)@.insert(0, val) =~= seq![val] + old(self)@);
        }
    }

    /// Inserts `val` right before the trailer.
    pub fn push_tail(&mut self, val: T)
        requires
            old(self).wf(),
        ensures
            final(self).wf(),
            final(self)@ == old(self)@.push(val),
    {
        let new_tail = self.claim_slot(DoublyNode::new(val));
        let ghost spine = self.spine();
        let ghost held = self.nodes@;
        let ghost n = self.chain@.len() as int;
        let trailer = self.trailer;
        proof {
            assert(link_at(held, spine, n + 1));
            assert(link_at(held, spine, n));
            assert(spine[n] != spine[n + 1]);
        }
        let old_tail = self.nodes[trailer].prev.unwrap();
        // The new node gets its own links first, then its neighbours learn of it.
        self.nodes[new_tail].prev = Some(old_tail);
        self.nodes[new_tail].next = Some(trailer);
        self.nodes[old_tail].next = Some(new_tail);
        self.nodes[trailer].prev = Some(new_tail);
        assert(self.length + 3 <= self.nodes.len()) by {
            assert(spine.len() == self.length + 2);
            assert(self.nodes@.len() == self.nodes.len());
        }
        self.length += 1;
        self.chain = Ghost(old(self).chain@.insert(n, new_tail));
        proof {
            assert(self.spine() =~= spine.insert(n + 1, new_tail));
            lemma_spliced_in(held, self.nodes@, spine, old(self).chain@, self.free@, new_tail, n + 1);
            assert(old(self)@.insert(n, val) =~= old(self)@.push(val));
        }
    }

    /// Unlinks the node right after the header and hands its value back.
    pub fn pop_head(&mut self) -> (head: Option<T>)
        requires
            old(self).wf(),
        ensures
            final(self).wf(),
            old(self)@.len() == 0 ==> head is None && final(self)@ == old(self)@,
            old(self)@.len() > 0 ==> head == Some(old(self)@[0]) && final(self)@ == old(self)@.skip(1),
    {
        if self.is_empty() {
            return None;
        }
        let ghost spine = self.spine();
        let ghost held = self.nodes@;
        let header = self.header;
        proof {
            assert(link_at(held, spine, 0));
            assert(link_at(held, spine, 1));
            assert(link_at(held, spine, 2));
            assert(spine[0] != spine[2]);
            assert(spine[1] == self.chain@[0]);
        }
        let old_head = self.nodes[header].next.unwrap();
        let new_head = self.nodes[old_head].next.unwrap();
        self.nodes[new_head].prev = Some(header);
        self.nodes[header].next = Some(new_head);
        self.length -= 1;
        self.chain = Ghost(old(self).chain@.remove(0));
        proof {
            assert(self.spine() =~= spine.remove(1));
            lemma_spliced_out(held, self.nodes@, spine, old(self).chain@, self.free@, 1);
            assert(old(self)@.remove(0) =~= old(self)@.skip(1));
        }
        Some(self.release_slot(old_head))
    }

    /// Unlinks the node right before the trailer and hands its value back.
    pub fn pop_tail(&mut self) -> (tail: Option<T>)
        requires
            old(self).wf(),
        ensures
            final(self).wf(),
            old(self)@.len() == 0 ==> tail is None && final(self)@ == old(self)@,
            old(self)@.len() > 0 ==> tail == Some(old(self)@[old(self)@.len() - 1]) && final(self)@
                == old(self)@.drop_last(),
    {
        if self.is_empty() {
            return None;
        }
        let ghost spine = self.spine();
        let ghost held = self.nodes@;
        let ghost n = self.chain@.len() as int;
        let trailer = self.trailer;
        proof {
            assert(link_at(held, spine, n + 1));
            assert(link_at(held, spine, n));
            assert(link_at(held, spine, n - 1));
            assert(spine[n - 1] != spine[n + 1]);
            assert(spine[n] == self.chain@[n - 1]);
        }
        let old_tail = self.nodes[trailer].prev.unwrap();
        let new_tail = self.nodes[old_tail].prev.unwrap();
        self.nodes[trailer].prev = Some(new_tail);
        self.nodes[new_tail].next = Some(trailer);
        self.length -= 1;
        self.chain = Ghost(old(self).chain@.remove(n - 1));
        proof {
            assert(self.spine() =~= spine.remove(n));
            lemma_spliced_out(held, self.nodes@, spine, old(self).chain@, self.free@, n);
            assert(old(self)@.remove(n - 1) =~= old(self)@.drop_last());
        }
        Some(self.release_slot(old_tail))
    }

    /// Turns the list round: every node, the sentinels included, trades its
    /// two links, and the sentinels trade their roles. Nothing is allocated.
    pub fn reverse(&mut self)
        requires
            old(self).wf(),
        ensures
            final(self).wf(),
            final(self)@ == old(self)@.reverse(),
    {
        if self.length <= 1 {
            assert(self@ =~= self@.reverse());
            return;
        }
        let ghost spine = self.spine();
        let ghost held = self.nodes@;
        let ghost mut k: int = 0;
        let mut curr = Some(self.header);
        loop
            invariant
                0 <= k <= spine.len(),
                curr == (if k < spine.len() {
                    Some(spine[k])
                } else {
                    None
                }),
                linked(held, spine),
                apart(spine, self.free@, held.len()),
                self.nodes@.len() == held.len(),
                forall|j: int| 0 <= j < spine.len() ==> #[trigger] turned_at(held, self.nodes@, spine, k, j),
                forall|i: int| 0 <= i < held.len() ==> (#[trigger] self.nodes@[i]).val == held[i].val,
                self.header == old(self).header,
                self.trailer == old(self).trailer,
                self.chain@ == old(self).chain@,
                self.free@ == old(self).free@,
                self.length == old(self).length,
            ensures
                k == spine.len(),
            decreases spine.len() - k,
        {
            match curr {
                None => {
                    break;
                },
                Some(node) => {
                    let ghost stepped = self.nodes@;
                    proof {
                        assert(turned_at(held, stepped, spine, k, k));
                        assert(link_at(held, spine, k));
                    }
                    let next = self.nodes[node].next;
                    let prev = self.nodes[node].prev;
                    self.nodes[node].next = prev;
                    self.nodes[node].prev = next;
                    curr = next;
                    proof {
                        assert forall|j: int| 0 <= j < spine.len() implies #[trigger] turned_at(
                            held,
                            self.nodes@,
                            spine,
                            k + 1,
                            j,
                        ) by {
                            assert(turned_at(held, stepped, spine, k, j));
                            if j != k {
                                assert(spine[j] != spine[k]);
                            }
                        }
                        k = k + 1;
                    }
                },
            }
        }
        core::mem::swap(&mut self.header, &mut self.trailer);
        self.chain = Ghost(old(self).chain@.reverse());
        proof {
            assert(self.spine() =~= spine.reverse());
            lemma_turned_round(held, self.nodes@, spine, old(self).chain@, self.free@);
        }
    }
}

/// At position `j` of the spine the node has traded its two links if `j` is
/// before `k`, and is as it was otherwise.
spec fn turned_at<T>(
    before: Seq<DoublyNode<T>>,
    after: Seq<DoublyNode<T>>,
    spine: Seq<usize>,
    k: int,
    j: int,
) -> bool {
    if j < k {
        &&& after[spine[j] as int].next == before[spine[j] as int].prev
        &&& after[spine[j] as int].prev == before[spine[j] as int].next
    } else {
        after[spine[j] as int] == before[spine[j] as int]
    }
}

/// Once every node of the spine has traded its two links, the links follow
/// the spine backwards, and the values along it come in reverse.
proof fn lemma_turned_round<T>(
    before: Seq<DoublyNode<T>>,
    after: Seq<DoublyNode<T>>,
    spine: Seq<usize>,
    chain: Seq<usize>,
    free: Seq<usize>,
)
    requires
        chain =~= spine.subrange(1, spine.len() - 1),
        spine.len() >= 2,
        linked(before, spine),
        apart(spine, free, before.len()),
        after.len() == before.len(),
        forall|j: int| 0 <= j < spine.len() ==> #[trigger] turned_at(before, after, spine, spine.len() as int, j),
        forall|i: int| 0 <= i < before.len() ==> (#[trigger] after[i]).val == before[i].val,
    ensures
        linked(after, spine.reverse()),
        apart(spine.reverse(), free, after.len()),
        values_along(after, chain.reverse()) == values_along(before, chain).reverse(),
{
    let len = spine.len() as int;
    let now = spine.reverse();
    assert forall|m: int| 0 <= m < now.len() implies #[trigger] link_at(after, now, m) by {
        assert(link_at(before, spine, len - 1 - m));
        assert(turned_at(before, after, spine, len, len - 1 - m));
    }
    let then_chain = chain.reverse();
    assert forall|m: int| 0 <= m < then_chain.len() implies after[then_chain[m] as int].val
        == values_along(before, chain).reverse()[m] by {
        assert(chain[chain.len() - 1 - m] == spine[chain.len() - m]);
        assert(after[spine[chain.len() - m] as int].val == before[spine[chain.len() - m] as int].val);
    }
    assert(values_along(after, then_chain) =~= values_along(before, chain).reverse());
}

/// Where two arenas agree on every slot but `slot`, which is not on the
/// spine, they hold the same links and the same values along it.
proof fn lemma_same_on_spine<T>(
    before: Seq<DoublyNode<T>>,
    after: Seq<DoublyNode<T>>,
    spine: Seq<usize>,
    chain: Seq<usize>,
    slot: usize,
)
    requires
        chain =~= spine.subrange(1, spine.len() - 1),
        spine.len() >= 2,
        linked(before, spine),
        forall|i: int| 0 <= i < spine.len() ==> (#[trigger] spine[i]) < before.len(),
        forall|i: int| 0 <= i < spine.len() ==> (#[trigger] spine[i]) != slot,
        before.len() <= after.len(),
        forall|i: int| 0 <= i < before.len() && i != slot ==> before[i] == after[i],
    ensures
        linked(after, spine),
        values_along(after, chain) == values_along(before, chain),
{
    assert forall|k: int| 0 <= k < spine.len() implies #[trigger] link_at(after, spine, k) by {
        assert(link_at(before, spine, k));
        assert(before[spine[k] as int] == after[spine[k] as int]);
    }
    assert forall|k: int| 0 <= k < chain.len() implies after[chain[k] as int].val
        == before[chain[k] as int].val by {
        assert(chain[k] == spine[k + 1]);
        assert(before[spine[k + 1] as int] == after[spine[k + 1] as int]);
    }
    assert(values_along(after, chain) =~= values_along(before, chain));
}

/// Linking the spare slot `slot` in at position `p` of the spine, between
/// its two neighbours there, leaves a well-linked spine that holds the new
/// node's value at that place.
proof fn lemma_spliced_in<T>(
    before: Seq<DoublyNode<T>>,
    after: Seq<DoublyNode<T>>,
    spine: Seq<usize>,
    chain: Seq<usize>,
    free: Seq<usize>,
    slot: usize,
    p: int,
)
    requires
        chain =~= spine.subrange(1, spine.len() - 1),
        1 <= p < spine.len(),
        linked(before, spine),
        apart(spine, free, before.len()),
        spare(spine, free, before.len(), slot),
        after.len() == before.len(),
        after[slot as int].val == before[slot as int].val,
        after[slot as int].prev == Some(spine[p - 1]),
        after[slot as int].next == Some(spine[p]),
        after[spine[p - 1] as int].val == before[spine[p - 1] as int].val,
        after[spine[p - 1] as int].prev == before[spine[p - 1] as int].prev,
        after[spine[p - 1] as int].next == Some(slot),
        after[spine[p] as int].val == before[spine[p] as int].val,
        after[spine[p] as int].prev == Some(slot),
        after[spine[p] as int].next == before[spine[p] as int].next,
        forall|i: int|
            0 <= i < before.len() && i != slot && i != spine[p - 1] && i != spine[p] ==> after[i]
                == before[i],
    ensures
        linked(after, spine.insert(p, slot)),
        apart(spine.insert(p, slot), free, after.len()),
        values_along(after, chain.insert(p - 1, slot)) == values_along(before, chain).insert(
            p - 1,
            before[slot as int].val,
        ),
{
    let now = spine.insert(p, slot);
    assert forall|k: int| 0 <= k < now.len() implies #[trigger] link_at(after, now, k) by {
        if k < p - 1 {
            assert(link_at(before, spine, k));
            assert(spine[k] != spine[p - 1] && spine[k] != spine[p]);
        } else if k == p - 1 {
            assert(link_at(before, spine, p - 1));
        } else if k == p {
            // the new node itself: both of its links are given
        } else if k == p + 1 {
            assert(link_at(before, spine, p));
        } else {
            assert(link_at(before, spine, k - 1));
            assert(spine[k - 1] != spine[p - 1] && spine[k - 1] != spine[p]);
        }
    }
    let then_chain = chain.insert(p - 1, slot);
    assert forall|k: int| 0 <= k < then_chain.len() implies after[then_chain[k] as int].val
        == values_along(before, chain).insert(p - 1, before[slot as int].val)[k] by {
        if k < p - 1 {
            assert(chain[k] == spine[k + 1]);
        } else if k > p - 1 {
            assert(chain[k - 1] == spine[k]);
        }
    }
    assert(values_along(after, then_chain) =~= values_along(before, chain).insert(
        p - 1,
        before[slot as int].val,
    ));
}

/// Linking the two neighbours of position `p` of the spine to each other
/// leaves a well-linked spine without that position's slot, which is then
/// spare, and without its value.
proof fn lemma_spliced_out<T>(
    before: Seq<DoublyNode<T>>,
    after: Seq<DoublyNode<T>>,
    spine: Seq<usize>,
    chain: Seq<usize>,
    free: Seq<usize>,
    p: int,
)
    requires
        chain =~= spine.subrange(1, spine.len() - 1),
        1 <= p < spine.len() - 1,
        linked(before, spine),
        apart(spine, free, before.len()),
        after.len() == before.len(),
        after[spine[p - 1] as int].val == before[spine[p - 1] as int].val,
        after[spine[p - 1] as int].prev == before[spine[p - 1] as int].prev,
        after[spine[p - 1] as int].next == Some(spine[p + 1]),
        after[spine[p + 1] as int].val == before[spine[p + 1] as int].val,
        after[spine[p + 1] as int].prev == Some(spine[p - 1]),
        after[spine[p + 1] as int].next == before[spine[p + 1] as int].next,
        forall|i: int|
            0 <= i < before.len() && i != spine[p - 1] && i != spine[p + 1] ==> after[i]
                == before[i],
    ensures
        linked(after, spine.remove(p)),
        apart(spine.remove(p), free, after.len()),
        spare(spine.remove(p), free, after.len(), spine[p]),
        values_along(after, chain.remove(p - 1)) == values_along(before, chain).remove(p - 1),
        after[spine[p] as int].val == values_along(before, chain)[p - 1],
{
    let now = spine.remove(p);
    assert forall|k: int| 0 <= k < now.len() implies #[trigger] link_at(after, now, k) by {
        if k < p - 1 {
            assert(link_at(before, spine, k));
            assert(spine[k] != spine[p - 1] && spine[k] != spine[p + 1]);
        } else if k == p - 1 {
            assert(link_at(before, spine, p - 1));
        } else if k == p {
            assert(link_at(before, spine, p + 1));
        } else {
            assert(link_at(before, spine, k + 1));
            assert(spine[k + 1] != spine[p - 1] && spine[k + 1] != spine[p + 1]);
        }
    }
    assert forall|i: int| 0 <= i < now.len() implies (#[trigger] now[i]) != spine[p] by {
        if i < p {
            assert(now[i] == spine[i]);
        } else {
            assert(now[i] == spine[i + 1]);
        }
    }
    let then_chain = chain.remove(p - 1);
    assert forall|k: int| 0 <= k < then_chain.len() implies after[then_chain[k] as int].val
        == values_along(before, chain).remove(p - 1)[k] by {
        if k < p - 1 {
            assert(chain[k] == spine[k + 1]);
        } else {
            assert(chain[k + 1] == spine[k + 2]);
        }
    }
    assert(values_along(after, then_chain) =~= values_along(before, chain).remove(p - 1));
    assert(chain[p - 1] == spine[p]);
    assert(spine[p] != spine[p - 1] && spine[p] != spine[p + 1]);
}

/// A double-ended queue: values go in and come out at either end.
pub struct Deque<T> {
    list: DoublyLinkedList<T>,
}

impl<T> View for Deque<T> {
    type V = Seq<T>;

    /// The values from front to back.
    closed spec fn view(&self) -> Seq<T> {
        self.list@
    }
}

impl<T: Clone + Default> Deque<T> {
    /// The list underneath is well formed.
    pub closed spec fn wf(&self) -> bool {
        self.list.wf()
    }

    /// An empty deque.
    pub fn new() -> (deque: Self)
        ensures
            deque@ == Seq::<T>::empty(),
            deque.wf(),
    {
        Deque { list: DoublyLinkedList::new() }
    }

    /// Whether the deque holds no value.
    pub fn empty(&self) -> (empty: bool)
        requires
            self.wf(),
        ensures
            empty == (self@.len() == 0),
    {
        self.list.is_empty()
    }

    /// The number of values in the deque.
    pub fn len(&self) -> (len: usize)
        requires
            self.wf(),
        ensures
            len == self@.len(),
    {
        self.list.len()
    }

    /// A deque that holds the values of `vec` in their order, the first one
    /// at the front.
    pub fn from_vec(vec: Vec<T>) -> (deque: Self)
        ensures
            deque@ == vec@,
            deque.wf(),
    {
        let mut list = DoublyLinkedList::new();
        for val in it: vec.into_iter()
            invariant
                list.wf(),
                it.seq() == vec@,
                list@ =~= vec@.take(it.index() as int),
        {
            list.push_tail(val);
        }
        assert(list@ =~= vec@);
        Deque { list }
    }

    /// Copies of the values from front to back.
    pub fn to_vec(&self) -> (vec: Vec<T>)
        requires
            self.wf(),
        ensures
            vec@.len() == self@.len(),
            forall|i: int| 0 <= i < self@.len() ==> cloned::<T>(#[trigger] self@[i], vec@[i]),
    {
        let ghost spine = self.list.spine();
        let mut vec = Vec::new();
        assert(link_at(self.list.nodes@, spine, 0));
        let mut curr = self.list.nodes[self.list.header].next.unwrap();
        while curr != self.list.trailer
            invariant
                self.wf(),
                spine == self.list.spine(),
                vec@.len() + 1 < spine.len(),
                curr == spine[vec@.len() as int + 1],
                forall|i: int| 0 <= i < vec@.len() ==> cloned::<T>(#[trigger] self@[i], vec@[i]),
            decreases spine.len() - vec@.len(),
        {
            let ghost n = vec@.len() as int;
            proof {
                assert(link_at(self.list.nodes@, spine, n + 1));
                assert(spine[n + 1] != spine[spine.len() - 1]);
                assert(spine[n + 1] == self.list.chain@[n]);
            }
            vec.push(self.list.nodes[curr].val.clone());
            curr = self.list.nodes[curr].next.unwrap();
        }
        proof {
            let n = vec@.len() as int;
            if n + 1 < spine.len() - 1 {
                assert(spine[n + 1] != spine[spine.len() - 1]);
            }
        }
        vec
    }

    /// A copy of the value at the front.
    pub fn peek_front(&self) -> (front: Option<T>)
        requires
            self.wf(),
        ensures
            self@.len() == 0 ==> front is None,
            self@.len() > 0 ==> front is Some && cloned::<T>(self@[0], front->0),
    {
        self.list.peek_head()
    }

    /// A copy of the value at the back.
    pub fn peek_back(&self) -> (back: Option<T>)
        requires
            self.wf(),
        ensures
            self@.len() == 0 ==> back is None,
            self@.len() > 0 ==> back is Some && cloned::<T>(self@[self@.len() - 1], back->0),
    {
        self.list.peek_tail()
    }

    /// Puts `val` at the front.
    pub fn push_front(&mut self, val: T)
        requires
            old(self).wf(),
        ensures
            final(self).wf(),
            final(self)@ == seq![val] + old(self)@,
    {
        self.list.push_head(val);
    }

    /// Puts `val` at the back.
    pub fn push_back(&mut self, val: T)
        requires
            old(self).wf(),
        ensures
            final(self).wf(),
            final(self)@ == old(self)@.push(val),
    {
        self.list.push_tail(val);
    }

    /// Takes the value at the front out.
    pub fn pop_front(&mut self) -> (front: Option<T>)
        requires
            old(self).wf(),
        ensures
            final(self).wf(),
            old(self)@.len() == 0 ==> front is None && final(self)@ == old(self)@,
            old(self)@.len() > 0 ==> front == Some(old(self)@[0]) && final(self)@ == old(self)@.skip(1),
    {
        self.list.pop_head()
    }

    /// Takes the value at the back out.
    pub fn pop_back(&mut self) -> (back: Option<T>)
        requires
            old(self).wf(),
        ensures
            final(self).wf(),
            old(self)@.len() == 0 ==> back is None && final(self)@ == old(self)@,
            old(self)@.len() > 0 ==> back == Some(old(self)@[old(self)@.len() - 1]) && final(self)@
                == old(self)@.drop_last(),
    {
        self.list.pop_tail()
    }

    /// Turns the deque round, so that the back becomes the front.
    pub fn reverse(&mut self)
        requires
            old(self).wf(),
        ensures
            final(self).wf(),
            final(self)@ == old(self)@.reverse(),
    {
        self.list.reverse();
    }
}

/// The values of a list as they are drawn, one after the other and each
/// with a link after it.
pub open spec fn drawn_values(values: Seq<String>) -> Seq<char>
    decreases values.len(),
{
    if values.len() == 0 {
        Seq::empty()
    } else {
        drawn_values(values.drop_last()) + values.last()@ + " <-> "@
    }
}

/// The line that draws a list between its two sentinels, with its end of
/// line.
pub open spec fn drawn(values: Seq<String>) -> Seq<char> {
    "Header <-> "@ + drawn_values(values) + "Trailer\n"@
}

impl DoublyLinkedList<String> {
    /// The line that draws the list, from the header to the trailer.
    pub fn print(&self) -> (line: String)
        requires
            self.wf(),
        ensures
            line@ == drawn(self@),
    {
        let ghost spine = self.spine();
        let mut line = String::from_str("Header <-> ");
        assert(link_at(self.nodes@, spine, 0));
        assert(self@.take(0) =~= Seq::empty());
        let ghost mut done: int = 0;
        let mut curr = self.nodes[self.header].next.unwrap();
        while curr != self.trailer
            invariant
                self.wf(),
                spine == self.spine(),
                0 <= done < spine.len() - 1,
                curr == spine[done + 1],
                line@ =~= "Header <-> "@ + drawn_values(self@.take(done)),
            decreases spine.len() - done,
        {
            proof {
                assert(link_at(self.nodes@, spine, done + 1));
                assert(spine[done + 1] != spine[spine.len() - 1]);
                assert(spine[done + 1] == self.chain@[done]);
                assert(self@.take(done + 1).drop_last() =~= self@.take(done));
            }
            line.append(self.nodes[curr].val.as_str());
            line.append(" <-> ");
            curr = self.nodes[curr].next.unwrap();
            proof {
                done = done + 1;
            }
        }
        proof {
            if done + 1 < spine.len() - 1 {
                assert(spine[done + 1] != spine[spine.len() - 1]);
            }
            assert(self@.take(done) =~= self@);
        }
        line.append("Trailer\n");
        line
    }
}

impl Deque<String> {
    /// The line that draws the deque, front to back.
    pub fn print(&self) -> (line: String)
        requires
            self.wf(),
        ensures
            line@ == drawn(self@),
    {
        self.list.print()
    }
}

} // verus!
