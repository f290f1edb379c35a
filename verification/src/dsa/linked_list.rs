//! A singly linked list of integers: insertion and removal at the head,
//! reversal in place, and conversion from and to a vector.

use vstd::prelude::*;

verus! {

/// A list node: a value and the rest of the list, which it owns.
pub struct Node {
    val: i32,
    next: Option<Box<Node>>,
}

impl Node {
    /// The value stored at this node.
    pub closed spec fn item(&self) -> i32 {
        self.val
    }

    /// Whether no node follows this one.
    pub closed spec fn is_last(&self) -> bool {
        self.next is None
    }

    /// A node holding `val` with nothing after it.
    pub fn new(val: i32) -> (node: Self)
        ensures
            node.item() == val,
            node.is_last(),
    {
        Node { val, next: None }
    }
}

/// The values of a chain of nodes, first node first.
pub closed spec fn values(link: Option<Box<Node>>) -> Seq<i32>
    decreases link,
{
    match link {
        None => Seq::empty(),
        Some(node) => seq![node.val] + values(node.next),
    }
}

/// A singly linked list of integers.
pub struct LinkedList {
    head: Option<Box<Node>>,
}

impl View for LinkedList {
    type V = Seq<i32>;

    /// The values from head to tail.
    closed spec fn view(&self) -> Seq<i32> {
        values(self.head)
    }
}

impl LinkedList {
    /// An empty list.
    pub fn new() -> (list: Self)
        ensures
            list@ == Seq::<i32>::empty(),
    {
        LinkedList { head: None }
    }

    /// Puts `val` in front of the list.
    pub fn push_front(&mut self, val: i32)
        ensures
            final(self)@ == seq![val] + old(self)@,
    {
        let mut new_node = Box::new(Node::new(val));
        new_node.next = self.head.take();
        self.head = Some(new_node);
    }

    /// Takes the head off the list and hands its value back.
    pub fn pop_front(&mut self) -> (head: Option<i32>)
        ensures
            old(self)@.len() == 0 ==> head is None && final(self)@ == old(self)@,
            old(self)@.len() > 0 ==> head == Some(old(self)@[0]) && final(self)@ == old(self)@.skip(1),
    {
        match self.head.take() {
            Some(mut node) => {
                self.head = node.next.take();
                Some(node.val)
            },
            None => None,
        }
    }

    /// Turns the list round by relinking its nodes, allocating nothing.
    pub fn reverse(&mut self)
        ensures
            final(self)@ == old(self)@.reverse(),
    {
        if self.head.is_none() {
            return;
        }
        let mut curr = self.head.take();
        let mut prev: Option<Box<Node>> = None;
        loop
            invariant
                values(prev).reverse() + values(curr) =~= old(self)@,
            ensures
                curr is None,
            decreases values(curr).len(),
        {
            match curr {
                None => {
                    break;
                },
                Some(mut node) => {
                    let next = node.next.take();
                    node.next = prev;
                    prev = Some(node);
                    curr = next;
                },
            }
        }
        self.head = prev;
    }

    /// A list whose values from head to tail are those of `vec` in order.
    pub fn from_vec(vec: Vec<i32>) -> (list: Self)
        ensures
            list@ == vec@,
    {
        let mut list = LinkedList::new();
        for val in iter: vec.iter().rev()
            invariant
                list@ =~= vec@.skip(vec@.len() - iter.index()),
                iter.seq().len() == vec@.len(),
                forall|i: int| 0 <= i < vec@.len() ==> *iter.seq()[i] == vec@[vec@.len() - 1 - i],
        {
            list.push_front(*val)
        }
        list
    }

    /// The values from head to tail.
    pub fn to_vec(&self) -> (vec: Vec<i32>)
        ensures
            vec@ == self@,
    {
        let mut vec = Vec::new();
        let mut current = &self.head;
        loop
            invariant
                vec@ + values(*current) =~= self@,
            ensures
                vec@ == self@,
            decreases values(*current).len(),
        {
            match current {
                None => {
                    break;
                },
                Some(node) => {
                    let ghost so_far = vec@;
                    vec.push(node.val);
                    current = &node.next;
                    assert(vec@ + values(*current) =~= so_far + (seq![node.val] + values(
                        node.next,
                    )));
                },
            }
        }
        vec
    }
}

impl Drop for LinkedList {
    /// Releases the nodes one after the other, front to back.
    fn drop(&mut self)
        ensures
            final(self)@ == Seq::<i32>::empty(),
        opens_invariants none
        no_unwind
    {
        let mut rest = None;
        core::mem::swap(&mut rest, &mut self.head);
        loop
            decreases values(rest).len(),
        {
            match rest {
                None => {
                    break;
                },
                Some(mut node) => {
                    let mut next = None;
                    core::mem::swap(&mut next, &mut node.next);
                    rest = next;
                },
            }
        }
    }
}

} // verus!
