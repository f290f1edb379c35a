//! A singly linked list with a maintained length, and a stack on top of it
//! whose top is the head of the list.

use vstd::prelude::*;

verus! {

/// A list node: a value and the rest of the list, which it owns.
pub struct Node<T> {
    val: T,
    next: Option<Box<Node<T>>>,
}

impl<T> Node<T> {
    /// The value stored at this node.
    pub closed spec fn item(&self) -> T {
        self.val
    }

    /// Whether no node follows this one.
    pub closed spec fn is_last(&self) -> bool {
        self.next is None
    }

    /// A node holding `val` with nothing after it.
    pub fn new(val: T) -> (node: Self)
        ensures
            node.item() == val,
            node.is_last(),
    {
        Node { val, next: None }
    }
}

/// The values of a chain of nodes, first node first.
pub closed spec fn items<T>(link: Option<Box<Node<T>>>) -> Seq<T>
    decreases link,
{
    match link {
        None => Seq::empty(),
        Some(node) => seq![node.val] + items(node.next),
    }
}

/// A singly linked list that knows its length.
pub struct LinkedList<T> {
    head: Option<Box<Node<T>>>,
    length: usize,
}

impl<T> View for LinkedList<T> {
    type V = Seq<T>;

    /// The values from head to tail.
    closed spec fn view(&self) -> Seq<T> {
        items(self.head)
    }
}

impl<T> LinkedList<T> {
    /// The maintained length is the number of nodes.
    pub closed spec fn wf(&self) -> bool {
        self.length == items(self.head).len()
    }

    /// An empty list.
    pub fn new() -> (list: Self)
        ensures
            list@ == Seq::<T>::empty(),
            list.wf(),
    {
        LinkedList { head: None, length: 0 }
    }

    /// The value at the head, left in place.
    pub fn peek_head(&self) -> (head: Option<&T>)
        ensures
            self@.len() == 0 ==> head is None,
            self@.len() > 0 ==> head == Some(&self@[0]),
    {
        match &self.head {
            Some(node) => Some(&node.val),
            None => None,
        }
    }

    /// The value at the head, to be changed in place.
    pub fn peek_head_mut(&mut self) -> (head: Option<&mut T>)
        ensures
            old(self)@.len() == 0 ==> head is None && final(self)@ == old(self)@,
            old(self)@.len() > 0 ==> head is Some && *head->0 == old(self)@[0] && final(self)@
                == old(self)@.update(0, *final(head->0)),
            old(self).wf() ==> final(self).wf(),
    {
        match &mut self.head {
            Some(node) => Some(&mut node.val),
            None => None,
        }
    }

    /// Puts `val` in front of the list.
    pub fn push_front(&mut self, val: T)
        requires
            old(self).wf(),
            old(self)@.len() < usize::MAX,
        ensures
            final(self).wf(),
            final(self)@ == seq![val] + old(self)@,
    {
        let mut new_node = Box::new(Node::new(val));
        new_node.next = self.head.take();
        self.head = Some(new_node);
        self.length += 1;
    }

    /// Takes the head off the list and hands its value back.
    pub fn pop_head(&mut self) -> (head: Option<T>)
        requires
            old(self).wf(),
        ensures
            final(self).wf(),
            old(self)@.len() == 0 ==> head is None && final(self)@ == old(self)@,
            old(self)@.len() > 0 ==> head == Some(old(self)@[0]) && final(self)@ == old(self)@.skip(1),
    {
        match self.head.take() {
            Some(node) => {
                let node = *node;
                self.head = node.next;
                self.length -= 1;
                Some(node.val)
            },
            None => None,
        }
    }

    /// Turns the list round by relinking its nodes, allocating nothing.
    pub fn reverse(&mut self)
        ensures
            final(self)@ == old(self)@.reverse(),
            old(self).wf() ==> final(self).wf(),
    {
        if self.head.is_none() {
            return;
        }
        let mut curr = self.head.take();
        let mut prev: Option<Box<Node<T>>> = None;
        loop
            invariant
                items(prev).reverse() + items(curr) =~= old(self)@,
                self.length == old(self).length,
            ensures
                curr is None,
            decreases items(curr).len(),
        {
            match curr {
                None => {
                    break;
                },
                Some(mut node) => {
                    let next = node.next.take();
                    node.next = prev;
                    prev = Some(node);
                    curr = next;
                },
            }
        }
        self.head = prev;
    }
}

impl<T> Drop for LinkedList<T> {
    /// Releases the nodes one after the other, front to back, so that a long
    /// list is never unwound through nested calls.
    fn drop(&mut self)
        ensures
            final(self)@ == Seq::<T>::empty(),
            final(self).wf(),
        opens_invariants none
        no_unwind
    {
        let mut rest = None;
        core::mem::swap(&mut rest, &mut self.head);
        self.length = 0;
        loop
            decreases items(rest).len(),
        {
            match rest {
                None => {
                    break;
                },
                Some(mut node) => {
                    let mut next = None;
                    core::mem::swap(&mut next, &mut node.next);
                    rest = next;
                },
            }
        }
    }
}

/// A stack: the top is the head of the list underneath.
pub struct Stack<T> {
    list: LinkedList<T>,
}

impl<T> View for Stack<T> {
    type V = Seq<T>;

    /// The values from the top down.
    closed spec fn view(&self) -> Seq<T> {
        self.list@
    }
}

impl<T: Clone> Stack<T> {
    /// The list underneath is well formed.
    pub closed spec fn wf(&self) -> bool {
        self.list.wf()
    }

    /// An empty stack.
    pub fn new() -> (stack: Self)
        ensures
            stack@ == Seq::<T>::empty(),
            stack.wf(),
    {
        Stack { list: LinkedList::new() }
    }

    /// A stack that holds the values of `vec` in their order, the first one
    /// on top.
    pub fn from_vec(vec: Vec<T>) -> (stack: Self)
        ensures
            stack@ == vec@,
            stack.wf(),
    {
        let mut vec = vec;
        let ghost whole = vec@;
        assert(whole.len() == vec.len());
        let mut list = LinkedList::new();
        loop
            invariant
                list.wf(),
                vec@ + list@ =~= whole,
                whole.len() <= usize::MAX,
            ensures
                list@ == whole,
            decreases vec@.len(),
        {
            match vec.pop() {
                Some(val) => {
                    list.push_front(val);
                },
                None => {
                    break;
                },
            }
        }
        Stack { list }
    }

    /// Copies of the values from the top down.
    pub fn to_vec(&self) -> (vec: Vec<T>)
        ensures
            vec@.len() == self@.len(),
            forall|i: int| 0 <= i < self@.len() ==> cloned::<T>(#[trigger] self@[i], vec@[i]),
    {
        let mut vec = Vec::new();
        let mut current = &self.list.head;
        loop
            invariant
                vec@.len() <= self@.len(),
                items(*current) =~= self@.skip(vec@.len() as int),
                forall|i: int| 0 <= i < vec@.len() ==> cloned::<T>(#[trigger] self@[i], vec@[i]),
            ensures
                vec@.len() == self@.len(),
                forall|i: int| 0 <= i < self@.len() ==> cloned::<T>(#[trigger] self@[i], vec@[i]),
            decreases items(*current).len(),
        {
            match current {
                None => {
                    break;
                },
                Some(node) => {
                    let ghost n = vec@.len() as int;
                    assert(self@[n] == node.val) by {
                        assert(self@.skip(n)[0] == node.val);
                    }
                    vec.push(node.val.clone());
                    current = &node.next;
                    assert(items(*current) =~= self@.skip(n + 1)) by {
                        assert(self@.skip(n).skip(1) =~= self@.skip(n + 1));
                    }
                },
            }
        }
        vec
    }

    /// Puts `val` on top.
    pub fn push(&mut self, val: T)
        requires
            old(self).wf(),
            old(self)@.len() < usize::MAX,
        ensures
            final(self).wf(),
            final(self)@ == seq![val] + old(self)@,
    {
        self.list.push_front(val);
    }

    /// Takes the top off and hands it back.
    pub fn pop(&mut self) -> (top: Option<T>)
        requires
            old(self).wf(),
        ensures
            final(self).wf(),
            old(self)@.len() == 0 ==> top is None && final(self)@ == old(self)@,
            old(self)@.len() > 0 ==> top == Some(old(self)@[0]) && final(self)@ == old(self)@.skip(1),
    {
        self.list.pop_head()
    }

    /// The top, left in place.
    pub fn peek(&self) -> (top: Option<&T>)
        ensures
            self@.len() == 0 ==> top is None,
            self@.len() > 0 ==> top == Some(&self@[0]),
    {
        self.list.peek_head()
    }

    /// The top, to be changed in place.
    pub fn peek_mut(&mut self) -> (top: Option<&mut T>)
        ensures
            old(self)@.len() == 0 ==> top is None && final(self)@ == old(self)@,
            old(self)@.len() > 0 ==> top is Some && *top->0 == old(self)@[0] && final(self)@
                == old(self)@.update(0, *final(top->0)),
            old(self).wf() ==> final(self).wf(),
    {
        self.list.peek_head_mut()
    }

    /// The number of values on the stack.
    pub fn len(&self) -> (len: usize)
        requires
            self.wf(),
        ensures
            len == self@.len(),
    {
        self.list.length
    }

    /// Whether there is nothing on the stack.
    pub fn is_empty(&self) -> (empty: bool)
        requires
            self.wf(),
        ensures
            empty == (self@.len() == 0),
    {
        self.list.length == 0
    }

    /// Turns the stack upside down.
    pub fn reverse(&mut self)
        ensures
            final(self)@ == old(self)@.reverse(),
            old(self).wf() ==> final(self).wf(),
    {
        self.list.reverse();
    }
}

/// The width of the widest of the entries whose widths are given; 0 where
/// there is none. A stack is drawn in a column of this width.
pub fn column_width(widths: &Vec<usize>) -> (widest: usize)
    ensures
        forall|i: int| 0 <= i < widths@.len() ==> widths@[i] <= widest,
        widths@.len() == 0 ==> widest == 0,
        widths@.len() > 0 ==> widths@.contains(widest),
{
    let mut widest: usize = 0;
    let mut i: usize = 0;
    while i < widths.len()
        invariant
            i <= widths@.len(),
            forall|k: int| 0 <= k < i ==> widths@[k] <= widest,
            i == 0 ==> widest == 0,
            i > 0 ==> widths@.contains(widest),
        decreases widths@.len() - i,
    {
        if i == 0 || widths[i] > widest {
            widest = widths[i];
        }
        i += 1;
    }
    widest
}

/// Reversing twice gives back the order that was there: for any sequence,
/// a list, a stack or a deque that holds it holds it again after two
/// calls of `reverse`.
pub proof fn lemma_reverse_is_involution<T>(s: Seq<T>)
    ensures
        s.reverse().reverse() == s,
{
}

} // verus!
