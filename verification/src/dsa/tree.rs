//! An unbalanced binary search tree of integers that keeps duplicates.

use vstd::multiset::Multiset;
use vstd::prelude::*;

verus! {

/// A tree node: a value and two owned subtrees, either of which may be absent.
pub struct Node<T> {
    value: T,
    left: Option<Box<Node<T>>>,
    right: Option<Box<Node<T>>>,
}

impl<T> Node<T> {
    /// The value stored at this node.
    pub closed spec fn item(&self) -> T {
        self.value
    }

    /// Whether the node has no subtree on either side.
    pub closed spec fn is_leaf(&self) -> bool {
        self.left is None && self.right is None
    }

    /// A leaf holding `value`.
    pub fn new(value: T) -> (node: Self)
        ensures
            node.item() == value,
            node.is_leaf(),
    {
        Node { value, left: None, right: None }
    }
}

/// The shape of a tree: empty, or a value between a left and a right
/// subtree.
pub enum Shape {
    Empty,
    Fork { left: Box<Shape>, value: i32, right: Box<Shape> },
}

/// The values in a tree of this shape, with their multiplicities.
pub open spec fn values(shape: Shape) -> Multiset<i32>
    decreases shape,
{
    match shape {
        Shape::Empty => Multiset::empty(),
        Shape::Fork { left, value, right } => values(*left).add(values(*right)).insert(value),
    }
}

/// The tree with `value` put in: down from the root, to the left where it is
/// smaller than the value there and to the right otherwise, it becomes a
/// leaf at the first free place. Nothing else moves.
pub open spec fn grown(shape: Shape, value: i32) -> Shape
    decreases shape,
{
    match shape {
        Shape::Empty => Shape::Fork {
            left: Box::new(Shape::Empty),
            value,
            right: Box::new(Shape::Empty),
        },
        Shape::Fork { left, value: here, right } => if value < here {
            Shape::Fork { left: Box::new(grown(*left, value)), value: here, right }
        } else {
            Shape::Fork { left, value: here, right: Box::new(grown(*right, value)) }
        },
    }
}

/// The leftmost value of a tree that is not empty.
pub open spec fn least(shape: Shape) -> i32
    decreases shape,
{
    match shape {
        Shape::Empty => 0,
        Shape::Fork { left, value, right } => if *left is Empty {
            value
        } else {
            least(*left)
        },
    }
}

/// The tree without its leftmost node, whose right subtree takes its place.
pub open spec fn without_least(shape: Shape) -> Shape
    decreases shape,
{
    match shape {
        Shape::Empty => Shape::Empty,
        Shape::Fork { left, value, right } => if *left is Empty {
            *right
        } else {
            Shape::Fork { left: Box::new(without_least(*left)), value, right }
        },
    }
}

/// The tree with one occurrence of `value` taken out: the first node on the
/// way down that holds it goes. A node without a left or without a right
/// subtree gives its place to the other subtree; a node with both takes
/// over the leftmost value of its right subtree, which loses that node. A
/// tree on whose way down the value is not met stays as it is.
pub open spec fn pruned(shape: Shape, value: i32) -> Shape
    decreases shape,
{
    match shape {
        Shape::Empty => Shape::Empty,
        Shape::Fork { left, value: here, right } => if here == value {
            if *left is Empty {
                *right
            } else if *right is Empty {
                *left
            } else {
                Shape::Fork { left, value: least(*right), right: Box::new(without_least(*right)) }
            }
        } else if here < value {
            Shape::Fork { left, value: here, right: Box::new(pruned(*right, value)) }
        } else {
            Shape::Fork { left: Box::new(pruned(*left, value)), value: here, right }
        },
    }
}

/// A tree that does not hold `value` is as it was once `value` has been
/// taken out of it.
pub proof fn lemma_pruned_of_absent(shape: Shape, value: i32)
    requires
        !values(shape).contains(value),
    ensures
        pruned(shape, value) == shape,
    decreases shape,
{
    broadcast use vstd::multiset::group_multiset_axioms;

    match shape {
        Shape::Empty => {},
        Shape::Fork { left, value: here, right } => {
            assert(values(shape).contains(here));
            if here < value {
                assert(!values(*right).contains(value));
                lemma_pruned_of_absent(*right, value);
            } else {
                assert(!values(*left).contains(value));
                lemma_pruned_of_absent(*left, value);
            }
        },
    }
}

/// The shape of a subtree.
spec fn shape_of(tree: Option<Box<Node<i32>>>) -> Shape
    decreases tree,
{
    match tree {
        None => Shape::Empty,
        Some(node) => Shape::Fork {
            left: Box::new(shape_of(node.left)),
            value: node.value,
            right: Box::new(shape_of(node.right)),
        },
    }
}

/// One step of the way down a tree: which way it went, and what it left
/// behind, the value of the node and its other subtree.
struct Step {
    leftward: bool,
    value: i32,
    other: Shape,
}

/// The tree that has `inner` where the way `path` leads.
spec fn plug(path: Seq<Step>, inner: Shape) -> Shape
    decreases path.len(),
{
    if path.len() == 0 {
        inner
    } else {
        plug(path.drop_last(), around(path.last(), inner))
    }
}

/// The node that a step has left behind, with `inner` below it on the side
/// to which the step went.
spec fn around(step: Step, inner: Shape) -> Shape {
    if step.leftward {
        Shape::Fork { left: Box::new(inner), value: step.value, right: Box::new(step.other) }
    } else {
        Shape::Fork { left: Box::new(step.other), value: step.value, right: Box::new(inner) }
    }
}

proof fn lemma_bag_is_values(tree: Option<Box<Node<i32>>>)
    ensures
        bag(tree) == values(shape_of(tree)),
    decreases tree,
{
    match tree {
        None => {},
        Some(node) => {
            lemma_bag_is_values(node.left);
            lemma_bag_is_values(node.right);
        },
    }
}

/// The values held in a subtree, with their multiplicities.
spec fn bag(tree: Option<Box<Node<i32>>>) -> Multiset<i32>
    decreases tree,
{
    match tree {
        None => Multiset::empty(),
        Some(node) => bag(node.left).add(bag(node.right)).insert(node.value),
    }
}

/// The search-tree invariant: at every node, what is to the left is strictly
/// smaller and what is to the right is greater or equal.
spec fn ordered(tree: Option<Box<Node<i32>>>) -> bool
    decreases tree,
{
    match tree {
        None => true,
        Some(node) => {
            &&& ordered(node.left)
            &&& ordered(node.right)
            &&& forall|x: i32| bag(node.left).contains(x) ==> x < node.value
            &&& forall|x: i32| bag(node.right).contains(x) ==> x >= node.value
        },
    }
}

/// Every value of the subtree lies in `lo..hi`.
spec fn within(tree: Option<Box<Node<i32>>>, lo: int, hi: int) -> bool {
    forall|x: i32| bag(tree).contains(x) ==> lo <= x < hi
}

/// The values of a subtree from left to right.
spec fn in_order(tree: Option<Box<Node<i32>>>) -> Seq<i32>
    decreases tree,
{
    match tree {
        None => Seq::empty(),
        Some(node) => in_order(node.left).push(node.value) + in_order(node.right),
    }
}

/// No element is greater than a later one.
pub open spec fn ascending(s: Seq<i32>) -> bool {
    forall|i: int, j: int| 0 <= i < j < s.len() ==> s[i] <= s[j]
}

proof fn lemma_in_order_holds_bag(tree: Option<Box<Node<i32>>>)
    ensures
        in_order(tree).to_multiset() =~= bag(tree),
        forall|x: i32| in_order(tree).contains(x) <==> bag(tree).contains(x),
    decreases tree,
{
    broadcast use vstd::multiset::group_multiset_axioms;
    broadcast use vstd::seq_lib::group_to_multiset_ensures;

    match tree {
        None => {},
        Some(node) => {
            lemma_in_order_holds_bag(node.left);
            lemma_in_order_holds_bag(node.right);
            let front = in_order(node.left).push(node.value);
            vstd::seq_lib::lemma_multiset_commutative(front, in_order(node.right));
            assert(in_order(tree).to_multiset() =~= bag(tree));
        },
    }
    assert forall|x: i32| in_order(tree).contains(x) <==> bag(tree).contains(x) by {
        vstd::seq_lib::to_multiset_contains(in_order(tree), x);
    }
}

proof fn lemma_in_order_ascends(tree: Option<Box<Node<i32>>>)
    requires
        ordered(tree),
    ensures
        ascending(in_order(tree)),
    decreases tree,
{
    match tree {
        None => {},
        Some(node) => {
            lemma_in_order_ascends(node.left);
            lemma_in_order_ascends(node.right);
            lemma_in_order_holds_bag(node.left);
            lemma_in_order_holds_bag(node.right);
            let l = in_order(node.left);
            let r = in_order(node.right);
            let s = in_order(tree);
            assert forall|i: int, j: int| 0 <= i < j < s.len() implies s[i] <= s[j] by {
                if i < l.len() {
                    assert(l.contains(s[i]));
                }
                if j < l.len() {
                    assert(l.contains(s[j]));
                }
                if i > l.len() {
                    assert(r[i - l.len() - 1] == s[i]);
                    assert(r.contains(s[i]));
                }
                if j > l.len() {
                    assert(r[j - l.len() - 1] == s[j]);
                    assert(r.contains(s[j]));
                }
            }
        },
    }
}

/// Removes one occurrence of `value` from a subtree, if there is one; says
/// whether there was, and hands the subtree back.
fn delete_node(node: Option<Box<Node<i32>>>, value: i32) -> (r: (Option<Box<Node<i32>>>, bool))
    requires
        ordered(node),
    ensures
        ordered(r.0),
        r.1 == bag(node).contains(value),
        bag(r.0) =~= bag(node).remove(value),
        shape_of(r.0) == pruned(shape_of(node), value),
    decreases node,
{
    broadcast use vstd::multiset::group_multiset_axioms;

    match node {
        Some(mut node) => {
            let ghost left_bag = bag(node.left);
            let ghost right_bag = bag(node.right);
            let ghost shape = shape_of(Some(node));
            let ghost left_shape = shape_of(node.left);
            let ghost right_shape = shape_of(node.right);
            let ghost here = node.value;
            assert(shape == Shape::Fork {
                left: Box::new(left_shape),
                value: here,
                right: Box::new(right_shape),
            });
            if node.value == value {
                match (node.left.take(), node.right.take()) {
                    // a leaf: it goes
                    (None, None) => {
                        assert(pruned(shape, value) == right_shape);
                        (None, true)
                    },
                    // one child: it takes the node's place
                    (Some(left), None) => {
                        assert(left_shape is Fork && right_shape is Empty);
                        assert(pruned(shape, value) == left_shape);
                        (Some(left), true)
                    },
                    (None, Some(right)) => {
                        assert(pruned(shape, value) == right_shape);
                        (Some(right), true)
                    },
                    // two children: the least value to the right moves up
                    (Some(left), Some(right)) => {
                        assert(left_shape is Fork && right_shape is Fork);
                        let (min_value, new_right) = remove_min(right);
                        node.value = min_value;
                        node.right = new_right;
                        node.left = Some(left);
                        proof {
                            assert(pruned(shape, value) == Shape::Fork {
                                left: Box::new(left_shape),
                                value: least(right_shape),
                                right: Box::new(without_least(right_shape)),
                            });
                            assert(right_bag.contains(min_value));
                            assert(bag(Some(node)) =~= left_bag.add(right_bag));
                            assert forall|x: i32| bag(node.left).contains(x) implies x
                                < min_value by {
                                assert(left_bag.contains(x));
                            }
                            assert forall|x: i32| bag(node.right).contains(x) implies x
                                >= min_value by {
                                assert(right_bag.contains(x));
                            }
                        }
                        (Some(node), true)
                    },
                }
            } else if node.value < value {
                let (new_right, found) = delete_node(node.right.take(), value);
                node.right = new_right;
                proof {
                    assert(pruned(shape, value) == Shape::Fork {
                        left: Box::new(left_shape),
                        value: here,
                        right: Box::new(pruned(right_shape, value)),
                    });
                    assert(!left_bag.contains(value));
                    assert forall|x: i32| bag(node.right).contains(x) implies x >= node.value by {
                        assert(right_bag.contains(x));
                    }
                }
                (Some(node), found)
            } else {
                let (new_left, found) = delete_node(node.left.take(), value);
                node.left = new_left;
                proof {
                    assert(pruned(shape, value) == Shape::Fork {
                        left: Box::new(pruned(left_shape, value)),
                        value: here,
                        right: Box::new(right_shape),
                    });
                    assert(!right_bag.contains(value));
                    assert forall|x: i32| bag(node.left).contains(x) implies x < node.value by {
                        assert(left_bag.contains(x));
                    }
                }
                (Some(node), found)
            }
        },
        None => (None, false),
    }
}

/// Takes the least value out of a subtree: the leftmost node goes and its
/// right child, if any, takes its place.
fn remove_min(node: Box<Node<i32>>) -> (r: (i32, Option<Box<Node<i32>>>))
    requires
        ordered(Some(node)),
    ensures
        bag(Some(node)).contains(r.0),
        forall|x: i32| bag(Some(node)).contains(x) ==> r.0 <= x,
        bag(r.1) =~= bag(Some(node)).remove(r.0),
        ordered(r.1),
        r.0 == least(shape_of(Some(node))),
        shape_of(r.1) == without_least(shape_of(Some(node))),
    decreases node,
{
    broadcast use vstd::multiset::group_multiset_axioms;

    let mut node = node;
    let ghost whole = bag(Some(node));
    let ghost left_bag = bag(node.left);
    let ghost right_bag = bag(node.right);
    let ghost shape = shape_of(Some(node));
    let ghost left_shape = shape_of(node.left);
    let ghost right_shape = shape_of(node.right);
    assert(whole =~= left_bag.add(right_bag).insert(node.value));
    assert(shape == Shape::Fork {
        left: Box::new(left_shape),
        value: node.value,
        right: Box::new(right_shape),
    });
    if let Some(left) = node.left.take() {
        assert(left_shape is Fork);
        let (min_value, new_left) = remove_min(left);
        node.left = new_left;
        proof {
            assert(least(shape) == least(left_shape));
            assert(without_least(shape) == Shape::Fork {
                left: Box::new(without_least(left_shape)),
                value: node.value,
                right: Box::new(right_shape),
            });
            assert(left_bag.contains(min_value));
            assert forall|x: i32| bag(node.left).contains(x) implies x < node.value by {
                assert(left_bag.contains(x));
            }
            assert forall|x: i32| whole.contains(x) implies min_value <= x by {
                if !left_bag.contains(x) && x != node.value {
                    assert(right_bag.contains(x));
                }
            }
        }
        (min_value, Some(node))
    } else {
        proof {
            assert(left_shape is Empty);
            assert(least(shape) == node.value);
            assert(without_least(shape) == right_shape);
            assert(left_bag =~= Multiset::<i32>::empty());
            assert forall|x: i32| whole.contains(x) implies node.value <= x by {
                if x != node.value {
                    assert(right_bag.contains(x));
                }
            }
        }
        (node.value, node.right.take())
    }
}

/// Appends the values of a subtree to `out`, left to right.
fn traverse(node: &Option<Box<Node<i32>>>, out: &mut Vec<i32>)
    ensures
        final(out)@ == old(out)@ + in_order(*node),
    decreases node,
{
    if let Some(node) = node {
        traverse(&node.left, out);
        out.push(node.value);
        traverse(&node.right, out);
    }
}

/// A binary search tree of integers. It is not balanced, and it keeps equal
/// values apart: a value may be in the tree several times.
pub struct BinarySearchTree {
    root: Option<Box<Node<i32>>>,
}

impl View for BinarySearchTree {
    type V = Multiset<i32>;

    /// The values in the tree, each as often as it has been inserted and not
    /// deleted again.
    closed spec fn view(&self) -> Multiset<i32> {
        bag(self.root)
    }
}

impl BinarySearchTree {
    /// The search-tree invariant holds at every node.
    pub closed spec fn wf(&self) -> bool {
        ordered(self.root)
    }

    /// The shape of the tree: which value stands where.
    pub closed spec fn shape(&self) -> Shape {
        shape_of(self.root)
    }

    /// The values of the tree are those that stand in its shape.
    pub proof fn lemma_view_of_shape(&self)
        ensures
            self@ == values(self.shape()),
    {
        lemma_bag_is_values(self.root);
    }

    /// An empty tree.
    pub fn new() -> (tree: Self)
        ensures
            tree@ == Multiset::<i32>::empty(),
            tree.shape() == Shape::Empty,
            tree.wf(),
    {
        BinarySearchTree { root: None }
    }

    /// Whether the tree holds no value.
    pub fn is_empty(&self) -> (empty: bool)
        ensures
            empty == (self@.len() == 0),
            empty == (self.shape() is Empty),
    {
        broadcast use vstd::multiset::group_multiset_axioms;

        proof {
            if self.root is Some {
                assert(self@.contains(self.root->0.value));
            }
        }
        self.root.is_none()
    }

    /// Whether `value` is in the tree.
    pub fn search(&self, value: i32) -> (found: bool)
        requires
            self.wf(),
        ensures
            found == self@.contains(value),
    {
        broadcast use vstd::multiset::group_multiset_axioms;

        let mut current = &self.root;
        loop
            invariant
                ordered(*current),
                self@.contains(value) == bag(*current).contains(value),
            decreases *current,
        {
            match current {
                None => {
                    return false;
                },
                Some(node) => {
                    if node.value == value {
                        return true;
                    } else if node.value < value {
                        assert(!bag(node.left).contains(value));
                        current = &node.right;
                    } else {
                        assert(!bag(node.right).contains(value));
                        current = &node.left;
                    }
                },
            }
        }
    }

    /// Removes one occurrence of `value`; `false`, and nothing changes, where
    /// there is none.
    pub fn delete(&mut self, value: i32) -> (found: bool)
        requires
            old(self).wf(),
        ensures
            final(self).wf(),
            found == old(self)@.contains(value),
            found ==> final(self)@ == old(self)@.remove(value),
            !found ==> final(self)@ == old(self)@,
            final(self).shape() == pruned(old(self).shape(), value),
            !found ==> final(self).shape() == old(self).shape(),
    {
        broadcast use vstd::multiset::group_multiset_axioms;

        let (new_root, found) = delete_node(self.root.take(), value);
        self.root = new_root;
        proof {
            lemma_bag_is_values(old(self).root);
            if !found {
                lemma_pruned_of_absent(shape_of(old(self).root), value);
            }
            if !found {
                assert(old(self)@.remove(value) =~= old(self)@);
            }
        }
        found
    }

    /// The values in ascending order.
    pub fn in_order_traversal(&self) -> (values: Vec<i32>)
        ensures
            values@.to_multiset() == self@,
            self.wf() ==> ascending(values@),
    {
        let mut values = Vec::new();
        traverse(&self.root, &mut values);
        proof {
            assert(values@ =~= in_order(self.root));
            lemma_in_order_holds_bag(self.root);
            if self.wf() {
                lemma_in_order_ascends(self.root);
            }
        }
        values
    }

    /// Empties the tree, releasing its nodes one at a time from a worklist of
    /// subtrees, so that a tree of any shape is taken apart without nested
    /// calls.
    pub fn clear(&mut self)
        ensures
            final(self)@ == Multiset::<i32>::empty(),
            final(self).shape() == Shape::Empty,
            final(self).wf(),
    {
        let mut stack: Vec<Box<Node<i32>>> = Vec::new();
        if let Some(root) = self.root.take() {
            stack.push(root);
        }
        loop
            invariant
                self.root is None,
            decreases pending(stack@),
        {
            let ghost before = stack@;
            match stack.pop() {
                None => {
                    break;
                },
                Some(mut node) => {
                    assert(before.drop_last() =~= stack@);
                    let ghost rest = stack@;
                    let ghost whole = size(Some(node));
                    let ghost to_left = node.left;
                    let ghost to_right = node.right;
                    assert(whole == 1 + size(to_left) + size(to_right));
                    assert(pending(before) == pending(rest) + whole);
                    if let Some(right) = node.right.take() {
                        stack.push(right);
                        assert(stack@.drop_last() =~= rest);
                    }
                    let ghost with_right = stack@;
                    assert(pending(with_right) == pending(rest) + size(to_right));
                    if let Some(left) = node.left.take() {
                        stack.push(left);
                        assert(stack@.drop_last() =~= with_right);
                    }
                    assert(pending(stack@) == pending(with_right) + size(to_left));
                },
            }
        }
    }

    /// Puts `value` into the tree: down from the root, to the left where it
    /// is smaller than the node's value and to the right otherwise, into the
    /// first free place. Equal values are kept, to the right of one another.
    pub fn insert(&mut self, value: i32)
        requires
            old(self).wf(),
        ensures
            final(self).wf(),
            final(self)@ == old(self)@.insert(value),
            final(self).shape() == grown(old(self).shape(), value),
    {
        broadcast use vstd::multiset::group_multiset_axioms;

        let mut root = self.root.take();
        let ghost mut path: Seq<Step> = Seq::empty();
        let ghost mut rest: Multiset<i32> = Multiset::empty();
        let ghost mut lo: int = i32::MIN as int;
        let ghost mut hi: int = i32::MAX + 1;
        let mut cur = &mut root;
        loop
            invariant_except_break
                ordered(*cur),
                within(*cur, lo, hi),
                lo <= value < hi,
                bag(old(self).root) =~= bag(*cur).add(rest),
                ordered(*final(cur)) && within(*final(cur), lo, hi) ==> ordered(after_borrow(root)),
                bag(after_borrow(root)) =~= bag(*final(cur)).add(rest),
                grown(shape_of(old(self).root), value) == plug(path, grown(shape_of(*cur), value)),
                shape_of(after_borrow(root)) == plug(path, shape_of(*final(cur))),
            ensures
                ordered(after_borrow(root)),
                bag(after_borrow(root)) =~= bag(old(self).root).insert(value),
                shape_of(after_borrow(root)) == grown(shape_of(old(self).root), value),
            decreases *cur,
        {
            let ghost here = *cur;
            let ghost here_final = *final(cur);
            let ghost lo0 = lo;
            let ghost hi0 = hi;
            let ghost path0 = path;
            match cur {
                None => {
                    *cur = Some(Box::new(Node::new(value)));
                    proof {
                        assert(bag(*cur) =~= Multiset::<i32>::empty().insert(value));
                        assert(bag(here) =~= Multiset::<i32>::empty());
                    }
                    break;
                },
                Some(node) => {
                    let ghost left = node.left;
                    let ghost right = node.right;
                    let ghost pivot = node.value;
                    proof {
                        assert(bag(here) =~= bag(left).add(bag(right)).insert(pivot));
                        assert(bag(here).contains(pivot));
                    }
                    if value < node.value {
                        proof {
                            rest = rest.add(bag(right)).insert(pivot);
                            hi = pivot as int;
                            path = path.push(
                                Step { leftward: true, value: pivot, other: shape_of(right) },
                            );
                            assert(path.drop_last() =~= path0);
                        }
                        cur = &mut node.left;
                        proof {
                            let below = *final(cur);
                            assert(shape_of(here_final) == around(path.last(), shape_of(below)));
                            assert(grown(shape_of(here), value) == around(
                                path.last(),
                                grown(shape_of(left), value),
                            ));
                            assert(bag(here_final) =~= bag(below).add(bag(right)).insert(pivot));
                            assert forall|x: i32| bag(left).contains(x) implies lo <= x < hi by {
                                assert(bag(here).contains(x));
                            }
                            assert(ordered(below) && within(below, lo, hi) ==> ordered(here_final)
                                && within(here_final, lo0, hi0)) by {
                                assert forall|x: i32|
                                    within(below, lo, hi) && bag(here_final).contains(
                                        x,
                                    ) implies lo0 <= x < hi0 by {
                                    if !bag(below).contains(x) && x != pivot {
                                        assert(bag(right).contains(x));
                                        assert(bag(here).contains(x));
                                    }
                                }
                            }
                        }
                    } else {
                        proof {
                            rest = rest.add(bag(left)).insert(pivot);
                            lo = pivot as int;
                            path = path.push(
                                Step { leftward: false, value: pivot, other: shape_of(left) },
                            );
                            assert(path.drop_last() =~= path0);
                        }
                        cur = &mut node.right;
                        proof {
                            let below = *final(cur);
                            assert(shape_of(here_final) == around(path.last(), shape_of(below)));
                            assert(grown(shape_of(here), value) == around(
                                path.last(),
                                grown(shape_of(right), value),
                            ));
                            assert(bag(here_final) =~= bag(left).add(bag(below)).insert(pivot));
                            assert forall|x: i32| bag(right).contains(x) implies lo <= x < hi by {
                                assert(bag(here).contains(x));
                            }
                            assert(ordered(below) && within(below, lo, hi) ==> ordered(here_final)
                                && within(here_final, lo0, hi0)) by {
                                assert forall|x: i32|
                                    within(below, lo, hi) && bag(here_final).contains(
                                        x,
                                    ) implies lo0 <= x < hi0 by {
                                    if !bag(below).contains(x) && x != pivot {
                                        assert(bag(left).contains(x));
                                        assert(bag(here).contains(x));
                                    }
                                }
                            }
                        }
                    }
                },
            }
        }
        self.root = root;
    }
}

/// The number of nodes in the subtrees of a worklist.
spec fn pending(work: Seq<Box<Node<i32>>>) -> nat
    decreases work.len(),
{
    if work.len() == 0 {
        0
    } else {
        pending(work.drop_last()) + size(Some(work.last()))
    }
}

/// What is left of a tree's values once the values of `deleted` have been
/// deleted from it, one after the other.
pub open spec fn without(tree: Multiset<i32>, deleted: Seq<i32>) -> Multiset<i32>
    decreases deleted.len(),
{
    if deleted.len() == 0 {
        tree
    } else {
        without(tree.remove(deleted[0]), deleted.skip(1))
    }
}

/// After an insertion the inserted value is found, and any other value is
/// found if and only if it was found before.
pub proof fn lemma_search_after_insert(tree: Multiset<i32>, inserted: i32, sought: i32)
    ensures
        tree.insert(inserted).contains(sought) == (sought == inserted || tree.contains(sought)),
{
    broadcast use vstd::multiset::group_multiset_axioms;

}

/// A deletion does not change whether any other value is found, and the
/// deleted value is still found only if the tree held it more than once.
pub proof fn lemma_search_after_delete(tree: Multiset<i32>, deleted: i32, sought: i32)
    ensures
        sought != deleted ==> tree.remove(deleted).contains(sought) == tree.contains(sought),
        tree.remove(deleted).contains(deleted) == (tree.count(deleted) >= 2),
{
    broadcast use vstd::multiset::group_multiset_axioms;

}

/// Deleting every value that a tree holds, in any order, leaves it empty.
pub proof fn lemma_deleting_everything_empties(values: Seq<i32>)
    ensures
        without(values.to_multiset(), values) == Multiset::<i32>::empty(),
    decreases values.len(),
{
    broadcast use vstd::multiset::group_multiset_axioms;
    broadcast use vstd::seq_lib::group_to_multiset_ensures;

    if values.len() == 0 {
        assert(values.to_multiset() =~= Multiset::<i32>::empty());
    } else {
        let rest = values.skip(1);
        lemma_deleting_everything_empties(rest);
        assert(values.remove(0) =~= rest);
        assert(values.to_multiset().remove(values[0]) == rest.to_multiset());
    }
}

/// The number of nodes of a subtree.
spec fn size(tree: Option<Box<Node<i32>>>) -> nat
    decreases tree,
{
    match tree {
        None => 0,
        Some(node) => 1 + size(node.left) + size(node.right),
    }
}

/// The number of nodes to the left of the root.
spec fn left_size(tree: Option<Box<Node<i32>>>) -> nat {
    match tree {
        None => 0,
        Some(node) => size(node.left),
    }
}

impl Drop for BinarySearchTree {
    /// Releases the nodes one at a time, whatever the shape of the tree: the
    /// root is rotated to the right until it has no left child, and is then
    /// released by itself. A destructor must not unwind, which growing a
    /// worklist might; this way needs no memory of its own.
    fn drop(&mut self)
        ensures
            final(self)@ == Multiset::<i32>::empty(),
        opens_invariants none
        no_unwind
    {
        let mut rest = None;
        core::mem::swap(&mut rest, &mut self.root);
        loop
            decreases size(rest), left_size(rest),
        {
            match rest {
                None => {
                    break;
                },
                Some(mut node) => {
                    let ghost before = Some(node);
                    let mut left = None;
                    core::mem::swap(&mut left, &mut node.left);
                    match left {
                        Some(mut left) => {
                            let ghost left_before = Some(left);
                            let mut inner = None;
                            core::mem::swap(&mut inner, &mut left.right);
                            node.left = inner;
                            proof {
                                assert(size(before) == 1 + size(left_before) + size(node.right));
                                assert(size(left_before) == 1 + size(left.left) + size(inner));
                                assert(size(Some(node)) == 1 + size(inner) + size(node.right));
                            }
                            left.right = Some(node);
                            rest = Some(left);
                            proof {
                                assert(size(rest) == size(before));
                                assert(left_size(rest) < left_size(before));
                            }
                        },
                        None => {
                            let mut right = None;
                            core::mem::swap(&mut right, &mut node.right);
                            rest = right;
                            proof {
                                assert(size(rest) < size(before));
                            }
                        },
                    }
                },
            }
        }
    }
}

} // verus!
