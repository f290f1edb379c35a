//! The containers. Each one is self-contained; `order` holds what the ordered
//! ones assume of an element type.

pub mod deque;
pub mod heap;
pub mod linked_list;
pub mod order;
pub mod stack;
pub mod tree;
