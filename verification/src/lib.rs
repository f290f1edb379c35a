//! Classic containers with machine-checked contracts: a singly linked list,
//! a stack, a sentinel-bounded deque, a binary min/max heap and a binary
//! search tree. Beside them stand the rules of a few small exercises and
//! games; their dialogue with the user is somebody else's business.

pub mod dsa;
pub mod exercises;
pub mod games;
