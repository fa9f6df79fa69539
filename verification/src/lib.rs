//! A cache with a budget in bytes that evicts the least recently used entries,
//! and the linked list that holds its entries in the order of their last use.
//!
//! What a cache holds is described in `model`, as a sequence of entries with
//! the operations on it and the laws that follow; `lru` and `linked_list` hold
//! the data structures and prove that they behave as that sequence.

pub mod linked_list;
pub mod lru;
pub mod model;

pub use linked_list::{LinkedList, LinkedListNode};
pub use lru::LRUCache;
