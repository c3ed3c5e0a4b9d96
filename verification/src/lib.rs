//! Linked-list abstractions: a persistent singly linked list with structural
//! sharing, and a mutable circular doubly linked list with deque operations.

pub mod list;
