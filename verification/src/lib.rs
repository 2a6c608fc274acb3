//! Container and algorithm primitives built around a forward-linked list.
//!
//! The central type is [`singly::SinglyLinkedList`], a chain of exclusively
//! owned cells reachable only forward, together with read-only, mutable and
//! consuming cursors over the chain.  [`sort`] holds four elementary
//! in-place sort routines.

pub mod render;
pub mod singly;
pub mod sort;

pub use singly::SinglyLinkedList;
