//! A singly linked list whose behaviour is stated over a sequence model.

pub mod singly;

pub use singly::SinglyLinkedList;
