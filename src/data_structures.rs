//! Sequence containers.
pub mod end_ops;
pub mod linked_list;

pub use linked_list::{IntoIter, Iter, LinkedList};
