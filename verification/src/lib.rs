//! Circular doubly-linked lists.
//!
//! The nodes of a list live in the numbered slots of an arena that the list
//! owns, and name their neighbours by slot, so that the cycle of links is no
//! cycle of ownership. The list comes in two kinds with the same operations:
//! `NodeA` with plain handles, and `NodeB` with stamped handles and an
//! explicit teardown.

pub mod cycle;
pub mod laws;
pub mod node_a;
pub mod node_b;

pub use node_a::{HandleA, ListA, NodeA};
pub use node_b::{HandleB, ListB, NodeB};
