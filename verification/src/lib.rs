//! Lazy depth-first and breadth-first walks over adjacency maps, bounded
//! generators, and sealed marker traits.
//!
//! - [`graph`] holds the adjacency map and the traversal iterator.
//! - [`cursor`] is the mathematical model of a traversal: its state, one
//!   pull, and the whole order.
//! - [`reach`] proves what a traversal yields: every node that the root
//!   reaches, each once, the root first.
//! - [`repeat`] holds generators that call a factory on the positions from
//!   one up to a length.
//! - [`restricted`] holds traits that other crates can use but not freely
//!   implement.

pub mod cursor;
pub mod graph;
pub mod reach;
pub mod repeat;
pub mod restricted;
