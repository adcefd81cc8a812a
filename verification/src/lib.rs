//! Foundational container structures with verified memory accounting: a
//! growable contiguous array with an explicit size/capacity split and
//! doubling growth, and a doubly linked list of individually stored nodes
//! with bidirectional links. Each operation carries a contract over the
//! container's view, a mathematical sequence of its live elements.

pub mod array;
pub mod linkedlist;
pub mod text;
