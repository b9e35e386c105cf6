//! Memory-layout primitives for a column/index storage engine: a
//! doubly-linked sequence with a mutating cursor and stable value
//! references, and a first-fit free-space tracker built on top of it.

pub mod builder;
pub mod free_list;
pub mod linked_list;
