//! Core of a symbolic knowledge base: atoms, variable bindings, matching,
//! a term index, the atom space and a stepwise interpreter.

pub mod atom;
pub mod bindings;
pub mod environment;
pub mod index;
pub mod interpreter;
pub mod matcher;
pub mod space;
