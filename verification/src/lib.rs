//! Synthesis of arithmetic circuits from programs of a circuit description
//! language: an interpreter that evaluates what is known at compile time and
//! turns everything else into signals, gates and connections.

pub mod ast;
pub mod circuit;
pub mod laws;
pub mod names;
pub mod number;
pub mod process;
pub mod program;
pub mod runtime;
pub mod semantics;
