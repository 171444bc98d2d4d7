//! A small structured language for multi-tape Turing machines.
//!
//! An abstract syntax tree for machine definitions with structured control
//! flow (`ast`), a recursive-descent parser for the surface syntax
//! (`parser`), a lowering pass that flattens the structured statements into a
//! numbered transition table (`lower`), a validated runtime machine model
//! (`tm`) with a step-by-step execution engine (`executor`), and a bridge
//! that turns a lowered table into a runnable machine (`bridge`).

pub mod ast;
pub mod bridge;
pub mod executor;
pub mod lower;
pub mod parser;
pub mod tm;
