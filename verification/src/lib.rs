//! Lorenz: a small language whose values are probability clouds.
//!
//! This crate holds the verified front end and bytecode machinery: the lexer,
//! the recursive-descent parser, the bytecode compiler, the system state of
//! named variables and covariances, and the decision part of the stack
//! machine that runs the bytecode.  `laws`, `stack` and `spacing` state and
//! prove what holds across them: the machine reads back what the compiler
//! writes, parsed programs never run the stack dry, and whitespace only
//! separates tokens.

pub mod text;
pub mod lexer;
pub mod ast;
pub mod parser;
pub mod messages;
pub mod compiler;
pub mod state;
pub mod eval;
pub mod vm;
pub mod laws;
pub mod stack;
pub mod spacing;
pub mod determinism;
pub mod properties;
