//! A minimal imperative scripting language: a lexer, a recursive-descent
//! parser, a bytecode compiler, and a stack-based virtual machine, with
//! the behaviour of each stage stated and proved.

pub mod compiler;
pub mod lexer;
pub mod parser;
pub mod vm;

pub use vm::{VM, VMError, Opcode};
