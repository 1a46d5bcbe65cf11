//! A small stack-based, block-structured language: a streaming block
//! parser and a stack-machine evaluator, each verified against a
//! mathematical model of its behavior.
//!
//! Lines of text become elements through [`parser::Parser`]; a
//! [`virtual_machine::VirtualMachine`] evaluates them with
//! lexically-nested scopes, native operations and control flow. The
//! machine's meaning is the small-step semantics of [`semantics`], and
//! every public operation's contract is stated against it.

pub mod element;
pub mod errors;
pub mod literal;
pub mod parser;
pub mod semantics;
pub mod stack;
pub mod virtual_machine;
