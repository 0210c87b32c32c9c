//! Tool set for the Brainfuck language: a parser, an optimizing
//! transformer over a basic-block intermediate representation, a lowering
//! to a flat bytecode, and an interpreter for that bytecode.

/// Instruction definitions for the surface language
pub mod ins;
/// Parser for bf instructions
pub mod ins_parser;
/// Optimization passes collection
pub mod optimizer;
/// Interpreter for BF code
pub mod interpreter;
