//! A Brainfuck compiler that turns source text into x86-64 machine code.
//!
//! The pipeline filters the source down to the eight-symbol alphabet,
//! collapses runs of identical symbols, builds a bracket-matched instruction
//! sequence, and emits native code with a two-pass jump-patching scheme.
//! Executing the generated code (an operating-system capability) is left to
//! the embedding program.

pub mod brainfuck;
pub mod codegen;
pub mod runlength;
