//! A small dynamically typed scripting language: source text is scanned,
//! compiled in one pass to bytecode and executed by a bounded stack machine.
//! Tensors are first-class values with reverse-mode differentiation.
//!
//! Numbers are IEEE 754 binary64 values, held as their 64-bit patterns.
//! The library computes on the patterns: literal conversion, comparison,
//! sum, difference, product and quotient are exact to the last bit. Only
//! for a power does the machine turn to its host, by suspending.
pub mod number;
pub mod decimal;
pub mod literal;
pub mod arithmetic;
pub mod value;
pub mod interner;
pub mod scanner;
pub mod chunk;
pub mod compiler;
pub mod tensor;
pub mod vm;
