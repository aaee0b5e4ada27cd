//! A reverse-Polish-notation calculator core: an operand stack of signed
//! 64-bit integers, binary and fold-all arithmetic operator words, radix-aware
//! numeric literals, and a fail-fast token evaluator.

pub mod error;
pub mod eval;
pub mod lex;
pub mod literal;
pub mod ops;
