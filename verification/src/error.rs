use vstd::prelude::*;

verus! {

/// The ways a calculator program can go wrong. The evaluator stops at the
/// first of these and hands it back to the caller unchanged.
#[derive(Clone, Copy, Debug, PartialEq, Eq, Structural)]
pub enum Error {
    /// An operator needed more operands than the stack held.
    StackUnderflow,
    /// A token was neither an operator word nor a numeric literal that fits
    /// a signed 64-bit value.
    NumberFormatError,
    /// A division word met a zero divisor.
    DivisionByZero,
}

} // verus!
