//! Error taxonomy of the library.
//!
//! Every error is fatal to the operation that raised it: nothing in the
//! library catches one of these for control flow.

use vstd::prelude::*;

verus! {

/// The tag of a runtime value, carried in diagnostics.
#[derive(Clone, Copy, Debug, PartialEq, Eq, Structural)]
pub enum ValueTag {
    Boolean,
    Integer,
    String,
    Closure,
}

/// Malformed wire bytes or a malformed token.
#[derive(Clone, Copy, Debug, PartialEq, Eq, Structural)]
pub enum DecodeError {
    /// A token with no bytes at all.
    EmptyToken,
    /// A byte after an indicator that takes no body (`T`, `F`).
    UnexpectedBody,
    /// A missing operator byte after `U` or `B`.
    MissingBody,
    /// The first offending character: a byte outside `'!'..='~'`, a
    /// character outside the 94-entry string alphabet, or an operator byte
    /// that names no operator.
    OutOfAlphabet(char),
    /// An unrecognized indicator byte, carried verbatim.
    UnknownToken(u8),
    /// An integer that cannot be encoded because it is negative.
    NegativeInteger,
}

/// A violation of the stack discipline while building an expression tree
/// from a token sequence.
#[derive(Clone, Copy, Debug, PartialEq, Eq, Structural)]
pub enum ParseError {
    /// An operator or `If` token found fewer operands than it consumes.
    MissingOperand,
    /// A lambda token found no body expression.
    MissingBody,
    /// After all tokens, the stack held zero or more than one expression.
    TrailingOrEmptyExpr,
}

/// Any failure on the way from wire text to a final value.
#[derive(Clone, Copy, Debug, PartialEq, Eq, Structural)]
pub enum Error {
    /// Malformed wire bytes.
    Decode(DecodeError),
    /// A malformed token sequence.
    Parse(ParseError),
    /// A failure during evaluation.
    Eval(EvalError),
}

/// A failure during evaluation.  Any one of these aborts the whole
/// evaluation request.
#[derive(Clone, Copy, Debug, PartialEq, Eq, Structural)]
pub enum EvalError {
    /// An operator was applied to a value of the wrong tag: the tag it
    /// expected, then the tag it found on the first offending operand.
    TypeError(ValueTag, ValueTag),
    /// A variable occurred free during evaluation.
    UndefinedVariable,
    /// Division or modulo by zero.
    ArithmeticError,
    /// A negative or unrepresentable count for `Take` or `Drop`.
    RangeError,
    /// A string-to-integer conversion met a character outside the alphabet.
    DecodeError,
    /// The step bound handed to the evaluator ran out before evaluation
    /// finished.
    OutOfFuel,
}

} // verus!
