//! Unary operators of the language.

use vstd::prelude::*;

use crate::errors::DecodeError;

verus! {

/// A unary operator, one wire byte after the `U` indicator.
#[derive(Clone, Copy, Debug, PartialEq, Eq, Structural)]
pub enum UnaryOp {
    /// `-`: integer negation.
    Neg,
    /// `!`: boolean negation.
    Not,
    /// `#`: read a string as a base-94 numeral through the alphabet.
    ToInt,
    /// `$`: write an integer as a base-94 numeral through the alphabet.
    ToString,
}

/// The wire byte of a unary operator.
pub open spec fn unary_byte(op: UnaryOp) -> u8 {
    match op {
        UnaryOp::Neg => 45,  // '-'
        UnaryOp::Not => 33,  // '!'
        UnaryOp::ToInt => 35,  // '#'
        UnaryOp::ToString => 36,  // '$'
    }
}

/// The unary operator a wire byte names, if any.
pub open spec fn unary_of_byte(b: u8) -> Option<UnaryOp> {
    if b == 45 {
        Some(UnaryOp::Neg)
    } else if b == 33 {
        Some(UnaryOp::Not)
    } else if b == 35 {
        Some(UnaryOp::ToInt)
    } else if b == 36 {
        Some(UnaryOp::ToString)
    } else {
        None
    }
}

/// The two unary lookup directions are mutually inverse.
pub proof fn lemma_unary_byte_inverse(op: UnaryOp, b: u8)
    ensures
        unary_of_byte(unary_byte(op)) == Some(op),
        unary_of_byte(b) matches Some(op2) ==> unary_byte(op2) == b,
{
}

/// Decodes the operator byte that follows a `U` indicator.  As in the wire
/// grammar, only the first body byte is read.
pub fn decode(body: &[u8]) -> (r: Result<UnaryOp, DecodeError>)
    ensures
        match r {
            Ok(op) => body@.len() >= 1 && unary_of_byte(body@[0]) == Some(op),
            Err(DecodeError::MissingBody) => body@.len() == 0,
            Err(DecodeError::OutOfAlphabet(c)) => body@.len() >= 1 && unary_of_byte(body@[0])
                is None && c == body@[0] as char,
            Err(_) => false,
        },
{
    if body.len() == 0 {
        return Err(DecodeError::MissingBody);
    }
    let b = body[0];
    if b == 45 {
        Ok(UnaryOp::Neg)
    } else if b == 33 {
        Ok(UnaryOp::Not)
    } else if b == 35 {
        Ok(UnaryOp::ToInt)
    } else if b == 36 {
        Ok(UnaryOp::ToString)
    } else {
        Err(DecodeError::OutOfAlphabet(b as char))
    }
}

/// The wire byte of a unary operator, as executable code.
pub fn encode_byte(op: &UnaryOp) -> (r: u8)
    ensures
        r == unary_byte(*op),
{
    match op {
        UnaryOp::Neg => 45,
        UnaryOp::Not => 33,
        UnaryOp::ToInt => 35,
        UnaryOp::ToString => 36,
    }
}

} // verus!
