//! Binary operators of the language.

use vstd::prelude::*;

use crate::errors::DecodeError;

verus! {

/// A binary operator, one wire byte after the `B` indicator.
#[derive(Clone, Copy, Debug, PartialEq, Eq, Structural)]
pub enum BinaryOp {
    /// `+`: integer addition.
    Add,
    /// `-`: integer subtraction.
    Sub,
    /// `*`: integer multiplication.
    Mul,
    /// `/`: integer division, truncated toward zero.
    Div,
    /// `%`: integer remainder, matching the truncated division.
    Mod,
    /// `<`: integer comparison.
    Less,
    /// `>`: integer comparison.
    Greater,
    /// `=`: structural equality of values.
    Equal,
    /// `|`: boolean disjunction; both operands are forced.
    Or,
    /// `&`: boolean conjunction; both operands are forced.
    And,
    /// `.`: string concatenation.
    Concat,
    /// `T`: the first `n` characters of a string.
    Take,
    /// `D`: all but the first `n` characters of a string.
    Drop,
    /// `$`: apply a closure to an argument, call-by-name.
    Apply,
}

/// The wire byte of a binary operator.
pub open spec fn binary_byte(op: BinaryOp) -> u8 {
    match op {
        BinaryOp::Add => 43,  // '+'
        BinaryOp::Sub => 45,  // '-'
        BinaryOp::Mul => 42,  // '*'
        BinaryOp::Div => 47,  // '/'
        BinaryOp::Mod => 37,  // '%'
        BinaryOp::Less => 60,  // '<'
        BinaryOp::Greater => 62,  // '>'
        BinaryOp::Equal => 61,  // '='
        BinaryOp::Or => 124,  // '|'
        BinaryOp::And => 38,  // '&'
        BinaryOp::Concat => 46,  // '.'
        BinaryOp::Take => 84,  // 'T'
        BinaryOp::Drop => 68,  // 'D'
        BinaryOp::Apply => 36,  // '$'
    }
}

/// The binary operator a wire byte names, if any.
pub open spec fn binary_of_byte(b: u8) -> Option<BinaryOp> {
    if b == 43 {
        Some(BinaryOp::Add)
    } else if b == 45 {
        Some(BinaryOp::Sub)
    } else if b == 42 {
        Some(BinaryOp::Mul)
    } else if b == 47 {
        Some(BinaryOp::Div)
    } else if b == 37 {
        Some(BinaryOp::Mod)
    } else if b == 60 {
        Some(BinaryOp::Less)
    } else if b == 62 {
        Some(BinaryOp::Greater)
    } else if b == 61 {
        Some(BinaryOp::Equal)
    } else if b == 124 {
        Some(BinaryOp::Or)
    } else if b == 38 {
        Some(BinaryOp::And)
    } else if b == 46 {
        Some(BinaryOp::Concat)
    } else if b == 84 {
        Some(BinaryOp::Take)
    } else if b == 68 {
        Some(BinaryOp::Drop)
    } else if b == 36 {
        Some(BinaryOp::Apply)
    } else {
        None
    }
}

/// The two binary lookup directions are mutually inverse.
pub proof fn lemma_binary_byte_inverse(op: BinaryOp, b: u8)
    ensures
        binary_of_byte(binary_byte(op)) == Some(op),
        binary_of_byte(b) matches Some(op2) ==> binary_byte(op2) == b,
{
}

/// Decodes the operator byte that follows a `B` indicator.  As in the wire
/// grammar, only the first body byte is read.
pub fn decode(body: &[u8]) -> (r: Result<BinaryOp, DecodeError>)
    ensures
        match r {
            Ok(op) => body@.len() >= 1 && binary_of_byte(body@[0]) == Some(op),
            Err(DecodeError::MissingBody) => body@.len() == 0,
            Err(DecodeError::OutOfAlphabet(c)) => body@.len() >= 1 && binary_of_byte(body@[0])
                is None && c == body@[0] as char,
            Err(_) => false,
        },
{
    if body.len() == 0 {
        return Err(DecodeError::MissingBody);
    }
    let b = body[0];
    if b == 43 {
        Ok(BinaryOp::Add)
    } else if b == 45 {
        Ok(BinaryOp::Sub)
    } else if b == 42 {
        Ok(BinaryOp::Mul)
    } else if b == 47 {
        Ok(BinaryOp::Div)
    } else if b == 37 {
        Ok(BinaryOp::Mod)
    } else if b == 60 {
        Ok(BinaryOp::Less)
    } else if b == 62 {
        Ok(BinaryOp::Greater)
    } else if b == 61 {
        Ok(BinaryOp::Equal)
    } else if b == 124 {
        Ok(BinaryOp::Or)
    } else if b == 38 {
        Ok(BinaryOp::And)
    } else if b == 46 {
        Ok(BinaryOp::Concat)
    } else if b == 84 {
        Ok(BinaryOp::Take)
    } else if b == 68 {
        Ok(BinaryOp::Drop)
    } else if b == 36 {
        Ok(BinaryOp::Apply)
    } else {
        Err(DecodeError::OutOfAlphabet(b as char))
    }
}

/// The wire byte of a binary operator, as executable code.
pub fn encode_byte(op: &BinaryOp) -> (r: u8)
    ensures
        r == binary_byte(*op),
{
    match op {
        BinaryOp::Add => 43,
        BinaryOp::Sub => 45,
        BinaryOp::Mul => 42,
        BinaryOp::Div => 47,
        BinaryOp::Mod => 37,
        BinaryOp::Less => 60,
        BinaryOp::Greater => 62,
        BinaryOp::Equal => 61,
        BinaryOp::Or => 124,
        BinaryOp::And => 38,
        BinaryOp::Concat => 46,
        BinaryOp::Take => 84,
        BinaryOp::Drop => 68,
        BinaryOp::Apply => 36,
    }
}

} // verus!
