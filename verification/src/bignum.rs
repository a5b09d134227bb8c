//! Trusted surface over `num_bigint::BigInt`.
//!
//! The language manipulates arbitrary-precision integers, which this crate
//! takes from the `num_bigint` crate.  The value a `BigInt` holds is named by
//! the uninterpreted function [`big_value`]; every wrapper below states what
//! the wrapped `num_bigint` operation does to that value, and all verified
//! arithmetic in the crate is carried out through these wrappers.

use vstd::prelude::*;

verus! {

#[verifier::external_type_specification]
#[verifier::external_body]
pub struct ExBigInt(num_bigint::BigInt);

/// The mathematical integer a `BigInt` holds.
pub uninterp spec fn big_value(b: num_bigint::BigInt) -> int;

/// Truncating division (rounds toward zero), the convention of Rust's `/` on
/// primitive integers and of `num_bigint`'s `Div`.
pub open spec fn trunc_div(a: int, b: int) -> int {
    if a >= 0 {
        if b >= 0 {
            a / b
        } else {
            -(a / -b)
        }
    } else {
        if b >= 0 {
            -(-a / b)
        } else {
            -a / -b
        }
    }
}

/// Remainder matching truncating division, the convention of Rust's `%` on
/// primitive integers and of `num_bigint`'s `Rem`.
pub open spec fn trunc_rem(a: int, b: int) -> int {
    a - b * trunc_div(a, b)
}

/// Relies on `num_bigint::BigInt::from::<u64>`: the constructed value.
#[verifier::external_body]
pub fn big_from_u64(v: u64) -> (r: num_bigint::BigInt)
    ensures
        big_value(r) == v as int,
{
    num_bigint::BigInt::from(v)
}

/// Relies on `num_bigint::BigInt::from::<usize>`: the constructed value.
#[verifier::external_body]
pub fn big_from_usize(v: usize) -> (r: num_bigint::BigInt)
    ensures
        big_value(r) == v as int,
{
    num_bigint::BigInt::from(v)
}

/// Relies on `<BigInt as Clone>::clone`: the copy holds the same value.
#[verifier::external_body]
pub fn big_clone(a: &num_bigint::BigInt) -> (r: num_bigint::BigInt)
    ensures
        big_value(r) == big_value(*a),
{
    a.clone()
}

/// Relies on `<BigInt as PartialEq>::eq`: equality of the held values.
#[verifier::external_body]
pub fn big_eq(a: &num_bigint::BigInt, b: &num_bigint::BigInt) -> (r: bool)
    ensures
        r == (big_value(*a) == big_value(*b)),
{
    a == b
}

/// Relies on `<BigInt as PartialOrd>::lt`: order of the held values.
#[verifier::external_body]
pub fn big_lt(a: &num_bigint::BigInt, b: &num_bigint::BigInt) -> (r: bool)
    ensures
        r == (big_value(*a) < big_value(*b)),
{
    a < b
}

/// Relies on `<&BigInt as Add>::add`: the sum of the held values.
#[verifier::external_body]
pub fn big_add(a: &num_bigint::BigInt, b: &num_bigint::BigInt) -> (r: num_bigint::BigInt)
    ensures
        big_value(r) == big_value(*a) + big_value(*b),
{
    a + b
}

/// Relies on `<&BigInt as Sub>::sub`: the difference of the held values.
#[verifier::external_body]
pub fn big_sub(a: &num_bigint::BigInt, b: &num_bigint::BigInt) -> (r: num_bigint::BigInt)
    ensures
        big_value(r) == big_value(*a) - big_value(*b),
{
    a - b
}

/// Relies on `<&BigInt as Mul>::mul`: the product of the held values.
#[verifier::external_body]
pub fn big_mul(a: &num_bigint::BigInt, b: &num_bigint::BigInt) -> (r: num_bigint::BigInt)
    ensures
        big_value(r) == big_value(*a) * big_value(*b),
{
    a * b
}

/// Relies on `<&BigInt as Div>::div`, which truncates toward zero and panics
/// on a zero divisor (hence the precondition).
#[verifier::external_body]
pub fn big_div(a: &num_bigint::BigInt, b: &num_bigint::BigInt) -> (r: num_bigint::BigInt)
    requires
        big_value(*b) != 0,
    ensures
        big_value(r) == trunc_div(big_value(*a), big_value(*b)),
{
    a / b
}

/// Relies on `<&BigInt as Rem>::rem`, which matches truncating division and
/// panics on a zero divisor (hence the precondition).
#[verifier::external_body]
pub fn big_rem(a: &num_bigint::BigInt, b: &num_bigint::BigInt) -> (r: num_bigint::BigInt)
    requires
        big_value(*b) != 0,
    ensures
        big_value(r) == trunc_rem(big_value(*a), big_value(*b)),
{
    a % b
}

/// Relies on `<&BigInt as Neg>::neg`: the negated value.
#[verifier::external_body]
pub fn big_neg(a: &num_bigint::BigInt) -> (r: num_bigint::BigInt)
    ensures
        big_value(r) == -big_value(*a),
{
    -a
}

/// Relies on `u8::try_from::<&BigInt>`, which succeeds exactly on values in
/// `0..=255`.  Used to extract one base-94 digit at a time.
#[verifier::external_body]
pub fn big_to_u8(a: &num_bigint::BigInt) -> (r: Option<u8>)
    ensures
        match r {
            Some(v) => big_value(*a) == v as int,
            None => big_value(*a) < 0 || big_value(*a) > 255,
        },
{
    u8::try_from(a).ok()
}

/// Relies on `usize::try_from::<&BigInt>`, which succeeds exactly on values
/// representable as a platform index.
#[verifier::external_body]
pub fn big_to_usize(a: &num_bigint::BigInt) -> (r: Option<usize>)
    ensures
        match r {
            Some(v) => big_value(*a) == v as int,
            None => big_value(*a) < 0 || big_value(*a) > usize::MAX as int,
        },
{
    usize::try_from(a).ok()
}

/// The decimal digits of a non-negative integer, most significant first,
/// with no leading zero and zero spelled `"0"`.
pub open spec fn dec_digits(n: nat) -> Seq<char>
    decreases n,
{
    if n < 10 {
        seq![((48 + n) as u8) as char]
    } else {
        proof {
            vstd::arithmetic::div_mod::lemma_div_decreases(n as int, 10);
        }
        dec_digits(n / 10) + seq![((48 + n % 10) as u8) as char]
    }
}

/// The decimal rendering of an integer: a minus sign for a negative value,
/// then its digits.
pub open spec fn decimal_of(n: int) -> Seq<char> {
    if n < 0 {
        seq!['-'] + dec_digits((-n) as nat)
    } else {
        dec_digits(n as nat)
    }
}

/// Relies on `<BigInt as ToString>::to_string` (via `Display`): sign and
/// base-10 digits without leading zeros, exactly [`decimal_of`] of the held
/// value.
#[verifier::external_body]
pub fn big_to_decimal(a: &num_bigint::BigInt) -> (r: String)
    ensures
        r@ == decimal_of(big_value(*a)),
{
    a.to_string()
}

} // verus!
