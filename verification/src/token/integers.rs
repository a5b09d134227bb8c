//! Base-94 integer codec.
//!
//! A non-negative integer is written on the wire as a big-endian numeral over
//! the 94 printable bytes `'!'..='~'`, each byte contributing the digit
//! `byte - '!'`.  Zero is written as the single digit `'!'`, never as an
//! empty string.

use vstd::arithmetic::div_mod::{lemma_div_decreases, lemma_fundamental_div_mod};
use vstd::prelude::*;

use crate::ascii::{all_ascii_bytes, chars_of_bytes, string_from_ascii};
use crate::bignum::{
    big_add, big_div, big_from_u64, big_lt, big_mul, big_rem, big_to_u8, big_value, trunc_div,
    trunc_rem,
};
use crate::errors::DecodeError;

verus! {

/// True when `b` is one of the 94 wire digit bytes `'!'..='~'`.
pub open spec fn is_wire_byte(b: u8) -> bool {
    33 <= b <= 126
}

/// True when every byte of `s` is a wire digit byte.
pub open spec fn all_wire_bytes(s: Seq<u8>) -> bool {
    forall|i: int| 0 <= i < s.len() ==> is_wire_byte(#[trigger] s[i])
}

/// The position of the first byte outside the wire digit range;
/// meaningful when some byte is outside it.
pub open spec fn first_non_wire_idx(s: Seq<u8>) -> int
    decreases s.len(),
{
    if s.len() == 0 {
        0
    } else if !is_wire_byte(s[0]) {
        0
    } else {
        1 + first_non_wire_idx(s.skip(1))
    }
}

/// A run of wire bytes ending at a non-wire byte pins the first offender.
pub proof fn lemma_first_non_wire(s: Seq<u8>, i: int)
    requires
        0 <= i < s.len(),
        forall|j: int| 0 <= j < i ==> is_wire_byte(#[trigger] s[j]),
        !is_wire_byte(s[i]),
    ensures
        first_non_wire_idx(s) == i,
    decreases i,
{
    if i > 0 {
        assert(s.skip(1)[i - 1] == s[i]);
        assert(forall|j: int| 0 <= j < i - 1 ==> s.skip(1)[j] == s[j + 1]);
        lemma_first_non_wire(s.skip(1), i - 1);
    }
}

/// The integer denoted by a big-endian base-94 digit string.
pub open spec fn base94_val(s: Seq<u8>) -> int
    decreases s.len(),
{
    if s.len() == 0 {
        0
    } else {
        base94_val(s.drop_last()) * 94 + (s.last() - 33)
    }
}

/// The canonical base-94 digit string of a non-negative integer: no leading
/// zero digit, and zero itself is the one-digit string `"!"`.
pub open spec fn enc94(n: nat) -> Seq<u8>
    decreases n,
{
    if n < 94 {
        seq![(n + 33) as u8]
    } else {
        proof {
            lemma_div_decreases(n as int, 94);
        }
        enc94(n / 94) + seq![((n % 94) + 33) as u8]
    }
}

/// Appending one digit multiplies the value by 94 and adds the digit.
proof fn lemma_base94_snoc(s: Seq<u8>, d: u8)
    ensures
        base94_val(s + seq![d]) == base94_val(s) * 94 + (d - 33),
{
    let t = s + seq![d];
    assert(t.drop_last() =~= s);
    assert(t.last() == d);
}

/// A digit string over the wire alphabet denotes a non-negative integer.
pub proof fn lemma_base94_nonneg_pub(s: Seq<u8>)
    requires
        all_wire_bytes(s),
    ensures
        base94_val(s) >= 0,
    decreases s.len(),
{
    if s.len() > 0 {
        assert(all_wire_bytes(s.drop_last()));
        lemma_base94_nonneg_pub(s.drop_last());
    }
}

/// A digit string whose leading digit is not zero denotes a positive
/// integer.
proof fn lemma_base94_leading_pos(s: Seq<u8>)
    requires
        all_wire_bytes(s),
        s.len() >= 1,
        s[0] != 33,
    ensures
        base94_val(s) >= 1,
    decreases s.len(),
{
    if s.len() == 1 {
        assert(s.drop_last() =~= Seq::<u8>::empty());
        assert(base94_val(s.drop_last()) == 0);
        assert(base94_val(s) == s[0] - 33);
    } else {
        let init = s.drop_last();
        assert(init[0] == s[0]);
        assert(all_wire_bytes(init));
        lemma_base94_leading_pos(init);
        assert(base94_val(s) == base94_val(init) * 94 + (s.last() - 33));
        assert(base94_val(init) * 94 >= 94) by (nonlinear_arith)
            requires
                base94_val(init) >= 1,
        ;
    }
}

/// A canonical numeral (no leading zero digit, zero spelled `"!"`) is the
/// canonical encoding of the value it denotes.
pub proof fn lemma_enc94_canonical(s: Seq<u8>)
    requires
        all_wire_bytes(s),
        s.len() >= 1,
        s.len() == 1 || s[0] != 33,
    ensures
        base94_val(s) >= 0,
        enc94(base94_val(s) as nat) == s,
    decreases s.len(),
{
    lemma_base94_nonneg_pub(s);
    let v = base94_val(s);
    if s.len() == 1 {
        assert(s.drop_last() =~= Seq::<u8>::empty());
        assert(base94_val(s.drop_last()) == 0);
        assert(v == s[0] - 33);
        assert(enc94(v as nat) =~= seq![((v + 33)) as u8]);
        assert(enc94(v as nat) =~= s);
    } else {
        let init = s.drop_last();
        let d = s.last() - 33;
        assert(init[0] == s[0]);
        assert(all_wire_bytes(init));
        lemma_base94_leading_pos(init);
        lemma_enc94_canonical(init);
        let q = base94_val(init);
        assert(v == q * 94 + d);
        assert(0 <= d < 94);
        vstd::arithmetic::div_mod::lemma_fundamental_div_mod_converse(v, 94, q, d);
        assert(v / 94 == q && v % 94 == d);
        assert(v >= 94) by {
            assert(q >= 1);
            assert(q * 94 >= 94) by (nonlinear_arith)
                requires
                    q >= 1,
            ;
        }
        assert(enc94(v as nat) == enc94((v as nat) / 94) + seq![(((v as nat) % 94) + 33) as u8]);
        assert((v as nat) / 94 == q);
        assert(enc94(v as nat) =~= s);
    }
}

/// The canonical digit string uses only wire bytes and is never empty.
pub proof fn lemma_enc94_wf(n: nat)
    ensures
        all_wire_bytes(enc94(n)),
        enc94(n).len() >= 1,
    decreases n,
{
    if n >= 94 {
        lemma_div_decreases(n as int, 94);
        lemma_enc94_wf(n / 94);
    }
}

/// Integer codec round-trip: decoding the canonical base-94 digit string of
/// any non-negative integer yields that integer back, exactly.
pub proof fn lemma_integer_codec_roundtrip(n: nat)
    ensures
        base94_val(enc94(n)) == n,
    decreases n,
{
    if n < 94 {
        let s = enc94(n);
        assert(s =~= seq![(n + 33) as u8]);
        assert(s.drop_last() =~= Seq::<u8>::empty());
        assert(base94_val(s.drop_last()) == 0);
        assert(s.last() == (n + 33) as u8);
        assert(((n + 33) as u8) as int == n + 33);
        assert(base94_val(s) == 0 * 94 + ((n + 33) - 33));
    } else {
        lemma_div_decreases(n as int, 94);
        lemma_integer_codec_roundtrip(n / 94);
        lemma_base94_snoc(enc94(n / 94), ((n % 94) + 33) as u8);
        lemma_fundamental_div_mod(n as int, 94);
    }
}

/// Decodes a big-endian base-94 digit string.  Fails exactly when some byte
/// lies outside `'!'..='~'`; an empty string decodes to zero.
pub fn decode(s: &[u8]) -> (r: Result<num_bigint::BigInt, DecodeError>)
    ensures
        match r {
            Ok(n) => all_wire_bytes(s@) && big_value(n) == base94_val(s@),
            Err(e) => !all_wire_bytes(s@) && e == DecodeError::OutOfAlphabet(
                s@[first_non_wire_idx(s@)] as char,
            ),
        },
{
    let base = big_from_u64(94);
    let mut ret = big_from_u64(0);
    let len = s.len();
    for i in 0..len
        invariant
            len == s@.len(),
            forall|j: int| 0 <= j < i ==> is_wire_byte(#[trigger] s@[j]),
            big_value(ret) == base94_val(s@.take(i as int)),
            big_value(ret) >= 0,
            big_value(base) == 94,
    {
        let b = s[i];
        if b < 33 || b > 126 {
            proof {
                lemma_first_non_wire(s@, i as int);
            }
            return Err(DecodeError::OutOfAlphabet(b as char));
        }
        let digit = big_from_u64((b - 33) as u64);
        ret = big_add(&big_mul(&ret, &base), &digit);
        proof {
            assert(s@.take(i + 1).drop_last() =~= s@.take(i as int));
            assert(s@.take(i + 1).last() == s@[i as int]);
        }
    }
    proof {
        assert(s@.take(len as int) =~= s@);
    }
    Ok(ret)
}

/// Encodes a non-negative integer as its canonical base-94 digit string.
/// Fails exactly when the value is negative.
pub fn encode(value: num_bigint::BigInt) -> (r: Result<String, DecodeError>)
    ensures
        match r {
            Ok(s) => big_value(value) >= 0 && s@ == chars_of_bytes(
                enc94(big_value(value) as nat),
            ),
            Err(e) => e == DecodeError::NegativeInteger && big_value(value) < 0,
        },
{
    match encode_digits(value) {
        Ok(digits) => Ok(string_from_ascii(digits)),
        Err(e) => Err(e),
    }
}

/// Encodes a non-negative integer as canonical base-94 digit bytes.
/// Fails exactly when the value is negative.
pub(crate) fn encode_digits(value: num_bigint::BigInt) -> (r: Result<Vec<u8>, DecodeError>)
    ensures
        match r {
            Ok(d) => big_value(value) >= 0 && d@ == enc94(big_value(value) as nat)
                && all_ascii_bytes(d@),
            Err(e) => e == DecodeError::NegativeInteger && big_value(value) < 0,
        },
{
    let zero = big_from_u64(0);
    if big_lt(&value, &zero) {
        return Err(DecodeError::NegativeInteger);
    }
    let base = big_from_u64(94);
    let ghost n = big_value(value) as nat;
    let mut v = value;
    let mut acc: Vec<u8> = Vec::new();
    while big_lt(&zero, &v)
        invariant
            big_value(zero) == 0,
            big_value(base) == 94,
            big_value(v) >= 0,
            big_value(v) > 0 ==> enc94(n) == enc94(big_value(v) as nat) + acc@.reverse(),
            big_value(v) == 0 ==> if n == 0 {
                acc@.len() == 0
            } else {
                enc94(n) == acc@.reverse()
            },
            all_wire_bytes(acc@.reverse()),
            n == 0 ==> big_value(v) == 0 && acc@.len() == 0,
        decreases big_value(v),
    {
        let ghost old_v = big_value(v) as nat;
        let q = big_div(&v, &base);
        let rm = big_rem(&v, &base);
        proof {
            lemma_fundamental_div_mod(old_v as int, 94);
            assert(trunc_div(old_v as int, 94) == old_v as int / 94);
            assert(trunc_rem(old_v as int, 94) == old_v as int % 94);
        }
        let d: u8 = match big_to_u8(&rm) {
            Some(d) => d,
            None => {
                proof {
                    assert(false);
                }
                vstd::pervasive::unreached()
            },
        };
        let ghost acc0 = acc@;
        acc.push(d + 33);
        proof {
            assert(acc@.reverse() =~= seq![(d + 33) as u8] + acc0.reverse());
            if old_v < 94 {
                assert(old_v / 94 == 0);
                assert(enc94(old_v) == seq![((d + 33) as u8)]);
            } else {
                assert(enc94(old_v) == enc94(old_v / 94) + seq![((d + 33) as u8)]);
            }
            assert(enc94(old_v) + acc0.reverse() =~= if old_v < 94 {
                acc@.reverse()
            } else {
                enc94(old_v / 94) + acc@.reverse()
            });
        }
        v = q;
    }
    if acc.len() == 0 {
        acc.push(33);
        proof {
            assert(n == 0);
            assert(enc94(0) =~= acc@.reverse());
        }
    }
    let count = acc.len();
    let mut out: Vec<u8> = Vec::new();
    let mut i = count;
    while i > 0
        invariant
            i <= count == acc@.len(),
            out@ =~= acc@.subrange(i as int, count as int).reverse(),
        decreases i,
    {
        i = i - 1;
        out.push(acc[i]);
        proof {
            assert(out@ =~= acc@.subrange(i as int, count as int).reverse());
        }
    }
    proof {
        assert(acc@.subrange(0, count as int) =~= acc@);
        assert(out@ == acc@.reverse());
        assert(enc94(n) == out@);
        assert(all_ascii_bytes(out@)) by {
            lemma_enc94_wf(n);
        }
    }
    Ok(out)
}

} // verus!
