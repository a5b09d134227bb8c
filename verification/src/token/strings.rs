//! String codec.
//!
//! A string value is written on the wire through a fixed 94-symbol alphabet:
//! wire byte `'!' + i` stands for the alphabet entry at index `i`.  The
//! alphabet lists the lowercase letters, the uppercase letters, the digits,
//! 30 punctuation characters, the space and the newline, in that order.

use vstd::prelude::*;

use crate::ascii::{chars_of_bytes, string_from_ascii};
use crate::errors::DecodeError;
use crate::token::integers::{all_wire_bytes, is_wire_byte};

verus! {

/// The alphabet entry at index `i` (valid for `0 <= i < 94`), as a byte.
pub open spec fn alpha_byte(i: int) -> u8 {
    if 0 <= i < 26 {
        (97 + i) as u8  // 'a'..='z'
    } else if i < 52 {
        (65 + (i - 26)) as u8  // 'A'..='Z'
    } else if i < 62 {
        (48 + (i - 52)) as u8  // '0'..='9'
    } else if i < 77 {
        (33 + (i - 62)) as u8  // '!'..='/'
    } else if i < 84 {
        (58 + (i - 77)) as u8  // ':'..='@'
    } else if i < 90 {
        (91 + (i - 84)) as u8  // '['..='`'
    } else if i == 90 {
        124  // '|'
    } else if i == 91 {
        126  // '~'
    } else if i == 92 {
        32  // ' '
    } else if i == 93 {
        10  // '\n'
    } else {
        0
    }
}

/// The alphabet index of code point `u`, or `-1` when no alphabet entry has
/// that code point.
pub open spec fn alpha_index(u: u32) -> int {
    if 97 <= u < 123 {
        u - 97
    } else if 65 <= u < 91 {
        26 + (u - 65)
    } else if 48 <= u < 58 {
        52 + (u - 48)
    } else if 33 <= u < 48 {
        62 + (u - 33)
    } else if 58 <= u < 65 {
        77 + (u - 58)
    } else if 91 <= u < 97 {
        84 + (u - 91)
    } else if u == 124 {
        90
    } else if u == 126 {
        91
    } else if u == 32 {
        92
    } else if u == 10 {
        93
    } else {
        -1
    }
}

/// True when the character is one of the 94 alphabet entries.
pub open spec fn in_alphabet(c: char) -> bool {
    alpha_index(c as u32) >= 0
}

/// True when every character of `t` is an alphabet entry.
pub open spec fn all_in_alphabet(t: Seq<char>) -> bool {
    forall|i: int| 0 <= i < t.len() ==> in_alphabet(#[trigger] t[i])
}

/// The position of the first character outside the alphabet; meaningful
/// when some character is outside it.
pub open spec fn first_non_alpha_idx(t: Seq<char>) -> int
    decreases t.len(),
{
    if t.len() == 0 {
        0
    } else if !in_alphabet(t[0]) {
        0
    } else {
        1 + first_non_alpha_idx(t.skip(1))
    }
}

/// A run of alphabet characters ending at an outsider pins the first
/// offender.
pub proof fn lemma_first_non_alpha(t: Seq<char>, i: int)
    requires
        0 <= i < t.len(),
        forall|j: int| 0 <= j < i ==> in_alphabet(#[trigger] t[j]),
        !in_alphabet(t[i]),
    ensures
        first_non_alpha_idx(t) == i,
    decreases i,
{
    if i > 0 {
        assert(t.skip(1)[i - 1] == t[i]);
        assert(forall|j: int| 0 <= j < i - 1 ==> t.skip(1)[j] == t[j + 1]);
        lemma_first_non_alpha(t.skip(1), i - 1);
    }
}

/// The text denoted by a sequence of wire bytes.
pub open spec fn decoded94(s: Seq<u8>) -> Seq<char> {
    s.map_values(|b: u8| alpha_byte(b - 33) as char)
}

/// The wire bytes denoting a text whose characters all lie in the alphabet.
pub open spec fn encoded94(t: Seq<char>) -> Seq<u8> {
    t.map_values(|c: char| (alpha_index(c as u32) + 33) as u8)
}

/// Alphabet entries are ASCII and the two lookup directions are mutually
/// inverse.
pub proof fn lemma_alpha_inverse(i: int, u: u32)
    ensures
        0 <= i < 94 ==> {
            &&& alpha_byte(i) < 128
            &&& in_alphabet(alpha_byte(i) as char)
            &&& alpha_index(alpha_byte(i) as u32) == i
        },
        alpha_index(u) >= 0 ==> {
            &&& alpha_index(u) < 94
            &&& u < 127
            &&& alpha_byte(alpha_index(u)) as u32 == u
        },
{
}

/// String codec round-trip, wire side: decoding any all-wire-byte string and
/// re-encoding it yields the original bytes.
pub proof fn lemma_string_codec_roundtrip_wire(s: Seq<u8>)
    requires
        all_wire_bytes(s),
    ensures
        all_in_alphabet(decoded94(s)),
        encoded94(decoded94(s)) == s,
{
    assert forall|i: int| 0 <= i < s.len() implies in_alphabet(#[trigger] decoded94(s)[i]) by {
        lemma_alpha_inverse(s[i] - 33, alpha_byte(s[i] - 33) as u32);
    }
    assert forall|i: int| 0 <= i < s.len() implies encoded94(decoded94(s))[i] == s[i] by {
        let b = s[i];
        lemma_alpha_inverse(b - 33, alpha_byte(b - 33) as u32);
        assert(decoded94(s)[i] == alpha_byte(b - 33) as char);
        assert((alpha_byte(b - 33) as char) as u32 == alpha_byte(b - 33) as u32);
        assert(alpha_index(alpha_byte(b - 33) as u32) == b - 33);
    }
    assert(encoded94(decoded94(s)) =~= s);
}

/// String codec round-trip, text side: encoding any text drawn from the
/// alphabet and decoding it yields the original text.
pub proof fn lemma_string_codec_roundtrip_text(t: Seq<char>)
    requires
        all_in_alphabet(t),
    ensures
        all_wire_bytes(encoded94(t)),
        decoded94(encoded94(t)) == t,
{
    assert forall|i: int| 0 <= i < t.len() implies is_wire_byte(#[trigger] encoded94(t)[i]) by {
        lemma_alpha_inverse(alpha_index(t[i] as u32), t[i] as u32);
    }
    assert forall|i: int| 0 <= i < t.len() implies decoded94(encoded94(t))[i] == t[i] by {
        let c = t[i];
        assert(in_alphabet(c));
        let k = alpha_index(c as u32);
        lemma_alpha_inverse(k, c as u32);
        assert(encoded94(t)[i] == (k + 33) as u8);
        assert(((k + 33) as u8) - 33 == k);
        assert(decoded94(encoded94(t))[i] == alpha_byte(k) as char);
        assert((alpha_byte(k) as char) as u32 == alpha_byte(k) as u32);
        assert(alpha_byte(k) as u32 == c as u32);
        vstd::utf8::char_u32_cast(c, c as u32);
    }
    assert(decoded94(encoded94(t)) =~= t);
}

/// Looks up the alphabet entry for index `i`.
fn alpha_at(i: u8) -> (r: u8)
    requires
        i < 94,
    ensures
        r == alpha_byte(i as int),
{
    if i < 26 {
        97 + i
    } else if i < 52 {
        65 + (i - 26)
    } else if i < 62 {
        48 + (i - 52)
    } else if i < 77 {
        33 + (i - 62)
    } else if i < 84 {
        58 + (i - 77)
    } else if i < 90 {
        91 + (i - 84)
    } else if i == 90 {
        124
    } else if i == 91 {
        126
    } else if i == 92 {
        32
    } else {
        10
    }
}

/// Looks up the alphabet index of code point `u`, if it is in the alphabet.
fn alpha_pos(u: u32) -> (r: Option<u8>)
    ensures
        match r {
            Some(i) => i as int == alpha_index(u) && i < 94,
            None => alpha_index(u) == -1,
        },
{
    if 97 <= u && u < 123 {
        Some((u - 97) as u8)
    } else if 65 <= u && u < 91 {
        Some((26 + (u - 65)) as u8)
    } else if 48 <= u && u < 58 {
        Some((52 + (u - 48)) as u8)
    } else if 33 <= u && u < 48 {
        Some((62 + (u - 33)) as u8)
    } else if 58 <= u && u < 65 {
        Some((77 + (u - 58)) as u8)
    } else if 91 <= u && u < 97 {
        Some((84 + (u - 91)) as u8)
    } else if u == 124 {
        Some(90)
    } else if u == 126 {
        Some(91)
    } else if u == 32 {
        Some(92)
    } else if u == 10 {
        Some(93)
    } else {
        None
    }
}

/// Decodes wire bytes into text through the alphabet.  Fails exactly when a
/// byte lies outside `'!'..='~'`.
pub fn decode(s: &[u8]) -> (r: Result<String, DecodeError>)
    ensures
        match r {
            Ok(t) => all_wire_bytes(s@) && t@ == decoded94(s@),
            Err(e) => !all_wire_bytes(s@) && e == DecodeError::OutOfAlphabet(
                s@[crate::token::integers::first_non_wire_idx(s@)] as char,
            ),
        },
{
    let len = s.len();
    let mut out: Vec<u8> = Vec::new();
    for i in 0..len
        invariant
            len == s@.len(),
            forall|j: int| 0 <= j < i ==> is_wire_byte(#[trigger] s@[j]),
            out@.len() == i,
            forall|j: int| 0 <= j < i ==> out@[j] == alpha_byte(s@[j] - 33) && out@[j] < 128,
    {
        let b = s[i];
        if b < 33 || b > 126 {
            proof {
                crate::token::integers::lemma_first_non_wire(s@, i as int);
            }
            return Err(DecodeError::OutOfAlphabet(b as char));
        }
        let c = alpha_at(b - 33);
        proof {
            lemma_alpha_inverse((b - 33) as int, 0);
        }
        out.push(c);
    }
    proof {
        assert(chars_of_bytes(out@) =~= decoded94(s@));
    }
    Ok(string_from_ascii(out))
}

/// Encodes text into wire bytes through the alphabet.  Fails exactly when a
/// character is not one of the 94 alphabet entries.
pub fn encode(s: &str) -> (r: Result<String, DecodeError>)
    ensures
        match r {
            Ok(w) => all_in_alphabet(s@) && w@ == chars_of_bytes(encoded94(s@)),
            Err(e) => !all_in_alphabet(s@) && e == DecodeError::OutOfAlphabet(
                s@[first_non_alpha_idx(s@)],
            ),
        },
{
    match encode_bytes(s) {
        Ok(w) => Ok(string_from_ascii(w)),
        Err(e) => Err(e),
    }
}

/// Encodes text into wire bytes through the alphabet, as a byte vector.
pub(crate) fn encode_bytes(s: &str) -> (r: Result<Vec<u8>, DecodeError>)
    ensures
        match r {
            Ok(w) => all_in_alphabet(s@) && w@ == encoded94(s@) && crate::ascii::all_ascii_bytes(
                w@,
            ),
            Err(e) => !all_in_alphabet(s@) && e == DecodeError::OutOfAlphabet(
                s@[first_non_alpha_idx(s@)],
            ),
        },
{
    let len = s.unicode_len();
    let mut out: Vec<u8> = Vec::new();
    for i in 0..len
        invariant
            len == s@.len(),
            forall|j: int| 0 <= j < i ==> in_alphabet(#[trigger] s@[j]),
            out@.len() == i,
            forall|j: int|
                0 <= j < i ==> out@[j] == (alpha_index(s@[j] as u32) + 33) as u8 && out@[j]
                    < 128,
    {
        let c = s.get_char(i);
        let code: u32 = c as u32;
        match alpha_pos(code) {
            Some(idx) => {
                out.push(idx + 33);
            },
            None => {
                proof {
                    assert(!in_alphabet(s@[i as int]));
                    lemma_first_non_alpha(s@, i as int);
                }
                return Err(DecodeError::OutOfAlphabet(c));
            },
        }
    }
    proof {
        assert(out@ =~= encoded94(s@));
    }
    Ok(out)
}

} // verus!
