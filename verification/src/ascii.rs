//! Conversions between ASCII byte vectors and `String`.
//!
//! All text this library manipulates is ASCII: wire tokens use the printable
//! bytes `'!'..='~'`, and the string alphabet of the language consists of 94
//! printable ASCII characters plus space and newline.  Working on bytes keeps
//! the proofs direct; these helpers cross between the two representations.

use vstd::prelude::*;

verus! {

/// The characters corresponding byte-for-byte to an ASCII byte sequence.
pub open spec fn chars_of_bytes(s: Seq<u8>) -> Seq<char> {
    s.map_values(|b: u8| b as char)
}

/// True when every byte is ASCII.
pub open spec fn all_ascii_bytes(s: Seq<u8>) -> bool {
    forall|i: int| 0 <= i < s.len() ==> s[i] < 128
}

/// Relies on `String::from_utf8`: ASCII bytes decode to the characters with
/// the same code points.  The precondition keeps the call on the ASCII
/// subset, where UTF-8 decoding is the identity and cannot fail.
#[verifier::external_body]
pub fn string_from_ascii(bytes: Vec<u8>) -> (r: String)
    requires
        all_ascii_bytes(bytes@),
    ensures
        r@ == chars_of_bytes(bytes@),
{
    String::from_utf8(bytes).expect("not ascii")
}

/// The bytes of a string of ASCII characters, via vstd's `as_bytes_vec`.
pub fn ascii_bytes_of(s: &str) -> (r: Vec<u8>)
    requires
        vstd::string::is_ascii(s),
    ensures
        r@ == s@.map_values(|c: char| c as u8),
        r@.len() == s@.len(),
        chars_of_bytes(r@) == s@,
{
    broadcast use vstd::string::is_ascii_spec_bytes;

    let v = s.as_bytes_vec();
    proof {
        assert(v@ =~= s@.map_values(|c: char| c as u8));
        vstd::utf8::is_ascii_chars_nat_bound(s@);
        assert(chars_of_bytes(v@) =~= s@);
    }
    v
}

} // verus!
