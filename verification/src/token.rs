//! Wire tokens: decoding, encoding, and the token-level round trip.
//!
//! A wire payload is ASCII text, split on runs of ASCII whitespace into
//! units.  Each unit starts with an indicator byte that selects the token
//! kind; the rest of the unit is the body.

pub mod binary_op;
pub mod integers;
pub mod planner;
pub mod strings;
pub mod unary_op;

pub use binary_op::BinaryOp;
pub use planner::encode_string;
pub use unary_op::UnaryOp;

use vstd::prelude::*;

use crate::ascii::{all_ascii_bytes, chars_of_bytes, string_from_ascii};
use vstd::string::StringSliceAdditionalSpecFns;
use crate::bignum::{big_clone, big_value};
use crate::errors::DecodeError;
use crate::token::integers::{all_wire_bytes, base94_val, enc94};
use crate::token::strings::{all_in_alphabet, decoded94, encoded94};

verus! {

/// One whitespace-delimited unit of the wire format.
#[derive(Debug)]
pub enum Token {
    Boolean(bool),
    Integer(num_bigint::BigInt),
    String(String),
    UnaryOp(UnaryOp),
    BinaryOp(BinaryOp),
    If,
    Lambda(num_bigint::BigInt),
    Variable(num_bigint::BigInt),
}

/// The mathematical reading of a token: integers as unbounded integers,
/// strings as character sequences.
pub enum TokenModel {
    Boolean(bool),
    Integer(int),
    String(Seq<char>),
    UnaryOp(UnaryOp),
    BinaryOp(BinaryOp),
    If,
    Lambda(int),
    Variable(int),
}

impl View for Token {
    type V = TokenModel;

    open spec fn view(&self) -> TokenModel {
        match self {
            Token::Boolean(b) => TokenModel::Boolean(*b),
            Token::Integer(n) => TokenModel::Integer(big_value(*n)),
            Token::String(s) => TokenModel::String(s@),
            Token::UnaryOp(op) => TokenModel::UnaryOp(*op),
            Token::BinaryOp(op) => TokenModel::BinaryOp(*op),
            Token::If => TokenModel::If,
            Token::Lambda(n) => TokenModel::Lambda(big_value(*n)),
            Token::Variable(n) => TokenModel::Variable(big_value(*n)),
        }
    }
}

impl PartialEq for Token {
    fn eq(&self, other: &Token) -> (r: bool) {
        match (self, other) {
            (Token::Boolean(a), Token::Boolean(b)) => a == b,
            (Token::Integer(a), Token::Integer(b)) => crate::bignum::big_eq(a, b),
            (Token::String(a), Token::String(b)) => a.eq(b),
            (Token::UnaryOp(a), Token::UnaryOp(b)) => a == b,
            (Token::BinaryOp(a), Token::BinaryOp(b)) => a == b,
            (Token::If, Token::If) => true,
            (Token::Lambda(a), Token::Lambda(b)) => crate::bignum::big_eq(a, b),
            (Token::Variable(a), Token::Variable(b)) => crate::bignum::big_eq(a, b),
            _ => false,
        }
    }
}

impl vstd::std_specs::cmp::PartialEqSpecImpl for Token {
    open spec fn obeys_eq_spec() -> bool {
        true
    }

    open spec fn eq_spec(&self, other: &Token) -> bool {
        self@ == other@
    }
}

/// The token a whitespace-free unit of wire bytes denotes, or the error its
/// decoding raises.  Dispatch is on the first byte; `U` and `B` read exactly
/// one body byte and `?` reads none, further bytes being ignored as in the
/// wire grammar.
pub open spec fn spec_decode_token(s: Seq<u8>) -> Result<TokenModel, DecodeError> {
    if s.len() == 0 {
        Err(DecodeError::EmptyToken)
    } else {
        let body = s.skip(1);
        if s[0] == 84 {  // 'T'
            if s.len() == 1 {
                Ok(TokenModel::Boolean(true))
            } else {
                Err(DecodeError::UnexpectedBody)
            }
        } else if s[0] == 70 {  // 'F'
            if s.len() == 1 {
                Ok(TokenModel::Boolean(false))
            } else {
                Err(DecodeError::UnexpectedBody)
            }
        } else if s[0] == 73 {  // 'I'
            if all_wire_bytes(body) {
                Ok(TokenModel::Integer(base94_val(body)))
            } else {
                Err(DecodeError::OutOfAlphabet(body[integers::first_non_wire_idx(body)] as char))
            }
        } else if s[0] == 83 {  // 'S'
            if all_wire_bytes(body) {
                Ok(TokenModel::String(decoded94(body)))
            } else {
                Err(DecodeError::OutOfAlphabet(body[integers::first_non_wire_idx(body)] as char))
            }
        } else if s[0] == 85 {  // 'U'
            if body.len() == 0 {
                Err(DecodeError::MissingBody)
            } else {
                match unary_op::unary_of_byte(body[0]) {
                    Some(op) => Ok(TokenModel::UnaryOp(op)),
                    None => Err(DecodeError::OutOfAlphabet(body[0] as char)),
                }
            }
        } else if s[0] == 66 {  // 'B'
            if body.len() == 0 {
                Err(DecodeError::MissingBody)
            } else {
                match binary_op::binary_of_byte(body[0]) {
                    Some(op) => Ok(TokenModel::BinaryOp(op)),
                    None => Err(DecodeError::OutOfAlphabet(body[0] as char)),
                }
            }
        } else if s[0] == 63 {  // '?'
            Ok(TokenModel::If)
        } else if s[0] == 76 {  // 'L'
            if all_wire_bytes(body) {
                Ok(TokenModel::Lambda(base94_val(body)))
            } else {
                Err(DecodeError::OutOfAlphabet(body[integers::first_non_wire_idx(body)] as char))
            }
        } else if s[0] == 118 {  // 'v'
            if all_wire_bytes(body) {
                Ok(TokenModel::Variable(base94_val(body)))
            } else {
                Err(DecodeError::OutOfAlphabet(body[integers::first_non_wire_idx(body)] as char))
            }
        } else {
            Err(DecodeError::UnknownToken(s[0]))
        }
    }
}

/// The wire bytes of a token, or the error its encoding raises: a negative
/// integer cannot be written, nor a string character outside the alphabet.
pub open spec fn spec_encode_token(t: TokenModel) -> Result<Seq<u8>, DecodeError> {
    match t {
        TokenModel::Boolean(b) => Ok(seq![if b { 84u8 } else { 70u8 }]),
        TokenModel::Integer(n) => if n >= 0 {
            Ok(seq![73u8] + enc94(n as nat))
        } else {
            Err(DecodeError::NegativeInteger)
        },
        TokenModel::String(t) => if all_in_alphabet(t) {
            Ok(seq![83u8] + encoded94(t))
        } else {
            Err(DecodeError::OutOfAlphabet(t[strings::first_non_alpha_idx(t)]))
        },
        TokenModel::UnaryOp(op) => Ok(seq![85u8, unary_op::unary_byte(op)]),
        TokenModel::BinaryOp(op) => Ok(seq![66u8, binary_op::binary_byte(op)]),
        TokenModel::If => Ok(seq![63u8]),
        TokenModel::Lambda(n) => if n >= 0 {
            Ok(seq![76u8] + enc94(n as nat))
        } else {
            Err(DecodeError::NegativeInteger)
        },
        TokenModel::Variable(n) => if n >= 0 {
            Ok(seq![118u8] + enc94(n as nat))
        } else {
            Err(DecodeError::NegativeInteger)
        },
    }
}

/// A token whose payload the wire format can carry: non-negative numbers,
/// and strings drawn from the alphabet.
pub open spec fn token_wf(t: TokenModel) -> bool {
    match t {
        TokenModel::Integer(n) => n >= 0,
        TokenModel::String(s) => all_in_alphabet(s),
        TokenModel::Lambda(n) => n >= 0,
        TokenModel::Variable(n) => n >= 0,
        _ => true,
    }
}

/// The canonical wire spellings: numerals carry no leading zero digit, and
/// no unit carries ignored trailing bytes.
pub open spec fn canonical_token_bytes(s: Seq<u8>) -> bool {
    s.len() >= 1 && {
        if s[0] == 84 || s[0] == 70 || s[0] == 63 {
            s.len() == 1
        } else if s[0] == 85 || s[0] == 66 {
            s.len() == 2
        } else if s[0] == 73 || s[0] == 76 || s[0] == 118 {
            s.len() >= 2 && (s.len() == 2 || s[1] != 33)
        } else {
            true
        }
    }
}

/// Token round trip, token side: every well-formed token encodes, and its
/// encoding decodes back to the very same token.
pub proof fn lemma_token_roundtrip_decode_encode(t: TokenModel)
    requires
        token_wf(t),
    ensures
        spec_encode_token(t) is Ok,
        spec_decode_token(spec_encode_token(t)->Ok_0) == Ok::<TokenModel, DecodeError>(t),
{
    match t {
        TokenModel::Boolean(b) => {
        },
        TokenModel::Integer(n) => {
            let w = spec_encode_token(t)->Ok_0;
            integers::lemma_enc94_wf(n as nat);
            assert(w.skip(1) =~= enc94(n as nat));
            integers::lemma_integer_codec_roundtrip(n as nat);
        },
        TokenModel::String(txt) => {
            let w = spec_encode_token(t)->Ok_0;
            strings::lemma_string_codec_roundtrip_text(txt);
            assert(w.skip(1) =~= encoded94(txt));
        },
        TokenModel::UnaryOp(op) => {
            let w = spec_encode_token(t)->Ok_0;
            unary_op::lemma_unary_byte_inverse(op, 0);
            assert(w.skip(1) =~= seq![unary_op::unary_byte(op)]);
        },
        TokenModel::BinaryOp(op) => {
            let w = spec_encode_token(t)->Ok_0;
            binary_op::lemma_binary_byte_inverse(op, 0);
            assert(w.skip(1) =~= seq![binary_op::binary_byte(op)]);
        },
        TokenModel::If => {
        },
        TokenModel::Lambda(n) => {
            let w = spec_encode_token(t)->Ok_0;
            integers::lemma_enc94_wf(n as nat);
            assert(w.skip(1) =~= enc94(n as nat));
            integers::lemma_integer_codec_roundtrip(n as nat);
        },
        TokenModel::Variable(n) => {
            let w = spec_encode_token(t)->Ok_0;
            integers::lemma_enc94_wf(n as nat);
            assert(w.skip(1) =~= enc94(n as nat));
            integers::lemma_integer_codec_roundtrip(n as nat);
        },
    }
}

/// Token round trip, wire side: a canonical unit that decodes re-encodes to
/// the very same bytes.
pub proof fn lemma_token_roundtrip_encode_decode(s: Seq<u8>)
    requires
        canonical_token_bytes(s),
        spec_decode_token(s) is Ok,
    ensures
        spec_encode_token(spec_decode_token(s)->Ok_0) == Ok::<Seq<u8>, DecodeError>(s),
{
    let t = spec_decode_token(s)->Ok_0;
    let body = s.skip(1);
    if s[0] == 84 || s[0] == 70 || s[0] == 63 {
        assert(spec_encode_token(t)->Ok_0 =~= s);
    } else if s[0] == 85 {
        unary_op::lemma_unary_byte_inverse(UnaryOp::Neg, body[0]);
        assert(spec_encode_token(t)->Ok_0 =~= s);
    } else if s[0] == 66 {
        binary_op::lemma_binary_byte_inverse(BinaryOp::Add, body[0]);
        assert(spec_encode_token(t)->Ok_0 =~= s);
    } else if s[0] == 73 || s[0] == 76 || s[0] == 118 {
        integers::lemma_base94_nonneg_pub(body);
        integers::lemma_enc94_canonical(body);
        assert(spec_encode_token(t)->Ok_0 =~= seq![s[0]] + body);
        assert(seq![s[0]] + body =~= s);
    } else if s[0] == 83 {
        strings::lemma_string_codec_roundtrip_wire(body);
        assert(spec_encode_token(t)->Ok_0 =~= seq![s[0]] + body);
        assert(seq![s[0]] + body =~= s);
    }
}

/// A well-formed token's wire unit: it encodes, is never empty, and holds
/// no whitespace byte, so joining units with spaces splits back cleanly.
pub proof fn lemma_encoded_unit_wf(t: TokenModel)
    requires
        token_wf(t),
    ensures
        spec_encode_token(t) is Ok,
        spec_encode_token(t)->Ok_0.len() >= 1,
        forall|k: int|
            0 <= k < spec_encode_token(t)->Ok_0.len() ==> (#[trigger] spec_encode_token(
                t,
            )->Ok_0[k]) >= 33,
{
    let u = spec_encode_token(t)->Ok_0;
    match t {
        TokenModel::Boolean(b) => {
            assert(u =~= seq![if b { 84u8 } else { 70u8 }]);
        },
        TokenModel::Integer(n) => {
            integers::lemma_enc94_wf(n as nat);
            assert forall|k: int| 0 <= k < u.len() implies (#[trigger] u[k]) >= 33 by {
                if k > 0 {
                    assert(u[k] == enc94(n as nat)[k - 1]);
                    assert(integers::is_wire_byte(enc94(n as nat)[k - 1]));
                }
            }
        },
        TokenModel::String(txt) => {
            strings::lemma_string_codec_roundtrip_text(txt);
            assert forall|k: int| 0 <= k < u.len() implies (#[trigger] u[k]) >= 33 by {
                if k > 0 {
                    assert(u[k] == encoded94(txt)[k - 1]);
                    assert(integers::is_wire_byte(encoded94(txt)[k - 1]));
                }
            }
        },
        TokenModel::UnaryOp(op) => {
            assert(unary_op::unary_byte(op) >= 33) by {
                match op {
                    UnaryOp::Neg => {},
                    UnaryOp::Not => {},
                    UnaryOp::ToInt => {},
                    UnaryOp::ToString => {},
                }
            }
        },
        TokenModel::BinaryOp(op) => {
            assert(binary_op::binary_byte(op) >= 33) by {
                match op {
                    BinaryOp::Add => {},
                    BinaryOp::Sub => {},
                    BinaryOp::Mul => {},
                    BinaryOp::Div => {},
                    BinaryOp::Mod => {},
                    BinaryOp::Less => {},
                    BinaryOp::Greater => {},
                    BinaryOp::Equal => {},
                    BinaryOp::Or => {},
                    BinaryOp::And => {},
                    BinaryOp::Concat => {},
                    BinaryOp::Take => {},
                    BinaryOp::Drop => {},
                    BinaryOp::Apply => {},
                }
            }
        },
        TokenModel::If => {
            assert(u =~= seq![63u8]);
        },
        TokenModel::Lambda(n) => {
            integers::lemma_enc94_wf(n as nat);
            assert forall|k: int| 0 <= k < u.len() implies (#[trigger] u[k]) >= 33 by {
                if k > 0 {
                    assert(u[k] == enc94(n as nat)[k - 1]);
                    assert(integers::is_wire_byte(enc94(n as nat)[k - 1]));
                }
            }
        },
        TokenModel::Variable(n) => {
            integers::lemma_enc94_wf(n as nat);
            assert forall|k: int| 0 <= k < u.len() implies (#[trigger] u[k]) >= 33 by {
                if k > 0 {
                    assert(u[k] == enc94(n as nat)[k - 1]);
                    assert(integers::is_wire_byte(enc94(n as nat)[k - 1]));
                }
            }
        },
    }
}

/// Splitting starts with the leading word when the rest begins with
/// whitespace or is empty.
proof fn lemma_split_word_prefix(u: Seq<u8>, rest: Seq<u8>)
    requires
        u.len() >= 1,
        forall|k: int| 0 <= k < u.len() ==> !is_ws(#[trigger] u[k]),
        rest.len() == 0 || is_ws(rest[0]),
    ensures
        split_ws(u + rest) == seq![u] + split_ws(rest),
{
    let s = u + rest;
    assert forall|m: int| 0 <= m < u.len() implies !is_ws(#[trigger] s[m]) by {
        assert(s[m] == u[m]);
    }
    lemma_word_len_run(s, 0, u.len() as int);
    assert(s.skip(0) =~= s);
    assert(word_len(s) == u.len());
    assert(!is_ws(s[0]));
    assert(s.take(u.len() as int) =~= u);
    assert(s.skip(u.len() as int) =~= rest);
    assert(split_ws(s) == seq![u] + split_ws(rest));
}

/// Writing the units left to right: the join of two or more tokens is the
/// first unit, a space, then the join of the rest.
proof fn lemma_joined_left(ts: Seq<TokenModel>)
    requires
        ts.len() >= 2,
        spec_encode_stream_ok(ts),
    ensures
        spec_joined(ts) == spec_encode_token(ts[0])->Ok_0 + seq![32u8] + spec_joined(ts.skip(1)),
    decreases ts.len(),
{
    let dl = ts.drop_last();
    if ts.len() == 2 {
        assert(dl =~= seq![ts[0]]);
        assert(spec_joined(dl) == spec_encode_token(ts[0])->Ok_0);
        assert(ts.skip(1) =~= seq![ts[1]]);
        assert(spec_joined(ts.skip(1)) == spec_encode_token(ts[1])->Ok_0);
        assert(ts.last() == ts[1]);
        assert(spec_joined(dl) + seq![32u8] + spec_encode_token(ts.last())->Ok_0
            =~= spec_encode_token(ts[0])->Ok_0 + seq![32u8] + spec_joined(ts.skip(1)));
    } else {
        assert(spec_encode_stream_ok(dl)) by {
            assert(forall|i: int|
                0 <= i < dl.len() ==> spec_encode_token(#[trigger] dl[i]) == spec_encode_token(
                    ts[i],
                ));
        }
        lemma_joined_left(dl);
        assert(dl[0] == ts[0]);
        let tail = ts.skip(1);
        assert(tail.len() >= 2);
        assert(tail.drop_last() =~= dl.skip(1));
        assert(tail.last() == ts.last());
        assert(spec_joined(tail) == spec_joined(dl.skip(1)) + seq![32u8] + spec_encode_token(
            ts.last(),
        )->Ok_0);
        assert(spec_joined(ts) == spec_joined(dl) + seq![32u8] + spec_encode_token(
            ts.last(),
        )->Ok_0);
        assert(spec_joined(dl) + seq![32u8] + spec_encode_token(ts.last())->Ok_0
            =~= spec_encode_token(ts[0])->Ok_0 + seq![32u8] + spec_joined(tail));
    }
}

/// Stream round trip: a well-formed token sequence, written as wire text
/// and split back on whitespace, decodes unit by unit to the very same
/// tokens.
pub proof fn lemma_stream_roundtrip(ts: Seq<TokenModel>)
    requires
        forall|i: int| 0 <= i < ts.len() ==> token_wf(#[trigger] ts[i]),
    ensures
        spec_encode_stream_ok(ts),
        split_ws(spec_joined(ts)).len() == ts.len(),
        forall|i: int|
            0 <= i < ts.len() ==> spec_decode_token(
                #[trigger] split_ws(spec_joined(ts))[i],
            ) == Ok::<TokenModel, DecodeError>(ts[i]),
    decreases ts.len(),
{
    assert forall|i: int| 0 <= i < ts.len() implies spec_encode_token(#[trigger] ts[i]) is Ok by {
        lemma_encoded_unit_wf(ts[i]);
    }
    if ts.len() == 0 {
        assert(spec_joined(ts) =~= Seq::<u8>::empty());
        assert(split_ws(spec_joined(ts)) =~= Seq::<Seq<u8>>::empty());
    } else if ts.len() == 1 {
        let u = spec_encode_token(ts[0])->Ok_0;
        lemma_encoded_unit_wf(ts[0]);
        assert forall|k: int| 0 <= k < u.len() implies !is_ws(#[trigger] u[k]) by {}
        lemma_split_word_prefix(u, Seq::empty());
        assert(u + Seq::<u8>::empty() =~= u);
        assert(spec_joined(ts) == u);
        assert(split_ws(u) =~= seq![u]);
        lemma_token_roundtrip_decode_encode(ts[0]);
    } else {
        let u = spec_encode_token(ts[0])->Ok_0;
        let tail = ts.skip(1);
        lemma_encoded_unit_wf(ts[0]);
        assert forall|k: int| 0 <= k < u.len() implies !is_ws(#[trigger] u[k]) by {}
        lemma_joined_left(ts);
        let rest = seq![32u8] + spec_joined(tail);
        assert(is_ws(rest[0]));
        assert(u + seq![32u8] + spec_joined(tail) =~= u + rest);
        lemma_split_word_prefix(u, rest);
        assert(rest.skip(1) =~= spec_joined(tail));
        assert(split_ws(rest) == split_ws(spec_joined(tail)));
        assert(forall|i: int| 0 <= i < tail.len() ==> token_wf(#[trigger] tail[i]));
        lemma_stream_roundtrip(tail);
        lemma_token_roundtrip_decode_encode(ts[0]);
        let units = split_ws(spec_joined(ts));
        assert(units =~= seq![u] + split_ws(spec_joined(tail)));
        assert forall|i: int|
            0 <= i < ts.len() implies spec_decode_token(#[trigger] units[i]) == Ok::<
            TokenModel,
            DecodeError,
        >(ts[i]) by {
            if i == 0 {
                assert(units[0] == u);
            } else {
                assert(units[i] == split_ws(spec_joined(tail))[i - 1]);
                assert(spec_decode_token(split_ws(spec_joined(tail))[i - 1]) == Ok::<
                    TokenModel,
                    DecodeError,
                >(tail[i - 1]));
                assert(tail[i - 1] == ts[i]);
            }
        }
    }
}

/// Decodes one whitespace-free unit of wire bytes.
pub fn decode_token_bytes(s: &[u8]) -> (r: Result<Token, DecodeError>)
    ensures
        match r {
            Ok(t) => spec_decode_token(s@) == Ok::<TokenModel, DecodeError>(t@),
            Err(e) => spec_decode_token(s@) == Err::<TokenModel, DecodeError>(e),
        },
{
    if s.len() == 0 {
        return Err(DecodeError::EmptyToken);
    }
    let ind = *vstd::slice::slice_index_get(s, 0);
    let body = vstd::slice::slice_subrange(s, 1, s.len());
    proof {
        assert(body@ =~= s@.skip(1));
    }
    if ind == 84 {
        if body.len() == 0 {
            Ok(Token::Boolean(true))
        } else {
            Err(DecodeError::UnexpectedBody)
        }
    } else if ind == 70 {
        if body.len() == 0 {
            Ok(Token::Boolean(false))
        } else {
            Err(DecodeError::UnexpectedBody)
        }
    } else if ind == 73 {
        match integers::decode(body) {
            Ok(n) => Ok(Token::Integer(n)),
            Err(e) => Err(e),
        }
    } else if ind == 83 {
        match strings::decode(body) {
            Ok(t) => Ok(Token::String(t)),
            Err(e) => Err(e),
        }
    } else if ind == 85 {
        match unary_op::decode(body) {
            Ok(op) => Ok(Token::UnaryOp(op)),
            Err(e) => Err(e),
        }
    } else if ind == 66 {
        match binary_op::decode(body) {
            Ok(op) => Ok(Token::BinaryOp(op)),
            Err(e) => Err(e),
        }
    } else if ind == 63 {
        Ok(Token::If)
    } else if ind == 76 {
        match integers::decode(body) {
            Ok(n) => Ok(Token::Lambda(n)),
            Err(e) => Err(e),
        }
    } else if ind == 118 {
        match integers::decode(body) {
            Ok(n) => Ok(Token::Variable(n)),
            Err(e) => Err(e),
        }
    } else {
        Err(DecodeError::UnknownToken(ind))
    }
}

/// Decodes one whitespace-free unit of wire text.
pub fn decode_token(s: &str) -> (r: Result<Token, DecodeError>)
    ensures
        match r {
            Ok(t) => spec_decode_token(s.spec_bytes()) == Ok::<TokenModel, DecodeError>(t@),
            Err(e) => spec_decode_token(s.spec_bytes()) == Err::<TokenModel, DecodeError>(e),
        },
{
    decode_token_bytes(s.as_bytes())
}

/// True of the ASCII whitespace bytes, the unit separators of the wire.
pub open spec fn is_ws(b: u8) -> bool {
    b == 32 || b == 9 || b == 10 || b == 12 || b == 13
}

/// The length of the leading whitespace-free run.
pub open spec fn word_len(s: Seq<u8>) -> nat
    decreases s.len(),
{
    if s.len() == 0 || is_ws(s[0]) {
        0
    } else {
        1 + word_len(s.skip(1))
    }
}

/// The leading word is never longer than the string.
pub proof fn lemma_word_len_le(s: Seq<u8>)
    ensures
        word_len(s) <= s.len(),
    decreases s.len(),
{
    if s.len() > 0 && !is_ws(s[0]) {
        lemma_word_len_le(s.skip(1));
    }
}

/// The whitespace-free units of a byte string, in order.
pub open spec fn split_ws(s: Seq<u8>) -> Seq<Seq<u8>>
    decreases s.len(),
{
    if s.len() == 0 {
        Seq::empty()
    } else if is_ws(s[0]) {
        split_ws(s.skip(1))
    } else {
        proof {
            assert(word_len(s) >= 1);
            lemma_word_len_le(s);
        }
        seq![s.take(word_len(s) as int)] + split_ws(s.skip(word_len(s) as int))
    }
}

/// A run of non-whitespace bytes ending at the string's end or at a
/// whitespace byte is exactly the leading word.
proof fn lemma_word_len_run(s: Seq<u8>, start: int, end: int)
    requires
        0 <= start <= end <= s.len(),
        forall|m: int| start <= m < end ==> !is_ws(#[trigger] s[m]),
        end == s.len() || is_ws(s[end]),
    ensures
        word_len(s.skip(start)) == end - start,
    decreases end - start,
{
    if start == end {
        if start < s.len() {
            assert(s.skip(start)[0] == s[start]);
        }
    } else {
        assert(s.skip(start)[0] == s[start]);
        assert(s.skip(start).skip(1) =~= s.skip(start + 1));
        lemma_word_len_run(s, start + 1, end);
    }
}

/// True when position `i` of `s` holds a non-whitespace byte.
fn non_ws_at(s: &[u8], i: usize) -> (r: bool)
    requires
        i < s@.len(),
    ensures
        r == !is_ws(s@[i as int]),
{
    let c = *vstd::slice::slice_index_get(s, i);
    !(c == 32 || c == 9 || c == 10 || c == 12 || c == 13)
}

/// Splits wire bytes into whitespace-free units.
fn tokenize(s: &[u8]) -> (r: Vec<Vec<u8>>)
    ensures
        r@.map_values(|u: Vec<u8>| u@) == split_ws(s@),
{
    let len = s.len();
    let mut out: Vec<Vec<u8>> = Vec::new();
    let mut i: usize = 0;
    proof {
        assert(s@.skip(0) =~= s@);
        assert(out@.map_values(|u: Vec<u8>| u@) =~= Seq::<Seq<u8>>::empty());
    }
    while i < len
        invariant
            i <= len == s@.len(),
            out@.map_values(|u: Vec<u8>| u@) + split_ws(s@.skip(i as int)) =~= split_ws(s@),
        decreases len - i,
    {
        let b = *vstd::slice::slice_index_get(s, i);
        if b == 32 || b == 9 || b == 10 || b == 12 || b == 13 {
            proof {
                assert(s@.skip(i as int)[0] == s@[i as int]);
                assert(s@.skip(i as int).skip(1) =~= s@.skip(i + 1));
            }
            i = i + 1;
        } else {
            let start = i;
            let mut unit: Vec<u8> = Vec::new();
            while i < len && non_ws_at(s, i)
                invariant
                    start <= i <= len == s@.len(),
                    forall|m: int| start <= m < i ==> !is_ws(#[trigger] s@[m]),
                    unit@ =~= s@.subrange(start as int, i as int),
                decreases len - i,
            {
                unit.push(*vstd::slice::slice_index_get(s, i));
                i = i + 1;
            }
            proof {
                lemma_word_len_run(s@, start as int, i as int);
                assert(s@.skip(start as int).take(word_len(s@.skip(start as int)) as int)
                    =~= s@.subrange(start as int, i as int));
                assert(s@.skip(start as int).skip(word_len(s@.skip(start as int)) as int)
                    =~= s@.skip(i as int));
                assert(!is_ws(s@.skip(start as int)[0]));
            }
            let ghost prev = out@;
            out.push(unit);
            proof {
                assert(out@.map_values(|u: Vec<u8>| u@) =~= prev.map_values(|u: Vec<u8>| u@)
                    + seq![unit@]);
            }
        }
    }
    proof {
        assert(split_ws(s@.skip(len as int)) =~= Seq::<Seq<u8>>::empty());
        assert(out@.map_values(|u: Vec<u8>| u@) =~= split_ws(s@));
    }
    out
}

/// True when unit `i` is the first of `units` that fails to decode, and it
/// fails with error `e`.
pub open spec fn first_decode_failure(units: Seq<Seq<u8>>, i: int, e: DecodeError) -> bool {
    &&& 0 <= i < units.len()
    &&& spec_decode_token(units[i]) == Err::<TokenModel, DecodeError>(e)
    &&& forall|j: int| 0 <= j < i ==> spec_decode_token(#[trigger] units[j]) is Ok
}

/// True when token `i` is the first of `ts` that cannot be encoded, failing
/// with error `e`.
pub open spec fn first_encode_failure(ts: Seq<TokenModel>, i: int, e: DecodeError) -> bool {
    &&& 0 <= i < ts.len()
    &&& spec_encode_token(ts[i]) == Err::<Seq<u8>, DecodeError>(e)
    &&& forall|j: int| 0 <= j < i ==> spec_encode_token(#[trigger] ts[j]) is Ok
}

/// Decodes a whole wire payload: splits on runs of ASCII whitespace and
/// decodes every unit.  The first failing unit aborts the stream with its
/// error.
pub fn decode_token_stream(s: &str) -> (r: Result<Vec<Token>, DecodeError>)
    ensures
        match r {
            Ok(v) => {
                let units = split_ws(s.spec_bytes());
                &&& v@.len() == units.len()
                &&& forall|i: int|
                    0 <= i < units.len() ==> spec_decode_token(#[trigger] units[i]) == Ok::<
                        TokenModel,
                        DecodeError,
                    >(v@[i]@)
            },
            Err(e) => exists|i: int|
                #[trigger] first_decode_failure(split_ws(s.spec_bytes()), i, e),
        },
{
    let units = tokenize(s.as_bytes());
    let mut out: Vec<Token> = Vec::new();
    let n = units.len();
    let ghost su = split_ws(s.spec_bytes());
    for k in 0..n
        invariant
            n == units@.len(),
            su == split_ws(s.spec_bytes()),
            units@.map_values(|u: Vec<u8>| u@) == su,
            out@.len() == k,
            forall|i: int|
                0 <= i < k ==> spec_decode_token(#[trigger] su[i]) == Ok::<
                    TokenModel,
                    DecodeError,
                >(out@[i]@),
    {
        let unit: &Vec<u8> = &units[k];
        proof {
            assert(su[k as int] == unit@);
        }
        match decode_token_bytes(unit.as_slice()) {
            Ok(t) => {
                out.push(t);
            },
            Err(e) => {
                proof {
                    assert(first_decode_failure(su, k as int, e));
                    assert(exists|i: int|
                        #[trigger] first_decode_failure(split_ws(s.spec_bytes()), i, e));
                }
                return Err(e);
            },
        }
    }
    Ok(out)
}

/// The wire bytes of a sequence of tokens, single spaces between units.
/// Meaningful when every token encodes; see [`spec_encode_stream_ok`].
pub open spec fn spec_joined(ts: Seq<TokenModel>) -> Seq<u8>
    decreases ts.len(),
{
    if ts.len() == 0 {
        Seq::empty()
    } else if ts.len() == 1 {
        spec_encode_token(ts[0])->Ok_0
    } else {
        spec_joined(ts.drop_last()) + seq![32u8] + spec_encode_token(ts.last())->Ok_0
    }
}

/// True when every token of the sequence encodes.
pub open spec fn spec_encode_stream_ok(ts: Seq<TokenModel>) -> bool {
    forall|i: int| 0 <= i < ts.len() ==> spec_encode_token(#[trigger] ts[i]) is Ok
}

/// Encodes one token as wire bytes.
fn encode_token_bytes(token: &Token) -> (r: Result<Vec<u8>, DecodeError>)
    ensures
        match r {
            Ok(w) => spec_encode_token(token@) == Ok::<Seq<u8>, DecodeError>(w@) && all_ascii_bytes(
                w@,
            ),
            Err(e) => spec_encode_token(token@) == Err::<Seq<u8>, DecodeError>(e),
        },
{
    match token {
        Token::Boolean(b) => {
            let mut w: Vec<u8> = Vec::new();
            w.push(if *b { 84 } else { 70 });
            proof {
                assert(w@ =~= spec_encode_token(token@)->Ok_0);
            }
            Ok(w)
        },
        Token::Integer(n) => {
            let digits = integers::encode_digits(big_clone(n))?;
            let mut w: Vec<u8> = Vec::new();
            w.push(73);
            let mut tail = digits;
            w.append(&mut tail);
            proof {
                assert(w@ =~= spec_encode_token(token@)->Ok_0);
                integers::lemma_enc94_wf(big_value(*n) as nat);
            }
            Ok(w)
        },
        Token::String(s) => {
            let payload = strings::encode_bytes(s.as_str())?;
            let mut w: Vec<u8> = Vec::new();
            w.push(83);
            let mut tail = payload;
            w.append(&mut tail);
            proof {
                assert(w@ =~= spec_encode_token(token@)->Ok_0);
            }
            Ok(w)
        },
        Token::UnaryOp(op) => {
            let mut w: Vec<u8> = Vec::new();
            w.push(85);
            w.push(unary_op::encode_byte(op));
            proof {
                assert(w@ =~= spec_encode_token(token@)->Ok_0);
            }
            Ok(w)
        },
        Token::BinaryOp(op) => {
            let mut w: Vec<u8> = Vec::new();
            w.push(66);
            w.push(binary_op::encode_byte(op));
            proof {
                assert(w@ =~= spec_encode_token(token@)->Ok_0);
            }
            Ok(w)
        },
        Token::If => {
            let mut w: Vec<u8> = Vec::new();
            w.push(63);
            proof {
                assert(w@ =~= spec_encode_token(token@)->Ok_0);
            }
            Ok(w)
        },
        Token::Lambda(n) => {
            let digits = integers::encode_digits(big_clone(n))?;
            let mut w: Vec<u8> = Vec::new();
            w.push(76);
            let mut tail = digits;
            w.append(&mut tail);
            proof {
                assert(w@ =~= spec_encode_token(token@)->Ok_0);
                integers::lemma_enc94_wf(big_value(*n) as nat);
            }
            Ok(w)
        },
        Token::Variable(n) => {
            let digits = integers::encode_digits(big_clone(n))?;
            let mut w: Vec<u8> = Vec::new();
            w.push(118);
            let mut tail = digits;
            w.append(&mut tail);
            proof {
                assert(w@ =~= spec_encode_token(token@)->Ok_0);
                integers::lemma_enc94_wf(big_value(*n) as nat);
            }
            Ok(w)
        },
    }
}

/// Encodes a sequence of tokens as wire text, units joined by single
/// spaces.  The first unencodable token aborts with its error.
pub fn encode(tokens: &[Token]) -> (r: Result<String, DecodeError>)
    ensures
        ({
            let ts = tokens@.map_values(|t: Token| t@);
            match r {
                Ok(w) => spec_encode_stream_ok(ts) && w@ == chars_of_bytes(spec_joined(ts)),
                Err(e) => exists|i: int| #[trigger] first_encode_failure(ts, i, e),
            }
        }),
{
    let ghost ts = tokens@.map_values(|t: Token| t@);
    let n = tokens.len();
    let mut w: Vec<u8> = Vec::new();
    for k in 0..n
        invariant
            n == tokens@.len(),
            ts == tokens@.map_values(|t: Token| t@),
            forall|j: int| 0 <= j < k ==> spec_encode_token(#[trigger] ts[j]) is Ok,
            w@ =~= spec_joined(ts.take(k as int)),
            all_ascii_bytes(w@),
    {
        let token = vstd::slice::slice_index_get(tokens, k);
        let ghost w0 = w@;
        match encode_token_bytes(token) {
            Ok(unit) => {
                if k > 0 {
                    w.push(32);
                }
                let mut tail = unit;
                w.append(&mut tail);
                proof {
                    assert(ts.take(k + 1).drop_last() =~= ts.take(k as int));
                    assert(ts.take(k + 1).last() == ts[k as int]);
                    if k > 0 {
                        assert(w@ =~= spec_joined(ts.take(k as int)) + seq![32u8]
                            + spec_encode_token(ts[k as int])->Ok_0);
                    } else {
                        assert(ts.take(1).len() == 1);
                        assert(w@ =~= spec_encode_token(ts[0])->Ok_0);
                    }
                }
            },
            Err(e) => {
                proof {
                    assert(first_encode_failure(ts, k as int, e));
                }
                return Err(e);
            },
        }
    }
    proof {
        assert(ts.take(n as int) =~= ts);
    }
    Ok(string_from_ascii(w))
}

} // verus!
