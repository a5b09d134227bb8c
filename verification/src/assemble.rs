//! A small assembler: turns a human-readable mnemonic form into wire
//! tokens.
//!
//! A mnemonic that is all decimal digits becomes an integer token; one
//! wrapped in double quotes becomes a string token; the mnemonic `Y` expands
//! to the fixed-point combinator; anything else passes through unchanged as
//! an already-spelled wire token.

use vstd::prelude::*;

use crate::bignum::{big_add, big_from_u64, big_mul, big_value};
use crate::errors::DecodeError;
use crate::token::integers::enc94;
use crate::token::strings::{all_in_alphabet, encoded94};

verus! {

/// True of ASCII whitespace, the mnemonic separators.
pub open spec fn is_blank_char(c: char) -> bool {
    c == ' ' || c == '\t' || c == '\n' || c == '\r' || c == '\u{c}'
}

/// The length of the leading run of non-blank characters.
pub open spec fn word_len_chars(s: Seq<char>) -> nat
    decreases s.len(),
{
    if s.len() == 0 || is_blank_char(s[0]) {
        0
    } else {
        1 + word_len_chars(s.skip(1))
    }
}

/// The leading word is never longer than the string.
pub proof fn lemma_word_len_chars_le(s: Seq<char>)
    ensures
        word_len_chars(s) <= s.len(),
    decreases s.len(),
{
    if s.len() > 0 && !is_blank_char(s[0]) {
        lemma_word_len_chars_le(s.skip(1));
    }
}

/// The blank-separated words of a character string, in order.
pub open spec fn split_blank(s: Seq<char>) -> Seq<Seq<char>>
    decreases s.len(),
{
    if s.len() == 0 {
        Seq::empty()
    } else if is_blank_char(s[0]) {
        split_blank(s.skip(1))
    } else {
        proof {
            assert(word_len_chars(s) >= 1);
            lemma_word_len_chars_le(s);
        }
        seq![s.take(word_len_chars(s) as int)] + split_blank(s.skip(word_len_chars(s) as int))
    }
}

/// True when `c` is a decimal digit.
pub open spec fn is_digit_char(c: char) -> bool {
    48 <= (c as u32) <= 57
}

/// The decimal value of a digit string.
pub open spec fn decimal_val(s: Seq<char>) -> int
    decreases s.len(),
{
    if s.len() == 0 {
        0
    } else {
        decimal_val(s.drop_last()) * 10 + ((s.last() as u32) - 48)
    }
}

/// The wire spelling of one mnemonic: `I` plus base-94 digits for a
/// decimal numeral, `S` plus alphabet bytes for a quoted string literal,
/// the fixed-point combinator for `Y`, and the mnemonic itself otherwise.
pub open spec fn spec_parse_mnemonic(s: Seq<char>) -> Result<Seq<char>, DecodeError> {
    if s.len() > 0 && (forall|i: int| 0 <= i < s.len() ==> is_digit_char(#[trigger] s[i])) {
        if decimal_val(s) >= 0 {
            Ok(
                seq!['I'] + crate::ascii::chars_of_bytes(enc94(decimal_val(s) as nat)),
            )
        } else {
            Err(DecodeError::NegativeInteger)
        }
    } else if s.len() > 0 && s[0] == '"' {
        if exists|j: int| 1 <= j < s.len() && s[j] == '"' {
            let j = last_quote(s);
            if all_in_alphabet(s.subrange(1, j)) {
                Ok(seq!['S'] + crate::ascii::chars_of_bytes(encoded94(s.subrange(1, j))))
            } else {
                Err(
                    DecodeError::OutOfAlphabet(
                        s.subrange(1, j)[crate::token::strings::first_non_alpha_idx(
                            s.subrange(1, j),
                        )],
                    ),
                )
            }
        } else {
            Err(DecodeError::MissingBody)
        }
    } else if s == seq!['Y'] {
        Ok("L\" B$ L# B$ v\" B$ v# v# L# B$ v\" B$ v# v#"@)
    } else {
        Ok(s)
    }
}

/// The position of the last double quote at index 1 or beyond.
pub open spec fn last_quote(s: Seq<char>) -> int {
    choose|j: int| 1 <= j < s.len() && s[j] == '"' && (forall|k: int| j < k < s.len() ==> s[k] != '"')
}

/// Parses one mnemonic into its wire spelling.
pub fn parse_mnemonic(mn: &str) -> (r: Result<String, DecodeError>)
    ensures
        match r {
            Ok(out) => spec_parse_mnemonic(mn@) == Ok::<Seq<char>, DecodeError>(out@),
            Err(e) => spec_parse_mnemonic(mn@) == Err::<Seq<char>, DecodeError>(e),
        },
{
    let n = mn.unicode_len();
    let mut all_digits = n > 0;
    for i in 0..n
        invariant
            n == mn@.len(),
            all_digits ==> n > 0 && forall|j: int| 0 <= j < i ==> is_digit_char(#[trigger] mn@[j]),
            !all_digits ==> n == 0 || exists|j: int|
                0 <= j < n && !is_digit_char(#[trigger] mn@[j]),
    {
        let code: u32 = mn.get_char(i) as u32;
        if code < 48 || code > 57 {
            proof {
                assert(!is_digit_char(mn@[i as int]));
            }
            all_digits = false;
        }
    }
    if all_digits {
        // Fold the decimal digits into an arbitrary-precision value, then
        // spell it in base 94.
        let ten = big_from_u64(10);
        let mut acc = big_from_u64(0);
        for i in 0..n
            invariant
                n == mn@.len(),
                forall|j: int| 0 <= j < n ==> is_digit_char(#[trigger] mn@[j]),
                big_value(acc) == decimal_val(mn@.take(i as int)),
                big_value(acc) >= 0,
                big_value(ten) == 10,
        {
            let c = mn.get_char(i);
            let code: u32 = c as u32;
            proof {
                assert(c == mn@[i as int]);
                assert(is_digit_char(mn@[i as int]));
                assert(48 <= code <= 57);
                assert(mn@.take(i + 1).drop_last() =~= mn@.take(i as int));
                assert(mn@.take(i + 1).last() == mn@[i as int]);
                assert(decimal_val(mn@.take(i + 1)) == decimal_val(mn@.take(i as int)) * 10 + (
                (mn@[i as int] as u32) - 48));
            }
            acc = big_add(&big_mul(&acc, &ten), &big_from_u64((code - 48) as u64));
        }
        proof {
            assert(mn@.take(n as int) =~= mn@);
        }
        let digits = match crate::token::integers::encode(acc) {
            Ok(d) => d,
            Err(_) => {
                return vstd::pervasive::unreached();
            },
        };
        let mut out = String::from_str("I");
        out.append(digits.as_str());
        proof {
            reveal_strlit("I");
            assert(out@ =~= spec_parse_mnemonic(mn@)->Ok_0);
        }
        return Ok(out);
    }
    if n > 0 && mn.get_char(0) == '"' {
        // Find the closing quote: the last double quote after the first.
        let mut q: usize = 0;
        let mut i: usize = 1;
        while i < n
            invariant
                1 <= i <= n == mn@.len(),
                q == 0 ==> forall|k: int| 1 <= k < i ==> mn@[k] != '"',
                q != 0 ==> 1 <= q < i && mn@[q as int] == '"' && (forall|k: int|
                    q < k < i ==> mn@[k] != '"'),
            decreases n - i,
        {
            if mn.get_char(i) == '"' {
                q = i;
            }
            i = i + 1;
        }
        if q == 0 {
            proof {
                assert(!(exists|j: int| 1 <= j < mn@.len() && mn@[j] == '"'));
            }
            return Err(DecodeError::MissingBody);
        }
        proof {
            assert(exists|j: int|
                1 <= j < mn@.len() && mn@[j] == '"' && (forall|k: int|
                    j < k < mn@.len() ==> mn@[k] != '"')) by {
                assert(1 <= q < mn@.len() && mn@[q as int] == '"' && (forall|k: int|
                    q < k < mn@.len() ==> mn@[k] != '"'));
            }
            assert(last_quote(mn@) == q as int) by {
                let j = last_quote(mn@);
                assert(1 <= j < mn@.len() && mn@[j] == '"' && (forall|k: int|
                    j < k < mn@.len() ==> mn@[k] != '"'));
            }
        }
        let body = mn.substring_char(1, q);
        match crate::token::strings::encode(body) {
            Ok(w) => {
                let mut out = String::from_str("S");
                out.append(w.as_str());
                proof {
                    reveal_strlit("S");
                    assert(out@ =~= spec_parse_mnemonic(mn@)->Ok_0);
                }
                Ok(out)
            },
            Err(e) => Err(e),
        }
    } else if n == 1 && mn.get_char(0) == 'Y' {
        proof {
            assert(mn@ =~= seq!['Y']);
        }
        Ok("L\" B$ L# B$ v\" B$ v# v# L# B$ v\" B$ v# v#".to_owned())
    } else {
        proof {
            if mn@ == seq!['Y'] {
                assert(mn@.len() == 1);
                assert(mn@[0] == 'Y');
            }
        }
        Ok(mn.to_owned())
    }
}

/// Assembles a whole mnemonic text: splits on runs of ASCII whitespace and
/// parses every mnemonic.  The first failing mnemonic aborts with its
/// error.
#[verifier::rlimit(100)]
pub fn assemble(src_text: &str) -> (r: Result<Vec<String>, DecodeError>)
    ensures
        match r {
            Ok(v) => {
                let words = split_blank(src_text@);
                &&& v@.len() == words.len()
                &&& forall|i: int|
                    0 <= i < words.len() ==> spec_parse_mnemonic(#[trigger] words[i]) == Ok::<
                        Seq<char>,
                        DecodeError,
                    >(v@[i]@)
            },
            Err(e) => exists|i: int|
                {
                    &&& 0 <= i < split_blank(src_text@).len()
                    &&& spec_parse_mnemonic(#[trigger] split_blank(src_text@)[i]) == Err::<
                        Seq<char>,
                        DecodeError,
                    >(e)
                },
        },
{
    let n = src_text.unicode_len();
    let ghost words = split_blank(src_text@);
    let mut out: Vec<String> = Vec::new();
    let mut i: usize = 0;
    proof {
        assert(src_text@.skip(0) =~= src_text@);
        assert(words.skip(0) =~= words);
    }
    while i < n
        invariant
            i <= n == src_text@.len(),
            words == split_blank(src_text@),
            out@.len() <= words.len(),
            words.skip(out@.len() as int) =~= split_blank(src_text@.skip(i as int)),
            forall|p: int|
                0 <= p < out@.len() ==> spec_parse_mnemonic(#[trigger] words[p]) == Ok::<
                    Seq<char>,
                    DecodeError,
                >(out@[p]@),
        decreases n - i,
    {
        let c = src_text.get_char(i);
        if c == ' ' || c == '\t' || c == '\n' || c == '\r' || c == '\u{c}' {
            proof {
                assert(src_text@.skip(i as int)[0] == src_text@[i as int]);
                assert(src_text@.skip(i as int).skip(1) =~= src_text@.skip(i + 1));
            }
            i = i + 1;
        } else {
            let start = i;
            while i < n && non_blank_char_at(src_text, i)
                invariant
                    start <= i <= n == src_text@.len(),
                    forall|m: int| start <= m < i ==> !is_blank_char(#[trigger] src_text@[m]),
                decreases n - i,
            {
                i = i + 1;
            }
            proof {
                lemma_word_run(src_text@, start as int, i as int);
                assert(src_text@.skip(start as int).take(word_len_chars(src_text@.skip(start as int)) as int)
                    =~= src_text@.subrange(start as int, i as int));
                assert(src_text@.skip(start as int).skip(word_len_chars(src_text@.skip(start as int)) as int)
                    =~= src_text@.skip(i as int));
                assert(!is_blank_char(src_text@.skip(start as int)[0]));
            }
            let word = src_text.substring_char(start, i);
            let ghost widx = out@.len() as int;
            proof {
                assert(split_blank(src_text@.skip(start as int)) == seq![word@] + split_blank(
                    src_text@.skip(i as int),
                ));
                assert(words.skip(widx) == split_blank(src_text@.skip(start as int)));
                assert(words.skip(widx)[0] == word@);
                assert(widx < words.len());
                assert(words[widx] == words.skip(widx)[0]);
                assert(words.skip(widx + 1) =~= words.skip(widx).skip(1));
                assert(words.skip(widx + 1) =~= split_blank(src_text@.skip(i as int)));
            }
            match parse_mnemonic(word) {
                Ok(w) => {
                    out.push(w);
                },
                Err(e) => {
                    return Err(e);
                },
            }
        }
    }
    proof {
        assert(split_blank(src_text@.skip(n as int)) =~= Seq::<Seq<char>>::empty());
        assert(words.skip(out@.len() as int).len() == 0);
        assert(out@.len() == words.len());
    }
    Ok(out)
}

/// Splits a string into its blank-separated words.
pub fn split_into_words(s: &str) -> (r: Vec<String>)
    ensures
        r@.map_values(|u: String| u@) == split_blank(s@),
{
    let n = s.unicode_len();
    let mut out: Vec<String> = Vec::new();
    let mut i: usize = 0;
    proof {
        assert(s@.skip(0) =~= s@);
        assert(out@.map_values(|u: String| u@) =~= Seq::<Seq<char>>::empty());
    }
    while i < n
        invariant
            i <= n == s@.len(),
            out@.map_values(|u: String| u@) + split_blank(s@.skip(i as int)) =~= split_blank(s@),
        decreases n - i,
    {
        let c = s.get_char(i);
        if c == ' ' || c == '\t' || c == '\n' || c == '\r' || c == '\u{c}' {
            proof {
                assert(s@.skip(i as int)[0] == s@[i as int]);
                assert(s@.skip(i as int).skip(1) =~= s@.skip(i + 1));
            }
            i = i + 1;
        } else {
            let start = i;
            while i < n && non_blank_char_at(s, i)
                invariant
                    start <= i <= n == s@.len(),
                    forall|m: int| start <= m < i ==> !is_blank_char(#[trigger] s@[m]),
                decreases n - i,
            {
                i = i + 1;
            }
            proof {
                lemma_word_run(s@, start as int, i as int);
                assert(s@.skip(start as int).take(word_len_chars(s@.skip(start as int)) as int)
                    =~= s@.subrange(start as int, i as int));
                assert(s@.skip(start as int).skip(word_len_chars(s@.skip(start as int)) as int)
                    =~= s@.skip(i as int));
                assert(!is_blank_char(s@.skip(start as int)[0]));
            }
            let word = s.substring_char(start, i);
            let ghost prev = out@;
            out.push(word.to_owned());
            proof {
                assert(out@.map_values(|u: String| u@) =~= prev.map_values(|u: String| u@)
                    + seq![word@]);
            }
        }
    }
    proof {
        assert(split_blank(s@.skip(n as int)) =~= Seq::<Seq<char>>::empty());
        assert(out@.map_values(|u: String| u@) =~= split_blank(s@));
    }
    out
}

/// True when position `i` of `s` holds a non-blank character.
fn non_blank_char_at(s: &str, i: usize) -> (r: bool)
    requires
        i < s@.len(),
    ensures
        r == !is_blank_char(s@[i as int]),
{
    let c = s.get_char(i);
    !(c == ' ' || c == '\t' || c == '\n' || c == '\r' || c == '\u{c}')
}

/// A run of non-blank characters ending at the string's end or at a blank
/// is exactly the leading word.
proof fn lemma_word_run(s: Seq<char>, start: int, end: int)
    requires
        0 <= start <= end <= s.len(),
        forall|m: int| start <= m < end ==> !is_blank_char(#[trigger] s[m]),
        end == s.len() || is_blank_char(s[end]),
    ensures
        word_len_chars(s.skip(start)) == end - start,
    decreases end - start,
{
    if start == end {
        if start < s.len() {
            assert(s.skip(start)[0] == s[start]);
        }
    } else {
        assert(s.skip(start)[0] == s[start]);
        assert(s.skip(start).skip(1) =~= s.skip(start + 1));
        lemma_word_run(s, start + 1, end);
    }
}

} // verus!
