//! String-compression planner.
//!
//! A plain-text command payload can often be sent shorter than as one
//! string literal: when its trailing word is drawn from a small alphabet
//! (maze directions) or consists of decimal digits (coordinate lists), a
//! small self-applying combinator program that reconstructs the word from a
//! packed integer may have a shorter wire form.  The planner builds a fixed
//! set of such candidates, measures each one's wire length, and returns the
//! shortest; the naive literal is always among the candidates, so the
//! result never encodes longer than it, and a candidate can be selected
//! only after it has been checked to encode, parse, and evaluate back to
//! exactly the payload.

use vstd::prelude::*;

use crate::ast::{spec_eval, spec_from_tokens, Expr, ExprModel, Value, ValueModel};
use crate::bignum::{big_add, big_from_u64, big_from_usize, big_mul, big_value};
use crate::errors::{DecodeError, EvalError};
use crate::token::strings::all_in_alphabet;
use crate::token::{
    encode, spec_encode_stream_ok, spec_joined, BinaryOp, Token, TokenModel, UnaryOp,
};

verus! {

fn tok_ap() -> Token {
    Token::BinaryOp(BinaryOp::Apply)
}

fn tok_cat() -> Token {
    Token::BinaryOp(BinaryOp::Concat)
}

fn tok_lam(i: u64) -> Token {
    Token::Lambda(big_from_u64(i))
}

fn tok_var(i: u64) -> Token {
    Token::Variable(big_from_u64(i))
}

fn tok_int(i: u64) -> Token {
    Token::Integer(big_from_u64(i))
}

/// The shared self-application prelude of the combinator candidates: a
/// fixed-point combinator spelled with binder ids `a` and `b`.
fn push_fix(out: &mut Vec<Token>, a: u64, b: u64) {
    out.push(tok_ap());
    out.push(tok_ap());
    out.push(tok_lam(a));
    out.push(tok_ap());
    out.push(tok_lam(b));
    out.push(tok_ap());
    out.push(tok_var(a));
    out.push(tok_ap());
    out.push(tok_var(b));
    out.push(tok_var(b));
    out.push(tok_lam(b));
    out.push(tok_ap());
    out.push(tok_var(a));
    out.push(tok_ap());
    out.push(tok_var(b));
    out.push(tok_var(b));
}

/// The index of `c` in `order`, if present.
fn position_of(order: &Vec<char>, c: char) -> (r: Option<usize>)
    ensures
        r matches Some(i) ==> i < order@.len(),
{
    let n = order.len();
    for i in 0..n
        invariant
            n == order@.len(),
    {
        if order[i] == c {
            return Some(i);
        }
    }
    None
}

/// One character of a string, materialized as a one-character string.
fn one_char_string(c: char) -> (r: String) {
    let mut v: Vec<u8> = Vec::new();
    let code: u32 = c as u32;
    if code < 128 {
        v.push(code as u8);
        crate::ascii::string_from_ascii(v)
    } else {
        String::new()
    }
}

/// The `If`/`Equal` chain that maps each digit `0..order.len()-1` back to
/// its symbol: digit `i` tests `v4 % k == i`, the last symbol needing no
/// test.
fn push_symbol_table(out: &mut Vec<Token>, order: &Vec<char>) {
    let k = order.len();
    if k == 0 {
        return ;
    }
    for i in 0..k - 1
        invariant
            k == order@.len(),
            k >= 1,
    {
        out.push(Token::If);
        out.push(Token::BinaryOp(BinaryOp::Equal));
        out.push(Token::BinaryOp(BinaryOp::Mod));
        out.push(tok_var(4));
        out.push(Token::Integer(big_from_usize(k)));
        out.push(Token::Integer(big_from_usize(i)));
        out.push(Token::String(one_char_string(order[i])));
    }
    out.push(Token::String(one_char_string(order[k - 1])));
}

/// The trailing word packed as one base-`order.len()` integer, most
/// significant symbol first.  `None` when a symbol is missing from `order`.
fn word_value_direct(word: &Vec<char>, order: &Vec<char>) -> (r: Option<num_bigint::BigInt>) {
    let k = big_from_usize(order.len());
    let mut acc = big_from_u64(0);
    let n = word.len();
    for i in 0..n
        invariant
            n == word@.len(),
    {
        let pos = match position_of(order, word[i]) {
            Some(p) => p,
            None => {
                return None;
            },
        };
        acc = big_add(&big_mul(&acc, &k), &big_from_usize(pos));
    }
    Some(acc)
}

/// The trailing word packed with run-length grouping: each packed digit
/// holds a symbol and a repeat count in `1..=cap`.  `None` when a symbol is
/// missing from `order`.
fn word_value_rle(word: &Vec<char>, order: &Vec<char>, cap: usize) -> (r: Option<
    num_bigint::BigInt,
>)
    requires
        cap >= 1,
{
    let k = order.len();
    let base = big_mul(&big_from_usize(k), &big_from_usize(cap));
    let mut acc = big_from_u64(0);
    let n = word.len();
    let mut i: usize = 0;
    while i < n
        invariant
            n == word@.len(),
            cap >= 1,
        decreases n - i,
    {
        let c = word[i];
        let mut j = i + 1;
        while j < n && word[j] == c
            invariant
                i < j <= n == word@.len(),
            decreases n - j,
        {
            j = j + 1;
        }
        let pos = match position_of(order, c) {
            Some(p) => p,
            None => {
                return None;
            },
        };
        let mut remain = j - i;
        while remain > 0
            invariant
                cap >= 1,
                pos < order@.len(),
            decreases remain,
        {
            let step = if remain < cap {
                remain
            } else {
                cap
            };
            let packed = big_add(
                &big_mul(&big_from_usize(step - 1), &big_from_usize(k)),
                &big_from_usize(pos),
            );
            acc = big_add(&big_mul(&acc, &base), &packed);
            remain = remain - step;
        }
        i = j;
    }
    Some(acc)
}

/// The distinct run lengths of the word, each tried as a run-length cap.
fn run_lengths(word: &Vec<char>) -> (r: Vec<usize>)
    ensures
        forall|i: int| 0 <= i < r@.len() ==> #[trigger] r@[i] >= 1,
{
    let mut out: Vec<usize> = Vec::new();
    let n = word.len();
    let mut i: usize = 0;
    while i < n
        invariant
            i <= n == word@.len(),
            forall|p: int| 0 <= p < out@.len() ==> #[trigger] out@[p] >= 1,
        decreases n - i,
    {
        let c = word[i];
        let mut j = i + 1;
        while j < n && word[j] == c
            invariant
                i < j <= n == word@.len(),
            decreases n - j,
        {
            j = j + 1;
        }
        let len = j - i;
        let mut seen = false;
        let m = out.len();
        for p in 0..m
            invariant
                m == out@.len(),
                forall|q: int| 0 <= q < out@.len() ==> #[trigger] out@[q] >= 1,
        {
            if out[p] == len {
                seen = true;
            }
        }
        if !seen {
            out.push(len);
        }
        i = j;
    }
    out
}

/// The decimal value of a run of digit characters; `None` on a non-digit.
fn decimal_value(chars: &Vec<char>, start: usize, end: usize) -> (r: Option<num_bigint::BigInt>)
    requires
        start <= end <= chars@.len(),
{
    let ten = big_from_u64(10);
    let mut acc = big_from_u64(0);
    let mut i = start;
    while i < end
        invariant
            start <= i <= end <= chars@.len(),
        decreases end - i,
    {
        let code: u32 = chars[i] as u32;
        if code < 48 || code > 57 {
            return None;
        }
        acc = big_add(&big_mul(&acc, &ten), &big_from_u64((code - 48) as u64));
        i = i + 1;
    }
    Some(acc)
}

/// A maze-direction candidate: the prefix as a literal, then a combinator
/// that peels base-`order.len()` digits off a packed integer and maps each
/// to its symbol.
fn build_direct(prefix: String, word: &Vec<char>, order: &Vec<char>) -> (r: Option<Vec<Token>>) {
    let value = match word_value_direct(word, order) {
        Some(v) => v,
        None => {
            return None;
        },
    };
    let mut out: Vec<Token> = Vec::new();
    out.push(tok_cat());
    out.push(Token::String(prefix));
    push_fix(&mut out, 1, 2);
    out.push(tok_lam(3));
    out.push(tok_lam(4));
    out.push(Token::If);
    out.push(Token::BinaryOp(BinaryOp::Equal));
    out.push(tok_var(4));
    out.push(tok_int(0));
    out.push(Token::String(String::new()));
    out.push(tok_cat());
    out.push(tok_ap());
    out.push(tok_var(3));
    out.push(Token::BinaryOp(BinaryOp::Div));
    out.push(tok_var(4));
    out.push(Token::Integer(big_from_usize(order.len())));
    push_symbol_table(&mut out, order);
    out.push(Token::Integer(value));
    Some(out)
}

/// A maze-direction candidate with run-length grouping: each packed digit
/// carries a symbol and a repeat count in `1..=cap`.
fn build_rle(prefix: String, word: &Vec<char>, order: &Vec<char>, cap: usize) -> (r: Option<
    Vec<Token>,
>)
    requires
        cap >= 1,
{
    let value = match word_value_rle(word, order, cap) {
        Some(v) => v,
        None => {
            return None;
        },
    };
    let mut out: Vec<Token> = Vec::new();
    out.push(tok_cat());
    out.push(Token::String(prefix));
    push_fix(&mut out, 1, 2);
    out.push(tok_lam(3));
    out.push(tok_lam(4));
    out.push(Token::If);
    out.push(Token::BinaryOp(BinaryOp::Equal));
    out.push(tok_var(4));
    out.push(tok_int(0));
    out.push(Token::String(String::new()));
    out.push(tok_cat());
    out.push(tok_ap());
    out.push(tok_var(3));
    out.push(Token::BinaryOp(BinaryOp::Div));
    out.push(tok_var(4));
    out.push(Token::Integer(big_mul(&big_from_usize(order.len()), &big_from_usize(cap))));
    out.push(tok_ap());
    out.push(tok_lam(9));
    push_fix(&mut out, 5, 6);
    out.push(tok_lam(7));
    out.push(tok_lam(8));
    out.push(Token::If);
    out.push(Token::BinaryOp(BinaryOp::Equal));
    out.push(tok_var(8));
    out.push(tok_int(0));
    out.push(tok_var(9));
    out.push(tok_cat());
    out.push(tok_var(9));
    out.push(tok_ap());
    out.push(tok_var(7));
    out.push(Token::BinaryOp(BinaryOp::Sub));
    out.push(tok_var(8));
    out.push(tok_int(1));
    out.push(Token::BinaryOp(BinaryOp::Mod));
    out.push(Token::BinaryOp(BinaryOp::Div));
    out.push(tok_var(4));
    out.push(Token::Integer(big_from_usize(order.len())));
    out.push(Token::Integer(big_from_usize(cap)));
    push_symbol_table(&mut out, order);
    out.push(Token::Integer(value));
    Some(out)
}

/// A digit-run candidate over the whole payload: long decimal runs become
/// packed integers rendered back with a digit-peeling combinator, short
/// stretches stay literal, all joined by `Concat`.
fn build_digit_chunks(chars: &Vec<char>, s: &str) -> (r: Option<Vec<Token>>)
    requires
        chars@.len() == s@.len(),
{
    let n = chars.len();
    if n == 0 {
        return None;
    }
    // Mark maximal decimal runs; a run cannot start with '0'.
    let mut mark: Vec<bool> = Vec::new();
    for i in 0..n
        invariant
            n == chars@.len(),
            mark@.len() == i,
    {
        let code: u32 = chars[i] as u32;
        let is_digit = 48 <= code && code <= 57;
        let prev = if i > 0 {
            mark[i - 1]
        } else {
            false
        };
        mark.push(is_digit && (prev || code != 48));
    }
    // Keep a run packed only when it repays the combinator's overhead; a
    // run touching either end of the payload saves a separator and gets an
    // eight-digit bonus.
    let mut flags: Vec<bool> = Vec::new();
    let mut starts: Vec<usize> = Vec::new();
    let mut ends: Vec<usize> = Vec::new();
    let mut i: usize = 0;
    while i < n
        invariant
            n == chars@.len() == mark@.len(),
            i <= n,
            starts@.len() == ends@.len() == flags@.len(),
        decreases n - i,
    {
        let m = mark[i];
        let mut j = i + 1;
        while j < n && mark[j] == m
            invariant
                i < j <= n == mark@.len(),
            decreases n - j,
        {
            j = j + 1;
        }
        let mut threshold: usize = 27;
        if i == 0 {
            threshold = threshold - 8;
        }
        if j == n {
            threshold = threshold - 8;
        }
        flags.push(m && j - i >= threshold);
        starts.push(i);
        ends.push(j);
        i = j;
    }
    // Merge neighbours that ended up with the same flag.
    let g = flags.len();
    let mut m_flags: Vec<bool> = Vec::new();
    let mut m_starts: Vec<usize> = Vec::new();
    let mut m_ends: Vec<usize> = Vec::new();
    for p in 0..g
        invariant
            g == flags@.len() == starts@.len() == ends@.len(),
            m_flags@.len() == m_starts@.len() == m_ends@.len(),
    {
        let f = flags[p];
        let last = m_flags.len();
        if last > 0 && m_flags[last - 1] == f {
            let e1 = ends[p];
            let _ = m_ends.pop();
            m_ends.push(e1);
        } else {
            m_flags.push(f);
            m_starts.push(starts[p]);
            m_ends.push(ends[p]);
        }
    }
    // Emit the groups, joined by `Concat`; the last group needs none.
    let mut out: Vec<Token> = Vec::new();
    let total = m_flags.len();
    for p in 0..total
        invariant
            total == m_flags@.len() == m_starts@.len() == m_ends@.len(),
            n == chars@.len() == s@.len(),
    {
        let is_last = p == total - 1;
        let a = m_starts[p];
        let b = m_ends[p];
        if a > b || b > n {
            return None;
        }
        if m_flags[p] {
            let value = match decimal_value(chars, a, b) {
                Some(v) => v,
                None => {
                    return None;
                },
            };
            if !is_last {
                out.push(tok_cat());
            }
            out.push(Token::UnaryOp(UnaryOp::ToString));
            push_fix(&mut out, 1, 2);
            out.push(tok_lam(3));
            out.push(tok_lam(4));
            out.push(Token::If);
            out.push(Token::BinaryOp(BinaryOp::Equal));
            out.push(tok_var(4));
            out.push(tok_int(0));
            out.push(tok_int(0));
            out.push(Token::BinaryOp(BinaryOp::Add));
            out.push(Token::BinaryOp(BinaryOp::Add));
            out.push(Token::BinaryOp(BinaryOp::Mod));
            out.push(tok_var(4));
            out.push(tok_int(10));
            out.push(tok_int(52));
            out.push(Token::BinaryOp(BinaryOp::Mul));
            out.push(tok_ap());
            out.push(tok_var(3));
            out.push(Token::BinaryOp(BinaryOp::Div));
            out.push(tok_var(4));
            out.push(tok_int(10));
            out.push(tok_int(94));
            out.push(Token::Integer(value));
        } else {
            if !is_last {
                out.push(tok_cat());
            }
            out.push(Token::String(s.substring_char(a, b).to_owned()));
        }
    }
    Some(out)
}

/// A digit-word candidate: the whole trailing word packed with run-length
/// grouping over base 10000, each packed digit carrying a decimal digit and
/// a repeat count in `1..=1000`.
fn build_digit_rle(prefix: String, word: &Vec<char>) -> (r: Option<Vec<Token>>) {
    let ten_thousand = big_from_u64(10000);
    let mut acc = big_from_u64(0);
    let n = word.len();
    let mut i: usize = 0;
    while i < n
        invariant
            n == word@.len(),
        decreases n - i,
    {
        let c = word[i];
        let code: u32 = c as u32;
        if code < 48 || code > 57 {
            return None;
        }
        let mut j = i + 1;
        while j < n && word[j] == c
            invariant
                i < j <= n == word@.len(),
            decreases n - j,
        {
            j = j + 1;
        }
        let mut remain = j - i;
        while remain > 0
            invariant
                48 <= code <= 57,
            decreases remain,
        {
            let step: usize = if remain < 1000 {
                remain
            } else {
                1000
            };
            let packed = big_from_u64(((step - 1) * 10) as u64 + (code - 48) as u64);
            acc = big_add(&big_mul(&acc, &ten_thousand), &packed);
            remain = remain - step;
        }
        i = j;
    }
    let mut out: Vec<Token> = Vec::new();
    out.push(tok_cat());
    out.push(Token::String(prefix));
    push_fix(&mut out, 1, 2);
    out.push(tok_lam(3));
    out.push(tok_lam(4));
    out.push(Token::If);
    out.push(Token::BinaryOp(BinaryOp::Equal));
    out.push(tok_var(4));
    out.push(tok_int(0));
    out.push(Token::String(String::new()));
    out.push(tok_cat());
    out.push(tok_ap());
    out.push(tok_var(3));
    out.push(Token::BinaryOp(BinaryOp::Div));
    out.push(tok_var(4));
    out.push(tok_int(10000));
    out.push(tok_ap());
    out.push(tok_lam(9));
    push_fix(&mut out, 5, 6);
    out.push(tok_lam(7));
    out.push(tok_lam(8));
    out.push(Token::If);
    out.push(Token::BinaryOp(BinaryOp::Equal));
    out.push(tok_var(8));
    out.push(tok_int(0));
    out.push(tok_var(9));
    out.push(tok_cat());
    out.push(tok_var(9));
    out.push(tok_ap());
    out.push(tok_var(7));
    out.push(Token::BinaryOp(BinaryOp::Sub));
    out.push(tok_var(8));
    out.push(tok_int(1));
    out.push(Token::BinaryOp(BinaryOp::Mod));
    out.push(Token::BinaryOp(BinaryOp::Div));
    out.push(tok_var(4));
    out.push(tok_int(10));
    out.push(tok_int(1000));
    out.push(Token::UnaryOp(UnaryOp::ToString));
    out.push(Token::BinaryOp(BinaryOp::Add));
    out.push(Token::BinaryOp(BinaryOp::Mod));
    out.push(tok_var(4));
    out.push(tok_int(10));
    out.push(tok_int(52));
    out.push(Token::Integer(acc));
    Some(out)
}

/// What a chosen plan must satisfy for payload `p`: every token encodes,
/// and the token program parses and evaluates back to exactly `p` under
/// some application bound.
pub open spec fn plan_ok(ts: Seq<TokenModel>, p: Seq<char>) -> bool {
    &&& spec_encode_stream_ok(ts)
    &&& spec_from_tokens(ts) is Ok
    &&& exists|fuel: nat|
        spec_eval(spec_from_tokens(ts)->Ok_0, fuel) == Ok::<ValueModel, EvalError>(
            ValueModel::String(p),
        )
}

/// The evaluation budget for checking a candidate: orders of magnitude
/// beyond what the digit-peeling combinators spend on any payload that
/// fits in memory.
const CHECK_FUEL: u64 = 100000000;

/// True only when the candidate parses and evaluates back to exactly the
/// payload within the checking budget.
fn evaluates_to_payload(cand: &Vec<Token>, payload: &str) -> (r: bool)
    ensures
        r ==> ({
            let ts = cand@.map_values(|t: Token| t@);
            &&& spec_from_tokens(ts) is Ok
            &&& exists|fuel: nat|
                spec_eval(spec_from_tokens(ts)->Ok_0, fuel) == Ok::<ValueModel, EvalError>(
                    ValueModel::String(payload@),
                )
        }),
{
    match Expr::from_tokens(cand.as_slice()) {
        Ok(e) => match e.eval(CHECK_FUEL) {
            Ok(Value::String(out)) => {
                let expected = String::from_str(payload);
                let same = out.eq(&expected);
                proof {
                    if same {
                        let ts = cand@.map_values(|t: Token| t@);
                        assert(spec_eval(spec_from_tokens(ts)->Ok_0, CHECK_FUEL as nat) == Ok::<
                            ValueModel,
                            EvalError,
                        >(ValueModel::String(payload@)));
                    }
                }
                same
            },
            _ => false,
        },
        Err(_) => false,
    }
}

/// The wire length of a candidate, when every one of its tokens encodes.
fn measure(cand: &Vec<Token>) -> (r: Option<usize>)
    ensures
        ({
            let ts = cand@.map_values(|t: Token| t@);
            match r {
                Some(len) => spec_encode_stream_ok(ts) && len == spec_joined(ts).len(),
                None => !spec_encode_stream_ok(ts),
            }
        }),
{
    match encode(cand.as_slice()) {
        Ok(w) => {
            let len = w.as_str().unicode_len();
            proof {
                let ts = cand@.map_values(|t: Token| t@);
                assert(w@.len() == spec_joined(ts).len());
            }
            Some(len)
        },
        Err(e) => {
            proof {
                let ts = cand@.map_values(|t: Token| t@);
                let i = choose|i: int| crate::token::first_encode_failure(ts, i, e);
                assert(crate::token::spec_encode_token(ts[i]) is Err);
            }
            None
        },
    }
}

/// Picks the shorter of the current best and a freshly built candidate.
/// A candidate is adoptable only when it encodes and its token program
/// evaluates back to exactly the payload; it replaces the best only when
/// strictly shorter, so a tie keeps the earlier candidate.
fn pick_shorter(best: Vec<Token>, best_len: usize, cand: Option<Vec<Token>>, payload: &str) -> (r:
    (Vec<Token>, usize))
    requires
        ({
            let ts = best@.map_values(|t: Token| t@);
            plan_ok(ts, payload@) && best_len == spec_joined(ts).len()
        }),
    ensures
        ({
            let ts = r.0@.map_values(|t: Token| t@);
            &&& plan_ok(ts, payload@)
            &&& r.1 == spec_joined(ts).len()
            &&& r.1 <= best_len
        }),
{
    match cand {
        Some(c) => match measure(&c) {
            Some(len) => if len < best_len && evaluates_to_payload(&c, payload) {
                (c, len)
            } else {
                (best, best_len)
            },
            None => (best, best_len),
        },
        None => (best, best_len),
    }
}

/// True when the character is one of the four maze directions.
fn is_direction(c: char) -> bool {
    c == 'D' || c == 'L' || c == 'R' || c == 'U'
}

/// True when position `i` of `s` holds a character that is not blank.
fn non_blank_at(s: &str, i: usize) -> (r: bool)
    requires
        i < s@.len(),
{
    let c = s.get_char(i);
    !(c == ' ' || c == '\n' || c == '\t' || c == '\r')
}

/// Plans the shortest wire form for a plain-text payload.  The naive
/// string-literal encoding is the baseline; combinator candidates are tried
/// when the payload's trailing word is all maze directions or all decimal
/// digits.  The chosen tokens always encode, parse, and evaluate back to
/// exactly the payload — a candidate is adopted only after that check — and
/// their wire form is never longer than the naive literal's.  Fails exactly
/// when the payload itself cannot be carried as a string literal.
///
/// The candidate set is the fixed heuristic collection built below, so the
/// contract states the baseline length bound rather than pointwise
/// minimality over that internal set; a later candidate replaces the
/// chosen one only when strictly shorter, so ties keep the earlier one.
pub fn encode_string(s: &str) -> (r: Result<Vec<Token>, DecodeError>)
    ensures
        match r {
            Ok(cand) => {
                let ts = cand@.map_values(|t: Token| t@);
                let naive = seq![TokenModel::String(s@)];
                &&& plan_ok(ts, s@)
                &&& spec_joined(ts).len() <= spec_joined(naive).len()
            },
            Err(e) => !all_in_alphabet(s@) && crate::token::spec_encode_token(
                TokenModel::String(s@),
            ) == Err::<Seq<u8>, DecodeError>(e),
        },
{
    let mut naive: Vec<Token> = Vec::new();
    naive.push(Token::String(s.to_owned()));
    let ghost naive_ts = seq![TokenModel::String(s@)];
    proof {
        assert(naive@.map_values(|t: Token| t@) =~= naive_ts);
    }
    let naive_len = match encode(naive.as_slice()) {
        Ok(w) => {
            proof {
                assert(w@.len() == spec_joined(naive_ts).len());
            }
            w.as_str().unicode_len()
        },
        Err(e) => {
            proof {
                let i = choose|i: int| crate::token::first_encode_failure(naive_ts, i, e);
                assert(i == 0);
                assert(crate::token::spec_encode_token(naive_ts[0]) == Err::<
                    Seq<u8>,
                    DecodeError,
                >(e));
            }
            return Err(e);
        },
    };
    proof {
        assert(spec_encode_stream_ok(naive_ts)) by {
            assert(forall|i: int|
                0 <= i < naive_ts.len() ==> i == 0 && crate::token::spec_encode_token(
                    #[trigger] naive_ts[i],
                ) is Ok);
        }
    }
    proof {
        // The literal candidate itself parses to a string literal and
        // evaluates to the payload at once.
        assert(naive_ts.skip(1) =~= Seq::<TokenModel>::empty());
        assert(crate::ast::spec_build_stack(naive_ts.skip(1)) == Ok::<
            Seq<ExprModel>,
            crate::errors::ParseError,
        >(Seq::empty()));
        assert(crate::ast::spec_build_stack(naive_ts) == crate::ast::spec_build_step(
            naive_ts[0],
            Seq::empty(),
        ));
        assert(crate::ast::spec_build_stack(naive_ts) == Ok::<
            Seq<ExprModel>,
            crate::errors::ParseError,
        >(Seq::empty().push(ExprModel::Literal(ValueModel::String(s@)))));
        assert(spec_from_tokens(naive_ts) == Ok::<ExprModel, crate::errors::ParseError>(
            ExprModel::Literal(ValueModel::String(s@)),
        ));
        assert(spec_eval(ExprModel::Literal(ValueModel::String(s@)), 0) == Ok::<
            ValueModel,
            EvalError,
        >(ValueModel::String(s@)));
        assert(plan_ok(naive_ts, s@));
    }
    let mut best = naive;
    let mut best_len = naive_len;

    // The trailing word: the run of non-blank characters that ends the
    // payload.  Candidates are only built when the payload really ends with
    // it, as they reassemble the payload as prefix plus word.
    let n = s.unicode_len();
    let mut wstart = n;
    while wstart > 0 && non_blank_at(s, wstart - 1)
        invariant
            wstart <= n == s@.len(),
        decreases wstart,
    {
        wstart = wstart - 1;
    }
    if wstart == n {
        // No trailing word at all: the naive literal stands.
        return Ok(best);
    }
    let mut word: Vec<char> = Vec::new();
    let mut i = wstart;
    while i < n
        invariant
            wstart <= i <= n == s@.len(),
            word@.len() == i - wstart,
        decreases n - i,
    {
        word.push(s.get_char(i));
        i = i + 1;
    }
    let prefix = s.substring_char(0, wstart).to_owned();

    let mut all_dirs = true;
    let mut all_digits = true;
    let wlen = word.len();
    for p in 0..wlen
        invariant
            wlen == word@.len(),
    {
        let c = word[p];
        if !is_direction(c) {
            all_dirs = false;
        }
        let code: u32 = c as u32;
        if code < 48 || code > 57 {
            all_digits = false;
        }
    }

    if all_dirs && wlen > 0 {
        // Distinct symbols; the word's first symbol is rotated to the end
        // so that packed digit 0, the terminator, never names it.
        let first = word[0];
        let mut order: Vec<char> = Vec::new();
        for p in 0..wlen
            invariant
                wlen == word@.len(),
        {
            let c = word[p];
            if c != first {
                let dup = match position_of(&order, c) {
                    Some(_) => true,
                    None => false,
                };
                if !dup {
                    order.push(c);
                }
            }
        }
        order.push(first);
        if order.len() == 1 {
            order.insert(0, ' ');
        }
        let picked = pick_shorter(
            best,
            best_len,
            build_direct(prefix.clone(), &word, &order),
            s,
        );
        best = picked.0;
        best_len = picked.1;
        let caps = run_lengths(&word);
        let ncaps = caps.len();
        for q in 0..ncaps
            invariant
                ncaps == caps@.len(),
                forall|z: int| 0 <= z < caps@.len() ==> #[trigger] caps@[z] >= 1,
                ({
                    let ts = best@.map_values(|t: Token| t@);
                    &&& plan_ok(ts, s@)
                    &&& best_len == spec_joined(ts).len()
                    &&& best_len <= naive_len
                }),
                naive_len == spec_joined(naive_ts).len(),
                naive_ts == seq![TokenModel::String(s@)],
        {
            let picked2 = pick_shorter(
                best,
                best_len,
                build_rle(prefix.clone(), &word, &order, caps[q]),
                s,
            );
            best = picked2.0;
            best_len = picked2.1;
        }
    }

    if all_digits && wlen > 0 {
        let mut chars: Vec<char> = Vec::new();
        let mut t: usize = 0;
        while t < n
            invariant
                t <= n == s@.len(),
                chars@.len() == t,
            decreases n - t,
        {
            chars.push(s.get_char(t));
            t = t + 1;
        }
        let picked3 = pick_shorter(best, best_len, build_digit_chunks(&chars, s), s);
        best = picked3.0;
        best_len = picked3.1;
        let picked4 = pick_shorter(best, best_len, build_digit_rle(prefix, &word), s);
        best = picked4.0;
        best_len = picked4.1;
    }
    Ok(best)
}

} // verus!
