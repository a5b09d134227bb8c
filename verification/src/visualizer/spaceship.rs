//! The spaceship puzzle: parsing a target list, parsing a thrust list, and
//! scoring a flight.
//!
//! Each input line holds two integers, a target square.  A solution is a
//! string of digits `1`..`9`, each naming one of the nine acceleration
//! vectors; the ship starts at the origin at rest, accelerates, then moves.
//! The score is the number of moves, zero if targets remain unvisited.

use vstd::prelude::*;

use crate::assemble::{decimal_val, is_digit_char, split_blank};

verus! {

/// Replaces the larger of two values, reporting whether it changed; the
/// dual for the smaller.
pub trait SetMinMax: Sized {
    /// Lowers `self` to `v` when `v` is smaller.
    fn setmin(&mut self, v: Self) -> bool;

    /// Raises `self` to `v` when `v` is larger.
    fn setmax(&mut self, v: Self) -> bool;
}

impl SetMinMax for i32 {
    fn setmin(&mut self, v: i32) -> (r: bool)
        ensures
            *final(self) == if *old(self) > v {
                v
            } else {
                *old(self)
            },
            r == (*old(self) > v),
    {
        if *self > v {
            *self = v;
            true
        } else {
            false
        }
    }

    fn setmax(&mut self, v: i32) -> (r: bool)
        ensures
            *final(self) == if *old(self) < v {
                v
            } else {
                *old(self)
            },
            r == (*old(self) < v),
    {
        if *self < v {
            *self = v;
            true
        } else {
            false
        }
    }
}

/// The parsed targets, with their bounding box (including the origin).
#[derive(Debug)]
pub struct Input {
    pub target: Vec<(i32, i32)>,
    pub min_x: i32,
    pub max_x: i32,
    pub min_y: i32,
    pub max_y: i32,
}

/// A parsed thrust list, each entry an acceleration index `0..9`.
#[derive(Debug)]
pub struct Output {
    pub moves: Vec<u8>,
}

/// The digits of a signed numeral: everything after an optional sign.
pub open spec fn numeral_body(s: Seq<char>) -> Seq<char> {
    if s.len() > 0 && (s[0] == '-' || s[0] == '+') {
        s.skip(1)
    } else {
        s
    }
}

/// True when every character is a decimal digit.
pub open spec fn all_digits(s: Seq<char>) -> bool {
    forall|i: int| 0 <= i < s.len() ==> is_digit_char(#[trigger] s[i])
}

/// One non-digit refutes `all_digits`.
proof fn lemma_not_all_digits(s: Seq<char>, k: int)
    requires
        0 <= k < s.len(),
        !is_digit_char(s[k]),
    ensures
        !all_digits(s),
{
}

/// The integer a decimal numeral with an optional sign denotes, if it fits
/// an `i32`.
pub open spec fn spec_parse_i32(s: Seq<char>) -> Option<int> {
    if numeral_body(s).len() >= 1 && all_digits(numeral_body(s)) {
        let v = if s.len() > 0 && s[0] == '-' {
            -decimal_val(numeral_body(s))
        } else {
            decimal_val(numeral_body(s))
        };
        if i32::MIN <= v <= i32::MAX {
            Some(v)
        } else {
            None
        }
    } else {
        None
    }
}

/// The target square a line denotes: its first two blank-separated words
/// must both be integers; anything else contributes nothing.
pub open spec fn spec_parse_pair(line: Seq<char>) -> Option<(int, int)> {
    let words = split_blank(line);
    if words.len() >= 2 {
        match (spec_parse_i32(words[0]), spec_parse_i32(words[1])) {
            (Some(x), Some(y)) => Some((x, y)),
            _ => None,
        }
    } else {
        None
    }
}

/// The distinct target squares of the parsed lines, in order of first
/// appearance.
pub open spec fn spec_targets(lines: Seq<Seq<char>>) -> Seq<(int, int)>
    decreases lines.len(),
{
    if lines.len() == 0 {
        Seq::empty()
    } else {
        let rest = spec_targets(lines.drop_last());
        match spec_parse_pair(lines.last()) {
            Some(p) => if rest.contains(p) {
                rest
            } else {
                rest.push(p)
            },
            None => rest,
        }
    }
}

/// A decimal numeral grows (weakly) with its digits.
proof fn lemma_decimal_val_mono(s: Seq<char>, i: int, j: int)
    requires
        0 <= i <= j <= s.len(),
        forall|k: int| 0 <= k < s.len() ==> is_digit_char(#[trigger] s[k]),
    ensures
        0 <= decimal_val(s.take(i)) <= decimal_val(s.take(j)),
    decreases j - i,
{
    if i == j {
        lemma_decimal_nonneg(s.take(i));
    } else {
        lemma_decimal_val_mono(s, i, j - 1);
        assert(s.take(j).drop_last() =~= s.take(j - 1));
        assert(is_digit_char(s.take(j).last()));
    }
}

/// A digit numeral is non-negative.
proof fn lemma_decimal_nonneg(s: Seq<char>)
    requires
        forall|k: int| 0 <= k < s.len() ==> is_digit_char(#[trigger] s[k]),
    ensures
        decimal_val(s) >= 0,
    decreases s.len(),
{
    if s.len() > 0 {
        assert(forall|k: int|
            0 <= k < s.drop_last().len() ==> is_digit_char(#[trigger] s.drop_last()[k]));
        lemma_decimal_nonneg(s.drop_last());
    }
}

/// Parses one word as an `i32`.
fn parse_i32(w: &str) -> (r: Option<i32>)
    ensures
        match r {
            Some(v) => spec_parse_i32(w@) == Some(v as int),
            None => spec_parse_i32(w@) is None,
        },
{
    let n = w.unicode_len();
    if n == 0 {
        return None;
    }
    let first = w.get_char(0);
    let neg = first == '-';
    let start: usize = if first == '-' || first == '+' {
        1
    } else {
        0
    };
    let ghost body = if first == '-' || first == '+' {
        w@.skip(1)
    } else {
        w@
    };
    if start >= n {
        return None;
    }
    proof {
        assert(body == numeral_body(w@));
        assert(body =~= w@.skip(start as int));
        assert(body.len() >= 1);
    }
    let mut acc: i64 = 0;
    let mut i = start;
    while i < n
        invariant
            start <= i <= n == w@.len(),
            body == w@.skip(start as int),
            body == numeral_body(w@),
            body.len() == n - start,
            forall|k: int| 0 <= k < i - start ==> is_digit_char(#[trigger] body[k]),
            acc == decimal_val(body.take(i - start)),
            0 <= acc <= 2147483648,
        decreases n - i,
    {
        let c = w.get_char(i);
        let code: u32 = c as u32;
        if code < 48 || code > 57 {
            proof {
                assert(body[i - start] == w@[i as int]);
                assert(!is_digit_char(body[i - start]));
                lemma_not_all_digits(body, i - start);
                assert(body == numeral_body(w@));
                assert(spec_parse_i32(w@) is None);
            }
            return None;
        }
        proof {
            assert(body[i - start] == w@[i as int]);
            assert(body.take(i - start + 1).drop_last() =~= body.take(i - start));
            assert(body.take(i - start + 1).last() == body[i - start]);
        }
        let next: i64 = acc * 10 + ((code - 48) as i64);
        if next > 2147483648 {
            // The value is already too large for an `i32` with either
            // sign; the parse can only fail.  A later non-digit also makes
            // it fail, so scan the rest to tell the two reasons apart.
            let mut j = i + 1;
            while j < n
                invariant
                    i < j <= n == w@.len(),
                    body == w@.skip(start as int),
                    body == numeral_body(w@),
                    start <= i < n,
                    forall|k: int| 0 <= k <= i - start ==> is_digit_char(#[trigger] body[k]),
                    acc == decimal_val(body.take(i - start)),
                    0 <= acc <= 2147483648,
                    forall|k: int| i - start < k < j - start ==> is_digit_char(#[trigger] body[k]),
                decreases n - j,
            {
                let c2 = w.get_char(j);
                let code2: u32 = c2 as u32;
                if code2 < 48 || code2 > 57 {
                    proof {
                        assert(body[j - start] == w@[j as int]);
                        assert(!is_digit_char(body[j - start]));
                        lemma_not_all_digits(body, j - start);
                        assert(body == numeral_body(w@));
                        assert(spec_parse_i32(w@) is None);
                    }
                    return None;
                }
                proof {
                    assert(body[j - start] == w@[j as int]);
                }
                j = j + 1;
            }
            proof {
                assert(body[i - start] == w@[i as int]);
                assert(is_digit_char(body[i - start]));
                assert(all_digits(body));
                lemma_decimal_val_mono(body, i - start + 1, body.len() as int);
                assert(body.take(body.len() as int) =~= body);
                assert(body.take(i - start + 1).drop_last() =~= body.take(i - start));
                assert(body.take(i - start + 1).last() == body[i - start]);
                assert(decimal_val(body.take(i - start + 1)) == next);
                assert(decimal_val(body) >= next > 2147483648);
                assert(decimal_val(body) > i32::MAX);
                assert(-decimal_val(body) < i32::MIN);
                assert(body == numeral_body(w@));
                assert(spec_parse_i32(w@) is None);
            }
            return None;
        }
        acc = next;
        i = i + 1;
    }
    proof {
        assert(body.take((n - start) as int) =~= body);
        assert(all_digits(body));
        assert(body == numeral_body(w@));
        lemma_decimal_nonneg(body);
    }
    if neg {
        if acc == 2147483648 {
            Some(i32::MIN)
        } else {
            Some(-(acc as i32))
        }
    } else {
        if acc == 2147483648 {
            return None;
        }
        Some(acc as i32)
    }
}

/// Parses the target list: one square per line, duplicates kept once, with
/// the bounding box of the squares and the origin.
pub fn parse_input(f: &str) -> (r: Input)
    ensures
        ({
            let ts = spec_targets(crate::visualizer::lambdaman::split_lines(f@));
            &&& r.target@.map_values(|p: (i32, i32)| (p.0 as int, p.1 as int)) == ts
            &&& r.target@.map_values(|p: (i32, i32)| (p.0 as int, p.1 as int)).no_duplicates()
            &&& r.min_x <= 0 && r.max_x >= 0 && r.min_y <= 0 && r.max_y >= 0
            &&& forall|k: int|
                0 <= k < ts.len() ==> r.min_x <= (#[trigger] ts[k]).0 <= r.max_x && r.min_y
                    <= ts[k].1 <= r.max_y
        }),
{
    let n = f.unicode_len();
    let mut target: Vec<(i32, i32)> = Vec::new();
    let mut min_x: i32 = 0;
    let mut max_x: i32 = 0;
    let mut min_y: i32 = 0;
    let mut max_y: i32 = 0;
    let ghost gl = crate::visualizer::lambdaman::split_lines(f@);
    let mut i: usize = 0;
    let ghost glines_done: int = 0;
    let mut done: Ghost<int> = Ghost(0);
    proof {
        assert(f@.skip(0) =~= f@);
        assert(gl.take(0) =~= Seq::<Seq<char>>::empty());
    }
    loop
        invariant_except_break
            i <= n,
            0 <= done@ < gl.len(),
            crate::visualizer::lambdaman::split_lines(f@.skip(i as int)) =~= gl.skip(done@),
        invariant
            n == f@.len(),
            gl == crate::visualizer::lambdaman::split_lines(f@),
            target@.map_values(|p: (i32, i32)| (p.0 as int, p.1 as int)) =~= spec_targets(
                gl.take(done@),
            ),
            target@.map_values(|p: (i32, i32)| (p.0 as int, p.1 as int)).no_duplicates(),
            min_x <= 0 && max_x >= 0 && min_y <= 0 && max_y >= 0,
            forall|k: int|
                0 <= k < spec_targets(gl.take(done@)).len() ==> min_x <= (#[trigger] spec_targets(
                    gl.take(done@),
                )[k]).0 <= max_x && min_y <= spec_targets(gl.take(done@))[k].1 <= max_y,
        ensures
            done@ == gl.len(),
        decreases n - i,
    {
        let start = i;
        while i < n && !line_newline_at(f, i)
            invariant
                start <= i <= n == f@.len(),
                forall|m: int| start <= m < i ==> f@[m] != '\n',
            decreases n - i,
        {
            i = i + 1;
        }
        proof {
            crate::visualizer::lambdaman::lemma_line_len_le(f@.skip(start as int));
            lemma_line_run_here(f@, start as int, i as int);
        }
        let line = f.substring_char(start, i);
        let ghost suffix = f@.skip(start as int);
        proof {
            assert(suffix.take(crate::visualizer::lambdaman::line_len(suffix) as int)
                =~= f@.subrange(start as int, i as int));
            assert(line@ =~= suffix.take(crate::visualizer::lambdaman::line_len(suffix) as int));
        }
        // Parse the first two words of the line.
        let pair = parse_line_pair(line);
        let ghost pre_targets = spec_targets(gl.take(done@));
        match pair {
            Some((x, y)) => {
                let mut dup = false;
                let tl = target.len();
                for q in 0..tl
                    invariant
                        tl == target@.len(),
                        dup == exists|z: int|
                            0 <= z < q && (#[trigger] target@[z]).0 == x && target@[z].1 == y,
                {
                    if target[q].0 == x && target[q].1 == y {
                        dup = true;
                    }
                }
                proof {
                    let mapped = target@.map_values(|p: (i32, i32)| (p.0 as int, p.1 as int));
                    assert(dup == mapped.contains((x as int, y as int))) by {
                        if dup {
                            let z = choose|z: int|
                                0 <= z < target@.len() && (#[trigger] target@[z]).0 == x
                                    && target@[z].1 == y;
                            assert(mapped[z] == (x as int, y as int));
                        }
                        if mapped.contains((x as int, y as int)) {
                            let z = choose|z: int|
                                0 <= z < mapped.len() && #[trigger] mapped[z] == (
                                x as int,
                                y as int,
                            );
                            assert(target@[z].0 == x && target@[z].1 == y);
                        }
                    }
                }
                if !dup {
                    let ghost prev = target@;
                    target.push((x, y));
                    proof {
                        assert(target@.map_values(|p: (i32, i32)| (p.0 as int, p.1 as int))
                            =~= prev.map_values(|p: (i32, i32)| (p.0 as int, p.1 as int)).push(
                            (x as int, y as int),
                        ));
                    }
                }
                min_x.setmin(x);
                max_x.setmax(x);
                min_y.setmin(y);
                max_y.setmax(y);
            },
            None => {
            },
        }
        proof {
            assert(gl.skip(done@)[0] == line@);
            assert(gl[done@] == line@);
            assert(gl.take(done@ + 1).drop_last() =~= gl.take(done@));
            assert(gl.take(done@ + 1).last() == gl[done@]);
        }
        if i == n {
            proof {
                let suffix2 = f@.skip(start as int);
                assert(crate::visualizer::lambdaman::line_len(suffix2) == suffix2.len());
                assert(crate::visualizer::lambdaman::split_lines(suffix2) =~= seq![suffix2]);
                assert(gl.skip(done@).len() == 1);
                done@ = done@ + 1;
                assert(gl.take(done@) =~= gl);
            }
            break ;
        }
        proof {
            let suffix2 = f@.skip(start as int);
            let k = crate::visualizer::lambdaman::line_len(suffix2) as int;
            assert(k < suffix2.len());
            assert(crate::visualizer::lambdaman::split_lines(suffix2) =~= seq![suffix2.take(k)]
                + crate::visualizer::lambdaman::split_lines(suffix2.skip(k + 1)));
            assert(suffix2.skip(k + 1) =~= f@.skip(i + 1));
            assert(gl.skip(done@) =~= crate::visualizer::lambdaman::split_lines(suffix2));
            assert(gl.skip(done@).skip(1) =~= gl.skip(done@ + 1));
            done@ = done@ + 1;
            assert(gl.skip(done@) =~= crate::visualizer::lambdaman::split_lines(f@.skip(i + 1)));
        }
        i = i + 1;
    }
    proof {
        assert(gl.take(gl.len() as int) =~= gl);
    }
    Input { target, min_x, max_x, min_y, max_y }
}

/// True when position `i` of `s` holds the first character that is not a
/// thrust digit `1`..`9`.
pub open spec fn first_bad_thrust(s: Seq<char>, i: int) -> bool {
    &&& 0 <= i < s.len()
    &&& !(49 <= (s[i] as u32) <= 57)
    &&& forall|j: int| 0 <= j < i ==> 49 <= ((#[trigger] s[j]) as u32) <= 57
}

/// Parses a thrust list: each character must be a digit `1`..`9`, naming
/// one of the nine acceleration vectors.  Fails on the first character
/// that is not, naming it.
pub fn parse_output(_input: &Input, f: &str) -> (r: Result<Output, char>)
    ensures
        match r {
            Ok(o) => {
                &&& o.moves@.len() == f@.len()
                &&& forall|i: int|
                    0 <= i < f@.len() ==> 49 <= ((#[trigger] f@[i]) as u32) <= 57 && o.moves@[i]
                        as int == (f@[i] as u32) - 49
            },
            Err(c) => exists|i: int| #[trigger] first_bad_thrust(f@, i) && f@[i] == c,
        },
{
    let n = f.unicode_len();
    let mut moves: Vec<u8> = Vec::new();
    for i in 0..n
        invariant
            n == f@.len(),
            moves@.len() == i,
            forall|j: int|
                0 <= j < i ==> 49 <= ((#[trigger] f@[j]) as u32) <= 57 && moves@[j] as int == (
                f@[j] as u32) - 49,
    {
        let c = f.get_char(i);
        let code: u32 = c as u32;
        if 49 <= code && code <= 57 {
            moves.push((code - 49) as u8);
        } else {
            proof {
                assert(first_bad_thrust(f@, i as int));
            }
            return Err(c);
        }
    }
    Ok(Output { moves })
}

/// The acceleration a thrust index `0..9` names.
pub open spec fn accel(d: int) -> (int, int) {
    (d % 3 - 1, d / 3 - 1)
}

/// The flight after `k` moves: position, velocity, and the set of targets
/// visited so far.  Each move accelerates, then travels.
pub open spec fn fly(targets: Seq<(int, int)>, moves: Seq<int>, k: nat) -> (
    (int, int),
    (int, int),
    Set<(int, int)>,
)
    decreases k,
{
    if k == 0 {
        ((0, 0), (0, 0), Set::empty())
    } else {
        let (pos, vel, vis) = fly(targets, moves, (k - 1) as nat);
        let a = accel(moves[k - 1]);
        let nv = (vel.0 + a.0, vel.1 + a.1);
        let np = (pos.0 + nv.0, pos.1 + nv.1);
        let nvis = if targets.contains(np) {
            vis.insert(np)
        } else {
            vis
        };
        (np, nv, nvis)
    }
}

/// Scores a flight in detail: replays the first `max_turn` moves (all of
/// them when the bound exceeds the list) and reports the score, a
/// diagnostic (empty exactly on success), the visited targets and the last
/// ten positions.  The score is `max_turn` unless targets remain unvisited
/// after the full move list, in which case it is zero.
pub fn compute_score_details(input: &Input, moves: &Vec<u8>, max_turn: usize) -> (r: (
    i64,
    String,
    (Vec<(i32, i32)>, Vec<(i64, i64)>),
))
    requires
        input.target@.map_values(|p: (i32, i32)| (p.0 as int, p.1 as int)).no_duplicates(),
        moves@.len() <= 100000000,
        forall|i: int| 0 <= i < moves@.len() ==> #[trigger] moves@[i] < 9,
        max_turn < i64::MAX,
    ensures
        ({
            let ts = input.target@.map_values(|p: (i32, i32)| (p.0 as int, p.1 as int));
            let steps = if max_turn <= moves@.len() {
                max_turn as nat
            } else {
                moves@.len() as nat
            };
            let (pos, vel, vis) = fly(
                ts,
                moves@.map_values(|m: u8| m as int),
                steps,
            );
            &&& r.2.0@.map_values(|p: (i32, i32)| (p.0 as int, p.1 as int)).to_set() == vis
            &&& r.2.0@.map_values(|p: (i32, i32)| (p.0 as int, p.1 as int)).no_duplicates()
            &&& r.2.0@.len() == vis.len()
            &&& r.2.1@.len() > 0
            &&& (r.2.1@.last().0 as int, r.2.1@.last().1 as int) == pos
            &&& (r.1@.len() == 0 <==> !(moves@.len() == max_turn && vis.len()
                != input.target@.len()))
            &&& (moves@.len() == max_turn && vis.len() != input.target@.len() ==> r.1@
                == "Unvisited squares remain"@)
            &&& r.0 == if r.1@.len() == 0 {
                max_turn as int
            } else {
                0
            }
        }),
{
    let cap = if max_turn <= moves.len() {
        max_turn
    } else {
        moves.len()
    };
    let ghost ts = input.target@.map_values(|p: (i32, i32)| (p.0 as int, p.1 as int));
    let ghost gmoves = moves@.map_values(|m: u8| m as int);
    let mut pos: (i64, i64) = (0, 0);
    let mut vel: (i64, i64) = (0, 0);
    let mut visited: Vec<(i32, i32)> = Vec::new();
    let mut history: Vec<(i64, i64)> = Vec::new();
    history.push((0, 0));
    let mut t: usize = 0;
    while t < cap
        invariant
            t <= cap <= moves@.len() == gmoves.len() <= 100000000,
            cap == if max_turn <= moves@.len() {
                max_turn as int
            } else {
                moves@.len() as int
            },
            ts == input.target@.map_values(|p: (i32, i32)| (p.0 as int, p.1 as int)),
            gmoves == moves@.map_values(|m: u8| m as int),
            forall|i: int| 0 <= i < gmoves.len() ==> 0 <= #[trigger] gmoves[i] < 9,
            ({
                let (fpos, fvel, fvis) = fly(ts, gmoves, t as nat);
                &&& (pos.0 as int, pos.1 as int) == fpos
                &&& (vel.0 as int, vel.1 as int) == fvel
                &&& visited@.map_values(|p: (i32, i32)| (p.0 as int, p.1 as int)).to_set() == fvis
                &&& visited@.map_values(
                    |p: (i32, i32)| (p.0 as int, p.1 as int),
                ).no_duplicates()
                &&& visited@.len() == fvis.len()
                &&& fvis.finite()
            }),
            -(t as i64) <= vel.0 <= t as i64,
            -(t as i64) <= vel.1 <= t as i64,
            -((t as i64) * (t as i64)) <= pos.0 <= (t as i64) * (t as i64),
            -((t as i64) * (t as i64)) <= pos.1 <= (t as i64) * (t as i64),
            history@.len() > 0,
            (history@.last().0 as int, history@.last().1 as int) == (pos.0 as int, pos.1 as int),
        decreases max_turn - t,
    {
        let d = moves[t];
        let ax: i64 = (d % 3) as i64 - 1;
        let ay: i64 = (d / 3) as i64 - 1;
        proof {
            assert((ax as int, ay as int) == accel(gmoves[t as int]));
            let ti = t as int;
            assert((ti + 1) * (ti + 1) == ti * ti + 2 * ti + 1) by (nonlinear_arith);
            assert(ti * ti <= 10000000000000000) by (nonlinear_arith)
                requires
                    0 <= ti <= 100000000,
            ;
        }
        vel = (vel.0 + ax, vel.1 + ay);
        proof {
            let ti = t as int;
            assert((t as i64) as int == ti);
            assert(pos.0 <= (t as i64) * (t as i64) && pos.0 >= -((t as i64) * (t as i64)));
            assert((t as i64) * (t as i64) == ti * ti);
            assert(ti * ti <= 10000000000000000) by (nonlinear_arith)
                requires
                    0 <= ti <= 100000000,
            ;
            assert(-1 <= ax <= 1 && -1 <= ay <= 1);
            assert(vel.0 <= ti + 1 && vel.0 >= -ti - 1);
            assert(vel.1 <= ti + 1 && vel.1 >= -ti - 1);
            assert(pos.1 <= (t as i64) * (t as i64) && pos.1 >= -((t as i64) * (t as i64)));
            assert(pos.0 + vel.0 <= 10000000000000000 + 100000001);
            assert(pos.0 + vel.0 >= -10000000000000000 - 100000001);
            assert(pos.1 + vel.1 <= 10000000000000000 + 100000001);
            assert(pos.1 + vel.1 >= -10000000000000000 - 100000001);
        }
        let nx: i64 = pos.0 + vel.0;
        let ny: i64 = pos.1 + vel.1;
        pos = (nx, ny);
        // Record a visit when the new position is a target square.
        let mut hit = false;
        let tn = input.target.len();
        for q in 0..tn
            invariant
                tn == input.target@.len(),
                hit == exists|z: int|
                    0 <= z < q && (#[trigger] input.target@[z]).0 as int == pos.0 as int
                        && input.target@[z].1 as int == pos.1 as int,
        {
            if input.target[q].0 as i64 == pos.0 && input.target[q].1 as i64 == pos.1 {
                hit = true;
            }
        }
        proof {
            assert(hit == ts.contains((pos.0 as int, pos.1 as int))) by {
                if hit {
                    let z = choose|z: int|
                        0 <= z < input.target@.len() && (#[trigger] input.target@[z]).0 as int
                            == pos.0 as int && input.target@[z].1 as int == pos.1 as int;
                    assert(ts[z] == (pos.0 as int, pos.1 as int));
                }
                if ts.contains((pos.0 as int, pos.1 as int)) {
                    let z = choose|z: int|
                        0 <= z < ts.len() && #[trigger] ts[z] == (pos.0 as int, pos.1 as int);
                    assert(input.target@[z].0 as int == pos.0 as int && input.target@[z].1 as int
                        == pos.1 as int);
                }
            }
        }
        if hit {
            let px = pos.0 as i32;
            let py = pos.1 as i32;
            proof {
                let z = choose|z: int|
                    0 <= z < ts.len() && #[trigger] ts[z] == (pos.0 as int, pos.1 as int);
                assert(input.target@[z].0 as int == pos.0 as int);
                assert(px as int == pos.0 as int && py as int == pos.1 as int);
            }
            let mut seen = false;
            let vn = visited.len();
            for q in 0..vn
                invariant
                    vn == visited@.len(),
                    seen == exists|z: int|
                        0 <= z < q && (#[trigger] visited@[z]).0 == px && visited@[z].1 == py,
            {
                if visited[q].0 == px && visited[q].1 == py {
                    seen = true;
                }
            }
            proof {
                let vm = visited@.map_values(|p: (i32, i32)| (p.0 as int, p.1 as int));
                assert(seen == vm.contains((px as int, py as int))) by {
                    if seen {
                        let z = choose|z: int|
                            0 <= z < visited@.len() && (#[trigger] visited@[z]).0 == px
                                && visited@[z].1 == py;
                        assert(vm[z] == (px as int, py as int));
                    }
                    if vm.contains((px as int, py as int)) {
                        let z = choose|z: int|
                            0 <= z < vm.len() && #[trigger] vm[z] == (px as int, py as int);
                        assert(visited@[z].0 == px && visited@[z].1 == py);
                    }
                }
                broadcast use vstd::seq_lib::group_seq_properties;
            }
            if !seen {
                let ghost prev = visited@;
                visited.push((px, py));
                proof {
                    let prevm = prev.map_values(|p: (i32, i32)| (p.0 as int, p.1 as int));
                    let vm = visited@.map_values(|p: (i32, i32)| (p.0 as int, p.1 as int));
                    assert(vm =~= prevm.push((px as int, py as int)));
                    assert(vm.to_set() =~= prevm.to_set().insert((px as int, py as int)));
                }
            } else {
                proof {
                    let vm = visited@.map_values(|p: (i32, i32)| (p.0 as int, p.1 as int));
                    assert(vm.to_set().insert((px as int, py as int)) =~= vm.to_set());
                }
            }
        }
        if history.len() == 10 {
            let _ = history.remove(0);
        }
        history.push(pos);
        proof {
            let ti = t as int;
            assert((ti + 1) * (ti + 1) == ti * ti + 2 * ti + 1) by (nonlinear_arith);
            assert(vel.0 <= ti + 1 && vel.0 >= -(ti + 1));
            assert(vel.1 <= ti + 1 && vel.1 >= -(ti + 1));
            assert(pos.0 <= ti * ti + ti + 1 && pos.0 >= -(ti * ti) - ti - 1);
            assert(pos.1 <= ti * ti + ti + 1 && pos.1 >= -(ti * ti) - ti - 1);
        }
        t = t + 1;
    }
    if moves.len() == max_turn && visited.len() != input.target.len() {
        let mut msg = String::from_str("Unvisited squares remain");
        proof {
            reveal_strlit("Unvisited squares remain");
            assert(msg@.len() > 0);
        }
        return (0, msg, (visited, history));
    }
    proof {
        reveal_strlit("");
    }
    (max_turn as i64, String::new(), (visited, history))
}

/// Scores a flight: the full move list is replayed, and any diagnostic
/// makes the score zero.
pub fn compute_score(input: &Input, out: &Output) -> (r: (i64, String))
    requires
        input.target@.map_values(|p: (i32, i32)| (p.0 as int, p.1 as int)).no_duplicates(),
        out.moves@.len() <= 100000000,
        forall|i: int| 0 <= i < out.moves@.len() ==> #[trigger] out.moves@[i] < 9,
    ensures
        ({
            let ts = input.target@.map_values(|p: (i32, i32)| (p.0 as int, p.1 as int));
            let (pos, vel, vis) = fly(
                ts,
                out.moves@.map_values(|m: u8| m as int),
                out.moves@.len() as nat,
            );
            &&& (r.1@.len() == 0 <==> vis.len() == input.target@.len())
            &&& (vis.len() != input.target@.len() ==> r.1@ == "Unvisited squares remain"@)
            &&& r.0 == if r.1@.len() == 0 {
                out.moves@.len() as int
            } else {
                0
            }
        }),
{
    let (score, err, _detail) = compute_score_details(input, &out.moves, out.moves.len());
    if err.as_str().unicode_len() > 0 {
        (0, err)
    } else {
        (score, err)
    }
}

/// True when position `i` of `s` holds a newline.
fn line_newline_at(s: &str, i: usize) -> (r: bool)
    requires
        i < s@.len(),
    ensures
        r == (s@[i as int] == '\n'),
{
    s.get_char(i) == '\n'
}

/// A run without newlines ending at the end or a newline is the leading
/// line.
proof fn lemma_line_run_here(s: Seq<char>, start: int, i: int)
    requires
        0 <= start <= i <= s.len(),
        forall|m: int| start <= m < i ==> s[m] != '\n',
        i == s.len() || s[i] == '\n',
    ensures
        crate::visualizer::lambdaman::line_len(s.skip(start)) == i - start,
    decreases i - start,
{
    if start == i {
        if start < s.len() {
            assert(s.skip(start)[0] == s[start]);
        }
    } else {
        assert(s.skip(start)[0] == s[start]);
        assert(s.skip(start).skip(1) =~= s.skip(start + 1));
        lemma_line_run_here(s, start + 1, i);
    }
}

/// The first two blank-separated words of a line, both parsed as `i32`.
fn parse_line_pair(line: &str) -> (r: Option<(i32, i32)>)
    ensures
        match r {
            Some((x, y)) => spec_parse_pair(line@) == Some((x as int, y as int)),
            None => spec_parse_pair(line@) is None,
        },
{
    let words = match crate::assemble::split_into_words(line) {
        w => w,
    };
    if words.len() < 2 {
        return None;
    }
    let x = match parse_i32(words[0].as_str()) {
        Some(v) => v,
        None => {
            return None;
        },
    };
    let y = match parse_i32(words[1].as_str()) {
        Some(v) => v,
        None => {
            return None;
        },
    };
    Some((x, y))
}

} // verus!
