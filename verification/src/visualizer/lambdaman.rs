//! The maze-walk puzzle: parsing a board, parsing a move list, and scoring
//! a walk.
//!
//! A board is lines of cells: `L` the start, `.` a dot to eat, `#` a wall.
//! A solution is a string of directions `U`, `D`, `L`, `R`.  The score is
//! the number of moves taken, zero if a move hits a wall or leaves the
//! board, or if dots remain when the moves run out.

use vstd::prelude::*;

verus! {

/// Replaces the larger of two values, reporting whether it changed; the
/// dual for the smaller.
pub trait SetMinMax: Sized {
    /// Lowers `self` to `v` when `v` is smaller.
    fn setmin(&mut self, v: Self) -> bool;

    /// Raises `self` to `v` when `v` is larger.
    fn setmax(&mut self, v: Self) -> bool;
}

impl SetMinMax for usize {
    fn setmin(&mut self, v: usize) -> (r: bool)
        ensures
            *final(self) == if *old(self) > v {
                v
            } else {
                *old(self)
            },
            r == (*old(self) > v),
    {
        if *self > v {
            *self = v;
            true
        } else {
            false
        }
    }

    fn setmax(&mut self, v: usize) -> (r: bool)
        ensures
            *final(self) == if *old(self) < v {
                v
            } else {
                *old(self)
            },
            r == (*old(self) < v),
    {
        if *self < v {
            *self = v;
            true
        } else {
            false
        }
    }
}

/// A parsed board: the start position, the dot count, and the wall grid.
#[derive(Debug)]
pub struct Input {
    pub pos: (usize, usize),
    pub dot: usize,
    pub wall: Vec<Vec<bool>>,
}

/// A parsed move list, directions as indices `0..4` (`U`, `D`, `L`, `R`).
#[derive(Debug)]
pub struct Output {
    pub moves: Vec<usize>,
}

/// True of the ASCII whitespace a trailing trim removes.
pub open spec fn is_trim_char(c: char) -> bool {
    c == ' ' || c == '\t' || c == '\n' || c == '\r' || c == '\u{c}'
}

/// The input without its trailing whitespace.
pub open spec fn trimmed(s: Seq<char>) -> Seq<char>
    decreases s.len(),
{
    if s.len() > 0 && is_trim_char(s.last()) {
        trimmed(s.drop_last())
    } else {
        s
    }
}

/// The length of the leading line, up to a newline or the end.
pub open spec fn line_len(s: Seq<char>) -> nat
    decreases s.len(),
{
    if s.len() == 0 || s[0] == '\n' {
        0
    } else {
        1 + line_len(s.skip(1))
    }
}

/// The leading line is never longer than the string.
pub proof fn lemma_line_len_le(s: Seq<char>)
    ensures
        line_len(s) <= s.len(),
    decreases s.len(),
{
    if s.len() > 0 && s[0] != '\n' {
        lemma_line_len_le(s.skip(1));
    }
}

/// The lines of a string, split on single newlines; always at least one
/// line, and empty lines are kept.
pub open spec fn split_lines(s: Seq<char>) -> Seq<Seq<char>>
    decreases s.len(),
{
    proof {
        lemma_line_len_le(s);
    }
    let k = line_len(s) as int;
    if k == s.len() {
        seq![s]
    } else {
        seq![s.take(k)] + split_lines(s.skip(k + 1))
    }
}

/// The number of dots in one board line.
pub open spec fn count_dots_line(l: Seq<char>) -> nat
    decreases l.len(),
{
    if l.len() == 0 {
        0
    } else {
        count_dots_line(l.drop_last()) + if l.last() == '.' {
            1nat
        } else {
            0nat
        }
    }
}

/// The number of dots on the whole board.
pub open spec fn count_dots(lines: Seq<Seq<char>>) -> nat
    decreases lines.len(),
{
    if lines.len() == 0 {
        0
    } else {
        count_dots(lines.drop_last()) + count_dots_line(lines.last())
    }
}

/// True when cell `(i, j)` comes after `(p0, p1)` in reading order.
pub open spec fn later_cell(i: int, j: int, p0: int, p1: int) -> bool {
    i > p0 || (i == p0 && j > p1)
}

/// The direction a character names, as an index into `U`, `D`, `L`, `R`.
pub open spec fn dir_index(c: char) -> int {
    if c == 'U' {
        0
    } else if c == 'D' {
        1
    } else if c == 'L' {
        2
    } else if c == 'R' {
        3
    } else {
        -1
    }
}

/// The letter of a direction index `0..4`.
pub open spec fn dir_char(d: int) -> char {
    if d == 0 {
        'U'
    } else if d == 1 {
        'D'
    } else if d == 2 {
        'L'
    } else {
        'R'
    }
}

/// Parses a board.  The grid is as wide as the first line; rows longer
/// than the first are not accepted, as a wall cell beyond the first row's
/// width has no grid slot, while shorter rows simply leave their tail
/// wall-free.  The start is the last `L` in reading order, `(0, 0)` when
/// there is none.
pub fn parse_input(f: &str) -> (r: Input)
    requires
        ({
            let lines = split_lines(trimmed(f@));
            forall|i: int| 0 <= i < lines.len() ==> (#[trigger] lines[i]).len() <= lines[0].len()
        }),
    ensures
        ({
            let lines = split_lines(trimmed(f@));
            &&& r.wall@.len() == lines.len()
            &&& forall|i: int|
                0 <= i < lines.len() ==> (#[trigger] r.wall@[i])@.len() == lines[0].len()
            &&& forall|i: int, j: int|
                #![trigger r.wall@[i]@[j]]
                0 <= i < lines.len() && 0 <= j < lines[0].len() ==> r.wall@[i]@[j] == (j
                    < lines[i].len() && lines[i][j] == '#')
            &&& r.dot == if count_dots(lines) <= usize::MAX as nat {
                count_dots(lines)
            } else {
                usize::MAX as nat
            }
            &&& (exists|i: int, j: int|
                #![trigger lines[i][j]]
                0 <= i < lines.len() && 0 <= j < lines[i].len() && lines[i][j] == 'L') ==> {
                &&& r.pos.0 < lines.len()
                &&& r.pos.1 < lines[r.pos.0 as int].len()
                &&& lines[r.pos.0 as int][r.pos.1 as int] == 'L'
                &&& forall|i: int, j: int|
                    #![trigger lines[i][j]]
                    0 <= i < lines.len() && 0 <= j < lines[i].len() && later_cell(
                        i,
                        j,
                        r.pos.0 as int,
                        r.pos.1 as int,
                    ) ==> lines[i][j] != 'L'
            }
            &&& !(exists|i: int, j: int|
                #![trigger lines[i][j]]
                0 <= i < lines.len() && 0 <= j < lines[i].len() && lines[i][j] == 'L') ==> r.pos
                == (0usize, 0usize)
        }),
{
    // Trim trailing whitespace, then cut the text into lines.
    let total = f.unicode_len();
    let mut end = total;
    proof {
        assert(f@.take(total as int) =~= f@);
    }
    while end > 0 && trim_char_at(f, end - 1)
        invariant
            end <= total == f@.len(),
            trimmed(f@) == trimmed(f@.take(end as int)),
        decreases end,
    {
        proof {
            assert(f@.take(end as int).last() == f@[end - 1]);
            assert(f@.take(end as int).drop_last() =~= f@.take(end - 1));
        }
        end = end - 1;
    }
    proof {
        assert(f@.take(end as int) == trimmed(f@.take(end as int))) by {
            if end > 0 {
                assert(f@.take(end as int).last() == f@[end - 1]);
            }
        }
    }
    let ghost t = trimmed(f@);
    let mut lines: Vec<String> = Vec::new();
    let mut i: usize = 0;
    proof {
        assert(t == f@.take(end as int));
        assert(f@.take(end as int).skip(0) =~= t);
    }
    loop
        invariant_except_break
            i <= end,
            split_lines(t) =~= lines@.map_values(|u: String| u@) + split_lines(
                t.skip(i as int),
            ),
        invariant
            end <= f@.len(),
            t == trimmed(f@),
            t == f@.take(end as int),
            t.len() == end,
        ensures
            lines@.map_values(|u: String| u@) =~= split_lines(t),
        decreases end - i,
    {
        let start = i;
        while i < end && !newline_at(f, i)
            invariant
                start <= i <= end <= f@.len(),
                t == f@.take(end as int),
                t.len() == end,
                forall|m: int| start <= m < i ==> t[m] != '\n',
            decreases end - i,
        {
            i = i + 1;
        }
        proof {
            if i < end {
                assert(t[i as int] == f@[i as int]);
            }
            lemma_line_run(t, start as int, i as int, end as int);
            assert(t.skip(start as int).take(line_len(t.skip(start as int)) as int)
                =~= t.subrange(start as int, i as int));
        }
        let piece = f.substring_char(start, i);
        let ghost prev = lines@;
        lines.push(piece.to_owned());
        proof {
            assert(piece@ =~= t.subrange(start as int, i as int));
            assert(lines@.map_values(|u: String| u@) =~= prev.map_values(|u: String| u@)
                + seq![piece@]);
        }
        if i == end {
            proof {
                assert(line_len(t.skip(start as int)) == t.skip(start as int).len());
                assert(split_lines(t.skip(start as int)) =~= seq![
                    t.subrange(start as int, end as int),
                ]);
                assert(lines@.map_values(|u: String| u@) =~= split_lines(t));
            }
            break ;
        }
        proof {
            assert(line_len(t.skip(start as int)) < t.skip(start as int).len());
            assert(split_lines(t.skip(start as int)) =~= seq![
                t.subrange(start as int, i as int),
            ] + split_lines(t.skip(start as int).skip(line_len(t.skip(start as int)) as int + 1)));
            assert(t.skip(start as int).skip(line_len(t.skip(start as int)) as int + 1) =~= t.skip(
                i + 1,
            ));
        }
        i = i + 1;
    }
    // Scan the grid.
    let rows = lines.len();
    let width = lines[0].as_str().unicode_len();
    let mut wall: Vec<Vec<bool>> = Vec::new();
    let mut dot: usize = 0;
    let mut pos: (usize, usize) = (0, 0);
    let mut found = false;
    let ghost gl = split_lines(t);
    let mut y: usize = 0;
    while y < rows
        invariant
            y <= rows == gl.len() == lines@.len(),
            gl == split_lines(trimmed(f@)),
            lines@.map_values(|u: String| u@) == gl,
            forall|i2: int| 0 <= i2 < gl.len() ==> (#[trigger] gl[i2]).len() <= gl[0].len(),
            width == gl[0].len(),
            wall@.len() == y,
            forall|i2: int| 0 <= i2 < y ==> (#[trigger] wall@[i2])@.len() == width,
            forall|i2: int, j2: int|
                #![trigger wall@[i2]@[j2]]
                0 <= i2 < y && 0 <= j2 < width ==> wall@[i2]@[j2] == (j2 < gl[i2].len()
                    && gl[i2][j2] == '#'),
            dot == if count_dots(gl.take(y as int)) <= usize::MAX as nat {
                count_dots(gl.take(y as int))
            } else {
                usize::MAX as nat
            },
            found <==> exists|i2: int, j2: int|
                #![trigger gl[i2][j2]]
                0 <= i2 < y && 0 <= j2 < gl[i2].len() && gl[i2][j2] == 'L',
            found ==> {
                &&& pos.0 < y
                &&& pos.1 < gl[pos.0 as int].len()
                &&& gl[pos.0 as int][pos.1 as int] == 'L'
                &&& forall|i2: int, j2: int|
                    #![trigger gl[i2][j2]]
                    0 <= i2 < y && 0 <= j2 < gl[i2].len() && later_cell(
                        i2,
                        j2,
                        pos.0 as int,
                        pos.1 as int,
                    ) ==> gl[i2][j2] != 'L'
            },
            !found ==> pos == (0usize, 0usize),
        decreases rows - y,
    {
        proof {
            assert(gl.take(y as int) =~= gl.take(y + 1).drop_last());
            assert(gl.take(y + 1).last() == gl[y as int]);
            assert(gl[y as int].take(0) =~= Seq::<char>::empty());
        }
        let line = &lines[y];
        let llen = line.as_str().unicode_len();
        proof {
            assert(line@ == gl[y as int]);
            assert(gl[y as int].len() <= gl[0].len());
        }
        let mut row: Vec<bool> = Vec::new();
        let mut x: usize = 0;
        while x < llen
            invariant
                x <= llen,
                y < gl.len() == lines@.len(),
                lines@.map_values(|u: String| u@) == gl,
                llen == gl[y as int].len() <= width == gl[0].len(),
                line@ == gl[y as int],
                row@.len() == x,
                forall|j2: int|
                    0 <= j2 < x ==> row@[j2] == (#[trigger] gl[y as int][j2] == '#'),
                dot == if count_dots(gl.take(y as int)) + count_dots_line(
                    gl[y as int].take(x as int),
                ) <= usize::MAX as nat {
                    count_dots(gl.take(y as int)) + count_dots_line(gl[y as int].take(x as int))
                } else {
                    usize::MAX as nat
                },
                found <==> exists|i2: int, j2: int|
                    #![trigger gl[i2][j2]]
                    (0 <= i2 < y && 0 <= j2 < gl[i2].len() && gl[i2][j2] == 'L') || (i2 == y && 0
                        <= j2 < x && gl[i2][j2] == 'L'),
                found ==> {
                    &&& (pos.0 < y || (pos.0 == y && pos.1 < x))
                    &&& pos.1 < gl[pos.0 as int].len()
                    &&& gl[pos.0 as int][pos.1 as int] == 'L'
                    &&& forall|i2: int, j2: int|
                        #![trigger gl[i2][j2]]
                        ((0 <= i2 < y && 0 <= j2 < gl[i2].len()) || (i2 == y && 0 <= j2 < x))
                            && later_cell(i2, j2, pos.0 as int, pos.1 as int) ==> gl[i2][j2] != 'L'
                },
                !found ==> pos == (0usize, 0usize),
            decreases llen - x,
        {
            let c = line.as_str().get_char(x);
            proof {
                assert(gl[y as int].take(x as int) =~= gl[y as int].take(x + 1).drop_last());
                assert(gl[y as int].take(x + 1).last() == gl[y as int][x as int]);
            }
            if c == 'L' {
                pos = (y, x);
                found = true;
            } else if c == '.' {
                if dot < usize::MAX {
                    dot = dot + 1;
                }
            }
            row.push(c == '#');
            x = x + 1;
        }
        proof {
            assert(gl[y as int].take(llen as int) =~= gl[y as int]);
        }
        while x < width
            invariant
                llen <= x <= width,
                y < gl.len(),
                llen == gl[y as int].len(),
                row@.len() == x,
                forall|j2: int|
                    0 <= j2 < llen ==> row@[j2] == (#[trigger] gl[y as int][j2] == '#'),
                forall|j2: int| llen <= j2 < x ==> !(#[trigger] row@[j2]),
            decreases width - x,
        {
            row.push(false);
            x = x + 1;
        }
        wall.push(row);
        y = y + 1;
    }
    proof {
        assert(gl.take(rows as int) =~= gl);
    }
    Input { pos, dot, wall }
}

/// True when position `i` of `s` holds a trimmable whitespace character.
fn trim_char_at(s: &str, i: usize) -> (r: bool)
    requires
        i < s@.len(),
    ensures
        r == is_trim_char(s@[i as int]),
{
    let c = s.get_char(i);
    c == ' ' || c == '\t' || c == '\n' || c == '\r' || c == '\u{c}'
}

/// True when position `i` of `s` holds a newline.
fn newline_at(s: &str, i: usize) -> (r: bool)
    requires
        i < s@.len(),
    ensures
        r == (s@[i as int] == '\n'),
{
    s.get_char(i) == '\n'
}

/// A run without newlines ending at `end` or at a newline is exactly the
/// leading line of the suffix.
proof fn lemma_line_run(s: Seq<char>, start: int, i: int, end: int)
    requires
        0 <= start <= i <= end <= s.len(),
        forall|m: int| start <= m < i ==> s[m] != '\n',
        i == end || s[i] == '\n',
    ensures
        i < end ==> line_len(s.skip(start)) == i - start,
        i == end && end == s.len() ==> line_len(s.skip(start)) == i - start,
        i == end && end < s.len() && s[end] == '\n' ==> line_len(s.skip(start)) == i - start,
    decreases i - start,
{
    if start == i {
        if start < s.len() {
            assert(s.skip(start)[0] == s[start]);
        }
    } else {
        assert(s.skip(start)[0] == s[start]);
        assert(s.skip(start).skip(1) =~= s.skip(start + 1));
        lemma_line_run(s, start + 1, i, end);
    }
}

/// True when position `i` of `s` holds the first character that names no
/// direction.
pub open spec fn first_bad_direction(s: Seq<char>, i: int) -> bool {
    &&& 0 <= i < s.len()
    &&& dir_index(s[i]) == -1
    &&& forall|j: int| 0 <= j < i ==> dir_index(#[trigger] s[j]) >= 0
}

/// Parses a move list: each character must name a direction.  Fails on the
/// first character that does not, naming it.
pub fn parse_output(_input: &Input, f: &str) -> (r: Result<Output, char>)
    ensures
        match r {
            Ok(o) => {
                &&& o.moves@.len() == f@.len()
                &&& forall|i: int|
                    0 <= i < f@.len() ==> o.moves@[i] as int == dir_index(#[trigger] f@[i])
            },
            Err(c) => exists|i: int| #[trigger] first_bad_direction(f@, i) && f@[i] == c,
        },
{
    let n = f.unicode_len();
    let mut moves: Vec<usize> = Vec::new();
    for i in 0..n
        invariant
            n == f@.len(),
            moves@.len() == i,
            forall|j: int| 0 <= j < i ==> moves@[j] as int == dir_index(#[trigger] f@[j]),
    {
        let c = f.get_char(i);
        if c == 'U' {
            moves.push(0);
        } else if c == 'D' {
            moves.push(1);
        } else if c == 'L' {
            moves.push(2);
        } else if c == 'R' {
            moves.push(3);
        } else {
            proof {
                assert(first_bad_direction(f@, i as int));
            }
            return Err(c);
        }
    }
    Ok(Output { moves })
}

/// One step of the walk: the new position, or `None` when the move leaves
/// the board or hits a wall.
pub open spec fn step_pos(wall: Seq<Seq<bool>>, pos: (int, int), dir: int) -> Option<(int, int)> {
    let np = if dir == 0 {
        (pos.0 - 1, pos.1)
    } else if dir == 1 {
        (pos.0 + 1, pos.1)
    } else if dir == 2 {
        (pos.0, pos.1 - 1)
    } else {
        (pos.0, pos.1 + 1)
    };
    if np.0 < 0 || np.0 >= wall.len() || np.1 < 0 || np.1 >= wall[0].len() || wall[np.0][np.1] {
        None
    } else {
        Some(np)
    }
}

/// The walk after `k` moves: the visited grid, the position, the dots that
/// remain (saturating at zero), and the first failing turn, if any.
pub open spec fn walk(
    input_wall: Seq<Seq<bool>>,
    start: (int, int),
    dot: int,
    moves: Seq<int>,
    k: nat,
) -> (Seq<Seq<bool>>, (int, int), int, Option<int>)
    decreases k,
{
    if k == 0 {
        (
            input_wall.update(start.0, input_wall[start.0].update(start.1, true)),
            start,
            dot,
            None,
        )
    } else {
        let (vis, pos, rest, fail) = walk(input_wall, start, dot, moves, (k - 1) as nat);
        if fail is Some {
            (vis, pos, rest, fail)
        } else {
            match step_pos(input_wall, pos, moves[k - 1]) {
                None => (vis, pos, rest, Some(k - 1)),
                Some(np) => if vis[np.0][np.1] {
                    (vis, np, rest, None)
                } else {
                    (
                        vis.update(np.0, vis[np.0].update(np.1, true)),
                        np,
                        if rest > 0 {
                            rest - 1
                        } else {
                            0
                        },
                        None,
                    )
                },
            }
        }
    }
}

/// Once a move has failed, the walk stays in its failure state.
proof fn lemma_walk_fail_absorbs(
    input_wall: Seq<Seq<bool>>,
    start: (int, int),
    dot: int,
    moves: Seq<int>,
    k0: nat,
    k: nat,
)
    requires
        k0 <= k,
        walk(input_wall, start, dot, moves, k0).3 is Some,
    ensures
        walk(input_wall, start, dot, moves, k) == walk(input_wall, start, dot, moves, k0),
    decreases k - k0,
{
    if k > k0 {
        lemma_walk_fail_absorbs(input_wall, start, dot, moves, k0, (k - 1) as nat);
    }
}

/// Scores a walk in detail: replays the first `max_turn` moves (all of
/// them when the bound exceeds the list) and reports the score, a
/// diagnostic (empty exactly on success), and the visited grid with the
/// final position.  The score is `max_turn` unless a move failed or dots
/// remain after the full move list, in which case it is zero; a failing
/// move's diagnostic names its direction letter and turn, and leftover
/// dots are counted.
pub fn compute_score_details(input: &Input, moves: &Vec<usize>, max_turn: usize) -> (r: (
    i64,
    String,
    (Vec<Vec<bool>>, (usize, usize)),
))
    requires
        input.wall@.len() > 0,
        forall|i: int|
            0 <= i < input.wall@.len() ==> (#[trigger] input.wall@[i])@.len()
                == input.wall@[0]@.len(),
        input.pos.0 < input.wall@.len(),
        input.pos.1 < input.wall@[0]@.len(),
        forall|i: int| 0 <= i < moves@.len() ==> 0 <= #[trigger] moves@[i] < 4,
        max_turn < i64::MAX,
    ensures
        ({
            let steps = if max_turn <= moves@.len() {
                max_turn as nat
            } else {
                moves@.len() as nat
            };
            let (vis, pos, rest, fail) = walk(
                input.wall@.map_values(|rw: Vec<bool>| rw@),
                (input.pos.0 as int, input.pos.1 as int),
                input.dot as int,
                moves@.map_values(|m: usize| m as int),
                steps,
            );
            &&& r.2.0@.map_values(|rw: Vec<bool>| rw@) == vis
            &&& (r.2.1.0 as int, r.2.1.1 as int) == pos
            &&& (r.1@.len() == 0 <==> (fail is None && !(moves@.len() == max_turn && rest > 0)))
            &&& (fail matches Some(ft) ==> r.1@ == "Invalid move: "@ + seq![
                dir_char(moves@.map_values(|m: usize| m as int)[ft]),
            ] + " in turn "@ + crate::bignum::decimal_of(ft + 1))
            &&& (fail is None && moves@.len() == max_turn && rest > 0 ==> r.1@
                == "Unvisited squares remain: "@ + crate::bignum::decimal_of(rest))
            &&& r.0 == if r.1@.len() == 0 {
                max_turn as int
            } else {
                0
            }
        }),
{
    let cap = if max_turn <= moves.len() {
        max_turn
    } else {
        moves.len()
    };
    let ghost gwall = input.wall@.map_values(|rw: Vec<bool>| rw@);
    let ghost gmoves = moves@.map_values(|m: usize| m as int);
    let rows = input.wall.len();
    let width = input.wall[0].len();
    let mut visited: Vec<Vec<bool>> = Vec::new();
    let mut y: usize = 0;
    while y < rows
        invariant
            y <= rows == input.wall@.len(),
            visited@.len() == y,
            forall|i: int| 0 <= i < y ==> #[trigger] visited@[i]@ == input.wall@[i]@,
        decreases rows - y,
    {
        visited.push(clone_row(&input.wall[y]));
        y = y + 1;
    }
    proof {
        assert(visited@.map_values(|rw: Vec<bool>| rw@) =~= gwall);
    }
    let mut row = visited[input.pos.0].clone();
    row[input.pos.1] = true;
    visited[input.pos.0] = row;
    proof {
        assert(visited@.map_values(|rw: Vec<bool>| rw@) =~= gwall.update(
            input.pos.0 as int,
            gwall[input.pos.0 as int].update(input.pos.1 as int, true),
        ));
    }
    let mut rest = input.dot;
    let mut pos = input.pos;
    let mut t: usize = 0;
    while t < cap
        invariant
            t <= cap <= moves@.len() == gmoves.len(),
            cap == if max_turn <= moves@.len() {
                max_turn as int
            } else {
                moves@.len() as int
            },
            max_turn < i64::MAX,
            gwall == input.wall@.map_values(|rw: Vec<bool>| rw@),
            gmoves == moves@.map_values(|m: usize| m as int),
            gwall.len() == input.wall@.len() > 0,
            rows == gwall.len(),
            width == gwall[0].len(),
            forall|i: int|
                0 <= i < input.wall@.len() ==> (#[trigger] input.wall@[i])@.len()
                    == gwall[0].len(),
            forall|i: int| 0 <= i < gwall.len() ==> (#[trigger] gwall[i]).len() == gwall[0].len(),
            forall|i: int| 0 <= i < gmoves.len() ==> 0 <= #[trigger] gmoves[i] < 4,
            ({
                let (vis, wpos, wrest, fail) = walk(
                    gwall,
                    (input.pos.0 as int, input.pos.1 as int),
                    input.dot as int,
                    gmoves,
                    t as nat,
                );
                &&& fail is None
                &&& visited@.map_values(|rw: Vec<bool>| rw@) == vis
                &&& (pos.0 as int, pos.1 as int) == wpos
                &&& rest as int == wrest
                &&& pos.0 < gwall.len() && pos.1 < gwall[0].len()
                &&& visited@.len() == gwall.len()
                &&& forall|i: int|
                    0 <= i < visited@.len() ==> (#[trigger] visited@[i])@.len() == gwall[0].len()
            }),
        decreases max_turn - t,
    {
        let dir = moves[t];
        let ok: bool;
        let mut np = pos;
        if dir == 0 {
            if pos.0 == 0 {
                ok = false;
            } else {
                np = (pos.0 - 1, pos.1);
                ok = true;
            }
        } else if dir == 1 {
            if pos.0 + 1 >= rows {
                ok = false;
            } else {
                np = (pos.0 + 1, pos.1);
                ok = true;
            }
        } else if dir == 2 {
            if pos.1 == 0 {
                ok = false;
            } else {
                np = (pos.0, pos.1 - 1);
                ok = true;
            }
        } else {
            if pos.1 + 1 >= width {
                ok = false;
            } else {
                np = (pos.0, pos.1 + 1);
                ok = true;
            }
        }
        if !ok || input.wall[np.0][np.1] {
            // The move leaves the board or hits a wall: score zero, with a
            // diagnostic naming the direction and the failing turn.
            let mut letter: Vec<u8> = Vec::new();
            letter.push(
                if dir == 0 {
                    85
                } else if dir == 1 {
                    68
                } else if dir == 2 {
                    76
                } else {
                    82
                },
            );
            let mut msg = String::from_str("Invalid move: ");
            msg.append(crate::ascii::string_from_ascii(letter).as_str());
            msg.append(" in turn ");
            msg.append(
                crate::bignum::big_to_decimal(&crate::bignum::big_from_usize(t + 1)).as_str(),
            );
            proof {
                reveal_strlit("Invalid move: ");
                reveal_strlit(" in turn ");
                assert(msg@ =~= "Invalid move: "@ + seq![dir_char(gmoves[t as int])] + " in turn "@
                    + crate::bignum::decimal_of(t + 1));
                assert(msg@.len() > 0);
                let st = (input.pos.0 as int, input.pos.1 as int);
                assert(step_pos(gwall, (pos.0 as int, pos.1 as int), gmoves[t as int]) is None);
                assert(walk(gwall, st, input.dot as int, gmoves, (t + 1) as nat).3 == Some(
                    t as int,
                ));
                lemma_walk_fail_absorbs(
                    gwall,
                    st,
                    input.dot as int,
                    gmoves,
                    (t + 1) as nat,
                    (if max_turn <= moves@.len() {
                        max_turn as nat
                    } else {
                        moves@.len() as nat
                    }),
                );
            }
            return (0, msg, (visited, pos));
        }
        let ghost pre_vis = visited@.map_values(|rw: Vec<bool>| rw@);
        if !visited[np.0][np.1] {
            let mut vrow = visited[np.0].clone();
            vrow[np.1] = true;
            visited[np.0] = vrow;
            if rest > 0 {
                rest = rest - 1;
            }
            proof {
                assert(visited@.map_values(|rw: Vec<bool>| rw@) =~= pre_vis.update(
                    np.0 as int,
                    pre_vis[np.0 as int].update(np.1 as int, true),
                ));
            }
        }
        pos = np;
        t = t + 1;
    }
    if moves.len() == max_turn && rest > 0 {
        let mut msg = String::from_str("Unvisited squares remain: ");
        msg.append(crate::bignum::big_to_decimal(&crate::bignum::big_from_usize(rest)).as_str());
        proof {
            reveal_strlit("Unvisited squares remain: ");
            assert(msg@.len() > 0);
        }
        return (0, msg, (visited, pos));
    }
    proof {
        reveal_strlit("");
    }
    (max_turn as i64, String::new(), (visited, pos))
}

/// A plain copy of one wall row.
fn clone_row(v: &Vec<bool>) -> (r: Vec<bool>)
    ensures
        r@ == v@,
{
    let mut out: Vec<bool> = Vec::new();
    let n = v.len();
    for i in 0..n
        invariant
            n == v@.len(),
            out@ =~= v@.take(i as int),
    {
        out.push(v[i]);
        proof {
            assert(out@ =~= v@.take(i + 1));
        }
    }
    proof {
        assert(v@.take(n as int) =~= v@);
    }
    out
}

/// The remaining-dot count of a walk never goes negative.
proof fn lemma_walk_rest_nonneg(
    input_wall: Seq<Seq<bool>>,
    start: (int, int),
    dot: int,
    moves: Seq<int>,
    k: nat,
)
    requires
        dot >= 0,
    ensures
        walk(input_wall, start, dot, moves, k).2 >= 0,
    decreases k,
{
    if k > 0 {
        lemma_walk_rest_nonneg(input_wall, start, dot, moves, (k - 1) as nat);
    }
}

/// Scores a walk: the full move list is replayed, and any diagnostic makes
/// the score zero.
pub fn compute_score(input: &Input, out: &Output) -> (r: (i64, String))
    requires
        input.wall@.len() > 0,
        forall|i: int|
            0 <= i < input.wall@.len() ==> (#[trigger] input.wall@[i])@.len()
                == input.wall@[0]@.len(),
        input.pos.0 < input.wall@.len(),
        input.pos.1 < input.wall@[0]@.len(),
        forall|i: int| 0 <= i < out.moves@.len() ==> 0 <= #[trigger] out.moves@[i] < 4,
        out.moves@.len() < i64::MAX,
    ensures
        ({
            let (vis, pos, rest, fail) = walk(
                input.wall@.map_values(|rw: Vec<bool>| rw@),
                (input.pos.0 as int, input.pos.1 as int),
                input.dot as int,
                out.moves@.map_values(|m: usize| m as int),
                out.moves@.len() as nat,
            );
            &&& (r.1@.len() == 0 <==> (fail is None && rest == 0))
            &&& (fail matches Some(ft) ==> r.1@ == "Invalid move: "@ + seq![
                dir_char(out.moves@.map_values(|m: usize| m as int)[ft]),
            ] + " in turn "@ + crate::bignum::decimal_of(ft + 1))
            &&& (fail is None && rest > 0 ==> r.1@ == "Unvisited squares remain: "@
                + crate::bignum::decimal_of(rest))
            &&& r.0 == if r.1@.len() == 0 {
                out.moves@.len() as int
            } else {
                0
            }
        }),
{
    proof {
        lemma_walk_rest_nonneg(
            input.wall@.map_values(|rw: Vec<bool>| rw@),
            (input.pos.0 as int, input.pos.1 as int),
            input.dot as int,
            out.moves@.map_values(|m: usize| m as int),
            out.moves@.len() as nat,
        );
    }
    let (score, err, _detail) = compute_score_details(input, &out.moves, out.moves.len());
    if err.as_str().unicode_len() > 0 {
        (0, err)
    } else {
        (score, err)
    }
}

} // verus!
