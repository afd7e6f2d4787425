use vstd::prelude::*;

use crate::board::{well_formed, Board, HEIGHT, WIDTH};
use crate::win::in_bounds;

verus! {

/// The weight sign of a cell value: +1 for `player`, -1 for the other player, 0 when empty.
pub open spec fn sign_of(v: i32, player: i32) -> int {
    if v == 0 {
        0
    } else if v == player {
        1
    } else {
        -1
    }
}

/// Two to the power `n`.
pub open spec fn pow2(n: nat) -> nat
    decreases n,
{
    if n == 0 {
        1
    } else {
        2 * pow2((n - 1) as nat)
    }
}

/// The length of the run of equal values that ends `s`.
pub open spec fn trailing_run(s: Seq<i32>) -> nat
    decreases s.len(),
{
    if s.len() == 0 {
        0
    } else if s.len() >= 2 && s[s.len() - 2] == s.last() {
        1 + trailing_run(s.drop_last())
    } else {
        1
    }
}

/// A nonempty sequence ends in a run of at least one and at most all of its values.
pub proof fn lemma_trailing_run_bounds(s: Seq<i32>)
    ensures
        s.len() > 0 ==> 1 <= trailing_run(s) <= s.len(),
    decreases s.len(),
{
    if s.len() >= 2 {
        lemma_trailing_run_bounds(s.drop_last());
    }
}

/// The value of a line for `player`: each maximal run of equal values adds its sign
/// times two to the power of its length minus one.
pub open spec fn pattern_value(s: Seq<i32>, player: i32) -> int
    decreases s.len(),
    via pattern_value_decreases
{
    if s.len() == 0 {
        0
    } else {
        let n = trailing_run(s);
        pattern_value(s.take(s.len() - n), player) + sign_of(s.last(), player) * pow2(
            (n - 1) as nat,
        )
    }
}

#[via_fn]
proof fn pattern_value_decreases(s: Seq<i32>, player: i32) {
    lemma_trailing_run_bounds(s);
}

/// Appending a value either extends the last run, doubling its weight, or starts a
/// new run of weight one.
proof fn lemma_pattern_push(s: Seq<i32>, v: i32, player: i32)
    ensures
        s.len() > 0 && v == s.last() ==> trailing_run(s.push(v)) == trailing_run(s) + 1
            && pattern_value(s.push(v), player) == pattern_value(s, player) + sign_of(v, player)
            * pow2((trailing_run(s) - 1) as nat),
        s.len() == 0 || v != s.last() ==> trailing_run(s.push(v)) == 1 && pattern_value(
            s.push(v),
            player,
        ) == pattern_value(s, player) + sign_of(v, player),
{
    let t = s.push(v);
    assert(t.drop_last() =~= s);
    lemma_trailing_run_bounds(s);
    if s.len() > 0 && v == s.last() {
        let n = trailing_run(s);
        assert(t.take(t.len() - (n + 1)) =~= s.take(s.len() - n));
        assert(pow2(n) == 2 * pow2((n - 1) as nat));
        let sg = sign_of(v, player);
        assert(sg * pow2(n) == sg * pow2((n - 1) as nat) + sg * pow2((n - 1) as nat))
            by (nonlinear_arith)
            requires
                pow2(n) == 2 * pow2((n - 1) as nat),
        ;
    } else {
        if s.len() > 0 {
            assert(t[t.len() - 2] == s.last());
        }
        assert(trailing_run(t) == 1);
        assert(t.take(t.len() - 1) =~= s);
        assert(pow2(0) == 1);
        assert(t.last() == v);
        assert(pattern_value(t, player) == pattern_value(t.take(t.len() - 1), player) + sign_of(
            v,
            player,
        ) * pow2(0));
    }
}

/// Multiplying by a sign in {-1, 0, 1}.
proof fn lemma_mul_sign(x: int, sg: int)
    requires
        -1 <= sg <= 1,
    ensures
        x * sg == (if sg == 1 {
            x
        } else if sg == -1 {
            -x
        } else {
            0
        }),
        sg * x == x * sg,
{
    assert(x * sg == (if sg == 1 {
        x
    } else if sg == -1 {
        -x
    } else {
        0
    })) by (nonlinear_arith)
        requires
            -1 <= sg <= 1,
    ;
    assert(sg * x == x * sg) by (nonlinear_arith);
}

/// `pow2` grows with its exponent.
proof fn lemma_pow2_monotonic(a: nat, b: nat)
    requires
        a <= b,
    ensures
        1 <= pow2(a) <= pow2(b),
    decreases b,
{
    if b > a {
        lemma_pow2_monotonic(a, (b - 1) as nat);
    } else if a > 0 {
        lemma_pow2_monotonic((a - 1) as nat, (a - 1) as nat);
    }
}

/// The score of one line for `player`: the sum over its maximal runs of equal values
/// of the run's sign times two to the power of its length minus one.
pub fn calculate_pattern_score(pattern: &Vec<i32>, player: i32) -> (rank: i32)
    requires
        pattern@.len() <= 30,
    ensures
        rank == pattern_value(pattern@, player),
        -pow2(pattern@.len()) <= rank <= pow2(pattern@.len()),
{
    proof {
        reveal_with_fuel(pow2, 31);
        assert(pow2(30) == 0x4000_0000);
        lemma_pow2_monotonic(pattern@.len(), 30);
    }
    let mut last: i32 = 0;
    let mut rank: i32 = 0;
    let mut cur: i32 = 1;
    let mut scale: i32 = 0;
    let mut k: usize = 0;
    while k < pattern.len()
        invariant
            k <= pattern@.len() <= 30,
            pow2(pattern@.len()) <= 0x4000_0000,
            k == 0 ==> last == 0,
            k > 0 ==> last == pattern@[k - 1],
            scale == sign_of(last, player),
            1 <= cur,
            (if rank < 0 { -rank } else { rank as int }) + cur <= pow2(k as nat),
            scale != 0 ==> cur == pow2((trailing_run(pattern@.take(k as int)) - 1) as nat),
            rank + cur * scale == pattern_value(pattern@.take(k as int), player),
        decreases pattern@.len() - k,
    {
        let p = pattern[k];
        let ghost s = pattern@.take(k as int);
        proof {
            assert(pattern@.take(k + 1) =~= s.push(p));
            lemma_pattern_push(s, p, player);
            lemma_pow2_monotonic((k + 1) as nat, pattern@.len());
            assert(k > 0 ==> s.last() == last);
            lemma_mul_sign(cur as int, scale as int);
            lemma_mul_sign(2 * cur, scale as int);
            lemma_mul_sign(1, sign_of(p, player));
            lemma_mul_sign(pow2((trailing_run(s) - 1) as nat) as int, sign_of(p, player));
        }
        if p == last {
            cur = cur * 2;
        } else {
            rank = rank + cur * scale;
            cur = 1;
        }
        last = p;
        if last == 0 {
            scale = 0;
        } else if last == player {
            scale = 1;
        } else {
            scale = -1;
        }
        k += 1;
    }
    assert(pattern@.take(k as int) =~= pattern@);
    proof {
        lemma_mul_sign(cur as int, scale as int);
    }
    rank + cur * scale
}

/// How far `j` steps in direction `d` move along one axis.
pub open spec fn offset(j: int, d: int) -> int {
    if d > 0 {
        j
    } else if d < 0 {
        -j
    } else {
        0
    }
}

/// The `len` cells starting at (r, c) and stepping by (dr, dc).
pub open spec fn line(g: Seq<Seq<i32>>, r: int, c: int, dr: int, dc: int, len: nat) -> Seq<i32> {
    Seq::new(len, |j: int| g[r + offset(j, dr)][c + offset(j, dc)])
}

/// The rows, top to bottom.
pub open spec fn rows(g: Seq<Seq<i32>>) -> Seq<Seq<i32>> {
    Seq::new(HEIGHT as nat, |i: int| line(g, i, 0, 0, 1, WIDTH as nat))
}

/// The columns, left to right.
pub open spec fn columns(g: Seq<Seq<i32>>) -> Seq<Seq<i32>> {
    Seq::new(WIDTH as nat, |i: int| line(g, 0, i, 1, 0, HEIGHT as nat))
}

/// The down-right diagonals that start in the leftmost column, from the bottom row up.
pub open spec fn diagonals_from_left(g: Seq<Seq<i32>>) -> Seq<Seq<i32>> {
    Seq::new(HEIGHT as nat, |i: int| line(g, HEIGHT - 1 - i, 0, 1, 1, (i + 1) as nat))
}

/// The down-left diagonals that start in the rightmost column, from the bottom row up.
pub open spec fn diagonals_from_right(g: Seq<Seq<i32>>) -> Seq<Seq<i32>> {
    Seq::new(
        HEIGHT as nat,
        |i: int| line(g, HEIGHT - 1 - i, WIDTH - 1, 1, -1, (i + 1) as nat),
    )
}

/// The length of a diagonal that starts `i` columns in from an edge on the top row.
pub open spec fn top_diagonal_len(i: int) -> nat {
    if WIDTH - i < HEIGHT {
        (WIDTH - i) as nat
    } else {
        HEIGHT as nat
    }
}

/// The down-right diagonals that start on the top row, right of the top-left corner.
pub open spec fn diagonals_from_top_left(g: Seq<Seq<i32>>) -> Seq<Seq<i32>> {
    Seq::new((WIDTH - 1) as nat, |k: int| line(g, 0, k + 1, 1, 1, top_diagonal_len(k + 1)))
}

/// The down-left diagonals that start on the top row, left of the top-right corner.
pub open spec fn diagonals_from_top_right(g: Seq<Seq<i32>>) -> Seq<Seq<i32>> {
    Seq::new(
        (WIDTH - 1) as nat,
        |k: int| line(g, 0, WIDTH - 2 - k, 1, -1, top_diagonal_len(k + 1)),
    )
}

/// Every row, column and diagonal of the board, each once.
pub open spec fn all_lines(g: Seq<Seq<i32>>) -> Seq<Seq<i32>> {
    rows(g) + columns(g) + diagonals_from_left(g) + diagonals_from_right(g)
        + diagonals_from_top_left(g) + diagonals_from_top_right(g)
}

/// The sum of the values of the lines for `player`.
pub open spec fn lines_value(ls: Seq<Seq<i32>>, player: i32) -> int
    decreases ls.len(),
{
    if ls.len() == 0 {
        0
    } else {
        lines_value(ls.drop_last(), player) + pattern_value(ls.last(), player)
    }
}

/// The heuristic value of the board for `player`: the sum of the values of all its lines.
pub open spec fn board_value(g: Seq<Seq<i32>>, player: i32) -> int {
    lines_value(all_lines(g), player)
}

proof fn lemma_lines_value_step(ls: Seq<Seq<i32>>, n: int, player: i32)
    requires
        0 <= n < ls.len(),
    ensures
        lines_value(ls.take(n + 1), player) == lines_value(ls.take(n), player) + pattern_value(
            ls[n],
            player,
        ),
{
    assert(ls.take(n + 1).drop_last() =~= ls.take(n));
}

/// The score of the line of `len` cells from (row, col) stepping by (dr, dc).
fn line_score(
    board: &Board,
    player: i32,
    row: usize,
    col: usize,
    dr: i8,
    dc: i8,
    len: usize,
) -> (r: i32)
    requires
        0 <= dr <= 1,
        -1 <= dc <= 1,
        1 <= len <= WIDTH,
        in_bounds(row as int, col as int),
        in_bounds(row + offset(len - 1, dr as int), col + offset(len - 1, dc as int)),
    ensures
        r == pattern_value(line(board@, row as int, col as int, dr as int, dc as int, len as nat), player),
        -512 <= r <= 512,
{
    let ghost ln = line(board@, row as int, col as int, dr as int, dc as int, len as nat);
    let mut pattern: Vec<i32> = Vec::new();
    let mut j: usize = 0;
    while j < len
        invariant
            j <= len <= WIDTH,
            0 <= dr <= 1,
            -1 <= dc <= 1,
            in_bounds(row as int, col as int),
            in_bounds(row + offset(len - 1, dr as int), col + offset(len - 1, dc as int)),
            ln == line(board@, row as int, col as int, dr as int, dc as int, len as nat),
            pattern@ == ln.take(j as int),
        decreases len - j,
    {
        let r: usize = if dr > 0 { row + j } else { row };
        let c: usize = if dc > 0 {
            col + j
        } else if dc < 0 {
            col - j
        } else {
            col
        };
        pattern.push(board.cells[r][c]);
        assert(pattern@ =~= ln.take(j + 1));
        j += 1;
    }
    assert(pattern@ =~= ln);
    proof {
        reveal_with_fuel(pow2, 10);
        lemma_pow2_monotonic(len as nat, 9);
    }
    calculate_pattern_score(&pattern, player)
}

/// Where each family of lines sits in `all_lines`.
proof fn lemma_all_lines_index(g: Seq<Seq<i32>>)
    ensures
        all_lines(g).len() == 46,
        forall|i: int| 0 <= i < 7 ==> all_lines(g)[i] == rows(g)[i],
        forall|i: int| 0 <= i < 9 ==> all_lines(g)[7 + i] == columns(g)[i],
        forall|i: int| 0 <= i < 7 ==> all_lines(g)[16 + i] == diagonals_from_left(g)[i],
        forall|i: int| 0 <= i < 7 ==> all_lines(g)[23 + i] == diagonals_from_right(g)[i],
        forall|i: int| 0 <= i < 8 ==> all_lines(g)[30 + i] == diagonals_from_top_left(g)[i],
        forall|i: int| 0 <= i < 8 ==> all_lines(g)[38 + i] == diagonals_from_top_right(g)[i],
{
}

/// The heuristic score of the board for `player`: the sum of `calculate_pattern_score`
/// over every row, every column and every diagonal of both orientations.
pub fn calculate_score(board: &Board, player: i32) -> (score: i32)
    ensures
        score == board_value(board@, player),
        -8576 <= score <= 8576,
{
    proof {
        lemma_board_value_bound(board@, player);
    }
    let ghost ls = all_lines(board@);
    let mut score: i32 = 0;
    let mut i: usize = 0;
    while i < HEIGHT
        invariant
            i <= HEIGHT,
            ls == all_lines(board@),
            score == lines_value(ls.take(i as int), player),
            -512 * i <= score <= 512 * i,
        decreases HEIGHT - i,
    {
        proof {
            lemma_all_lines_index(board@);
            lemma_lines_value_step(ls, i as int, player);
        }
        score = score + line_score(board, player, i, 0, 0, 1, WIDTH);
        i += 1;
    }
    let mut i: usize = 0;
    while i < WIDTH
        invariant
            i <= WIDTH,
            ls == all_lines(board@),
            score == lines_value(ls.take(7 + i), player),
            -512 * (7 + i) <= score <= 512 * (7 + i),
        decreases WIDTH - i,
    {
        proof {
            lemma_all_lines_index(board@);
            lemma_lines_value_step(ls, 7 + i, player);
        }
        score = score + line_score(board, player, 0, i, 1, 0, HEIGHT);
        i += 1;
    }
    let mut i: usize = 0;
    while i < HEIGHT
        invariant
            i <= HEIGHT,
            ls == all_lines(board@),
            score == lines_value(ls.take(16 + i), player),
            -512 * (16 + i) <= score <= 512 * (16 + i),
        decreases HEIGHT - i,
    {
        proof {
            lemma_all_lines_index(board@);
            lemma_lines_value_step(ls, 16 + i, player);
        }
        score = score + line_score(board, player, HEIGHT - 1 - i, 0, 1, 1, i + 1);
        i += 1;
    }
    let mut i: usize = 0;
    while i < HEIGHT
        invariant
            i <= HEIGHT,
            ls == all_lines(board@),
            score == lines_value(ls.take(23 + i), player),
            -512 * (23 + i) <= score <= 512 * (23 + i),
        decreases HEIGHT - i,
    {
        proof {
            lemma_all_lines_index(board@);
            lemma_lines_value_step(ls, 23 + i, player);
        }
        score = score + line_score(board, player, HEIGHT - 1 - i, WIDTH - 1, 1, -1, i + 1);
        i += 1;
    }
    let mut i: usize = 1;
    while i < WIDTH
        invariant
            1 <= i <= WIDTH,
            ls == all_lines(board@),
            score == lines_value(ls.take(29 + i), player),
            -512 * (29 + i) <= score <= 512 * (29 + i),
        decreases WIDTH - i,
    {
        proof {
            lemma_all_lines_index(board@);
            lemma_lines_value_step(ls, 29 + i, player);
        }
        let len: usize = if WIDTH - i < HEIGHT { WIDTH - i } else { HEIGHT };
        score = score + line_score(board, player, 0, i, 1, 1, len);
        i += 1;
    }
    let mut i: usize = 1;
    while i < WIDTH
        invariant
            1 <= i <= WIDTH,
            ls == all_lines(board@),
            score == lines_value(ls.take(37 + i), player),
            -512 * (37 + i) <= score <= 512 * (37 + i),
        decreases WIDTH - i,
    {
        proof {
            lemma_all_lines_index(board@);
            lemma_lines_value_step(ls, 37 + i, player);
        }
        let len: usize = if WIDTH - i < HEIGHT { WIDTH - i } else { HEIGHT };
        score = score + line_score(board, player, 0, WIDTH - 1 - i, 1, -1, len);
        i += 1;
    }
    proof {
        lemma_all_lines_index(board@);
        assert(ls.take(46) =~= ls);
    }
    score
}

/// The score of the board from the automated player's side (player 2).
pub fn game_score(board: &Board) -> (score: i32)
    ensures
        score == board_value(board@, 2),
{
    calculate_score(board, 2)
}

/// A line's value is at most two to the power of its length in magnitude.
pub proof fn lemma_pattern_value_bound(s: Seq<i32>, player: i32)
    ensures
        -pow2(s.len()) <= pattern_value(s, player) <= pow2(s.len()),
    decreases s.len(),
{
    if s.len() > 0 {
        lemma_trailing_run_bounds(s);
        let n = trailing_run(s);
        let k = (s.len() - n) as nat;
        lemma_pattern_value_bound(s.take(k as int), player);
        lemma_pow2_monotonic(k, (s.len() - 1) as nat);
        lemma_pow2_monotonic((n - 1) as nat, (s.len() - 1) as nat);
        lemma_mul_sign(pow2((n - 1) as nat) as int, sign_of(s.last(), player));
    }
}

proof fn lemma_lines_value_bound(ls: Seq<Seq<i32>>, player: i32, m: nat, bound: int)
    requires
        forall|i: int| 0 <= i < ls.len() ==> #[trigger] ls[i].len() <= m,
        pow2(m) <= bound,
    ensures
        -(ls.len() * bound) <= lines_value(ls, player) <= ls.len() * bound,
    decreases ls.len(),
{
    if ls.len() > 0 {
        let rest = ls.drop_last();
        assert forall|i: int| 0 <= i < rest.len() implies #[trigger] rest[i].len() <= m by {
            assert(rest[i] == ls[i]);
        }
        lemma_lines_value_bound(rest, player, m, bound);
        lemma_pattern_value_bound(ls.last(), player);
        lemma_pow2_monotonic(ls.last().len(), m);
        assert(ls.len() * bound == (ls.len() - 1) * bound + bound) by (nonlinear_arith);
    } else {
        assert(ls.len() * bound == 0) by (nonlinear_arith)
            requires
                ls.len() == 0,
        ;
    }
}

proof fn lemma_lines_value_append(a: Seq<Seq<i32>>, b: Seq<Seq<i32>>, player: i32)
    ensures
        lines_value(a + b, player) == lines_value(a, player) + lines_value(b, player),
    decreases b.len(),
{
    if b.len() > 0 {
        assert((a + b).drop_last() =~= a + b.drop_last());
        lemma_lines_value_append(a, b.drop_last(), player);
    } else {
        assert(a + b =~= a);
    }
}

/// Every board scores strictly inside the search's sentinels: at most 8576 in magnitude.
pub proof fn lemma_board_value_bound(g: Seq<Seq<i32>>, player: i32)
    ensures
        -8576 <= board_value(g, player) <= 8576,
{
    let ls = all_lines(g);
    lemma_all_lines_index(g);
    let rest = ls.skip(7);
    assert(ls =~= rows(g) + rest);
    lemma_lines_value_append(rows(g), rest, player);
    reveal_with_fuel(pow2, 10);
    lemma_lines_value_bound(rows(g), player, 9, 512);
    assert forall|i: int| 0 <= i < rest.len() implies #[trigger] rest[i].len() <= 7 by {
        assert(rest[i] == ls[7 + i]);
    }
    lemma_lines_value_bound(rest, player, 7, 128);
}

/// Every value of `s` is an empty cell or a player's piece.
pub open spec fn cells_valid(s: Seq<i32>) -> bool {
    forall|i: int| 0 <= i < s.len() ==> 0 <= #[trigger] s[i] <= 2
}

proof fn lemma_pattern_value_symmetric(s: Seq<i32>)
    requires
        cells_valid(s),
    ensures
        pattern_value(s, 1) == -pattern_value(s, 2),
    decreases s.len(),
{
    if s.len() > 0 {
        lemma_trailing_run_bounds(s);
        let n = trailing_run(s);
        let p = s.take(s.len() - n);
        assert(cells_valid(p)) by {
            assert forall|i: int| 0 <= i < p.len() implies 0 <= #[trigger] p[i] <= 2 by {
                assert(p[i] == s[i]);
            }
        }
        lemma_pattern_value_symmetric(p);
        let w = pow2((n - 1) as nat) as int;
        lemma_mul_sign(w, sign_of(s.last(), 1));
        lemma_mul_sign(w, sign_of(s.last(), 2));
    }
}

proof fn lemma_lines_value_symmetric(ls: Seq<Seq<i32>>)
    requires
        forall|k: int| 0 <= k < ls.len() ==> cells_valid(#[trigger] ls[k]),
    ensures
        lines_value(ls, 1) == -lines_value(ls, 2),
    decreases ls.len(),
{
    if ls.len() > 0 {
        let rest = ls.drop_last();
        assert forall|k: int| 0 <= k < rest.len() implies cells_valid(#[trigger] rest[k]) by {
            assert(rest[k] == ls[k]);
        }
        lemma_lines_value_symmetric(rest);
        lemma_pattern_value_symmetric(ls.last());
    }
}

/// On a board of empty cells and players' pieces, the score for one player is the
/// negation of the score for the other.
pub proof fn lemma_score_symmetric(g: Seq<Seq<i32>>)
    requires
        well_formed(g),
    ensures
        board_value(g, 1) == -board_value(g, 2),
{
    let ls = all_lines(g);
    lemma_all_lines_index(g);
    assert forall|k: int| 0 <= k < ls.len() implies cells_valid(#[trigger] ls[k]) by {
        let l = ls[k];
        assert forall|i: int| 0 <= i < l.len() implies 0 <= #[trigger] l[i] <= 2 by {
            if k < 7 {
                assert(l[i] == g[k][i]);
            } else if k < 16 {
                assert(l[i] == g[i][k - 7]);
            } else if k < 23 {
                assert(l[i] == g[HEIGHT - 1 - (k - 16) + i][i]);
            } else if k < 30 {
                assert(l[i] == g[HEIGHT - 1 - (k - 23) + i][WIDTH - 1 - i]);
            } else if k < 38 {
                assert(l[i] == g[i][k - 29 + i]);
            } else {
                assert(l[i] == g[i][WIDTH - 2 - (k - 38) - i]);
            }
        }
    }
    lemma_lines_value_symmetric(ls);
}

} // verus!
