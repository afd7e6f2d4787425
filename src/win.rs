use vstd::prelude::*;

use crate::board::{shaped, Board, HEIGHT, WIDTH};

verus! {

/// The cell (r, c) lies on the board.
pub open spec fn in_bounds(r: int, c: int) -> bool {
    0 <= r < HEIGHT && 0 <= c < WIDTH
}

/// Four cells starting at (r, c) and stepping by (dr, dc) all lie on the board and
/// all hold the value of (r, c).
pub open spec fn run_of_four(g: Seq<Seq<i32>>, r: int, c: int, dr: int, dc: int) -> bool {
    &&& in_bounds(r, c)
    &&& in_bounds(r + 3 * dr, c + 3 * dc)
    &&& g[r + dr][c + dc] == g[r][c]
    &&& g[r + 2 * dr][c + 2 * dc] == g[r][c]
    &&& g[r + 3 * dr][c + 3 * dc] == g[r][c]
}

/// A run of four starts at (r, c): rightward, downward, down-right or down-left.
pub open spec fn wins_at(g: Seq<Seq<i32>>, r: int, c: int) -> bool {
    ||| run_of_four(g, r, c, 0, 1)
    ||| run_of_four(g, r, c, 1, 0)
    ||| run_of_four(g, r, c, 1, 1)
    ||| run_of_four(g, r, c, 1, -1)
}

/// `player` owns a cell from which a run of four starts.
pub open spec fn has_won(g: Seq<Seq<i32>>, player: i32) -> bool {
    exists|r: int, c: int| in_bounds(r, c) && g[r][c] == player && #[trigger] wins_at(g, r, c)
}

/// Whether a run of four equal cells starts at (row, col), going right, down,
/// down-right or down-left.
pub fn check_winner_at_position(board: &Board, row: usize, col: usize) -> (won: bool)
    requires
        row < HEIGHT,
        col < WIDTH,
    ensures
        won == wins_at(board@, row as int, col as int),
{
    let piece = board.cells[row][col];
    // rightward
    if col + 3 < WIDTH && board.cells[row][col + 1] == piece && board.cells[row][col + 2] == piece
        && board.cells[row][col + 3] == piece {
        return true;
    }
    // downward
    if row + 3 < HEIGHT && board.cells[row + 1][col] == piece && board.cells[row + 2][col] == piece
        && board.cells[row + 3][col] == piece {
        return true;
    }
    // down-right
    if row + 3 < HEIGHT && col + 3 < WIDTH && board.cells[row + 1][col + 1] == piece
        && board.cells[row + 2][col + 2] == piece && board.cells[row + 3][col + 3] == piece {
        return true;
    }
    // down-left
    if row + 3 < HEIGHT && col >= 3 && board.cells[row + 1][col - 1] == piece
        && board.cells[row + 2][col - 2] == piece && board.cells[row + 3][col - 3] == piece {
        return true;
    }
    false
}

/// Whether `piece` has four in a row anywhere on the board.
pub fn check_winner(board: &Board, piece: i32) -> (won: bool)
    ensures
        won == has_won(board@, piece),
{
    let mut i: usize = 0;
    while i < HEIGHT
        invariant
            i <= HEIGHT,
            forall|r: int, c: int|
                0 <= r < i && 0 <= c < WIDTH && board@[r][c] == piece ==> !#[trigger] wins_at(
                    board@,
                    r,
                    c,
                ),
        decreases HEIGHT - i,
    {
        let mut j: usize = 0;
        while j < WIDTH
            invariant
                i < HEIGHT,
                j <= WIDTH,
                forall|r: int, c: int|
                    (0 <= r < i && 0 <= c < WIDTH || r == i && 0 <= c < j) && board@[r][c]
                        == piece ==> !#[trigger] wins_at(board@, r, c),
            decreases WIDTH - j,
        {
            if board.cells[i][j] == piece && check_winner_at_position(board, i, j) {
                return true;
            }
            j += 1;
        }
        i += 1;
    }
    false
}

/// Four cells in a straight line, in any of the eight directions, that all hold
/// `player` make `player` a winner.
pub proof fn lemma_four_in_line_wins(
    g: Seq<Seq<i32>>,
    player: i32,
    r: int,
    c: int,
    dr: int,
    dc: int,
)
    requires
        shaped(g),
        -1 <= dr <= 1,
        -1 <= dc <= 1,
        dr != 0 || dc != 0,
        in_bounds(r, c),
        in_bounds(r + 3 * dr, c + 3 * dc),
        g[r][c] == player,
        g[r + dr][c + dc] == player,
        g[r + 2 * dr][c + 2 * dc] == player,
        g[r + 3 * dr][c + 3 * dc] == player,
    ensures
        has_won(g, player),
{
    // start from the end of the line that is highest, or leftmost on a row
    if dr == 1 || (dr == 0 && dc == 1) {
        assert(wins_at(g, r, c));
    } else {
        let (sr, sc) = (r + 3 * dr, c + 3 * dc);
        assert(run_of_four(g, sr, sc, -dr, -dc));
        assert(wins_at(g, sr, sc));
    }
}

/// A player with no piece on the board has not won.
pub proof fn lemma_absent_player_has_not_won(g: Seq<Seq<i32>>, player: i32)
    requires
        forall|r: int, c: int| in_bounds(r, c) ==> g[r][c] != player,
    ensures
        !has_won(g, player),
{
}

} // verus!
