use vstd::prelude::*;

verus! {

/// Number of columns on the board.
pub const WIDTH: usize = 9;

/// Number of rows on the board; row 0 is the top.
pub const HEIGHT: usize = 7;

/// A 7-row by 9-column grid; 0 is an empty cell, 1 and 2 are the players' pieces.
#[derive(Clone, Copy, PartialEq, Eq, Debug)]
pub struct Board {
    pub cells: [[i32; WIDTH]; HEIGHT],
}

impl View for Board {
    type V = Seq<Seq<i32>>;

    open spec fn view(&self) -> Seq<Seq<i32>> {
        Seq::new(HEIGHT as nat, |r: int| self.cells[r]@)
    }
}

/// The grid is rectangular with the board's dimensions.
pub open spec fn shaped(g: Seq<Seq<i32>>) -> bool {
    g.len() == HEIGHT && forall|r: int| 0 <= r < HEIGHT ==> #[trigger] g[r].len() == WIDTH
}

/// Every cell holds 0, 1 or 2, and no piece floats above an empty cell.
pub open spec fn well_formed(g: Seq<Seq<i32>>) -> bool {
    &&& shaped(g)
    &&& forall|r: int, c: int|
        0 <= r < HEIGHT && 0 <= c < WIDTH ==> 0 <= #[trigger] g[r][c] <= 2
    &&& forall|r: int, c: int|
        0 <= r < HEIGHT - 1 && 0 <= c < WIDTH && #[trigger] g[r][c] != 0 ==> g[r + 1][c] != 0
}

/// The lowest empty row of column `c` among rows `0..=r`, or -1 if they are all occupied.
pub open spec fn lowest_empty_upto(g: Seq<Seq<i32>>, c: int, r: int) -> int
    decreases r + 1,
{
    if r < 0 {
        -1
    } else if g[r][c] == 0 {
        r
    } else {
        lowest_empty_upto(g, c, r - 1)
    }
}

/// The lowest empty row of column `c`, or -1 if the column is full.
pub open spec fn lowest_empty(g: Seq<Seq<i32>>, c: int) -> int {
    lowest_empty_upto(g, c, HEIGHT - 1)
}

/// The grid after dropping `piece` into column `c`; unchanged if the column is full.
pub open spec fn dropped(g: Seq<Seq<i32>>, c: int, piece: i32) -> Seq<Seq<i32>> {
    let r = lowest_empty(g, c);
    if r >= 0 {
        g.update(r, g[r].update(c, piece))
    } else {
        g
    }
}

/// `lowest_empty_upto` is the largest empty row at or above `r`.
pub proof fn lemma_lowest_empty_upto(g: Seq<Seq<i32>>, c: int, r: int)
    requires
        shaped(g),
        0 <= c < WIDTH,
        -1 <= r < HEIGHT,
    ensures
        -1 <= lowest_empty_upto(g, c, r) <= r,
        lowest_empty_upto(g, c, r) >= 0 ==> g[lowest_empty_upto(g, c, r)][c] == 0,
        forall|k: int| lowest_empty_upto(g, c, r) < k <= r && 0 <= k ==> g[k][c] != 0,
    decreases r + 1,
{
    if r >= 0 && g[r][c] != 0 {
        lemma_lowest_empty_upto(g, c, r - 1);
        assert(lowest_empty_upto(g, c, r) == lowest_empty_upto(g, c, r - 1));
    }
}

/// A column has an empty cell exactly when its lowest empty row exists; that row is
/// empty and every row below it is occupied.
pub proof fn lemma_lowest_empty(g: Seq<Seq<i32>>, c: int)
    requires
        shaped(g),
        0 <= c < WIDTH,
    ensures
        (lowest_empty(g, c) >= 0) == (exists|r: int| 0 <= r < HEIGHT && g[r][c] == 0),
        -1 <= lowest_empty(g, c) < HEIGHT,
        lowest_empty(g, c) >= 0 ==> g[lowest_empty(g, c)][c] == 0,
        forall|k: int| lowest_empty(g, c) < k < HEIGHT ==> g[k][c] != 0,
{
    lemma_lowest_empty_upto(g, c, HEIGHT - 1);
    if lowest_empty(g, c) < 0 {
        assert forall|r: int| 0 <= r < HEIGHT implies g[r][c] != 0 by {
            assert(lowest_empty(g, c) < r);
        }
    }
}

/// On a well-formed board, an occupied top cell means every cell below it is occupied.
proof fn lemma_occupied_down(g: Seq<Seq<i32>>, c: int, r: int)
    requires
        well_formed(g),
        0 <= c < WIDTH,
        0 <= r < HEIGHT,
        g[0][c] != 0,
    ensures
        g[r][c] != 0,
    decreases r,
{
    if r > 0 {
        lemma_occupied_down(g, c, r - 1);
    }
}

/// On a well-formed board, a column whose top cell is occupied is full.
pub proof fn lemma_full_column(g: Seq<Seq<i32>>, c: int)
    requires
        well_formed(g),
        0 <= c < WIDTH,
        g[0][c] != 0,
    ensures
        lowest_empty(g, c) == -1,
        forall|r: int| 0 <= r < HEIGHT ==> g[r][c] != 0,
{
    assert forall|r: int| 0 <= r < HEIGHT implies g[r][c] != 0 by {
        lemma_occupied_down(g, c, r);
    }
    lemma_lowest_empty(g, c);
}

/// Dropping a player's piece keeps a well-formed board well formed.
pub proof fn lemma_dropped_well_formed(g: Seq<Seq<i32>>, c: int, piece: i32)
    requires
        well_formed(g),
        0 <= c < WIDTH,
        piece == 1 || piece == 2,
    ensures
        well_formed(dropped(g, c, piece)),
{
    lemma_lowest_empty(g, c);
}

impl Board {
    /// An empty board.
    pub fn new() -> (b: Board)
        ensures
            forall|r: int, c: int| 0 <= r < HEIGHT && 0 <= c < WIDTH ==> b@[r][c] == 0,
    {
        Board { cells: [[0i32; WIDTH]; HEIGHT] }
    }

    /// Drops `piece` into `column`: it lands on the lowest empty row. Returns false,
    /// leaving the board as it was, when the column has no empty cell.
    pub fn place_piece(&mut self, column: usize, piece: i32) -> (success: bool)
        requires
            column < WIDTH,
            piece == 1 || piece == 2,
        ensures
            success == (exists|r: int| 0 <= r < HEIGHT && old(self)@[r][column as int] == 0),
            final(self)@ == dropped(old(self)@, column as int, piece),
            success ==> ({
                let r = lowest_empty(old(self)@, column as int);
                &&& 0 <= r < HEIGHT
                &&& old(self)@[r][column as int] == 0
                &&& forall|k: int| r < k < HEIGHT ==> old(self)@[k][column as int] != 0
                &&& final(self)@[r][column as int] == piece
                &&& forall|i: int, j: int|
                    0 <= i < HEIGHT && 0 <= j < WIDTH && (i != r || j != column)
                        ==> final(self)@[i][j] == old(self)@[i][j]
            }),
            !success ==> *final(self) == *old(self),
            well_formed(old(self)@) && old(self)@[0][column as int] != 0 ==> !success,
            well_formed(old(self)@) ==> well_formed(final(self)@),
    {
        proof {
            lemma_lowest_empty(self@, column as int);
            if well_formed(self@) {
                lemma_dropped_well_formed(self@, column as int, piece);
                if self@[0][column as int] != 0 {
                    lemma_full_column(self@, column as int);
                }
            }
        }
        let mut row: usize = HEIGHT - 1;
        while self.cells[row][column] != 0
            invariant
                row < HEIGHT,
                column < WIDTH,
                *self == *old(self),
                lowest_empty(self@, column as int) == lowest_empty_upto(self@, column as int, row as int),
            decreases row,
        {
            if row == 0 {
                proof {
                    assert(lowest_empty_upto(self@, column as int, -1) == -1);
                    lemma_lowest_empty(self@, column as int);
                }
                return false;
            }
            row -= 1;
        }
        self.cells[row][column] = piece;
        assert(self@ =~= dropped(old(self)@, column as int, piece));
        true
    }
}

} // verus!
