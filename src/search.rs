use vstd::prelude::*;

use crate::board::{dropped, Board, WIDTH};
use crate::score::{board_value, game_score, lemma_board_value_bound};

verus! {

/// The score that stands for "nothing found yet": larger in magnitude than any board score.
pub const SENTINEL: i32 = 9999;

/// The piece of the player to move: player 2 when maximizing, player 1 otherwise.
pub open spec fn mover(maximizing: bool) -> i32 {
    if maximizing {
        2
    } else {
        1
    }
}

/// The board after the player to move drops a piece into column `c`.
pub open spec fn child(g: Seq<Seq<i32>>, maximizing: bool, c: int) -> Seq<Seq<i32>> {
    dropped(g, c, mover(maximizing))
}

/// The (score, column) pair a search starts from before any column is examined.
pub open spec fn initial_best(maximizing: bool) -> (int, int) {
    if maximizing {
        (-SENTINEL as int, 0)
    } else {
        (SENTINEL as int, 0)
    }
}

/// Whether `v` strictly improves on `best` for the side to move.
pub open spec fn improves(maximizing: bool, v: int, best: int) -> bool {
    if maximizing {
        v > best
    } else {
        v < best
    }
}

/// Plain minimax to `depth` plies: the best (score, column) for the side to move, the
/// lowest column winning ties; leaves are scored from player 2's side.
pub open spec fn minimax(g: Seq<Seq<i32>>, maximizing: bool, depth: nat) -> (int, int)
    decreases depth, 1int, 0int,
{
    if depth == 0 {
        (board_value(g, 2), 0)
    } else {
        minimax_scan(g, maximizing, depth, 0, initial_best(maximizing))
    }
}

/// Plain minimax over the open columns from `c` on, starting from `best`.
pub open spec fn minimax_scan(
    g: Seq<Seq<i32>>,
    maximizing: bool,
    depth: nat,
    c: int,
    best: (int, int),
) -> (int, int)
    decreases depth, 0int, WIDTH - c,
{
    if depth == 0 || c < 0 || c >= WIDTH {
        best
    } else if g[0][c] != 0 {
        minimax_scan(g, maximizing, depth, c + 1, best)
    } else {
        let v = minimax(child(g, maximizing, c), !maximizing, (depth - 1) as nat).0;
        let next = if improves(maximizing, v, best.0) {
            (v, c)
        } else {
            best
        };
        minimax_scan(g, maximizing, depth, c + 1, next)
    }
}

/// Minimax with alpha-beta pruning, from the window (alpha, beta).
pub open spec fn alpha_beta(
    g: Seq<Seq<i32>>,
    maximizing: bool,
    depth: nat,
    alpha: int,
    beta: int,
) -> (int, int)
    decreases depth, 1int, 0int,
{
    if depth == 0 {
        (board_value(g, 2), 0)
    } else {
        alpha_beta_scan(g, maximizing, depth, 0, alpha, beta, initial_best(maximizing))
    }
}

/// Alpha-beta over the open columns from `c` on; stops once `beta <= alpha`.
pub open spec fn alpha_beta_scan(
    g: Seq<Seq<i32>>,
    maximizing: bool,
    depth: nat,
    c: int,
    alpha: int,
    beta: int,
    best: (int, int),
) -> (int, int)
    decreases depth, 0int, WIDTH - c,
{
    if depth == 0 || c < 0 || c >= WIDTH {
        best
    } else if g[0][c] != 0 {
        alpha_beta_scan(g, maximizing, depth, c + 1, alpha, beta, best)
    } else {
        let v = alpha_beta(child(g, maximizing, c), !maximizing, (depth - 1) as nat, alpha, beta).0;
        let next = if improves(maximizing, v, best.0) {
            (v, c)
        } else {
            best
        };
        let a = if maximizing && v > alpha {
            v
        } else {
            alpha
        };
        let b = if !maximizing && v < beta {
            v
        } else {
            beta
        };
        if b <= a {
            next
        } else {
            alpha_beta_scan(g, maximizing, depth, c + 1, a, b, next)
        }
    }
}

/// Searches `depth` plies with alpha-beta pruning and returns [score, column]: the best
/// score for the side to move (player 2 when maximizing) and the lowest column reaching it.
pub fn minmax(board: &Board, maximizing: bool, depth: i32, alpha: i32, beta: i32) -> (r: [i32; 2])
    requires
        depth >= 0,
    ensures
        r[0] == alpha_beta(board@, maximizing, depth as nat, alpha as int, beta as int).0,
        r[1] == alpha_beta(board@, maximizing, depth as nat, alpha as int, beta as int).1,
        -SENTINEL <= alpha < beta <= SENTINEL ==> window_bound(
            r[0] as int,
            minimax(board@, maximizing, depth as nat).0,
            alpha as int,
            beta as int,
        ),
        alpha == -SENTINEL && beta == SENTINEL ==> r[0] == minimax(
            board@,
            maximizing,
            depth as nat,
        ).0 && r[1] == minimax(board@, maximizing, depth as nat).1,
        0 <= r[1] < WIDTH,
    decreases depth,
{
    proof {
        if -SENTINEL <= alpha < beta <= SENTINEL {
            lemma_alpha_beta_window(board@, maximizing, depth as nat, alpha as int, beta as int);
        }
        lemma_pruning_preserves_result(board@, maximizing, depth as nat);
    }
    if depth == 0 {
        return [game_score(board), 0];
    }
    let ghost g = board@;
    let ghost target = alpha_beta(g, maximizing, depth as nat, alpha as int, beta as int);
    let player: i32 = if maximizing {
        2
    } else {
        1
    };
    let mut alpha = alpha;
    let mut beta = beta;
    let mut best: [i32; 2] = if maximizing {
        [-SENTINEL, 0]
    } else {
        [SENTINEL, 0]
    };
    let mut i: usize = 0;
    while i < WIDTH
        invariant_except_break
            alpha_beta_scan(
                g,
                maximizing,
                depth as nat,
                i as int,
                alpha as int,
                beta as int,
                (best[0] as int, best[1] as int),
            ) == target,
        invariant
            i <= WIDTH,
            0 <= best[1] < WIDTH,
            depth > 0,
            g == board@,
            player == mover(maximizing),
        ensures
            (best[0] as int, best[1] as int) == target,
        decreases WIDTH - i,
    {
        if board.cells[0][i] == 0 {
            let mut copy: Board = *board;
            copy.place_piece(i, player);
            let reply = minmax(&copy, !maximizing, depth - 1, alpha, beta);
            let score = reply[0];
            if maximizing {
                if score > best[0] {
                    best = [score, i as i32];
                }
                if score > alpha {
                    alpha = score;
                }
            } else {
                if score < best[0] {
                    best = [score, i as i32];
                }
                if score < beta {
                    beta = score;
                }
            }
            if beta <= alpha {
                break;
            }
        }
        i += 1;
    }
    best
}

/// Every value either search produces lies within the sentinels.
proof fn lemma_values_in_range(g: Seq<Seq<i32>>, maximizing: bool, depth: nat, alpha: int, beta: int)
    ensures
        -SENTINEL <= minimax(g, maximizing, depth).0 <= SENTINEL,
        -SENTINEL <= alpha_beta(g, maximizing, depth, alpha, beta).0 <= SENTINEL,
    decreases depth, 1int, 0int,
{
    if depth == 0 {
        lemma_board_value_bound(g, 2);
    } else {
        lemma_scans_in_range(
            g,
            maximizing,
            depth,
            0,
            alpha,
            beta,
            initial_best(maximizing),
            initial_best(maximizing),
        );
    }
}

proof fn lemma_scans_in_range(
    g: Seq<Seq<i32>>,
    maximizing: bool,
    depth: nat,
    c: int,
    alpha: int,
    beta: int,
    best_ab: (int, int),
    best_mm: (int, int),
)
    requires
        -SENTINEL <= best_ab.0 <= SENTINEL,
        -SENTINEL <= best_mm.0 <= SENTINEL,
    ensures
        -SENTINEL <= minimax_scan(g, maximizing, depth, c, best_mm).0 <= SENTINEL,
        -SENTINEL <= alpha_beta_scan(g, maximizing, depth, c, alpha, beta, best_ab).0 <= SENTINEL,
    decreases depth, 0int, WIDTH - c,
{
    if depth == 0 || c < 0 || c >= WIDTH {
    } else if g[0][c] != 0 {
        lemma_scans_in_range(g, maximizing, depth, c + 1, alpha, beta, best_ab, best_mm);
    } else {
        let ch = child(g, maximizing, c);
        let d = (depth - 1) as nat;
        lemma_values_in_range(ch, !maximizing, d, alpha, beta);
        let v = alpha_beta(ch, !maximizing, d, alpha, beta).0;
        let next = if improves(maximizing, v, best_ab.0) {
            (v, c)
        } else {
            best_ab
        };
        let a = if maximizing && v > alpha {
            v
        } else {
            alpha
        };
        let b = if !maximizing && v < beta {
            v
        } else {
            beta
        };
        let w = minimax(ch, !maximizing, d).0;
        let next_mm = if improves(maximizing, w, best_mm.0) {
            (w, c)
        } else {
            best_mm
        };
        lemma_scans_in_range(g, maximizing, depth, c + 1, a, b, next, next_mm);
    }
}

/// A plain scan never ends worse for the side to move than where it started, and one
/// that already holds the extreme score keeps its pair.
proof fn lemma_minimax_scan_monotone(
    g: Seq<Seq<i32>>,
    maximizing: bool,
    depth: nat,
    c: int,
    best: (int, int),
)
    requires
        -SENTINEL <= best.0 <= SENTINEL,
    ensures
        maximizing ==> minimax_scan(g, maximizing, depth, c, best).0 >= best.0,
        !maximizing ==> minimax_scan(g, maximizing, depth, c, best).0 <= best.0,
        maximizing && best.0 == SENTINEL ==> minimax_scan(g, maximizing, depth, c, best) == best,
        !maximizing && best.0 == -SENTINEL ==> minimax_scan(g, maximizing, depth, c, best)
            == best,
    decreases WIDTH - c,
{
    if depth == 0 || c < 0 || c >= WIDTH {
    } else if g[0][c] != 0 {
        lemma_minimax_scan_monotone(g, maximizing, depth, c + 1, best);
    } else {
        let ch = child(g, maximizing, c);
        let d = (depth - 1) as nat;
        lemma_values_in_range(ch, !maximizing, d, 0, 0);
        let w = minimax(ch, !maximizing, d).0;
        let next = if improves(maximizing, w, best.0) {
            (w, c)
        } else {
            best
        };
        lemma_minimax_scan_monotone(g, maximizing, depth, c + 1, next);
    }
}

/// How a pruned score `r` from the window (alpha, beta) relates to the exact score `v`:
/// exact inside the window, and on the right side of it outside.
pub open spec fn window_bound(r: int, v: int, alpha: int, beta: int) -> bool {
    &&& r <= alpha ==> v <= r
    &&& r >= beta ==> v >= r
    &&& alpha < r < beta ==> v == r
}

/// Alpha-beta from a window inside the sentinels is exact inside the window and a bound
/// on the exact score outside it.
pub proof fn lemma_alpha_beta_window(
    g: Seq<Seq<i32>>,
    maximizing: bool,
    depth: nat,
    alpha: int,
    beta: int,
)
    requires
        -SENTINEL <= alpha < beta <= SENTINEL,
    ensures
        window_bound(
            alpha_beta(g, maximizing, depth, alpha, beta).0,
            minimax(g, maximizing, depth).0,
            alpha,
            beta,
        ),
    decreases depth, 1int, 0int,
{
    if depth > 0 {
        let init = initial_best(maximizing);
        lemma_scan_window(g, maximizing, depth, 0, alpha, beta, alpha, beta, init, init);
    }
}

proof fn lemma_scan_window(
    g: Seq<Seq<i32>>,
    maximizing: bool,
    depth: nat,
    c: int,
    alpha0: int,
    beta0: int,
    alpha: int,
    beta: int,
    best_ab: (int, int),
    best_mm: (int, int),
)
    requires
        -SENTINEL <= alpha0 < beta0 <= SENTINEL,
        maximizing ==> beta == beta0 && alpha == (if best_ab.0 > alpha0 {
            best_ab.0
        } else {
            alpha0
        }),
        !maximizing ==> alpha == alpha0 && beta == (if best_ab.0 < beta0 {
            best_ab.0
        } else {
            beta0
        }),
        alpha < beta,
        -SENTINEL <= best_ab.0 <= SENTINEL,
        -SENTINEL <= best_mm.0 <= SENTINEL,
        window_bound(best_ab.0, best_mm.0, alpha0, beta0),
    ensures
        window_bound(
            alpha_beta_scan(g, maximizing, depth, c, alpha, beta, best_ab).0,
            minimax_scan(g, maximizing, depth, c, best_mm).0,
            alpha0,
            beta0,
        ),
    decreases depth, 0int, WIDTH - c,
{
    if depth == 0 || c < 0 || c >= WIDTH {
    } else if g[0][c] != 0 {
        lemma_scan_window(g, maximizing, depth, c + 1, alpha0, beta0, alpha, beta, best_ab, best_mm);
    } else {
        let ch = child(g, maximizing, c);
        let d = (depth - 1) as nat;
        lemma_values_in_range(ch, !maximizing, d, alpha, beta);
        lemma_alpha_beta_window(ch, !maximizing, d, alpha, beta);
        let v = alpha_beta(ch, !maximizing, d, alpha, beta).0;
        let w = minimax(ch, !maximizing, d).0;
        let next = if improves(maximizing, v, best_ab.0) {
            (v, c)
        } else {
            best_ab
        };
        let next_mm = if improves(maximizing, w, best_mm.0) {
            (w, c)
        } else {
            best_mm
        };
        let a = if maximizing && v > alpha {
            v
        } else {
            alpha
        };
        let b = if !maximizing && v < beta {
            v
        } else {
            beta
        };
        lemma_minimax_scan_monotone(g, maximizing, depth, c + 1, next_mm);
        if b > a {
            lemma_scan_window(g, maximizing, depth, c + 1, alpha0, beta0, a, b, next, next_mm);
        }
    }
}

/// At the root, from the full window, the pruned scan picks the same pair as the plain one.
proof fn lemma_root_scan(g: Seq<Seq<i32>>, maximizing: bool, depth: nat, c: int, best: (int, int))
    requires
        -SENTINEL <= best.0 <= SENTINEL,
        maximizing ==> best.0 < SENTINEL,
        !maximizing ==> best.0 > -SENTINEL,
    ensures
        alpha_beta_scan(
            g,
            maximizing,
            depth,
            c,
            if maximizing {
                best.0
            } else {
                -SENTINEL as int
            },
            if maximizing {
                SENTINEL as int
            } else {
                best.0
            },
            best,
        ) == minimax_scan(g, maximizing, depth, c, best),
    decreases WIDTH - c,
{
    let alpha: int = if maximizing {
        best.0
    } else {
        -SENTINEL as int
    };
    let beta: int = if maximizing {
        SENTINEL as int
    } else {
        best.0
    };
    if depth == 0 || c < 0 || c >= WIDTH {
    } else if g[0][c] != 0 {
        lemma_root_scan(g, maximizing, depth, c + 1, best);
    } else {
        let ch = child(g, maximizing, c);
        let d = (depth - 1) as nat;
        lemma_values_in_range(ch, !maximizing, d, alpha, beta);
        lemma_alpha_beta_window(ch, !maximizing, d, alpha, beta);
        let v = alpha_beta(ch, !maximizing, d, alpha, beta).0;
        let w = minimax(ch, !maximizing, d).0;
        let next = if improves(maximizing, v, best.0) {
            (v, c)
        } else {
            best
        };
        let next_mm = if improves(maximizing, w, best.0) {
            (w, c)
        } else {
            best
        };
        lemma_minimax_scan_monotone(g, maximizing, depth, c + 1, next_mm);
        if (maximizing && next.0 < SENTINEL) || (!maximizing && next.0 > -SENTINEL) {
            lemma_root_scan(g, maximizing, depth, c + 1, next);
        }
    }
}

/// Pruning never changes the result: alpha-beta from the full window (-9999, 9999)
/// returns the same (score, column) pair as plain minimax, for every board and depth.
pub proof fn lemma_pruning_preserves_result(g: Seq<Seq<i32>>, maximizing: bool, depth: nat)
    ensures
        alpha_beta(g, maximizing, depth, -SENTINEL as int, SENTINEL as int) == minimax(
            g,
            maximizing,
            depth,
        ),
{
    if depth > 0 {
        lemma_root_scan(g, maximizing, depth, 0, initial_best(maximizing));
    }
}

} // verus!
