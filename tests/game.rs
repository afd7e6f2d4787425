use connect_four::board::{Board, HEIGHT, WIDTH};
use connect_four::score::{calculate_pattern_score, calculate_score, game_score};
use connect_four::search::{minmax, SENTINEL};
use connect_four::win::{check_winner, check_winner_at_position};

fn board_from_moves(moves: &[(usize, i32)]) -> Board {
    let mut b = Board::new();
    for &(col, piece) in moves {
        assert!(b.place_piece(col, piece));
    }
    b
}

#[test]
fn place_lands_on_lowest_empty_row() {
    let mut b = Board::new();
    assert!(b.place_piece(3, 1));
    assert_eq!(b.cells[HEIGHT - 1][3], 1);
    assert!(b.place_piece(3, 2));
    assert_eq!(b.cells[HEIGHT - 2][3], 2);
    for r in 0..HEIGHT {
        for c in 0..WIDTH {
            if !(c == 3 && r >= HEIGHT - 2) {
                assert_eq!(b.cells[r][c], 0);
            }
        }
    }
}

#[test]
fn place_on_full_column_fails_and_keeps_board() {
    let mut b = Board::new();
    for k in 0..HEIGHT {
        assert!(b.place_piece(0, (k % 2) as i32 + 1));
    }
    let before = b;
    assert!(!b.place_piece(0, 1));
    assert_eq!(b, before);
    assert!(b.place_piece(1, 2));
}

#[test]
fn horizontal_four_wins() {
    let b = board_from_moves(&[(2, 1), (3, 1), (4, 1), (5, 1)]);
    assert!(check_winner(&b, 1));
    assert!(!check_winner(&b, 2));
    assert!(check_winner_at_position(&b, HEIGHT - 1, 2));
    assert!(!check_winner_at_position(&b, HEIGHT - 1, 3));
}

#[test]
fn vertical_four_wins() {
    let b = board_from_moves(&[(8, 2), (8, 2), (8, 2), (8, 2)]);
    assert!(check_winner(&b, 2));
    assert!(!check_winner(&b, 1));
    assert!(check_winner_at_position(&b, HEIGHT - 4, 8));
}

#[test]
fn down_right_diagonal_wins() {
    // pieces of 1 at (3,0), (4,1), (5,2), (6,3)
    let b = board_from_moves(&[
        (0, 2), (0, 2), (0, 2), (0, 1),
        (1, 2), (1, 2), (1, 1),
        (2, 2), (2, 1),
        (3, 1),
    ]);
    assert_eq!(b.cells[3][0], 1);
    assert!(check_winner(&b, 1));
    assert!(!check_winner(&b, 2));
    assert!(check_winner_at_position(&b, 3, 0));
}

#[test]
fn down_left_diagonal_wins() {
    // pieces of 2 at (3,8), (4,7), (5,6), (6,5)
    let b = board_from_moves(&[
        (8, 1), (8, 1), (8, 1), (8, 2),
        (7, 1), (7, 1), (7, 2),
        (6, 1), (6, 2),
        (5, 2),
    ]);
    assert!(check_winner(&b, 2));
    assert!(!check_winner(&b, 1));
    assert!(check_winner_at_position(&b, 3, 8));
}

#[test]
fn three_in_a_row_does_not_win() {
    let b = board_from_moves(&[(0, 1), (1, 1), (2, 1), (4, 1)]);
    assert!(!check_winner(&b, 1));
    assert!(!check_winner(&Board::new(), 1));
    assert!(!check_winner(&Board::new(), 2));
}

#[test]
fn pattern_scores_of_runs() {
    assert_eq!(calculate_pattern_score(&vec![1, 1, 1, 1], 1), 8);
    assert_eq!(calculate_pattern_score(&vec![2, 2, 2, 2], 1), -8);
    assert_eq!(calculate_pattern_score(&vec![0, 0, 0], 1), 0);
    assert_eq!(calculate_pattern_score(&vec![1, 2, 1, 2], 1), 0);
    assert_eq!(calculate_pattern_score(&vec![1, 1, 0, 2], 1), 1);
    assert_eq!(calculate_pattern_score(&vec![0, 2, 2, 2, 0, 1], 2), 3);
    assert_eq!(calculate_pattern_score(&vec![], 1), 0);
}

#[test]
fn single_piece_scores_on_four_lines() {
    let b = board_from_moves(&[(4, 2)]);
    assert_eq!(calculate_score(&b, 2), 4);
    assert_eq!(calculate_score(&b, 1), -4);
    assert_eq!(game_score(&b), 4);
    assert_eq!(calculate_score(&Board::new(), 2), 0);
}

#[test]
fn score_is_sign_symmetric() {
    let b = board_from_moves(&[(0, 1), (1, 2), (1, 1), (4, 2), (4, 2), (5, 1), (8, 2)]);
    assert_eq!(calculate_score(&b, 1), -calculate_score(&b, 2));
}

#[test]
fn depth_zero_returns_heuristic() {
    let b = board_from_moves(&[(2, 2), (3, 1)]);
    assert_eq!(minmax(&b, true, 0, -SENTINEL, SENTINEL), [game_score(&b), 0]);
}

#[test]
fn depth_one_on_empty_board_picks_best_single_move() {
    let empty = Board::new();
    let mut best = -SENTINEL;
    let mut best_col = 0;
    for c in 0..WIDTH {
        let mut b = empty;
        b.place_piece(c, 2);
        let s = calculate_score(&b, 2);
        if s > best {
            best = s;
            best_col = c as i32;
        }
    }
    assert_eq!(minmax(&empty, true, 1, -SENTINEL, SENTINEL), [best, best_col]);
}

#[test]
fn search_completes_three_in_a_row() {
    let b = board_from_moves(&[(0, 2), (0, 1), (1, 2), (1, 1), (2, 2), (4, 1)]);
    for depth in 1..4 {
        let [score, col] = minmax(&b, true, depth, -SENTINEL, SENTINEL);
        assert_eq!(col, 3);
        let mut after = b;
        assert!(after.place_piece(col as usize, 2));
        assert!(check_winner(&after, 2));
        assert!(game_score(&after) > 0);
        assert!(game_score(&after) > game_score(&b));
        assert!(score > 0);
    }
}

#[test]
fn full_board_returns_sentinel() {
    let mut b = Board::new();
    let mut turn = 1;
    for c in 0..WIDTH {
        for _ in 0..HEIGHT {
            assert!(b.place_piece(c, turn));
            turn = turn % 2 + 1;
        }
    }
    assert_eq!(minmax(&b, true, 2, -SENTINEL, SENTINEL), [-SENTINEL, 0]);
    assert_eq!(minmax(&b, false, 2, -SENTINEL, SENTINEL), [SENTINEL, 0]);
}

fn plain_minimax(b: &Board, maximizing: bool, depth: i32) -> [i32; 2] {
    if depth == 0 {
        return [game_score(b), 0];
    }
    let player = if maximizing { 2 } else { 1 };
    let mut best = if maximizing { [-SENTINEL, 0] } else { [SENTINEL, 0] };
    for c in 0..WIDTH {
        if b.cells[0][c] == 0 {
            let mut next = *b;
            next.place_piece(c, player);
            let [s, _] = plain_minimax(&next, !maximizing, depth - 1);
            if (maximizing && s > best[0]) || (!maximizing && s < best[0]) {
                best = [s, c as i32];
            }
        }
    }
    best
}

#[test]
fn pruning_matches_plain_minimax_on_random_boards() {
    let mut seed: u64 = 0x2545_f491_4f6c_dd1d;
    for trial in 0..40 {
        let mut b = Board::new();
        let moves = trial % 30;
        let mut turn = 1;
        for _ in 0..moves {
            seed = seed.wrapping_mul(6364136223846793005).wrapping_add(1442695040888963407);
            let col = ((seed >> 33) % WIDTH as u64) as usize;
            if b.place_piece(col, turn) {
                turn = turn % 2 + 1;
            }
        }
        for depth in 0..4 {
            for maximizing in [true, false] {
                assert_eq!(
                    minmax(&b, maximizing, depth, -SENTINEL, SENTINEL),
                    plain_minimax(&b, maximizing, depth)
                );
            }
        }
    }
}
