use connect_four::board::{Board, InvalidBoardShapeError};
use connect_four::heuristic::score_position;
use connect_four::minimax::{get_best_move, minimax, minimax_decision, order_moves, WIN_SCORE};

fn rows_of(rows: [[i32; 7]; 6]) -> Vec<Vec<i32>> {
    rows.iter().map(|r| r.to_vec()).collect()
}

fn board_of(rows: [[i32; 7]; 6]) -> Board {
    Board::from_rows(&rows_of(rows)).unwrap()
}

/// Minimax with no pruning, as the search would be without alpha-beta.
fn plain_minimax(b: &Board, depth: usize, maximizing: bool) -> i32 {
    if b.is_terminal() {
        return if b.is_win(1) {
            WIN_SCORE
        } else if b.is_win(2) {
            -WIN_SCORE
        } else {
            0
        };
    }
    if depth == 0 {
        return score_position(b, if maximizing { 1 } else { 2 });
    }
    let values = b
        .legal_moves()
        .into_iter()
        .map(|c| plain_minimax(&b.play(c, if maximizing { 1 } else { 2 }), depth - 1, !maximizing));
    if maximizing {
        values.max().unwrap()
    } else {
        values.min().unwrap()
    }
}

fn plain_decision(b: &Board, depth: usize) -> usize {
    let mut best = i32::MIN;
    let mut best_move = 0;
    for c in order_moves(b) {
        let s = plain_minimax(&b.play(c, 1), depth.saturating_sub(1), false);
        if s > best {
            best = s;
            best_move = c;
        }
    }
    best_move
}

fn mid_game() -> [[i32; 7]; 6] {
    [
        [0, 0, 0, 0, 0, 0, 0],
        [0, 0, 0, 0, 0, 0, 0],
        [0, 0, 0, 2, 0, 0, 0],
        [0, 0, 1, 1, 0, 0, 0],
        [0, 2, 2, 1, 0, 0, 0],
        [0, 1, 2, 1, 2, 0, 0],
    ]
}

#[test]
fn takes_immediate_win() {
    let rows = [
        [0, 0, 0, 0, 0, 0, 0],
        [0, 0, 0, 0, 0, 0, 0],
        [0, 0, 0, 0, 0, 0, 0],
        [0, 0, 0, 0, 0, 0, 0],
        [2, 2, 0, 0, 0, 0, 0],
        [1, 1, 1, 0, 0, 0, 2],
    ];
    for depth in 1..4 {
        assert_eq!(get_best_move(&rows_of(rows), depth), Ok(3));
    }
}

#[test]
fn blocks_immediate_threat() {
    let rows = [
        [0, 0, 0, 0, 0, 0, 0],
        [0, 0, 0, 0, 0, 0, 0],
        [0, 0, 0, 0, 0, 0, 0],
        [0, 0, 0, 0, 0, 0, 0],
        [1, 1, 0, 0, 0, 0, 0],
        [2, 2, 2, 0, 0, 0, 1],
    ];
    for depth in 2..5 {
        assert_eq!(get_best_move(&rows_of(rows), depth), Ok(3));
    }
}

#[test]
fn alpha_beta_matches_plain_minimax() {
    let boards = [
        mid_game(),
        [[0; 7]; 6],
        [
            [0, 0, 0, 0, 0, 0, 0],
            [0, 0, 0, 0, 0, 0, 0],
            [0, 0, 0, 0, 0, 0, 0],
            [0, 0, 0, 0, 0, 0, 0],
            [1, 1, 0, 0, 0, 0, 0],
            [2, 2, 2, 0, 0, 0, 1],
        ],
    ];
    for rows in boards {
        let b = board_of(rows);
        for depth in 0..5 {
            assert_eq!(minimax_decision(&b, depth), plain_decision(&b, depth));
        }
        for depth in 0..4 {
            for maximizing in [true, false] {
                assert_eq!(
                    minimax(&b, depth, i32::MIN, i32::MAX, maximizing),
                    plain_minimax(&b, depth, maximizing)
                );
            }
        }
    }
}

#[test]
fn won_board_scores_win_at_any_depth() {
    let mut rows = [[0; 7]; 6];
    for r in 2..6 {
        rows[r][0] = 1;
    }
    rows[5][1] = 2;
    rows[5][2] = 2;
    rows[4][1] = 2;
    let b = board_of(rows);
    for depth in 0..4 {
        for maximizing in [true, false] {
            assert_eq!(minimax(&b, depth, i32::MIN, i32::MAX, maximizing), 1_000_000_000);
        }
    }
}

#[test]
fn depth_zero_scores_with_heuristic() {
    let b = board_of(mid_game());
    assert_eq!(minimax(&b, 0, i32::MIN, i32::MAX, true), score_position(&b, 1));
    assert_eq!(minimax(&b, 0, i32::MIN, i32::MAX, false), score_position(&b, 2));
}

#[test]
fn root_moves_ordered_by_one_ply_score() {
    let b = Board::empty();
    let order = order_moves(&b);
    assert_eq!(order.len(), 7);
    assert_eq!(order[0], 3);
    let keys: Vec<i32> = order.iter().map(|&c| score_position(&b.play(c, 1), 1)).collect();
    for w in keys.windows(2) {
        assert!(w[0] >= w[1]);
    }
    // Equal scores keep ascending column order.
    for i in 1..order.len() {
        if keys[i - 1] == keys[i] {
            assert!(order[i - 1] < order[i]);
        }
    }
}

#[test]
fn depth_zero_at_root_ranks_by_one_ply() {
    let b = Board::empty();
    assert_eq!(minimax_decision(&b, 0), plain_decision(&b, 0));
    assert_eq!(get_best_move(&rows_of([[0; 7]; 6]), 0), Ok(minimax_decision(&b, 0)));
}

#[test]
fn best_move_rejects_bad_shape() {
    let rows: Vec<Vec<i32>> = vec![vec![0; 6]; 6];
    assert_eq!(get_best_move(&rows, 3), Err(InvalidBoardShapeError));
}
