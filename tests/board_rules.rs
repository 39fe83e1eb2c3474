use connect_four::board::{column_letter, Board, IllegalMoveError, InvalidBoardShapeError};
use connect_four::heuristic::{evaluate_window, score_position};

fn board_of(rows: [[i32; 7]; 6]) -> Board {
    let v: Vec<Vec<i32>> = rows.iter().map(|r| r.to_vec()).collect();
    Board::from_rows(&v).unwrap()
}

#[test]
fn empty_board_has_all_columns_legal() {
    let b = Board::empty();
    assert_eq!(b.legal_moves(), vec![0, 1, 2, 3, 4, 5, 6]);
}

#[test]
fn filled_column_is_excluded() {
    let mut b = Board::empty();
    for k in 0..6 {
        let p = if k % 2 == 0 { 1 } else { 2 };
        b = b.apply_move(3, p).unwrap();
    }
    assert_eq!(b.legal_moves(), vec![0, 1, 2, 4, 5, 6]);
    assert_eq!(b.get(0, 3), 2);
    assert_eq!(b.get(5, 3), 1);
}

#[test]
fn apply_move_drops_to_lowest_empty_cell() {
    let b = Board::empty().apply_move(2, 1).unwrap();
    assert_eq!(b.get(5, 2), 1);
    let b = b.apply_move(2, 2).unwrap();
    assert_eq!(b.get(4, 2), 2);
    assert_eq!(b.get(5, 2), 1);
}

#[test]
fn apply_move_on_full_column_fails() {
    let mut b = Board::empty();
    for _ in 0..6 {
        b = b.apply_move(0, 1).unwrap();
    }
    assert_eq!(b.apply_move(0, 2).unwrap_err(), IllegalMoveError { column: 0 });
    assert_eq!(Board::empty().apply_move(7, 1).unwrap_err(), IllegalMoveError { column: 7 });
}

#[test]
fn malformed_board_is_rejected() {
    let five_rows: Vec<Vec<i32>> = vec![vec![0; 7]; 5];
    assert_eq!(Board::from_rows(&five_rows).unwrap_err(), InvalidBoardShapeError);
    let mut short_row: Vec<Vec<i32>> = vec![vec![0; 7]; 6];
    short_row[2] = vec![0; 6];
    assert_eq!(Board::from_rows(&short_row).unwrap_err(), InvalidBoardShapeError);
}

#[test]
fn rows_round_trip() {
    let mut rows: Vec<Vec<i32>> = vec![vec![0; 7]; 6];
    rows[5][0] = 1;
    rows[5][1] = 2;
    rows[4][0] = 1;
    let b = Board::from_rows(&rows).unwrap();
    assert_eq!(b.to_rows(), rows);
}

#[test]
fn win_detected_in_every_orientation() {
    let mut h = [[0; 7]; 6];
    for c in 2..6 {
        h[5][c] = 1;
    }
    assert!(board_of(h).is_win(1));
    let mut v = [[0; 7]; 6];
    for r in 1..5 {
        v[r][6] = 2;
    }
    assert!(board_of(v).is_win(2));
    let mut d = [[0; 7]; 6];
    for i in 0..4 {
        d[i][i + 1] = 1;
    }
    assert!(board_of(d).is_win(1));
    let mut a = [[0; 7]; 6];
    for i in 0..4 {
        a[5 - i][3 + i] = 2;
    }
    assert!(board_of(a).is_win(2));
    assert!(!board_of(a).is_win(1));
}

#[test]
fn three_in_a_row_is_no_win() {
    let mut h = [[0; 7]; 6];
    for c in 0..3 {
        h[5][c] = 1;
    }
    h[5][3] = 2;
    let b = board_of(h);
    assert!(!b.is_win(1));
    assert!(!b.is_terminal());
}

#[test]
fn only_one_side_wins_in_played_games() {
    // Player 1 wins horizontally on the bottom row; player 2 stacked on top.
    let mut b = Board::empty();
    for (col, p) in [(0, 1), (0, 2), (1, 1), (1, 2), (2, 1), (2, 2), (3, 1)] {
        b = b.apply_move(col, p).unwrap();
    }
    assert!(b.is_win(1));
    assert!(!b.is_win(2));
    assert!(b.is_terminal());
    // Player 2 wins vertically.
    let mut b = Board::empty();
    for (col, p) in [(0, 1), (6, 2), (1, 1), (6, 2), (0, 1), (6, 2), (1, 1), (6, 2)] {
        b = b.apply_move(col, p).unwrap();
    }
    assert!(b.is_win(2));
    assert!(!b.is_win(1));
}

#[test]
fn full_board_without_winner_is_terminal() {
    let pattern = [
        [1, 1, 2, 2, 1, 1, 2],
        [2, 2, 1, 1, 2, 2, 1],
        [1, 1, 2, 2, 1, 1, 2],
        [2, 2, 1, 1, 2, 2, 1],
        [1, 1, 2, 2, 1, 1, 2],
        [2, 2, 1, 1, 2, 2, 1],
    ];
    let b = board_of(pattern);
    assert!(!b.is_win(1));
    assert!(!b.is_win(2));
    assert!(b.legal_moves().is_empty());
    assert!(b.is_terminal());
}

#[test]
fn window_scores() {
    assert_eq!(evaluate_window((1, 1, 1, 1), 1), 100);
    assert_eq!(evaluate_window((1, 0, 1, 1), 1), 5);
    assert_eq!(evaluate_window((0, 1, 1, 0), 1), 2);
    assert_eq!(evaluate_window((2, 2, 0, 2), 1), -4);
    assert_eq!(evaluate_window((2, 2, 0, 0), 1), 0);
    assert_eq!(evaluate_window((1, 1, 2, 0), 1), 0);
    assert_eq!(evaluate_window((2, 2, 2, 0), 2), 5);
    assert_eq!(evaluate_window((0, 0, 0, 0), 1), 0);
}

#[test]
fn score_position_values() {
    let b = Board::empty();
    assert_eq!(score_position(&b, 1), 0);
    let b = b.apply_move(3, 1).unwrap();
    assert_eq!(score_position(&b, 1), 3);
    let b = b.apply_move(4, 1).unwrap();
    // Center bonus 3, plus three horizontal windows holding both pieces.
    assert_eq!(score_position(&b, 1), 9);
    // Player 2 has nothing and is not punished for player 1's two-in-a-row.
    assert_eq!(score_position(&b, 2), 0);
}

#[test]
fn score_position_punishes_opponent_three() {
    let b = Board::empty()
        .apply_move(0, 2)
        .unwrap()
        .apply_move(1, 2)
        .unwrap()
        .apply_move(2, 2)
        .unwrap();
    // Bottom-row window 0..4 holds three of player 2 and one empty cell.
    assert_eq!(score_position(&b, 1), -4);
}

#[test]
fn column_letters() {
    assert_eq!(column_letter(0), 'A');
    assert_eq!(column_letter(3), 'D');
    assert_eq!(column_letter(6), 'G');
}

#[test]
fn drop_piece_fills_lowest_cell() {
    let mut b = Board::empty();
    b.drop_piece(4, 2);
    b.drop_piece(4, 1);
    assert_eq!(b.get(5, 4), 2);
    assert_eq!(b.get(4, 4), 1);
    assert_eq!(b.get(3, 4), 0);
}
