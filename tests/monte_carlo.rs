use connect_four::board::{Board, InvalidBoardShapeError};
use connect_four::mcts::{get_best_move_mcts, mcts, ChildStats, SearchTree};
use connect_four::rollout::{rollout_candidates, simulate};

fn rows_of(rows: [[i32; 7]; 6]) -> Vec<Vec<i32>> {
    rows.iter().map(|r| r.to_vec()).collect()
}

fn board_of(rows: [[i32; 7]; 6]) -> Board {
    Board::from_rows(&rows_of(rows)).unwrap()
}

/// UCT selection: an unvisited child first, else the best average reward plus
/// exploration bonus; the first child wins a tie.
fn uct(c: f64) -> impl Fn(u64, Vec<ChildStats>) -> usize {
    move |parent_visits: u64, stats: Vec<ChildStats>| {
        let mut best = 0;
        let mut best_score = f64::NEG_INFINITY;
        for (i, &(visits, reward)) in stats.iter().enumerate() {
            let score = if visits == 0 {
                f64::INFINITY
            } else {
                let rate = reward as f64 / 2.0 / visits as f64;
                rate + c * ((parent_visits as f64).ln() / visits as f64).sqrt()
            };
            if i == 0 || score > best_score {
                best = i;
                best_score = score;
            }
        }
        best
    }
}

/// A full board, no winner, but for the top cell of column 5.
fn one_hole() -> [[i32; 7]; 6] {
    [
        [1, 1, 2, 2, 1, 0, 2],
        [2, 2, 1, 1, 2, 2, 1],
        [1, 1, 2, 2, 1, 1, 2],
        [2, 2, 1, 1, 2, 2, 1],
        [1, 1, 2, 2, 1, 1, 2],
        [2, 2, 1, 1, 2, 2, 1],
    ]
}

#[test]
fn rollout_prefers_center_columns() {
    assert_eq!(rollout_candidates(&Board::empty(), 1), vec![2, 3, 4]);
}

#[test]
fn rollout_includes_winning_move() {
    let mut rows = [[0; 7]; 6];
    for r in 3..6 {
        rows[r][0] = 2;
    }
    let b = board_of(rows);
    assert_eq!(rollout_candidates(&b, 2), vec![0, 2, 3, 4]);
    assert_eq!(rollout_candidates(&b, 1), vec![2, 3, 4]);
}

#[test]
fn rollout_falls_back_to_all_legal_moves() {
    let mut rows = one_hole();
    rows[0][5] = 0;
    rows[1][5] = 0;
    rows[0][0] = 0;
    let b = board_of(rows);
    assert_eq!(rollout_candidates(&b, 1), vec![0, 5]);
}

#[test]
fn simulate_scores_finished_games() {
    let mut rows = [[0; 7]; 6];
    for c in 0..4 {
        rows[5][c] = 1;
    }
    assert_eq!(simulate(&board_of(rows), 2), 2);
    let mut rows = [[0; 7]; 6];
    for r in 2..6 {
        rows[r][6] = 2;
    }
    assert_eq!(simulate(&board_of(rows), 1), 0);
}

#[test]
fn simulate_plays_the_last_move() {
    // The only move left fills the board without a winner.
    let b = board_of(one_hole());
    assert_eq!(simulate(&b, 1), 1);
    // A random game from the empty board ends in one of the three outcomes.
    let o = simulate(&Board::empty(), 1);
    assert!(o <= 2);
}

#[test]
fn mcts_on_empty_board_picks_legal_column() {
    let m = mcts(&Board::empty(), 200, &uct(1.41)).unwrap();
    assert!(m < 7);
}

#[test]
fn mcts_with_single_move() {
    assert_eq!(mcts(&board_of(one_hole()), 10, &uct(1.41)), Some(5));
}

#[test]
fn mcts_without_simulations_falls_back_to_first_legal() {
    let mut rows = one_hole();
    rows[0][0] = 0;
    assert_eq!(mcts(&board_of(rows), 0, &uct(1.41)), Some(0));
}

#[test]
fn mcts_on_full_board_has_no_move() {
    let mut rows = one_hole();
    rows[0][5] = 1;
    assert_eq!(mcts(&board_of(rows), 5, &uct(1.41)), None);
}

#[test]
fn mcts_on_threat_board_picks_legal_column() {
    let rows = [
        [0, 0, 0, 0, 0, 0, 0],
        [0, 0, 0, 0, 0, 0, 0],
        [0, 0, 0, 0, 0, 0, 0],
        [0, 0, 0, 0, 0, 0, 0],
        [2, 2, 0, 0, 0, 0, 0],
        [1, 1, 1, 0, 0, 0, 2],
    ];
    let m = get_best_move_mcts(&rows_of(rows), 2000, &uct(1.41)).unwrap().unwrap();
    assert!(m < 7);
    assert!(board_of(rows).apply_move(m, 1).is_ok());
}

#[test]
fn mcts_rejects_bad_shape() {
    let rows: Vec<Vec<i32>> = vec![vec![0; 7]; 7];
    assert_eq!(get_best_move_mcts(&rows, 10, &uct(1.41)), Err(InvalidBoardShapeError));
}

#[test]
fn backpropagation_adds_same_outcome_along_path() {
    let mut tree = SearchTree::new(Board::empty(), 1);
    let pick_first = |_: u64, _: Vec<ChildStats>| 0usize;
    let a = tree.select_and_expand(&pick_first);
    assert_eq!(a, 1);
    tree.backpropagate(a, 2);
    let b = tree.select_and_expand(&pick_first);
    assert_eq!(b, 2);
    tree.backpropagate(b, 1);
    assert_eq!(tree.nodes[0].visits, 2);
    assert_eq!(tree.nodes[0].reward, 3);
    assert_eq!(tree.nodes[1].visits, 1);
    assert_eq!(tree.nodes[1].reward, 2);
    assert_eq!(tree.nodes[2].reward, 1);
    // Untried moves are expanded last first.
    assert_eq!(tree.nodes[1].chosen_move, Some(6));
    assert_eq!(tree.nodes[2].chosen_move, Some(5));
    assert_eq!(tree.nodes[2].parent, Some(0));
    assert_eq!(tree.nodes[2].player, 2);
    assert_eq!(tree.best_move(), Some(5));
}

/// Runs a search by hand and returns the win rate of the chosen root child.
fn chosen_win_rate(b: &Board, simulations: usize) -> f64 {
    let mut tree = SearchTree::new(*b, 1);
    let select = uct(1.41);
    for _ in 0..simulations {
        let leaf = tree.select_and_expand(&select);
        let node = &tree.nodes[leaf];
        let o = simulate(&node.board, node.player);
        tree.backpropagate(leaf, o);
    }
    let mut best = tree.nodes[0].children[0];
    for &c in &tree.nodes[0].children {
        if tree.nodes[c].visits >= tree.nodes[best].visits {
            best = c;
        }
    }
    let chosen = &tree.nodes[best];
    assert_eq!(tree.best_move(), chosen.chosen_move);
    chosen.reward as f64 / 2.0 / chosen.visits as f64
}

#[test]
fn more_simulations_do_not_lower_chosen_win_rate() {
    let rows = [
        [0, 0, 0, 0, 0, 0, 0],
        [0, 0, 0, 0, 0, 0, 0],
        [0, 0, 0, 0, 0, 0, 0],
        [0, 0, 0, 0, 0, 0, 0],
        [2, 2, 0, 0, 0, 0, 0],
        [1, 1, 1, 0, 0, 0, 2],
    ];
    let b = board_of(rows);
    let trials = 10;
    let few: f64 = (0..trials).map(|_| chosen_win_rate(&b, 50)).sum::<f64>() / trials as f64;
    let many: f64 = (0..trials).map(|_| chosen_win_rate(&b, 2000)).sum::<f64>() / trials as f64;
    assert!(many >= few);
}

#[test]
fn mcts_on_won_root_falls_back_to_first_legal() {
    let rows = [
        [0, 0, 0, 0, 0, 0, 0],
        [0, 0, 0, 0, 0, 0, 0],
        [0, 0, 0, 0, 0, 0, 0],
        [0, 0, 0, 0, 0, 0, 0],
        [2, 2, 2, 0, 0, 0, 0],
        [1, 1, 1, 1, 0, 0, 0],
    ];
    assert_eq!(mcts(&board_of(rows), 10, &uct(1.41)), Some(0));
    assert_eq!(get_best_move_mcts(&rows_of(rows), 10, &uct(1.41)), Ok(Some(0)));
    assert_eq!(mcts(&Board::empty(), 0, &uct(1.41)), Some(0));
}

#[test]
fn terminal_root_is_never_expanded() {
    let mut rows = [[0; 7]; 6];
    for c in 0..4 {
        rows[5][c] = 1;
    }
    let mut tree = SearchTree::new(board_of(rows), 2);
    let pick_first = |_: u64, _: Vec<ChildStats>| 0usize;
    assert_eq!(tree.select_and_expand(&pick_first), 0);
    assert_eq!(tree.nodes.len(), 1);
    assert_eq!(tree.nodes[0].untried, vec![0, 1, 2, 3, 4, 5, 6]);
    assert!(tree.nodes[0].children.is_empty());
}

#[test]
fn expansion_takes_last_untried_move() {
    let mut tree = SearchTree::new(Board::empty(), 1);
    let pick_first = |_: u64, _: Vec<ChildStats>| 0usize;
    let leaf = tree.select_and_expand(&pick_first);
    assert_eq!(leaf, 1);
    assert_eq!(tree.nodes[0].untried, vec![0, 1, 2, 3, 4, 5]);
    assert_eq!(tree.nodes[0].children, vec![1]);
    assert_eq!(tree.nodes[1].board.get(5, 6), 1);
    assert_eq!(tree.nodes[1].player, 2);
    assert_eq!(tree.nodes[1].visits, 0);
    assert_eq!(tree.nodes[1].untried, vec![0, 1, 2, 3, 4, 5, 6]);
    assert_eq!(tree.nodes[0].chosen_move, None);
}
