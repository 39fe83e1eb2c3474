use vstd::prelude::*;
use crate::board::{
    dropped, grid_of, has_win, is_legal, lemma_legal_moves_legal, well_shaped, is_terminal_of, legal_moves_of, Board, InvalidBoardShapeError,
};
use crate::heuristic::{score_of, score_position};
use crate::exhaustive::{exhaustive_decision, lemma_alpha_beta_equivalence, lemma_alpha_beta_sound, mm_value};

verus! {

/// The score of a position that player 1 has won.
pub const WIN_SCORE: i32 = 1_000_000_000;

/// The score of a finished game: a win for player 1, for player 2, or a draw.
pub open spec fn terminal_value(b: Seq<i32>) -> int {
    if has_win(b, 1) {
        1_000_000_000
    } else if has_win(b, 2) {
        -1_000_000_000
    } else {
        0
    }
}

/// The player to move: player 1 maximizes, player 2 minimizes.
pub open spec fn mover(maximizing: bool) -> i32 {
    if maximizing { 1 } else { 2 }
}

/// The depth at which the children of a node searched to `depth` are searched.
pub open spec fn child_depth(depth: nat) -> nat {
    if depth == 0 { 0 } else { (depth - 1) as nat }
}

/// The value that the alpha-beta search returns for a position.
pub open spec fn ab_value(b: Seq<i32>, depth: nat, alpha: int, beta: int, maximizing: bool) -> int
    decreases depth, 0int, 0int,
{
    if is_terminal_of(b) {
        terminal_value(b)
    } else if depth == 0 {
        score_of(b, mover(maximizing))
    } else if legal_moves_of(b).len() == 0 {
        0
    } else {
        ab_loop(
            b,
            (depth - 1) as nat,
            legal_moves_of(b),
            if maximizing { i32::MIN as int } else { i32::MAX as int },
            alpha,
            beta,
            maximizing,
        )
    }
}

/// The alpha-beta search over the moves that are left, with the value found so
/// far; stops once the window `alpha .. beta` closes.
pub open spec fn ab_loop(
    b: Seq<i32>,
    cd: nat,
    moves: Seq<usize>,
    value: int,
    alpha: int,
    beta: int,
    maximizing: bool,
) -> int
    decreases cd, 1int, moves.len(),
{
    if moves.len() == 0 {
        value
    } else {
        let s = ab_value(dropped(b, moves[0] as int, mover(maximizing)), cd, alpha, beta, !maximizing);
        if maximizing {
            let v = if s > value { s } else { value };
            let a = if v > alpha { v } else { alpha };
            if a >= beta {
                v
            } else {
                ab_loop(b, cd, moves.drop_first(), v, a, beta, maximizing)
            }
        } else {
            let v = if s < value { s } else { value };
            let bt = if v < beta { v } else { beta };
            if bt <= alpha {
                v
            } else {
                ab_loop(b, cd, moves.drop_first(), v, alpha, bt, maximizing)
            }
        }
    }
}

/// Alpha-beta minimax: the value of the position searched `depth` plies deep,
/// with player 1 maximizing and player 2 minimizing.
pub fn minimax(b: &Board, depth: usize, alpha: i32, beta: i32, maximizing: bool) -> (v: i32)
    ensures
        v == ab_value(b@, depth as nat, alpha as int, beta as int, maximizing),
        alpha < v < beta ==> v == mm_value(b@, depth as nat, maximizing),
        alpha < beta && v <= alpha ==> mm_value(b@, depth as nat, maximizing) <= v,
        alpha < beta && v >= beta ==> mm_value(b@, depth as nat, maximizing) >= v,
    decreases depth,
{
    proof {
        if alpha < beta {
            lemma_alpha_beta_sound(b@, depth as nat, alpha as int, beta as int, maximizing);
        }
    }
    if b.is_terminal() {
        if b.is_win(1) {
            return WIN_SCORE;
        } else if b.is_win(2) {
            return -WIN_SCORE;
        } else {
            return 0;
        }
    }
    if depth == 0 {
        let p: i32 = if maximizing { 1 } else { 2 };
        return score_position(b, p);
    }
    let moves = b.legal_moves();
    if moves.len() == 0 {
        return 0;
    }
    let ghost cd: nat = (depth - 1) as nat;
    let ghost b0 = b@;
    let ghost a0 = alpha as int;
    let ghost t0 = beta as int;
    let mut lo: i32 = alpha;
    let mut hi: i32 = beta;
    let mut value: i32 = if maximizing { i32::MIN } else { i32::MAX };
    let mut i: usize = 0;
    assert(moves@.subrange(0, moves@.len() as int) =~= moves@);
    while i < moves.len()
        invariant
            b@ == b0,
            a0 == alpha as int,
            t0 == beta as int,
            depth >= 1,
            cd == depth - 1,
            moves@ == legal_moves_of(b0),
            moves@.len() > 0,
            !is_terminal_of(b0),
            i <= moves@.len(),
            ab_value(b0, depth as nat, a0, t0, maximizing) == ab_loop(
                b0,
                cd,
                moves@.subrange(i as int, moves@.len() as int),
                value as int,
                lo as int,
                hi as int,
                maximizing,
            ),
        decreases moves.len() - i,
    {
        let ghost rest = moves@.subrange(i as int, moves@.len() as int);
        assert(rest.drop_first() =~= moves@.subrange(i + 1, moves@.len() as int));
        let col = moves[i];
        proof {
            lemma_legal_moves_legal(b0, i as int);
            assert(rest[0] == col);
            assert(rest.len() > 0);
        }
        let ghost v0 = value as int;
        let ghost l0 = lo as int;
        let ghost h0 = hi as int;
        if maximizing {
            let child = b.play(col, 1);
            let s = minimax(&child, depth - 1, lo, hi, false);
            if s > value {
                value = s;
            }
            if value > lo {
                lo = value;
            }
            if lo >= hi {
                assert(s == ab_value(dropped(b0, rest[0] as int, mover(maximizing)), cd, l0, h0, !maximizing));
                assert(ab_loop(b0, cd, rest, v0, l0, h0, maximizing) == value as int);
                proof {
                    if a0 < t0 {
                        lemma_alpha_beta_sound(b0, depth as nat, a0, t0, maximizing);
                    }
                }
                return value;
            }
        } else {
            let child = b.play(col, 2);
            let s = minimax(&child, depth - 1, lo, hi, true);
            if s < value {
                value = s;
            }
            if value < hi {
                hi = value;
            }
            if hi <= lo {
                assert(s == ab_value(dropped(b0, rest[0] as int, mover(maximizing)), cd, l0, h0, !maximizing));
                assert(ab_loop(b0, cd, rest, v0, l0, h0, maximizing) == value as int);
                proof {
                    if a0 < t0 {
                        lemma_alpha_beta_sound(b0, depth as nat, a0, t0, maximizing);
                    }
                }
                return value;
            }
        }
        i += 1;
    }
    assert(moves@.subrange(i as int, moves@.len() as int).len() == 0);
    value
}


/// The one-ply score used to order the root moves: the heuristic value for
/// player 1 after player 1 plays column `c`.
pub open spec fn order_key(b: Seq<i32>, c: int) -> int {
    score_of(dropped(b, c, 1), 1)
}

/// Column `x` is searched before column `y`: its one-ply score is higher, or
/// equal with a lower column.
pub open spec fn ranks_before(b: Seq<i32>, x: usize, y: usize) -> bool {
    order_key(b, x as int) > order_key(b, y as int) || (order_key(b, x as int) == order_key(
        b,
        y as int,
    ) && x < y)
}

/// `o` holds every legal column once, by descending one-ply score, ties in
/// ascending column order.
pub open spec fn is_move_order(b: Seq<i32>, o: Seq<usize>) -> bool {
    &&& forall|i: int, j: int|
        #![trigger o[i], o[j]]
        0 <= i < j < o.len() ==> ranks_before(b, o[i], o[j])
    &&& forall|x: usize| o.contains(x) <==> is_legal(b, x as int)
}

/// The root search over the ordered moves that are left: each is searched
/// with the running best score as alpha, and the first move with the strictly
/// greatest score is kept.
pub open spec fn root_loop(
    b: Seq<i32>,
    cd: nat,
    order: Seq<usize>,
    best: int,
    best_move: usize,
    alpha: int,
) -> usize
    decreases order.len(),
{
    if order.len() == 0 {
        best_move
    } else {
        let s = ab_value(dropped(b, order[0] as int, 1), cd, alpha, i32::MAX as int, false);
        let nb = if s > best { s } else { best };
        let nm = if s > best { order[0] } else { best_move };
        let na = if s > alpha { s } else { alpha };
        root_loop(b, cd, order.drop_first(), nb, nm, na)
    }
}

/// The column that the alpha-beta search picks for player 1 from the moves in
/// `order`, searching `depth` plies (one ply when `depth` is 0).
pub open spec fn decision_of(b: Seq<i32>, depth: nat, order: Seq<usize>) -> usize {
    root_loop(b, child_depth(depth), order, i32::MIN as int, 0, i32::MIN as int)
}

/// The legal columns by descending one-ply score for player 1, ties in
/// ascending column order.
pub fn order_moves(b: &Board) -> (o: Vec<usize>)
    ensures
        is_move_order(b@, o@),
{
    let mut out: Vec<usize> = Vec::new();
    let mut keys: Vec<i32> = Vec::new();
    let mut c: usize = 0;
    while c < 7
        invariant
            c <= 7,
            out@.len() == keys@.len(),
            forall|j: int| 0 <= j < out@.len() ==> keys@[j] == order_key(b@, #[trigger] out@[j] as int),
            forall|j: int| 0 <= j < out@.len() ==> #[trigger] out@[j] < c && is_legal(b@, out@[j] as int),
            forall|x: usize| x < c && is_legal(b@, x as int) ==> out@.contains(x),
            forall|i: int, j: int|
                #![trigger out@[i], out@[j]]
                0 <= i < j < out@.len() ==> ranks_before(b@, out@[i], out@[j]),
        decreases 7 - c,
    {
        if b.get(0, c) == 0 {
            let child = b.play(c, 1);
            let k = score_position(&child, 1);
            let mut pos: usize = 0;
            while pos < keys.len() && keys[pos] >= k
                invariant
                    pos <= keys@.len(),
                    forall|j: int| 0 <= j < pos ==> #[trigger] keys@[j] >= k,
                decreases keys.len() - pos,
            {
                pos += 1;
            }
            let ghost o0 = out@;
            let ghost k0 = keys@;
            out.insert(pos, c);
            keys.insert(pos, k);
            proof {
                assert forall|j: int| 0 <= j < out@.len() implies keys@[j] == order_key(b@, #[trigger] out@[j] as int) by {
                    if j > pos {
                        assert(out@[j] == o0[j - 1]);
                    }
                }
                assert forall|i: int, j: int|
                    #![trigger out@[i], out@[j]]
                    0 <= i < j < out@.len() implies ranks_before(b@, out@[i], out@[j]) by {
                    if j < pos {
                        assert(out@[i] == o0[i] && out@[j] == o0[j]);
                    } else if j == pos {
                        assert(out@[i] == o0[i]);
                        assert(k0[i] >= k);
                    } else if i == pos {
                        assert(out@[j] == o0[j - 1]);
                        assert(k0[pos as int] < k);
                        if j - 1 > pos {
                            assert(ranks_before(b@, o0[pos as int], o0[j - 1]));
                        }
                    } else if i < pos {
                        assert(out@[i] == o0[i] && out@[j] == o0[j - 1]);
                    } else {
                        assert(out@[i] == o0[i - 1] && out@[j] == o0[j - 1]);
                    }
                }
                assert forall|j: int| 0 <= j < out@.len() implies #[trigger] out@[j] < c + 1 && is_legal(b@, out@[j] as int) by {
                    if j < pos {
                        assert(out@[j] == o0[j]);
                    } else if j > pos {
                        assert(out@[j] == o0[j - 1]);
                    }
                }
                assert forall|x: usize| x < c + 1 && is_legal(b@, x as int) implies out@.contains(x) by {
                    if x < c {
                        let m = choose|m: int| 0 <= m < o0.len() && o0[m] == x;
                        if m < pos {
                            assert(out@[m] == x);
                        } else {
                            assert(out@[m + 1] == x);
                        }
                    } else {
                        assert(out@[pos as int] == x);
                    }
                }
            }
        }
        c += 1;
    }
    out
}

/// The column that the alpha-beta search picks for player 1, searching
/// `depth` plies; 0 when no move is legal.
pub fn minimax_decision(b: &Board, depth: usize) -> (col: usize)
    ensures
        exists|o: Seq<usize>|
            is_move_order(b@, o) && col == decision_of(b@, depth as nat, o) && col == exhaustive_decision(
                b@,
                depth as nat,
                o,
            ),
{
    let order = order_moves(b);
    let cd: usize = if depth == 0 { 0 } else { depth - 1 };
    let mut best: i32 = i32::MIN;
    let mut best_move: usize = 0;
    let mut alpha: i32 = i32::MIN;
    let mut i: usize = 0;
    assert(order@.subrange(0, order@.len() as int) =~= order@);
    while i < order.len()
        invariant
            is_move_order(b@, order@),
            cd as nat == child_depth(depth as nat),
            i <= order@.len(),
            decision_of(b@, depth as nat, order@) == root_loop(
                b@,
                cd as nat,
                order@.subrange(i as int, order@.len() as int),
                best as int,
                best_move,
                alpha as int,
            ),
        decreases order.len() - i,
    {
        let ghost rest = order@.subrange(i as int, order@.len() as int);
        assert(rest.drop_first() =~= order@.subrange(i + 1, order@.len() as int));
        let col = order[i];
        assert(order@.contains(col));
        assert(rest[0] == col);
        let child = b.play(col, 1);
        let s = minimax(&child, cd, alpha, i32::MAX, false);
        if s > best {
            best = s;
            best_move = col;
        }
        if s > alpha {
            alpha = s;
        }
        i += 1;
    }
    assert(order@.subrange(i as int, order@.len() as int).len() == 0);
    proof {
        lemma_alpha_beta_equivalence(b@, depth as nat, order@);
    }
    best_move
}

/// The column (0 to 6) that the alpha-beta search picks for player 1 on a
/// board given as rows, top row first; fails unless the board is 6 x 7.
pub fn get_best_move(rows: &Vec<Vec<i32>>, depth: usize) -> (res: Result<usize, InvalidBoardShapeError>)
    ensures
        res.is_ok() <==> well_shaped(rows@),
        res.is_ok() ==> exists|o: Seq<usize>|
            is_move_order(grid_of(rows@), o) && res.unwrap() == decision_of(grid_of(rows@), depth as nat, o)
                && res.unwrap() == exhaustive_decision(grid_of(rows@), depth as nat, o),
{
    match Board::from_rows(rows) {
        Ok(b) => Ok(minimax_decision(&b, depth)),
        Err(e) => Err(e),
    }
}


/// A position that player 1 has won scores the win score, whatever the depth,
/// the window or the player to move.
pub proof fn lemma_terminal_scoring(b: Seq<i32>, depth: nat, alpha: int, beta: int, maximizing: bool)
    requires
        has_win(b, 1),
    ensures
        ab_value(b, depth, alpha, beta, maximizing) == WIN_SCORE,
{
}

} // verus!
