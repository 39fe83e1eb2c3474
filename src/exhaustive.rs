use vstd::prelude::*;
use crate::board::{
    at, drop_row, dropped, has_win, is_legal, is_terminal_of, lemma_legal_upto, lemma_lowest_from,
    lemma_move_keeps_other_side, legal_moves_of, line_of, lowest_from,
};
use crate::heuristic::{lemma_score_bounds, score_of};
use crate::minimax::{
    ab_loop, ab_value, child_depth, decision_of, is_move_order, mover, root_loop, terminal_value, WIN_SCORE,
};

verus! {

/// The plain minimax value of a position searched `depth` plies deep, with
/// no pruning.
pub open spec fn mm_value(b: Seq<i32>, depth: nat, maximizing: bool) -> int
    decreases depth, 0int, 0int,
{
    if is_terminal_of(b) {
        terminal_value(b)
    } else if depth == 0 {
        score_of(b, mover(maximizing))
    } else if legal_moves_of(b).len() == 0 {
        0
    } else {
        mm_fold(b, (depth - 1) as nat, legal_moves_of(b), maximizing)
    }
}

/// The best of the children's plain minimax values over `moves`: the largest
/// for the maximizing player, the smallest for the other; the i32 bound when
/// `moves` is empty.
pub open spec fn mm_fold(b: Seq<i32>, cd: nat, moves: Seq<usize>, maximizing: bool) -> int
    decreases cd, 1int, moves.len(),
{
    if moves.len() == 0 {
        if maximizing { i32::MIN as int } else { i32::MAX as int }
    } else {
        let s = mm_value(dropped(b, moves[0] as int, mover(maximizing)), cd, !maximizing);
        let r = mm_fold(b, cd, moves.drop_first(), maximizing);
        if maximizing {
            if s > r { s } else { r }
        } else {
            if s < r { s } else { r }
        }
    }
}

/// The root choice of an exhaustive search over `order`: the first move with
/// the strictly greatest plain minimax value.
pub open spec fn exact_root(b: Seq<i32>, cd: nat, order: Seq<usize>, best: int, best_move: usize) -> usize
    decreases order.len(),
{
    if order.len() == 0 {
        best_move
    } else {
        let s = mm_value(dropped(b, order[0] as int, 1), cd, false);
        if s > best {
            exact_root(b, cd, order.drop_first(), s, order[0])
        } else {
            exact_root(b, cd, order.drop_first(), best, best_move)
        }
    }
}

/// The column that an exhaustive minimax search picks for player 1 from the
/// moves in `order`.
pub open spec fn exhaustive_decision(b: Seq<i32>, depth: nat, order: Seq<usize>) -> usize {
    exact_root(b, child_depth(depth), order, i32::MIN as int, 0)
}

/// Plain minimax values lie within plus or minus the win score.
pub proof fn lemma_mm_range(b: Seq<i32>, depth: nat, maximizing: bool)
    ensures
        -1_000_000_000 <= mm_value(b, depth, maximizing) <= 1_000_000_000,
    decreases depth, 0int, 0int,
{
    lemma_score_bounds(b, mover(maximizing));
    if !is_terminal_of(b) && depth > 0 && legal_moves_of(b).len() > 0 {
        lemma_fold_range(b, (depth - 1) as nat, legal_moves_of(b), maximizing);
    }
}

proof fn lemma_fold_range(b: Seq<i32>, cd: nat, moves: Seq<usize>, maximizing: bool)
    requires
        moves.len() > 0,
    ensures
        -1_000_000_000 <= mm_fold(b, cd, moves, maximizing) <= 1_000_000_000,
    decreases cd, 1int, moves.len(),
{
    lemma_mm_range(dropped(b, moves[0] as int, mover(maximizing)), cd, !maximizing);
    if moves.len() > 1 {
        lemma_fold_range(b, cd, moves.drop_first(), maximizing);
    } else {
        assert(moves.drop_first().len() == 0);
        assert(mm_fold(b, cd, moves.drop_first(), maximizing) == if maximizing {
            i32::MIN as int
        } else {
            i32::MAX as int
        });
    }
}

/// Alpha-beta is sound: for a window `alpha < beta` within the i32 range, a
/// search result strictly inside the window is the plain minimax value, a
/// result at or below `alpha` bounds that value from above, and a result at
/// or above `beta` bounds it from below.
pub proof fn lemma_alpha_beta_sound(b: Seq<i32>, depth: nat, alpha: int, beta: int, maximizing: bool)
    requires
        i32::MIN <= alpha < beta <= i32::MAX,
    ensures
        alpha < ab_value(b, depth, alpha, beta, maximizing) < beta ==> ab_value(b, depth, alpha, beta, maximizing)
            == mm_value(b, depth, maximizing),
        ab_value(b, depth, alpha, beta, maximizing) <= alpha ==> mm_value(b, depth, maximizing) <= ab_value(
            b,
            depth,
            alpha,
            beta,
            maximizing,
        ),
        ab_value(b, depth, alpha, beta, maximizing) >= beta ==> mm_value(b, depth, maximizing) >= ab_value(
            b,
            depth,
            alpha,
            beta,
            maximizing,
        ),
    decreases depth, 0int, 0int,
{
    if !is_terminal_of(b) && depth > 0 && legal_moves_of(b).len() > 0 {
        let cd = (depth - 1) as nat;
        let ms = legal_moves_of(b);
        lemma_fold_range(b, cd, ms, maximizing);
        if maximizing {
            lemma_loop_max(b, cd, ms, i32::MIN as int, alpha, beta);
        } else {
            lemma_loop_min(b, cd, ms, i32::MAX as int, alpha, beta);
        }
    }
}

proof fn lemma_loop_max(b: Seq<i32>, cd: nat, ms: Seq<usize>, value: int, alpha: int, beta: int)
    requires
        i32::MIN <= value <= alpha < beta <= i32::MAX,
    ensures
        ab_loop(b, cd, ms, value, alpha, beta, true) >= value,
        ({
            let r = ab_loop(b, cd, ms, value, alpha, beta, true);
            let f = mm_fold(b, cd, ms, true);
            let m = if value > f { value } else { f };
            &&& alpha < r < beta ==> r == m
            &&& r <= alpha ==> m <= r
            &&& r >= beta ==> m >= r
        }),
    decreases cd, 1int, ms.len(),
{
    if ms.len() > 0 {
        let child = dropped(b, ms[0] as int, 1);
        let s = ab_value(child, cd, alpha, beta, false);
        lemma_alpha_beta_sound(child, cd, alpha, beta, false);
        let v = if s > value { s } else { value };
        let a = if v > alpha { v } else { alpha };
        if a < beta {
            lemma_loop_max(b, cd, ms.drop_first(), v, a, beta);
        }
    }
}

proof fn lemma_loop_min(b: Seq<i32>, cd: nat, ms: Seq<usize>, value: int, alpha: int, beta: int)
    requires
        i32::MIN <= alpha < beta <= value <= i32::MAX,
    ensures
        ab_loop(b, cd, ms, value, alpha, beta, false) <= value,
        ({
            let r = ab_loop(b, cd, ms, value, alpha, beta, false);
            let f = mm_fold(b, cd, ms, false);
            let m = if value < f { value } else { f };
            &&& alpha < r < beta ==> r == m
            &&& r <= alpha ==> m <= r
            &&& r >= beta ==> m >= r
        }),
    decreases cd, 1int, ms.len(),
{
    if ms.len() > 0 {
        let child = dropped(b, ms[0] as int, 2);
        let s = ab_value(child, cd, alpha, beta, true);
        lemma_alpha_beta_sound(child, cd, alpha, beta, true);
        let v = if s < value { s } else { value };
        let t = if v < beta { v } else { beta };
        if t > alpha {
            lemma_loop_min(b, cd, ms.drop_first(), v, alpha, t);
        }
    }
}

proof fn lemma_root_equiv(b: Seq<i32>, cd: nat, order: Seq<usize>, best: int, best_move: usize)
    requires
        i32::MIN <= best <= 1_000_000_000,
    ensures
        root_loop(b, cd, order, best, best_move, best) == exact_root(b, cd, order, best, best_move),
    decreases order.len(),
{
    if order.len() > 0 {
        let child = dropped(b, order[0] as int, 1);
        lemma_alpha_beta_sound(child, cd, best, i32::MAX as int, false);
        lemma_mm_range(child, cd, false);
        let s = ab_value(child, cd, best, i32::MAX as int, false);
        if s > best {
            lemma_root_equiv(b, cd, order.drop_first(), s, order[0]);
        } else {
            lemma_root_equiv(b, cd, order.drop_first(), best, best_move);
        }
    }
}

/// Pruning never changes the root choice: over any move order, the column
/// that the alpha-beta search picks is the one that the exhaustive minimax
/// search picks.
pub proof fn lemma_alpha_beta_equivalence(b: Seq<i32>, depth: nat, order: Seq<usize>)
    ensures
        decision_of(b, depth, order) == exhaustive_decision(b, depth, order),
{
    lemma_root_equiv(b, child_depth(depth), order, i32::MIN as int, 0);
}


/// The plain minimax value, for player 2 to move, of the position after
/// player 1 plays column `c`.
pub open spec fn root_child_value(b: Seq<i32>, cd: nat, c: usize) -> int {
    mm_value(dropped(b, c as int, 1), cd, false)
}

proof fn lemma_exact_root_pick(b: Seq<i32>, cd: nat, order: Seq<usize>, best: int, best_move: usize)
    ensures
        ({
            let r = exact_root(b, cd, order, best, best_move);
            (r == best_move && forall|i: int| 0 <= i < order.len() ==> #[trigger] root_child_value(b, cd, order[i]) <= best)
                || (exists|i: int| 0 <= i < order.len() && #[trigger] order[i] == r)
                && root_child_value(b, cd, r) > best
                && forall|j: int| 0 <= j < order.len() ==> #[trigger] root_child_value(b, cd, order[j]) <= root_child_value(b, cd, r)
        }),
    decreases order.len(),
{
    if order.len() > 0 {
        let rest = order.drop_first();
        let s = root_child_value(b, cd, order[0]);
        let r = exact_root(b, cd, order, best, best_move);
        if s > best {
            lemma_exact_root_pick(b, cd, rest, s, order[0]);
        } else {
            lemma_exact_root_pick(b, cd, rest, best, best_move);
        }
        if exists|i: int| 0 <= i < rest.len() && #[trigger] rest[i] == r {
            let i = choose|i: int| 0 <= i < rest.len() && #[trigger] rest[i] == r;
            assert(order[i + 1] == r);
        }
        assert forall|j: int| 1 <= j < order.len() implies order[j] == rest[j - 1] by {}
    }
}

/// When player 1 can complete four in a row at once, the search picks a
/// legal move whose plain minimax value is the win score; searching one ply,
/// that move itself completes four in a row.
pub proof fn lemma_immediate_win(b: Seq<i32>, depth: nat, order: Seq<usize>, c: usize)
    requires
        is_move_order(b, order),
        is_legal(b, c as int),
        has_win(dropped(b, c as int, 1), 1),
        depth >= 1,
    ensures
        is_legal(b, decision_of(b, depth, order) as int),
        mm_value(dropped(b, decision_of(b, depth, order) as int, 1), child_depth(depth), false) == WIN_SCORE,
        depth == 1 ==> has_win(dropped(b, decision_of(b, depth, order) as int, 1), 1),
{
    let cd = child_depth(depth);
    lemma_alpha_beta_equivalence(b, depth, order);
    lemma_exact_root_pick(b, cd, order, i32::MIN as int, 0);
    assert(order.contains(c));
    let i0 = choose|i: int| 0 <= i < order.len() && order[i] == c;
    assert(root_child_value(b, cd, order[i0]) == WIN_SCORE);
    let r = decision_of(b, depth, order);
    let ri = choose|i: int| 0 <= i < order.len() && #[trigger] order[i] == r;
    assert(order.contains(order[ri]));
    lemma_mm_range(dropped(b, r as int, 1), cd, false);
    if depth == 1 {
        lemma_score_bounds(dropped(b, r as int, 1), 2);
    }
}


proof fn lemma_lowest_same(b1: Seq<i32>, b: Seq<i32>, c: int, r: int)
    requires
        forall|rr: int| 0 <= rr <= r ==> at(b1, rr, c) == at(b, rr, c),
    ensures
        lowest_from(b1, c, r) == lowest_from(b, c, r),
    decreases r + 1,
{
    if r >= 0 {
        lemma_lowest_same(b1, b, c, r - 1);
    }
}

/// A move by player 1 in another column leaves player 2's winning drop in
/// column `c` legal and winning.
proof fn lemma_threat_survives(b: Seq<i32>, m: int, c: int)
    requires
        b.len() == 42,
        is_legal(b, m),
        is_legal(b, c),
        m != c,
        has_win(dropped(b, c, 2), 2),
    ensures
        is_legal(dropped(b, m, 1), c),
        has_win(dropped(dropped(b, m, 1), c, 2), 2),
{
    let b1 = dropped(b, m, 1);
    lemma_lowest_from(b, m, 5);
    lemma_lowest_from(b, c, 5);
    let rm = drop_row(b, m);
    assert forall|rr: int| 0 <= rr <= 5 implies at(b1, rr, c) == at(b, rr, c) by {
        assert(rr * 7 + c != rm * 7 + m);
    }
    lemma_lowest_same(b1, b, c, 5);
    let bw = dropped(b, c, 2);
    let b2 = dropped(b1, c, 2);
    let (d, r, cc) = choose|d: int, r: int, cc: int| line_of(bw, 2, d, r, cc);
    assert(line_of(b2, 2, d, r, cc));
}

proof fn lemma_fold_min_le(b: Seq<i32>, cd: nat, ms: Seq<usize>, i: int)
    requires
        0 <= i < ms.len(),
    ensures
        mm_fold(b, cd, ms, false) <= mm_value(dropped(b, ms[i] as int, 2), cd, true),
    decreases ms.len(),
{
    if i > 0 {
        lemma_fold_min_le(b, cd, ms.drop_first(), i - 1);
    }
}

/// When player 1 cannot win at once, player 2 threatens to win by dropping
/// into column `c`, and blocking there leaves player 2 no forced win within
/// the search depth, a search of two or more plies plays `c`.
pub proof fn lemma_immediate_block(b: Seq<i32>, depth: nat, order: Seq<usize>, c: usize)
    requires
        b.len() == 42,
        is_move_order(b, order),
        !is_terminal_of(b),
        depth >= 2,
        is_legal(b, c as int),
        has_win(dropped(b, c as int, 2), 2),
        forall|m: int| is_legal(b, m) ==> !#[trigger] has_win(dropped(b, m, 1), 1),
        mm_value(dropped(b, c as int, 1), child_depth(depth), false) > -WIN_SCORE,
    ensures
        decision_of(b, depth, order) == c,
{
    let cd = child_depth(depth);
    assert forall|m: usize| is_legal(b, m as int) && m != c implies #[trigger] root_child_value(b, cd, m) == -WIN_SCORE by {
        let b1 = dropped(b, m as int, 1);
        lemma_move_keeps_other_side(b, m as int, 1);
        lemma_threat_survives(b, m as int, c as int);
        lemma_legal_upto(b1, 7);
        assert(legal_moves_of(b1).contains(c));
        let i = choose|i: int| 0 <= i < legal_moves_of(b1).len() && legal_moves_of(b1)[i] == c;
        lemma_fold_min_le(b1, (cd - 1) as nat, legal_moves_of(b1), i);
        lemma_move_keeps_other_side(b1, c as int, 2);
        lemma_mm_range(b1, cd, false);
    }
    lemma_alpha_beta_equivalence(b, depth, order);
    lemma_exact_root_pick(b, cd, order, i32::MIN as int, 0);
    assert(order.contains(c));
    let i0 = choose|i: int| 0 <= i < order.len() && order[i] == c;
    assert(root_child_value(b, cd, order[i0]) > -WIN_SCORE);
    let r = decision_of(b, depth, order);
    let ri = choose|i: int| 0 <= i < order.len() && #[trigger] order[i] == r;
    assert(order.contains(order[ri]));
}

} // verus!
