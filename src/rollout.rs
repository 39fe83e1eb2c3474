use vstd::prelude::*;
use crate::board::{
    dropped, empties, has_win, is_legal, is_terminal_of, lemma_drop_fills_one,
    lemma_legal_moves_legal, lemma_legal_upto, legal_moves_of, opponent, other, Board,
};
use rand::seq::SliceRandom;

verus! {

/// The result of a finished game in half points for player 1: 2 for a win of
/// player 1, 0 for a win of player 2, 1 for a draw.
pub open spec fn outcome_of(b: Seq<i32>) -> u64 {
    if has_win(b, 1) {
        2
    } else if has_win(b, 2) {
        0
    } else {
        1
    }
}

/// A move that a rollout prefers: it wins at once for the mover `p`, or it is
/// one of the three center columns.
pub open spec fn is_strategic(b: Seq<i32>, c: int, p: i32) -> bool {
    has_win(dropped(b, c, p), p) || (2 <= c <= 4)
}

/// The player who makes the `k`-th move (from 0) of a rollout started by `p`.
pub open spec fn turn_from(p: i32, k: int) -> i32 {
    if k % 2 == 0 { p } else { other(p) }
}

/// Column `c` is a move a rollout may draw for `p`: it is legal, and it is
/// strategic whenever some legal move is.
pub open spec fn rollout_move_ok(b: Seq<i32>, c: int, p: i32) -> bool {
    &&& is_legal(b, c)
    &&& (exists|x: int| is_legal(b, x) && is_strategic(b, x, p)) ==> is_strategic(b, c, p)
}

/// The grid after a rollout from `b` plays the columns `ms`, the players
/// taking turns from `p`; `None` if a move is not one a rollout may draw or
/// comes after the game ended.
pub open spec fn rollout_play(b: Seq<i32>, p: i32, ms: Seq<usize>) -> Option<Seq<i32>>
    decreases ms.len(),
{
    if ms.len() == 0 {
        Some(b)
    } else {
        match rollout_play(b, p, ms.drop_last()) {
            Some(pb) => {
                let q = turn_from(p, ms.len() - 1);
                if !is_terminal_of(pb) && rollout_move_ok(pb, ms.last() as int, q) {
                    Some(dropped(pb, ms.last() as int, q))
                } else {
                    None
                }
            },
            None => None,
        }
    }
}

/// Whether column `col` is a strategic move for `p` (see `is_strategic`).
pub fn is_strategic_move(b: &Board, col: usize, p: i32) -> (s: bool)
    requires
        is_legal(b@, col as int),
    ensures
        s == is_strategic(b@, col as int, p),
{
    let after = b.play(col, p);
    if after.is_win(p) {
        return true;
    }
    2 <= col && col <= 4
}

/// The moves among which a rollout draws: the legal strategic moves of `p` if
/// there is one, else all legal moves; ascending either way.
pub fn rollout_candidates(b: &Board, p: i32) -> (m: Vec<usize>)
    ensures
        (exists|c: int| is_legal(b@, c) && is_strategic(b@, c, p)) ==> (forall|c: usize|
            m@.contains(c) <==> is_legal(b@, c as int) && is_strategic(b@, c as int, p)),
        !(exists|c: int| is_legal(b@, c) && is_strategic(b@, c, p)) ==> m@ == legal_moves_of(b@),
        forall|i: int, j: int| #![trigger m@[i], m@[j]] 0 <= i < j < m@.len() ==> m@[i] < m@[j],
{
    let legal = b.legal_moves();
    let mut strategic: Vec<usize> = Vec::new();
    let mut i: usize = 0;
    proof {
        lemma_legal_upto(b@, 7);
    }
    while i < legal.len()
        invariant
            legal@ == legal_moves_of(b@),
            i <= legal@.len(),
            forall|k: int| 0 <= k < legal@.len() ==> is_legal(b@, #[trigger] legal@[k] as int),
            forall|x: int, y: int| #![trigger legal@[x], legal@[y]] 0 <= x < y < legal@.len() ==> legal@[x] < legal@[y],
            forall|c: int| 0 <= c < 7 && is_legal(b@, c) ==> legal@.contains(c as usize),
            forall|k: int| 0 <= k < strategic@.len() ==> #[trigger] strategic@[k] < (if i < legal@.len() { legal@[i as int] } else { 7 })
                && is_legal(b@, strategic@[k] as int) && is_strategic(b@, strategic@[k] as int, p),
            forall|k: int| 0 <= k < i && is_strategic(b@, legal@[k] as int, p) ==> strategic@.contains(#[trigger] legal@[k]),
            forall|x: int, y: int| #![trigger strategic@[x], strategic@[y]] 0 <= x < y < strategic@.len() ==> strategic@[x] < strategic@[y],
        decreases legal.len() - i,
    {
        let c = legal[i];
        let ghost s0 = strategic@;
        if is_strategic_move(b, c, p) {
            strategic.push(c);
            proof {
                assert forall|k: int| 0 <= k < i + 1 && is_strategic(b@, legal@[k] as int, p) implies strategic@.contains(#[trigger] legal@[k]) by {
                    if k < i {
                        let m = choose|m: int| 0 <= m < s0.len() && s0[m] == legal@[k];
                        assert(strategic@[m] == legal@[k]);
                    } else {
                        assert(strategic@[s0.len() as int] == c);
                    }
                }
            }
        }
        i += 1;
    }
    if strategic.len() > 0 {
        proof {
            assert forall|c: usize| is_legal(b@, c as int) && is_strategic(b@, c as int, p) implies strategic@.contains(c) by {
                let k = choose|k: int| 0 <= k < legal@.len() && legal@[k] == c;
                assert(strategic@.contains(legal@[k]));
            }
            assert(is_legal(b@, strategic@[0] as int) && is_strategic(b@, strategic@[0] as int, p));
        }
        strategic
    } else {
        proof {
            assert forall|c: int| is_legal(b@, c) implies !is_strategic(b@, c, p) by {
                let k = choose|k: int| 0 <= k < legal@.len() && legal@[k] == c as usize;
                if is_strategic(b@, c, p) {
                    assert(strategic@.contains(legal@[k]));
                }
            }
        }
        legal
    }
}

/// Relies on rand's `SliceRandom::choose` with the thread-local generator: it
/// returns one of the entries of a non-empty slice.
#[verifier::external_body]
fn choose_random(moves: &Vec<usize>) -> (c: usize)
    requires
        moves@.len() > 0,
    ensures
        moves@.contains(c),
{
    *moves.choose(&mut rand::thread_rng()).unwrap()
}

/// Plays random moves from the position, `p` to move, until the game ends,
/// drawing each move among the rollout candidates; returns the outcome in half
/// points for player 1.
pub fn simulate(b: &Board, p: i32) -> (o: u64)
    requires
        p == 1 || p == 2,
    ensures
        o <= 2,
        is_terminal_of(b@) ==> o == outcome_of(b@),
        exists|ms: Seq<usize>|
            #[trigger] rollout_play(b@, p, ms).is_some() && is_terminal_of(rollout_play(b@, p, ms).unwrap())
                && o == outcome_of(rollout_play(b@, p, ms).unwrap()),
{
    let mut cur = *b;
    let mut player = p;
    let ghost mut hist: Seq<usize> = Seq::empty();
    while !cur.is_terminal()
        invariant
            p == 1 || p == 2,
            player == turn_from(p, hist.len() as int),
            cur@.len() == 42,
            is_terminal_of(b@) ==> cur@ == b@,
            rollout_play(b@, p, hist) == Some(cur@),
        decreases empties(cur@),
    {
        let moves = rollout_candidates(&cur, player);
        proof {
            lemma_legal_upto(cur@, 7);
            assert(legal_moves_of(cur@).len() > 0);
            let c0 = legal_moves_of(cur@)[0];
            lemma_legal_moves_legal(cur@, 0);
            if !(exists|c: int| is_legal(cur@, c) && is_strategic(cur@, c, player)) {
                assert(moves@.len() > 0);
            } else {
                let c = choose|c: int| is_legal(cur@, c) && is_strategic(cur@, c, player);
                assert(0 <= c < 7);
                assert(moves@.contains(c as usize));
            }
        }
        let col = choose_random(&moves);
        proof {
            if exists|c: int| is_legal(cur@, c) && is_strategic(cur@, c, player) {
                assert(is_legal(cur@, col as int));
            } else {
                let k = choose|k: int| 0 <= k < moves@.len() && moves@[k] == col;
                lemma_legal_moves_legal(cur@, k);
            }
            assert(rollout_move_ok(cur@, col as int, player));
            lemma_drop_fills_one(cur@, col as int, player);
        }
        let ghost before = cur@;
        cur = cur.play(col, player);
        player = opponent(player);
        proof {
            let h2 = hist.push(col);
            assert(h2.drop_last() =~= hist);
            assert(rollout_play(b@, p, h2) == Some(dropped(before, col as int, turn_from(p, hist.len() as int))));
            hist = h2;
        }
    }
    assert(rollout_play(b@, p, hist).is_some());
    if cur.is_win(1) {
        2
    } else if cur.is_win(2) {
        0
    } else {
        1
    }
}

} // verus!
