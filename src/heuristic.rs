use vstd::prelude::*;
use crate::board::{at, col_hi, opponent, other, row_hi, row_lo, window_bounds, window_cell, Board, EMPTY};

verus! {

/// 1 if `v == x`, else 0.
pub open spec fn ind(v: i32, x: i32) -> int {
    if v == x { 1 } else { 0 }
}

/// How many of the four cells hold `x`.
pub open spec fn count4(w: (i32, i32, i32, i32), x: i32) -> int {
    ind(w.0, x) + ind(w.1, x) + ind(w.2, x) + ind(w.3, x)
}

/// The score of one window for `p`: 100 for four of `p`, 5 for three and an
/// empty cell, 2 for two and two empty cells; minus 4 when the opponent has
/// three and an empty cell.
pub open spec fn window_score(w: (i32, i32, i32, i32), p: i32) -> int {
    let pc = count4(w, p);
    let ec = count4(w, 0);
    let oc = count4(w, other(p));
    (if pc == 4 {
        100int
    } else if pc == 3 && ec == 1 {
        5
    } else if pc == 2 && ec == 2 {
        2
    } else {
        0
    }) + (if oc == 3 && ec == 1 { -4int } else { 0 })
}

/// The cells of window `(d, r, c)`.
pub open spec fn window_of(b: Seq<i32>, d: int, r: int, c: int) -> (i32, i32, i32, i32) {
    (window_cell(b, d, r, c, 0), window_cell(b, d, r, c, 1), window_cell(b, d, r, c, 2),
        window_cell(b, d, r, c, 3))
}

/// Sum of the window scores of orientation `d` starting on row `r`, columns `0 .. n`.
pub open spec fn cols_sum(b: Seq<i32>, p: i32, d: int, r: int, n: nat) -> int
    decreases n,
{
    if n == 0 {
        0
    } else {
        cols_sum(b, p, d, r, (n - 1) as nat) + window_score(window_of(b, d, r, n - 1), p)
    }
}

/// Sum of the window scores of orientation `d` starting on rows `row_lo(d) .. r`.
pub open spec fn rows_sum(b: Seq<i32>, p: i32, d: int, r: int) -> int
    decreases r - row_lo(d),
{
    if r <= row_lo(d) {
        0
    } else {
        rows_sum(b, p, d, r - 1) + cols_sum(b, p, d, r - 1, col_hi(d) as nat)
    }
}

/// Sum of the window scores of orientations `0 .. n`.
pub open spec fn dirs_sum(b: Seq<i32>, p: i32, n: nat) -> int
    decreases n,
{
    if n == 0 {
        0
    } else {
        dirs_sum(b, p, (n - 1) as nat) + rows_sum(b, p, n - 1, row_hi(n - 1))
    }
}

/// How many of rows `0 .. n` of the center column hold `p`.
pub open spec fn center_count(b: Seq<i32>, p: i32, n: nat) -> int
    decreases n,
{
    if n == 0 {
        0
    } else {
        center_count(b, p, (n - 1) as nat) + ind(at(b, n - 1, 3), p)
    }
}

/// The heuristic value of the board for `p`: 3 per piece of `p` in the center
/// column, plus the score of every window of four cells.
pub open spec fn score_of(b: Seq<i32>, p: i32) -> int {
    3 * center_count(b, p, 6) + dirs_sum(b, p, 4)
}

proof fn lemma_window_score_bounds(w: (i32, i32, i32, i32), p: i32)
    ensures
        -4 <= window_score(w, p) <= 100,
{
}

proof fn lemma_cols_sum_bounds(b: Seq<i32>, p: i32, d: int, r: int, n: nat)
    ensures
        -4 * n <= cols_sum(b, p, d, r, n) <= 100 * n,
    decreases n,
{
    if n > 0 {
        lemma_cols_sum_bounds(b, p, d, r, (n - 1) as nat);
        lemma_window_score_bounds(window_of(b, d, r, n - 1), p);
    }
}

proof fn lemma_rows_sum_bounds(b: Seq<i32>, p: i32, d: int, r: int)
    requires
        0 <= d < 4,
        row_lo(d) <= r,
    ensures
        -28 * (r - row_lo(d)) <= rows_sum(b, p, d, r) <= 700 * (r - row_lo(d)),
    decreases r - row_lo(d),
{
    if r > row_lo(d) {
        lemma_rows_sum_bounds(b, p, d, r - 1);
        lemma_cols_sum_bounds(b, p, d, r - 1, col_hi(d) as nat);
    }
}

proof fn lemma_dirs_sum_bounds(b: Seq<i32>, p: i32, n: nat)
    requires
        n <= 4,
    ensures
        -168 * n <= dirs_sum(b, p, n) <= 4200 * n,
    decreases n,
{
    if n > 0 {
        lemma_dirs_sum_bounds(b, p, (n - 1) as nat);
        lemma_rows_sum_bounds(b, p, n - 1, row_hi(n - 1));
    }
}

/// Heuristic values are small: they fit an i32 with room to spare.
pub proof fn lemma_score_bounds(b: Seq<i32>, p: i32)
    ensures
        -672 <= score_of(b, p) <= 16818,
{
    lemma_dirs_sum_bounds(b, p, 4);
    assert(0 <= center_count(b, p, 6) <= 6) by {
        lemma_center_count_bounds(b, p, 6);
    }
}

proof fn lemma_center_count_bounds(b: Seq<i32>, p: i32, n: nat)
    ensures
        0 <= center_count(b, p, n) <= n,
    decreases n,
{
    if n > 0 {
        lemma_center_count_bounds(b, p, (n - 1) as nat);
    }
}

fn count_of(w: (i32, i32, i32, i32), x: i32) -> (n: i32)
    ensures
        n == count4(w, x),
{
    let mut n: i32 = 0;
    if w.0 == x {
        n += 1;
    }
    if w.1 == x {
        n += 1;
    }
    if w.2 == x {
        n += 1;
    }
    if w.3 == x {
        n += 1;
    }
    n
}

/// The score of one window for `p` (see `window_score`).
pub fn evaluate_window(w: (i32, i32, i32, i32), p: i32) -> (s: i32)
    ensures
        s == window_score(w, p),
{
    let opp = opponent(p);
    let pc = count_of(w, p);
    let ec = count_of(w, EMPTY);
    let oc = count_of(w, opp);
    let mut s: i32 = 0;
    if pc == 4 {
        s += 100;
    } else if pc == 3 && ec == 1 {
        s += 5;
    } else if pc == 2 && ec == 2 {
        s += 2;
    }
    if oc == 3 && ec == 1 {
        s -= 4;
    }
    s
}

/// The heuristic value of the board for `p`.
pub fn score_position(b: &Board, p: i32) -> (s: i32)
    ensures
        s == score_of(b@, p),
{
    let mut center: i32 = 0;
    let mut r: usize = 0;
    while r < 6
        invariant
            r <= 6,
            center == center_count(b@, p, r as nat),
            0 <= center <= r,
        decreases 6 - r,
    {
        if b.get(r, 3) == p {
            center += 1;
        }
        r += 1;
    }
    let base: i32 = center * 3;
    let mut score: i32 = base;
    let mut d: usize = 0;
    while d < 4
        invariant
            d <= 4,
            0 <= base <= 18,
            base == 3 * center_count(b@, p, 6),
            score == base + dirs_sum(b@, p, d as nat),
        decreases 4 - d,
    {
        let (lo, hi, ch) = window_bounds(d);
        let mut r: usize = lo;
        while r < hi
            invariant
                d < 4,
                lo == row_lo(d as int),
                hi == row_hi(d as int),
                ch == col_hi(d as int),
                lo <= r <= hi,
                0 <= base <= 18,
                score == base + dirs_sum(b@, p, d as nat) + rows_sum(b@, p, d as int, r as int),
            decreases hi - r,
        {
            let mut c: usize = 0;
            while c < ch
                invariant
                    d < 4,
                    lo == row_lo(d as int),
                    hi == row_hi(d as int),
                    ch == col_hi(d as int),
                    lo <= r < hi,
                    c <= ch,
                    0 <= base <= 18,
                    score == base + dirs_sum(b@, p, d as nat) + rows_sum(b@, p, d as int, r as int)
                        + cols_sum(b@, p, d as int, r as int, c as nat),
                decreases ch - c,
            {
                let w = b.window(d, r, c);
                let v = evaluate_window(w, p);
                proof {
                    lemma_dirs_sum_bounds(b@, p, d as nat);
                    lemma_rows_sum_bounds(b@, p, d as int, r as int);
                    lemma_cols_sum_bounds(b@, p, d as int, r as int, (c + 1) as nat);
                    assert(window_of(b@, d as int, r as int, c as int) == w);
                }
                score = score + v;
                c += 1;
            }
            r += 1;
        }
        d += 1;
    }
    score
}

} // verus!
