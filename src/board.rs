use vstd::prelude::*;

verus! {

/// Number of rows; row 0 is the top row.
pub const ROWS: usize = 6;

/// Number of columns.
pub const COLS: usize = 7;

/// The value of an empty cell.
pub const EMPTY: i32 = 0;

/// The cell at row `r`, column `c` of a row-major grid.
pub open spec fn at(b: Seq<i32>, r: int, c: int) -> i32 {
    b[r * 7 + c]
}

/// Whether `(r, c)` lies on the 6 x 7 grid.
pub open spec fn on_grid(r: int, c: int) -> bool {
    0 <= r < 6 && 0 <= c < 7
}

/// Row step of each of the four line orientations:
/// 0 horizontal, 1 vertical, 2 diagonal (down-right), 3 anti-diagonal (up-right).
pub open spec fn step_r(d: int) -> int {
    if d == 1 || d == 2 { 1 } else if d == 3 { -1 } else { 0 }
}

/// Column step of each of the four line orientations.
pub open spec fn step_c(d: int) -> int {
    if d == 1 { 0 } else { 1 }
}

/// First row at which a window of orientation `d` may start.
pub open spec fn row_lo(d: int) -> int {
    if d == 3 { 3 } else { 0 }
}

/// One past the last row at which a window of orientation `d` may start.
pub open spec fn row_hi(d: int) -> int {
    if d == 0 || d == 3 { 6 } else { 3 }
}

/// One past the last column at which a window of orientation `d` may start.
pub open spec fn col_hi(d: int) -> int {
    if d == 1 { 7 } else { 4 }
}

/// `(d, r, c)` names a window: four cells in a line that all lie on the grid.
pub open spec fn is_window(d: int, r: int, c: int) -> bool {
    0 <= d < 4 && row_lo(d) <= r < row_hi(d) && 0 <= c < col_hi(d)
}

/// The `k`-th cell (0 to 3) of window `(d, r, c)`.
pub open spec fn window_cell(b: Seq<i32>, d: int, r: int, c: int, k: int) -> i32 {
    at(b, r + k * step_r(d), c + k * step_c(d))
}

/// All four cells of window `(d, r, c)` hold `p`.
pub open spec fn line_of(b: Seq<i32>, p: i32, d: int, r: int, c: int) -> bool {
    &&& is_window(d, r, c)
    &&& window_cell(b, d, r, c, 0) == p
    &&& window_cell(b, d, r, c, 1) == p
    &&& window_cell(b, d, r, c, 2) == p
    &&& window_cell(b, d, r, c, 3) == p
}

/// `p` has four in a row somewhere: horizontally, vertically or diagonally.
pub open spec fn has_win(b: Seq<i32>, p: i32) -> bool {
    exists|d: int, r: int, c: int| #[trigger] line_of(b, p, d, r, c)
}

/// A move into column `c` is legal: the column exists and its top cell is empty.
pub open spec fn is_legal(b: Seq<i32>, c: int) -> bool {
    0 <= c < 7 && at(b, 0, c) == 0
}

/// The legal columns among `0 .. n`, in ascending order.
pub open spec fn legal_upto(b: Seq<i32>, n: nat) -> Seq<usize>
    decreases n,
{
    if n == 0 {
        Seq::empty()
    } else {
        let rest = legal_upto(b, (n - 1) as nat);
        if is_legal(b, n - 1) {
            rest.push((n - 1) as usize)
        } else {
            rest
        }
    }
}

/// The legal columns of the board, in ascending order.
pub open spec fn legal_moves_of(b: Seq<i32>) -> Seq<usize> {
    legal_upto(b, 7)
}

/// Either player has four in a row, or the board is full.
pub open spec fn is_terminal_of(b: Seq<i32>) -> bool {
    has_win(b, 1) || has_win(b, 2) || legal_moves_of(b).len() == 0
}

/// The lowest empty row of column `c` among rows `0 ..= r`, or -1 if none.
pub open spec fn lowest_from(b: Seq<i32>, c: int, r: int) -> int
    decreases r + 1,
{
    if r < 0 {
        -1
    } else if at(b, r, c) == 0 {
        r
    } else {
        lowest_from(b, c, r - 1)
    }
}

/// The lowest empty row of column `c`, or -1 if the column is full.
pub open spec fn drop_row(b: Seq<i32>, c: int) -> int {
    lowest_from(b, c, 5)
}

/// The grid after `p` drops a piece into column `c`.
pub open spec fn dropped(b: Seq<i32>, c: int, p: i32) -> Seq<i32> {
    let r = drop_row(b, c);
    if r < 0 {
        b
    } else {
        b.update(r * 7 + c, p)
    }
}

/// A 6 x 7 Connect-Four grid, row-major, row 0 on top. A cell holds 0 when
/// empty, else the number of the player whose piece it is.
#[derive(Clone, Copy, Debug)]
pub struct Board {
    pub cells: [i32; 42],
}

/// The input grid is not exactly 6 rows of 7 cells.
#[derive(Clone, Copy, Debug, PartialEq, Eq, Structural)]
pub struct InvalidBoardShapeError;

/// A piece was dropped into a column that is full or does not exist.
#[derive(Clone, Copy, Debug, PartialEq, Eq, Structural)]
pub struct IllegalMoveError {
    pub column: usize,
}

impl View for Board {
    type V = Seq<i32>;

    open spec fn view(&self) -> Seq<i32> {
        self.cells@
    }
}

/// The other player of a two-player game between 1 and 2.
pub open spec fn other(p: i32) -> i32 {
    if p == 1 { 2 } else { 1 }
}

/// The other player of a two-player game between 1 and 2.
pub fn opponent(p: i32) -> (r: i32)
    ensures
        r == other(p),
{
    if p == 1 { 2 } else { 1 }
}

/// The grid of a board given as rows of cells.
pub open spec fn grid_of(rows: Seq<Vec<i32>>) -> Seq<i32> {
    Seq::new(42, |i: int| rows[i / 7]@[i % 7])
}

/// The input is exactly 6 rows of 7 cells.
pub open spec fn well_shaped(rows: Seq<Vec<i32>>) -> bool {
    rows.len() == 6 && forall|r: int| 0 <= r < 6 ==> (#[trigger] rows[r])@.len() == 7
}

/// The row range and column bound of the windows of orientation `d`.
pub fn window_bounds(d: usize) -> (res: (usize, usize, usize))
    requires
        d < 4,
    ensures
        res.0 == row_lo(d as int),
        res.1 == row_hi(d as int),
        res.2 == col_hi(d as int),
{
    if d == 0 {
        (0, 6, 4)
    } else if d == 1 {
        (0, 3, 7)
    } else if d == 2 {
        (0, 3, 4)
    } else {
        (3, 6, 4)
    }
}

impl Board {
    /// The empty board.
    pub fn empty() -> (b: Board)
        ensures
            b@ == Seq::new(42, |i: int| 0i32),
    {
        let b = Board { cells: [0i32; 42] };
        assert(b@ =~= Seq::new(42, |i: int| 0i32));
        b
    }

    /// Reads a board given as rows, top row first; fails unless it is 6 x 7.
    pub fn from_rows(rows: &Vec<Vec<i32>>) -> (res: Result<Board, InvalidBoardShapeError>)
        ensures
            res.is_ok() <==> well_shaped(rows@),
            res.is_ok() ==> res.unwrap()@ == grid_of(rows@),
    {
        if rows.len() != ROWS {
            return Err(InvalidBoardShapeError);
        }
        let mut r: usize = 0;
        while r < ROWS
            invariant
                rows@.len() == 6,
                0 <= r <= 6,
                forall|k: int| 0 <= k < r ==> (#[trigger] rows@[k])@.len() == 7,
            decreases 6 - r,
        {
            if rows[r].len() != COLS {
                return Err(InvalidBoardShapeError);
            }
            r += 1;
        }
        let mut b = Board::empty();
        let mut i: usize = 0;
        while i < 42
            invariant
                well_shaped(rows@),
                0 <= i <= 42,
                b@.len() == 42,
                forall|k: int| 0 <= k < i ==> b@[k] == #[trigger] grid_of(rows@)[k],
            decreases 42 - i,
        {
            assert(0 <= i / 7 < 6);
            assert(rows@[i as int / 7]@.len() == 7);
            let v = rows[i / 7][i % 7];
            b.cells[i] = v;
            i += 1;
        }
        assert(b@ =~= grid_of(rows@));
        Ok(b)
    }

    /// The cell at row `r`, column `c`.
    pub fn get(&self, r: usize, c: usize) -> (v: i32)
        requires
            r < 6,
            c < 7,
        ensures
            v == at(self@, r as int, c as int),
    {
        self.cells[r * 7 + c]
    }

    /// The cells of window `(d, r, c)`, in order along the line.
    pub fn window(&self, d: usize, r: usize, c: usize) -> (w: (i32, i32, i32, i32))
        requires
            is_window(d as int, r as int, c as int),
        ensures
            w.0 == window_cell(self@, d as int, r as int, c as int, 0),
            w.1 == window_cell(self@, d as int, r as int, c as int, 1),
            w.2 == window_cell(self@, d as int, r as int, c as int, 2),
            w.3 == window_cell(self@, d as int, r as int, c as int, 3),
    {
        let base: usize = r * 7 + c;
        if d == 0 {
            (self.cells[base], self.cells[base + 1], self.cells[base + 2], self.cells[base + 3])
        } else if d == 1 {
            (self.cells[base], self.cells[base + 7], self.cells[base + 14], self.cells[base + 21])
        } else if d == 2 {
            (self.cells[base], self.cells[base + 8], self.cells[base + 16], self.cells[base + 24])
        } else {
            (self.cells[base], self.cells[base - 6], self.cells[base - 12], self.cells[base - 18])
        }
    }

    /// Whether `p` has four in a row horizontally, vertically or diagonally.
    pub fn is_win(&self, p: i32) -> (w: bool)
        ensures
            w == has_win(self@, p),
    {
        let mut d: usize = 0;
        while d < 4
            invariant
                d <= 4,
                forall|dd: int, rr: int, cc: int|
                    dd < d ==> !#[trigger] line_of(self@, p, dd, rr, cc),
            decreases 4 - d,
        {
            let (lo, hi, ch) = window_bounds(d);
            let mut r: usize = lo;
            while r < hi
                invariant
                    d < 4,
                    lo == row_lo(d as int),
                    hi == row_hi(d as int),
                    ch == col_hi(d as int),
                    lo <= r <= hi,
                    forall|dd: int, rr: int, cc: int|
                        (dd < d || (dd == d && rr < r)) ==> !#[trigger] line_of(self@, p, dd, rr, cc),
                decreases hi - r,
            {
                let mut c: usize = 0;
                while c < ch
                    invariant
                        d < 4,
                        lo == row_lo(d as int),
                        hi == row_hi(d as int),
                        ch == col_hi(d as int),
                        lo <= r < hi,
                        c <= ch,
                        forall|dd: int, rr: int, cc: int|
                            (dd < d || (dd == d && rr < r) || (dd == d && rr == r && cc < c))
                                ==> !#[trigger] line_of(self@, p, dd, rr, cc),
                    decreases ch - c,
                {
                    let w = self.window(d, r, c);
                    if w.0 == p && w.1 == p && w.2 == p && w.3 == p {
                        assert(line_of(self@, p, d as int, r as int, c as int));
                        return true;
                    }
                    c += 1;
                }
                r += 1;
            }
            d += 1;
        }
        false
    }

    /// The legal columns, in ascending order.
    pub fn legal_moves(&self) -> (moves: Vec<usize>)
        ensures
            moves@ == legal_moves_of(self@),
    {
        let mut moves: Vec<usize> = Vec::new();
        let mut c: usize = 0;
        while c < 7
            invariant
                c <= 7,
                moves@ == legal_upto(self@, c as nat),
            decreases 7 - c,
        {
            if self.cells[c] == EMPTY {
                moves.push(c);
            }
            c += 1;
        }
        moves
    }

    /// Whether either player has won or the board is full.
    pub fn is_terminal(&self) -> (t: bool)
        ensures
            t == is_terminal_of(self@),
    {
        self.is_win(1) || self.is_win(2) || self.legal_moves().len() == 0
    }

    /// Drops `p`'s piece into the lowest empty cell of the legal column `col`.
    pub fn drop_piece(&mut self, col: usize, p: i32)
        requires
            is_legal(old(self)@, col as int),
        ensures
            final(self)@ == dropped(old(self)@, col as int, p),
    {
        let mut row: usize = 6;
        while row > 0
            invariant
                row <= 6,
                col < 7,
                self@ == old(self)@,
                drop_row(self@, col as int) == lowest_from(self@, col as int, row - 1),
            decreases row,
        {
            row -= 1;
            if self.cells[row * 7 + col] == EMPTY {
                self.cells[row * 7 + col] = p;
                return;
            }
        }
    }

    /// The board after `p` plays column `col`; fails if the column is full or
    /// does not exist.
    pub fn apply_move(&self, col: usize, p: i32) -> (res: Result<Board, IllegalMoveError>)
        ensures
            res.is_ok() <==> is_legal(self@, col as int),
            res.is_ok() ==> res.unwrap()@ == dropped(self@, col as int, p),
            res.is_err() ==> res == Err::<Board, IllegalMoveError>(IllegalMoveError { column: col }),
    {
        if col >= COLS || self.cells[col] != EMPTY {
            return Err(IllegalMoveError { column: col });
        }
        Ok(self.play(col, p))
    }

    /// The board after `p` plays the legal column `col`.
    pub fn play(&self, col: usize, p: i32) -> (b: Board)
        requires
            is_legal(self@, col as int),
        ensures
            b@ == dropped(self@, col as int, p),
    {
        let mut b = *self;
        b.drop_piece(col, p);
        b
    }

    /// The rows of the board, top row first.
    pub fn to_rows(&self) -> (rows: Vec<Vec<i32>>)
        ensures
            well_shaped(rows@),
            grid_of(rows@) == self@,
    {
        let mut rows: Vec<Vec<i32>> = Vec::new();
        let mut r: usize = 0;
        while r < 6
            invariant
                0 <= r <= 6,
                rows@.len() == r,
                forall|k: int| 0 <= k < r ==> (#[trigger] rows@[k])@.len() == 7,
                forall|k: int, j: int|
                    0 <= k < r && 0 <= j < 7 ==> (#[trigger] rows@[k]@[j]) == at(self@, k, j),
            decreases 6 - r,
        {
            let mut row: Vec<i32> = Vec::new();
            let mut c: usize = 0;
            while c < 7
                invariant
                    r < 6,
                    0 <= c <= 7,
                    row@.len() == c,
                    forall|j: int| 0 <= j < c ==> row@[j] == at(self@, r as int, j),
                decreases 7 - c,
            {
                row.push(self.get(r, c));
                c += 1;
            }
            rows.push(row);
            r += 1;
        }
        assert forall|k: int| 0 <= k < 6 implies (#[trigger] rows@[k])@.len() == 7 by {
            assert(rows@[k]@.len() == 7);
        }
        assert(grid_of(rows@) =~= self@) by {
            assert forall|i: int| 0 <= i < 42 implies grid_of(rows@)[i] == self@[i] by {
                assert(rows@[i / 7]@.len() == 7);
                assert(rows@[i / 7]@[i % 7] == at(self@, i / 7, i % 7));
            }
        }
        rows
    }
}

/// Every entry of the legal-move list is a legal column.
pub proof fn lemma_legal_moves_legal(b: Seq<i32>, i: int)
    requires
        0 <= i < legal_moves_of(b).len(),
    ensures
        is_legal(b, legal_moves_of(b)[i] as int),
{
    lemma_legal_upto(b, 7);
}

/// The legal-move list among columns `0 .. n` holds exactly the legal columns
/// below `n`, in strictly ascending order.
pub proof fn lemma_legal_upto(b: Seq<i32>, n: nat)
    requires
        n <= 7,
    ensures
        forall|i: int| 0 <= i < legal_upto(b, n).len() ==> is_legal(b, #[trigger] legal_upto(b, n)[i] as int)
            && legal_upto(b, n)[i] < n,
        forall|i: int, j: int| #![trigger legal_upto(b, n)[i], legal_upto(b, n)[j]]
            0 <= i < j < legal_upto(b, n).len() ==> legal_upto(b, n)[i] < legal_upto(b, n)[j],
        forall|c: int| 0 <= c < n && is_legal(b, c) ==> legal_upto(b, n).contains(c as usize),
    decreases n,
{
    if n > 0 {
        lemma_legal_upto(b, (n - 1) as nat);
        let rest = legal_upto(b, (n - 1) as nat);
        assert forall|c: int| 0 <= c < n && is_legal(b, c) implies legal_upto(b, n).contains(c as usize) by {
            if c < n - 1 {
                let k = choose|k: int| 0 <= k < rest.len() && rest[k] == c as usize;
                assert(legal_upto(b, n)[k] == c as usize);
            } else {
                assert(legal_upto(b, n)[rest.len() as int] == c as usize);
            }
        }
    }
}


/// How many cells of the grid are empty.
pub open spec fn empties(s: Seq<i32>) -> nat
    decreases s.len(),
{
    if s.len() == 0 {
        0
    } else {
        empties(s.drop_last()) + if s.last() == 0 { 1nat } else { 0nat }
    }
}

/// Filling an empty cell leaves one empty cell fewer.
pub proof fn lemma_empties_update(s: Seq<i32>, i: int, v: i32)
    requires
        0 <= i < s.len(),
        s[i] == 0,
        v != 0,
    ensures
        empties(s.update(i, v)) + 1 == empties(s),
    decreases s.len(),
{
    let t = s.update(i, v);
    if i == s.len() - 1 {
        assert(t.drop_last() =~= s.drop_last());
    } else {
        assert(t.drop_last() =~= s.drop_last().update(i, v));
        lemma_empties_update(s.drop_last(), i, v);
    }
}

/// In a column whose top cell is empty, the search for the lowest empty row
/// finds one.
pub proof fn lemma_lowest_from(b: Seq<i32>, c: int, r: int)
    requires
        0 <= r,
        at(b, 0, c) == 0,
    ensures
        0 <= lowest_from(b, c, r) <= r,
        at(b, lowest_from(b, c, r), c) == 0,
    decreases r,
{
    if r > 0 && at(b, r, c) != 0 {
        lemma_lowest_from(b, c, r - 1);
    }
}

/// A legal move by a player fills exactly one empty cell.
pub proof fn lemma_drop_fills_one(b: Seq<i32>, c: int, p: i32)
    requires
        b.len() == 42,
        is_legal(b, c),
        p != 0,
    ensures
        empties(dropped(b, c, p)) + 1 == empties(b),
        dropped(b, c, p).len() == 42,
{
    lemma_lowest_from(b, c, 5);
    lemma_empties_update(b, drop_row(b, c) * 7 + c, p);
}


/// The empty grid.
pub open spec fn empty_grid() -> Seq<i32> {
    Seq::new(42, |i: int| 0i32)
}

/// The player who makes the `k`-th move of a game (counting from 0):
/// player 1 moves first.
pub open spec fn turn(k: int) -> i32 {
    if k % 2 == 0 { 1 } else { 2 }
}

/// The grid after playing the columns `ms` from the empty grid, the players
/// taking turns; `None` if a move is illegal or comes after the game ended.
pub open spec fn play_line(ms: Seq<usize>) -> Option<Seq<i32>>
    decreases ms.len(),
{
    if ms.len() == 0 {
        Some(empty_grid())
    } else {
        match play_line(ms.drop_last()) {
            Some(pb) => if !is_terminal_of(pb) && is_legal(pb, ms.last() as int) {
                Some(dropped(pb, ms.last() as int, turn(ms.len() - 1)))
            } else {
                None
            },
            None => None,
        }
    }
}

/// A move by `p` cannot give the other player four in a row.
pub proof fn lemma_move_keeps_other_side(b: Seq<i32>, c: int, p: i32)
    requires
        b.len() == 42,
        is_legal(b, c),
        p == 1 || p == 2,
    ensures
        has_win(dropped(b, c, p), other(p)) ==> has_win(b, other(p)),
        dropped(b, c, p).len() == 42,
{
    let nb = dropped(b, c, p);
    let q = other(p);
    lemma_lowest_from(b, c, 5);
    if has_win(nb, q) {
        let (d, r, cc) = choose|d: int, r: int, cc: int| line_of(nb, q, d, r, cc);
        assert(line_of(b, q, d, r, cc));
    }
}

/// In a game played by the rules from the empty board, the two players never
/// both have four in a row.
pub proof fn lemma_no_double_win(ms: Seq<usize>)
    ensures
        play_line(ms).is_some() ==> play_line(ms).unwrap().len() == 42 && !(has_win(
            play_line(ms).unwrap(),
            1,
        ) && has_win(play_line(ms).unwrap(), 2)),
    decreases ms.len(),
{
    if ms.len() == 0 {
        let e = empty_grid();
        assert forall|p: i32, d: int, r: int, c: int| p != 0 implies !#[trigger] line_of(e, p, d, r, c) by {
            if is_window(d, r, c) {
                assert(window_cell(e, d, r, c, 0) == 0);
            }
        }
        assert(!has_win(e, 1));
    } else {
        lemma_no_double_win(ms.drop_last());
        if play_line(ms).is_some() {
            let pb = play_line(ms.drop_last()).unwrap();
            let p = turn(ms.len() - 1);
            lemma_move_keeps_other_side(pb, ms.last() as int, p);
        }
    }
}

/// On the empty board every column is legal, in ascending order.
pub proof fn lemma_empty_board_moves()
    ensures
        legal_moves_of(empty_grid()) == seq![0usize, 1, 2, 3, 4, 5, 6],
{
    reveal_with_fuel(legal_upto, 8);
    assert(legal_moves_of(empty_grid()) =~= seq![0usize, 1, 2, 3, 4, 5, 6]);
}

/// A column whose top cell is taken is not among the legal moves.
pub proof fn lemma_full_column_excluded(b: Seq<i32>, c: usize)
    requires
        c < 7,
        at(b, 0, c as int) != 0,
    ensures
        !legal_moves_of(b).contains(c),
{
    lemma_legal_upto(b, 7);
}


/// The letter of a column: 0 is 'A', 6 is 'G'.
pub fn column_letter(col: usize) -> (c: char)
    requires
        col < 7,
    ensures
        c as u32 == 65 + col,
{
    ((65u8 + col as u8) as char)
}

} // verus!
