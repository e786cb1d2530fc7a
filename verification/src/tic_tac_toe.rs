//! The game engine: an N-by-N grid of trinary cells with move application,
//! win and tie detection, and empty-cell enumeration.

use vstd::prelude::*;

verus! {

/// One of the two players. Players alternate strictly between moves.
#[derive(Debug, Clone, Copy, PartialEq, Eq, Structural)]
pub enum Player {
    X,
    O,
}

/// The content of one board cell.
#[derive(Debug, Clone, Copy, PartialEq, Eq, Structural)]
pub enum Piece {
    Empty,
    X,
    O,
}

/// The outcome of a finished game. Never attached to an unfinished board.
#[derive(Debug, Clone, Copy, PartialEq, Eq, Structural)]
pub enum GameResult {
    XWon,
    OWon,
    Tie,
}

impl Player {
    /// The mark this player places on the board.
    pub open spec fn piece(self) -> Piece {
        match self {
            Player::X => Piece::X,
            Player::O => Piece::O,
        }
    }

    /// The other player.
    pub open spec fn opponent(self) -> Player {
        match self {
            Player::X => Player::O,
            Player::O => Player::X,
        }
    }

    pub fn next_player(self) -> (r: Player)
        ensures
            r == self.opponent(),
    {
        match self {
            Player::X => Player::O,
            Player::O => Player::X,
        }
    }
}

/// How many cells of `s` hold the piece `p`.
pub open spec fn count_piece(s: Seq<Piece>, p: Piece) -> nat
    decreases s.len(),
{
    if s.len() == 0 {
        0
    } else {
        count_piece(s.drop_last(), p) + (if s.last() == p {
            1nat
        } else {
            0nat
        })
    }
}

/// A square board with side length chosen at construction time; the grid is
/// stored in row-major order as one flat vector.
pub struct Board {
    pub n: usize,
    pub cells: Vec<Piece>,
}

impl Board {
    /// The board's structural invariant: a positive side length and exactly
    /// one cell per grid position.
    pub open spec fn wf(self) -> bool {
        &&& 1 <= self.n
        &&& self.cells@.len() == self.n * self.n
    }

    /// The cell in row `r`, column `c`.
    pub open spec fn at(self, r: int, c: int) -> Piece {
        self.cells@[r * self.n + c]
    }

    pub open spec fn in_range(self, r: int, c: int) -> bool {
        0 <= r < self.n && 0 <= c < self.n
    }

    /// Number of cells still empty.
    pub open spec fn empty_count(self) -> nat {
        count_piece(self.cells@, Piece::Empty)
    }

    /// Number of marks player X has on the board.
    pub open spec fn x_count(self) -> nat {
        count_piece(self.cells@, Piece::X)
    }

    /// Number of marks player O has on the board.
    pub open spec fn o_count(self) -> nat {
        count_piece(self.cells@, Piece::O)
    }

    /// Every cell of row `i` holds `p`'s mark.
    pub open spec fn row_filled(self, p: Player, i: int) -> bool {
        forall|c: int| 0 <= c < self.n ==> self.at(i, c) == p.piece()
    }

    /// Every cell of column `j` holds `p`'s mark.
    pub open spec fn col_filled(self, p: Player, j: int) -> bool {
        forall|r: int| 0 <= r < self.n ==> self.at(r, j) == p.piece()
    }

    /// Every cell of the top-left to bottom-right diagonal holds `p`'s mark.
    pub open spec fn lr_diag_filled(self, p: Player) -> bool {
        forall|k: int| 0 <= k < self.n ==> self.at(k, k) == p.piece()
    }

    /// Every cell of the top-right to bottom-left diagonal holds `p`'s mark.
    pub open spec fn rl_diag_filled(self, p: Player) -> bool {
        forall|r: int, c: int|
            0 <= r < self.n && 0 <= c && r + c == self.n - 1 ==> self.at(r, c) == p.piece()
    }

    /// Player `p` owns a complete row, column, or diagonal.
    pub open spec fn wins(self, p: Player) -> bool {
        ||| exists|i: int| 0 <= i < self.n && self.row_filled(p, i)
        ||| exists|j: int| 0 <= j < self.n && self.col_filled(p, j)
        ||| self.lr_diag_filled(p)
        ||| self.rl_diag_filled(p)
    }

    /// No cell is empty.
    pub open spec fn full(self) -> bool {
        forall|k: int| 0 <= k < self.cells@.len() ==> self.cells@[k] != Piece::Empty
    }

    /// Produce an all-empty board with side length `n`.
    pub fn new(n: usize) -> (b: Board)
        requires
            1 <= n,
            n * n <= usize::MAX,
        ensures
            b.wf(),
            b.n == n,
            forall|k: int| 0 <= k < n * n ==> b.cells@[k] == Piece::Empty,
            b.empty_count() == n * n,
    {
        let total = n * n;
        let mut cells: Vec<Piece> = Vec::new();
        let mut k: usize = 0;
        while k < total
            invariant
                k <= total,
                cells@.len() == k,
                forall|i: int| 0 <= i < k ==> cells@[i] == Piece::Empty,
            decreases total - k,
        {
            cells.push(Piece::Empty);
            k = k + 1;
        }
        proof {
            lemma_count_uniform(cells@, Piece::Empty);
        }
        Board { n, cells }
    }
}

impl Board {
    /// Read one cell.
    pub fn get_cell(&self, row_num: usize, col_num: usize) -> (p: Piece)
        requires
            self.wf(),
            row_num < self.n,
            col_num < self.n,
        ensures
            p == self.at(row_num as int, col_num as int),
    {
        proof {
            assert(self.cells.len() == self.cells@.len());
            lemma_flat_index_bounds(self.n as int, row_num as int, col_num as int);
        }
        self.cells[row_num * self.n + col_num]
    }

    /// Overwrite one cell, leaving every other cell unchanged.
    pub fn set_cell(&mut self, row_num: usize, col_num: usize, p: Piece)
        requires
            old(self).wf(),
            row_num < old(self).n,
            col_num < old(self).n,
        ensures
            final(self).wf(),
            final(self).n == old(self).n,
            final(self).cells@ == old(self).cells@.update(
                row_num * old(self).n + col_num,
                p,
            ),
            final(self).at(row_num as int, col_num as int) == p,
            forall|r: int, c: int|
                old(self).in_range(r, c) && (r != row_num || c != col_num)
                    ==> final(self).at(r, c) == old(self).at(r, c),
    {
        proof {
            assert(self.cells.len() == self.cells@.len());
            lemma_flat_index_bounds(self.n as int, row_num as int, col_num as int);
        }
        self.cells.set(row_num * self.n + col_num, p);
        proof {
            let n = self.n as int;
            let idx = row_num * n + col_num;
            assert forall|r: int, c: int|
                old(self).in_range(r, c) && (r != row_num || c != col_num) implies self.at(r, c)
                == old(self).at(r, c) by {
                lemma_flat_index_bounds(n, r, c);
                if r * n + c == idx {
                    lemma_flat_index_injective(n, r, c, row_num as int, col_num as int);
                }
            }
        }
    }

    /// A value copy of the board.
    pub fn duplicate(&self) -> (b: Board)
        ensures
            b.n == self.n,
            b.cells@ == self.cells@,
    {
        let mut cells: Vec<Piece> = Vec::new();
        let len = self.cells.len();
        let mut k: usize = 0;
        while k < len
            invariant
                k <= len,
                len == self.cells@.len(),
                cells@ =~= self.cells@.subrange(0, k as int),
            decreases len - k,
        {
            cells.push(self.cells[k]);
            k = k + 1;
        }
        proof {
            assert(cells@ =~= self.cells@);
        }
        Board { n: self.n, cells }
    }
}

/// The numeric value of a cell, so that a full line of one mark sums to the
/// side length (for X) or its negation (for O).
pub open spec fn piece_value_spec(p: Piece) -> int {
    match p {
        Piece::Empty => 0,
        Piece::X => 1,
        Piece::O => -1,
    }
}

pub fn piece_value(p: Piece) -> (v: i64)
    ensures
        v == piece_value_spec(p),
{
    match p {
        Piece::Empty => 0,
        Piece::X => 1,
        Piece::O => -1,
    }
}

/// `a` comes strictly before `b` in row-major order.
pub open spec fn row_major_before(a: (usize, usize), b: (usize, usize)) -> bool {
    a.0 < b.0 || (a.0 == b.0 && a.1 < b.1)
}

impl Board {
    /// The side length is small enough for sums and flat indices to fit the
    /// machine integer types.
    pub proof fn lemma_side_small(self)
        requires
            self.wf(),
        ensures
            self.n < 0x1_0000_0000,
            self.n * self.n <= usize::MAX,
    {
        assert(self.cells.len() == self.cells@.len());
        assert(self.n * self.n <= usize::MAX);
        assert(self.n < 0x1_0000_0000) by (nonlinear_arith)
            requires
                self.n * self.n <= 0xffff_ffff_ffff_ffffu64,
                self.n >= 0,
        ;
    }

    /// Check whether a player owns all of row `row_num`, by summing the
    /// numeric cell values and comparing against the side length.
    pub fn row_winner(&self, row_num: usize) -> (w: Option<Player>)
        requires
            self.wf(),
            row_num < self.n,
        ensures
            w == (if self.row_filled(Player::X, row_num as int) {
                Some(Player::X)
            } else if self.row_filled(Player::O, row_num as int) {
                Some(Player::O)
            } else {
                None::<Player>
            }),
    {
        proof {
            self.lemma_side_small();
        }
        let n = self.n;
        let mut sum: i64 = 0;
        let mut c: usize = 0;
        while c < n
            invariant
                self.wf(),
                n == self.n,
                n < 0x1_0000_0000,
                row_num < n,
                c <= n,
                -(c as int) <= sum <= c as int,
                (sum == c as int) <==> (forall|j: int|
                    0 <= j < c ==> self.at(row_num as int, j) == Piece::X),
                (sum == -(c as int)) <==> (forall|j: int|
                    0 <= j < c ==> self.at(row_num as int, j) == Piece::O),
            decreases n - c,
        {
            let p = self.get_cell(row_num, c);
            sum = sum + piece_value(p);
            c = c + 1;
        }
        if sum == n as i64 {
            Some(Player::X)
        } else if sum == -(n as i64) {
            Some(Player::O)
        } else {
            None
        }
    }

    /// The pieces of column `col_num`, top to bottom.
    pub fn get_col(&self, col_num: usize) -> (col: Vec<Piece>)
        requires
            self.wf(),
            col_num < self.n,
        ensures
            col@.len() == self.n,
            forall|k: int| 0 <= k < self.n ==> col@[k] == self.at(k, col_num as int),
    {
        let n = self.n;
        let mut col: Vec<Piece> = Vec::new();
        let mut r: usize = 0;
        while r < n
            invariant
                self.wf(),
                n == self.n,
                col_num < n,
                r <= n,
                col@.len() == r,
                forall|k: int| 0 <= k < r ==> col@[k] == self.at(k, col_num as int),
            decreases n - r,
        {
            col.push(self.get_cell(r, col_num));
            r = r + 1;
        }
        col
    }

    /// Check whether a player owns all of column `col_num`.
    pub fn col_winner(&self, col_num: usize) -> (w: Option<Player>)
        requires
            self.wf(),
            col_num < self.n,
        ensures
            w == (if self.col_filled(Player::X, col_num as int) {
                Some(Player::X)
            } else if self.col_filled(Player::O, col_num as int) {
                Some(Player::O)
            } else {
                None::<Player>
            }),
    {
        proof {
            self.lemma_side_small();
        }
        let n = self.n;
        let mut sum: i64 = 0;
        let mut r: usize = 0;
        while r < n
            invariant
                self.wf(),
                n == self.n,
                n < 0x1_0000_0000,
                col_num < n,
                r <= n,
                -(r as int) <= sum <= r as int,
                (sum == r as int) <==> (forall|i: int|
                    0 <= i < r ==> self.at(i, col_num as int) == Piece::X),
                (sum == -(r as int)) <==> (forall|i: int|
                    0 <= i < r ==> self.at(i, col_num as int) == Piece::O),
            decreases n - r,
        {
            let p = self.get_cell(r, col_num);
            sum = sum + piece_value(p);
            r = r + 1;
        }
        if sum == n as i64 {
            Some(Player::X)
        } else if sum == -(n as i64) {
            Some(Player::O)
        } else {
            None
        }
    }

    /// The pieces of the top-left to bottom-right diagonal.
    pub fn get_lr_diag(&self) -> (diag: Vec<Piece>)
        requires
            self.wf(),
        ensures
            diag@.len() == self.n,
            forall|k: int| 0 <= k < self.n ==> diag@[k] == self.at(k, k),
    {
        let n = self.n;
        let mut diag: Vec<Piece> = Vec::new();
        let mut k: usize = 0;
        while k < n
            invariant
                self.wf(),
                n == self.n,
                k <= n,
                diag@.len() == k,
                forall|i: int| 0 <= i < k ==> diag@[i] == self.at(i, i),
            decreases n - k,
        {
            diag.push(self.get_cell(k, k));
            k = k + 1;
        }
        diag
    }

    /// The pieces of the top-right to bottom-left diagonal.
    pub fn get_rl_diag(&self) -> (diag: Vec<Piece>)
        requires
            self.wf(),
        ensures
            diag@.len() == self.n,
            forall|k: int| 0 <= k < self.n ==> diag@[k] == self.at(k, self.n - 1 - k),
    {
        let n = self.n;
        let mut diag: Vec<Piece> = Vec::new();
        let mut k: usize = 0;
        while k < n
            invariant
                self.wf(),
                n == self.n,
                k <= n,
                diag@.len() == k,
                forall|i: int| 0 <= i < k ==> diag@[i] == self.at(i, n - 1 - i),
            decreases n - k,
        {
            diag.push(self.get_cell(k, n - 1 - k));
            k = k + 1;
        }
        diag
    }

    /// Check whether a player owns a full diagonal; the top-left diagonal is
    /// examined first, as `get_winner` relies on.
    pub fn diagonal_winner(&self) -> (w: Option<Player>)
        requires
            self.wf(),
        ensures
            w == (if self.lr_diag_filled(Player::X) {
                Some(Player::X)
            } else if self.lr_diag_filled(Player::O) {
                Some(Player::O)
            } else if self.rl_diag_filled(Player::X) {
                Some(Player::X)
            } else if self.rl_diag_filled(Player::O) {
                Some(Player::O)
            } else {
                None::<Player>
            }),
    {
        proof {
            self.lemma_side_small();
        }
        let n = self.n;
        let mut sum: i64 = 0;
        let mut k: usize = 0;
        while k < n
            invariant
                self.wf(),
                n == self.n,
                n < 0x1_0000_0000,
                k <= n,
                -(k as int) <= sum <= k as int,
                (sum == k as int) <==> (forall|i: int| 0 <= i < k ==> self.at(i, i) == Piece::X),
                (sum == -(k as int)) <==> (forall|i: int| 0 <= i < k ==> self.at(i, i) == Piece::O),
            decreases n - k,
        {
            let p = self.get_cell(k, k);
            sum = sum + piece_value(p);
            k = k + 1;
        }
        if sum == n as i64 {
            return Some(Player::X);
        }
        if sum == -(n as i64) {
            return Some(Player::O);
        }
        assert(!self.lr_diag_filled(Player::X));
        assert(!self.lr_diag_filled(Player::O));
        let mut sum2: i64 = 0;
        let mut k2: usize = 0;
        while k2 < n
            invariant
                self.wf(),
                n == self.n,
                n < 0x1_0000_0000,
                k2 <= n,
                -(k2 as int) <= sum2 <= k2 as int,
                (sum2 == k2 as int) <==> (forall|r: int, c: int|
                    0 <= r < k2 && 0 <= c && r + c == n - 1 ==> self.at(r, c) == Piece::X),
                (sum2 == -(k2 as int)) <==> (forall|r: int, c: int|
                    0 <= r < k2 && 0 <= c && r + c == n - 1 ==> self.at(r, c) == Piece::O),
            decreases n - k2,
        {
            let p = self.get_cell(k2, n - 1 - k2);
            sum2 = sum2 + piece_value(p);
            k2 = k2 + 1;
        }
        if sum2 == n as i64 {
            return Some(Player::X);
        }
        if sum2 == -(n as i64) {
            return Some(Player::O);
        }
        None
    }

    /// Return the winner if the game is decided: every row, then every
    /// column, then both diagonals are examined.
    pub fn get_winner(&self) -> (w: Option<GameResult>)
        requires
            self.wf(),
        ensures
            (w is Some) <==> (self.wins(Player::X) || self.wins(Player::O)),
            w == Some(GameResult::XWon) ==> self.wins(Player::X),
            w == Some(GameResult::OWon) ==> self.wins(Player::O),
            self.wins(Player::X) && !self.wins(Player::O) ==> w == Some(GameResult::XWon),
            self.wins(Player::O) && !self.wins(Player::X) ==> w == Some(GameResult::OWon),
            w != Some(GameResult::Tie),
    {
        let n = self.n;
        let mut i: usize = 0;
        while i < n
            invariant
                self.wf(),
                n == self.n,
                i <= n,
                forall|r: int|
                    0 <= r < i ==> !self.row_filled(Player::X, r) && !self.row_filled(
                        Player::O,
                        r,
                    ),
            decreases n - i,
        {
            match self.row_winner(i) {
                Some(Player::X) => {
                    return Some(GameResult::XWon);
                },
                Some(Player::O) => {
                    return Some(GameResult::OWon);
                },
                None => {},
            }
            i = i + 1;
        }
        let mut j: usize = 0;
        while j < n
            invariant
                self.wf(),
                n == self.n,
                j <= n,
                forall|r: int|
                    0 <= r < n ==> !self.row_filled(Player::X, r) && !self.row_filled(
                        Player::O,
                        r,
                    ),
                forall|c: int|
                    0 <= c < j ==> !self.col_filled(Player::X, c) && !self.col_filled(
                        Player::O,
                        c,
                    ),
            decreases n - j,
        {
            match self.col_winner(j) {
                Some(Player::X) => {
                    return Some(GameResult::XWon);
                },
                Some(Player::O) => {
                    return Some(GameResult::OWon);
                },
                None => {},
            }
            j = j + 1;
        }
        match self.diagonal_winner() {
            Some(Player::X) => Some(GameResult::XWon),
            Some(Player::O) => Some(GameResult::OWon),
            None => None,
        }
    }

    /// True exactly when every cell is occupied.
    pub fn is_ended(&self) -> (r: bool)
        requires
            self.wf(),
        ensures
            r == self.full(),
    {
        let len = self.cells.len();
        let mut k: usize = 0;
        while k < len
            invariant
                len == self.cells@.len(),
                k <= len,
                forall|j: int| 0 <= j < k ==> self.cells@[j] != Piece::Empty,
            decreases len - k,
        {
            if self.cells[k] == Piece::Empty {
                return false;
            }
            k = k + 1;
        }
        true
    }
}

impl Board {
    /// List every empty cell, in row-major order. The result is exactly the
    /// complement of the occupied cells, and doubles as the set of legal
    /// moves.
    pub fn get_empty_spots(&self) -> (spots: Vec<(usize, usize)>)
        requires
            self.wf(),
        ensures
            spots@.len() == self.empty_count(),
            forall|t: int|
                0 <= t < spots@.len() ==> ((#[trigger] spots@[t]).0 < self.n && spots@[t].1
                    < self.n && self.at(spots@[t].0 as int, spots@[t].1 as int) == Piece::Empty),
            forall|i: int, j: int|
                0 <= i < self.n && 0 <= j < self.n && #[trigger] self.at(i, j) == Piece::Empty
                    ==> spots@.contains((i as usize, j as usize)),
            forall|t1: int, t2: int|
                0 <= t1 < t2 < spots@.len() ==> row_major_before(spots@[t1], spots@[t2]),
    {
        let n = self.n;
        let len = self.cells.len();
        let mut spots: Vec<(usize, usize)> = Vec::new();
        let mut idx: usize = 0;
        let mut row: usize = 0;
        while row < n
            invariant
                self.wf(),
                n == self.n,
                len == self.cells@.len(),
                row <= n,
                idx == row * n,
                idx <= len,
                spots@.len() == count_piece(self.cells@.subrange(0, idx as int), Piece::Empty),
                forall|t: int|
                    0 <= t < spots@.len() ==> ((#[trigger] spots@[t]).0 < row && spots@[t].1 < n
                        && self.at(spots@[t].0 as int, spots@[t].1 as int) == Piece::Empty),
                forall|i: int, j: int|
                    0 <= i < row && 0 <= j < n && #[trigger] self.at(i, j) == Piece::Empty
                        ==> spots@.contains((i as usize, j as usize)),
                forall|t1: int, t2: int|
                    0 <= t1 < t2 < spots@.len() ==> row_major_before(spots@[t1], spots@[t2]),
            decreases n - row,
        {
            let mut col: usize = 0;
            while col < n
                invariant
                    self.wf(),
                    n == self.n,
                    len == self.cells@.len(),
                    row < n,
                    col <= n,
                    idx == row * n + col,
                    idx <= len,
                    spots@.len() == count_piece(
                        self.cells@.subrange(0, idx as int),
                        Piece::Empty,
                    ),
                    forall|t: int|
                        0 <= t < spots@.len() ==> ((#[trigger] spots@[t]).0 < n && spots@[t].1 < n
                            && self.at(spots@[t].0 as int, spots@[t].1 as int) == Piece::Empty && (
                        spots@[t].0 < row || (spots@[t].0 == row && spots@[t].1 < col))),
                    forall|i: int, j: int|
                        ((0 <= i < row && 0 <= j < n) || (i == row && 0 <= j < col))
                            && #[trigger] self.at(i, j) == Piece::Empty ==> spots@.contains(
                            ((i as usize, j as usize)),
                        ),
                    forall|t1: int, t2: int|
                        0 <= t1 < t2 < spots@.len() ==> row_major_before(spots@[t1], spots@[t2]),
                decreases n - col,
            {
                proof {
                    lemma_flat_index_bounds(n as int, row as int, col as int);
                }
                let p = self.cells[idx];
                proof {
                    assert(p == self.at(row as int, col as int));
                    lemma_count_push(
                        self.cells@.subrange(0, idx as int),
                        self.cells@[idx as int],
                        Piece::Empty,
                    );
                    assert(self.cells@.subrange(0, idx as int + 1) =~= self.cells@.subrange(
                        0,
                        idx as int,
                    ).push(self.cells@[idx as int]));
                }
                if p == Piece::Empty {
                    let ghost prev = spots@;
                    spots.push((row, col));
                    proof {
                        assert forall|i: int, j: int|
                            ((0 <= i < row && 0 <= j < n) || (i == row && 0 <= j <= col))
                                && #[trigger] self.at(i, j) == Piece::Empty implies spots@.contains(
                            ((i as usize, j as usize)),
                        ) by {
                            if i == row && j == col {
                                assert(spots@[prev.len() as int] == (i as usize, j as usize));
                            } else {
                                assert(prev.contains((i as usize, j as usize)));
                                let t = choose|t: int|
                                    0 <= t < prev.len() && prev[t] == (i as usize, j as usize);
                                assert(spots@[t] == (i as usize, j as usize));
                            }
                        }
                    }
                }
                idx = idx + 1;
                col = col + 1;
            }
            proof {
                assert(row * n + n == (row + 1) * n) by (nonlinear_arith);
            }
            row = row + 1;
        }
        proof {
            assert(idx == n * n);
            assert(self.cells@.subrange(0, idx as int) =~= self.cells@);
        }
        spots
    }

    /// Place `player`'s mark on the required-empty target cell, then report
    /// the game's status: a win for either player, a tie on a full board, or
    /// nothing if the game continues.
    pub fn make_move(&mut self, player: Player, row_num: usize, col_num: usize) -> (w: Option<
        GameResult,
    >)
        requires
            old(self).wf(),
            row_num < old(self).n,
            col_num < old(self).n,
            old(self).at(row_num as int, col_num as int) == Piece::Empty,
        ensures
            final(self).wf(),
            final(self).n == old(self).n,
            final(self).cells@ == old(self).cells@.update(
                row_num * old(self).n + col_num,
                player.piece(),
            ),
            final(self).at(row_num as int, col_num as int) == player.piece(),
            forall|r: int, c: int|
                old(self).in_range(r, c) && (r != row_num || c != col_num)
                    ==> final(self).at(r, c) == old(self).at(r, c),
            final(self).empty_count() == old(self).empty_count() - 1,
            player == Player::X ==> final(self).x_count() == old(self).x_count() + 1
                && final(self).o_count() == old(self).o_count(),
            player == Player::O ==> final(self).o_count() == old(self).o_count() + 1
                && final(self).x_count() == old(self).x_count(),
            (w is Some) <==> (final(self).wins(Player::X) || final(self).wins(Player::O)
                || final(self).full()),
            w == Some(GameResult::XWon) ==> final(self).wins(Player::X),
            w == Some(GameResult::OWon) ==> final(self).wins(Player::O),
            final(self).wins(Player::X) && !final(self).wins(Player::O) ==> w == Some(
                GameResult::XWon,
            ),
            final(self).wins(Player::O) && !final(self).wins(Player::X) ==> w == Some(
                GameResult::OWon,
            ),
            (w == Some(GameResult::Tie)) <==> (!final(self).wins(Player::X) && !final(self).wins(
                Player::O,
            ) && final(self).full()),
    {
        let piece = match player {
            Player::X => Piece::X,
            Player::O => Piece::O,
        };
        proof {
            lemma_flat_index_bounds(self.n as int, row_num as int, col_num as int);
            lemma_count_update(
                self.cells@,
                row_num * self.n as int + col_num,
                player.piece(),
                Piece::Empty,
            );
            lemma_count_update(
                self.cells@,
                row_num * self.n as int + col_num,
                player.piece(),
                Piece::X,
            );
            lemma_count_update(
                self.cells@,
                row_num * self.n as int + col_num,
                player.piece(),
                Piece::O,
            );
        }
        self.set_cell(row_num, col_num, piece);
        proof {
            lemma_count_uniform(self.cells@, Piece::Empty);
        }
        match self.get_winner() {
            Some(result) => Some(result),
            None => {
                if self.is_ended() {
                    Some(GameResult::Tie)
                } else {
                    None
                }
            },
        }
    }
}

/// Counting a piece splits across any cut of the sequence.
pub proof fn lemma_count_split(s: Seq<Piece>, k: int, p: Piece)
    requires
        0 <= k <= s.len(),
    ensures
        count_piece(s, p) == count_piece(s.subrange(0, k), p) + count_piece(
            s.subrange(k, s.len() as int),
            p,
        ),
    decreases s.len(),
{
    if k == s.len() {
        assert(s.subrange(0, k) =~= s);
        assert(s.subrange(k, s.len() as int) =~= Seq::<Piece>::empty());
    } else {
        lemma_count_split(s.drop_last(), k, p);
        assert(s.drop_last().subrange(0, k) =~= s.subrange(0, k));
        let tail = s.subrange(k, s.len() as int);
        assert(tail.len() > 0);
        assert(tail.drop_last() =~= s.drop_last().subrange(k, s.len() - 1));
        assert(tail.last() == s.last());
    }
}

/// A segment of the sequence never counts more than the whole.
pub proof fn lemma_count_subrange_le(s: Seq<Piece>, a: int, b: int, p: Piece)
    requires
        0 <= a <= b <= s.len(),
    ensures
        count_piece(s.subrange(a, b), p) <= count_piece(s, p),
{
    lemma_count_split(s, a, p);
    let suffix = s.subrange(a, s.len() as int);
    lemma_count_split(suffix, b - a, p);
    assert(suffix.subrange(0, b - a) =~= s.subrange(a, b));
}

/// A cell that holds the piece makes the count positive.
pub proof fn lemma_count_positive(s: Seq<Piece>, k: int, p: Piece)
    requires
        0 <= k < s.len(),
        s[k] == p,
    ensures
        count_piece(s, p) >= 1,
    decreases s.len(),
{
    if k < s.len() - 1 {
        lemma_count_positive(s.drop_last(), k, p);
    }
}

/// One mark of `p` in each of the first `m` rows forces at least `m` marks of
/// `p` among the first `m` rows' cells. `f` names the marked column per row.
proof fn lemma_marks_per_row(b: Board, p: Player, f: spec_fn(int) -> int, m: int)
    requires
        b.wf(),
        0 <= m <= b.n,
        forall|r: int| 0 <= r < m ==> 0 <= #[trigger] f(r) < b.n && b.at(r, f(r)) == p.piece(),
    ensures
        count_piece(b.cells@.subrange(0, m * b.n), p.piece()) >= m,
    decreases m,
{
    let n = b.n as int;
    let s = b.cells@;
    assert(0 <= m * n <= n * n) by (nonlinear_arith)
        requires
            0 <= m <= n,
    ;
    if m > 0 {
        lemma_marks_per_row(b, p, f, m - 1);
        assert(0 <= (m - 1) * n && (m - 1) * n + n == m * n) by (nonlinear_arith)
            requires
                1 <= m,
                0 <= n,
        ;
        let whole = s.subrange(0, m * n);
        lemma_count_split(whole, (m - 1) * n, p.piece());
        assert(whole.subrange(0, (m - 1) * n) =~= s.subrange(0, (m - 1) * n));
        let rowseg = whole.subrange((m - 1) * n, m * n);
        assert(rowseg[f(m - 1)] == s[(m - 1) * n + f(m - 1)]);
        assert(rowseg[f(m - 1)] == p.piece());
        lemma_count_positive(rowseg, f(m - 1), p.piece());
    }
}

/// A won line needs at least a full line's worth of the winner's marks.
pub proof fn lemma_win_needs_side_marks(b: Board, p: Player)
    requires
        b.wf(),
        b.wins(p),
    ensures
        count_piece(b.cells@, p.piece()) >= b.n,
{
    let n = b.n as int;
    let s = b.cells@;
    if exists|i: int| 0 <= i < n && b.row_filled(p, i) {
        let i = choose|i: int| 0 <= i < n && b.row_filled(p, i);
        lemma_flat_index_bounds(n, i, 0);
        assert(0 <= i * n && i * n + n <= n * n) by (nonlinear_arith)
            requires
                0 <= i < n,
        ;
        let seg = s.subrange(i * n, i * n + n);
        assert forall|c: int| 0 <= c < seg.len() implies seg[c] == p.piece() by {
            assert(seg[c] == s[i * n + c]);
            assert(b.at(i, c) == p.piece());
        }
        lemma_count_uniform(seg, p.piece());
        lemma_count_subrange_le(s, i * n, i * n + n, p.piece());
    } else if exists|j: int| 0 <= j < n && b.col_filled(p, j) {
        let j = choose|j: int| 0 <= j < n && b.col_filled(p, j);
        lemma_marks_per_row(b, p, |r: int| j, n);
        assert(s.subrange(0, n * n) =~= s);
    } else if b.lr_diag_filled(p) {
        lemma_marks_per_row(b, p, |r: int| r, n);
        assert(s.subrange(0, n * n) =~= s);
    } else {
        assert(b.rl_diag_filled(p));
        let f = |r: int| n - 1 - r;
        assert forall|r: int| 0 <= r < n implies 0 <= #[trigger] f(r) < n && b.at(r, f(r))
            == p.piece() by {
            assert(b.at(r, n - 1 - r) == p.piece());
        }
        lemma_marks_per_row(b, p, f, n);
        assert(s.subrange(0, n * n) =~= s);
    }
}

/// A full board holds exactly as many marks as cells.
pub proof fn lemma_full_board_mark_count(b: Board)
    requires
        b.wf(),
        b.full(),
    ensures
        b.x_count() + b.o_count() == b.n * b.n,
{
    lemma_count_total(b.cells@);
    lemma_count_uniform(b.cells@, Piece::Empty);
}

/// Every cell is counted exactly once over the three kinds of piece.
pub proof fn lemma_count_total(s: Seq<Piece>)
    ensures
        count_piece(s, Piece::Empty) + count_piece(s, Piece::X) + count_piece(s, Piece::O)
            == s.len(),
    decreases s.len(),
{
    if s.len() > 0 {
        lemma_count_total(s.drop_last());
    }
}

/// No result can come before the minimum number of moves that fills a line:
/// on a board reached by an almost-alternating legal game with fewer than
/// `2 * n - 1` marks placed in total, nobody has won and the board is not
/// full, so `make_move` reports the game as still in progress.
pub proof fn lemma_no_result_before_minimum_moves(b: Board)
    requires
        b.wf(),
        b.x_count() <= b.o_count() + 1,
        b.o_count() <= b.x_count() + 1,
        b.x_count() + b.o_count() < 2 * b.n - 1,
    ensures
        !b.wins(Player::X),
        !b.wins(Player::O),
        !b.full(),
{
    if b.wins(Player::X) {
        lemma_win_needs_side_marks(b, Player::X);
    }
    if b.wins(Player::O) {
        lemma_win_needs_side_marks(b, Player::O);
    }
    if b.full() {
        lemma_full_board_mark_count(b);
        assert(b.n * b.n >= 2 * b.n - 1) by (nonlinear_arith)
            requires
                b.n >= 1,
        ;
    }
}

/// Appending one cell adds one to the count of its piece and nothing else.
pub proof fn lemma_count_push(s: Seq<Piece>, x: Piece, p: Piece)
    ensures
        count_piece(s.push(x), p) == count_piece(s, p) + (if x == p {
            1nat
        } else {
            0nat
        }),
{
    assert(s.push(x).drop_last() =~= s);
    assert(s.push(x).last() == x);
}

/// In-range grid coordinates map to a flat index inside the grid.
pub proof fn lemma_flat_index_bounds(n: int, r: int, c: int)
    requires
        0 <= r < n,
        0 <= c < n,
    ensures
        0 <= r * n + c < n * n,
{
    assert(0 <= r * n + c < n * n) by (nonlinear_arith)
        requires
            0 <= r < n,
            0 <= c < n,
    ;
}

/// Distinct in-range grid coordinates have distinct flat indices.
pub proof fn lemma_flat_index_injective(n: int, r1: int, c1: int, r2: int, c2: int)
    requires
        0 <= r1,
        0 <= r2,
        0 <= c1 < n,
        0 <= c2 < n,
        r1 * n + c1 == r2 * n + c2,
    ensures
        r1 == r2,
        c1 == c2,
{
    assert((r1 - r2) * n == c2 - c1) by (nonlinear_arith)
        requires
            r1 * n + c1 == r2 * n + c2,
    ;
    if r1 != r2 {
        assert((r1 - r2) * n >= n || (r1 - r2) * n <= -n) by (nonlinear_arith)
            requires
                n > 0,
                r1 != r2,
        ;
    }
}

/// Updating one cell changes the piece counts by exactly the removed and the
/// added mark.
pub proof fn lemma_count_update(s: Seq<Piece>, i: int, q: Piece, p: Piece)
    requires
        0 <= i < s.len(),
    ensures
        count_piece(s.update(i, q), p) == count_piece(s, p) - (if s[i] == p {
            1int
        } else {
            0int
        }) + (if q == p {
            1int
        } else {
            0int
        }),
    decreases s.len(),
{
    let t = s.update(i, q);
    if i == s.len() - 1 {
        assert(t.drop_last() =~= s.drop_last());
    } else {
        assert(t.drop_last() =~= s.drop_last().update(i, q));
        assert(t.last() == s.last());
        lemma_count_update(s.drop_last(), i, q, p);
    }
}

/// If every cell of `s` holds `p`, the count of `p` is the whole length; and
/// the count is zero exactly when no cell holds `p`.
pub proof fn lemma_count_uniform(s: Seq<Piece>, p: Piece)
    ensures
        count_piece(s, p) <= s.len(),
        (count_piece(s, p) == s.len()) <==> (forall|k: int| 0 <= k < s.len() ==> s[k] == p),
        (count_piece(s, p) == 0) <==> (forall|k: int| 0 <= k < s.len() ==> s[k] != p),
    decreases s.len(),
{
    if s.len() > 0 {
        lemma_count_uniform(s.drop_last(), p);
        assert(forall|k: int| 0 <= k < s.len() - 1 ==> s.drop_last()[k] == s[k]);
    }
}

} // verus!
