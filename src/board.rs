use vstd::prelude::*;

verus! {

/// What a player sees of one cell.
#[derive(Clone, Copy, Debug, PartialEq, Eq, Structural)]
pub enum CellState {
    Empty,
    Unknown,
    Bomb,
    Danger(u8),
}

impl CellState {
    /// A danger count lies between one and eight.
    pub open spec fn valid(self) -> bool {
        self matches CellState::Danger(n) ==> 1 <= n <= 8
    }
}

/// A cell coordinate; equal when both coordinates are equal.
#[derive(Clone, Copy, Debug, PartialEq, Eq, Hash, Structural)]
pub struct Position {
    pub col: usize,
    pub row: usize,
}

/// The grid of cell states, indexed `[row][column]`, and the mine positions.
pub struct Board {
    pub states: Vec<Vec<CellState>>,
    pub bomb_positions: Vec<Position>,
}

/// The eight compass offsets `(row, column)` in the order NW, N, NE, E, SE, S, SW, W.
pub open spec fn direction(k: int) -> (int, int) {
    if k == 0 {
        (-1, -1)
    } else if k == 1 {
        (-1, 0)
    } else if k == 2 {
        (-1, 1)
    } else if k == 3 {
        (0, 1)
    } else if k == 4 {
        (1, 1)
    } else if k == 5 {
        (1, 0)
    } else if k == 6 {
        (1, -1)
    } else {
        (0, -1)
    }
}

pub open spec fn in_bounds(r: int, c: int, rows: int, cols: int) -> bool {
    0 <= r < rows && 0 <= c < cols
}

/// The on-board cells among the first `k` compass offsets around `p`, in compass order.
pub open spec fn neighbors_upto(p: Position, rows: int, cols: int, k: int) -> Seq<Position>
    decreases k,
{
    if k <= 0 {
        Seq::empty()
    } else {
        let prev = neighbors_upto(p, rows, cols, k - 1);
        let r = p.row + direction(k - 1).0;
        let c = p.col + direction(k - 1).1;
        if in_bounds(r, c, rows, cols) {
            prev.push(Position { row: r as usize, col: c as usize })
        } else {
            prev
        }
    }
}

/// The on-board cells around `p`, in compass order.
pub open spec fn neighbors(p: Position, rows: int, cols: int) -> Seq<Position> {
    neighbors_upto(p, rows, cols, 8)
}

proof fn lemma_neighbors_upto(p: Position, rows: int, cols: int, k: int)
    requires
        rows <= usize::MAX,
        cols <= usize::MAX,
    ensures
        neighbors_upto(p, rows, cols, k).len() <= if k < 0 { 0 } else { k },
        forall|j: int|
            0 <= j < neighbors_upto(p, rows, cols, k).len() ==> in_bounds(
                (#[trigger] neighbors_upto(p, rows, cols, k)[j]).row as int,
                neighbors_upto(p, rows, cols, k)[j].col as int,
                rows,
                cols,
            ) && neighbors_upto(p, rows, cols, k)[j] != p,
    decreases k,
{
    if k > 0 {
        lemma_neighbors_upto(p, rows, cols, k - 1);
        assert(direction(k - 1) != (0int, 0int));
    }
}

/// The neighbors of a cell lie on the board, differ from it, and are at most eight.
pub proof fn lemma_neighbors(p: Position, rows: int, cols: int)
    requires
        rows <= usize::MAX,
        cols <= usize::MAX,
    ensures
        neighbors(p, rows, cols).len() <= 8,
        forall|j: int|
            0 <= j < neighbors(p, rows, cols).len() ==> in_bounds(
                (#[trigger] neighbors(p, rows, cols)[j]).row as int,
                neighbors(p, rows, cols)[j].col as int,
                rows,
                cols,
            ) && neighbors(p, rows, cols)[j] != p,
{
    lemma_neighbors_upto(p, rows, cols, 8);
}

fn direction_of(k: usize) -> (d: (isize, isize))
    requires
        k < 8,
    ensures
        d.0 == direction(k as int).0,
        d.1 == direction(k as int).1,
{
    match k {
        0 => (-1, -1),
        1 => (-1, 0),
        2 => (-1, 1),
        3 => (0, 1),
        4 => (1, 1),
        5 => (1, 0),
        6 => (1, -1),
        _ => (0, -1),
    }
}

/// Moves `v` by `d` (one of -1, 0, 1), if the result lies in `0..bound`.
fn shift(v: usize, d: isize, bound: usize) -> (r: Option<usize>)
    requires
        -1 <= d <= 1,
    ensures
        r matches Some(x) ==> x == v + d,
        r is Some <==> 0 <= v + d < bound,
{
    if d < 0 {
        if v >= 1 && v - 1 < bound {
            Some(v - 1)
        } else {
            None
        }
    } else if d == 0 {
        if v < bound {
            Some(v)
        } else {
            None
        }
    } else {
        if v < bound && bound - v > 1 {
            Some(v + 1)
        } else {
            None
        }
    }
}

impl Position {
    pub fn new(row: usize, col: usize) -> (r: Self)
        ensures
            r.row == row,
            r.col == col,
    {
        Self { row, col }
    }

    /// The on-board cells at the eight compass offsets around `self`, in the
    /// order NW, N, NE, E, SE, S, SW, W.
    pub fn surrounding(&self, board: &Board) -> (r: Vec<Self>)
        requires
            board.wf(),
        ensures
            r@ == neighbors(*self, board.num_rows(), board.num_cols()),
    {
        let rows = board.states.len();
        let cols = if rows > 0 {
            board.states[0].len()
        } else {
            0
        };
        let mut out: Vec<Self> = Vec::new();
        let mut k: usize = 0;
        while k < 8
            invariant
                k <= 8,
                rows == board.num_rows(),
                cols == board.num_cols(),
                out@ == neighbors_upto(*self, rows as int, cols as int, k as int),
            decreases 8 - k,
        {
            let d = direction_of(k);
            let r = shift(self.row, d.0, rows);
            let c = shift(self.col, d.1, cols);
            if let (Some(nr), Some(nc)) = (r, c) {
                let pos = Position::new(nr, nc);
                if board.position_on_board(&pos) {
                    out.push(pos);
                }
            }
            k = k + 1;
        }
        out
    }
}

/// The number of cells of `s` that are in `mines`, counted with repetition.
pub open spec fn mines_among(mines: Seq<Position>, s: Seq<Position>) -> nat
    decreases s.len(),
{
    if s.len() == 0 {
        0
    } else {
        mines_among(mines, s.drop_last()) + if mines.contains(s.last()) {
            1nat
        } else {
            0nat
        }
    }
}

proof fn lemma_mines_among(mines: Seq<Position>, s: Seq<Position>)
    ensures
        mines_among(mines, s) <= s.len(),
        mines_among(mines, s) == 0 ==> forall|j: int| 0 <= j < s.len() ==> !mines.contains(#[trigger] s[j]),
    decreases s.len(),
{
    if s.len() > 0 {
        lemma_mines_among(mines, s.drop_last());
        assert forall|j: int| 0 <= j < s.len() && mines_among(mines, s) == 0 implies !mines.contains(
            #[trigger] s[j],
        ) by {
            if j < s.len() - 1 {
                assert(s[j] == s.drop_last()[j]);
            }
        }
    }
}

/// The number of `Unknown` cells in a row.
pub open spec fn unknowns_in_row(row: Seq<CellState>) -> nat
    decreases row.len(),
{
    if row.len() == 0 {
        0
    } else {
        unknowns_in_row(row.drop_last()) + if row.last() == CellState::Unknown {
            1nat
        } else {
            0nat
        }
    }
}

/// The number of `Unknown` cells in a grid.
pub open spec fn unknowns_in_rows(rows: Seq<Vec<CellState>>) -> nat
    decreases rows.len(),
{
    if rows.len() == 0 {
        0
    } else {
        unknowns_in_rows(rows.drop_last()) + unknowns_in_row(rows.last()@)
    }
}

proof fn lemma_row_count_update(a: Seq<CellState>, b: Seq<CellState>, j: int)
    requires
        a.len() == b.len(),
        0 <= j < a.len(),
        forall|k: int| 0 <= k < a.len() && k != j ==> a[k] == b[k],
    ensures
        unknowns_in_row(b) + (if a[j] == CellState::Unknown { 1int } else { 0int })
            == unknowns_in_row(a) + (if b[j] == CellState::Unknown { 1int } else { 0int }),
    decreases a.len(),
{
    if j < a.len() - 1 {
        lemma_row_count_update(a.drop_last(), b.drop_last(), j);
    } else {
        assert(a.drop_last() =~= b.drop_last());
    }
}

proof fn lemma_rows_count_update(a: Seq<Vec<CellState>>, b: Seq<Vec<CellState>>, i: int)
    requires
        a.len() == b.len(),
        0 <= i < a.len(),
        forall|k: int| 0 <= k < a.len() && k != i ==> a[k] == b[k],
    ensures
        unknowns_in_rows(b) + unknowns_in_row(a[i]@) == unknowns_in_rows(a) + unknowns_in_row(b[i]@),
    decreases a.len(),
{
    if i < a.len() - 1 {
        lemma_rows_count_update(a.drop_last(), b.drop_last(), i);
    } else {
        assert(a.drop_last() =~= b.drop_last());
    }
}

impl Board {
    /// The number of rows.
    pub open spec fn num_rows(&self) -> int {
        self.states@.len() as int
    }

    /// The number of columns, read from the first row.
    pub open spec fn num_cols(&self) -> int {
        if self.states@.len() > 0 {
            self.states@[0]@.len() as int
        } else {
            0
        }
    }

    /// `p` names a cell of the board.
    pub open spec fn on_board(&self, p: Position) -> bool {
        in_bounds(p.row as int, p.col as int, self.num_rows(), self.num_cols())
    }

    /// The state of the cell at `p`.
    pub open spec fn cell_at(&self, p: Position) -> CellState {
        self.states@[p.row as int]@[p.col as int]
    }

    /// Every row has the same length, every mine lies on the board and every
    /// danger count lies between one and eight.
    pub open spec fn wf(&self) -> bool {
        &&& forall|i: int| 0 <= i < self.num_rows() ==> (#[trigger] self.states@[i])@.len() == self.num_cols()
        &&& forall|i: int|
            0 <= i < self.bomb_positions@.len() ==> self.on_board(#[trigger] self.bomb_positions@[i])
        &&& forall|p: Position| self.on_board(p) ==> (#[trigger] self.cell_at(p)).valid()
    }

    proof fn lemma_dims(&self)
        ensures
            self.num_rows() <= usize::MAX,
            self.num_cols() <= usize::MAX,
    {
        assert(self.states@.len() == self.states.len());
        if self.states@.len() > 0 {
            assert(self.states@[0]@.len() == self.states@[0].len());
        }
    }

    /// No cell of the board has been revealed.
    pub open spec fn untouched(&self) -> bool {
        forall|p: Position| self.on_board(p) ==> #[trigger] self.cell_at(p) == CellState::Unknown
    }

    pub open spec fn is_mine(&self, p: Position) -> bool {
        self.bomb_positions@.contains(p)
    }

    /// The number of mines around `p`.
    pub open spec fn mines_around(&self, p: Position) -> nat {
        mines_among(self.bomb_positions@, neighbors(p, self.num_rows(), self.num_cols()))
    }

    /// The state that revealing `p` gives it: `Bomb` on a mine, else `Empty` or
    /// `Danger(n)` after the number `n` of mines around it.
    pub open spec fn value_at(&self, p: Position) -> CellState {
        if self.is_mine(p) {
            CellState::Bomb
        } else if self.mines_around(p) == 0 {
            CellState::Empty
        } else {
            CellState::Danger(self.mines_around(p) as u8)
        }
    }

    pub open spec fn unknown_count(&self) -> nat {
        unknowns_in_rows(self.states@)
    }

    /// No neighbor of `q` is `Unknown`.
    pub open spec fn settled_around(&self, q: Position) -> bool {
        forall|j: int|
            0 <= j < neighbors(q, self.num_rows(), self.num_cols()).len() ==> self.cell_at(
                #[trigger] neighbors(q, self.num_rows(), self.num_cols())[j],
            ) != CellState::Unknown
    }

    /// `path` is a way the cascade can take from `pos`: each step goes to a
    /// neighbor that is `Unknown` on this board, from a cell that reveals as
    /// `Empty`.
    pub open spec fn is_cascade_path(&self, pos: Position, path: Seq<Position>) -> bool {
        &&& path.len() >= 1
        &&& path[0] == pos
        &&& forall|k: int|
            0 < k < path.len() ==> {
                &&& neighbors(path[k - 1], self.num_rows(), self.num_cols()).contains(#[trigger] path[k])
                &&& self.on_board(path[k])
                &&& self.cell_at(path[k]) == CellState::Unknown
                &&& self.value_at(path[k - 1]) == CellState::Empty
            }
    }

    /// Some cascade path from `pos` ends at `q`.
    #[verifier::opaque]
    pub open spec fn cascade_reaches(&self, pos: Position, q: Position) -> bool {
        exists|path: Seq<Position>| self.is_cascade_path(pos, path) && path.last() == q
    }

    /// Every revealed cell shows the state that revealing it gives, and no
    /// `Empty` cell has an `Unknown` neighbor: what reveals leave behind.
    pub open spec fn consistent(&self) -> bool {
        forall|q: Position|
            self.on_board(q) && #[trigger] self.cell_at(q) != CellState::Unknown ==> self.cell_at(q)
                == self.value_at(q) && (self.cell_at(q) == CellState::Empty ==> self.settled_around(q))
    }
}

/// Where `n` is a neighbor of `pos`, `pos` reveals as `Empty`, and a board
/// `b` has `Unknown` cells only where `a` has them, `n` itself and whatever a
/// cascade from `n` reaches on `b` are reached by a cascade from `pos` on `a`.
proof fn lemma_extend_path(a: Board, b: Board, pos: Position, n: Position, q: Position)
    requires
        b.num_rows() == a.num_rows(),
        b.num_cols() == a.num_cols(),
        b.bomb_positions == a.bomb_positions,
        neighbors(pos, a.num_rows(), a.num_cols()).contains(n),
        a.on_board(n),
        a.value_at(pos) == CellState::Empty,
        b.cell_at(n) == CellState::Unknown,
        forall|x: Position|
            b.on_board(x) && #[trigger] b.cell_at(x) == CellState::Unknown ==> a.cell_at(x) == CellState::Unknown,
        q == n || b.cascade_reaches(n, q),
    ensures
        a.cascade_reaches(pos, q),
{
    reveal(Board::cascade_reaches);
    let path = if q == n {
        seq![n]
    } else {
        choose|path: Seq<Position>| b.is_cascade_path(n, path) && path.last() == q
    };
    assert(b.is_cascade_path(n, path) && path.last() == q);
    let pp = seq![pos] + path;
    assert forall|k: int| 0 < k < pp.len() implies {
        &&& neighbors(pp[k - 1], a.num_rows(), a.num_cols()).contains(#[trigger] pp[k])
        &&& a.on_board(pp[k])
        &&& a.cell_at(pp[k]) == CellState::Unknown
        &&& a.value_at(pp[k - 1]) == CellState::Empty
    } by {
        if k == 1 {
            assert(pp[1] == n && pp[0] == pos);
        } else {
            assert(pp[k] == path[k - 1] && pp[k - 1] == path[k - 2]);
            assert(b.cell_at(path[k - 1]) == CellState::Unknown);
        }
    }
    assert(a.is_cascade_path(pos, pp) && pp.last() == q);
}

/// A reveal that sets `pos` to its value, changes other cells only from
/// `Unknown` to their values, and leaves no new `Empty` cell beside an
/// `Unknown` one keeps a board consistent.
proof fn lemma_reveal_keeps_consistent(a: Board, b: Board, pos: Position)
    requires
        a.wf(),
        b.wf(),
        a.consistent(),
        b.bomb_positions == a.bomb_positions,
        b.num_rows() == a.num_rows(),
        b.num_cols() == a.num_cols(),
        a.on_board(pos),
        b.cell_at(pos) == a.value_at(pos),
        forall|q: Position|
            b.on_board(q) && q != pos ==> {
                ||| #[trigger] b.cell_at(q) == a.cell_at(q)
                ||| a.cell_at(q) == CellState::Unknown && b.cell_at(q) == a.value_at(q) && !a.is_mine(q)
            },
        forall|q: Position|
            b.on_board(q) && #[trigger] b.cell_at(q) == CellState::Empty && (q == pos || a.cell_at(q)
                == CellState::Unknown) ==> b.settled_around(q),
    ensures
        b.consistent(),
{
    assert forall|q: Position| b.on_board(q) && #[trigger] b.cell_at(q) != CellState::Unknown implies b.cell_at(
        q,
    ) == b.value_at(q) && (b.cell_at(q) == CellState::Empty ==> b.settled_around(q)) by {
        if q != pos && a.cell_at(q) != CellState::Unknown {
            assert(b.cell_at(q) == a.cell_at(q));
            if b.cell_at(q) == CellState::Empty {
                assert(a.settled_around(q));
                a.lemma_dims();
                lemma_neighbors(q, a.num_rows(), a.num_cols());
                let nb = neighbors(q, a.num_rows(), a.num_cols());
                assert forall|j: int| 0 <= j < nb.len() implies b.cell_at(#[trigger] nb[j]) != CellState::Unknown by {
                    assert(a.cell_at(nb[j]) != CellState::Unknown);
                    if nb[j] != pos {
                        assert(b.on_board(nb[j]));
                    }
                }
            }
        }
    }
}

/// A board built with no mine drawn has no mines, so revealing any of its
/// cells, once or again, never gives `Bomb`.
pub proof fn lemma_no_mines_never_bomb(b: Board, mine_draws: Seq<Vec<bool>>, p: Position)
    requires
        b.wf(),
        mine_draws.len() == b.num_rows(),
        forall|i: int| 0 <= i < mine_draws.len() ==> (#[trigger] mine_draws[i])@.len() == b.num_cols(),
        forall|i: int, j: int|
            0 <= i < mine_draws.len() && 0 <= j < mine_draws[i]@.len() ==> !(#[trigger] mine_draws[i]@[j]),
        forall|q: Position|
            #[trigger] b.is_mine(q) <==> b.on_board(q) && mine_draws[q.row as int]@[q.col as int],
    ensures
        b.bomb_positions@.len() == 0,
        b.value_at(p) != CellState::Bomb,
{
    if b.bomb_positions@.len() > 0 {
        let q = b.bomb_positions@[0];
        assert(b.is_mine(q));
        assert(mine_draws[q.row as int]@.len() == b.num_cols());
        assert(!mine_draws[q.row as int]@[q.col as int]);
    }
}

/// The glyph that shows a cell: blank for `Empty`, the count for `Danger`,
/// `X` for `Bomb` and `-` for `Unknown`.
pub open spec fn glyph(c: CellState) -> char {
    match c {
        CellState::Empty => ' ',
        CellState::Unknown => '-',
        CellState::Bomb => 'X',
        CellState::Danger(n) => {
            if n == 1 {
                '1'
            } else if n == 2 {
                '2'
            } else if n == 3 {
                '3'
            } else if n == 4 {
                '4'
            } else if n == 5 {
                '5'
            } else if n == 6 {
                '6'
            } else if n == 7 {
                '7'
            } else {
                '8'
            }
        },
    }
}

/// A row as text: each cell's glyph followed by a space.
pub open spec fn row_text(row: Seq<CellState>) -> Seq<char>
    decreases row.len(),
{
    if row.len() == 0 {
        Seq::empty()
    } else {
        row_text(row.drop_last()) + seq![glyph(row.last()), ' ']
    }
}

/// A grid as text: each row's text followed by a newline.
pub open spec fn grid_text(rows: Seq<Vec<CellState>>) -> Seq<char>
    decreases rows.len(),
{
    if rows.len() == 0 {
        Seq::empty()
    } else {
        grid_text(rows.drop_last()) + row_text(rows.last()@) + seq!['\n']
    }
}

fn glyph_text(c: CellState) -> (s: &'static str)
    requires
        c.valid(),
    ensures
        s@ == seq![glyph(c), ' '],
{
    match c {
        CellState::Empty => {
            proof { reveal_strlit("  "); }
            "  "
        },
        CellState::Unknown => {
            proof { reveal_strlit("- "); }
            "- "
        },
        CellState::Bomb => {
            proof { reveal_strlit("X "); }
            "X "
        },
        CellState::Danger(n) => {
            if n == 1 {
                proof { reveal_strlit("1 "); }
                "1 "
            } else if n == 2 {
                proof { reveal_strlit("2 "); }
                "2 "
            } else if n == 3 {
                proof { reveal_strlit("3 "); }
                "3 "
            } else if n == 4 {
                proof { reveal_strlit("4 "); }
                "4 "
            } else if n == 5 {
                proof { reveal_strlit("5 "); }
                "5 "
            } else if n == 6 {
                proof { reveal_strlit("6 "); }
                "6 "
            } else if n == 7 {
                proof { reveal_strlit("7 "); }
                "7 "
            } else {
                proof { reveal_strlit("8 "); }
                "8 "
            }
        },
    }
}

impl Board {
    /// Builds a board of `num_rows` by `num_cols` cells, all `Unknown`, with a
    /// mine on each cell whose entry in `mine_draws` (indexed `[row][column]`)
    /// is `true`.
    pub fn new(num_rows: usize, num_cols: usize, mine_draws: &Vec<Vec<bool>>) -> (b: Board)
        requires
            mine_draws@.len() == num_rows,
            forall|i: int| 0 <= i < num_rows ==> (#[trigger] mine_draws@[i])@.len() == num_cols,
        ensures
            b.wf(),
            b.num_rows() == num_rows,
            num_rows > 0 ==> b.num_cols() == num_cols,
            b.untouched(),
            b.consistent(),
            forall|p: Position|
                #[trigger] b.is_mine(p) <==> b.on_board(p) && mine_draws@[p.row as int]@[p.col as int],
    {
        let mut states: Vec<Vec<CellState>> = Vec::new();
        let mut bombs: Vec<Position> = Vec::new();
        let mut r: usize = 0;
        while r < num_rows
            invariant
                r <= num_rows,
                mine_draws@.len() == num_rows,
                forall|i: int| 0 <= i < num_rows ==> (#[trigger] mine_draws@[i])@.len() == num_cols,
                states@.len() == r,
                forall|i: int|
                    0 <= i < r ==> (#[trigger] states@[i])@.len() == num_cols && forall|j: int|
                        0 <= j < num_cols ==> states@[i]@[j] == CellState::Unknown,
                forall|k: int|
                    0 <= k < bombs@.len() ==> (#[trigger] bombs@[k]).row < r && bombs@[k].col < num_cols
                        && mine_draws@[bombs@[k].row as int]@[bombs@[k].col as int],
                forall|p: Position|
                    p.row < r && p.col < num_cols && mine_draws@[p.row as int]@[p.col as int]
                        ==> #[trigger] bombs@.contains(p),
            decreases num_rows - r,
        {
            let mut row: Vec<CellState> = Vec::new();
            let mut c: usize = 0;
            while c < num_cols
                invariant
                    r < num_rows,
                    c <= num_cols,
                    mine_draws@.len() == num_rows,
                    forall|i: int| 0 <= i < num_rows ==> (#[trigger] mine_draws@[i])@.len() == num_cols,
                    row@.len() == c,
                    forall|j: int| 0 <= j < c ==> row@[j] == CellState::Unknown,
                    forall|k: int|
                        0 <= k < bombs@.len() ==> ((#[trigger] bombs@[k]).row < r || (bombs@[k].row == r
                            && bombs@[k].col < c)) && bombs@[k].col < num_cols
                            && mine_draws@[bombs@[k].row as int]@[bombs@[k].col as int],
                    forall|p: Position|
                        (p.row < r && p.col < num_cols || p.row == r && p.col < c) && mine_draws@[p.row as int]@[p.col as int]
                            ==> #[trigger] bombs@.contains(p),
                decreases num_cols - c,
            {
                row.push(CellState::Unknown);
                let ghost start = bombs@;
                if mine_draws[r][c] {
                    bombs.push(Position::new(r, c));
                }
                proof {
                    assert forall|p: Position|
                        (p.row < r && p.col < num_cols || p.row == r && p.col < c + 1) && mine_draws@[p.row as int]@[p.col as int]
                            implies #[trigger] bombs@.contains(p) by {
                        if p.row == r && p.col == c {
                            assert(bombs@[bombs@.len() - 1] == p);
                        } else {
                            assert(start.contains(p));
                            let k = choose|k: int| 0 <= k < start.len() && start[k] == p;
                            assert(bombs@[k] == p);
                        }
                    }
                }
                c = c + 1;
            }
            states.push(row);
            r = r + 1;
        }
        let b = Board { states, bomb_positions: bombs };
        proof {
            assert forall|p: Position| #[trigger] b.is_mine(p) implies b.on_board(p) && mine_draws@[p.row as int]@[p.col as int] by {
                let k = choose|k: int| 0 <= k < b.bomb_positions@.len() && b.bomb_positions@[k] == p;
                assert(b.bomb_positions@[k] == p);
            }
        }
        b
    }

    /// Whether every row has the same length, every mine lies on the board and
    /// every danger count lies between one and eight.
    pub fn is_wf(&self) -> (r: bool)
        ensures
            r == self.wf(),
    {
        let rows = self.states.len();
        let cols = if rows > 0 {
            self.states[0].len()
        } else {
            0
        };
        let mut i: usize = 0;
        while i < rows
            invariant
                rows == self.num_rows(),
                cols == self.num_cols(),
                i <= rows,
                forall|k: int| 0 <= k < i ==> (#[trigger] self.states@[k])@.len() == cols,
                forall|p: Position|
                    self.on_board(p) && p.row < i ==> (#[trigger] self.cell_at(p)).valid(),
            decreases rows - i,
        {
            if self.states[i].len() != cols {
                return false;
            }
            let mut j: usize = 0;
            while j < cols
                invariant
                    rows == self.num_rows(),
                    cols == self.num_cols(),
                    i < rows,
                    j <= cols,
                    self.states@[i as int]@.len() == cols,
                    forall|p: Position|
                        self.on_board(p) && (p.row < i || p.row == i && p.col < j) ==> (
                        #[trigger] self.cell_at(p)).valid(),
                decreases cols - j,
            {
                if let CellState::Danger(n) = self.states[i][j] {
                    if n < 1 || n > 8 {
                        proof {
                            assert(!self.cell_at(Position { row: i, col: j }).valid());
                        }
                        return false;
                    }
                }
                j = j + 1;
            }
            i = i + 1;
        }
        let mut k: usize = 0;
        while k < self.bomb_positions.len()
            invariant
                rows == self.num_rows(),
                cols == self.num_cols(),
                k <= self.bomb_positions@.len(),
                forall|m: int| 0 <= m < k ==> self.on_board(#[trigger] self.bomb_positions@[m]),
            decreases self.bomb_positions@.len() - k,
        {
            let p = self.bomb_positions[k];
            if p.row >= rows || p.col >= cols {
                return false;
            }
            k = k + 1;
        }
        true
    }

    /// Whether every cell of the board is still `Unknown`.
    pub fn all_unknown(&self) -> (r: bool)
        requires
            self.wf(),
        ensures
            r == self.untouched(),
    {
        let mut i: usize = 0;
        while i < self.states.len()
            invariant
                self.wf(),
                i <= self.num_rows(),
                forall|p: Position|
                    self.on_board(p) && p.row < i ==> #[trigger] self.cell_at(p) == CellState::Unknown,
            decreases self.num_rows() - i,
        {
            let mut j: usize = 0;
            while j < self.states[i].len()
                invariant
                    self.wf(),
                    i < self.num_rows(),
                    j <= self.states@[i as int]@.len(),
                    forall|p: Position|
                        self.on_board(p) && (p.row < i || p.row == i && p.col < j) ==> #[trigger] self.cell_at(p)
                            == CellState::Unknown,
                decreases self.states@[i as int]@.len() - j,
            {
                if self.states[i][j] != CellState::Unknown {
                    proof {
                        assert(self.states@[i as int]@.len() == self.num_cols());
                        assert(self.on_board(Position { row: i, col: j }));
                        assert(self.cell_at(Position { row: i, col: j }) != CellState::Unknown);
                    }
                    return false;
                }
                j = j + 1;
            }
            proof {
                assert(self.states@[i as int]@.len() == self.num_cols());
            }
            i = i + 1;
        }
        true
    }

    fn position_on_board(&self, pos: &Position) -> (r: bool)
        ensures
            r == self.on_board(*pos),
    {
        pos.row < self.states.len() && pos.col < self.states[0].len()
    }

    fn contains_mine(&self, pos: &Position) -> (r: bool)
        ensures
            r == self.is_mine(*pos),
    {
        let mut i: usize = 0;
        while i < self.bomb_positions.len()
            invariant
                i <= self.bomb_positions@.len(),
                forall|j: int| 0 <= j < i ==> self.bomb_positions@[j] != *pos,
            decreases self.bomb_positions@.len() - i,
        {
            if self.bomb_positions[i] == *pos {
                return true;
            }
            i = i + 1;
        }
        false
    }

    fn count_mines(&self, cells: &Vec<Position>) -> (n: usize)
        ensures
            n == mines_among(self.bomb_positions@, cells@),
    {
        let mut n: usize = 0;
        let mut i: usize = 0;
        while i < cells.len()
            invariant
                i <= cells@.len(),
                n == mines_among(self.bomb_positions@, cells@.subrange(0, i as int)),
                n <= i,
            decreases cells@.len() - i,
        {
            proof {
                assert(cells@.subrange(0, i as int + 1).drop_last() =~= cells@.subrange(0, i as int));
            }
            if self.contains_mine(&cells[i]) {
                n = n + 1;
            }
            i = i + 1;
        }
        assert(cells@.subrange(0, i as int) =~= cells@);
        n
    }

    /// Replaces the state of one cell, leaving every other cell and the mines as they were.
    fn set_cell(&mut self, pos: &Position, v: CellState)
        requires
            old(self).wf(),
            old(self).on_board(*pos),
            v.valid(),
        ensures
            final(self).wf(),
            final(self).bomb_positions == old(self).bomb_positions,
            final(self).num_rows() == old(self).num_rows(),
            final(self).num_cols() == old(self).num_cols(),
            forall|q: Position|
                final(self).on_board(q) ==> #[trigger] final(self).cell_at(q) == if q == *pos {
                    v
                } else {
                    old(self).cell_at(q)
                },
            final(self).unknown_count() + (if old(self).cell_at(*pos) == CellState::Unknown { 1int } else { 0int })
                == old(self).unknown_count() + (if v == CellState::Unknown { 1int } else { 0int }),
    {
        self.states[pos.row][pos.col] = v;
        proof {
            let a = old(self).states@;
            let b = self.states@;
            let r = pos.row as int;
            lemma_row_count_update(a[r]@, b[r]@, pos.col as int);
            lemma_rows_count_update(a, b, r);
            assert(b[0]@.len() == a[0]@.len());
            assert forall|i: int| 0 <= i < self.num_rows() implies (#[trigger] self.states@[i])@.len()
                == self.num_cols() by {
                assert(a[i]@.len() == old(self).num_cols());
            }
            assert forall|q: Position| self.on_board(q) implies (#[trigger] self.cell_at(q)).valid() by {
                if q != *pos {
                    assert(old(self).on_board(q));
                    assert(old(self).cell_at(q).valid());
                }
            }
        }
    }

    /// Reveals the cell at `pos` and returns the state it takes. A mine becomes
    /// `Bomb`; any other cell becomes `Empty` or `Danger(n)` after the number of
    /// mines around it. From an `Empty` cell the reveal goes on into every
    /// neighbor that is still `Unknown`, so the whole region of mine-free
    /// surroundings and its border is uncovered, each cell once.
    pub fn reveal_cell(&mut self, pos: &Position) -> (r: CellState)
        requires
            old(self).wf(),
            old(self).on_board(*pos),
        ensures
            final(self).wf(),
            final(self).bomb_positions == old(self).bomb_positions,
            final(self).num_rows() == old(self).num_rows(),
            final(self).num_cols() == old(self).num_cols(),
            r == old(self).value_at(*pos),
            final(self).cell_at(*pos) == r,
            // every other cell is unchanged, or was `Unknown` and now shows its own safe value
            forall|q: Position|
                final(self).on_board(q) && q != *pos ==> {
                    ||| #[trigger] final(self).cell_at(q) == old(self).cell_at(q)
                    ||| old(self).cell_at(q) == CellState::Unknown && final(self).cell_at(q)
                        == old(self).value_at(q) && !old(self).is_mine(q)
                },
            // the cascade reaches only cells that a cascade path leads to
            forall|q: Position|
                final(self).on_board(q) && q != *pos && #[trigger] final(self).cell_at(q) != old(self).cell_at(q)
                    ==> old(self).cascade_reaches(*pos, q),
            // no cascade from a mine or a danger cell, nor where every neighbor is already revealed
            r != CellState::Empty || old(self).settled_around(*pos) ==> forall|q: Position|
                final(self).on_board(q) && q != *pos ==> #[trigger] final(self).cell_at(q)
                    == old(self).cell_at(q),
            // the cascade is complete: every cell that this call made `Empty` has no `Unknown` neighbor
            forall|q: Position|
                final(self).on_board(q) && #[trigger] final(self).cell_at(q) == CellState::Empty && (q
                    == *pos || old(self).cell_at(q) == CellState::Unknown) ==> final(self).settled_around(q),
            final(self).unknown_count() + (if old(self).cell_at(*pos) == CellState::Unknown {
                1int
            } else {
                0int
            }) <= old(self).unknown_count(),
            old(self).consistent() ==> final(self).consistent(),
            // revealing an `Empty` or `Danger` cell again gives the same state and changes nothing
            old(self).consistent() && (old(self).cell_at(*pos) is Empty || old(self).cell_at(*pos) is Danger)
                ==> r == old(self).cell_at(*pos) && forall|q: Position|
                final(self).on_board(q) ==> #[trigger] final(self).cell_at(q) == old(self).cell_at(q),
        decreases old(self).unknown_count() + if old(self).cell_at(*pos) == CellState::Unknown {
            0nat
        } else {
            1nat
        },
    {
        let surrounding = pos.surrounding(self);
        proof {
            self.lemma_dims();
            lemma_neighbors(*pos, self.num_rows(), self.num_cols());
            lemma_mines_among(self.bomb_positions@, surrounding@);
        }
        if self.contains_mine(pos) {
            self.set_cell(pos, CellState::Bomb);
            proof {
                if old(self).consistent() {
                    lemma_reveal_keeps_consistent(*old(self), *self, *pos);
                }
            }
            return CellState::Bomb;
        }
        let count = self.count_mines(&surrounding);
        let state = if count == 0 {
            CellState::Empty
        } else {
            CellState::Danger(count as u8)
        };
        self.set_cell(pos, state);
        if count == 0 {
            let mut i: usize = 0;
            while i < surrounding.len()
                invariant
                    self.wf(),
                    self.bomb_positions == old(self).bomb_positions,
                    self.num_rows() == old(self).num_rows(),
                    self.num_cols() == old(self).num_cols(),
                    old(self).wf(),
                    old(self).on_board(*pos),
                    surrounding@ == neighbors(*pos, old(self).num_rows(), old(self).num_cols()),
                    forall|j: int|
                        0 <= j < surrounding@.len() ==> !old(self).is_mine(#[trigger] surrounding@[j])
                            && old(self).on_board(surrounding@[j]) && surrounding@[j] != *pos,
                    i <= surrounding@.len(),
                    state == CellState::Empty,
                    old(self).value_at(*pos) == CellState::Empty,
                    self.cell_at(*pos) == CellState::Empty,
                    forall|j: int|
                        0 <= j < i ==> self.cell_at(#[trigger] surrounding@[j]) != CellState::Unknown,
                    forall|q: Position|
                        self.on_board(q) && q != *pos ==> {
                            ||| #[trigger] self.cell_at(q) == old(self).cell_at(q)
                            ||| old(self).cell_at(q) == CellState::Unknown && self.cell_at(q)
                                == old(self).value_at(q) && !old(self).is_mine(q)
                        },
                    old(self).settled_around(*pos) ==> forall|q: Position|
                        self.on_board(q) && q != *pos ==> #[trigger] self.cell_at(q) == old(
                            self,
                        ).cell_at(q),
                    forall|q: Position|
                        self.on_board(q) && q != *pos && #[trigger] self.cell_at(q) != old(self).cell_at(q)
                            ==> old(self).cascade_reaches(*pos, q),
                    forall|q: Position|
                        self.on_board(q) && q != *pos && #[trigger] self.cell_at(q) == CellState::Empty
                            && old(self).cell_at(q) == CellState::Unknown ==> self.settled_around(q),
                    self.unknown_count() + (if old(self).cell_at(*pos) == CellState::Unknown {
                        1int
                    } else {
                        0int
                    }) <= old(self).unknown_count(),
                decreases surrounding@.len() - i,
            {
                let n = surrounding[i];
                if self.states[n.row][n.col] == CellState::Unknown {
                    let ghost before = *self;
                    proof {
                        if old(self).settled_around(*pos) {
                            assert(old(self).cell_at(surrounding@[i as int]) != CellState::Unknown);
                        }
                    }
                    self.reveal_cell(&n);
                    proof {
                        assert forall|q: Position| self.on_board(q) && q != *pos implies {
                            ||| #[trigger] self.cell_at(q) == old(self).cell_at(q)
                            ||| old(self).cell_at(q) == CellState::Unknown && self.cell_at(q)
                                == old(self).value_at(q) && !old(self).is_mine(q)
                        } by {
                            if q != n {
                                assert(self.cell_at(q) == before.cell_at(q) || before.cell_at(q)
                                    == CellState::Unknown);
                                assert(before.cell_at(q) == old(self).cell_at(q) || old(self).cell_at(
                                    q,
                                ) == CellState::Unknown);
                            } else {
                                assert(before.cell_at(q) == old(self).cell_at(q) || old(self).cell_at(
                                    q,
                                ) == CellState::Unknown);
                            }
                        }
                        assert forall|x: Position|
                            before.on_board(x) && #[trigger] before.cell_at(x) == CellState::Unknown implies old(
                                self,
                            ).cell_at(x) == CellState::Unknown by {
                            if x != *pos {
                                assert(before.cell_at(x) == old(self).cell_at(x) || old(self).cell_at(x)
                                    == CellState::Unknown);
                            }
                        }
                        assert(surrounding@[i as int] == n);
                        assert forall|q: Position|
                            self.on_board(q) && q != *pos && #[trigger] self.cell_at(q) != old(
                                self,
                            ).cell_at(q) implies old(self).cascade_reaches(*pos, q) by {
                            if before.cell_at(q) == old(self).cell_at(q) {
                                lemma_extend_path(*old(self), before, *pos, n, q);
                            }
                        }
                        assert forall|x: Position|
                            self.on_board(x) && before.cell_at(x) != CellState::Unknown implies #[trigger] self.cell_at(
                                x,
                            ) != CellState::Unknown by {
                            if x != n {
                                assert(self.cell_at(x) == before.cell_at(x) || before.cell_at(x)
                                    == CellState::Unknown);
                            }
                        }
                        assert forall|j: int| 0 <= j < i + 1 implies self.cell_at(
                            #[trigger] surrounding@[j],
                        ) != CellState::Unknown by {
                            if j < i {
                                assert(before.cell_at(surrounding@[j]) != CellState::Unknown);
                            }
                        }
                        assert forall|q: Position|
                            self.on_board(q) && q != *pos && #[trigger] self.cell_at(q)
                                == CellState::Empty && old(self).cell_at(q)
                                == CellState::Unknown implies self.settled_around(q) by {
                            if before.cell_at(q) != CellState::Unknown {
                                assert(q != n);
                                assert(self.cell_at(q) == before.cell_at(q));
                                assert(before.settled_around(q));
                                self.lemma_dims();
                                lemma_neighbors(q, self.num_rows(), self.num_cols());
                                assert forall|j: int|
                                    0 <= j < neighbors(q, self.num_rows(), self.num_cols()).len() implies self.cell_at(
                                    #[trigger] neighbors(q, self.num_rows(), self.num_cols())[j],
                                ) != CellState::Unknown by {
                                    assert(before.cell_at(neighbors(q, self.num_rows(), self.num_cols())[j])
                                        != CellState::Unknown);
                                }
                            }
                        }
                    }
                }
                i = i + 1;
            }
        }
        proof {
            if old(self).consistent() {
                lemma_reveal_keeps_consistent(*old(self), *self, *pos);
            }
        }
        state
    }

    /// The board as text: one line per row, each cell as its glyph and a
    /// space, each row ended by a newline.
    pub fn to_text(&self) -> (t: String)
        requires
            self.wf(),
        ensures
            t@ == grid_text(self.states@),
    {
        let mut text = String::new();
        let mut i: usize = 0;
        while i < self.states.len()
            invariant
                self.wf(),
                i <= self.num_rows(),
                text@ == grid_text(self.states@.subrange(0, i as int)),
            decreases self.num_rows() - i,
        {
            let ghost before = text@;
            let mut j: usize = 0;
            while j < self.states[i].len()
                invariant
                    self.wf(),
                    i < self.num_rows(),
                    j <= self.states@[i as int]@.len(),
                    text@ == before + row_text(self.states@[i as int]@.subrange(0, j as int)),
                decreases self.states@[i as int]@.len() - j,
            {
                proof {
                    assert(self.states@[i as int]@.len() == self.num_cols());
                    assert(self.cell_at(Position { row: i, col: j }).valid());
                    assert(self.states@[i as int]@.subrange(0, j + 1).drop_last()
                        =~= self.states@[i as int]@.subrange(0, j as int));
                }
                text.append(glyph_text(self.states[i][j]));
                j = j + 1;
            }
            proof {
                reveal_strlit("\n");
                assert(self.states@[i as int]@.subrange(0, j as int) =~= self.states@[i as int]@);
                assert(self.states@.subrange(0, i + 1).drop_last() =~= self.states@.subrange(0, i as int));
            }
            text.append("\n");
            i = i + 1;
        }
        assert(self.states@.subrange(0, i as int) =~= self.states@);
        text
    }
}

} // verus!
