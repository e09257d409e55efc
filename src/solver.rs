use crate::board::{in_bounds, Board, Position};
use vstd::prelude::*;

verus! {

/// A cell with its estimated chance of hiding a mine, `numerator / denominator`.
pub struct PositionBombProbability {
    pub position: Position,
    pub numerator: usize,
    pub denominator: usize,
}

impl PositionBombProbability {
    pub fn new(position: Position, numerator: usize, denominator: usize) -> (r: Self)
        ensures
            r.position == position,
            r.numerator == numerator,
            r.denominator == denominator,
    {
        Self { position, numerator, denominator }
    }
}

/// The cells of row `r`, left to right.
pub open spec fn row_cells(r: int, cols: int) -> Seq<Position> {
    Seq::new(cols as nat, |c: int| Position { row: r as usize, col: c as usize })
}

/// The cells of a `rows` by `cols` grid in row-major order.
pub open spec fn row_major(rows: int, cols: int) -> Seq<Position>
    decreases rows,
{
    if rows <= 0 {
        Seq::empty()
    } else {
        row_major(rows - 1, cols) + row_cells(rows - 1, cols)
    }
}

/// Row-major order lists `rows * cols` cells, each of them on the grid, no
/// cell twice, and every cell of the grid.
pub proof fn lemma_row_major(rows: int, cols: int)
    requires
        0 <= rows <= usize::MAX,
        0 <= cols <= usize::MAX,
    ensures
        row_major(rows, cols).len() == rows * cols,
        row_major(rows, cols).no_duplicates(),
        forall|i: int|
            0 <= i < row_major(rows, cols).len() ==> in_bounds(
                (#[trigger] row_major(rows, cols)[i]).row as int,
                row_major(rows, cols)[i].col as int,
                rows,
                cols,
            ),
        forall|p: Position|
            in_bounds(p.row as int, p.col as int, rows, cols) ==> #[trigger] row_major(rows, cols).contains(p),
    decreases rows,
{
    if rows > 0 {
        lemma_row_major(rows - 1, cols);
        let prev = row_major(rows - 1, cols);
        let last = row_cells(rows - 1, cols);
        let all = row_major(rows, cols);
        assert(all == prev + last);
        assert((rows - 1) * cols + cols == rows * cols) by (nonlinear_arith);
        assert forall|i: int| 0 <= i < all.len() implies in_bounds(
            (#[trigger] all[i]).row as int,
            all[i].col as int,
            rows,
            cols,
        ) by {
            if i < prev.len() {
                assert(all[i] == prev[i]);
            } else {
                assert(all[i] == last[i - prev.len()]);
            }
        }
        assert forall|i: int, j: int| 0 <= i < all.len() && 0 <= j < all.len() && i != j implies all[i]
            != all[j] by {
            if i < prev.len() && j < prev.len() {
                assert(all[i] == prev[i] && all[j] == prev[j]);
            } else if i < prev.len() {
                assert(all[i] == prev[i] && all[j] == last[j - prev.len()]);
                assert(in_bounds(prev[i].row as int, prev[i].col as int, rows - 1, cols));
            } else if j < prev.len() {
                assert(all[j] == prev[j] && all[i] == last[i - prev.len()]);
                assert(in_bounds(prev[j].row as int, prev[j].col as int, rows - 1, cols));
            } else {
                assert(all[i] == last[i - prev.len()] && all[j] == last[j - prev.len()]);
            }
        }
        assert forall|p: Position| in_bounds(p.row as int, p.col as int, rows, cols) implies #[trigger] all.contains(
            p,
        ) by {
            if p.row < rows - 1 {
                assert(prev.contains(p));
                let k = choose|k: int| 0 <= k < prev.len() && prev[k] == p;
                assert(all[k] == p);
            } else {
                assert(all[prev.len() + p.col] == p);
            }
        }
    }
}

/// Ranks the cells of a board on which nothing has been revealed: every cell
/// is equally likely to hide a mine, so each gets `1 / (rows * columns)`, in
/// row-major order. Ranking a board with revealed cells is not supported.
pub fn rank_positions(board: &Board) -> (ranked: Vec<PositionBombProbability>)
    requires
        board.wf(),
        board.untouched(),
        board.num_rows() * board.num_cols() <= usize::MAX,
    ensures
        ranked@.len() == board.num_rows() * board.num_cols(),
        forall|i: int|
            0 <= i < ranked@.len() ==> (#[trigger] ranked@[i]).position == row_major(
                board.num_rows(),
                board.num_cols(),
            )[i] && ranked@[i].numerator == 1 && ranked@[i].denominator == board.num_rows()
                * board.num_cols(),
        forall|i: int, j: int|
            0 <= i < ranked@.len() && 0 <= j < ranked@.len() && i != j ==> (#[trigger] ranked@[i]).position
                != (#[trigger] ranked@[j]).position,
        forall|p: Position|
            #[trigger] board.on_board(p) ==> exists|i: int|
                0 <= i < ranked@.len() && (#[trigger] ranked@[i]).position == p,
{
    let rows = board.states.len();
    let cols = if rows > 0 {
        board.states[0].len()
    } else {
        0
    };
    let total = rows * cols;
    let mut ranked: Vec<PositionBombProbability> = Vec::new();
    let mut r: usize = 0;
    while r < rows
        invariant
            rows == board.num_rows(),
            cols == board.num_cols(),
            total == rows * cols,
            r <= rows,
            ranked@.len() == row_major(r as int, cols as int).len(),
            forall|i: int|
                0 <= i < ranked@.len() ==> (#[trigger] ranked@[i]).position == row_major(r as int, cols as int)[i]
                    && ranked@[i].numerator == 1 && ranked@[i].denominator == total,
        decreases rows - r,
    {
        let mut c: usize = 0;
        while c < cols
            invariant
                rows == board.num_rows(),
                cols == board.num_cols(),
                total == rows * cols,
                r < rows,
                c <= cols,
                ranked@.len() == row_major(r as int, cols as int).len() + c,
                forall|i: int|
                    0 <= i < ranked@.len() ==> (#[trigger] ranked@[i]).position == (row_major(
                        r as int,
                        cols as int,
                    ) + row_cells(r as int, cols as int))[i] && ranked@[i].numerator == 1
                        && ranked@[i].denominator == total,
            decreases cols - c,
        {
            ranked.push(PositionBombProbability::new(Position::new(r, c), 1, total));
            c = c + 1;
        }
        assert(row_major(r + 1, cols as int) == row_major(r as int, cols as int) + row_cells(r as int, cols as int));
        r = r + 1;
    }
    proof {
        lemma_row_major(rows as int, cols as int);
        let all = row_major(rows as int, cols as int);
        assert forall|i: int, j: int|
            0 <= i < ranked@.len() && 0 <= j < ranked@.len() && i != j implies (#[trigger] ranked@[i]).position
                != (#[trigger] ranked@[j]).position by {
            assert(all[i] != all[j]);
        }
        assert forall|p: Position| #[trigger] board.on_board(p) implies exists|i: int|
            0 <= i < ranked@.len() && (#[trigger] ranked@[i]).position == p by {
            assert(all.contains(p));
            let k = choose|k: int| 0 <= k < all.len() && all[k] == p;
            assert(ranked@[k].position == p);
        }
    }
    ranked
}

} // verus!
