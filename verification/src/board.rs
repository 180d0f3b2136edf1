//! The board: one grid configuration of lit/unlit cells, with the toggle
//! transition, the goal test, move enumeration and a textual rendering.

use vstd::prelude::*;

verus! {

/// Errors a board operation can raise.
#[derive(Debug, Clone, PartialEq, Eq)]
pub enum PuzzleError {
    /// Construction was asked for a grid with zero rows or zero columns,
    /// or for a ragged (non-rectangular) grid.
    InvalidDimensions,
    /// A move named a cell outside the grid.
    OutOfBounds { row: usize, column: usize },
}

/// Whether a move at `(r, c)` flips the cell `(i, j)`: the targeted cell
/// itself and its orthogonal neighbours, where they exist.
pub open spec fn flips(i: int, j: int, r: int, c: int) -> bool {
    ||| (i == r && j == c)
    ||| (i == r && (j + 1 == c || j == c + 1))
    ||| (j == c && (i + 1 == r || i == r + 1))
}

/// The grid after a move at `(r, c)`: every flipped cell is negated,
/// every other cell keeps its value.
pub open spec fn toggle_grid(g: Seq<Seq<bool>>, r: int, c: int) -> Seq<Seq<bool>> {
    Seq::new(
        g.len(),
        |i: int|
            Seq::new(
                g[i].len(),
                |j: int| if flips(i, j, r, c) {
                    !g[i][j]
                } else {
                    g[i][j]
                },
            ),
    )
}

/// The goal: every cell of the grid is lit.
pub open spec fn is_goal_grid(g: Seq<Seq<bool>>) -> bool {
    forall|i: int, j: int| 0 <= i < g.len() && 0 <= j < g[i].len() ==> g[i][j]
}

/// The grid has exactly `rows` rows of exactly `cols` cells each.
pub open spec fn grid_dims(g: Seq<Seq<bool>>, rows: int, cols: int) -> bool {
    &&& g.len() == rows
    &&& forall|i: int| 0 <= i < g.len() ==> (#[trigger] g[i]).len() == cols
}

/// The grid a sequence of cell rows stands for.
pub open spec fn grid_of_rows(v: Seq<Vec<bool>>) -> Seq<Seq<bool>> {
    Seq::new(v.len(), |i: int| v[i]@)
}

/// One Lights Out configuration: `rows` by `columns` cells, each lit
/// (`true`) or unlit (`false`).
#[derive(Debug, Clone, PartialEq, Eq, Hash)]
pub struct LightsOutPuzzle {
    pub board: Vec<Vec<bool>>,
    pub rows: usize,
    pub columns: usize,
}

impl View for LightsOutPuzzle {
    type V = Seq<Seq<bool>>;

    open spec fn view(&self) -> Seq<Seq<bool>> {
        grid_of_rows(self.board@)
    }
}

impl LightsOutPuzzle {
    /// Both dimensions are positive and the stored grid matches them.
    pub open spec fn well_formed(&self) -> bool {
        &&& self.rows > 0
        &&& self.columns > 0
        &&& grid_dims(self@, self.rows as int, self.columns as int)
    }

    /// A board of the given dimensions with every cell unlit, or
    /// `InvalidDimensions` when either dimension is zero.
    pub fn new(rows: usize, columns: usize) -> (r: Result<LightsOutPuzzle, PuzzleError>)
        ensures
            r is Err <==> (rows == 0 || columns == 0),
            r is Err ==> r == Err::<LightsOutPuzzle, PuzzleError>(PuzzleError::InvalidDimensions),
            r matches Ok(b) ==> {
                &&& b.well_formed()
                &&& b.rows == rows
                &&& b.columns == columns
                &&& forall|i: int, j: int| 0 <= i < rows && 0 <= j < columns ==> !(#[trigger] b@[i][j])
            },
    {
        if rows == 0 || columns == 0 {
            return Err(PuzzleError::InvalidDimensions);
        }
        let mut grid: Vec<Vec<bool>> = Vec::new();
        let mut i: usize = 0;
        while i < rows
            invariant
                i <= rows,
                grid@.len() == i,
                forall|k: int| 0 <= k < i ==> (#[trigger] grid@[k])@.len() == columns,
                forall|k: int, l: int| 0 <= k < i && 0 <= l < columns ==> !(#[trigger] grid@[k]@[l]),
            decreases rows - i,
        {
            let mut row: Vec<bool> = Vec::new();
            let mut j: usize = 0;
            while j < columns
                invariant
                    j <= columns,
                    row@.len() == j,
                    forall|l: int| 0 <= l < j ==> !(#[trigger] row@[l]),
                decreases columns - j,
            {
                row.push(false);
                j = j + 1;
            }
            grid.push(row);
            i = i + 1;
        }
        let b = LightsOutPuzzle { board: grid, rows, columns };
        Ok(b)
    }

    /// A board holding the given cells, or `InvalidDimensions` when the
    /// grid is empty, has an empty first row, or is ragged.
    pub fn from_cells(cells: Vec<Vec<bool>>) -> (r: Result<LightsOutPuzzle, PuzzleError>)
        ensures
            r is Ok <==> {
                &&& cells@.len() > 0
                &&& cells@[0]@.len() > 0
                &&& forall|i: int| 0 <= i < cells@.len() ==> (#[trigger] cells@[i])@.len() == cells@[0]@.len()
            },
            r is Err ==> r == Err::<LightsOutPuzzle, PuzzleError>(PuzzleError::InvalidDimensions),
            r matches Ok(b) ==> {
                &&& b.well_formed()
                &&& b.rows == cells@.len()
                &&& b.columns == cells@[0]@.len()
                &&& b@ == grid_of_rows(cells@)
            },
    {
        if cells.len() == 0 {
            return Err(PuzzleError::InvalidDimensions);
        }
        let columns = cells[0].len();
        if columns == 0 {
            return Err(PuzzleError::InvalidDimensions);
        }
        let rows = cells.len();
        let mut i: usize = 1;
        while i < rows
            invariant
                1 <= i <= rows,
                rows == cells@.len(),
                columns == cells@[0]@.len(),
                forall|k: int| 0 <= k < i ==> (#[trigger] cells@[k])@.len() == columns,
            decreases rows - i,
        {
            if cells[i].len() != columns {
                return Err(PuzzleError::InvalidDimensions);
            }
            i = i + 1;
        }
        let b = LightsOutPuzzle { board: cells, rows, columns };
        Ok(b)
    }

    /// The stored grid of cells, row by row.
    pub fn get_board(&self) -> (r: &Vec<Vec<bool>>)
        ensures
            grid_of_rows(r@) == self@,
    {
        &self.board
    }

    /// The board after a toggle at an in-bounds cell: a new value, the
    /// receiver is untouched.
    pub fn toggled(&self, row: usize, col: usize) -> (r: LightsOutPuzzle)
        requires
            self.well_formed(),
            row < self.rows,
            col < self.columns,
        ensures
            r.well_formed(),
            r.rows == self.rows,
            r.columns == self.columns,
            r@ == toggle_grid(self@, row as int, col as int),
    {
        let ghost tg = toggle_grid(self@, row as int, col as int);
        let mut grid: Vec<Vec<bool>> = Vec::new();
        let mut i: usize = 0;
        while i < self.rows
            invariant
                self.well_formed(),
                row < self.rows,
                col < self.columns,
                tg == toggle_grid(self@, row as int, col as int),
                i <= self.rows,
                grid@.len() == i,
                forall|k: int| 0 <= k < i ==> (#[trigger] grid@[k])@ == tg[k],
            decreases self.rows - i,
        {
            let mut newrow: Vec<bool> = Vec::new();
            let mut j: usize = 0;
            while j < self.columns
                invariant
                    self.well_formed(),
                    row < self.rows,
                    col < self.columns,
                    tg == toggle_grid(self@, row as int, col as int),
                    i < self.rows,
                    j <= self.columns,
                    newrow@.len() == j,
                    forall|l: int| 0 <= l < j ==> #[trigger] newrow@[l] == tg[i as int][l],
                decreases self.columns - j,
            {
                proof {
                    assert(self@.len() == self.board@.len());
                    assert(self@[i as int] == self.board@[i as int]@);
                }
                let cell = self.board[i][j];
                let f = (i == row && j == col) || (i == row && (j + 1 == col || j == col + 1)) || (
                j == col && (i + 1 == row || i == row + 1));
                assert(f == flips(i as int, j as int, row as int, col as int));
                newrow.push(if f { !cell } else { cell });
                j = j + 1;
            }
            assert(newrow@ =~= tg[i as int]);
            grid.push(newrow);
            i = i + 1;
        }
        let r = LightsOutPuzzle { board: grid, rows: self.rows, columns: self.columns };
        assert(r@ =~~= tg);
        r
    }

    /// Applies the move at `coord`, or `OutOfBounds` when the coordinate
    /// leaves the grid.  On success the result is a new board equal to the
    /// receiver except that the targeted cell and its existing orthogonal
    /// neighbours are flipped.
    pub fn make_move(&self, coord: (usize, usize)) -> (r: Result<LightsOutPuzzle, PuzzleError>)
        requires
            self.well_formed(),
        ensures
            r is Err <==> (coord.0 >= self.rows || coord.1 >= self.columns),
            r is Err ==> r == Err::<LightsOutPuzzle, PuzzleError>(
                (PuzzleError::OutOfBounds { row: coord.0, column: coord.1 }),
            ),
            r matches Ok(b) ==> {
                &&& b.well_formed()
                &&& b.rows == self.rows
                &&& b.columns == self.columns
                &&& b@ == toggle_grid(self@, coord.0 as int, coord.1 as int)
            },
    {
        if coord.0 >= self.rows || coord.1 >= self.columns {
            return Err(PuzzleError::OutOfBounds { row: coord.0, column: coord.1 });
        }
        Ok(self.toggled(coord.0, coord.1))
    }

    /// Whether the board is the goal configuration: every cell lit.
    pub fn solved(&self) -> (r: bool)
        ensures
            r == is_goal_grid(self@),
    {
        let mut i: usize = 0;
        while i < self.board.len()
            invariant
                i <= self.board@.len(),
                forall|k: int, l: int| 0 <= k < i && 0 <= l < self@[k].len() ==> self@[k][l],
            decreases self.board@.len() - i,
        {
            let row_len = self.board[i].len();
            let mut j: usize = 0;
            while j < row_len
                invariant
                    i < self.board@.len(),
                    row_len == self@[i as int].len(),
                    j <= row_len,
                    forall|k: int, l: int| 0 <= k < i && 0 <= l < self@[k].len() ==> self@[k][l],
                    forall|l: int| 0 <= l < j ==> self@[i as int][l],
                decreases row_len - j,
            {
                if !self.board[i][j] {
                    assert(!self@[i as int][j as int]);
                    return false;
                }
                j = j + 1;
            }
            i = i + 1;
        }
        true
    }

    /// Every legal move, in row-major order: first all moves of row zero,
    /// left to right, then row one, and so on.
    pub fn successors(&self) -> (r: Vec<(usize, usize)>)
        ensures
            r@.len() == self.rows * self.columns,
            forall|k: int| 0 <= k < r@.len() ==> #[trigger] r@[k] == (
            ((k / (self.columns as int)) as usize, (k % (self.columns as int)) as usize)),
    {
        let mut r: Vec<(usize, usize)> = Vec::new();
        if self.columns == 0 {
            return r;
        }
        let mut i: usize = 0;
        while i < self.rows
            invariant
                self.columns > 0,
                i <= self.rows,
                r@.len() == i * self.columns,
                forall|k: int| 0 <= k < r@.len() ==> #[trigger] r@[k] == (
                ((k / (self.columns as int)) as usize, (k % (self.columns as int)) as usize)),
            decreases self.rows - i,
        {
            let mut j: usize = 0;
            while j < self.columns
                invariant
                    self.columns > 0,
                    i < self.rows,
                    j <= self.columns,
                    r@.len() == i * self.columns + j,
                    forall|k: int| 0 <= k < r@.len() ==> #[trigger] r@[k] == (
                    ((k / (self.columns as int)) as usize, (k % (self.columns as int)) as usize)),
                decreases self.columns - j,
            {
                proof {
                    vstd::arithmetic::div_mod::lemma_fundamental_div_mod_converse(
                        r@.len() as int,
                        self.columns as int,
                        i as int,
                        j as int,
                    );
                }
                r.push((i, j));
                j = j + 1;
            }
            proof {
                assert((i + 1) * self.columns == i * self.columns + self.columns) by (nonlinear_arith);
            }
            i = i + 1;
        }
        r
    }

    /// A new board with the same cells: a deep copy of the grid.
    pub fn copy_board(&self) -> (r: LightsOutPuzzle)
        ensures
            r@ == self@,
            r.rows == self.rows,
            r.columns == self.columns,
    {
        let mut grid: Vec<Vec<bool>> = Vec::new();
        let mut i: usize = 0;
        while i < self.board.len()
            invariant
                i <= self.board@.len(),
                grid@.len() == i,
                forall|k: int| 0 <= k < i ==> (#[trigger] grid@[k])@ == self@[k],
            decreases self.board@.len() - i,
        {
            let src_row = &self.board[i];
            let mut row: Vec<bool> = Vec::new();
            let mut j: usize = 0;
            while j < src_row.len()
                invariant
                    j <= src_row@.len(),
                    row@.len() == j,
                    forall|l: int| 0 <= l < j ==> #[trigger] row@[l] == src_row@[l],
                decreases src_row@.len() - j,
            {
                row.push(src_row[j]);
                j = j + 1;
            }
            assert(row@ =~= self@[i as int]);
            grid.push(row);
            i = i + 1;
        }
        let r = LightsOutPuzzle { board: grid, rows: self.rows, columns: self.columns };
        assert(r@ =~~= self@);
        r
    }

    /// A textual picture of the grid: one line per row, `'#'` for a lit
    /// cell, `'.'` for an unlit one, `'\n'` closing each line, so every
    /// cell is rendered exactly once, row by row.
    pub fn render(&self) -> (r: Vec<char>)
        requires
            self.well_formed(),
            self.columns < usize::MAX,
        ensures
            r@.len() == self.rows * (self.columns + 1),
            forall|k: int| 0 <= k < r@.len() ==> #[trigger] r@[k] == (
            if k % (self.columns + 1) as int == self.columns as int {
                '\n'
            } else {
                if self@[k / (self.columns + 1) as int][k % (self.columns + 1) as int] {
                    '#'
                } else {
                    '.'
                }
            }),
    {
        let width = self.columns + 1;
        let mut r: Vec<char> = Vec::new();
        let mut i: usize = 0;
        while i < self.rows
            invariant
                self.well_formed(),
                width == self.columns + 1,
                i <= self.rows,
                r@.len() == i * width,
                forall|k: int| 0 <= k < r@.len() ==> #[trigger] r@[k] == (
                if k % (self.columns + 1) as int == self.columns as int {
                    '\n'
                } else {
                    if self@[k / (self.columns + 1) as int][k % (self.columns + 1) as int] {
                        '#'
                    } else {
                        '.'
                    }
                }),
            decreases self.rows - i,
        {
            let mut j: usize = 0;
            while j < width
                invariant
                    self.well_formed(),
                    width == self.columns + 1,
                    i < self.rows,
                    j <= width,
                    r@.len() == i * width + j,
                    forall|k: int| 0 <= k < r@.len() ==> #[trigger] r@[k] == (
                    if k % (self.columns + 1) as int == self.columns as int {
                        '\n'
                    } else {
                        if self@[k / (self.columns + 1) as int][k % (self.columns + 1) as int] {
                            '#'
                        } else {
                            '.'
                        }
                    }),
                decreases width - j,
            {
                proof {
                    vstd::arithmetic::div_mod::lemma_fundamental_div_mod_converse(
                        r@.len() as int,
                        width as int,
                        i as int,
                        j as int,
                    );
                    assert(self@.len() == self.board@.len());
                    assert(self@[i as int] == self.board@[i as int]@);
                }
                if j == self.columns {
                    r.push('\n');
                } else {
                    let c = if self.board[i][j] {
                        '#'
                    } else {
                        '.'
                    };
                    r.push(c);
                }
                j = j + 1;
            }
            proof {
                assert((i + 1) * width == i * width + width) by (nonlinear_arith);
            }
            i = i + 1;
        }
        r
    }
}

/// Applying the same move twice returns a board to its original
/// configuration: with `b1` the board `make_move` produces from `b` and
/// `b2` the board it produces from `b1`, `b2` holds the cells of `b`.
pub proof fn lemma_make_move_self_inverse(
    b: LightsOutPuzzle,
    b1: LightsOutPuzzle,
    b2: LightsOutPuzzle,
    row: usize,
    col: usize,
)
    requires
        b1@ == toggle_grid(b@, row as int, col as int),
        b2@ == toggle_grid(b1@, row as int, col as int),
    ensures
        b2@ == b@,
{
    lemma_toggle_self_inverse(b@, row as int, col as int);
}

/// The law that makes the search graph undirected: a toggle is its own
/// inverse, so applying the same move twice to any grid restores it.
pub proof fn lemma_toggle_self_inverse(g: Seq<Seq<bool>>, r: int, c: int)
    ensures
        toggle_grid(toggle_grid(g, r, c), r, c) == g,
{
    let t1 = toggle_grid(g, r, c);
    let t2 = toggle_grid(t1, r, c);
    assert forall|i: int| 0 <= i < g.len() implies #[trigger] t2[i] =~= g[i] by {
        assert(t1[i].len() == g[i].len());
        assert forall|j: int| 0 <= j < g[i].len() implies #[trigger] t2[i][j] == g[i][j] by {
            assert(t1[i][j] == (if flips(i, j, r, c) {
                !g[i][j]
            } else {
                g[i][j]
            }));
        }
    }
    assert(t2 =~~= g);
}

} // verus!

