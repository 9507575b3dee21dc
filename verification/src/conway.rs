use vstd::prelude::*;

verus! {

/// The eight relative positions around a cell, in scanning order.
pub open spec fn neighbour_offsets() -> Seq<(int, int)> {
    seq![(-1, -1), (-1, 0), (-1, 1), (0, -1), (0, 1), (1, -1), (1, 0), (1, 1)]
}

/// The in-bounds neighbours of `(row, col)` from offset `idx` on.
pub open spec fn neighbours_from(
    grid_rows: int,
    grid_cols: int,
    row: int,
    col: int,
    idx: int,
) -> Seq<(usize, usize)>
    decreases 8 - idx,
{
    if idx < 0 || idx >= 8 {
        Seq::empty()
    } else {
        let d = neighbour_offsets()[idx];
        let nr = row + d.0;
        let nc = col + d.1;
        let rest = neighbours_from(grid_rows, grid_cols, row, col, idx + 1);
        if 0 <= nr < grid_rows && 0 <= nc < grid_cols {
            seq![(nr as usize, nc as usize)] + rest
        } else {
            rest
        }
    }
}

/// Walks the in-bounds neighbours of one grid cell.
pub struct Neighbour {
    grid_rows: usize,
    grid_cols: usize,
    row: usize,
    col: usize,
    idx: usize,
}

impl Neighbour {
    /// The neighbours not yet handed out.
    pub closed spec fn remaining(self) -> Seq<(usize, usize)> {
        neighbours_from(
            self.grid_rows as int,
            self.grid_cols as int,
            self.row as int,
            self.col as int,
            self.idx as int,
        )
    }

    /// The row count of the walked grid.
    pub closed spec fn spec_grid_rows(self) -> nat {
        self.grid_rows as nat
    }

    /// The column count of the walked grid.
    pub closed spec fn spec_grid_cols(self) -> nat {
        self.grid_cols as nat
    }

    #[verifier::type_invariant]
    closed spec fn type_inv(self) -> bool {
        self.row < self.grid_rows && self.col < self.grid_cols && self.idx <= 8
    }

    /// Starts walking the neighbours of `(row, col)`.
    pub fn new(grid_rows: usize, grid_cols: usize, row: usize, col: usize) -> (r: Self)
        requires
            row < grid_rows,
            col < grid_cols,
        ensures
            r.spec_grid_rows() == grid_rows,
            r.spec_grid_cols() == grid_cols,
            r.remaining() == neighbours_from(
                grid_rows as int,
                grid_cols as int,
                row as int,
                col as int,
                0,
            ),
    {
        Neighbour { grid_rows, grid_cols, row, col, idx: 0 }
    }

    /// The next in-bounds neighbour, row first, or nothing when all
    /// eight positions have been considered.
    pub fn next(&mut self) -> (r: Option<(usize, usize)>)
        ensures
            final(self).spec_grid_rows() == old(self).spec_grid_rows(),
            final(self).spec_grid_cols() == old(self).spec_grid_cols(),
            match r {
                Some(p) => {
                    &&& old(self).remaining().len() > 0
                    &&& p == old(self).remaining()[0]
                    &&& final(self).remaining() == old(self).remaining().drop_first()
                    &&& (p.0 as nat) < old(self).spec_grid_rows()
                    &&& (p.1 as nat) < old(self).spec_grid_cols()
                },
                None => {
                    &&& old(self).remaining().len() == 0
                    &&& final(self).remaining().len() == 0
                },
            },
    {
        proof {
            use_type_invariant(&*self);
        }
        while self.idx < 8
            invariant
                self.row < self.grid_rows,
                self.col < self.grid_cols,
                self.idx <= 8,
                self.grid_rows == old(self).grid_rows,
                self.grid_cols == old(self).grid_cols,
                self.row == old(self).row,
                self.col == old(self).col,
                self.remaining() == old(self).remaining(),
            decreases 8 - self.idx,
        {
            let row = self.row;
            let col = self.col;
            let candidate: Option<(usize, usize)> = if self.idx == 0 {
                if row >= 1 && col >= 1 {
                    Some((row - 1, col - 1))
                } else {
                    None
                }
            } else if self.idx == 1 {
                if row >= 1 {
                    Some((row - 1, col))
                } else {
                    None
                }
            } else if self.idx == 2 {
                if row >= 1 && col + 1 < self.grid_cols {
                    Some((row - 1, col + 1))
                } else {
                    None
                }
            } else if self.idx == 3 {
                if col >= 1 {
                    Some((row, col - 1))
                } else {
                    None
                }
            } else if self.idx == 4 {
                if col + 1 < self.grid_cols {
                    Some((row, col + 1))
                } else {
                    None
                }
            } else if self.idx == 5 {
                if row + 1 < self.grid_rows && col >= 1 {
                    Some((row + 1, col - 1))
                } else {
                    None
                }
            } else if self.idx == 6 {
                if row + 1 < self.grid_rows {
                    Some((row + 1, col))
                } else {
                    None
                }
            } else {
                if row + 1 < self.grid_rows && col + 1 < self.grid_cols {
                    Some((row + 1, col + 1))
                } else {
                    None
                }
            };
            self.idx = self.idx + 1;
            match candidate {
                Some(p) => {
                    proof {
                        assert(old(self).remaining() == seq![p] + self.remaining());
                        assert((seq![p] + self.remaining()).drop_first() =~= self.remaining());
                    }
                    return Some(p);
                },
                None => {},
            }
        }
        None
    }
}

/// One cell of the board.
#[derive(Clone, Copy, Debug, PartialEq, Eq, Structural)]
pub enum Cell {
    Dead,
    Alive,
}

impl Default for Cell {
    fn default() -> (r: Self)
        ensures
            r == Cell::Dead,
    {
        Cell::Dead
    }
}

/// A rectangular board stored row by row.
#[derive(Clone, PartialEq, Eq)]
pub struct Grid<T> {
    rows: usize,
    cols: usize,
    grid: Vec<T>,
}

impl<T: Copy> Grid<T> {
    /// The number of rows.
    pub closed spec fn spec_rows(self) -> nat {
        self.rows as nat
    }

    /// The number of columns.
    pub closed spec fn spec_cols(self) -> nat {
        self.cols as nat
    }

    /// The cells, row by row.
    pub closed spec fn spec_grid(self) -> Seq<T> {
        self.grid@
    }

    /// The cells fill the rectangle exactly.
    pub open spec fn wf(self) -> bool {
        &&& self.spec_grid().len() == self.spec_rows() * self.spec_cols()
        &&& self.spec_rows() * self.spec_cols() <= usize::MAX
    }

    /// The flat index of `(row, col)`.
    pub open spec fn spec_index(self, row: int, col: int) -> int {
        row * self.spec_cols() + col
    }

    /// The cell at `(row, col)`.
    pub open spec fn spec_at(self, row: int, col: int) -> T {
        self.spec_grid()[self.spec_index(row, col)]
    }

    /// A board with every cell set to the type's default value.
    pub fn new(rows: usize, cols: usize) -> (r: Self) where T: Default
        requires
            rows * cols <= usize::MAX,
        ensures
            r.wf(),
            r.spec_rows() == rows,
            r.spec_cols() == cols,
            forall|i: int, j: int|
                #![trigger r.spec_grid()[i], r.spec_grid()[j]]
                0 <= i < rows * cols && 0 <= j < rows * cols ==> r.spec_grid()[i]
                    == r.spec_grid()[j],
    {
        let value = T::default();
        Self::filled(value, rows, cols)
    }

    /// A board with every cell set to `value`.
    pub fn filled(value: T, rows: usize, cols: usize) -> (r: Self)
        requires
            rows * cols <= usize::MAX,
        ensures
            r.wf(),
            r.spec_rows() == rows,
            r.spec_cols() == cols,
            r.spec_grid() == Seq::new((rows * cols) as nat, |i: int| value),
    {
        proof {
            assert(rows * cols >= 0) by (nonlinear_arith);
        }
        let total = rows * cols;
        let mut grid: Vec<T> = Vec::new();
        while grid.len() < total
            invariant
                grid.len() <= total,
                grid@ == Seq::new(grid.len() as nat, |i: int| value),
            decreases total - grid.len(),
        {
            grid.push(value);
            proof {
                assert(grid@ =~= Seq::new(grid.len() as nat, |i: int| value));
            }
        }
        Grid { rows, cols, grid }
    }

    /// A board built from a row-by-row slice of cells.
    pub fn from_slice(grid: &[T], rows: usize, cols: usize) -> (r: Self)
        requires
            grid@.len() == rows * cols,
        ensures
            r.wf(),
            r.spec_rows() == rows,
            r.spec_cols() == cols,
            r.spec_grid() == grid@,
    {
        let total = grid.len();
        let mut cells: Vec<T> = Vec::new();
        let mut i: usize = 0;
        while i < total
            invariant
                total == grid@.len(),
                i <= grid@.len(),
                cells@ == grid@.take(i as int),
            decreases grid@.len() - i,
        {
            cells.push(grid[i]);
            proof {
                assert(grid@.take(i as int).push(grid@[i as int]) =~= grid@.take(i + 1));
            }
            i = i + 1;
        }
        proof {
            assert(grid@.take(grid@.len() as int) =~= grid@);
        }
        Grid { rows, cols, grid: cells }
    }

    /// The numbers of rows and columns.
    pub fn size(&self) -> (r: (usize, usize))
        ensures
            r.0 == self.spec_rows(),
            r.1 == self.spec_cols(),
    {
        (self.rows, self.cols)
    }

    /// The cell at `(row, col)`.
    pub fn get(&self, row: usize, col: usize) -> (r: &T)
        requires
            self.wf(),
            row < self.spec_rows(),
            col < self.spec_cols(),
        ensures
            *r == self.spec_at(row as int, col as int),
    {
        proof {
            lemma_grid_index_in_range(
                self.spec_rows() as int,
                self.spec_cols() as int,
                row as int,
                col as int,
            );
        }
        let i = row * self.cols + col;
        &self.grid[i]
    }

    /// Replaces the cell at `(row, col)`.
    pub fn set(&mut self, value: T, row: usize, col: usize)
        requires
            old(self).wf(),
            row < old(self).spec_rows(),
            col < old(self).spec_cols(),
        ensures
            final(self).wf(),
            final(self).spec_rows() == old(self).spec_rows(),
            final(self).spec_cols() == old(self).spec_cols(),
            final(self).spec_grid() == old(self).spec_grid().update(
                old(self).spec_index(row as int, col as int),
                value,
            ),
    {
        proof {
            lemma_grid_index_in_range(
                self.spec_rows() as int,
                self.spec_cols() as int,
                row as int,
                col as int,
            );
        }
        let i = row * self.cols + col;
        self.grid.set(i, value);
    }

    /// Walks the in-bounds neighbours of `(row, col)`.
    pub fn neighbours(&self, row: usize, col: usize) -> (r: Neighbour)
        requires
            row < self.spec_rows(),
            col < self.spec_cols(),
        ensures
            r.spec_grid_rows() == self.spec_rows(),
            r.spec_grid_cols() == self.spec_cols(),
            r.remaining() == neighbours_from(
                self.spec_rows() as int,
                self.spec_cols() as int,
                row as int,
                col as int,
                0,
            ),
    {
        Neighbour::new(self.rows, self.cols, row, col)
    }
}

/// A flat grid index lies inside the cell vector.
proof fn lemma_grid_index_in_range(rows: int, cols: int, row: int, col: int)
    requires
        0 <= row < rows,
        0 <= col < cols,
    ensures
        0 <= row * cols + col < rows * cols,
{
    assert(row * cols + col < rows * cols) by (nonlinear_arith)
        requires 0 <= row < rows, 0 <= col < cols,
    ;
    assert(row * cols >= 0) by (nonlinear_arith)
        requires row >= 0, cols >= 0,
    ;
}

/// The number of live cells among the listed positions.
pub open spec fn count_alive(g: Grid<Cell>, pts: Seq<(usize, usize)>) -> nat
    decreases pts.len(),
{
    if pts.len() == 0 {
        0
    } else {
        (if g.spec_at(pts[0].0 as int, pts[0].1 as int) == Cell::Alive {
            1nat
        } else {
            0nat
        }) + count_alive(g, pts.drop_first())
    }
}

/// No more cells are alive than are listed.
proof fn lemma_count_alive_le(g: Grid<Cell>, pts: Seq<(usize, usize)>)
    ensures
        count_alive(g, pts) <= pts.len(),
    decreases pts.len(),
{
    if pts.len() > 0 {
        lemma_count_alive_le(g, pts.drop_first());
    }
}

/// The number of live neighbours of `(row, col)`.
pub open spec fn spec_alive_neighbours(g: Grid<Cell>, row: int, col: int) -> nat {
    count_alive(
        g,
        neighbours_from(g.spec_rows() as int, g.spec_cols() as int, row, col, 0),
    )
}

/// The cell `(row, col)` holds after one step: a live cell survives
/// with two or three live neighbours, and a dead cell comes alive
/// with exactly three.
pub open spec fn spec_next_cell(g: Grid<Cell>, row: int, col: int) -> Cell {
    let n = spec_alive_neighbours(g, row, col);
    match g.spec_at(row, col) {
        Cell::Alive => if 2 <= n <= 3 {
            Cell::Alive
        } else {
            Cell::Dead
        },
        Cell::Dead => if n == 3 {
            Cell::Alive
        } else {
            Cell::Dead
        },
    }
}

/// The game board together with the change mask of the step in
/// progress.
#[derive(PartialEq, Eq)]
pub struct GameOfLife {
    grid: Grid<Cell>,
    changes: Grid<bool>,
}

impl GameOfLife {
    /// The current board.
    pub closed spec fn spec_board(self) -> Grid<Cell> {
        self.grid
    }

    /// The change mask of the step in progress.
    pub closed spec fn spec_changes(self) -> Grid<bool> {
        self.changes
    }

    /// The board is rectangular and no step is in progress.
    pub open spec fn wf(self) -> bool {
        &&& self.spec_board().wf()
        &&& self.spec_changes().wf()
        &&& self.spec_changes().spec_rows() == self.spec_board().spec_rows()
        &&& self.spec_changes().spec_cols() == self.spec_board().spec_cols()
        &&& self.spec_board().spec_rows() * self.spec_board().spec_cols() <= usize::MAX
        &&& forall|i: int|
            0 <= i < self.spec_changes().spec_grid().len()
                ==> !(#[trigger] self.spec_changes().spec_grid()[i])
    }

    /// Starts a game from a board.
    pub fn from_grid(grid: Grid<Cell>) -> (r: Self)
        requires
            grid.wf(),
            grid.spec_rows() * grid.spec_cols() <= usize::MAX,
        ensures
            r.wf(),
            r.spec_board() == grid,
    {
        let (rows, cols) = grid.size();
        let changes = Grid::<bool>::filled(false, rows, cols);
        GameOfLife { changes, grid }
    }

    /// The current board.
    pub fn get_grid(&self) -> (r: &Grid<Cell>)
        ensures
            *r == self.spec_board(),
    {
        &self.grid
    }

    /// Counts the live neighbours of `(row, col)`.
    fn get_n_alive_neighbours(&self, row: usize, col: usize) -> (r: usize)
        requires
            self.spec_board().wf(),
            row < self.spec_board().spec_rows(),
            col < self.spec_board().spec_cols(),
        ensures
            r == spec_alive_neighbours(self.spec_board(), row as int, col as int),
    {
        let mut walker = self.grid.neighbours(row, col);
        let mut count: usize = 0;
        proof {
            lemma_neighbours_len(
                self.spec_board().spec_rows() as int,
                self.spec_board().spec_cols() as int,
                row as int,
                col as int,
                0,
            );
            lemma_count_alive_le(self.spec_board(), walker.remaining());
        }
        loop
            invariant
                self.spec_board().wf(),
                row < self.spec_board().spec_rows(),
                col < self.spec_board().spec_cols(),
                walker.spec_grid_rows() == self.spec_board().spec_rows(),
                walker.spec_grid_cols() == self.spec_board().spec_cols(),
                count + count_alive(self.spec_board(), walker.remaining())
                    == spec_alive_neighbours(self.spec_board(), row as int, col as int),
                spec_alive_neighbours(self.spec_board(), row as int, col as int) <= 8,
                count <= 8,
                walker.remaining().len() <= 8,
            decreases walker.remaining().len(),
        {
            let ghost prev = walker.remaining();
            match walker.next() {
                Some(p) => {
                    proof {
                        lemma_count_alive_le(self.spec_board(), walker.remaining());
                        assert(count_alive(self.spec_board(), prev) == (if self.spec_board().spec_at(
                            p.0 as int,
                            p.1 as int,
                        ) == Cell::Alive {
                            1nat
                        } else {
                            0nat
                        }) + count_alive(self.spec_board(), walker.remaining()));
                    }
                    if *self.grid.get(p.0, p.1) == Cell::Alive {
                        count = count + 1;
                    }
                },
                None => {
                    return count;
                },
            }
        }
    }

    /// Marks `(row, col)` in the change mask when its cell flips in
    /// the next step.
    fn detect_changes_in_cell(&mut self, row: usize, col: usize)
        requires
            old(self).spec_board().wf(),
            old(self).spec_changes().wf(),
            old(self).spec_changes().spec_rows() == old(self).spec_board().spec_rows(),
            old(self).spec_changes().spec_cols() == old(self).spec_board().spec_cols(),
            old(self).spec_board().spec_rows() * old(self).spec_board().spec_cols()
                <= usize::MAX,
            row < old(self).spec_board().spec_rows(),
            col < old(self).spec_board().spec_cols(),
        ensures
            final(self).spec_board() == old(self).spec_board(),
            final(self).spec_changes().wf(),
            final(self).spec_changes().spec_rows() == old(self).spec_changes().spec_rows(),
            final(self).spec_changes().spec_cols() == old(self).spec_changes().spec_cols(),
            final(self).spec_changes().spec_grid() == old(self).spec_changes().spec_grid().update(
                old(self).spec_changes().spec_index(row as int, col as int),
                old(self).spec_changes().spec_at(row as int, col as int) || spec_next_cell(
                    old(self).spec_board(),
                    row as int,
                    col as int,
                ) != old(self).spec_board().spec_at(row as int, col as int),
            ),
    {
        let ghost pre = self.spec_changes();
        let mut flips = false;
        let n_alive_neighbours = self.get_n_alive_neighbours(row, col);
        match *self.grid.get(row, col) {
            Cell::Alive => {
                if !(2 <= n_alive_neighbours && n_alive_neighbours <= 3) {
                    flips = true;
                }
            },
            Cell::Dead => {
                if n_alive_neighbours == 3 {
                    flips = true;
                }
            },
        }
        if flips {
            self.changes.set(true, row, col);
        } else {
            proof {
                lemma_grid_index_in_range(
                    pre.spec_rows() as int,
                    pre.spec_cols() as int,
                    row as int,
                    col as int,
                );
                assert(pre.spec_grid().update(
                    pre.spec_index(row as int, col as int),
                    pre.spec_at(row as int, col as int),
                ) =~= pre.spec_grid());
            }
        }
    }
}

/// The neighbour list of a cell holds at most eight positions.
proof fn lemma_neighbours_len(grid_rows: int, grid_cols: int, row: int, col: int, idx: int)
    ensures
        neighbours_from(grid_rows, grid_cols, row, col, idx).len() <= 8 - idx || idx > 8,
    decreases 8 - idx,
{
    if 0 <= idx < 8 {
        lemma_neighbours_len(grid_rows, grid_cols, row, col, idx + 1);
    }
}



/// A flat grid index determines its row and column.
proof fn lemma_grid_index_injective(cols: int, r1: int, c1: int, r2: int, c2: int)
    requires
        cols > 0,
        0 <= c1 < cols,
        0 <= c2 < cols,
        0 <= r1,
        0 <= r2,
        r1 * cols + c1 == r2 * cols + c2,
    ensures
        r1 == r2 && c1 == c2,
{
    let x = r1 * cols + c1;
    vstd::arithmetic::div_mod::lemma_fundamental_div_mod_converse_div(x, cols, r1, c1);
    vstd::arithmetic::div_mod::lemma_fundamental_div_mod_converse_div(x, cols, r2, c2);
    vstd::arithmetic::div_mod::lemma_fundamental_div_mod_converse_mod(x, cols, r1, c1);
    vstd::arithmetic::div_mod::lemma_fundamental_div_mod_converse_mod(x, cols, r2, c2);
}

impl GameOfLife {
    /// Marks every cell that flips in the next step.
    #[verifier::rlimit(100)]
    fn detect_changes(&mut self)
        requires
            old(self).wf(),
        ensures
            final(self).spec_board() == old(self).spec_board(),
            final(self).spec_changes().wf(),
            final(self).spec_changes().spec_rows() == old(self).spec_changes().spec_rows(),
            final(self).spec_changes().spec_cols() == old(self).spec_changes().spec_cols(),
            forall|r: int, c: int|
                0 <= r < old(self).spec_board().spec_rows() && 0 <= c < old(
                    self,
                ).spec_board().spec_cols() ==> #[trigger] final(self).spec_changes().spec_at(r, c)
                    == (spec_next_cell(old(self).spec_board(), r, c) != old(
                    self,
                ).spec_board().spec_at(r, c)),
    {
        let (rows, cols) = self.grid.size();
        let ghost board = self.spec_board();
        proof {
            assert forall|r: int, c: int|
                0 <= r < rows && 0 <= c < cols implies #[trigger] self.spec_changes().spec_at(r, c)
                == false by {
                lemma_grid_index_in_range(rows as int, cols as int, r, c);
            }
        }
        let mut row: usize = 0;
        while row < rows
            invariant
                row <= rows,
                rows == board.spec_rows(),
                cols == board.spec_cols(),
                self.spec_board() == board,
                board.wf(),
                self.spec_changes().wf(),
                self.spec_changes().spec_rows() == rows,
                self.spec_changes().spec_cols() == cols,
                rows * cols <= usize::MAX,
                forall|r: int, c: int|
                    0 <= r < rows && 0 <= c < cols ==> #[trigger] self.spec_changes().spec_at(r, c)
                        == if r < row {
                        spec_next_cell(board, r, c) != board.spec_at(r, c)
                    } else {
                        false
                    },
            decreases rows - row,
        {
            let mut col: usize = 0;
            while col < cols
                invariant
                    row < rows,
                    col <= cols,
                    rows == board.spec_rows(),
                    cols == board.spec_cols(),
                    self.spec_board() == board,
                    board.wf(),
                    self.spec_changes().wf(),
                    self.spec_changes().spec_rows() == rows,
                    self.spec_changes().spec_cols() == cols,
                    rows * cols <= usize::MAX,
                    forall|r: int, c: int|
                        0 <= r < rows && 0 <= c < cols ==> #[trigger] self.spec_changes().spec_at(
                            r,
                            c,
                        ) == if r < row || (r == row && c < col) {
                            spec_next_cell(board, r, c) != board.spec_at(r, c)
                        } else {
                            false
                        },
                decreases cols - col,
            {
                let ghost pre = self.spec_changes();
                self.detect_changes_in_cell(row, col);
                proof {
                    assert forall|r: int, c: int|
                        0 <= r < rows && 0 <= c < cols implies #[trigger] self.spec_changes().spec_at(
                        r,
                        c,
                    ) == if r < row || (r == row && c < col + 1) {
                        spec_next_cell(board, r, c) != board.spec_at(r, c)
                    } else {
                        false
                    } by {
                        lemma_grid_index_in_range(rows as int, cols as int, r, c);
                        lemma_grid_index_in_range(rows as int, cols as int, row as int, col as int);
                        assert(pre.spec_at(r, c) == if r < row || (r == row && c < col) {
                            spec_next_cell(board, r, c) != board.spec_at(r, c)
                        } else {
                            false
                        });
                        assert(pre.spec_at(row as int, col as int) == false);
                        if r * (cols as int) + c == (row as int) * (cols as int) + col {
                            lemma_grid_index_injective(
                                cols as int,
                                r,
                                c,
                                row as int,
                                col as int,
                            );
                        }
                    }
                }
                col = col + 1;
            }
            row = row + 1;
        }
    }

    /// Applies the change mask: every marked cell flips, and the mask
    /// clears.
    #[verifier::rlimit(100)]
    fn apply_changes(&mut self)
        requires
            old(self).spec_board().wf(),
            old(self).spec_changes().wf(),
            old(self).spec_changes().spec_rows() == old(self).spec_board().spec_rows(),
            old(self).spec_changes().spec_cols() == old(self).spec_board().spec_cols(),
            old(self).spec_board().spec_rows() * old(self).spec_board().spec_cols()
                <= usize::MAX,
        ensures
            final(self).wf(),
            final(self).spec_board().spec_rows() == old(self).spec_board().spec_rows(),
            final(self).spec_board().spec_cols() == old(self).spec_board().spec_cols(),
            forall|r: int, c: int|
                0 <= r < old(self).spec_board().spec_rows() && 0 <= c < old(
                    self,
                ).spec_board().spec_cols() ==> #[trigger] final(self).spec_board().spec_at(r, c)
                    == if old(self).spec_changes().spec_at(r, c) {
                    flip_cell(old(self).spec_board().spec_at(r, c))
                } else {
                    old(self).spec_board().spec_at(r, c)
                },
    {
        let (rows, cols) = self.grid.size();
        let ghost board = self.spec_board();
        let ghost mask = self.spec_changes();
        let mut row: usize = 0;
        while row < rows
            invariant
                row <= rows,
                rows == board.spec_rows(),
                cols == board.spec_cols(),
                board.wf(),
                mask.wf(),
                mask.spec_rows() == rows,
                mask.spec_cols() == cols,
                rows * cols <= usize::MAX,
                self.spec_board().wf(),
                self.spec_board().spec_rows() == rows,
                self.spec_board().spec_cols() == cols,
                self.spec_changes().wf(),
                self.spec_changes().spec_rows() == rows,
                self.spec_changes().spec_cols() == cols,
                forall|r: int, c: int|
                    0 <= r < rows && 0 <= c < cols ==> #[trigger] self.spec_board().spec_at(r, c)
                        == if r < row && mask.spec_at(r, c) {
                        flip_cell(board.spec_at(r, c))
                    } else {
                        board.spec_at(r, c)
                    },
                forall|r: int, c: int|
                    0 <= r < rows && 0 <= c < cols ==> #[trigger] self.spec_changes().spec_at(r, c)
                        == if r < row {
                        false
                    } else {
                        mask.spec_at(r, c)
                    },
            decreases rows - row,
        {
            let mut col: usize = 0;
            while col < cols
                invariant
                    row < rows,
                    col <= cols,
                    rows == board.spec_rows(),
                    cols == board.spec_cols(),
                    board.wf(),
                    mask.wf(),
                    mask.spec_rows() == rows,
                    mask.spec_cols() == cols,
                    rows * cols <= usize::MAX,
                    self.spec_board().wf(),
                    self.spec_board().spec_rows() == rows,
                    self.spec_board().spec_cols() == cols,
                    self.spec_changes().wf(),
                    self.spec_changes().spec_rows() == rows,
                    self.spec_changes().spec_cols() == cols,
                    forall|r: int, c: int|
                        0 <= r < rows && 0 <= c < cols ==> #[trigger] self.spec_board().spec_at(
                            r,
                            c,
                        ) == if (r < row || (r == row && c < col)) && mask.spec_at(r, c) {
                            flip_cell(board.spec_at(r, c))
                        } else {
                            board.spec_at(r, c)
                        },
                    forall|r: int, c: int|
                        0 <= r < rows && 0 <= c < cols ==> #[trigger] self.spec_changes().spec_at(
                            r,
                            c,
                        ) == if r < row || (r == row && c < col) {
                            false
                        } else {
                            mask.spec_at(r, c)
                        },
                decreases cols - col,
            {
                let ghost pre_board = self.spec_board();
                let ghost pre_changes = self.spec_changes();
                if *self.changes.get(row, col) {
                    match *self.grid.get(row, col) {
                        Cell::Alive => self.grid.set(Cell::Dead, row, col),
                        Cell::Dead => self.grid.set(Cell::Alive, row, col),
                    }
                    self.changes.set(false, row, col);
                }
                proof {
                    assert forall|r: int, c: int|
                        0 <= r < rows && 0 <= c < cols implies #[trigger] self.spec_board().spec_at(
                        r,
                        c,
                    ) == if (r < row || (r == row && c < col + 1)) && mask.spec_at(r, c) {
                        flip_cell(board.spec_at(r, c))
                    } else {
                        board.spec_at(r, c)
                    } by {
                        lemma_grid_index_in_range(rows as int, cols as int, r, c);
                        lemma_grid_index_in_range(rows as int, cols as int, row as int, col as int);
                        assert(pre_board.spec_at(r, c) == if (r < row || (r == row && c < col))
                            && mask.spec_at(r, c) {
                            flip_cell(board.spec_at(r, c))
                        } else {
                            board.spec_at(r, c)
                        });
                        assert(pre_changes.spec_at(row as int, col as int) == mask.spec_at(
                            row as int,
                            col as int,
                        ));
                        if r * (cols as int) + c == (row as int) * (cols as int) + col {
                            lemma_grid_index_injective(cols as int, r, c, row as int, col as int);
                        }
                    }
                    assert forall|r: int, c: int|
                        0 <= r < rows && 0 <= c < cols implies #[trigger] self.spec_changes().spec_at(
                        r,
                        c,
                    ) == if r < row || (r == row && c < col + 1) {
                        false
                    } else {
                        mask.spec_at(r, c)
                    } by {
                        lemma_grid_index_in_range(rows as int, cols as int, r, c);
                        lemma_grid_index_in_range(rows as int, cols as int, row as int, col as int);
                        assert(pre_changes.spec_at(r, c) == if r < row || (r == row && c < col) {
                            false
                        } else {
                            mask.spec_at(r, c)
                        });
                        assert(pre_changes.spec_at(row as int, col as int) == mask.spec_at(
                            row as int,
                            col as int,
                        ));
                        if r * (cols as int) + c == (row as int) * (cols as int) + col {
                            lemma_grid_index_injective(cols as int, r, c, row as int, col as int);
                        }
                    }
                }
                col = col + 1;
            }
            row = row + 1;
        }
        proof {
            assert forall|i: int|
                0 <= i < self.spec_changes().spec_grid().len() implies !(
            #[trigger] self.spec_changes().spec_grid()[i]) by {
                let r = i / (cols as int);
                let c = i % (cols as int);
                assert((rows as int) * (cols as int) > 0);
                assert(cols > 0) by (nonlinear_arith)
                    requires (rows as int) * (cols as int) > 0,
                ;
                vstd::arithmetic::div_mod::lemma_fundamental_div_mod(i, cols as int);
                vstd::arithmetic::div_mod::lemma_mod_division_less_than_divisor(i, cols as int);
                vstd::arithmetic::div_mod::lemma_div_pos_is_pos(i, cols as int);
                assert(i < (cols as int) * (rows as int)) by (nonlinear_arith)
                    requires i < (rows as int) * (cols as int),
                ;
                vstd::arithmetic::div_mod::lemma_multiply_divide_lt(i, cols as int, rows as int);
                assert(self.spec_changes().spec_at(r, c) == false);
                assert(r * (cols as int) + c == i);
            }
        }
    }

    /// Advances the board one generation: every cell becomes what the
    /// life rule dictates for its previous neighbourhood.
    pub fn step(&mut self)
        requires
            old(self).wf(),
        ensures
            final(self).wf(),
            final(self).spec_board().spec_rows() == old(self).spec_board().spec_rows(),
            final(self).spec_board().spec_cols() == old(self).spec_board().spec_cols(),
            forall|r: int, c: int|
                0 <= r < old(self).spec_board().spec_rows() && 0 <= c < old(
                    self,
                ).spec_board().spec_cols() ==> #[trigger] final(self).spec_board().spec_at(r, c)
                    == spec_next_cell(old(self).spec_board(), r, c),
    {
        let ghost board = self.spec_board();
        self.detect_changes();
        self.apply_changes();
        proof {
            assert forall|r: int, c: int|
                0 <= r < board.spec_rows() && 0 <= c < board.spec_cols() implies #[trigger] self.spec_board().spec_at(
                r,
                c,
            ) == spec_next_cell(board, r, c) by {
                let before = board.spec_at(r, c);
                let target = spec_next_cell(board, r, c);
                if target != before {
                    assert(flip_cell(before) == target);
                }
            }
        }
    }
}

/// The opposite cell state.
pub open spec fn flip_cell(c: Cell) -> Cell {
    match c {
        Cell::Alive => Cell::Dead,
        Cell::Dead => Cell::Alive,
    }
}
} // verus!
