use vstd::prelude::*;

verus! {

/// Occupancy of one grid cell.
#[derive(Clone, Copy, Debug, PartialEq, Eq, Structural)]
pub enum Cell {
    Blocked,
    Passable,
}

/// A grid coordinate. Row and column are signed so that out-of-bounds
/// queries, including negative ones, can be expressed and rejected.
#[derive(Clone, Copy, Debug, PartialEq, Eq, Structural)]
pub struct Coord {
    pub row: i32,
    pub col: i32,
}

/// Largest allowed side length of a grid. It keeps every flat index and
/// every cost computed by the search comfortably inside `i32` and `usize`
/// range, on 32-bit targets included.
pub const MAX_DIM: usize = 32767;

/// An immutable rectangular occupancy grid with runtime-chosen dimensions.
pub struct Grid {
    rows: usize,
    cols: usize,
    cells: Vec<Cell>,
}

/// Absolute difference of two integers.
pub open spec fn abs_diff(a: int, b: int) -> int {
    if a >= b {
        a - b
    } else {
        b - a
    }
}

/// Manhattan distance between two cells given by row and column.
pub open spec fn manhattan_rc(r1: int, c1: int, r2: int, c2: int) -> int {
    abs_diff(r1, r2) + abs_diff(c1, c2)
}

/// Manhattan distance between two coordinates.
pub open spec fn manhattan(a: Coord, b: Coord) -> int {
    manhattan_rc(a.row as int, a.col as int, b.row as int, b.col as int)
}

/// Two cells are adjacent when they differ by exactly one unit along
/// exactly one axis.
pub open spec fn adjacent_rc(r1: int, c1: int, r2: int, c2: int) -> bool {
    manhattan_rc(r1, c1, r2, c2) == 1
}

/// Two coordinates are adjacent when they differ by exactly one unit
/// along exactly one axis.
pub open spec fn adjacent(a: Coord, b: Coord) -> bool {
    adjacent_rc(a.row as int, a.col as int, b.row as int, b.col as int)
}

/// Multiplication is monotonic in both nonnegative factors.
pub proof fn lemma_mul_le(a: int, b: int, c: int, d: int)
    requires
        0 <= a <= c,
        0 <= b <= d,
    ensures
        a * b <= c * d,
{
    assert(a * b <= c * d) by (nonlinear_arith)
        requires
            0 <= a <= c,
            0 <= b <= d,
    ;
}

/// A row-major flat index of an in-bounds cell lies inside the table.
pub proof fn lemma_flat_index_bounds(row: int, col: int, rows: int, cols: int)
    requires
        0 <= row < rows,
        0 <= col < cols,
    ensures
        0 <= row * cols + col < rows * cols,
{
    assert(0 <= row * cols + col < rows * cols) by (nonlinear_arith)
        requires
            0 <= row < rows,
            0 <= col < cols,
    ;
}

/// Row-major flat indexing is injective on in-bounds cells.
pub proof fn lemma_flat_index_injective(r1: int, c1: int, r2: int, c2: int, cols: int)
    requires
        0 <= r1,
        0 <= r2,
        0 <= c1 < cols,
        0 <= c2 < cols,
        r1 * cols + c1 == r2 * cols + c2,
    ensures
        r1 == r2 && c1 == c2,
{
    assert(r1 == r2 && c1 == c2) by (nonlinear_arith)
        requires
            0 <= r1,
            0 <= r2,
            0 <= c1 < cols,
            0 <= c2 < cols,
            r1 * cols + c1 == r2 * cols + c2,
    ;
}

impl Grid {
    /// Well-formedness: positive, bounded dimensions, and a cell table of
    /// exactly `rows * cols` entries.
    #[verifier::type_invariant]
    pub closed spec fn wf(self) -> bool {
        &&& 1 <= self.rows <= MAX_DIM
        &&& 1 <= self.cols <= MAX_DIM
        &&& self.cells@.len() == self.rows * self.cols
    }

    /// Number of rows.
    pub closed spec fn spec_rows(self) -> int {
        self.rows as int
    }

    /// Number of columns.
    pub closed spec fn spec_cols(self) -> int {
        self.cols as int
    }

    /// Row-major flat index of a cell.
    pub open spec fn spec_flat_index(self, row: int, col: int) -> int {
        row * self.spec_cols() + col
    }

    /// Whether a (row, column) pair lies inside the grid.
    pub open spec fn in_bounds(self, row: int, col: int) -> bool {
        0 <= row < self.spec_rows() && 0 <= col < self.spec_cols()
    }

    /// Whether a coordinate lies inside the grid.
    pub open spec fn in_bounds_coord(self, c: Coord) -> bool {
        self.in_bounds(c.row as int, c.col as int)
    }

    /// Whether an in-bounds cell is passable.
    pub closed spec fn passable_at(self, row: int, col: int) -> bool {
        self.cells@[self.spec_flat_index(row, col)] == Cell::Passable
    }

    /// Whether the cell at an in-bounds coordinate is passable.
    pub open spec fn passable_coord(self, c: Coord) -> bool {
        self.passable_at(c.row as int, c.col as int)
    }

    /// The dimensions of a well-formed grid are positive and bounded, and
    /// so is the total cell count.
    pub proof fn lemma_dims(self)
        requires
            self.wf(),
        ensures
            1 <= self.spec_rows() <= MAX_DIM,
            1 <= self.spec_cols() <= MAX_DIM,
            1 <= self.spec_rows() * self.spec_cols() <= MAX_DIM * MAX_DIM,
    {
        lemma_mul_le(1, 1, self.spec_rows(), self.spec_cols());
        lemma_mul_le(self.spec_rows(), self.spec_cols(), MAX_DIM as int, MAX_DIM as int);
    }

    /// Builds a grid from its dimensions and a row-major cell table.
    /// Returns `None` when a dimension is zero or over `MAX_DIM`, or when
    /// the table does not hold exactly `rows * cols` cells.
    pub fn new(rows: usize, cols: usize, cells: Vec<Cell>) -> (r: Option<Grid>)
        ensures
            (r is Some) <==> (1 <= rows <= MAX_DIM && 1 <= cols <= MAX_DIM && cells@.len()
                == rows * cols),
            r matches Some(g) ==> {
                &&& g.spec_rows() == rows
                &&& g.spec_cols() == cols
                &&& forall|row: int, col: int|
                    g.in_bounds(row, col) ==> (#[trigger] g.passable_at(row, col) <==> cells@[row
                        * cols + col] == Cell::Passable)
            },
    {
        if rows >= 1 && rows <= MAX_DIM && cols >= 1 && cols <= MAX_DIM {
            proof {
                lemma_mul_le(rows as int, cols as int, MAX_DIM as int, MAX_DIM as int);
            }
            let total = rows * cols;
            if cells.len() == total {
                let g = Grid { rows, cols, cells };
                Some(g)
            } else {
                None
            }
        } else {
            None
        }
    }

    /// Number of rows.
    pub fn rows(&self) -> (r: usize)
        ensures
            r == self.spec_rows(),
    {
        self.rows
    }

    /// Number of columns.
    pub fn cols(&self) -> (r: usize)
        ensures
            r == self.spec_cols(),
    {
        self.cols
    }

    /// Total number of cells.
    pub fn total_cells(&self) -> (t: usize)
        ensures
            t == self.spec_rows() * self.spec_cols(),
            1 <= t <= MAX_DIM * MAX_DIM,
    {
        proof {
            use_type_invariant(&*self);
            self.lemma_dims();
        }
        self.rows * self.cols
    }

    /// Whether the cell is not out of bounds.
    pub fn is_valid(&self, row: i32, col: i32) -> (r: bool)
        ensures
            r == self.in_bounds(row as int, col as int),
    {
        row >= 0 && col >= 0 && (row as usize) < self.rows && (col as usize) < self.cols
    }

    /// Row-major flat index of an in-bounds cell.
    pub(crate) fn flat_index(&self, row: i32, col: i32) -> (i: usize)
        requires
            self.in_bounds(row as int, col as int),
        ensures
            i == self.spec_flat_index(row as int, col as int),
            i < self.spec_rows() * self.spec_cols(),
    {
        proof {
            use_type_invariant(&*self);
            self.lemma_dims();
            lemma_flat_index_bounds(row as int, col as int, self.spec_rows(), self.spec_cols());
        }
        (row as usize) * self.cols + (col as usize)
    }

    /// Whether an in-bounds cell is occupied. The caller must have checked
    /// bounds already; the search always calls `is_valid` first.
    pub fn is_blocked(&self, row: i32, col: i32) -> (r: bool)
        requires
            self.in_bounds(row as int, col as int),
        ensures
            r == !self.passable_at(row as int, col as int),
    {
        proof {
            use_type_invariant(&*self);
        }
        let i = self.flat_index(row, col);
        self.cells[i] == Cell::Blocked
    }
}

} // verus!
