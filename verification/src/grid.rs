//! A rectangular two-dimensional boolean grid (bit-board) with the placement
//! primitives the solver needs: cell test/set, whole-grid set operations,
//! shifted union/subtract for laying a shape down at an offset, and the
//! `fits` predicate that decides whether a shape lands entirely on set cells.

use vstd::prelude::*;

verus! {

/// Geometry contract violations reported by the grid primitives.
#[derive(Clone, Copy, Debug, PartialEq, Eq, Structural)]
pub enum GridError {
    /// A cell index lay outside the grid's bounds.
    IndexOutOfRange,
    /// Two grids of different dimensions were combined.
    DimensionMismatch,
}

/// Is (r, c) a valid cell index of `g`?
pub open spec fn in_bounds(g: Seq<Seq<bool>>, r: int, c: int) -> bool {
    0 <= r < g.len() && 0 <= c < g[r].len()
}

/// Column count of a grid, taken from its first row.
pub open spec fn grid_cols(g: Seq<Seq<bool>>) -> nat {
    if g.len() == 0 {
        0
    } else {
        g[0].len()
    }
}

/// Every row of `g` has the same length.
pub open spec fn is_rect(g: Seq<Seq<bool>>) -> bool {
    forall|i: int| 0 <= i < g.len() ==> (#[trigger] g[i]).len() == grid_cols(g)
}

/// Number of set cells in one row.
pub open spec fn row_count(row: Seq<bool>) -> nat
    decreases row.len(),
{
    if row.len() == 0 {
        0
    } else {
        row_count(row.drop_last()) + if row.last() {
            1nat
        } else {
            0nat
        }
    }
}

/// Number of set cells in a grid.
pub open spec fn grid_count(g: Seq<Seq<bool>>) -> nat
    decreases g.len(),
{
    if g.len() == 0 {
        0
    } else {
        grid_count(g.drop_last()) + row_count(g.last())
    }
}

/// Does `g` contain at least one set cell?
pub open spec fn has_cell(g: Seq<Seq<bool>>) -> bool {
    exists|r: int, c: int| in_bounds(g, r, c) && g[r][c]
}

/// Does the cell of `o`, translated by (r0, c0), cover board cell (r, c)?
pub open spec fn shifted_cell(o: Seq<Seq<bool>>, r0: int, c0: int, r: int, c: int) -> bool {
    &&& 0 <= r - r0 < o.len()
    &&& 0 <= c - c0 < o[r - r0].len()
    &&& o[r - r0][c - c0]
}

/// Every set cell of `o`, translated by (r0, c0), lands in bounds of `g` on a
/// set cell of `g`.
pub open spec fn spec_fits(g: Seq<Seq<bool>>, o: Seq<Seq<bool>>, r0: int, c0: int) -> bool {
    forall|i: int, j: int|
        0 <= i < o.len() && 0 <= j < o[i].len() && (#[trigger] o[i][j]) ==> in_bounds(
            g,
            r0 + i,
            c0 + j,
        ) && g[r0 + i][c0 + j]
}

/// Do two grids have the same dimensions (cell for cell)?
pub open spec fn dims_match(a: Seq<Seq<bool>>, b: Seq<Seq<bool>>) -> bool {
    a.len() == b.len() && (a.len() == 0 || a[0].len() == b[0].len())
}

/// `shifted_cell` restricted to the shape cells strictly before offset (i, j)
/// in row-major order; tracks the progress of the shifted update loops.
spec fn shifted_cell_before(
    o: Seq<Seq<bool>>,
    r0: int,
    c0: int,
    r: int,
    c: int,
    i: int,
    j: int,
) -> bool {
    shifted_cell(o, r0, c0, r, c) && (r - r0 < i || (r - r0 == i && c - c0 < j))
}

/// A fixed-size rectangular grid of booleans.
pub struct Board {
    rows: usize,
    cols: usize,
    cells: Vec<Vec<bool>>,
}

impl View for Board {
    type V = Seq<Seq<bool>>;

    closed spec fn view(&self) -> Seq<Seq<bool>> {
        Seq::new(
            self.rows as nat,
            |i: int| Seq::new(self.cols as nat, |j: int| self.cells@[i]@[j]),
        )
    }
}

impl Board {
    /// The stored cells really form a `rows` x `cols` rectangle.
    pub closed spec fn wf(&self) -> bool {
        &&& self.cells@.len() == self.rows
        &&& forall|i: int|
            0 <= i < self.cells@.len() ==> (#[trigger] self.cells@[i])@.len() == self.cols
    }

    /// The abstract view of a board is always rectangular.
    pub proof fn lemma_rect(&self)
        ensures
            is_rect(self@),
    {
    }

    /// All-clear board of the given (rows, cols) dimensions.
    pub fn new(dims: (usize, usize)) -> (b: Board)
        ensures
            b.wf(),
            b@.len() == dims.0,
            forall|i: int| 0 <= i < dims.0 ==> (#[trigger] b@[i]).len() == dims.1,
            forall|i: int, j: int| in_bounds(b@, i, j) ==> !(#[trigger] b@[i][j]),
    {
        let mut cells: Vec<Vec<bool>> = Vec::new();
        let mut i: usize = 0;
        while i < dims.0
            invariant
                i <= dims.0,
                cells@.len() == i,
                forall|k: int| 0 <= k < i ==> (#[trigger] cells@[k])@.len() == dims.1,
                forall|k: int, l: int|
                    0 <= k < i && 0 <= l < dims.1 ==> !(#[trigger] cells@[k]@[l]),
            decreases dims.0 - i,
        {
            let mut row: Vec<bool> = Vec::new();
            let mut j: usize = 0;
            while j < dims.1
                invariant
                    j <= dims.1,
                    row@.len() == j,
                    forall|l: int| 0 <= l < j ==> !(#[trigger] row@[l]),
                decreases dims.1 - j,
            {
                row.push(false);
                j = j + 1;
            }
            cells.push(row);
            i = i + 1;
        }
        Board { rows: dims.0, cols: dims.1, cells }
    }

    /// All-clear board; alias of `new` kept for callers that build a board
    /// before filling it cell by cell.
    pub fn default(dims: (usize, usize)) -> (b: Board)
        ensures
            b.wf(),
            b@.len() == dims.0,
            forall|i: int| 0 <= i < dims.0 ==> (#[trigger] b@[i]).len() == dims.1,
            forall|i: int, j: int| in_bounds(b@, i, j) ==> !(#[trigger] b@[i][j]),
    {
        Board::new(dims)
    }

    /// Build a board from explicit rows; rejects ragged input.
    pub fn from_rows(data: Vec<Vec<bool>>) -> (r: Result<Board, GridError>)
        ensures
            r matches Ok(b) ==> {
                &&& b.wf()
                &&& b@.len() == data@.len()
                &&& forall|i: int| 0 <= i < data@.len() ==> #[trigger] b@[i] == data@[i]@
            },
            r matches Ok(b) ==> forall|i: int|
                0 <= i < data@.len() ==> (#[trigger] data@[i])@.len() == data@[0]@.len(),
            r matches Err(e) ==> e == GridError::DimensionMismatch && exists|i: int|
                0 <= i < data@.len() && (#[trigger] data@[i])@.len() != data@[0]@.len(),
    {
        let rows = data.len();
        let cols = if rows == 0 {
            0
        } else {
            data[0].len()
        };
        let mut i: usize = 0;
        while i < rows
            invariant
                i <= rows,
                rows == data@.len(),
                rows > 0 ==> cols == data@[0]@.len(),
                forall|k: int| 0 <= k < i ==> (#[trigger] data@[k])@.len() == cols,
            decreases rows - i,
        {
            if data[i].len() != cols {
                return Err(GridError::DimensionMismatch);
            }
            i = i + 1;
        }
        let b = Board { rows, cols, cells: data };
        proof {
            assert forall|k: int| 0 <= k < b@.len() implies #[trigger] b@[k] == b.cells@[k]@ by {
                assert(b@[k] =~= b.cells@[k]@);
            }
        }
        Ok(b)
    }

    /// Row count.
    pub fn rows(&self) -> (r: usize)
        ensures
            r == self@.len(),
    {
        self.rows
    }

    /// Column count; every row of the view has this length.
    pub fn cols(&self) -> (c: usize)
        ensures
            forall|i: int| 0 <= i < self@.len() ==> (#[trigger] self@[i]).len() == c,
    {
        self.cols
    }

    /// Read one cell whose index the caller has already bounds-checked.
    pub fn cell(&self, r: usize, c: usize) -> (v: bool)
        requires
            self.wf(),
            in_bounds(self@, r as int, c as int),
        ensures
            v == self@[r as int][c as int],
    {
        self.cells[r][c]
    }

    /// Read one cell; out-of-bounds indices are reported, never silently false.
    pub fn test(&self, r: usize, c: usize) -> (res: Result<bool, GridError>)
        requires
            self.wf(),
        ensures
            in_bounds(self@, r as int, c as int) ==> res == Ok::<bool, GridError>(
                self@[r as int][c as int],
            ),
            !in_bounds(self@, r as int, c as int) ==> res == Err::<bool, GridError>(
                GridError::IndexOutOfRange,
            ),
    {
        if r < self.rows && c < self.cols {
            Ok(self.cells[r][c])
        } else {
            Err(GridError::IndexOutOfRange)
        }
    }

    /// Write one cell; out-of-bounds indices are reported and leave the board
    /// unchanged.
    pub fn set(&mut self, r: usize, c: usize, v: bool) -> (res: Result<(), GridError>)
        requires
            old(self).wf(),
        ensures
            final(self).wf(),
            final(self)@.len() == old(self)@.len(),
            forall|i: int|
                0 <= i < old(self)@.len() ==> (#[trigger] final(self)@[i]).len()
                    == old(self)@[i].len(),
            in_bounds(old(self)@, r as int, c as int) ==> {
                &&& res == Ok::<(), GridError>(())
                &&& forall|i: int, j: int|
                    in_bounds(old(self)@, i, j) ==> #[trigger] final(self)@[i][j] == (if i
                        == r as int && j == c as int {
                        v
                    } else {
                        old(self)@[i][j]
                    })
            },
            !in_bounds(old(self)@, r as int, c as int) ==> res == Err::<(), GridError>(
                GridError::IndexOutOfRange,
            ) && final(self)@ == old(self)@,
    {
        if r < self.rows && c < self.cols {
            self.cells[r][c] = v;
            Ok(())
        } else {
            Err(GridError::IndexOutOfRange)
        }
    }

    /// A fresh board with the same cells.
    #[verifier::loop_isolation(false)]
    pub fn duplicate(&self) -> (b: Board)
        requires
            self.wf(),
        ensures
            b.wf(),
            b@ == self@,
    {
        let mut cells: Vec<Vec<bool>> = Vec::new();
        let mut i: usize = 0;
        while i < self.rows
            invariant
                i <= self.rows,
                cells@.len() == i,
                forall|k: int| 0 <= k < i ==> (#[trigger] cells@[k])@.len() == self.cols,
                forall|k: int, l: int|
                    0 <= k < i && 0 <= l < self.cols ==> #[trigger] cells@[k]@[l]
                        == self.cells@[k]@[l],
            decreases self.rows - i,
        {
            let mut row: Vec<bool> = Vec::new();
            let mut j: usize = 0;
            while j < self.cols
                invariant
                    i < self.rows,
                    j <= self.cols,
                    row@.len() == j,
                    forall|l: int| 0 <= l < j ==> #[trigger] row@[l] == self.cells@[i as int]@[l],
                decreases self.cols - j,
            {
                row.push(self.cells[i][j]);
                j = j + 1;
            }
            cells.push(row);
            i = i + 1;
        }
        let b = Board { rows: self.rows, cols: self.cols, cells };
        proof {
            assert(b@ =~~= self@);
        }
        b
    }

    /// Structural equality of the two boards' cell patterns.
    #[verifier::loop_isolation(false)]
    pub fn same_cells(&self, other: &Board) -> (r: bool)
        requires
            self.wf(),
            other.wf(),
        ensures
            r == (self@ == other@),
    {
        if self.rows != other.rows {
            proof {
                assert(self@.len() != other@.len());
            }
            return false;
        }
        if self.rows > 0 && self.cols != other.cols {
            proof {
                assert(self@[0].len() != other@[0].len());
            }
            return false;
        }
        let mut i: usize = 0;
        while i < self.rows
            invariant
                i <= self.rows,
                forall|k: int, l: int|
                    0 <= k < i && 0 <= l < self.cols ==> #[trigger] self@[k][l] == other@[k][l],
            decreases self.rows - i,
        {
            let mut j: usize = 0;
            while j < self.cols
                invariant
                    i < self.rows,
                    j <= self.cols,
                    forall|k: int, l: int|
                        0 <= k < i && 0 <= l < self.cols ==> #[trigger] self@[k][l] == other@[k][l],
                    forall|l: int| 0 <= l < j ==> #[trigger] self@[i as int][l] == other@[i as int][l],
                decreases self.cols - j,
            {
                if self.cells[i][j] != other.cells[i][j] {
                    proof {
                        assert(self@[i as int][j as int] != other@[i as int][j as int]);
                    }
                    return false;
                }
                j = j + 1;
            }
            i = i + 1;
        }
        proof {
            assert(self@ =~~= other@);
        }
        true
    }

    /// Number of set cells in one row of the stored grid.
    #[verifier::loop_isolation(false)]
    fn count_row(row: &Vec<bool>) -> (n: usize)
        ensures
            n == row_count(row@),
            n <= row@.len(),
    {
        let mut n: usize = 0;
        let mut j: usize = 0;
        while j < row.len()
            invariant
                j <= row@.len(),
                n == row_count(row@.take(j as int)),
                n <= j,
            decreases row@.len() - j,
        {
            proof {
                assert(row@.take(j + 1int).drop_last() =~= row@.take(j as int));
                assert(row@.take(j + 1int).last() == row@[j as int]);
            }
            if row[j] {
                n = n + 1;
            }
            j = j + 1;
        }
        proof {
            assert(row@.take(row@.len() as int) =~= row@);
        }
        n
    }

    /// Number of set cells in the whole board.
    #[verifier::loop_isolation(false)]
    pub fn count(&self) -> (n: u128)
        requires
            self.wf(),
        ensures
            n == grid_count(self@),
    {
        let mut n: u128 = 0;
        let mut i: usize = 0;
        while i < self.rows
            invariant
                i <= self.rows,
                n == grid_count(self@.take(i as int)),
                n <= (i as u128) * 0x1_0000_0000_0000_0000u128,
            decreases self.rows - i,
        {
            let rc = Board::count_row(&self.cells[i]);
            proof {
                assert(self@.take(i + 1int).drop_last() =~= self@.take(i as int));
                assert(self@.take(i + 1int).last() =~= self@[i as int]);
                assert(self@[i as int] =~= self.cells@[i as int]@);
                assert(rc <= 0xffff_ffff_ffff_ffffu128);
            }
            n = n + (rc as u128);
            i = i + 1;
        }
        proof {
            assert(self@.take(self@.len() as int) =~= self@);
        }
        n
    }

    /// Does the board hold at least one set cell?
    pub fn any_cell(&self) -> (r: bool)
        requires
            self.wf(),
        ensures
            r == has_cell(self@),
    {
        match self.find_first_true() {
            Some(_) => true,
            None => {
                proof {
                    assert(!has_cell(self@));
                }
                false
            },
        }
    }

    /// First set cell in row-major order, if any.
    #[verifier::loop_isolation(false)]
    pub fn find_first_true(&self) -> (res: Option<(usize, usize)>)
        requires
            self.wf(),
        ensures
            res matches Some(rc) ==> {
                &&& in_bounds(self@, rc.0 as int, rc.1 as int)
                &&& self@[rc.0 as int][rc.1 as int]
                &&& forall|r: int, c: int|
                    in_bounds(self@, r, c) && (r < rc.0 || (r == rc.0 && c < rc.1)) ==> !(
                    #[trigger] self@[r][c])
            },
            res is None ==> forall|r: int, c: int|
                in_bounds(self@, r, c) ==> !(#[trigger] self@[r][c]),
    {
        let mut i: usize = 0;
        while i < self.rows
            invariant
                i <= self.rows,
                forall|r: int, c: int|
                    0 <= r < i && 0 <= c < self.cols ==> !(#[trigger] self@[r][c]),
            decreases self.rows - i,
        {
            let mut j: usize = 0;
            while j < self.cols
                invariant
                    i < self.rows,
                    j <= self.cols,
                    forall|r: int, c: int|
                        0 <= r < i && 0 <= c < self.cols ==> !(#[trigger] self@[r][c]),
                    forall|c: int| 0 <= c < j ==> !(#[trigger] self@[i as int][c]),
                decreases self.cols - j,
            {
                if self.cells[i][j] {
                    return Some((i, j));
                }
                j = j + 1;
            }
            i = i + 1;
        }
        None
    }

    /// Cellwise or with a grid of the same dimensions.
    #[verifier::loop_isolation(false)]
    pub fn union_with(&mut self, other: &Board) -> (res: Result<(), GridError>)
        requires
            old(self).wf(),
            other.wf(),
        ensures
            final(self).wf(),
            final(self)@.len() == old(self)@.len(),
            forall|i: int|
                0 <= i < old(self)@.len() ==> (#[trigger] final(self)@[i]).len()
                    == old(self)@[i].len(),
            dims_match(old(self)@, other@) ==> res == Ok::<(), GridError>(()) && forall|
                r: int,
                c: int,
            |
                in_bounds(old(self)@, r, c) ==> #[trigger] final(self)@[r][c] == (old(
                    self,
                )@[r][c] || other@[r][c]),
            !dims_match(old(self)@, other@) ==> res == Err::<(), GridError>(
                GridError::DimensionMismatch,
            ) && final(self)@ == old(self)@,
    {
        if self.rows != other.rows || (self.rows > 0 && self.cols != other.cols) {
            return Err(GridError::DimensionMismatch);
        }
        let mut i: usize = 0;
        while i < self.rows
            invariant
                i <= self.rows,
                self.wf(),
                self.rows == old(self).rows,
                self.cols == old(self).cols,
                forall|r: int, c: int|
                    in_bounds(old(self)@, r, c) ==> #[trigger] self@[r][c] == (if r < i {
                        old(self)@[r][c] || other@[r][c]
                    } else {
                        old(self)@[r][c]
                    }),
            decreases self.rows - i,
        {
            let mut j: usize = 0;
            while j < self.cols
                invariant
                    i < self.rows,
                    j <= self.cols,
                    self.wf(),
                    self.rows == old(self).rows,
                    self.cols == old(self).cols,
                    forall|r: int, c: int|
                        in_bounds(old(self)@, r, c) ==> #[trigger] self@[r][c] == (if r < i || (r
                            == i && c < j) {
                            old(self)@[r][c] || other@[r][c]
                        } else {
                            old(self)@[r][c]
                        }),
                decreases self.cols - j,
            {
                let ghost prev = self@;
                let v = self.cells[i][j] || other.cells[i][j];
                self.cells[i][j] = v;
                proof {
                    assert(v == (prev[i as int][j as int] || other@[i as int][j as int]));
                    assert forall|r: int, c: int| in_bounds(old(self)@, r, c) implies #[trigger] self@[r][c]
                        == (if r < i as int || (r == i as int && c < j + 1) {
                        old(self)@[r][c] || other@[r][c]
                    } else {
                        old(self)@[r][c]
                    }) by {
                        assert(in_bounds(prev, r, c));
                        if r == i as int && c == j as int {
                            assert(self@[r][c] == v);
                        } else {
                            assert(self@[r][c] == prev[r][c]);
                        }
                    }
                }
                j = j + 1;
            }
            i = i + 1;
        }
        Ok(())
    }

    /// Cellwise and with a grid of the same dimensions.
    #[verifier::loop_isolation(false)]
    pub fn intersect_with(&mut self, other: &Board) -> (res: Result<(), GridError>)
        requires
            old(self).wf(),
            other.wf(),
        ensures
            final(self).wf(),
            final(self)@.len() == old(self)@.len(),
            forall|i: int|
                0 <= i < old(self)@.len() ==> (#[trigger] final(self)@[i]).len()
                    == old(self)@[i].len(),
            dims_match(old(self)@, other@) ==> res == Ok::<(), GridError>(()) && forall|
                r: int,
                c: int,
            |
                in_bounds(old(self)@, r, c) ==> #[trigger] final(self)@[r][c] == (old(
                    self,
                )@[r][c] && other@[r][c]),
            !dims_match(old(self)@, other@) ==> res == Err::<(), GridError>(
                GridError::DimensionMismatch,
            ) && final(self)@ == old(self)@,
    {
        if self.rows != other.rows || (self.rows > 0 && self.cols != other.cols) {
            return Err(GridError::DimensionMismatch);
        }
        let mut i: usize = 0;
        while i < self.rows
            invariant
                i <= self.rows,
                self.wf(),
                self.rows == old(self).rows,
                self.cols == old(self).cols,
                forall|r: int, c: int|
                    in_bounds(old(self)@, r, c) ==> #[trigger] self@[r][c] == (if r < i {
                        old(self)@[r][c] && other@[r][c]
                    } else {
                        old(self)@[r][c]
                    }),
            decreases self.rows - i,
        {
            let mut j: usize = 0;
            while j < self.cols
                invariant
                    i < self.rows,
                    j <= self.cols,
                    self.wf(),
                    self.rows == old(self).rows,
                    self.cols == old(self).cols,
                    forall|r: int, c: int|
                        in_bounds(old(self)@, r, c) ==> #[trigger] self@[r][c] == (if r < i || (r
                            == i && c < j) {
                            old(self)@[r][c] && other@[r][c]
                        } else {
                            old(self)@[r][c]
                        }),
                decreases self.cols - j,
            {
                let ghost prev = self@;
                let v = self.cells[i][j] && other.cells[i][j];
                self.cells[i][j] = v;
                proof {
                    assert(v == (prev[i as int][j as int] && other@[i as int][j as int]));
                    assert forall|r: int, c: int| in_bounds(old(self)@, r, c) implies #[trigger] self@[r][c]
                        == (if r < i as int || (r == i as int && c < j + 1) {
                        old(self)@[r][c] && other@[r][c]
                    } else {
                        old(self)@[r][c]
                    }) by {
                        assert(in_bounds(prev, r, c));
                        if r == i as int && c == j as int {
                            assert(self@[r][c] == v);
                        } else {
                            assert(self@[r][c] == prev[r][c]);
                        }
                    }
                }
                j = j + 1;
            }
            i = i + 1;
        }
        Ok(())
    }

    /// Cellwise and-not with a grid of the same dimensions.
    #[verifier::loop_isolation(false)]
    pub fn subtract_with(&mut self, other: &Board) -> (res: Result<(), GridError>)
        requires
            old(self).wf(),
            other.wf(),
        ensures
            final(self).wf(),
            final(self)@.len() == old(self)@.len(),
            forall|i: int|
                0 <= i < old(self)@.len() ==> (#[trigger] final(self)@[i]).len()
                    == old(self)@[i].len(),
            dims_match(old(self)@, other@) ==> res == Ok::<(), GridError>(()) && forall|
                r: int,
                c: int,
            |
                in_bounds(old(self)@, r, c) ==> #[trigger] final(self)@[r][c] == (old(
                    self,
                )@[r][c] && !other@[r][c]),
            !dims_match(old(self)@, other@) ==> res == Err::<(), GridError>(
                GridError::DimensionMismatch,
            ) && final(self)@ == old(self)@,
    {
        if self.rows != other.rows || (self.rows > 0 && self.cols != other.cols) {
            return Err(GridError::DimensionMismatch);
        }
        let mut i: usize = 0;
        while i < self.rows
            invariant
                i <= self.rows,
                self.wf(),
                self.rows == old(self).rows,
                self.cols == old(self).cols,
                forall|r: int, c: int|
                    in_bounds(old(self)@, r, c) ==> #[trigger] self@[r][c] == (if r < i {
                        old(self)@[r][c] && !other@[r][c]
                    } else {
                        old(self)@[r][c]
                    }),
            decreases self.rows - i,
        {
            let mut j: usize = 0;
            while j < self.cols
                invariant
                    i < self.rows,
                    j <= self.cols,
                    self.wf(),
                    self.rows == old(self).rows,
                    self.cols == old(self).cols,
                    forall|r: int, c: int|
                        in_bounds(old(self)@, r, c) ==> #[trigger] self@[r][c] == (if r < i || (r
                            == i && c < j) {
                            old(self)@[r][c] && !other@[r][c]
                        } else {
                            old(self)@[r][c]
                        }),
                decreases self.cols - j,
            {
                let ghost prev = self@;
                let v = self.cells[i][j] && !other.cells[i][j];
                self.cells[i][j] = v;
                proof {
                    assert(v == (prev[i as int][j as int] && !other@[i as int][j as int]));
                    assert forall|r: int, c: int| in_bounds(old(self)@, r, c) implies #[trigger] self@[r][c]
                        == (if r < i as int || (r == i as int && c < j + 1) {
                        old(self)@[r][c] && !other@[r][c]
                    } else {
                        old(self)@[r][c]
                    }) by {
                        assert(in_bounds(prev, r, c));
                        if r == i as int && c == j as int {
                            assert(self@[r][c] == v);
                        } else {
                            assert(self@[r][c] == prev[r][c]);
                        }
                    }
                }
                j = j + 1;
            }
            i = i + 1;
        }
        Ok(())
    }

    /// Clear every cell covered by shape `o` translated by (r0, c0); shape
    /// cells that fall outside the board are ignored.
    #[verifier::loop_isolation(false)]
    pub fn subtract_shifted(&mut self, o: &Board, r0: usize, c0: usize)
        requires
            old(self).wf(),
            o.wf(),
        ensures
            final(self).wf(),
            final(self)@.len() == old(self)@.len(),
            forall|i: int|
                0 <= i < old(self)@.len() ==> (#[trigger] final(self)@[i]).len()
                    == old(self)@[i].len(),
            forall|r: int, c: int|
                in_bounds(old(self)@, r, c) ==> #[trigger] final(self)@[r][c] == (old(
                    self,
                )@[r][c] && !shifted_cell(o@, r0 as int, c0 as int, r, c)),
    {
        let mut i: usize = 0;
        while i < o.rows
            invariant
                i <= o.rows,
                self.wf(),
                self.rows == old(self).rows,
                self.cols == old(self).cols,
                forall|r: int, c: int|
                    in_bounds(old(self)@, r, c) ==> #[trigger] self@[r][c] == (old(
                        self,
                    )@[r][c] && !shifted_cell_before(o@, r0 as int, c0 as int, r, c, i as int, 0)),
            decreases o.rows - i,
        {
            let mut j: usize = 0;
            while j < o.cols
                invariant
                    i < o.rows,
                    j <= o.cols,
                    self.wf(),
                    self.rows == old(self).rows,
                    self.cols == old(self).cols,
                    forall|r: int, c: int|
                        in_bounds(old(self)@, r, c) ==> #[trigger] self@[r][c] == (old(
                            self,
                        )@[r][c] && !shifted_cell_before(
                            o@,
                            r0 as int,
                            c0 as int,
                            r,
                            c,
                            i as int,
                            j as int,
                        )),
                decreases o.cols - j,
            {
                if o.cells[i][j] {
                    if r0 < self.rows && i < self.rows - r0 && c0 < self.cols && j < self.cols
                        - c0 {
                        let ghost prev = self@;
                        self.cells[r0 + i][c0 + j] = false;
                        proof {
                            assert forall|r: int, c: int| in_bounds(prev, r, c) implies #[trigger] self@[r][c]
                                == (if r == r0 + i && c == c0 + j {
                                false
                            } else {
                                prev[r][c]
                            }) by {}
                        }
                    }
                }
                j = j + 1;
            }
            i = i + 1;
        }
    }

    /// Set every cell covered by shape `o` translated by (r0, c0); shape
    /// cells that fall outside the board are ignored.
    #[verifier::loop_isolation(false)]
    pub fn union_shifted(&mut self, o: &Board, r0: usize, c0: usize)
        requires
            old(self).wf(),
            o.wf(),
        ensures
            final(self).wf(),
            final(self)@.len() == old(self)@.len(),
            forall|i: int|
                0 <= i < old(self)@.len() ==> (#[trigger] final(self)@[i]).len()
                    == old(self)@[i].len(),
            forall|r: int, c: int|
                in_bounds(old(self)@, r, c) ==> #[trigger] final(self)@[r][c] == (old(
                    self,
                )@[r][c] || shifted_cell(o@, r0 as int, c0 as int, r, c)),
    {
        let mut i: usize = 0;
        while i < o.rows
            invariant
                i <= o.rows,
                self.wf(),
                self.rows == old(self).rows,
                self.cols == old(self).cols,
                forall|r: int, c: int|
                    in_bounds(old(self)@, r, c) ==> #[trigger] self@[r][c] == (old(
                        self,
                    )@[r][c] || shifted_cell_before(o@, r0 as int, c0 as int, r, c, i as int, 0)),
            decreases o.rows - i,
        {
            let mut j: usize = 0;
            while j < o.cols
                invariant
                    i < o.rows,
                    j <= o.cols,
                    self.wf(),
                    self.rows == old(self).rows,
                    self.cols == old(self).cols,
                    forall|r: int, c: int|
                        in_bounds(old(self)@, r, c) ==> #[trigger] self@[r][c] == (old(
                            self,
                        )@[r][c] || shifted_cell_before(
                            o@,
                            r0 as int,
                            c0 as int,
                            r,
                            c,
                            i as int,
                            j as int,
                        )),
                decreases o.cols - j,
            {
                if o.cells[i][j] {
                    if r0 < self.rows && i < self.rows - r0 && c0 < self.cols && j < self.cols
                        - c0 {
                        let ghost prev = self@;
                        self.cells[r0 + i][c0 + j] = true;
                        proof {
                            assert forall|r: int, c: int| in_bounds(prev, r, c) implies #[trigger] self@[r][c]
                                == (if r == r0 + i && c == c0 + j {
                                true
                            } else {
                                prev[r][c]
                            }) by {}
                        }
                    }
                }
                j = j + 1;
            }
            i = i + 1;
        }
    }

    /// Is every set cell of `o`, translated by (r0, c0), on a set cell here?
    #[verifier::loop_isolation(false)]
    pub fn fits(&self, o: &Board, r0: usize, c0: usize) -> (r: bool)
        requires
            self.wf(),
            o.wf(),
        ensures
            r == spec_fits(self@, o@, r0 as int, c0 as int),
    {
        let mut i: usize = 0;
        while i < o.rows
            invariant
                i <= o.rows,
                forall|a: int, b: int|
                    0 <= a < i && 0 <= b < o@[a].len() && (#[trigger] o@[a][b]) ==> in_bounds(
                        self@,
                        r0 + a,
                        c0 + b,
                    ) && self@[r0 + a][c0 + b],
            decreases o.rows - i,
        {
            let mut j: usize = 0;
            while j < o.cols
                invariant
                    i < o.rows,
                    j <= o.cols,
                    forall|a: int, b: int|
                        0 <= a < i && 0 <= b < o@[a].len() && (#[trigger] o@[a][b]) ==> in_bounds(
                            self@,
                            r0 + a,
                            c0 + b,
                        ) && self@[r0 + a][c0 + b],
                    forall|b: int|
                        0 <= b < j && (#[trigger] o@[i as int][b]) ==> in_bounds(
                            self@,
                            r0 + i,
                            c0 + b,
                        ) && self@[r0 + i][c0 + b],
                decreases o.cols - j,
            {
                if o.cells[i][j] {
                    let in_rows = r0 < self.rows && i < self.rows - r0;
                    let in_cols = c0 < self.cols && j < self.cols - c0;
                    if !(in_rows && in_cols) {
                        proof {
                            assert(o@[i as int][j as int]);
                            assert(!(in_bounds(self@, r0 + i, c0 + j) && self@[r0 + i][c0 + j]));
                        }
                        return false;
                    }
                    if !self.cells[r0 + i][c0 + j] {
                        proof {
                            assert(o@[i as int][j as int]);
                            assert(!self@[r0 + i][c0 + j]);
                        }
                        return false;
                    }
                }
                j = j + 1;
            }
            i = i + 1;
        }
        true
    }
}

} // verus!
