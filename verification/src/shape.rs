//! Shape operations: the clockwise quarter-turn rotation and the
//! normalization of a pattern to its minimal bounding box, together with the
//! rotation round-trip law.

use vstd::prelude::*;
use crate::grid::{Board, grid_cols, has_cell, in_bounds, is_rect};

verus! {

/// Clockwise quarter-turn of a rectangular pattern: transpose the grid, then
/// reverse the column order. Cell (i, j) of the result is cell
/// (rows - 1 - j, i) of the input.
pub open spec fn spec_rotate(g: Seq<Seq<bool>>) -> Seq<Seq<bool>> {
    Seq::new(grid_cols(g), |i: int| Seq::new(g.len() as nat, |j: int| g[g.len() - 1 - j][i]))
}

/// `k` successive clockwise quarter-turns.
pub open spec fn spec_rotate_k(g: Seq<Seq<bool>>, k: nat) -> Seq<Seq<bool>>
    decreases k,
{
    if k == 0 {
        g
    } else {
        spec_rotate(spec_rotate_k(g, (k - 1) as nat))
    }
}

/// Law: four clockwise quarter-turns reproduce the original pattern exactly,
/// for every rectangular pattern that has no zero-width rows.
pub proof fn lemma_rotate_four_times(g: Seq<Seq<bool>>)
    requires
        is_rect(g),
        g.len() > 0 ==> grid_cols(g) > 0,
    ensures
        spec_rotate_k(g, 4) == g,
{
    let r1 = spec_rotate(g);
    let r2 = spec_rotate(r1);
    let r3 = spec_rotate(r2);
    let r4 = spec_rotate(r3);
    assert(spec_rotate_k(g, 4) == r4) by {
        assert(spec_rotate_k(g, 0) == g);
        assert(spec_rotate_k(g, 1) == r1);
        assert(spec_rotate_k(g, 2) == r2);
        assert(spec_rotate_k(g, 3) == r3);
    }
    if g.len() == 0 {
        assert(r4 =~~= g);
    } else {
        let rows = g.len() as int;
        let cols = grid_cols(g) as int;
        assert(r1.len() == cols && grid_cols(r1) == rows);
        assert(r2.len() == rows && grid_cols(r2) == cols);
        assert(r3.len() == cols && grid_cols(r3) == rows);
        assert(r4.len() == rows && grid_cols(r4) == cols);
        assert forall|i: int| 0 <= i < rows implies #[trigger] r4[i] =~= g[i] by {
            assert(r4[i].len() == cols && g[i].len() == cols);
            assert forall|j: int| 0 <= j < cols implies #[trigger] r4[i][j] == g[i][j] by {
                assert(r4[i][j] == r3[cols - 1 - j][i]);
                assert(r3[cols - 1 - j][i] == r2[rows - 1 - i][cols - 1 - j]);
                assert(r2[rows - 1 - i][cols - 1 - j] == r1[cols - 1 - (cols - 1 - j)][rows - 1
                    - i]);
                assert(r1[j][rows - 1 - i] == g[rows - 1 - (rows - 1 - i)][j]);
            }
        }
        assert(r4 =~~= g);
    }
}

/// Rotation keeps at least one set cell.
pub proof fn lemma_rotate_has_cell(g: Seq<Seq<bool>>)
    requires
        is_rect(g),
        has_cell(g),
    ensures
        has_cell(spec_rotate(g)),
{
    let (r, c): (int, int) = choose|r: int, c: int| in_bounds(g, r, c) && g[r][c];
    let rr = spec_rotate(g);
    assert(g[r].len() == grid_cols(g));
    assert(rr[c][g.len() - 1 - r] == g[r][c]);
    assert(in_bounds(rr, c, g.len() - 1 - r) && rr[c][g.len() - 1 - r]);
}

/// Clockwise quarter-turn of a board's pattern.
#[verifier::loop_isolation(false)]
pub fn rotate_90(g: &Board) -> (r: Board)
    requires
        g.wf(),
    ensures
        r.wf(),
        r@ == spec_rotate(g@),
{
    let rows = g.rows();
    let cols = if rows == 0 {
        0
    } else {
        g.cols()
    };
    let mut out = Board::new((cols, rows));
    let mut i: usize = 0;
    while i < cols
        invariant
            i <= cols,
            rows == g@.len(),
            rows > 0 ==> cols == grid_cols(g@),
            rows == 0 ==> cols == 0,
            out.wf(),
            out@.len() == cols,
            forall|x: int| 0 <= x < cols ==> (#[trigger] out@[x]).len() == rows,
            forall|x: int, y: int|
                0 <= x < cols && 0 <= y < rows ==> #[trigger] out@[x][y] == (if x < i {
                    g@[rows - 1 - y][x]
                } else {
                    false
                }),
        decreases cols - i,
    {
        let mut j: usize = 0;
        while j < rows
            invariant
                i < cols,
                j <= rows,
                out.wf(),
                out@.len() == cols,
                forall|x: int| 0 <= x < cols ==> (#[trigger] out@[x]).len() == rows,
                forall|x: int, y: int|
                    0 <= x < cols && 0 <= y < rows ==> #[trigger] out@[x][y] == (if x < i || (x
                        == i && y < j) {
                        g@[rows - 1 - y][x]
                    } else {
                        false
                    }),
            decreases rows - j,
        {
            let v = g.cell(rows - 1 - j, i);
            let _ = out.set(i, j, v);
            j = j + 1;
        }
        i = i + 1;
    }
    proof {
        assert forall|x: int| 0 <= x < cols implies #[trigger] out@[x] =~= spec_rotate(g@)[x] by {
            assert forall|y: int| 0 <= y < rows implies #[trigger] out@[x][y] == spec_rotate(
                g@,
            )[x][y] by {}
        }
        assert(out@ =~~= spec_rotate(g@));
    }
    out
}

/// Does row `i` of `g` contain a set cell?
pub open spec fn row_has(g: Seq<Seq<bool>>, i: int) -> bool {
    exists|j: int| 0 <= j < g[i].len() && g[i][j]
}

/// Does column `j` of `g` contain a set cell?
pub open spec fn col_has(g: Seq<Seq<bool>>, j: int) -> bool {
    exists|i: int| 0 <= i < g.len() && j < g[i].len() && g[i][j]
}

/// `i` is the topmost row of `g` holding a set cell.
pub open spec fn is_min_row_at(g: Seq<Seq<bool>>, i: int) -> bool {
    0 <= i < g.len() && row_has(g, i) && forall|k: int| 0 <= k < i ==> !row_has(g, k)
}

/// `i` is the bottommost row of `g` holding a set cell.
pub open spec fn is_max_row_at(g: Seq<Seq<bool>>, i: int) -> bool {
    0 <= i < g.len() && row_has(g, i) && forall|k: int| i < k < g.len() ==> !row_has(g, k)
}

/// `j` is the leftmost column of `g` holding a set cell.
pub open spec fn is_min_col_at(g: Seq<Seq<bool>>, j: int) -> bool {
    0 <= j && col_has(g, j) && forall|k: int| 0 <= k < j ==> !col_has(g, k)
}

/// `j` is the rightmost column of `g` holding a set cell.
pub open spec fn is_max_col_at(g: Seq<Seq<bool>>, j: int) -> bool {
    0 <= j && col_has(g, j) && forall|k: int| k > j ==> !col_has(g, k)
}

/// Topmost occupied row.
pub open spec fn min_row(g: Seq<Seq<bool>>) -> int {
    choose|i: int| is_min_row_at(g, i)
}

/// Bottommost occupied row.
pub open spec fn max_row(g: Seq<Seq<bool>>) -> int {
    choose|i: int| is_max_row_at(g, i)
}

/// Leftmost occupied column.
pub open spec fn min_col(g: Seq<Seq<bool>>) -> int {
    choose|j: int| is_min_col_at(g, j)
}

/// Rightmost occupied column.
pub open spec fn max_col(g: Seq<Seq<bool>>) -> int {
    choose|j: int| is_max_col_at(g, j)
}

/// The pattern trimmed to its minimal bounding box.
pub open spec fn spec_normalize(g: Seq<Seq<bool>>) -> Seq<Seq<bool>> {
    Seq::new(
        (max_row(g) - min_row(g) + 1) as nat,
        |i: int|
            Seq::new(
                (max_col(g) - min_col(g) + 1) as nat,
                |j: int| g[min_row(g) + i][min_col(g) + j],
            ),
    )
}

proof fn lemma_min_row_is(g: Seq<Seq<bool>>, i: int)
    requires
        is_min_row_at(g, i),
    ensures
        min_row(g) == i,
{
    assert(is_min_row_at(g, min_row(g)));
    let k = min_row(g);
    if k < i {
        assert(!row_has(g, k));
    }
    if k > i {
        assert(!row_has(g, i));
    }
}

proof fn lemma_max_row_is(g: Seq<Seq<bool>>, i: int)
    requires
        is_max_row_at(g, i),
    ensures
        max_row(g) == i,
{
    assert(is_max_row_at(g, max_row(g)));
    let k = max_row(g);
    if k < i {
        assert(!row_has(g, i));
    }
    if k > i {
        assert(!row_has(g, k));
    }
}

proof fn lemma_min_col_is(g: Seq<Seq<bool>>, j: int)
    requires
        is_min_col_at(g, j),
    ensures
        min_col(g) == j,
{
    assert(is_min_col_at(g, min_col(g)));
    let k = min_col(g);
    if k < j {
        assert(!col_has(g, k));
    }
    if k > j {
        assert(!col_has(g, j));
    }
}

proof fn lemma_max_col_is(g: Seq<Seq<bool>>, j: int)
    requires
        is_max_col_at(g, j),
    ensures
        max_col(g) == j,
{
    assert(is_max_col_at(g, max_col(g)));
    let k = max_col(g);
    if k < j {
        assert(!col_has(g, j));
    }
    if k > j {
        assert(!col_has(g, k));
    }
}

/// Does row `i` of the board hold a set cell?
#[verifier::loop_isolation(false)]
fn row_has_true(g: &Board, i: usize) -> (r: bool)
    requires
        g.wf(),
        i < g@.len(),
    ensures
        r == row_has(g@, i as int),
{
    let cols = g.cols();
    let mut j: usize = 0;
    while j < cols
        invariant
            j <= cols,
            forall|l: int| 0 <= l < j ==> !(#[trigger] g@[i as int][l]),
        decreases cols - j,
    {
        if g.cell(i, j) {
            return true;
        }
        j = j + 1;
    }
    false
}

/// Does column `j` of the board hold a set cell?
#[verifier::loop_isolation(false)]
fn col_has_true(g: &Board, j: usize) -> (r: bool)
    requires
        g.wf(),
    ensures
        r == col_has(g@, j as int),
{
    let rows = g.rows();
    if rows == 0 {
        return false;
    }
    let cols = g.cols();
    if j >= cols {
        return false;
    }
    let mut i: usize = 0;
    while i < rows
        invariant
            i <= rows,
            (j as int) < cols,
            forall|k: int| 0 <= k < i ==> !(#[trigger] g@[k][j as int]),
        decreases rows - i,
    {
        if g.cell(i, j) {
            return true;
        }
        i = i + 1;
    }
    false
}

/// The pattern of `g` trimmed to the minimal bounding box of its set cells.
#[verifier::loop_isolation(false)]
pub fn normalize(g: &Board) -> (r: Board)
    requires
        g.wf(),
        has_cell(g@),
    ensures
        r.wf(),
        r@ == spec_normalize(g@),
        has_cell(r@),
{
    let rows = g.rows();
    let cols = g.cols();
    proof {
        let (a, b): (int, int) = choose|a: int, b: int| in_bounds(g@, a, b) && g@[a][b];
        assert(row_has(g@, a));
        assert(col_has(g@, b));
    }
    // topmost occupied row
    let mut r0: usize = 0;
    loop
        invariant
            r0 < rows,
            forall|k: int| 0 <= k < r0 ==> !row_has(g@, k),
        decreases rows - r0,
    {
        if row_has_true(g, r0) {
            break;
        }
        proof {
            if r0 + 1 >= rows {
                let (a, b): (int, int) = choose|a: int, b: int| in_bounds(g@, a, b) && g@[a][b];
                assert(row_has(g@, a));
                assert(false);
            }
        }
        r0 = r0 + 1;
    }
    // bottommost occupied row
    let mut r1: usize = rows - 1;
    loop
        invariant
            r1 < rows,
            forall|k: int| r1 < k < rows ==> !row_has(g@, k),
        decreases r1,
    {
        if row_has_true(g, r1) {
            break;
        }
        proof {
            if r1 == 0 {
                let (a, b): (int, int) = choose|a: int, b: int| in_bounds(g@, a, b) && g@[a][b];
                assert(row_has(g@, a));
                assert(false);
            }
        }
        r1 = r1 - 1;
    }
    // leftmost occupied column
    let mut c0: usize = 0;
    loop
        invariant
            c0 < cols,
            forall|k: int| 0 <= k < c0 ==> !col_has(g@, k),
        decreases cols - c0,
    {
        if col_has_true(g, c0) {
            break;
        }
        proof {
            if c0 + 1 >= cols {
                let (a, b): (int, int) = choose|a: int, b: int| in_bounds(g@, a, b) && g@[a][b];
                assert(col_has(g@, b));
                assert(false);
            }
        }
        c0 = c0 + 1;
    }
    // rightmost occupied column
    let mut c1: usize = cols - 1;
    loop
        invariant
            c1 < cols,
            forall|k: int| c1 < k ==> !col_has(g@, k),
        decreases c1,
    {
        if col_has_true(g, c1) {
            break;
        }
        proof {
            if c1 == 0 {
                let (a, b): (int, int) = choose|a: int, b: int| in_bounds(g@, a, b) && g@[a][b];
                assert(col_has(g@, b));
                assert(false);
            }
        }
        c1 = c1 - 1;
    }
    proof {
        lemma_min_row_is(g@, r0 as int);
        lemma_max_row_is(g@, r1 as int);
        lemma_min_col_is(g@, c0 as int);
        lemma_max_col_is(g@, c1 as int);
        if r1 < r0 {
            assert(!row_has(g@, r0 as int));
        }
        if c1 < c0 {
            assert(!col_has(g@, c0 as int));
        }
    }
    let nrows = r1 - r0 + 1;
    let ncols = c1 - c0 + 1;
    let mut out = Board::new((nrows, ncols));
    let mut i: usize = 0;
    while i < nrows
        invariant
            i <= nrows,
            out.wf(),
            out@.len() == nrows,
            r0 + nrows <= rows,
            c0 + ncols <= cols,
            forall|x: int| 0 <= x < nrows ==> (#[trigger] out@[x]).len() == ncols,
            forall|x: int, y: int|
                0 <= x < nrows && 0 <= y < ncols ==> #[trigger] out@[x][y] == (if x < i {
                    g@[r0 + x][c0 + y]
                } else {
                    false
                }),
        decreases nrows - i,
    {
        let mut j: usize = 0;
        while j < ncols
            invariant
                i < nrows,
                j <= ncols,
                out.wf(),
                out@.len() == nrows,
                forall|x: int| 0 <= x < nrows ==> (#[trigger] out@[x]).len() == ncols,
                forall|x: int, y: int|
                    0 <= x < nrows && 0 <= y < ncols ==> #[trigger] out@[x][y] == (if x < i || (x
                        == i && y < j) {
                        g@[r0 + x][c0 + y]
                    } else {
                        false
                    }),
            decreases ncols - j,
        {
            let v = g.cell(r0 + i, c0 + j);
            let _ = out.set(i, j, v);
            j = j + 1;
        }
        i = i + 1;
    }
    proof {
        assert forall|x: int| 0 <= x < nrows implies #[trigger] out@[x] =~= spec_normalize(
            g@,
        )[x] by {
            assert forall|y: int| 0 <= y < ncols implies #[trigger] out@[x][y] == spec_normalize(
                g@,
            )[x][y] by {}
        }
        assert(out@ =~~= spec_normalize(g@));
        // the top occupied row keeps a cell inside the trimmed window
        let cw = choose|cw: int| 0 <= cw < g@[r0 as int].len() && g@[r0 as int][cw];
        assert(col_has(g@, cw));
        assert(c0 <= cw <= c1);
        assert(out@[0][cw - c0] == g@[r0 as int][cw]);
        assert(in_bounds(out@, 0, cw - c0) && out@[0][cw - c0]);
        assert(has_cell(out@));
    }
    out
}

} // verus!
