//! The exact-cover solver: an area pre-check followed by recursive
//! backtracking. At each node the search targets the first uncovered allowed
//! cell in row-major order and tries, in canonical order, every placement of
//! an unused tile orientation that covers the target and fits; placements
//! are undone on failure. The first complete solution is returned.

use core::sync::atomic::AtomicBool;
use core::sync::atomic::Ordering;
use vstd::prelude::*;
use crate::grid::{
    Board,
    grid_count,
    has_cell,
    in_bounds,
    row_count,
    shifted_cell,
    spec_fits,
};
use crate::tile::Tile;

verus! {

/// Why an instance has no solution.
#[derive(Clone, Copy, Debug, PartialEq, Eq, Structural)]
pub enum UnsolvableReason {
    /// The tiles' total cell count falls short of the allowed cell count.
    TooFewTiles,
    /// The tiles' total cell count exceeds the allowed cell count.
    TooManyTiles,
    /// Areas match but the search exhausted every candidate placement.
    NoFit,
}

/// One tile laid onto the board: which tile, which of its canonical
/// orientations, and the (row, column) anchor of the orientation's top-left
/// corner.
#[derive(Clone, Copy, Debug, PartialEq, Eq)]
pub struct TilePlacement {
    /// Index of the tile in the tile list handed to the solver.
    pub tile: usize,
    /// Index into that tile's canonical orientation list.
    pub orientation: usize,
    /// Anchor (row, column) of the orientation's bounding box on the board.
    pub position: (usize, usize),
}

/// An ordered list of placements, one per tile, covering the allowed region
/// exactly once.
#[derive(Clone, Debug, PartialEq, Eq)]
pub struct Solution {
    /// The placements in the order the search chose them.
    pub placements: Vec<TilePlacement>,
}

/// What one solve request came to.
#[derive(Clone, Debug, PartialEq, Eq)]
pub enum SolveOutcome {
    /// The search found an exact cover.
    Solved(Solution),
    /// The search finished without a cover, or the pre-check failed.
    Unsolvable(UnsolvableReason),
    /// The caller interrupted the request before the search finished.
    Cancelled,
}

/// What one search node came to.
#[derive(Clone, Copy, Debug, PartialEq, Eq, Structural)]
enum NodeResult {
    /// The stack is a complete exact cover.
    Found,
    /// Every candidate below this node failed.
    Exhausted,
    /// The cancellation flag was observed set.
    Cancelled,
}

/// Sum of the tiles' base-pattern cell counts.
pub open spec fn total_tile_area(tiles: Seq<Tile>) -> nat
    decreases tiles.len(),
{
    if tiles.len() == 0 {
        0
    } else {
        total_tile_area(tiles.drop_last()) + grid_count(tiles.last().base@)
    }
}

/// Every tile in the list is well formed.
pub open spec fn tiles_wf(tiles: Seq<Tile>) -> bool {
    forall|i: int| 0 <= i < tiles.len() ==> (#[trigger] tiles[i]).wf()
}

/// The placement's indices address a real tile and orientation.
pub open spec fn placement_idx_wf(tiles: Seq<Tile>, p: TilePlacement) -> bool {
    p.tile < tiles.len() && p.orientation < tiles[p.tile as int].orientations@.len()
}

/// The orientation pattern a placement lays down.
pub open spec fn placement_grid(tiles: Seq<Tile>, p: TilePlacement) -> Seq<Seq<bool>> {
    tiles[p.tile as int].orientations@[p.orientation as int]@
}

/// Does placement `p` cover board cell (r, c)?
pub open spec fn placement_covers(tiles: Seq<Tile>, p: TilePlacement, r: int, c: int) -> bool {
    shifted_cell(placement_grid(tiles, p), p.position.0 as int, p.position.1 as int, r, c)
}

/// Does some placement of `ps` cover board cell (r, c)?
pub open spec fn covered_by_any(tiles: Seq<Tile>, ps: Seq<TilePlacement>, r: int, c: int) -> bool {
    exists|k: int| 0 <= k < ps.len() && placement_covers(tiles, ps[k], r, c)
}

/// Does some placement of `ps` use tile `t`?
pub open spec fn tile_used(ps: Seq<TilePlacement>, t: int) -> bool {
    exists|k: int| 0 <= k < ps.len() && (#[trigger] ps[k]).tile == t
}

/// The placements form an exact cover of the allowed cells of `board`:
/// every allowed cell is covered by exactly one placement, every tile is
/// used exactly once, and no placement cell lies outside the board or on a
/// disallowed cell.
pub open spec fn is_exact_cover(
    board: Seq<Seq<bool>>,
    tiles: Seq<Tile>,
    ps: Seq<TilePlacement>,
) -> bool {
    &&& ps.len() == tiles.len()
    &&& forall|k: int| 0 <= k < ps.len() ==> placement_idx_wf(tiles, #[trigger] ps[k])
    &&& forall|k: int, l: int| 0 <= k < l < ps.len() ==> ps[k].tile != ps[l].tile
    &&& forall|t: int| 0 <= t < tiles.len() ==> #[trigger] tile_used(ps, t)
    &&& forall|k: int, r: int, c: int|
        0 <= k < ps.len() && #[trigger] placement_covers(tiles, ps[k], r, c) ==> in_bounds(
            board,
            r,
            c,
        ) && board[r][c]
    &&& forall|r: int, c: int|
        in_bounds(board, r, c) && (#[trigger] board[r][c]) ==> covered_by_any(tiles, ps, r, c)
    &&& forall|k: int, l: int, r: int, c: int|
        0 <= k < ps.len() && 0 <= l < ps.len() && k != l && #[trigger] placement_covers(
            tiles,
            ps[k],
            r,
            c,
        ) ==> !(#[trigger] placement_covers(tiles, ps[l], r, c))
}

/// The search state is consistent: the stack's placements are valid,
/// pairwise disjoint, on allowed cells, in step with the used flags, and
/// `avail` holds exactly the allowed cells not covered by the stack.
spec fn search_inv(
    board: Seq<Seq<bool>>,
    tiles: Seq<Tile>,
    avail: Seq<Seq<bool>>,
    used: Seq<bool>,
    ps: Seq<TilePlacement>,
) -> bool {
    &&& used.len() == tiles.len()
    &&& ps.len() == row_count(used)
    &&& forall|k: int|
        0 <= k < ps.len() ==> placement_idx_wf(tiles, #[trigger] ps[k]) && used[ps[k].tile as int]
    &&& forall|k: int, l: int| 0 <= k < l < ps.len() ==> ps[k].tile != ps[l].tile
    &&& forall|t: int| 0 <= t < used.len() && (#[trigger] used[t]) ==> tile_used(ps, t)
    &&& avail.len() == board.len()
    &&& forall|i: int| 0 <= i < board.len() ==> (#[trigger] avail[i]).len() == board[i].len()
    &&& forall|r: int, c: int|
        in_bounds(board, r, c) ==> (#[trigger] avail[r][c]) == (board[r][c] && !covered_by_any(
            tiles,
            ps,
            r,
            c,
        ))
    &&& forall|k: int, r: int, c: int|
        0 <= k < ps.len() && #[trigger] placement_covers(tiles, ps[k], r, c) ==> in_bounds(
            board,
            r,
            c,
        ) && board[r][c]
    &&& forall|k: int, l: int, r: int, c: int|
        0 <= k < ps.len() && 0 <= l < ps.len() && k != l && #[trigger] placement_covers(
            tiles,
            ps[k],
            r,
            c,
        ) ==> !(#[trigger] placement_covers(tiles, ps[l], r, c))
}

/// Every placement of `ps` appears somewhere in `qs`.
pub open spec fn extends(qs: Seq<TilePlacement>, ps: Seq<TilePlacement>) -> bool {
    forall|k: int| 0 <= k < ps.len() ==> qs.contains(#[trigger] ps[k])
}

/// Some exact cover contains every placement already on the stack.
spec fn completion_exists(board: Seq<Seq<bool>>, tiles: Seq<Tile>, ps: Seq<TilePlacement>) -> bool {
    exists|qs: Seq<TilePlacement>| is_exact_cover(board, tiles, qs) && extends(qs, ps)
}

/// The candidate coordinates of `q` as a cover of target (tr, tc) - tile,
/// orientation, then the target's offset within the orientation pattern -
/// come lexicographically before (t, o, i, j) in the search's order.
pub open spec fn cand_before(q: TilePlacement, tr: int, tc: int, t: int, o: int, i: int, j: int) -> bool {
    ||| (q.tile as int) < t
    ||| (q.tile as int == t && (q.orientation as int) < o)
    ||| (q.tile as int == t && q.orientation as int == o && tr - q.position.0 < i)
    ||| (q.tile as int == t && q.orientation as int == o && tr - q.position.0 == i && tc
        - q.position.1 < j)
}

/// Placement `a`, as a cover of target (tr, tc), comes strictly before `b`
/// in the candidate order: tile index, then orientation index, then the
/// target's offset within the orientation pattern, row-major.
pub open spec fn cand_lt(a: TilePlacement, b: TilePlacement, tr: int, tc: int) -> bool {
    cand_before(a, tr, tc, b.tile as int, b.orientation as int, tr - b.position.0, tc
        - b.position.1)
}

/// (r, c) is the first allowed cell, in row-major order, that the stack
/// `ps` leaves uncovered: the cell the search targets at that node.
pub open spec fn is_first_free(
    board: Seq<Seq<bool>>,
    tiles: Seq<Tile>,
    ps: Seq<TilePlacement>,
    r: int,
    c: int,
) -> bool {
    &&& in_bounds(board, r, c)
    &&& board[r][c]
    &&& !covered_by_any(tiles, ps, r, c)
    &&& forall|r2: int, c2: int|
        in_bounds(board, r2, c2) && (r2 < r || (r2 == r && c2 < c)) && (#[trigger] board[r2][c2])
            ==> covered_by_any(tiles, ps, r2, c2)
}

/// The solution `sol` comes no later than the exact cover `qs` in the
/// search's canonical order, with any divergence at depth `lo` or beyond:
/// either `qs` consists of the very placements of `sol`, or at the first
/// node where they part, `sol` covers that node's target cell with a
/// strictly earlier candidate than `qs` does.
pub open spec fn canonically_first_from(
    board: Seq<Seq<bool>>,
    tiles: Seq<Tile>,
    sol: Seq<TilePlacement>,
    qs: Seq<TilePlacement>,
    lo: int,
) -> bool {
    extends(qs, sol) || exists|m: int, r2: int, c2: int, k2: int|
        #![trigger extends(qs, sol.take(m)), placement_covers(tiles, qs[k2], r2, c2)]
        {
            &&& lo <= m < sol.len()
            &&& extends(qs, sol.take(m))
            &&& is_first_free(board, tiles, sol.take(m), r2, c2)
            &&& 0 <= k2 < qs.len()
            &&& placement_covers(tiles, qs[k2], r2, c2)
            &&& cand_lt(sol[m], qs[k2], r2, c2)
        }
}

/// Placement `m` of `sol` covers the node target of the placements before
/// it: the first allowed cell, in row-major order, that they leave free.
pub open spec fn covers_node_target(
    board: Seq<Seq<bool>>,
    tiles: Seq<Tile>,
    sol: Seq<TilePlacement>,
    m: int,
) -> bool {
    exists|r2: int, c2: int|
        is_first_free(board, tiles, sol.take(m), r2, c2) && #[trigger] placement_covers(
            tiles,
            sol[m],
            r2,
            c2,
        )
}

/// The placements of `sol` are in the search's node order: each one covers
/// the first allowed cell, in row-major order, that the placements before
/// it leave uncovered.
pub open spec fn canonically_ordered(
    board: Seq<Seq<bool>>,
    tiles: Seq<Tile>,
    sol: Seq<TilePlacement>,
) -> bool {
    forall|m: int| 0 <= m < sol.len() ==> #[trigger] covers_node_target(board, tiles, sol, m)
}

/// No exact cover extending `ps0` covers the target cell with a candidate
/// that comes before (t, o, i, j): those candidates are all exhausted.
spec fn no_cand_before(
    board: Seq<Seq<bool>>,
    tiles: Seq<Tile>,
    ps0: Seq<TilePlacement>,
    tr: int,
    tc: int,
    t: int,
    o: int,
    i: int,
    j: int,
) -> bool {
    forall|qs: Seq<TilePlacement>, k: int|
        is_exact_cover(board, tiles, qs) && extends(qs, ps0) && 0 <= k < qs.len()
            && #[trigger] placement_covers(tiles, qs[k], tr, tc) ==> !cand_before(
            qs[k],
            tr,
            tc,
            t,
            o,
            i,
            j,
        )
}

/// No exact cover extending `ps0` covers the target cell with the candidate
/// at exactly (t, o, i, j).
spec fn no_cand_at(
    board: Seq<Seq<bool>>,
    tiles: Seq<Tile>,
    ps0: Seq<TilePlacement>,
    tr: int,
    tc: int,
    t: int,
    o: int,
    i: int,
    j: int,
) -> bool {
    forall|qs: Seq<TilePlacement>, k: int|
        is_exact_cover(board, tiles, qs) && extends(qs, ps0) && 0 <= k < qs.len()
            && #[trigger] placement_covers(tiles, qs[k], tr, tc) ==> !(qs[k].tile as int == t
            && qs[k].orientation as int == o && tr - qs[k].position.0 == i && tc - qs[k].position.1
            == j)
}

/// In an exact cover `qs` that extends the stack, the placement `qs[k]`
/// covering the still-free target cell is a valid candidate: its tile is
/// unused, its anchor does not pass the target, and its whole pattern fits
/// on free allowed cells.
proof fn lemma_completion_candidate(
    board: Seq<Seq<bool>>,
    tiles: Seq<Tile>,
    avail: Seq<Seq<bool>>,
    used: Seq<bool>,
    ps: Seq<TilePlacement>,
    qs: Seq<TilePlacement>,
    k: int,
    tr: int,
    tc: int,
)
    requires
        search_inv(board, tiles, avail, used, ps),
        is_exact_cover(board, tiles, qs),
        extends(qs, ps),
        in_bounds(avail, tr, tc),
        avail[tr][tc],
        0 <= k < qs.len(),
        placement_covers(tiles, qs[k], tr, tc),
    ensures
        placement_idx_wf(tiles, qs[k]),
        !used[qs[k].tile as int],
        qs[k].position.0 <= tr,
        qs[k].position.1 <= tc,
        spec_fits(
            avail,
            placement_grid(tiles, qs[k]),
            qs[k].position.0 as int,
            qs[k].position.1 as int,
        ),
        extends(qs, ps.push(qs[k])),
{
    let q = qs[k];
    assert(in_bounds(board, tr, tc));
    assert(!covered_by_any(tiles, ps, tr, tc));
    // no stack placement covers the target, so q is not on the stack, and
    // its tile cannot already be used
    if used[q.tile as int] {
        assert(tile_used(ps, q.tile as int));
        let l = choose|l: int| 0 <= l < ps.len() && (#[trigger] ps[l]).tile == q.tile as int;
        assert(qs.contains(ps[l]));
        let l2 = choose|l2: int| 0 <= l2 < qs.len() && qs[l2] == ps[l];
        if placement_covers(tiles, ps[l], tr, tc) {
            assert(covered_by_any(tiles, ps, tr, tc));
        }
        assert(qs[l2] != qs[k]);
        assert(l2 != k);
        assert(qs[l2].tile == qs[k].tile);
        assert(false);
    }
    // every cell of q's pattern is an allowed cell not covered by the stack
    let g = placement_grid(tiles, q);
    assert forall|i2: int, j2: int|
        0 <= i2 < g.len() && 0 <= j2 < g[i2].len() && (#[trigger] g[i2][j2]) implies in_bounds(
        avail,
        q.position.0 + i2,
        q.position.1 + j2,
    ) && avail[q.position.0 + i2][q.position.1 + j2] by {
        let r = q.position.0 + i2;
        let c = q.position.1 + j2;
        assert(placement_covers(tiles, q, r, c));
        assert(in_bounds(board, r, c) && board[r][c]);
        if covered_by_any(tiles, ps, r, c) {
            let l = choose|l: int| 0 <= l < ps.len() && placement_covers(tiles, ps[l], r, c);
            assert(qs.contains(ps[l]));
            let l2 = choose|l2: int| 0 <= l2 < qs.len() && qs[l2] == ps[l];
            if placement_covers(tiles, ps[l], tr, tc) {
                assert(covered_by_any(tiles, ps, tr, tc));
            }
            assert(qs[l2] != qs[k]);
            assert(l2 != k);
            assert(!placement_covers(tiles, qs[l2], r, c));
            assert(false);
        }
        assert(in_bounds(avail, r, c));
        assert(avail[r][c]);
    }
    assert(qs.contains(q));
    assert forall|m: int| 0 <= m < ps.push(q).len() implies qs.contains(
        #[trigger] ps.push(q)[m],
    ) by {
        if m < ps.len() {
            assert(ps.push(q)[m] == ps[m]);
        } else {
            assert(ps.push(q)[m] == q);
        }
    }
}

/// A row's set-cell count never exceeds its length.
proof fn lemma_row_count_le(s: Seq<bool>)
    ensures
        row_count(s) <= s.len(),
    decreases s.len(),
{
    if s.len() > 0 {
        lemma_row_count_le(s.drop_last());
    }
}

/// Updating one flag changes the count by the difference of the two flags.
proof fn lemma_row_count_update(s: Seq<bool>, i: int, v: bool)
    requires
        0 <= i < s.len(),
    ensures
        row_count(s.update(i, v)) + (if s[i] {
            1int
        } else {
            0int
        }) == row_count(s) + (if v {
            1int
        } else {
            0int
        }),
    decreases s.len(),
{
    let t = s.update(i, v);
    if i == s.len() - 1 {
        assert(t.drop_last() =~= s.drop_last());
        assert(t.last() == v);
    } else {
        lemma_row_count_update(s.drop_last(), i, v);
        assert(t.drop_last() =~= s.drop_last().update(i, v));
        assert(t.last() == s.last());
    }
}

/// If every flag is set, the count equals the length.
proof fn lemma_row_count_all_true(s: Seq<bool>)
    requires
        forall|i: int| 0 <= i < s.len() ==> s[i],
    ensures
        row_count(s) == s.len(),
    decreases s.len(),
{
    if s.len() > 0 {
        lemma_row_count_all_true(s.drop_last());
    }
}

/// A prefix of the tile list never has more total area than the whole list.
proof fn lemma_total_area_prefix(tiles: Seq<Tile>, i: int)
    requires
        0 <= i <= tiles.len(),
    ensures
        total_tile_area(tiles.take(i)) <= total_tile_area(tiles),
    decreases tiles.len() - i,
{
    if i == tiles.len() {
        assert(tiles.take(i) =~= tiles);
    } else {
        assert(tiles.take(i + 1).drop_last() =~= tiles.take(i));
        assert(tiles.take(i + 1).last() == tiles[i]);
        lemma_total_area_prefix(tiles, i + 1);
    }
}

/// Pushing a placement extends the covered region by exactly that
/// placement's cells.
proof fn lemma_covered_push(
    tiles: Seq<Tile>,
    ps: Seq<TilePlacement>,
    p: TilePlacement,
    r: int,
    c: int,
)
    ensures
        covered_by_any(tiles, ps.push(p), r, c) == (covered_by_any(tiles, ps, r, c)
            || placement_covers(tiles, p, r, c)),
{
    let q = ps.push(p);
    if covered_by_any(tiles, q, r, c) {
        let k = choose|k: int| 0 <= k < q.len() && placement_covers(tiles, q[k], r, c);
        if k < ps.len() {
            assert(q[k] == ps[k]);
            assert(covered_by_any(tiles, ps, r, c));
        } else {
            assert(q[k] == p);
        }
    }
    if covered_by_any(tiles, ps, r, c) {
        let k = choose|k: int| 0 <= k < ps.len() && placement_covers(tiles, ps[k], r, c);
        assert(q[k] == ps[k]);
        assert(covered_by_any(tiles, q, r, c));
    }
    if placement_covers(tiles, p, r, c) {
        assert(q[ps.len() as int] == p);
        assert(covered_by_any(tiles, q, r, c));
    }
}

/// A stack has at most one first free cell.
proof fn lemma_first_free_unique(
    board: Seq<Seq<bool>>,
    tiles: Seq<Tile>,
    ps: Seq<TilePlacement>,
    r: int,
    c: int,
    r2: int,
    c2: int,
)
    requires
        is_first_free(board, tiles, ps, r, c),
        is_first_free(board, tiles, ps, r2, c2),
    ensures
        r == r2 && c == c2,
{
    if r < r2 || (r == r2 && c < c2) {
        assert(covered_by_any(tiles, ps, r, c));
        assert(false);
    }
    if r2 < r || (r == r2 && c2 < c) {
        assert(covered_by_any(tiles, ps, r2, c2));
        assert(false);
    }
}

/// In a canonically ordered exact cover, the placement covering the node
/// target of depth `m` is the placement at depth `m` itself.
proof fn lemma_coverer_is_node(
    board: Seq<Seq<bool>>,
    tiles: Seq<Tile>,
    y: Seq<TilePlacement>,
    m: int,
    r: int,
    c: int,
    k: int,
)
    requires
        is_exact_cover(board, tiles, y),
        canonically_ordered(board, tiles, y),
        0 <= m < y.len(),
        is_first_free(board, tiles, y.take(m), r, c),
        0 <= k < y.len(),
        placement_covers(tiles, y[k], r, c),
    ensures
        k == m,
{
    assert(covers_node_target(board, tiles, y, m));
    let (r2, c2): (int, int) = choose|r2: int, c2: int|
        is_first_free(board, tiles, y.take(m), r2, c2) && placement_covers(tiles, y[m], r2, c2);
    lemma_first_free_unique(board, tiles, y.take(m), r, c, r2, c2);
    assert(placement_covers(tiles, y[m], r, c));
    if k != m {
        assert(false);
    }
}

/// A candidate covering the node target of a depth on which two covers
/// still agree is that depth's shared placement itself.
proof fn lemma_witness_below(
    board: Seq<Seq<bool>>,
    tiles: Seq<Tile>,
    x: Seq<TilePlacement>,
    y: Seq<TilePlacement>,
    m: int,
    mw: int,
    rw: int,
    cw: int,
    kw: int,
)
    requires
        is_exact_cover(board, tiles, y),
        canonically_ordered(board, tiles, y),
        0 <= mw < m <= x.len(),
        m <= y.len(),
        x.take(m) == y.take(m),
        is_first_free(board, tiles, x.take(mw), rw, cw),
        0 <= kw < y.len(),
        placement_covers(tiles, y[kw], rw, cw),
    ensures
        kw == mw,
        y[mw] == x[mw],
{
    assert(x[mw] == y[mw]) by {
        assert(x.take(m)[mw] == x[mw]);
        assert(y.take(m)[mw] == y[mw]);
        assert(x.take(m)[mw] == y.take(m)[mw]);
    }
    assert(y.take(mw) =~= x.take(mw)) by {
        assert forall|i3: int| 0 <= i3 < mw implies y.take(mw)[i3] == x.take(mw)[i3] by {
            assert(x.take(m)[i3] == y.take(m)[i3]);
        }
    }
    lemma_coverer_is_node(board, tiles, y, mw, rw, cw, kw);
}

/// The prefixes of two canonically ordered, canonically first exact covers
/// agree to every depth.
proof fn lemma_prefix_eq(
    board: Seq<Seq<bool>>,
    tiles: Seq<Tile>,
    a: Seq<TilePlacement>,
    b: Seq<TilePlacement>,
    i: int,
)
    requires
        is_exact_cover(board, tiles, a),
        is_exact_cover(board, tiles, b),
        canonically_ordered(board, tiles, a),
        canonically_ordered(board, tiles, b),
        forall|qs: Seq<TilePlacement>|
            #![trigger is_exact_cover(board, tiles, qs)]
            is_exact_cover(board, tiles, qs) ==> canonically_first_from(board, tiles, a, qs, 0),
        forall|qs: Seq<TilePlacement>|
            #![trigger is_exact_cover(board, tiles, qs)]
            is_exact_cover(board, tiles, qs) ==> canonically_first_from(board, tiles, b, qs, 0),
        0 <= i <= a.len(),
    ensures
        a.take(i) == b.take(i),
    decreases i,
{
    if i == 0 {
        assert(a.take(0) =~= b.take(0));
        return;
    }
    lemma_prefix_eq(board, tiles, a, b, i - 1);
    let m = i - 1;
    assert(a.len() == tiles.len() && b.len() == tiles.len());
    assert(covers_node_target(board, tiles, a, m));
    assert(covers_node_target(board, tiles, b, m));
    let (r1, c1): (int, int) = choose|r1: int, c1: int|
        is_first_free(board, tiles, a.take(m), r1, c1) && placement_covers(tiles, a[m], r1, c1);
    let (r2, c2): (int, int) = choose|r2: int, c2: int|
        is_first_free(board, tiles, b.take(m), r2, c2) && placement_covers(tiles, b[m], r2, c2);
    assert(b.take(m) == a.take(m));
    lemma_first_free_unique(board, tiles, a.take(m), r1, c1, r2, c2);
    if a[m] != b[m] {
        assert(canonically_first_from(board, tiles, a, b, 0));
        if extends(b, a) {
            assert(b.contains(a[m]));
            let ka = choose|ka: int| 0 <= ka < b.len() && b[ka] == a[m];
            assert(placement_covers(tiles, b[ka], r1, c1));
            lemma_coverer_is_node(board, tiles, b, m, r1, c1, ka);
            assert(false);
        } else {
            let (ma, ra, ca, kb): (int, int, int, int) = choose|
                ma: int,
                ra: int,
                ca: int,
                kb: int,
            |
                {
                    &&& 0 <= ma < a.len()
                    &&& extends(b, a.take(ma))
                    &&& is_first_free(board, tiles, a.take(ma), ra, ca)
                    &&& 0 <= kb < b.len()
                    &&& placement_covers(tiles, b[kb], ra, ca)
                    &&& cand_lt(a[ma], b[kb], ra, ca)
                };
            if ma < m {
                lemma_witness_below(board, tiles, a, b, m, ma, ra, ca, kb);
                // nothing comes strictly before itself in the order
                assert(!cand_lt(b[ma], b[ma], ra, ca));
                assert(false);
            } else if ma > m {
                assert(a.take(ma)[m] == a[m]);
                assert(b.contains(a[m]));
                let ka = choose|ka: int| 0 <= ka < b.len() && b[ka] == a[m];
                assert(placement_covers(tiles, b[ka], r1, c1));
                lemma_coverer_is_node(board, tiles, b, m, r1, c1, ka);
                assert(false);
            } else {
                // ma == m: a comes strictly first at this node
                lemma_first_free_unique(board, tiles, a.take(m), ra, ca, r1, c1);
                lemma_coverer_is_node(board, tiles, b, m, r1, c1, kb);
                assert(cand_lt(a[m], b[m], r1, c1));
                // and symmetrically b comes strictly first: absurd
                assert(canonically_first_from(board, tiles, b, a, 0));
                if extends(a, b) {
                    assert(a.contains(b[m]));
                    let ka2 = choose|ka2: int| 0 <= ka2 < a.len() && a[ka2] == b[m];
                    assert(placement_covers(tiles, a[ka2], r1, c1));
                    lemma_coverer_is_node(board, tiles, a, m, r1, c1, ka2);
                    assert(false);
                } else {
                    let (mb, rb, cb, ka3): (int, int, int, int) = choose|
                        mb: int,
                        rb: int,
                        cb: int,
                        ka3: int,
                    |
                        {
                            &&& 0 <= mb < b.len()
                            &&& extends(a, b.take(mb))
                            &&& is_first_free(board, tiles, b.take(mb), rb, cb)
                            &&& 0 <= ka3 < a.len()
                            &&& placement_covers(tiles, a[ka3], rb, cb)
                            &&& cand_lt(b[mb], a[ka3], rb, cb)
                        };
                    if mb < m {
                        lemma_witness_below(board, tiles, b, a, m, mb, rb, cb, ka3);
                        assert(!cand_lt(a[mb], a[mb], rb, cb));
                        assert(false);
                    } else if mb > m {
                        assert(b.take(mb)[m] == b[m]);
                        assert(a.contains(b[m]));
                        let ka4 = choose|ka4: int| 0 <= ka4 < a.len() && a[ka4] == b[m];
                        assert(placement_covers(tiles, a[ka4], r1, c1));
                        lemma_coverer_is_node(board, tiles, a, m, r1, c1, ka4);
                        assert(false);
                    } else {
                        lemma_first_free_unique(board, tiles, b.take(m), rb, cb, r1, c1);
                        lemma_coverer_is_node(board, tiles, a, m, r1, c1, ka3);
                        assert(cand_lt(b[m], a[m], r1, c1));
                        assert(false);
                    }
                }
            }
        }
    }
    assert(a.take(i) =~= b.take(i)) by {
        assert forall|i3: int| 0 <= i3 < i implies a.take(i)[i3] == b.take(i)[i3] by {
            if i3 < m {
                assert(a.take(m)[i3] == b.take(m)[i3]);
            }
        }
    }
}

/// Law: the solver's contract pins the solution. Any two placement
/// sequences that are exact covers of one instance, are canonically
/// ordered, and come canonically first among all exact covers - as every
/// `Ok` result of `solve_all_filling` and every `Solved` outcome of
/// `solve_with_cancel` does by their contracts - are the same sequence.
/// Two solves of equal inputs therefore return identical solutions.
pub proof fn lemma_solver_deterministic(
    board: Seq<Seq<bool>>,
    tiles: Seq<Tile>,
    a: Seq<TilePlacement>,
    b: Seq<TilePlacement>,
)
    requires
        is_exact_cover(board, tiles, a),
        is_exact_cover(board, tiles, b),
        canonically_ordered(board, tiles, a),
        canonically_ordered(board, tiles, b),
        forall|qs: Seq<TilePlacement>|
            #![trigger is_exact_cover(board, tiles, qs)]
            is_exact_cover(board, tiles, qs) ==> canonically_first_from(board, tiles, a, qs, 0),
        forall|qs: Seq<TilePlacement>|
            #![trigger is_exact_cover(board, tiles, qs)]
            is_exact_cover(board, tiles, qs) ==> canonically_first_from(board, tiles, b, qs, 0),
    ensures
        a == b,
{
    lemma_prefix_eq(board, tiles, a, b, a.len() as int);
    assert(a.take(a.len() as int) =~= a);
    assert(b.take(b.len() as int) =~= b);
}

/// One node of the backtracking search. `avail` holds the allowed cells not
/// yet covered by the stack `ps`; on success the stack is a full exact
/// cover, otherwise all three mutable states are restored exactly. The
/// cancellation flag, when one is given, is consulted before the node is
/// expanded; an observed interrupt unwinds the search.
#[verifier::loop_isolation(false)]
#[verifier::rlimit(60)]
fn search(
    board: &Board,
    tiles: &Vec<Tile>,
    remaining: usize,
    avail: &mut Board,
    used: &mut Vec<bool>,
    ps: &mut Vec<TilePlacement>,
    cancel: Option<&AtomicBool>,
) -> (st: NodeResult)
    requires
        board.wf(),
        tiles_wf(tiles@),
        old(avail).wf(),
        search_inv(board@, tiles@, old(avail)@, old(used)@, old(ps)@),
        remaining == tiles@.len() - row_count(old(used)@),
    ensures
        final(avail).wf(),
        st == NodeResult::Found ==> is_exact_cover(board@, tiles@, final(ps)@),
        st != NodeResult::Found ==> final(avail)@ == old(avail)@ && final(used)@ == old(used)@
            && final(ps)@ == old(ps)@,
        st == NodeResult::Exhausted ==> !completion_exists(board@, tiles@, old(ps)@),
        st == NodeResult::Found ==> final(ps)@.len() >= old(ps)@.len() && final(ps)@.take(
            old(ps)@.len() as int,
        ) == old(ps)@,
        st == NodeResult::Found ==> forall|qs: Seq<TilePlacement>|
            #![trigger is_exact_cover(board@, tiles@, qs)]
            is_exact_cover(board@, tiles@, qs) && extends(qs, old(ps)@)
                ==> canonically_first_from(
                board@,
                tiles@,
                final(ps)@,
                qs,
                old(ps)@.len() as int,
            ),
        st == NodeResult::Found ==> forall|m: int|
            old(ps)@.len() <= m < final(ps)@.len() ==> #[trigger] covers_node_target(
                board@,
                tiles@,
                final(ps)@,
                m,
            ),
        cancel is None ==> st != NodeResult::Cancelled,
    decreases remaining,
{
    let polled = match cancel {
        Some(flag) => flag.load(Ordering::SeqCst),
        None => false,
    };
    if polled {
        return NodeResult::Cancelled;
    }
    let target = avail.find_first_true();
    match target {
        None => {
            // every allowed cell is covered; a solution needs every tile used
            let mut t: usize = 0;
            while t < used.len()
                invariant
                    t <= used@.len(),
                    forall|x: int| 0 <= x < t ==> old(used)@[x],
                decreases used@.len() - t,
            {
                if !used[t] {
                    proof {
                        // the board is fully covered yet a tile is unused: no
                        // exact cover can extend the stack
                        if completion_exists(board@, tiles@, old(ps)@) {
                            let qs = choose|qs: Seq<TilePlacement>|
                                is_exact_cover(board@, tiles@, qs) && extends(qs, old(ps)@);
                            assert(tile_used(qs, t as int));
                            let k = choose|k: int|
                                0 <= k < qs.len() && (#[trigger] qs[k]).tile == t as int;
                            assert(placement_idx_wf(tiles@, qs[k]));
                            assert(tiles@[t as int].wf());
                            let g = placement_grid(tiles@, qs[k]);
                            assert(has_cell(g));
                            let (i2, j2): (int, int) = choose|i2: int, j2: int|
                                in_bounds(g, i2, j2) && g[i2][j2];
                            let r = qs[k].position.0 + i2;
                            let c = qs[k].position.1 + j2;
                            assert(placement_covers(tiles@, qs[k], r, c));
                            assert(in_bounds(board@, r, c) && board@[r][c]);
                            assert(in_bounds(old(avail)@, r, c));
                            assert(!old(avail)@[r][c]);
                            assert(covered_by_any(tiles@, old(ps)@, r, c));
                            let l = choose|l: int|
                                0 <= l < old(ps)@.len() && placement_covers(
                                    tiles@,
                                    old(ps)@[l],
                                    r,
                                    c,
                                );
                            assert(qs.contains(old(ps)@[l]));
                            let l2 = choose|l2: int| 0 <= l2 < qs.len() && qs[l2] == old(ps)@[l];
                            assert(old(used)@[old(ps)@[l].tile as int]);
                            assert(qs[l2].tile != qs[k].tile);
                            assert(l2 != k);
                            assert(!placement_covers(tiles@, qs[l2], r, c));
                            assert(false);
                        }
                    }
                    return NodeResult::Exhausted;
                }
                t = t + 1;
            }
            proof {
                lemma_row_count_all_true(old(used)@);
                assert forall|r: int, c: int|
                    in_bounds(board@, r, c) && (#[trigger] board@[r][c]) implies covered_by_any(
                    tiles@,
                    old(ps)@,
                    r,
                    c,
                ) by {
                    assert(in_bounds(old(avail)@, r, c));
                    assert(!old(avail)@[r][c]);
                }
                assert forall|t2: int| 0 <= t2 < tiles@.len() implies #[trigger] tile_used(
                    old(ps)@,
                    t2,
                ) by {
                    assert(old(used)@[t2]);
                }
                assert(is_exact_cover(board@, tiles@, old(ps)@));
                assert(old(ps)@.take(old(ps)@.len() as int) =~= old(ps)@);
                assert forall|qs: Seq<TilePlacement>|
                    is_exact_cover(board@, tiles@, qs) && extends(
                        qs,
                        old(ps)@,
                    ) implies canonically_first_from(
                    board@,
                    tiles@,
                    old(ps)@,
                    qs,
                    old(ps)@.len() as int,
                ) by {}
            }
            NodeResult::Found
        },
        Some(rc) => {
            let tr = rc.0;
            let tc = rc.1;
            proof {
                assert forall|qs: Seq<TilePlacement>, k: int|
                    is_exact_cover(board@, tiles@, qs) && extends(qs, old(ps)@) && 0 <= k
                        < qs.len() && #[trigger] placement_covers(
                        tiles@,
                        qs[k],
                        tr as int,
                        tc as int,
                    ) implies !cand_before(qs[k], tr as int, tc as int, 0, 0, 0, 0) by {}
                assert(no_cand_before(board@, tiles@, old(ps)@, tr as int, tc as int, 0, 0, 0, 0));
            }
            let mut t: usize = 0;
            while t < tiles.len()
                invariant
                    t <= tiles@.len(),
                    avail.wf(),
                    avail@ == old(avail)@,
                    used@ == old(used)@,
                    ps@ == old(ps)@,
                    no_cand_before(board@, tiles@, old(ps)@, tr as int, tc as int, t as int, 0, 0, 0),
                decreases tiles@.len() - t,
            {
                if !used[t] {
                    let tile_ref = &tiles[t];
                    let ocount = tile_ref.orientations.len();
                    let mut o: usize = 0;
                    while o < ocount
                        invariant
                            o <= ocount,
                            t < tiles@.len(),
                            !old(used)@[t as int],
                            ocount == tiles@[t as int].orientations@.len(),
                            avail.wf(),
                            avail@ == old(avail)@,
                            used@ == old(used)@,
                            ps@ == old(ps)@,
                            no_cand_before(board@, tiles@, old(ps)@, tr as int, tc as int, t as int, o as int, 0, 0),
                        decreases ocount - o,
                    {
                        let og = &tile_ref.orientations[o];
                        proof {
                            assert(tiles@[t as int].wf());
                            assert(og.wf());
                        }
                        let orows = og.rows();
                        let ocols = og.cols();
                        let mut oi: usize = 0;
                        while oi < orows
                            invariant
                                oi <= orows,
                                o < ocount,
                                t < tiles@.len(),
                                !old(used)@[t as int],
                                ocount == tiles@[t as int].orientations@.len(),
                                og.wf(),
                                og@ == tiles@[t as int].orientations@[o as int]@,
                                orows == og@.len(),
                                forall|x: int|
                                    0 <= x < og@.len() ==> (#[trigger] og@[x]).len() == ocols,
                                avail.wf(),
                                avail@ == old(avail)@,
                                used@ == old(used)@,
                                ps@ == old(ps)@,
                                no_cand_before(board@, tiles@, old(ps)@, tr as int, tc as int, t as int, o as int, oi as int, 0),
                            decreases orows - oi,
                        {
                            let mut oj: usize = 0;
                            while oj < ocols
                                invariant
                                    oj <= ocols,
                                    oi < orows,
                                    o < ocount,
                                    t < tiles@.len(),
                                    !old(used)@[t as int],
                                    ocount == tiles@[t as int].orientations@.len(),
                                    og.wf(),
                                    og@ == tiles@[t as int].orientations@[o as int]@,
                                    orows == og@.len(),
                                    forall|x: int|
                                        0 <= x < og@.len() ==> (#[trigger] og@[x]).len() == ocols,
                                    avail.wf(),
                                    avail@ == old(avail)@,
                                    used@ == old(used)@,
                                    ps@ == old(ps)@,
                                    no_cand_before(board@, tiles@, old(ps)@, tr as int, tc as int, t as int, o as int, oi as int, oj as int),
                                decreases ocols - oj,
                            {
                                let cell_ok = og.cell(oi, oj) && oi <= tr && oj <= tc;
                                if cell_ok {
                                    let ar = tr - oi;
                                    let ac = tc - oj;
                                    if avail.fits(og, ar, ac) {
                                        let ghost avail0 = avail@;
                                        avail.subtract_shifted(og, ar, ac);
                                        used[t] = true;
                                        let p = TilePlacement {
                                            tile: t,
                                            orientation: o,
                                            position: (ar, ac),
                                        };
                                        ps.push(p);
                                        proof {
                                            assert(placement_grid(tiles@, p) == og@);
                                            lemma_row_count_update(old(used)@, t as int, true);
                                            lemma_row_count_le(used@);
                                            // the new placement lands on free allowed cells
                                            assert forall|rr: int, cc: int| #[trigger]
                                                placement_covers(
                                                    tiles@,
                                                    p,
                                                    rr,
                                                    cc,
                                                ) implies in_bounds(board@, rr, cc)
                                                && board@[rr][cc] && avail0[rr][cc] by {
                                                let i2 = rr - ar;
                                                let j2 = cc - ac;
                                                assert(og@[i2][j2]);
                                                assert(in_bounds(avail0, ar + i2, ac + j2)
                                                    && avail0[ar + i2][ac + j2]);
                                                assert(in_bounds(board@, rr, cc));
                                            }
                                            // avail now excludes the new placement's cells
                                            assert forall|rr: int, cc: int|
                                                in_bounds(board@, rr, cc) implies (
                                            #[trigger] avail@[rr][cc]) == (board@[rr][cc]
                                                && !covered_by_any(tiles@, ps@, rr, cc)) by {
                                                lemma_covered_push(tiles@, old(ps)@, p, rr, cc);
                                                assert(in_bounds(avail0, rr, cc));
                                                assert(avail@[rr][cc] == (avail0[rr][cc]
                                                    && !shifted_cell(
                                                    og@,
                                                    ar as int,
                                                    ac as int,
                                                    rr,
                                                    cc,
                                                )));
                                            }
                                            // used flags stay in step with the stack
                                            assert forall|t2: int|
                                                0 <= t2 < used@.len() && (
                                            #[trigger] used@[t2]) implies tile_used(ps@, t2) by {
                                                if t2 == t as int {
                                                    assert(ps@[old(ps)@.len() as int] == p);
                                                } else {
                                                    assert(old(used)@[t2]);
                                                    let k = choose|k: int|
                                                        0 <= k < old(ps)@.len() && (
                                                        #[trigger] old(ps)@[k]).tile == t2;
                                                    assert(ps@[k] == old(ps)@[k]);
                                                }
                                            }
                                            // disjointness of the new placement from the stack
                                            assert forall|k: int, rr: int, cc: int|
                                                0 <= k < old(ps)@.len() && #[trigger]
                                                placement_covers(
                                                    tiles@,
                                                    old(ps)@[k],
                                                    rr,
                                                    cc,
                                                ) implies !placement_covers(
                                                tiles@,
                                                p,
                                                rr,
                                                cc,
                                            ) by {
                                                if placement_covers(tiles@, p, rr, cc) {
                                                    assert(avail0[rr][cc]);
                                                    assert(covered_by_any(
                                                        tiles@,
                                                        old(ps)@,
                                                        rr,
                                                        cc,
                                                    ));
                                                    assert(false);
                                                }
                                            }
                                            assert forall|k: int|
                                                0 <= k < ps@.len() implies placement_idx_wf(
                                                tiles@,
                                                #[trigger] ps@[k],
                                            ) && used@[ps@[k].tile as int] by {
                                                if k < old(ps)@.len() {
                                                    assert(ps@[k] == old(ps)@[k]);
                                                }
                                            }
                                            assert(search_inv(
                                                board@,
                                                tiles@,
                                                avail@,
                                                used@,
                                                ps@,
                                            ));
                                            assert(remaining >= 1);
                                        }
                                        let st = search(
                                            board,
                                            tiles,
                                            remaining - 1,
                                            avail,
                                            used,
                                            ps,
                                            cancel,
                                        );
                                        if matches!(st, NodeResult::Found) {
                                            proof {
                                                let l0 = old(ps)@.len() as int;
                                                // the stack keeps the caller's prefix, then p
                                                assert(ps@.take(l0 + 1) == old(ps)@.push(p));
                                                assert forall|i3: int| 0 <= i3 < l0 implies ps@.take(
                                                    l0,
                                                )[i3] == old(ps)@[i3] by {
                                                    assert(ps@.take(l0 + 1)[i3] == old(ps)@.push(
                                                        p,
                                                    )[i3]);
                                                }
                                                assert(ps@.take(l0) =~= old(ps)@);
                                                assert(ps@[l0] == p) by {
                                                    assert(ps@.take(l0 + 1)[l0] == old(ps)@.push(
                                                        p,
                                                    )[l0]);
                                                }
                                                // p covers the node's target cell
                                                assert(placement_covers(
                                                    tiles@,
                                                    p,
                                                    tr as int,
                                                    tc as int,
                                                ));
                                                // the node's target is the prefix's first free cell
                                                assert(is_first_free(
                                                    board@,
                                                    tiles@,
                                                    old(ps)@,
                                                    tr as int,
                                                    tc as int,
                                                )) by {
                                                    assert(in_bounds(board@, tr as int, tc as int));
                                                    assert(board@[tr as int][tc as int]);
                                                    assert(!covered_by_any(
                                                        tiles@,
                                                        old(ps)@,
                                                        tr as int,
                                                        tc as int,
                                                    ));
                                                    assert forall|r2: int, c2: int|
                                                        in_bounds(board@, r2, c2) && (r2
                                                            < tr as int || (r2 == tr as int && c2
                                                            < tc as int)) && (
                                                        #[trigger] board@[r2][c2]) implies covered_by_any(
                                                        tiles@,
                                                        old(ps)@,
                                                        r2,
                                                        c2,
                                                    ) by {
                                                        assert(in_bounds(old(avail)@, r2, c2));
                                                        assert(!old(avail)@[r2][c2]);
                                                    }
                                                }
                                                // minimality against every completing cover
                                                assert forall|qs: Seq<TilePlacement>|
                                                    is_exact_cover(board@, tiles@, qs) && extends(
                                                        qs,
                                                        old(ps)@,
                                                    ) implies canonically_first_from(
                                                    board@,
                                                    tiles@,
                                                    ps@,
                                                    qs,
                                                    l0,
                                                ) by {
                                                    assert(covered_by_any(
                                                        tiles@,
                                                        qs,
                                                        tr as int,
                                                        tc as int,
                                                    ));
                                                    let k2 = choose|k2: int|
                                                        0 <= k2 < qs.len() && placement_covers(
                                                            tiles@,
                                                            qs[k2],
                                                            tr as int,
                                                            tc as int,
                                                        );
                                                    if qs[k2] == p {
                                                        // the cover goes through this very
                                                        // candidate: the child's minimality lifts
                                                        assert forall|m3: int|
                                                            0 <= m3 < old(ps)@.push(
                                                                p,
                                                            ).len() implies qs.contains(
                                                            #[trigger] old(ps)@.push(p)[m3],
                                                        ) by {
                                                            if m3 < old(ps)@.len() {
                                                                assert(old(ps)@.push(p)[m3]
                                                                    == old(ps)@[m3]);
                                                            } else {
                                                                assert(old(ps)@.push(p)[m3]
                                                                    == qs[k2]);
                                                            }
                                                        }
                                                        assert(extends(qs, old(ps)@.push(p)));
                                                        assert(canonically_first_from(
                                                            board@,
                                                            tiles@,
                                                            ps@,
                                                            qs,
                                                            l0 + 1,
                                                        ));
                                                        if !extends(qs, ps@) {
                                                            let (m4, r4, c4, k4): (
                                                                int,
                                                                int,
                                                                int,
                                                                int,
                                                            ) = choose|
                                                                m4: int,
                                                                r4: int,
                                                                c4: int,
                                                                k4: int,
                                                            |
                                                                {
                                                                    &&& l0 + 1 <= m4 < ps@.len()
                                                                    &&& extends(qs, ps@.take(m4))
                                                                    &&& is_first_free(
                                                                        board@,
                                                                        tiles@,
                                                                        ps@.take(m4),
                                                                        r4,
                                                                        c4,
                                                                    )
                                                                    &&& 0 <= k4 < qs.len()
                                                                    &&& placement_covers(
                                                                        tiles@,
                                                                        qs[k4],
                                                                        r4,
                                                                        c4,
                                                                    )
                                                                    &&& cand_lt(
                                                                        ps@[m4],
                                                                        qs[k4],
                                                                        r4,
                                                                        c4,
                                                                    )
                                                                };
                                                            assert(l0 <= m4 < ps@.len());
                                                        }
                                                    } else {
                                                        // the cover's candidate at this node
                                                        // comes strictly later in the order
                                                        lemma_completion_candidate(
                                                            board@,
                                                            tiles@,
                                                            old(avail)@,
                                                            old(used)@,
                                                            old(ps)@,
                                                            qs,
                                                            k2,
                                                            tr as int,
                                                            tc as int,
                                                        );
                                                        assert(!cand_before(
                                                            qs[k2],
                                                            tr as int,
                                                            tc as int,
                                                            t as int,
                                                            o as int,
                                                            oi as int,
                                                            oj as int,
                                                        ));
                                                        if qs[k2].tile as int == t as int
                                                            && qs[k2].orientation as int
                                                            == o as int && tr - qs[k2].position.0
                                                            == oi as int && tc - qs[k2].position.1
                                                            == oj as int {
                                                            assert(qs[k2].position == (ar, ac));
                                                            assert(qs[k2] == p);
                                                            assert(false);
                                                        }
                                                        assert(cand_lt(
                                                            p,
                                                            qs[k2],
                                                            tr as int,
                                                            tc as int,
                                                        ));
                                                        assert(extends(qs, ps@.take(l0)));
                                                        assert(is_first_free(
                                                            board@,
                                                            tiles@,
                                                            ps@.take(l0),
                                                            tr as int,
                                                            tc as int,
                                                        ));
                                                        assert(cand_lt(
                                                            ps@[l0],
                                                            qs[k2],
                                                            tr as int,
                                                            tc as int,
                                                        ));
                                                    }
                                                }
                                                assert forall|m: int|
                                                    l0 <= m < ps@.len() implies #[trigger]
                                                covers_node_target(board@, tiles@, ps@, m) by {
                                                    if m == l0 {
                                                        assert(ps@.take(l0) == old(ps)@);
                                                        assert(is_first_free(
                                                            board@,
                                                            tiles@,
                                                            ps@.take(l0),
                                                            tr as int,
                                                            tc as int,
                                                        ) && placement_covers(
                                                            tiles@,
                                                            ps@[l0],
                                                            tr as int,
                                                            tc as int,
                                                        ));
                                                    } else {
                                                        assert(l0 + 1 <= m < ps@.len());
                                                    }
                                                }
                                            }
                                            return NodeResult::Found;
                                        }
                                        let _ = ps.pop();
                                        used[t] = false;
                                        avail.union_shifted(og, ar, ac);
                                        proof {
                                            assert(ps@ =~= old(ps)@);
                                            assert(used@ =~= old(used)@);
                                            assert forall|rr: int, cc: int|
                                                in_bounds(avail0, rr, cc) implies #[trigger]
                                                avail@[rr][cc] == avail0[rr][cc] by {
                                                if shifted_cell(og@, ar as int, ac as int, rr, cc) {
                                                    let i2 = rr - ar;
                                                    let j2 = cc - ac;
                                                    assert(og@[i2][j2]);
                                                    assert(avail0[ar + i2][ac + j2]);
                                                }
                                            }
                                            assert(avail@ =~~= avail0);
                                        }
                                        if matches!(st, NodeResult::Cancelled) {
                                            return NodeResult::Cancelled;
                                        }
                                        proof {
                                        // the exhausted child rules this candidate out
                                        assert forall|qs: Seq<TilePlacement>, k: int|
                                            is_exact_cover(board@, tiles@, qs) && extends(qs, old(ps)@) && 0 <= k < qs.len()
                                                && #[trigger] placement_covers(tiles@, qs[k], tr as int, tc as int) implies !(
                                            qs[k].tile as int == t as int && qs[k].orientation as int == o as int && tr
                                                - qs[k].position.0 == oi as int && tc - qs[k].position.1 == oj as int) by {
                                            if qs[k].tile as int == t as int && qs[k].orientation as int == o as int && tr
                                                - qs[k].position.0 == oi as int && tc - qs[k].position.1 == oj as int {
                                                lemma_completion_candidate(board@, tiles@, old(avail)@, old(used)@, old(ps)@, qs, k, tr as int, tc as int);
                                                assert(qs[k].position == (ar, ac));
                                                assert(qs[k] == p);
                                                assert(extends(qs, old(ps)@.push(p)));
                                                assert(completion_exists(board@, tiles@, old(ps)@.push(p)));
                                                assert(false);
                                            }
                                        }
                                        assert(no_cand_at(board@, tiles@, old(ps)@, tr as int, tc as int, t as int, o as int, oi as int, oj as int));
                                        }
                                    } else {
                                        proof {
                                        // a covering candidate here would fit on the free cells
                                        assert forall|qs: Seq<TilePlacement>, k: int|
                                            is_exact_cover(board@, tiles@, qs) && extends(qs, old(ps)@) && 0 <= k < qs.len()
                                                && #[trigger] placement_covers(tiles@, qs[k], tr as int, tc as int) implies !(
                                            qs[k].tile as int == t as int && qs[k].orientation as int == o as int && tr
                                                - qs[k].position.0 == oi as int && tc - qs[k].position.1 == oj as int) by {
                                            if qs[k].tile as int == t as int && qs[k].orientation as int == o as int && tr
                                                - qs[k].position.0 == oi as int && tc - qs[k].position.1 == oj as int {
                                                lemma_completion_candidate(board@, tiles@, old(avail)@, old(used)@, old(ps)@, qs, k, tr as int, tc as int);
                                                assert(placement_grid(tiles@, qs[k]) == og@);
                                                assert(qs[k].position.0 == ar && qs[k].position.1 == ac);
                                                assert(spec_fits(old(avail)@, og@, ar as int, ac as int));
                                                assert(false);
                                            }
                                        }
                                        assert(no_cand_at(board@, tiles@, old(ps)@, tr as int, tc as int, t as int, o as int, oi as int, oj as int));
                                        }
                                    }
                                } else {
                                    proof {
                                    // covering the target at this offset needs this shape cell
                                    assert forall|qs: Seq<TilePlacement>, k: int|
                                        is_exact_cover(board@, tiles@, qs) && extends(qs, old(ps)@) && 0 <= k < qs.len()
                                            && #[trigger] placement_covers(tiles@, qs[k], tr as int, tc as int) implies !(
                                        qs[k].tile as int == t as int && qs[k].orientation as int == o as int && tr
                                            - qs[k].position.0 == oi as int && tc - qs[k].position.1 == oj as int) by {
                                        if qs[k].tile as int == t as int && qs[k].orientation as int == o as int && tr
                                            - qs[k].position.0 == oi as int && tc - qs[k].position.1 == oj as int {
                                            assert(placement_grid(tiles@, qs[k]) == og@);
                                            assert(og@[oi as int][oj as int]);
                                            assert(oi <= tr && oj <= tc);
                                            assert(false);
                                        }
                                    }
                                    assert(no_cand_at(board@, tiles@, old(ps)@, tr as int, tc as int, t as int, o as int, oi as int, oj as int));
                                    }
                                }
                                proof {
                                    // one more candidate of this node is ruled out
                                    assert forall|qs: Seq<TilePlacement>, k: int|
                                        is_exact_cover(board@, tiles@, qs) && extends(qs, old(ps)@) && 0 <= k < qs.len()
                                            && #[trigger] placement_covers(tiles@, qs[k], tr as int, tc as int) implies !cand_before(
                                        qs[k], tr as int, tc as int, t as int, o as int, oi as int, oj + 1) by {}
                                    assert(no_cand_before(board@, tiles@, old(ps)@, tr as int, tc as int, t as int, o as int, oi as int, oj + 1));
                                }
                                oj = oj + 1;
                            }
                            proof {
                                // the whole shape row for this target offset is exhausted
                                assert forall|qs: Seq<TilePlacement>, k: int|
                                    is_exact_cover(board@, tiles@, qs) && extends(qs, old(ps)@) && 0 <= k < qs.len()
                                        && #[trigger] placement_covers(tiles@, qs[k], tr as int, tc as int) implies !cand_before(
                                    qs[k], tr as int, tc as int, t as int, o as int, oi + 1, 0) by {
                                    if qs[k].tile as int == t as int && qs[k].orientation as int == o as int {
                                        assert(placement_grid(tiles@, qs[k]) == og@);
                                        if tr - qs[k].position.0 == oi as int {
                                            assert(tc - qs[k].position.1 < ocols);
                                        }
                                    }
                                }
                                assert(no_cand_before(board@, tiles@, old(ps)@, tr as int, tc as int, t as int, o as int, oi + 1, 0));
                            }
                            oi = oi + 1;
                        }
                        proof {
                            // every anchor offset of this orientation is exhausted
                            assert forall|qs: Seq<TilePlacement>, k: int|
                                is_exact_cover(board@, tiles@, qs) && extends(qs, old(ps)@) && 0 <= k < qs.len()
                                    && #[trigger] placement_covers(tiles@, qs[k], tr as int, tc as int) implies !cand_before(
                                qs[k], tr as int, tc as int, t as int, o + 1, 0, 0) by {
                                if qs[k].tile as int == t as int && qs[k].orientation as int == o as int {
                                    assert(placement_grid(tiles@, qs[k]) == og@);
                                    assert(tr - qs[k].position.0 < orows);
                                }
                            }
                            assert(no_cand_before(board@, tiles@, old(ps)@, tr as int, tc as int, t as int, o + 1, 0, 0));
                        }
                        o = o + 1;
                    }
                    proof {
                        // every orientation of this tile is exhausted
                        assert forall|qs: Seq<TilePlacement>, k: int|
                            is_exact_cover(board@, tiles@, qs) && extends(qs, old(ps)@) && 0 <= k < qs.len()
                                && #[trigger] placement_covers(tiles@, qs[k], tr as int, tc as int) implies !cand_before(
                            qs[k], tr as int, tc as int, t + 1, 0, 0, 0) by {
                            if qs[k].tile as int == t as int {
                                assert(placement_idx_wf(tiles@, qs[k]));
                                assert((qs[k].orientation as int) < ocount);
                            }
                        }
                        assert(no_cand_before(board@, tiles@, old(ps)@, tr as int, tc as int, t + 1, 0, 0, 0));
                    }
                } else {
                    proof {
                        // a used tile cannot cover the still-free target cell
                        assert forall|qs: Seq<TilePlacement>, k: int|
                            is_exact_cover(board@, tiles@, qs) && extends(qs, old(ps)@) && 0 <= k < qs.len()
                                && #[trigger] placement_covers(tiles@, qs[k], tr as int, tc as int) implies !cand_before(
                            qs[k], tr as int, tc as int, t + 1, 0, 0, 0) by {
                            if qs[k].tile as int == t as int {
                                lemma_completion_candidate(board@, tiles@, old(avail)@, old(used)@, old(ps)@, qs, k, tr as int, tc as int);
                                assert(false);
                            }
                        }
                        assert(no_cand_before(board@, tiles@, old(ps)@, tr as int, tc as int, t + 1, 0, 0, 0));
                    }
                }
                t = t + 1;
            }
            proof {
                // every candidate for the target cell is exhausted: no exact cover
                // can extend the stack
                if completion_exists(board@, tiles@, old(ps)@) {
                    let qs = choose|qs: Seq<TilePlacement>|
                        is_exact_cover(board@, tiles@, qs) && extends(qs, old(ps)@);
                    assert(in_bounds(board@, tr as int, tc as int));
                    assert(board@[tr as int][tc as int]);
                    assert(covered_by_any(tiles@, qs, tr as int, tc as int));
                    let k = choose|k: int|
                        0 <= k < qs.len() && placement_covers(tiles@, qs[k], tr as int, tc as int);
                    assert(placement_idx_wf(tiles@, qs[k]));
                    assert(!cand_before(qs[k], tr as int, tc as int, tiles@.len() as int, 0, 0, 0));
                    assert(false);
                }
            }
            NodeResult::Exhausted
        },
    }
}

/// Solve the exact-cover instance: place every tile so that each allowed
/// cell of `board` is covered exactly once. Fails fast with an area verdict
/// when the tiles' total cell count does not match the allowed cell count;
/// otherwise searches and returns the first solution found or `NoFit`.
#[verifier::loop_isolation(false)]
pub fn solve_all_filling(board: Board, tiles: &Vec<Tile>) -> (r: Result<Solution, UnsolvableReason>)
    requires
        board.wf(),
        tiles_wf(tiles@),
    ensures
        (r == Err::<Solution, UnsolvableReason>(UnsolvableReason::TooFewTiles)) <==> total_tile_area(
            tiles@,
        ) < grid_count(board@),
        (r == Err::<Solution, UnsolvableReason>(UnsolvableReason::TooManyTiles))
            <==> total_tile_area(tiles@) > grid_count(board@),
        r matches Ok(sol) ==> total_tile_area(tiles@) == grid_count(board@) && is_exact_cover(
            board@,
            tiles@,
            sol.placements@,
        ),
        r == Err::<Solution, UnsolvableReason>(UnsolvableReason::NoFit) ==> total_tile_area(tiles@)
            == grid_count(board@),
        r == Err::<Solution, UnsolvableReason>(UnsolvableReason::NoFit) ==> !(exists|
            qs: Seq<TilePlacement>,
        | is_exact_cover(board@, tiles@, qs)),
        r matches Ok(sol) ==> forall|qs: Seq<TilePlacement>|
            #![trigger is_exact_cover(board@, tiles@, qs)]
            is_exact_cover(board@, tiles@, qs) ==> canonically_first_from(
                board@,
                tiles@,
                sol.placements@,
                qs,
                0,
            ),
        r matches Ok(sol) ==> canonically_ordered(board@, tiles@, sol.placements@),
{
    let allowed_count = board.count();
    let mut acc: u128 = 0;
    let mut k: usize = 0;
    while k < tiles.len()
        invariant
            k <= tiles@.len(),
            acc == total_tile_area(tiles@.take(k as int)),
            acc <= allowed_count,
        decreases tiles@.len() - k,
    {
        proof {
            assert(tiles@.take(k + 1int).drop_last() =~= tiles@.take(k as int));
            assert(tiles@.take(k + 1int).last() == tiles@[k as int]);
            assert(tiles@[k as int].wf());
        }
        let tc = tiles[k].base.count();
        if tc > allowed_count - acc {
            proof {
                lemma_total_area_prefix(tiles@, k + 1int);
            }
            return Err(UnsolvableReason::TooManyTiles);
        }
        acc = acc + tc;
        k = k + 1;
    }
    proof {
        assert(tiles@.take(tiles@.len() as int) =~= tiles@);
    }
    if acc < allowed_count {
        return Err(UnsolvableReason::TooFewTiles);
    }
    // areas match: run the backtracking search on a private copy
    let mut avail = board.duplicate();
    let mut used: Vec<bool> = Vec::new();
    let mut i: usize = 0;
    while i < tiles.len()
        invariant
            i <= tiles@.len(),
            used@.len() == i,
            row_count(used@) == 0,
            forall|x: int| 0 <= x < i ==> !(#[trigger] used@[x]),
        decreases tiles@.len() - i,
    {
        proof {
            assert(used@.push(false).drop_last() =~= used@);
        }
        used.push(false);
        i = i + 1;
    }
    let mut stack: Vec<TilePlacement> = Vec::new();
    proof {
        assert forall|r: int, c: int| in_bounds(board@, r, c) implies (#[trigger] avail@[r][c]) == (
        board@[r][c] && !covered_by_any(tiles@, stack@, r, c)) by {
            if covered_by_any(tiles@, stack@, r, c) {
                let k2 = choose|k2: int|
                    0 <= k2 < stack@.len() && placement_covers(tiles@, stack@[k2], r, c);
                assert(false);
            }
        }
        assert(search_inv(board@, tiles@, avail@, used@, stack@));
    }
    let st = search(&board, tiles, tiles.len(), &mut avail, &mut used, &mut stack, None);
    if matches!(st, NodeResult::Found) {
        proof {
            // every exact cover extends the empty starting stack
            assert forall|qs: Seq<TilePlacement>|
                is_exact_cover(board@, tiles@, qs) implies canonically_first_from(
                board@,
                tiles@,
                stack@,
                qs,
                0,
            ) by {
                assert(extends(qs, Seq::<TilePlacement>::empty()));
            }
            assert(canonically_ordered(board@, tiles@, stack@));
        }
        Ok(Solution { placements: stack })
    } else {
        proof {
            // the search was exhaustive from the empty stack, which every
            // exact cover trivially extends
            if exists|qs: Seq<TilePlacement>| is_exact_cover(board@, tiles@, qs) {
                let qs = choose|qs: Seq<TilePlacement>| is_exact_cover(board@, tiles@, qs);
                assert(extends(qs, Seq::<TilePlacement>::empty()));
                assert(completion_exists(board@, tiles@, Seq::<TilePlacement>::empty()));
                assert(false);
            }
        }
        Err(UnsolvableReason::NoFit)
    }
}

/// Solve as `solve_all_filling` does, but consult the caller's cancellation
/// flag before every search node is expanded: once the flag is observed
/// set, the search unwinds and the request ends as `Cancelled`. The area
/// pre-check runs before the flag is first consulted, so an area mismatch
/// is still reported as such.
#[verifier::loop_isolation(false)]
pub fn solve_with_cancel(board: Board, tiles: &Vec<Tile>, cancel: &AtomicBool) -> (r: SolveOutcome)
    requires
        board.wf(),
        tiles_wf(tiles@),
    ensures
        (r == SolveOutcome::Unsolvable(UnsolvableReason::TooFewTiles)) <==> total_tile_area(tiles@)
            < grid_count(board@),
        (r == SolveOutcome::Unsolvable(UnsolvableReason::TooManyTiles)) <==> total_tile_area(
            tiles@,
        ) > grid_count(board@),
        r matches SolveOutcome::Solved(sol) ==> total_tile_area(tiles@) == grid_count(board@)
            && is_exact_cover(board@, tiles@, sol.placements@),
        r == SolveOutcome::Unsolvable(UnsolvableReason::NoFit) ==> total_tile_area(tiles@)
            == grid_count(board@),
        r == SolveOutcome::Unsolvable(UnsolvableReason::NoFit) ==> !(exists|
            qs: Seq<TilePlacement>,
        | is_exact_cover(board@, tiles@, qs)),
        r matches SolveOutcome::Solved(sol) ==> forall|qs: Seq<TilePlacement>|
            #![trigger is_exact_cover(board@, tiles@, qs)]
            is_exact_cover(board@, tiles@, qs) ==> canonically_first_from(
                board@,
                tiles@,
                sol.placements@,
                qs,
                0,
            ),
        r matches SolveOutcome::Solved(sol) ==> canonically_ordered(
            board@,
            tiles@,
            sol.placements@,
        ),
        r == SolveOutcome::Cancelled ==> total_tile_area(tiles@) == grid_count(board@),
{
    let allowed_count = board.count();
    let mut acc: u128 = 0;
    let mut k: usize = 0;
    while k < tiles.len()
        invariant
            k <= tiles@.len(),
            acc == total_tile_area(tiles@.take(k as int)),
            acc <= allowed_count,
        decreases tiles@.len() - k,
    {
        proof {
            assert(tiles@.take(k + 1int).drop_last() =~= tiles@.take(k as int));
            assert(tiles@.take(k + 1int).last() == tiles@[k as int]);
            assert(tiles@[k as int].wf());
        }
        let tc = tiles[k].base.count();
        if tc > allowed_count - acc {
            proof {
                lemma_total_area_prefix(tiles@, k + 1int);
            }
            return SolveOutcome::Unsolvable(UnsolvableReason::TooManyTiles);
        }
        acc = acc + tc;
        k = k + 1;
    }
    proof {
        assert(tiles@.take(tiles@.len() as int) =~= tiles@);
    }
    if acc < allowed_count {
        return SolveOutcome::Unsolvable(UnsolvableReason::TooFewTiles);
    }
    // areas match: run the cancellable search on a private copy
    let mut avail = board.duplicate();
    let mut used: Vec<bool> = Vec::new();
    let mut i: usize = 0;
    while i < tiles.len()
        invariant
            i <= tiles@.len(),
            used@.len() == i,
            row_count(used@) == 0,
            forall|x: int| 0 <= x < i ==> !(#[trigger] used@[x]),
        decreases tiles@.len() - i,
    {
        proof {
            assert(used@.push(false).drop_last() =~= used@);
        }
        used.push(false);
        i = i + 1;
    }
    let mut stack: Vec<TilePlacement> = Vec::new();
    proof {
        assert forall|r: int, c: int| in_bounds(board@, r, c) implies (#[trigger] avail@[r][c]) == (
        board@[r][c] && !covered_by_any(tiles@, stack@, r, c)) by {
            if covered_by_any(tiles@, stack@, r, c) {
                let k2 = choose|k2: int|
                    0 <= k2 < stack@.len() && placement_covers(tiles@, stack@[k2], r, c);
                assert(false);
            }
        }
        assert(search_inv(board@, tiles@, avail@, used@, stack@));
    }
    let st = search(&board, tiles, tiles.len(), &mut avail, &mut used, &mut stack, Some(cancel));
    proof {
        // a NoFit verdict means the search was exhaustive from the empty
        // stack, which every exact cover trivially extends
        if st == NodeResult::Exhausted && exists|qs: Seq<TilePlacement>|
            is_exact_cover(board@, tiles@, qs) {
            let qs = choose|qs: Seq<TilePlacement>| is_exact_cover(board@, tiles@, qs);
            assert(extends(qs, Seq::<TilePlacement>::empty()));
            assert(completion_exists(board@, tiles@, Seq::<TilePlacement>::empty()));
            assert(false);
        }
        if st == NodeResult::Found {
            assert forall|qs: Seq<TilePlacement>|
                is_exact_cover(board@, tiles@, qs) implies canonically_first_from(
                board@,
                tiles@,
                stack@,
                qs,
                0,
            ) by {
                assert(extends(qs, Seq::<TilePlacement>::empty()));
            }
            assert(canonically_ordered(board@, tiles@, stack@));
        }
    }
    match st {
        NodeResult::Found => SolveOutcome::Solved(Solution { placements: stack }),
        NodeResult::Exhausted => SolveOutcome::Unsolvable(UnsolvableReason::NoFit),
        NodeResult::Cancelled => SolveOutcome::Cancelled,
    }
}

} // verus!
