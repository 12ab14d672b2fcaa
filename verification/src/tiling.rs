//! Grid tilings: row-major cell addressing, the triangle tiling of a jittered
//! vertex grid, and the four-phase checkerboard schedule of tiles.
use vstd::prelude::*;

verus! {

/// A triangle as three vertex indices.
pub type Tri = (usize, usize, usize);

/// Row and column of flat row-major index `i` in a grid of `cols` columns.
pub fn cell_of(i: usize, cols: usize) -> (r: (usize, usize))
    requires
        cols > 0,
    ensures
        r.0 == i / cols,
        r.1 == i % cols,
        r.1 < cols,
        r.0 * cols + r.1 == i,
{
    let row = i / cols;
    let col = i % cols;
    proof {
        vstd::arithmetic::div_mod::lemma_fundamental_div_mod(i as int, cols as int);
        assert(row as int * cols as int == cols as int * row as int) by (nonlinear_arith);
    }
    (row, col)
}

/// Flat row-major index of cell `(row, col)` in a grid of `cols` columns.
pub fn cell_index(row: usize, col: usize, cols: usize) -> (r: usize)
    requires
        row * cols + col <= usize::MAX,
    ensures
        r == row * cols + col,
{
    proof {
        assert(0 <= row * cols) by (nonlinear_arith);
    }
    row * cols + col
}

/// Addressing round-trips: the flat index of `(row, col)` with `col < cols`
/// has row `row` and column `col`.
pub proof fn lemma_cell_index_roundtrip(row: int, col: int, cols: int)
    requires
        0 <= row,
        0 <= col < cols,
    ensures
        (row * cols + col) / cols == row,
        (row * cols + col) % cols == col,
{
    vstd::arithmetic::div_mod::lemma_fundamental_div_mod_converse(row * cols + col, cols, row, col);
}

/// Whether vertex `(col, row)` of a `(cols + 1) × (rows + 1)` vertex grid lies
/// on the domain boundary (such vertices are never jittered).
pub fn is_boundary_vertex(col: usize, row: usize, cols: usize, rows: usize) -> (r: bool)
    ensures
        r == (col == 0 || col == cols || row == 0 || row == rows),
{
    col == 0 || col == cols || row == 0 || row == rows
}

/// The two triangles of grid cell `(row, col)`, as vertex indices of the
/// row-major `(cols + 1)`-wide vertex grid. Even cells (by row-major cell
/// index) are split along the top-left/bottom-right diagonal, odd cells along
/// the top-right/bottom-left diagonal.
pub open spec fn cell_triangles(cols: int, row: int, col: int) -> ((int, int, int), (int, int, int)) {
    let vcols = cols + 1;
    let tl = row * vcols + col;
    let tr = row * vcols + col + 1;
    let bl = (row + 1) * vcols + col;
    let br = (row + 1) * vcols + col + 1;
    if (row * cols + col) % 2 == 0 {
        ((tl, tr, bl), (tr, br, bl))
    } else {
        ((tl, tr, br), (tl, br, bl))
    }
}

/// Whether `t` equals the integer triple `s`.
pub open spec fn tri_is(t: Tri, s: (int, int, int)) -> bool {
    t.0 as int == s.0 && t.1 as int == s.1 && t.2 as int == s.2
}

/// Cell `(row, col)` of a `cols`-wide grid is split by the parity of its
/// row-major index `c`: positions `2c` and `2c + 1` of `r` hold
/// (top-left, top-right, bottom-left), (top-right, bottom-right, bottom-left)
/// when `c` is even, and (top-left, top-right, bottom-right),
/// (top-left, bottom-right, bottom-left) when `c` is odd, corners being
/// indices into the `(cols + 1)`-wide vertex grid.
pub open spec fn split_by_parity(r: Seq<Tri>, cols: int, row: int, col: int) -> bool {
    let c = row * cols + col;
    let top_left = row * (cols + 1) + col;
    let top_right = row * (cols + 1) + col + 1;
    let bottom_left = (row + 1) * (cols + 1) + col;
    let bottom_right = (row + 1) * (cols + 1) + col + 1;
    &&& c % 2 == 0 ==> tri_is(r[2 * c], (top_left, top_right, bottom_left)) && tri_is(
        r[2 * c + 1],
        (top_right, bottom_right, bottom_left),
    )
    &&& c % 2 == 1 ==> tri_is(r[2 * c], (top_left, top_right, bottom_right)) && tri_is(
        r[2 * c + 1],
        (top_left, bottom_right, bottom_left),
    )
}

/// The two triangles of a cell follow the parity of its row-major index:
/// even cells are cut from top-right to bottom-left, odd cells from
/// top-left to bottom-right, whatever the grid's width.
pub proof fn lemma_cell_triangles_split_by_parity(cols: int, row: int, col: int)
    ensures
        (row * cols + col) % 2 == 0 ==> cell_triangles(cols, row, col) == (
            (row * (cols + 1) + col, row * (cols + 1) + col + 1, (row + 1) * (cols + 1) + col),
            (row * (cols + 1) + col + 1, (row + 1) * (cols + 1) + col + 1, (row + 1) * (cols + 1) + col),
        ),
        (row * cols + col) % 2 == 1 ==> cell_triangles(cols, row, col) == (
            (row * (cols + 1) + col, row * (cols + 1) + col + 1, (row + 1) * (cols + 1) + col + 1),
            (row * (cols + 1) + col, (row + 1) * (cols + 1) + col + 1, (row + 1) * (cols + 1) + col),
        ),
{
}

/// The triangle tiling of a `cols × rows` grid: two triangles per cell, cells
/// in row-major order, vertex indices into the `(cols + 1) × (rows + 1)`
/// vertex grid.
pub fn grid_triangles(cols: usize, rows: usize) -> (r: Vec<Tri>)
    requires
        (cols + 1) * (rows + 1) <= usize::MAX,
    ensures
        r.len() == 2 * cols * rows,
        forall|row: int, col: int|
            #![trigger cell_triangles(cols as int, row, col)]
            0 <= row < rows && 0 <= col < cols ==> {
                let c = row * cols + col;
                &&& tri_is(r@[2 * c], cell_triangles(cols as int, row, col).0)
                &&& tri_is(r@[2 * c + 1], cell_triangles(cols as int, row, col).1)
            },
        forall|row: int, col: int|
            0 <= row < rows && 0 <= col < cols ==> #[trigger] split_by_parity(r@, cols as int, row, col),
{
    proof {
        assert(cols + 1 <= (cols + 1) * (rows + 1)) by (nonlinear_arith);
    }
    let vcols = cols + 1;
    let mut out: Vec<Tri> = Vec::new();
    let mut row: usize = 0;
    proof {
        assert((cols + 1) * (rows + 1) == cols * rows + cols + rows + 1) by (nonlinear_arith);
    }
    while row < rows
        invariant
            row <= rows,
            vcols == cols + 1,
            (cols + 1) * (rows + 1) <= usize::MAX,
            (cols + 1) * (rows + 1) == cols * rows + cols + rows + 1,
            out.len() == 2 * (row * cols),
            forall|r2: int, c2: int|
                #![trigger cell_triangles(cols as int, r2, c2)]
                0 <= r2 < row && 0 <= c2 < cols ==> {
                    let c = r2 * cols + c2;
                    &&& tri_is(out@[2 * c], cell_triangles(cols as int, r2, c2).0)
                    &&& tri_is(out@[2 * c + 1], cell_triangles(cols as int, r2, c2).1)
                },
        decreases rows - row,
    {
        let mut col: usize = 0;
        while col < cols
            invariant
                row < rows,
                col <= cols,
                vcols == cols + 1,
                (cols + 1) * (rows + 1) <= usize::MAX,
                (cols + 1) * (rows + 1) == cols * rows + cols + rows + 1,
                out.len() == 2 * (row * cols + col),
                forall|r2: int, c2: int|
                    #![trigger cell_triangles(cols as int, r2, c2)]
                    (0 <= r2 < row && 0 <= c2 < cols) || (r2 == row && 0 <= c2 < col) ==> {
                        let c = r2 * cols + c2;
                        &&& tri_is(out@[2 * c], cell_triangles(cols as int, r2, c2).0)
                        &&& tri_is(out@[2 * c + 1], cell_triangles(cols as int, r2, c2).1)
                    },
            decreases cols - col,
        {
            proof {
                assert((row + 1) * (cols + 1) + col + 1 <= (cols + 1) * (rows + 1)) by (nonlinear_arith)
                    requires row < rows, col < cols;
                assert(row * cols + col < cols * rows) by (nonlinear_arith)
                    requires row < rows, col < cols;
                assert(row * (cols + 1) + col + 1 <= (row + 1) * (cols + 1) + col + 1) by (nonlinear_arith)
                    requires 0 <= row, 0 <= col;
            }
            let tl = row * vcols + col;
            let tr = row * vcols + col + 1;
            let bl = (row + 1) * vcols + col;
            let br = (row + 1) * vcols + col + 1;
            let cell_idx = row * cols + col;
            let ghost before = out@;
            if cell_idx % 2 == 0 {
                out.push((tl, tr, bl));
                out.push((tr, br, bl));
            } else {
                out.push((tl, tr, br));
                out.push((tl, br, bl));
            }
            proof {
                assert forall|r2: int, c2: int|
                    #![trigger cell_triangles(cols as int, r2, c2)]
                    (0 <= r2 < row && 0 <= c2 < cols) || (r2 == row && 0 <= c2 < col + 1) implies {
                        let c = r2 * cols + c2;
                        &&& tri_is(out@[2 * c], cell_triangles(cols as int, r2, c2).0)
                        &&& tri_is(out@[2 * c + 1], cell_triangles(cols as int, r2, c2).1)
                    } by {
                    let c = r2 * cols + c2;
                    if r2 < row {
                        assert(c < row * cols) by (nonlinear_arith)
                            requires r2 < row, c2 < cols, c == r2 * cols + c2;
                        assert(out@[2 * c] == before[2 * c]);
                        assert(out@[2 * c + 1] == before[2 * c + 1]);
                    } else if c2 < col {
                        assert(out@[2 * c] == before[2 * c]);
                        assert(out@[2 * c + 1] == before[2 * c + 1]);
                    } else {
                        assert(c == cell_idx);
                    }
                }
            }
            col += 1;
        }
        proof {
            assert(row * cols + cols == (row + 1) * cols) by (nonlinear_arith);
        }
        row += 1;
    }
    proof {
        assert(2 * (rows * cols) == 2 * cols * rows) by (nonlinear_arith);
        assert forall|row: int, col: int|
            0 <= row < rows && 0 <= col < cols implies #[trigger] split_by_parity(out@, cols as int, row, col) by {
            lemma_cell_triangles_split_by_parity(cols as int, row, col);
            assert(tri_is(out@[2 * (row * cols + col)], cell_triangles(cols as int, row, col).0));
        }
    }
    out
}

/// Each cell's two triangles are proper triangles (three distinct vertices),
/// lie inside the vertex grid, and together use exactly the cell's four
/// corners, sharing the two ends of the cell's diagonal.
pub proof fn lemma_cell_triangles_tile_cell(cols: int, rows: int, row: int, col: int)
    requires
        0 <= row < rows,
        0 <= col < cols,
    ensures
        ({
            let (t0, t1) = cell_triangles(cols, row, col);
            let vcols = cols + 1;
            let tl = row * vcols + col;
            let tr = tl + 1;
            let bl = tl + vcols;
            let br = bl + 1;
            let corners = set![tl, tr, bl, br];
            &&& t0.0 != t0.1 && t0.1 != t0.2 && t0.0 != t0.2
            &&& t1.0 != t1.1 && t1.1 != t1.2 && t1.0 != t1.2
            &&& set![t0.0, t0.1, t0.2] + set![t1.0, t1.1, t1.2] == corners
            &&& (set![t0.0, t0.1, t0.2] * set![t1.0, t1.1, t1.2]).len() == 2
            &&& forall|v: int| corners.contains(v) ==> 0 <= v < (cols + 1) * (rows + 1)
        }),
{
    let vcols = cols + 1;
    let tl = row * vcols + col;
    assert((row + 1) * vcols + col == tl + vcols) by (nonlinear_arith)
        requires tl == row * vcols + col;
    assert(0 <= tl) by (nonlinear_arith)
        requires 0 <= row, 0 <= col, vcols == cols + 1, 0 <= cols, tl == row * vcols + col;
    assert(row * vcols <= (rows - 1) * vcols) by (nonlinear_arith)
        requires row <= rows - 1, 0 <= vcols;
    assert((rows - 1) * vcols + vcols == (cols + 1) * (rows + 1) - vcols) by (nonlinear_arith)
        requires vcols == cols + 1;
    assert(tl + vcols + 1 < (cols + 1) * (rows + 1));
    let tr = tl + 1;
    let bl = tl + vcols;
    let br = bl + 1;
    let (t0, t1) = cell_triangles(cols, row, col);
    let a = set![t0.0, t0.1, t0.2];
    let b = set![t1.0, t1.1, t1.2];
    if (row * cols + col) % 2 == 0 {
        assert(a + b =~= set![tl, tr, bl, br]);
        assert(a * b =~= set![tr, bl]);
        assert(set![tr, bl].len() == 2) by {
            assert(set![tr, bl] == set![tr].insert(bl));
        }
    } else {
        assert(a + b =~= set![tl, tr, bl, br]);
        assert(a * b =~= set![tl, br]);
        assert(set![tl, br].len() == 2) by {
            assert(set![tl, br] == set![tl].insert(br));
        }
    }
}

/// Phase of tile `(tr, tc)` in the four-colour checkerboard: bit 0 is the
/// column parity, bit 1 the row parity.
pub open spec fn tile_phase(tr: int, tc: int) -> int {
    tc % 2 + 2 * (tr % 2)
}

/// Tile `a` may be visited before tile `b` in the four-phase order: even
/// rows come before odd rows; within a row parity, even columns before odd
/// columns; within one of the four phases, row-major order.
pub open spec fn visited_in_phase_order(a: (usize, usize), b: (usize, usize)) -> bool {
    &&& a.0 % 2 <= b.0 % 2
    &&& a.0 % 2 == b.0 % 2 ==> a.1 % 2 <= b.1 % 2
    &&& a.0 % 2 == b.0 % 2 && a.1 % 2 == b.1 % 2 ==> a.0 < b.0 || (a.0 == b.0 && a.1 < b.1)
}

/// Visiting order of tiles: by phase, then row, then column.
pub open spec fn tile_before(a: (usize, usize), b: (usize, usize)) -> bool {
    let pa = tile_phase(a.0 as int, a.1 as int);
    let pb = tile_phase(b.0 as int, b.1 as int);
    pa < pb || (pa == pb && (a.0 < b.0 || (a.0 == b.0 && a.1 < b.1)))
}

/// Whether tile `t` is visited before the cursor `(phase, tr, tc)`.
pub open spec fn before_cursor(t: (usize, usize), phase: int, tr: int, tc: int) -> bool {
    let p = tile_phase(t.0 as int, t.1 as int);
    p < phase || (p == phase && (t.0 < tr || (t.0 == tr && t.1 < tc)))
}

/// The tiles of a `tile_cols × tile_rows` tiling, as `(row, column)`, in the
/// order the four-phase schedule visits them: phase 0 (even row, even column),
/// phase 1 (even row, odd column), phase 2 (odd row, even column), phase 3
/// (odd row, odd column); within a phase row by row, each row left to right.
pub fn phase_schedule(tile_cols: usize, tile_rows: usize) -> (r: Vec<(usize, usize)>)
    ensures
        forall|k: int| 0 <= k < r.len() ==> (#[trigger] r@[k]).0 < tile_rows && r@[k].1 < tile_cols,
        forall|k: int, l: int| 0 <= k < l < r.len() ==> tile_before(#[trigger] r@[k], #[trigger] r@[l]),
        forall|tr: usize, tc: usize|
            tr < tile_rows && tc < tile_cols ==> #[trigger] r@.contains((tr, tc)),
        forall|k: int, l: int|
            0 <= k < l < r.len() ==> #[trigger] visited_in_phase_order(r@[k], r@[l]),
{
    let mut out: Vec<(usize, usize)> = Vec::new();
    let mut phase: usize = 0;
    while phase < 4
        invariant
            phase <= 4,
            forall|k: int| 0 <= k < out.len() ==> (#[trigger] out@[k]).0 < tile_rows && out@[k].1 < tile_cols,
            forall|k: int, l: int| 0 <= k < l < out.len() ==> tile_before(#[trigger] out@[k], #[trigger] out@[l]),
            forall|k: int| 0 <= k < out.len() ==> before_cursor(#[trigger] out@[k], phase as int, 0, 0),
            forall|tr: usize, tc: usize|
                tr < tile_rows && tc < tile_cols && before_cursor((tr, tc), phase as int, 0, 0)
                    ==> #[trigger] out@.contains((tr, tc)),
        decreases 4 - phase,
    {
        let col_par: usize = phase % 2;
        let row_par: usize = phase / 2;
        let mut tr: usize = if row_par < tile_rows { row_par } else { tile_rows };
        while tr < tile_rows
            invariant
                phase < 4,
                col_par == phase % 2,
                row_par == phase / 2,
                tr % 2 == row_par || tr == tile_rows,
                tr <= tile_rows,
                forall|k: int| 0 <= k < out.len() ==> (#[trigger] out@[k]).0 < tile_rows && out@[k].1 < tile_cols,
                forall|k: int, l: int| 0 <= k < l < out.len() ==> tile_before(#[trigger] out@[k], #[trigger] out@[l]),
                forall|k: int| 0 <= k < out.len() ==> before_cursor(#[trigger] out@[k], phase as int, tr as int, 0),
                forall|a: usize, b: usize|
                    a < tile_rows && b < tile_cols && before_cursor((a, b), phase as int, tr as int, 0)
                        ==> #[trigger] out@.contains((a, b)),
            decreases tile_rows - tr,
        {
            let mut tc: usize = if col_par < tile_cols { col_par } else { tile_cols };
            while tc < tile_cols
                invariant
                    phase < 4,
                    col_par == phase % 2,
                    row_par == phase / 2,
                    tr % 2 == row_par,
                    tc % 2 == col_par || tc == tile_cols,
                    tr < tile_rows,
                    tc <= tile_cols,
                    forall|k: int| 0 <= k < out.len() ==> (#[trigger] out@[k]).0 < tile_rows && out@[k].1 < tile_cols,
                    forall|k: int, l: int| 0 <= k < l < out.len() ==> tile_before(#[trigger] out@[k], #[trigger] out@[l]),
                    forall|k: int| 0 <= k < out.len() ==> before_cursor(#[trigger] out@[k], phase as int, tr as int, tc as int),
                    forall|a: usize, b: usize|
                        a < tile_rows && b < tile_cols && before_cursor((a, b), phase as int, tr as int, tc as int)
                            ==> #[trigger] out@.contains((a, b)),
                decreases tile_cols - tc,
            {
                let ghost before = out@;
                out.push((tr, tc));
                let next: usize = if tile_cols - tc >= 2 { tc + 2 } else { tile_cols };
                proof {
                    assert(tile_phase(tr as int, tc as int) == phase);
                    assert forall|k: int, l: int| 0 <= k < l < out.len() implies tile_before(#[trigger] out@[k], #[trigger] out@[l]) by {
                        if l == before.len() {
                            assert(before_cursor(before[k], phase as int, tr as int, tc as int));
                        } else {
                            assert(out@[k] == before[k] && out@[l] == before[l]);
                        }
                    }
                    assert forall|k: int| 0 <= k < out.len() implies before_cursor(#[trigger] out@[k], phase as int, tr as int, next as int) by {
                        if k < before.len() {
                            assert(out@[k] == before[k]);
                        }
                    }
                    assert forall|a: usize, b: usize|
                        a < tile_rows && b < tile_cols && before_cursor((a, b), phase as int, tr as int, next as int)
                            implies #[trigger] out@.contains((a, b)) by {
                        if before_cursor((a, b), phase as int, tr as int, tc as int) {
                            assert(before.contains((a, b)));
                            let k = choose|k: int| 0 <= k < before.len() && before[k] == (a, b);
                            assert(out@[k] == (a, b));
                        } else {
                            assert(a == tr && b % 2 == tc % 2);
                            assert(b == tc);
                            assert(out@[before.len() as int] == (a, b));
                        }
                    }
                }
                tc = next;
            }
            let next_tr: usize = if tile_rows - tr >= 2 { tr + 2 } else { tile_rows };
            proof {
                assert forall|k: int| 0 <= k < out.len() implies before_cursor(#[trigger] out@[k], phase as int, next_tr as int, 0) by {
                    assert(before_cursor(out@[k], phase as int, tr as int, tc as int));
                }
                assert forall|a: usize, b: usize|
                    a < tile_rows && b < tile_cols && before_cursor((a, b), phase as int, next_tr as int, 0)
                        implies #[trigger] out@.contains((a, b)) by {
                    if !before_cursor((a, b), phase as int, tr as int, tc as int) {
                        assert(a % 2 == tr % 2);
                        assert(false);
                    }
                }
            }
            tr = next_tr;
        }
        proof {
            assert forall|a: usize, b: usize|
                a < tile_rows && b < tile_cols && before_cursor((a, b), phase as int + 1, 0, 0)
                    implies #[trigger] out@.contains((a, b)) by {
                if !before_cursor((a, b), phase as int, tr as int, 0) {
                    assert(a % 2 == row_par);
                    assert(false);
                }
            }
        }
        phase += 1;
    }
    proof {
        assert forall|tr: usize, tc: usize|
            tr < tile_rows && tc < tile_cols implies #[trigger] out@.contains((tr, tc)) by {
            assert(before_cursor((tr, tc), 4, 0, 0));
        }
    }
    proof {
        assert forall|k: int, l: int| 0 <= k < l < out.len() implies #[trigger] visited_in_phase_order(
            out@[k],
            out@[l],
        ) by {
            assert(tile_before(out@[k], out@[l]));
        }
    }
    out
}

/// Tiles that share a phase are conflict-free: two distinct tiles of the same
/// phase are at least two tiles apart in row or in column, so no point of one
/// can fall within `min_dist` of a point of the other when tiles are
/// `2 * min_dist` wide.
pub proof fn lemma_same_phase_tiles_apart(a: (usize, usize), b: (usize, usize))
    requires
        a != b,
        tile_phase(a.0 as int, a.1 as int) == tile_phase(b.0 as int, b.1 as int),
    ensures
        a.0 + 2 <= b.0 || b.0 + 2 <= a.0 || a.1 + 2 <= b.1 || b.1 + 2 <= a.1,
{
    assert(a.0 % 2 == b.0 % 2 && a.1 % 2 == b.1 % 2);
}

} // verus!
