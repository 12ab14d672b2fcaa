//! The acceptance grid of the min-distance cull.
//!
//! Candidates are binned into square cells of side `min_dist / sqrt(2)`, so a
//! cell can hold at most one accepted point. A new candidate only has to be
//! compared with the points recorded in the 5 × 5 block of cells around its
//! own cell. The grid stores, per cell, the index of the accepted point that
//! was recorded there last; indices are handed out in acceptance order.
//!
//! `min_dist_cull` runs the greedy cull over candidates whose cells were
//! computed by the caller; the distance test itself is a closure.
use vstd::prelude::*;

verus! {

/// Lower and upper (exclusive) bound of the neighbourhood of cell `g` along an
/// axis of `n` cells: two cells on each side, clipped to the grid.
pub open spec fn spec_window(g: int, n: int) -> (int, int) {
    (if g >= 2 { g - 2 } else { 0 }, if g + 3 <= n { g + 3 } else { n })
}

/// Occupants of cells `xlo .. x` of row `gy`, in column order.
pub open spec fn row_occupants(cells: Seq<Option<usize>>, cols: int, gy: int, xlo: int, x: int) -> Seq<usize>
    decreases x - xlo,
{
    if x <= xlo {
        Seq::empty()
    } else {
        let front = row_occupants(cells, cols, gy, xlo, x - 1);
        match cells[gy * cols + (x - 1)] {
            Some(i) => front.push(i),
            None => front,
        }
    }
}

/// Occupants of rows `ylo .. y`, columns `xlo .. xhi`, in row-major scan order.
pub open spec fn block_occupants(
    cells: Seq<Option<usize>>,
    cols: int,
    ylo: int,
    y: int,
    xlo: int,
    xhi: int,
) -> Seq<usize>
    decreases y - ylo,
{
    if y <= ylo {
        Seq::empty()
    } else {
        block_occupants(cells, cols, ylo, y - 1, xlo, xhi) + row_occupants(cells, cols, y - 1, xlo, xhi)
    }
}

/// Min-distance acceptance grid.
pub struct AcceptGrid {
    cols: usize,
    rows: usize,
    cells: Vec<Option<usize>>,
    count: usize,
}

impl AcceptGrid {
    /// Number of cell columns.
    pub closed spec fn spec_cols(&self) -> nat {
        self.cols as nat
    }

    /// Number of cell rows.
    pub closed spec fn spec_rows(&self) -> nat {
        self.rows as nat
    }

    /// Number of points recorded so far; the next recorded point gets this index.
    pub closed spec fn spec_count(&self) -> nat {
        self.count as nat
    }

    /// The cells in row-major order.
    pub closed spec fn spec_cells(&self) -> Seq<Option<usize>> {
        self.cells@
    }

    /// What cell `(gx, gy)` holds.
    pub open spec fn cell(&self, gx: int, gy: int) -> Option<usize> {
        self.spec_cells()[gy * self.spec_cols() + gx]
    }

    /// Well-formedness: one entry per cell, and every stored index names a
    /// point recorded earlier.
    pub open spec fn wf(&self) -> bool {
        &&& self.spec_cells().len() == self.spec_cols() * self.spec_rows()
        &&& forall|k: int|
            0 <= k < self.spec_cells().len() ==> (#[trigger] self.spec_cells()[k] matches Some(i)
                ==> i < self.spec_count())
    }

    /// The indices the neighbourhood scan of cell `(gx, gy)` reports, in scan order.
    pub open spec fn spec_neighbors(&self, gx: int, gy: int) -> Seq<usize> {
        let (xlo, xhi) = spec_window(gx, self.spec_cols() as int);
        let (ylo, yhi) = spec_window(gy, self.spec_rows() as int);
        block_occupants(self.spec_cells(), self.spec_cols() as int, ylo, yhi, xlo, xhi)
    }

    /// Every grid is well formed.
    #[verifier::type_invariant]
    spec fn well_formed(self) -> bool {
        self.wf()
    }

    /// Index `v` is held by a cell of the grid within two cells of `(gx, gy)`
    /// on both axes.
    pub open spec fn held_near(&self, gx: int, gy: int, v: usize) -> bool {
        exists|cx: int, cy: int|
            0 <= cx < self.spec_cols() && 0 <= cy < self.spec_rows() && gx - 2 <= cx <= gx + 2 && gy - 2 <= cy <= gy
                + 2 && #[trigger] holds_at(self.spec_cells(), self.spec_cols() as int, cx, cy, v)
    }

    /// An empty `cols × rows` grid.
    pub fn new(cols: usize, rows: usize) -> (g: Self)
        requires
            cols * rows <= usize::MAX,
        ensures
            g.wf(),
            g.spec_cols() == cols,
            g.spec_rows() == rows,
            g.spec_count() == 0,
            forall|k: int| 0 <= k < cols * rows ==> #[trigger] g.spec_cells()[k] is None,
    {
        let n: usize = cols * rows;
        let mut cells: Vec<Option<usize>> = Vec::new();
        let mut k: usize = 0;
        while k < n
            invariant
                k <= n,
                cells.len() == k,
                forall|j: int| 0 <= j < k ==> #[trigger] cells@[j] is None,
            decreases n - k,
        {
            cells.push(None);
            k += 1;
        }
        AcceptGrid { cols, rows, cells, count: 0 }
    }

    /// Number of points recorded so far.
    pub fn count(&self) -> (r: usize)
        ensures
            r == self.spec_count(),
    {
        self.count
    }

    /// Number of cell columns.
    pub fn cols(&self) -> (r: usize)
        ensures
            r == self.spec_cols(),
    {
        self.cols
    }

    /// Number of cell rows.
    pub fn rows(&self) -> (r: usize)
        ensures
            r == self.spec_rows(),
    {
        self.rows
    }

    /// The indices recorded in the 5 × 5 block of cells centred on `(gx, gy)`
    /// (clipped to the grid), scanned row by row, each row left to right.
    pub fn neighbors(&self, gx: usize, gy: usize) -> (r: Vec<usize>)
        requires
            gx < self.spec_cols(),
            gy < self.spec_rows(),
        ensures
            r@ == self.spec_neighbors(gx as int, gy as int),
            forall|k: int| 0 <= k < r.len() ==> #[trigger] r@[k] < self.spec_count(),
            forall|k: int| 0 <= k < r.len() ==> #[trigger] self.held_near(gx as int, gy as int, r@[k]),
            forall|cx: int, cy: int|
                0 <= cx < self.spec_cols() && 0 <= cy < self.spec_rows() && gx - 2 <= cx <= gx + 2 && gy - 2 <= cy
                    <= gy + 2 && #[trigger] self.cell(cx, cy) is Some ==> r@.contains(self.cell(cx, cy).unwrap()),
    {
        proof {
            use_type_invariant(self);
        }
        let (xlo, xhi) = window(gx, self.cols);
        let (ylo, yhi) = window(gy, self.rows);
        let ghost cells = self.cells@;
        let ghost cols = self.cols as int;
        let mut out: Vec<usize> = Vec::new();
        let mut y: usize = ylo;
        while y < yhi
            invariant
                self.wf(),
                ylo <= y <= yhi,
                yhi <= self.rows,
                xlo <= xhi <= self.cols,
                cells == self.cells@,
                cols == self.cols,
                out@ == block_occupants(cells, cols, ylo as int, y as int, xlo as int, xhi as int),
                forall|k: int| 0 <= k < out.len() ==> #[trigger] out@[k] < self.count,
            decreases yhi - y,
        {
            let ghost before = out@;
            let mut x: usize = xlo;
            while x < xhi
                invariant
                    self.wf(),
                    xlo <= x <= xhi,
                    xhi <= self.cols,
                    y < yhi,
                    yhi <= self.rows,
                    cells == self.cells@,
                    cols == self.cols,
                    out@ == before + row_occupants(cells, cols, y as int, xlo as int, x as int),
                    forall|k: int| 0 <= k < out.len() ==> #[trigger] out@[k] < self.count,
                decreases xhi - x,
            {
                proof {
                    lemma_cell_index_in_bounds(self.cols as int, self.rows as int, x as int, y as int);
                    assert(self.cells.len() == self.cols as int * self.rows as int);
                }
                let k: usize = y * self.cols + x;
                match self.cells[k] {
                    Some(i) => {
                        assert(self.cells@[k as int] matches Some(j) && j < self.count);
                        out.push(i);
                    },
                    None => {},
                }
                x += 1;
            }
            y += 1;
        }
        proof {
            let (sxlo, sxhi) = spec_window(gx as int, self.cols as int);
            let (sylo, syhi) = spec_window(gy as int, self.rows as int);
            assert forall|k: int| 0 <= k < out.len() implies #[trigger] self.held_near(gx as int, gy as int, out@[k]) by {
                assert(out@.contains(out@[k]));
                lemma_neighbors_in_block(*self, gx as int, gy as int, out@[k]);
            }
            assert forall|cx: int, cy: int|
                0 <= cx < self.spec_cols() && 0 <= cy < self.spec_rows() && gx - 2 <= cx <= gx + 2 && gy - 2 <= cy
                    <= gy + 2 && #[trigger] self.cell(cx, cy) is Some implies out@.contains(self.cell(cx, cy).unwrap()) by {
                lemma_neighbors_cover_block(*self, gx as int, gy as int, cx, cy);
            }
        }
        out
    }

    /// Record a newly accepted point in cell `(gx, gy)`. It receives the next
    /// index, which is returned; the cell now holds that index.
    pub fn record(&mut self, gx: usize, gy: usize) -> (idx: usize)
        requires
            gx < old(self).spec_cols(),
            gy < old(self).spec_rows(),
            old(self).spec_count() < usize::MAX,
        ensures
            idx == old(self).spec_count(),
            final(self).spec_count() == old(self).spec_count() + 1,
            final(self).spec_cols() == old(self).spec_cols(),
            final(self).spec_rows() == old(self).spec_rows(),
            final(self).spec_cells() == old(self).spec_cells().update(
                gy * old(self).spec_cols() + gx,
                Some(idx),
            ),
    {
        proof {
            use_type_invariant(&*self);
            lemma_cell_index_in_bounds(self.cols as int, self.rows as int, gx as int, gy as int);
            assert(self.cells.len() == self.cols as int * self.rows as int);
        }
        // Take the grid apart and rebuild it, so that no partly updated grid
        // ever exists.
        let mut taken = AcceptGrid { cols: 0, rows: 0, cells: Vec::new(), count: 0 };
        std::mem::swap(&mut taken, self);
        let AcceptGrid { cols, rows, mut cells, count } = taken;
        let k: usize = gy * cols + gx;
        cells.set(k, Some(count));
        *self = AcceptGrid { cols, rows, cells, count: count + 1 };
        count
    }
}

proof fn lemma_row_occupants_contains(
    cells: Seq<Option<usize>>,
    cols: int,
    gy: int,
    xlo: int,
    x: int,
    c: int,
    i: usize,
)
    requires
        xlo <= c < x,
        cells[gy * cols + c] == Some(i),
    ensures
        row_occupants(cells, cols, gy, xlo, x).contains(i),
    decreases x - xlo,
{
    let front = row_occupants(cells, cols, gy, xlo, x - 1);
    if c == x - 1 {
        assert(row_occupants(cells, cols, gy, xlo, x) == front.push(i));
        assert(front.push(i)[front.len() as int] == i);
    } else {
        lemma_row_occupants_contains(cells, cols, gy, xlo, x - 1, c, i);
        let k = choose|k: int| 0 <= k < front.len() && front[k] == i;
        match cells[gy * cols + (x - 1)] {
            Some(j) => assert(front.push(j)[k] == i),
            None => {},
        }
    }
}

proof fn lemma_block_occupants_contains(
    cells: Seq<Option<usize>>,
    cols: int,
    ylo: int,
    y: int,
    xlo: int,
    xhi: int,
    c: int,
    r: int,
    i: usize,
)
    requires
        ylo <= r < y,
        xlo <= c < xhi,
        cells[r * cols + c] == Some(i),
    ensures
        block_occupants(cells, cols, ylo, y, xlo, xhi).contains(i),
    decreases y - ylo,
{
    let front = block_occupants(cells, cols, ylo, y - 1, xlo, xhi);
    let last = row_occupants(cells, cols, y - 1, xlo, xhi);
    if r == y - 1 {
        lemma_row_occupants_contains(cells, cols, r, xlo, xhi, c, i);
        let k = choose|k: int| 0 <= k < last.len() && last[k] == i;
        assert((front + last)[front.len() + k] == i);
    } else {
        lemma_block_occupants_contains(cells, cols, ylo, y - 1, xlo, xhi, c, r, i);
        let k = choose|k: int| 0 <= k < front.len() && front[k] == i;
        assert((front + last)[k] == i);
    }
}

/// The neighbourhood scan reports nothing else: every index the scan of
/// `(qx, qy)` reports is held by a cell of the 5 × 5 block around it.
pub proof fn lemma_neighbors_in_block(g: AcceptGrid, qx: int, qy: int, v: usize)
    requires
        0 <= qx < g.spec_cols(),
        0 <= qy < g.spec_rows(),
        g.spec_neighbors(qx, qy).contains(v),
    ensures
        g.held_near(qx, qy, v),
{
    let cols = g.spec_cols() as int;
    let (xlo, xhi) = spec_window(qx, cols);
    let (ylo, yhi) = spec_window(qy, g.spec_rows() as int);
    lemma_block_occupants_from(g.spec_cells(), cols, ylo, yhi, xlo, xhi, v);
    let (cx, cy) = choose|cx: int, cy: int|
        ylo <= cy < yhi && xlo <= cx < xhi && #[trigger] holds_at(g.spec_cells(), cols, cx, cy, v);
    assert(holds_at(g.spec_cells(), g.spec_cols() as int, cx, cy, v));
}

/// The neighbourhood scan misses nothing: every point recorded in a cell of
/// the 5 × 5 block around `(qx, qy)` is among the indices the scan of
/// `(qx, qy)` reports.
pub proof fn lemma_neighbors_cover_block(g: AcceptGrid, qx: int, qy: int, cx: int, cy: int)
    requires
        g.wf(),
        0 <= qx < g.spec_cols(),
        0 <= qy < g.spec_rows(),
        0 <= cx < g.spec_cols(),
        0 <= cy < g.spec_rows(),
        qx - 2 <= cx <= qx + 2,
        qy - 2 <= cy <= qy + 2,
        g.cell(cx, cy) is Some,
    ensures
        g.spec_neighbors(qx, qy).contains(g.cell(cx, cy).unwrap()),
{
    let (xlo, xhi) = spec_window(qx, g.spec_cols() as int);
    let (ylo, yhi) = spec_window(qy, g.spec_rows() as int);
    lemma_block_occupants_contains(
        g.spec_cells(),
        g.spec_cols() as int,
        ylo,
        yhi,
        xlo,
        xhi,
        cx,
        cy,
        g.cell(cx, cy).unwrap(),
    );
}

/// The accepted candidates of `acc` that come before candidate `c`, in order.
pub open spec fn accepted_before(acc: Seq<usize>, c: int) -> Seq<usize>
    decreases acc.len(),
{
    if acc.len() == 0 {
        Seq::empty()
    } else if acc.last() < c {
        accepted_before(acc.drop_last(), c).push(acc.last())
    } else {
        accepted_before(acc.drop_last(), c)
    }
}

/// The grid after recording the candidates of `acc` in order: the cell of
/// each holds its position in `acc`, later positions overwriting earlier ones.
pub open spec fn grid_after(cols: int, rows: int, cells: Seq<Option<(usize, usize)>>, acc: Seq<usize>) -> Seq<
    Option<usize>,
>
    decreases acc.len(),
{
    if acc.len() == 0 {
        Seq::new((cols * rows) as nat, |k: int| None)
    } else {
        let prev = grid_after(cols, rows, cells, acc.drop_last());
        match cells[acc.last() as int] {
            Some(g) => prev.update(g.1 * cols + g.0, Some((acc.len() - 1) as usize)),
            None => prev,
        }
    }
}

/// Positions (in acceptance order) that the neighbourhood scan of candidate
/// `c` reports, given the candidates accepted before it.
pub open spec fn scan_of(cols: int, rows: int, cells: Seq<Option<(usize, usize)>>, acc: Seq<usize>, c: int) -> Seq<
    usize,
> {
    let before = accepted_before(acc, c);
    let g = cells[c].unwrap();
    let (xlo, xhi) = spec_window(g.0 as int, cols);
    let (ylo, yhi) = spec_window(g.1 as int, rows);
    block_occupants(grid_after(cols, rows, cells, before), cols, ylo, yhi, xlo, xhi)
}

/// The outcome of the cull for candidate `c`: skipped when it has no cell;
/// accepted exactly when the closeness test said `false` for every earlier
/// accepted candidate the scan of its cell reported; rejected when it said
/// `true` for one of them.
pub open spec fn cull_decision<F: Fn(usize, usize) -> bool>(
    too_close: F,
    cols: int,
    rows: int,
    cells: Seq<Option<(usize, usize)>>,
    acc: Seq<usize>,
    c: int,
) -> bool {
    let before = accepted_before(acc, c);
    let scan = scan_of(cols, rows, cells, acc, c);
    &&& acc.contains(c as usize) ==> cells[c] is Some && forall|p: int|
        0 <= p < scan.len() ==> call_ensures(too_close, (c as usize, before[#[trigger] scan[p] as int]), false)
    &&& (!acc.contains(c as usize) && cells[c] is Some) ==> exists|p: int|
        0 <= p < scan.len() && call_ensures(too_close, (c as usize, before[#[trigger] scan[p] as int]), true)
}

proof fn lemma_accepted_before_all(acc: Seq<usize>, c: int)
    requires
        forall|k: int| 0 <= k < acc.len() ==> #[trigger] acc[k] < c,
    ensures
        accepted_before(acc, c) == acc,
    decreases acc.len(),
{
    if acc.len() > 0 {
        lemma_accepted_before_all(acc.drop_last(), c);
        assert(acc.drop_last().push(acc.last()) =~= acc);
    }
}

proof fn lemma_accepted_before_push(acc: Seq<usize>, x: usize, c: int)
    requires
        x >= c,
    ensures
        accepted_before(acc.push(x), c) == accepted_before(acc, c),
{
    assert(acc.push(x).drop_last() =~= acc);
}

/// Cells `g` and `h` lie within two cells of each other on both axes, so
/// each is in the 5 × 5 block around the other.
pub open spec fn near_cells(g: (usize, usize), h: (usize, usize)) -> bool {
    g.0 <= h.0 + 2 && h.0 <= g.0 + 2 && g.1 <= h.1 + 2 && h.1 <= g.1 + 2
}

/// Row-major index of cell `g` in a grid of `cols` columns.
pub open spec fn cell_slot(g: (usize, usize), cols: int) -> int {
    g.1 * cols + g.0
}

proof fn lemma_cell_slot_injective(cols: int, g: (usize, usize), h: (usize, usize))
    requires
        g.0 < cols,
        h.0 < cols,
        cell_slot(g, cols) == cell_slot(h, cols),
    ensures
        g == h,
{
    let (x1, y1, x2, y2) = (g.0 as int, g.1 as int, h.0 as int, h.1 as int);
    assert(y1 == y2) by (nonlinear_arith)
        requires
            0 <= x1 < cols,
            0 <= x2 < cols,
            0 <= y1,
            0 <= y2,
            y1 * cols + x1 == y2 * cols + x2,
    {
        if y1 < y2 {
            assert(y2 * cols >= (y1 + 1) * cols);
        } else if y2 < y1 {
            assert(y1 * cols >= (y2 + 1) * cols);
        }
    }
}

/// Every candidate of `acc` has a cell inside the `cols × rows` grid.
pub open spec fn cells_in_grid(cols: int, rows: int, cells: Seq<Option<(usize, usize)>>, acc: Seq<usize>) -> bool {
    forall|m: int|
        0 <= m < acc.len() ==> (#[trigger] acc[m]) < cells.len() && cells[acc[m] as int] is Some
            && cells[acc[m] as int].unwrap().0 < cols && cells[acc[m] as int].unwrap().1 < rows
}

proof fn lemma_grid_after_len(cols: int, rows: int, cells: Seq<Option<(usize, usize)>>, acc: Seq<usize>)
    requires
        0 <= cols,
        0 <= rows,
        cells_in_grid(cols, rows, cells, acc),
    ensures
        grid_after(cols, rows, cells, acc).len() == cols * rows,
    decreases acc.len(),
{
    if acc.len() == 0 {
        assert(0 <= cols * rows) by (nonlinear_arith)
            requires
                0 <= cols,
                0 <= rows,
        ;
    } else {
        let d = acc.drop_last();
        assert(cells_in_grid(cols, rows, cells, d)) by {
            assert forall|m: int| 0 <= m < d.len() implies (#[trigger] d[m]) < cells.len() && cells[d[m] as int] is Some
                && cells[d[m] as int].unwrap().0 < cols && cells[d[m] as int].unwrap().1 < rows by {
                assert(d[m] == acc[m]);
            }
        }
        lemma_grid_after_len(cols, rows, cells, d);
        let gl = cells[acc.last() as int].unwrap();
        assert(acc[acc.len() - 1] == acc.last());
        lemma_cell_index_in_bounds(cols, rows, gl.0 as int, gl.1 as int);
    }
}

/// After recording `acc`, the cell of its `k`-th candidate holds the position
/// of a candidate from `k` on that sits in the same cell.
proof fn lemma_grid_after_holds_later(
    cols: int,
    rows: int,
    cells: Seq<Option<(usize, usize)>>,
    acc: Seq<usize>,
    k: int,
)
    requires
        0 <= cols,
        0 <= rows,
        cells_in_grid(cols, rows, cells, acc),
        0 <= k < acc.len(),
    ensures
        exists|p: int|
            k <= p < acc.len() && #[trigger] cells[acc[p] as int] == cells[acc[k] as int] && grid_after(
                cols,
                rows,
                cells,
                acc,
            )[cell_slot(cells[acc[k] as int].unwrap(), cols)] == Some(p as usize),
    decreases acc.len(),
{
    let last = acc.len() - 1;
    let d = acc.drop_last();
    assert(cells_in_grid(cols, rows, cells, d)) by {
        assert forall|m: int| 0 <= m < d.len() implies (#[trigger] d[m]) < cells.len() && cells[d[m] as int] is Some
            && cells[d[m] as int].unwrap().0 < cols && cells[d[m] as int].unwrap().1 < rows by {
            assert(d[m] == acc[m]);
        }
    }
    lemma_grid_after_len(cols, rows, cells, d);
    let prev = grid_after(cols, rows, cells, d);
    assert(acc[last] == acc.last());
    let gl = cells[acc[last] as int].unwrap();
    let g = cells[acc[k] as int].unwrap();
    lemma_cell_index_in_bounds(cols, rows, gl.0 as int, gl.1 as int);
    lemma_cell_index_in_bounds(cols, rows, g.0 as int, g.1 as int);
    assert(grid_after(cols, rows, cells, acc) == prev.update(cell_slot(gl, cols), Some(last as usize)));
    if k == last || gl == g {
        assert(cells[acc[last] as int] == cells[acc[k] as int]);
    } else {
        lemma_grid_after_holds_later(cols, rows, cells, d, k);
        assert(d[k] == acc[k]);
        let p = choose|p: int|
            k <= p < d.len() && #[trigger] cells[d[p] as int] == cells[d[k] as int] && prev[cell_slot(
                cells[d[k] as int].unwrap(),
                cols,
            )] == Some(p as usize);
        assert(d[p] == acc[p]);
        if cell_slot(gl, cols) == cell_slot(g, cols) {
            lemma_cell_slot_injective(cols, gl, g);
        }
        assert(cells[acc[p] as int] == cells[acc[k] as int]);
    }
}

proof fn lemma_accepted_before_prefix(acc: Seq<usize>, c: int, m: int)
    requires
        0 <= m <= acc.len(),
        forall|k: int| 0 <= k < m ==> #[trigger] acc[k] < c,
        forall|k: int| m <= k < acc.len() ==> #[trigger] acc[k] >= c,
    ensures
        accepted_before(acc, c) == acc.take(m),
    decreases acc.len(),
{
    if acc.len() == m {
        lemma_accepted_before_all(acc, c);
        assert(acc.take(m) =~= acc);
    } else {
        let d = acc.drop_last();
        assert(acc[acc.len() - 1] == acc.last());
        assert forall|k: int| 0 <= k < m implies #[trigger] d[k] < c by {
            assert(d[k] == acc[k]);
        }
        assert forall|k: int| m <= k < d.len() implies #[trigger] d[k] >= c by {
            assert(d[k] == acc[k]);
        }
        lemma_accepted_before_prefix(d, c, m);
        assert(d.take(m) =~= acc.take(m));
    }
}

/// Accepted candidates in neighbouring cells were tested against each other.
proof fn lemma_cull_tests_neighbours<F: Fn(usize, usize) -> bool>(
    too_close: F,
    cols: int,
    rows: int,
    cells: Seq<Option<(usize, usize)>>,
    r: Seq<usize>,
    i: int,
    j: int,
)
    requires
        0 <= cols,
        0 <= rows,
        r.len() <= usize::MAX,
        forall|k: int, l: int| 0 <= k < l < r.len() ==> r[k] < r[l],
        cells_in_grid(cols, rows, cells, r),
        forall|c: int| 0 <= c < cells.len() ==> #[trigger] cull_decision(too_close, cols, rows, cells, r, c),
        0 <= i < j < r.len(),
        near_cells(cells[r[i] as int].unwrap(), cells[r[j] as int].unwrap()),
    ensures
        exists|k: int|
            i <= k < j && cells[r[k] as int] == cells[r[i] as int] && call_ensures(
                too_close,
                (r[j], #[trigger] r[k]),
                false,
            ),
{
    let b = r[j] as int;
    let before = r.take(j);
    assert forall|k: int| 0 <= k < j implies #[trigger] r[k] < b by {}
    assert forall|k: int| j <= k < r.len() implies #[trigger] r[k] >= b by {
        if k > j {
            assert(r[j] < r[k]);
        }
    }
    lemma_accepted_before_prefix(r, b, j);
    assert(accepted_before(r, b) == before);
    assert(cells_in_grid(cols, rows, cells, before)) by {
        assert forall|m: int| 0 <= m < before.len() implies (#[trigger] before[m]) < cells.len() && cells[before[m] as int] is Some
            && cells[before[m] as int].unwrap().0 < cols && cells[before[m] as int].unwrap().1 < rows by {
            assert(before[m] == r[m]);
        }
    }
    assert(before[i] == r[i]);
    lemma_grid_after_holds_later(cols, rows, cells, before, i);
    let ga = cells[r[i] as int].unwrap();
    let gb = cells[b].unwrap();
    let grid = grid_after(cols, rows, cells, before);
    let p = choose|p: int|
        i <= p < before.len() && #[trigger] cells[before[p] as int] == cells[before[i] as int] && grid[cell_slot(
            cells[before[i] as int].unwrap(),
            cols,
        )] == Some(p as usize);
    assert(before[p] == r[p]);
    assert(r.contains(b as usize)) by {
        assert(r[j] == b as usize);
    }
    assert(cull_decision(too_close, cols, rows, cells, r, b));
    let (xlo, xhi) = spec_window(gb.0 as int, cols);
    let (ylo, yhi) = spec_window(gb.1 as int, rows);
    lemma_block_occupants_contains(grid, cols, ylo, yhi, xlo, xhi, ga.0 as int, ga.1 as int, p as usize);
    let scan = scan_of(cols, rows, cells, r, b);
    assert(scan.contains(p as usize));
    let q = choose|q: int| 0 <= q < scan.len() && scan[q] == p as usize;
    assert(call_ensures(too_close, (b as usize, before[scan[q] as int]), false));
    assert(r[j] == b as usize);
}

/// The test `too_close(r[j], r[k])` answered `false` for some accepted
/// `r[k]`, taken from `r[i]` up to (not including) `r[j]`, that sits in the
/// cell of `r[i]`.
pub open spec fn pair_tested<F: Fn(usize, usize) -> bool>(
    too_close: F,
    cells: Seq<Option<(usize, usize)>>,
    r: Seq<usize>,
    i: int,
    j: int,
) -> bool {
    exists|k: int|
        i <= k < j && cells[r[k] as int] == cells[r[i] as int] && call_ensures(
            too_close,
            (r[j], #[trigger] r[k]),
            false,
        )
}

/// Accepted candidates in neighbouring cells were tested against each
/// other: every pair `r[i]`, `r[j]` (`i < j`) in near cells is
/// `pair_tested`. Where a cell can hold at most one accepted candidate, the
/// candidate tested against `r[j]` is `r[i]` itself.
pub open spec fn neighbours_tested<F: Fn(usize, usize) -> bool>(
    too_close: F,
    cells: Seq<Option<(usize, usize)>>,
    r: Seq<usize>,
) -> bool {
    forall|i: int, j: int|
        0 <= i < j < r.len() && near_cells(cells[r[i] as int].unwrap(), cells[r[j] as int].unwrap())
            ==> #[trigger] pair_tested(too_close, cells, r, i, j)
}

/// When no two accepted candidates share a cell (as the cell size of the
/// cull guarantees for a faithful distance test), every pair of accepted
/// candidates in near cells was tested directly: `too_close(r[j], r[i])`
/// answered `false`.
pub proof fn lemma_near_pairs_tested_directly<F: Fn(usize, usize) -> bool>(
    too_close: F,
    cells: Seq<Option<(usize, usize)>>,
    r: Seq<usize>,
    i: int,
    j: int,
)
    requires
        neighbours_tested(too_close, cells, r),
        forall|k: int, l: int| 0 <= k < l < r.len() ==> cells[#[trigger] r[k] as int] != cells[#[trigger] r[l] as int],
        0 <= i < j < r.len(),
        near_cells(cells[r[i] as int].unwrap(), cells[r[j] as int].unwrap()),
    ensures
        call_ensures(too_close, (r[j], r[i]), false),
{
    assert(pair_tested(too_close, cells, r, i, j));
    let k = choose|k: int|
        i <= k < j && cells[r[k] as int] == cells[r[i] as int] && call_ensures(too_close, (r[j], #[trigger] r[k]), false);
    if k != i {
        assert(cells[r[i] as int] != cells[r[k] as int]);
    }
}

/// Candidate `c` was rejected for an accepted candidate before it in a near
/// cell: `too_close(c, r[k])` answered `true` for such an `r[k]`.
pub open spec fn rejected_by_neighbour<F: Fn(usize, usize) -> bool>(
    too_close: F,
    cells: Seq<Option<(usize, usize)>>,
    r: Seq<usize>,
    c: int,
) -> bool {
    exists|k: int|
        0 <= k < r.len() && r[k] < c && near_cells(cells[r[k] as int].unwrap(), cells[c].unwrap())
            && call_ensures(too_close, (c as usize, #[trigger] r[k]), true)
}

/// Cell `(cx, cy)` of the row-major `cells` holds `v`.
pub open spec fn holds_at(cells: Seq<Option<usize>>, cols: int, cx: int, cy: int, v: usize) -> bool {
    cells[cy * cols + cx] == Some(v)
}

proof fn lemma_row_occupants_from(cells: Seq<Option<usize>>, cols: int, gy: int, xlo: int, x: int, v: usize)
    requires
        row_occupants(cells, cols, gy, xlo, x).contains(v),
    ensures
        exists|cx: int| xlo <= cx < x && #[trigger] holds_at(cells, cols, cx, gy, v),
    decreases x - xlo,
{
    if x > xlo {
        let front = row_occupants(cells, cols, gy, xlo, x - 1);
        let w = choose|w: int| 0 <= w < row_occupants(cells, cols, gy, xlo, x).len() && row_occupants(cells, cols, gy, xlo, x)[w] == v;
        match cells[gy * cols + (x - 1)] {
            Some(i) => {
                if w < front.len() {
                    assert(front[w] == v);
                    lemma_row_occupants_from(cells, cols, gy, xlo, x - 1, v);
                } else {
                    assert(i == v);
                    assert(holds_at(cells, cols, x - 1, gy, v));
                }
            },
            None => {
                assert(front[w] == v);
                lemma_row_occupants_from(cells, cols, gy, xlo, x - 1, v);
            },
        }
    }
}

proof fn lemma_block_occupants_from(
    cells: Seq<Option<usize>>,
    cols: int,
    ylo: int,
    y: int,
    xlo: int,
    xhi: int,
    v: usize,
)
    requires
        block_occupants(cells, cols, ylo, y, xlo, xhi).contains(v),
    ensures
        exists|cx: int, cy: int| ylo <= cy < y && xlo <= cx < xhi && #[trigger] holds_at(cells, cols, cx, cy, v),
    decreases y - ylo,
{
    if y > ylo {
        let front = block_occupants(cells, cols, ylo, y - 1, xlo, xhi);
        let last = row_occupants(cells, cols, y - 1, xlo, xhi);
        let all = front + last;
        let w = choose|w: int| 0 <= w < all.len() && all[w] == v;
        if w < front.len() {
            assert(front[w] == v);
            lemma_block_occupants_from(cells, cols, ylo, y - 1, xlo, xhi, v);
            let (cx, cy) = choose|cx: int, cy: int| ylo <= cy < y - 1 && xlo <= cx < xhi && #[trigger] holds_at(cells, cols, cx, cy, v);
            assert(ylo <= cy < y && xlo <= cx < xhi && holds_at(cells, cols, cx, cy, v));
        } else {
            assert(last[w - front.len()] == v);
            lemma_row_occupants_from(cells, cols, y - 1, xlo, xhi, v);
            let cx = choose|cx: int| xlo <= cx < xhi && #[trigger] holds_at(cells, cols, cx, y - 1, v);
            assert(ylo <= y - 1 < y && xlo <= cx < xhi && holds_at(cells, cols, cx, y - 1, v));
        }
    }
}

/// A cell of the grid after recording `acc` names a candidate of `acc` that
/// sits in that cell.
proof fn lemma_grid_after_entry(
    cols: int,
    rows: int,
    cells: Seq<Option<(usize, usize)>>,
    acc: Seq<usize>,
    slot: int,
    x: usize,
)
    requires
        0 <= cols,
        0 <= rows,
        cells_in_grid(cols, rows, cells, acc),
        0 <= slot < cols * rows,
        acc.len() <= usize::MAX,
        grid_after(cols, rows, cells, acc)[slot] == Some(x),
    ensures
        x < acc.len(),
        cell_slot(cells[acc[x as int] as int].unwrap(), cols) == slot,
    decreases acc.len(),
{
    if acc.len() == 0 {
        assert(grid_after(cols, rows, cells, acc)[slot] is None);
    } else {
        let last = acc.len() - 1;
        let d = acc.drop_last();
        assert(cells_in_grid(cols, rows, cells, d)) by {
            assert forall|m: int| 0 <= m < d.len() implies (#[trigger] d[m]) < cells.len() && cells[d[m] as int] is Some
                && cells[d[m] as int].unwrap().0 < cols && cells[d[m] as int].unwrap().1 < rows by {
                assert(d[m] == acc[m]);
            }
        }
        lemma_grid_after_len(cols, rows, cells, d);
        let prev = grid_after(cols, rows, cells, d);
        assert(acc[last] == acc.last());
        let gl = cells[acc[last] as int].unwrap();
        lemma_cell_index_in_bounds(cols, rows, gl.0 as int, gl.1 as int);
        assert(grid_after(cols, rows, cells, acc) == prev.update(cell_slot(gl, cols), Some(last as usize)));
        if slot != cell_slot(gl, cols) {
            assert(prev[slot] == Some(x));
            lemma_grid_after_entry(cols, rows, cells, d, slot, x);
            assert(d[x as int] == acc[x as int]);
        } else {
            assert(x == last as usize);
        }
    }
}

proof fn lemma_accepted_before_elements(acc: Seq<usize>, c: int)
    ensures
        accepted_before(acc, c).len() <= acc.len(),
        forall|x: int|
            0 <= x < accepted_before(acc, c).len() ==> #[trigger] accepted_before(acc, c)[x] < c && acc.contains(
                accepted_before(acc, c)[x],
            ),
    decreases acc.len(),
{
    if acc.len() > 0 {
        let d = acc.drop_last();
        lemma_accepted_before_elements(d, c);
        let p = accepted_before(d, c);
        assert forall|x: int| 0 <= x < accepted_before(acc, c).len() implies #[trigger] accepted_before(acc, c)[x] < c
            && acc.contains(accepted_before(acc, c)[x]) by {
            let q = accepted_before(acc, c);
            if x < p.len() {
                assert(q[x] == p[x]);
                let w = choose|w: int| 0 <= w < d.len() && d[w] == p[x];
                assert(acc[w] == d[w]);
            } else {
                assert(acc[acc.len() - 1] == acc.last());
            }
        }
    }
}

/// A rejected candidate with a cell was rejected for an accepted candidate
/// before it in a near cell.
proof fn lemma_cull_rejection_has_near_cause<F: Fn(usize, usize) -> bool>(
    too_close: F,
    cols: int,
    rows: int,
    cells: Seq<Option<(usize, usize)>>,
    r: Seq<usize>,
    c: int,
)
    requires
        0 <= cols <= usize::MAX,
        0 <= rows <= usize::MAX,
        r.len() <= usize::MAX,
        cells_in_grid(cols, rows, cells, r),
        forall|d: int| 0 <= d < cells.len() ==> (#[trigger] cells[d] matches Some(g) ==> g.0 < cols && g.1 < rows),
        cull_decision(too_close, cols, rows, cells, r, c),
        0 <= c < cells.len(),
        c <= usize::MAX,
        cells[c] is Some,
        !r.contains(c as usize),
    ensures
        rejected_by_neighbour(too_close, cells, r, c),
{
    let before = accepted_before(r, c);
    let scan = scan_of(cols, rows, cells, r, c);
    let p = choose|p: int|
        0 <= p < scan.len() && call_ensures(too_close, (c as usize, before[#[trigger] scan[p] as int]), true);
    let v = scan[p];
    let g = cells[c].unwrap();
    assert(cells[c] matches Some(h) ==> h.0 < cols && h.1 < rows);
    let (xlo, xhi) = spec_window(g.0 as int, cols);
    let (ylo, yhi) = spec_window(g.1 as int, rows);
    let grid = grid_after(cols, rows, cells, before);
    assert(scan.contains(v));
    lemma_block_occupants_from(grid, cols, ylo, yhi, xlo, xhi, v);
    let (cx, cy) = choose|cx: int, cy: int| ylo <= cy < yhi && xlo <= cx < xhi && #[trigger] holds_at(grid, cols, cx, cy, v);
    lemma_accepted_before_elements(r, c);
    assert(cells_in_grid(cols, rows, cells, before)) by {
        assert forall|m: int| 0 <= m < before.len() implies (#[trigger] before[m]) < cells.len() && cells[before[m] as int] is Some
            && cells[before[m] as int].unwrap().0 < cols && cells[before[m] as int].unwrap().1 < rows by {
            let w = choose|w: int| 0 <= w < r.len() && r[w] == before[m];
            assert(r[w] < cells.len());
        }
    }
    lemma_cell_index_in_bounds(cols, rows, cx, cy);
    lemma_grid_after_entry(cols, rows, cells, before, cy * cols + cx, v);
    let a = before[v as int];
    let ga = cells[a as int].unwrap();
    assert(a < c);
    let w = choose|w: int| 0 <= w < r.len() && r[w] == a;
    lemma_cell_slot_injective(cols, ga, (cx as usize, cy as usize));
    assert(near_cells(cells[r[w] as int].unwrap(), cells[c].unwrap()));
    assert(call_ensures(too_close, (c as usize, r[w]), true));
}

proof fn lemma_cull_output_tests_neighbours<F: Fn(usize, usize) -> bool>(
    too_close: F,
    cols: int,
    rows: int,
    cells: Seq<Option<(usize, usize)>>,
    r: Seq<usize>,
)
    requires
        0 <= cols <= usize::MAX,
        0 <= rows <= usize::MAX,
        r.len() <= usize::MAX,
        cells.len() <= usize::MAX,
        forall|k: int, l: int| 0 <= k < l < r.len() ==> r[k] < r[l],
        forall|k: int| 0 <= k < r.len() ==> #[trigger] r[k] < cells.len() && cells[r[k] as int] is Some,
        forall|c: int|
            0 <= c < cells.len() ==> (#[trigger] cells[c] matches Some(g) ==> g.0 < cols && g.1 < rows),
        forall|c: int| 0 <= c < cells.len() ==> #[trigger] cull_decision(too_close, cols, rows, cells, r, c),
    ensures
        neighbours_tested(too_close, cells, r),
        forall|c: int|
            0 <= c < cells.len() && cells[c] is Some && !r.contains(c as usize) ==> #[trigger] rejected_by_neighbour(
                too_close,
                cells,
                r,
                c,
            ),
{
    assert forall|m: int| 0 <= m < r.len() implies (#[trigger] r[m]) < cells.len() && cells[r[m] as int] is Some
        && cells[r[m] as int].unwrap().0 < cols && cells[r[m] as int].unwrap().1 < rows by {
        assert(cells[r[m] as int] matches Some(g) ==> g.0 < cols && g.1 < rows);
    }
    assert(cells_in_grid(cols, rows, cells, r));
    assert forall|i: int, j: int|
        0 <= i < j < r.len() && near_cells(cells[r[i] as int].unwrap(), cells[r[j] as int].unwrap()) implies #[trigger] pair_tested(
        too_close,
        cells,
        r,
        i,
        j,
    ) by {
        lemma_cull_tests_neighbours(too_close, cols, rows, cells, r, i, j);
    }
    assert forall|c: int|
        0 <= c < cells.len() && cells[c] is Some && !r.contains(c as usize) implies #[trigger] rejected_by_neighbour(
        too_close,
        cells,
        r,
        c,
    ) by {
        lemma_cull_rejection_has_near_cause(too_close, cols, rows, cells, r, c);
    }
}

/// Greedy min-distance cull over candidates with precomputed grid cells.
/// Candidate `c` sits in cell `cells[c]` (or is out of the domain when
/// `None`). Candidates are taken in order; one is accepted when
/// `too_close(c, a)` is `false` for every earlier accepted candidate `a`
/// that the 5 × 5 neighbourhood scan of its cell reports. Returns the
/// accepted candidates in increasing order.
pub fn min_dist_cull<F: Fn(usize, usize) -> bool>(
    cols: usize,
    rows: usize,
    cells: &Vec<Option<(usize, usize)>>,
    too_close: F,
) -> (r: Vec<usize>)
    requires
        cols * rows <= usize::MAX,
        forall|c: int| 0 <= c < cells.len() ==> (#[trigger] cells@[c] matches Some(g) ==> g.0 < cols && g.1 < rows),
        forall|c: usize, a: usize| too_close.requires((c, a)),
    ensures
        forall|k: int, l: int| 0 <= k < l < r.len() ==> r@[k] < r@[l],
        forall|k: int| 0 <= k < r.len() ==> #[trigger] r@[k] < cells.len() && cells@[r@[k] as int] is Some,
        forall|c: int|
            0 <= c < cells.len() ==> #[trigger] cull_decision(too_close, cols as int, rows as int, cells@, r@, c),
        neighbours_tested(too_close, cells@, r@),
        forall|c: int|
            0 <= c < cells.len() && cells@[c] is Some && !r@.contains(c as usize) ==> #[trigger] rejected_by_neighbour(
                too_close,
                cells@,
                r@,
                c,
            ),
{
    let mut grid = AcceptGrid::new(cols, rows);
    let mut acc: Vec<usize> = Vec::new();
    let mut c: usize = 0;
    proof {
        assert(grid.spec_cells() =~= grid_after(cols as int, rows as int, cells@, acc@));
    }
    while c < cells.len()
        invariant
            c <= cells.len(),
            cols * rows <= usize::MAX,
            forall|d: int| 0 <= d < cells.len() ==> (#[trigger] cells@[d] matches Some(g) ==> g.0 < cols && g.1 < rows),
            forall|x: usize, a: usize| too_close.requires((x, a)),
            grid.spec_cols() == cols,
            grid.spec_rows() == rows,
            grid.spec_count() == acc.len(),
            acc.len() <= c,
            grid.spec_cells() == grid_after(cols as int, rows as int, cells@, acc@),
            forall|k: int, l: int| 0 <= k < l < acc.len() ==> acc@[k] < acc@[l],
            forall|k: int| 0 <= k < acc.len() ==> #[trigger] acc@[k] < c && cells@[acc@[k] as int] is Some,
            forall|d: int| 0 <= d < c ==> #[trigger] cull_decision(too_close, cols as int, rows as int, cells@, acc@, d),
        decreases cells.len() - c,
    {
        let ghost acc0 = acc@;
        proof {
            lemma_accepted_before_all(acc0, c as int);
        }
        match cells[c] {
            None => {
                proof {
                    assert(!acc0.contains(c as usize));
                }
            },
            Some((gx, gy)) => {
                let ns = grid.neighbors(gx, gy);
                let mut close = false;
                let mut k: usize = 0;
                while k < ns.len() && !close
                    invariant
                        k <= ns.len(),
                        forall|x: usize, a: usize| too_close.requires((x, a)),
                        forall|j: int| 0 <= j < ns.len() ==> #[trigger] ns@[j] < acc.len(),
                        acc@ == acc0,
                        !close ==> forall|j: int|
                            0 <= j < k ==> call_ensures(too_close, (c, acc0[#[trigger] ns@[j] as int]), false),
                        close ==> exists|j: int|
                            0 <= j < k && call_ensures(too_close, (c, acc0[#[trigger] ns@[j] as int]), true),
                    decreases ns.len() - k,
                {
                    let a = acc[ns[k]];
                    let hit = too_close(c, a);
                    close = hit;
                    k += 1;
                }
                if !close {
                    grid.record(gx, gy);
                    acc.push(c);
                    proof {
                        assert(acc@.drop_last() =~= acc0);
                        assert(grid.spec_cells() =~= grid_after(cols as int, rows as int, cells@, acc@));
                    }
                } else {
                    proof {
                        assert(!acc0.contains(c as usize));
                    }
                }
                proof {
                    assert(ns@ == scan_of(cols as int, rows as int, cells@, acc0, c as int));
                }
            },
        }
        proof {
            assert forall|d: int| 0 <= d < c + 1 implies #[trigger] cull_decision(too_close, cols as int, rows as int, cells@, acc@, d) by {
                if acc@ != acc0 {
                    assert(acc@ == acc0.push(c));
                    lemma_accepted_before_push(acc0, c, d);
                    if d < c {
                        assert(cull_decision(too_close, cols as int, rows as int, cells@, acc0, d));
                        assert(acc@.contains(d as usize) == acc0.contains(d as usize)) by {
                            if acc@.contains(d as usize) {
                                let w = choose|w: int| 0 <= w < acc@.len() && acc@[w] == d as usize;
                                assert(w < acc0.len());
                                assert(acc0[w] == d as usize);
                            }
                            if acc0.contains(d as usize) {
                                let w = choose|w: int| 0 <= w < acc0.len() && acc0[w] == d as usize;
                                assert(acc@[w] == d as usize);
                            }
                        }
                    } else {
                        assert(acc@[acc0.len() as int] == c);
                    }
                } else if d == c {
                    assert(!acc@.contains(c as usize)) by {
                        if acc@.contains(c as usize) {
                            let w = choose|w: int| 0 <= w < acc@.len() && acc@[w] == c as usize;
                            assert(acc0[w] < c);
                        }
                    }
                }
            }
        }
        c += 1;
    }
    proof {
        lemma_cull_output_tests_neighbours(too_close, cols as int, rows as int, cells@, acc@);
    }
    acc
}

/// Row-major index of an in-bounds cell is in bounds.
proof fn lemma_cell_index_in_bounds(cols: int, rows: int, x: int, y: int)
    requires
        0 <= x < cols,
        0 <= y < rows,
    ensures
        0 <= y * cols + x < cols * rows,
        0 <= y * cols <= y * cols + x,
{
    assert(y * cols + x < cols * rows) by (nonlinear_arith)
        requires 0 <= x < cols, 0 <= y < rows;
    assert(0 <= y * cols) by (nonlinear_arith)
        requires 0 <= y, 0 <= cols;
}

/// The neighbourhood bounds of cell `g` on an axis of `n` cells.
pub fn window(g: usize, n: usize) -> (r: (usize, usize))
    requires
        g < n,
    ensures
        r.0 == spec_window(g as int, n as int).0,
        r.1 == spec_window(g as int, n as int).1,
        r.0 <= r.1 <= n,
{
    let lo: usize = if g >= 2 { g - 2 } else { 0 };
    let hi: usize = if n - g >= 3 { g + 3 } else { n };
    (lo, hi)
}

} // verus!
