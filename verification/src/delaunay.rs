//! The combinatorial half of Bowyer–Watson Delaunay triangulation.
//!
//! Inserting point `i` removes every triangle whose circumcircle contains the
//! point (the "bad" triangles, decided geometrically by the caller), finds the
//! boundary of the polygonal hole they leave (edges that belong to exactly one
//! bad triangle), and fans new triangles from the point to each boundary edge.
//! Triangulation starts from a super-triangle on vertices `n, n + 1, n + 2`
//! and ends by dropping every triangle that still touches one of them.
use vstd::prelude::*;
use vstd::multiset::Multiset;

verus! {

/// A triangle as three vertex indices.
pub type Tri = (usize, usize, usize);

/// A directed edge as two vertex indices.
pub type Edge = (usize, usize);

/// The three directed edges of a triangle, in winding order.
pub open spec fn tri_edges(t: Tri) -> Seq<Edge> {
    seq![(t.0, t.1), (t.1, t.2), (t.2, t.0)]
}

/// Two directed edges join the same pair of vertices.
pub open spec fn same_edge(a: Edge, b: Edge) -> bool {
    (a.0 == b.0 && a.1 == b.1) || (a.0 == b.1 && a.1 == b.0)
}

/// Triangle `t` has edge `e` (in either direction).
pub open spec fn tri_has_edge(t: Tri, e: Edge) -> bool {
    same_edge(e, (t.0, t.1)) || same_edge(e, (t.1, t.2)) || same_edge(e, (t.2, t.0))
}

/// Edge `e` of bad triangle `t` is shared with another bad triangle.
pub open spec fn edge_shared(tris: Seq<Tri>, bad: Seq<usize>, t: usize, e: Edge) -> bool {
    exists|q: int| 0 <= q < bad.len() && bad[q] != t && #[trigger] tri_has_edge(tris[bad[q] as int], e)
}

/// `seq![e]` when `e` is not shared, otherwise empty.
pub open spec fn keep_edge(tris: Seq<Tri>, bad: Seq<usize>, t: usize, e: Edge) -> Seq<Edge> {
    if edge_shared(tris, bad, t, e) {
        Seq::empty()
    } else {
        seq![e]
    }
}

/// The edges of bad triangle `t` that no other bad triangle has, in winding order.
pub open spec fn tri_boundary(tris: Seq<Tri>, bad: Seq<usize>, t: usize) -> Seq<Edge> {
    let tri = tris[t as int];
    keep_edge(tris, bad, t, (tri.0, tri.1)) + keep_edge(tris, bad, t, (tri.1, tri.2)) + keep_edge(
        tris,
        bad,
        t,
        (tri.2, tri.0),
    )
}

/// The boundary edges contributed by the first `p` bad triangles, in order.
pub open spec fn boundary_of(tris: Seq<Tri>, bad: Seq<usize>, p: int) -> Seq<Edge>
    decreases p,
{
    if p <= 0 {
        Seq::empty()
    } else {
        boundary_of(tris, bad, p - 1) + tri_boundary(tris, bad, bad[p - 1])
    }
}

/// The bad-triangle list is strictly increasing and indexes `tris`.
pub open spec fn bad_ok(tris: Seq<Tri>, bad: Seq<usize>) -> bool {
    &&& forall|a: int, b: int| 0 <= a < b < bad.len() ==> bad[a] < bad[b]
    &&& forall|a: int| 0 <= a < bad.len() ==> #[trigger] bad[a] < tris.len()
}

/// Whether another bad triangle than `t` has edge `e`.
fn is_shared(tris: &Vec<Tri>, bad: &Vec<usize>, t: usize, e: Edge) -> (r: bool)
    requires
        bad_ok(tris@, bad@),
    ensures
        r == edge_shared(tris@, bad@, t, e),
{
    let mut q: usize = 0;
    while q < bad.len()
        invariant
            bad_ok(tris@, bad@),
            q <= bad.len(),
            forall|j: int| 0 <= j < q ==> !(bad@[j] != t && #[trigger] tri_has_edge(tris@[bad@[j] as int], e)),
        decreases bad.len() - q,
    {
        let other = bad[q];
        if other != t {
            let (oa, ob, oc) = tris[other];
            let hit = (e.0 == oa && e.1 == ob) || (e.0 == ob && e.1 == oa)
                || (e.0 == ob && e.1 == oc) || (e.0 == oc && e.1 == ob)
                || (e.0 == oc && e.1 == oa) || (e.0 == oa && e.1 == oc);
            if hit {
                assert(tri_has_edge(tris@[bad@[q as int] as int], e));
                return true;
            }
        }
        q += 1;
    }
    false
}

/// The boundary of the hole left by the bad triangles: every edge of a bad
/// triangle that no other bad triangle has, taken bad triangle by bad
/// triangle, each in winding order.
pub fn boundary_edges(tris: &Vec<Tri>, bad: &Vec<usize>) -> (r: Vec<Edge>)
    requires
        bad_ok(tris@, bad@),
    ensures
        r@ == boundary_of(tris@, bad@, bad@.len() as int),
{
    let mut out: Vec<Edge> = Vec::new();
    let mut p: usize = 0;
    while p < bad.len()
        invariant
            bad_ok(tris@, bad@),
            p <= bad.len(),
            out@ == boundary_of(tris@, bad@, p as int),
        decreases bad.len() - p,
    {
        let t = bad[p];
        let (a, b, c) = tris[t];
        let ghost before = out@;
        let e0: Edge = (a, b);
        let e1: Edge = (b, c);
        let e2: Edge = (c, a);
        if !is_shared(tris, bad, t, e0) {
            out.push(e0);
        }
        let ghost after0 = out@;
        if !is_shared(tris, bad, t, e1) {
            out.push(e1);
        }
        let ghost after1 = out@;
        if !is_shared(tris, bad, t, e2) {
            out.push(e2);
        }
        proof {
            assert(after0 =~= before + keep_edge(tris@, bad@, t, e0));
            assert(after1 =~= after0 + keep_edge(tris@, bad@, t, e1));
            assert(out@ =~= after1 + keep_edge(tris@, bad@, t, e2));
            assert(boundary_of(tris@, bad@, p as int + 1) =~= before + tri_boundary(tris@, bad@, t));
        }
        p += 1;
    }
    out
}

/// Swap-remove of position `t`: the last triangle takes its place.
pub open spec fn swap_removed(s: Seq<Tri>, t: int) -> Seq<Tri> {
    s.update(t, s.last()).drop_last()
}

/// `s` after swap-removing the positions `bad[j..]`, highest position first.
pub open spec fn removed_from(s: Seq<Tri>, bad: Seq<usize>, j: int) -> Seq<Tri>
    decreases bad.len() - j,
{
    if j >= bad.len() || j < 0 {
        s
    } else {
        swap_removed(removed_from(s, bad, j + 1), bad[j] as int)
    }
}

/// `s` after removing every bad position.
pub open spec fn without_bad(s: Seq<Tri>, bad: Seq<usize>) -> Seq<Tri> {
    removed_from(s, bad, 0)
}

/// Below the first position still to be removed nothing has moved, and each
/// removal shortens the sequence by one.
proof fn lemma_removed_from_shape(s: Seq<Tri>, bad: Seq<usize>, j: int)
    requires
        bad_ok(s, bad),
        0 <= j <= bad.len(),
    ensures
        removed_from(s, bad, j).len() == s.len() - (bad.len() - j),
        j < bad.len() ==> bad[j] + (bad.len() - j) <= s.len(),
        forall|i: int|
            0 <= i < (if j < bad.len() { bad[j] as int } else { s.len() as int }) && i < removed_from(s, bad, j).len()
                ==> #[trigger] removed_from(s, bad, j)[i] == s[i],
    decreases bad.len() - j,
{
    if j < bad.len() {
        lemma_removed_from_shape(s, bad, j + 1);
        let prev = removed_from(s, bad, j + 1);
        if j + 1 < bad.len() {
            assert(bad[j] < bad[j + 1]);
        }
        assert forall|i: int|
            0 <= i < bad[j] as int && i < removed_from(s, bad, j).len()
                implies #[trigger] removed_from(s, bad, j)[i] == s[i] by {
            assert(removed_from(s, bad, j)[i] == prev[i]);
            if j + 1 < bad.len() {
                assert(bad[j] < bad[j + 1]);
            }
        }
    }
}

/// Swap-removing position `t` removes exactly one copy of `s[t]`.
proof fn lemma_swap_removed_multiset(s: Seq<Tri>, t: int)
    requires
        0 <= t < s.len(),
    ensures
        swap_removed(s, t).to_multiset() == s.to_multiset().remove(s[t]),
{
    broadcast use vstd::seq_lib::group_to_multiset_ensures;

    let d = s.drop_last();
    assert(s =~= d.push(s.last()));
    if t == s.len() - 1 {
        assert(swap_removed(s, t) =~= d);
        assert(d.push(s.last()).to_multiset() =~= d.to_multiset().insert(s.last()));
        assert(d.to_multiset().insert(s.last()).remove(s.last()) =~= d.to_multiset());
    } else {
        assert(swap_removed(s, t) =~= d.update(t, s.last()));
        vstd::seq_lib::to_multiset_update(d, t, s.last());
        assert(d[t] == s[t]);
        assert(d.to_multiset().insert(s.last()) =~= s.to_multiset());
    }
}

/// The bad triangles themselves.
pub open spec fn bad_tris(s: Seq<Tri>, bad: Seq<usize>) -> Seq<Tri> {
    bad.map_values(|t: usize| s[t as int])
}

proof fn lemma_removed_from_multiset(s: Seq<Tri>, bad: Seq<usize>, j: int)
    requires
        bad_ok(s, bad),
        0 <= j <= bad.len(),
    ensures
        removed_from(s, bad, j).to_multiset().add(bad_tris(s, bad.subrange(j, bad.len() as int)).to_multiset())
            == s.to_multiset(),
    decreases bad.len() - j,
{
    broadcast use vstd::seq_lib::group_to_multiset_ensures;
    broadcast use vstd::multiset::group_multiset_axioms;

    if j == bad.len() {
        assert(bad_tris(s, bad.subrange(j, bad.len() as int)) =~= Seq::<Tri>::empty());
        assert(removed_from(s, bad, j).to_multiset().add(Multiset::empty()) =~= s.to_multiset());
    } else {
        lemma_removed_from_multiset(s, bad, j + 1);
        lemma_removed_from_shape(s, bad, j + 1);
        let prev = removed_from(s, bad, j + 1);
        let t = bad[j] as int;
        if j + 1 < bad.len() {
            assert(bad[j] < bad[j + 1]);
        }
        assert(t < prev.len()) by {
            lemma_removed_from_shape(s, bad, j);
        }
        assert(prev[t] == s[t]);
        lemma_swap_removed_multiset(prev, t);
        let rest = bad_tris(s, bad.subrange(j + 1, bad.len() as int));
        assert(bad_tris(s, bad.subrange(j, bad.len() as int)) =~= seq![s[t]] + rest);
        vstd::seq_lib::lemma_multiset_commutative(seq![s[t]], rest);
        assert(seq![s[t]].to_multiset() =~= Multiset::empty().insert(s[t])) by {
            assert(seq![s[t]] =~= Seq::<Tri>::empty().push(s[t]));
            vstd::seq_lib::to_multiset_build(Seq::<Tri>::empty(), s[t]);
        }
        assert(prev.to_multiset().count(s[t]) > 0) by {
            assert(prev[t] == s[t]);
            vstd::seq_lib::to_multiset_contains(prev, s[t]);
        }
        assert(removed_from(s, bad, j).to_multiset().add(
            bad_tris(s, bad.subrange(j, bad.len() as int)).to_multiset(),
        ) =~= prev.to_multiset().add(rest.to_multiset()));
    }
}

/// Removing the bad triangles keeps every other triangle: what remains,
/// together with the bad triangles, is exactly the triangles before removal
/// (counted with multiplicity).
pub proof fn lemma_without_bad_keeps_the_rest(s: Seq<Tri>, bad: Seq<usize>)
    requires
        bad_ok(s, bad),
    ensures
        without_bad(s, bad).to_multiset().add(bad_tris(s, bad).to_multiset()) == s.to_multiset(),
        without_bad(s, bad).len() == s.len() - bad.len(),
{
    lemma_removed_from_multiset(s, bad, 0);
    assert(bad.subrange(0, bad.len() as int) =~= bad);
    lemma_removed_from_shape(s, bad, 0);
}

/// Remove the bad triangles, highest position first, each by swap-remove.
pub fn remove_bad(tris: &mut Vec<Tri>, bad: &Vec<usize>)
    requires
        bad_ok(old(tris)@, bad@),
    ensures
        final(tris)@ == without_bad(old(tris)@, bad@),
{
    let ghost orig = tris@;
    let mut j: usize = bad.len();
    while j > 0
        invariant
            bad_ok(orig, bad@),
            j <= bad.len(),
            tris@ == removed_from(orig, bad@, j as int),
        decreases j,
    {
        proof {
            lemma_removed_from_shape(orig, bad@, j as int - 1);
            lemma_removed_from_shape(orig, bad@, j as int);
        }
        let t = bad[j - 1];
        tris.swap_remove(t);
        j -= 1;
    }
}

/// The fan of new triangles from point `i` to each boundary edge.
pub open spec fn fan(i: usize, edges: Seq<Edge>) -> Seq<Tri> {
    edges.map_values(|e: Edge| (i, e.0, e.1))
}

/// The triangles after inserting point `i` with the given bad triangles.
pub open spec fn spec_insert(tris: Seq<Tri>, i: usize, bad: Seq<usize>) -> Seq<Tri> {
    without_bad(tris, bad) + fan(i, boundary_of(tris, bad, bad.len() as int))
}

/// One Bowyer–Watson insertion: remove the bad triangles and fan new
/// triangles from point `i` to the boundary of the hole they leave.
pub fn insert_point(tris: Vec<Tri>, i: usize, bad: &Vec<usize>) -> (r: Vec<Tri>)
    requires
        bad_ok(tris@, bad@),
    ensures
        r@ == spec_insert(tris@, i, bad@),
{
    let edges = boundary_edges(&tris, bad);
    let mut out = tris;
    remove_bad(&mut out, bad);
    let ghost kept = out@;
    let mut k: usize = 0;
    while k < edges.len()
        invariant
            k <= edges.len(),
            out@ == kept + fan(i, edges@.subrange(0, k as int)),
        decreases edges.len() - k,
    {
        let (e0, e1) = edges[k];
        out.push((i, e0, e1));
        proof {
            assert(edges@.subrange(0, k as int + 1) =~= edges@.subrange(0, k as int).push(edges@[k as int]));
            assert(fan(i, edges@.subrange(0, k as int + 1)) =~= fan(i, edges@.subrange(0, k as int)).push(
                (i, e0, e1),
            ));
        }
        k += 1;
    }
    proof {
        assert(edges@.subrange(0, edges.len() as int) =~= edges@);
    }
    out
}

/// The initial triangulation: the super-triangle on vertices `n, n + 1, n + 2`.
pub fn super_triangle(n: usize) -> (r: Vec<Tri>)
    requires
        n + 2 <= usize::MAX,
    ensures
        r@ == seq![(n, (n + 1) as usize, (n + 2) as usize)],
{
    let mut out: Vec<Tri> = Vec::new();
    out.push((n, n + 1, n + 2));
    out
}

/// Whether every vertex of `t` is one of the first `n` points.
pub open spec fn inner(t: Tri, n: int) -> bool {
    t.0 < n && t.1 < n && t.2 < n
}

/// The triangles of `s` whose vertices are all input points, in order.
pub open spec fn inner_tris(s: Seq<Tri>, n: int) -> Seq<Tri>
    decreases s.len(),
{
    if s.len() == 0 {
        Seq::empty()
    } else {
        let front = inner_tris(s.drop_last(), n);
        if inner(s.last(), n) {
            front.push(s.last())
        } else {
            front
        }
    }
}

/// Drop every triangle that touches a super-triangle vertex (index `>= n`).
pub fn drop_super(tris: &Vec<Tri>, n: usize) -> (r: Vec<Tri>)
    ensures
        r@ == inner_tris(tris@, n as int),
{
    let mut out: Vec<Tri> = Vec::new();
    let mut k: usize = 0;
    while k < tris.len()
        invariant
            k <= tris.len(),
            out@ == inner_tris(tris@.subrange(0, k as int), n as int),
        decreases tris.len() - k,
    {
        let (a, b, c) = tris[k];
        proof {
            assert(tris@.subrange(0, k as int + 1).drop_last() =~= tris@.subrange(0, k as int));
        }
        if a < n && b < n && c < n {
            out.push((a, b, c));
        }
        k += 1;
    }
    proof {
        assert(tris@.subrange(0, tris.len() as int) =~= tris@);
    }
    out
}

/// Vertex `v` is an already inserted point (`< i`) or a super-triangle vertex.
pub open spec fn vertex_ok(v: usize, i: int, n: int) -> bool {
    v < i || (n <= v < n + 3)
}

/// Triangle `t` has three distinct vertices, each inserted or super.
pub open spec fn tri_ok(t: Tri, i: int, n: int) -> bool {
    &&& vertex_ok(t.0, i, n) && vertex_ok(t.1, i, n) && vertex_ok(t.2, i, n)
    &&& t.0 != t.1 && t.1 != t.2 && t.0 != t.2
}

/// Every triangle of `s` is proper and built from inserted or super vertices.
pub open spec fn all_ok(s: Seq<Tri>, i: int, n: int) -> bool {
    forall|k: int| 0 <= k < s.len() ==> tri_ok(#[trigger] s[k], i, n)
}

/// The super-triangle is proper and uses only super vertices.
pub proof fn lemma_super_triangle_ok(n: usize)
    requires
        n + 2 <= usize::MAX,
    ensures
        all_ok(seq![(n, (n + 1) as usize, (n + 2) as usize)], 0, n as int),
{
}

/// Every boundary edge is a directed edge of some bad triangle.
proof fn lemma_boundary_edge_origin(tris: Seq<Tri>, bad: Seq<usize>, p: int, k: int)
    requires
        0 <= p <= bad.len(),
        0 <= k < boundary_of(tris, bad, p).len(),
    ensures
        exists|q: int| 0 <= q < p && #[trigger] tri_edges(tris[bad[q] as int]).contains(boundary_of(tris, bad, p)[k]),
    decreases p,
{
    let front = boundary_of(tris, bad, p - 1);
    let t = bad[p - 1];
    let tri = tris[t as int];
    let e = boundary_of(tris, bad, p)[k];
    if k < front.len() {
        lemma_boundary_edge_origin(tris, bad, p - 1, k);
        assert(boundary_of(tris, bad, p)[k] == front[k]);
    } else {
        let tb = tri_boundary(tris, bad, t);
        assert(e == tb[k - front.len()]);
        let es = tri_edges(tri);
        assert(es[0] == (tri.0, tri.1) && es[1] == (tri.1, tri.2) && es[2] == (tri.2, tri.0));
        assert(e == (tri.0, tri.1) || e == (tri.1, tri.2) || e == (tri.2, tri.0));
        assert(tri_edges(tris[bad[p - 1] as int]).contains(e));
    }
}

/// Every triangle left after removal was there before.
proof fn lemma_without_bad_subset(s: Seq<Tri>, bad: Seq<usize>, k: int)
    requires
        bad_ok(s, bad),
        0 <= k < without_bad(s, bad).len(),
    ensures
        s.contains(without_bad(s, bad)[k]),
{
    broadcast use vstd::seq_lib::group_to_multiset_ensures;
    broadcast use vstd::multiset::group_multiset_axioms;

    let w = without_bad(s, bad);
    lemma_without_bad_keeps_the_rest(s, bad);
    vstd::seq_lib::to_multiset_contains(w, w[k]);
    vstd::seq_lib::to_multiset_contains(s, w[k]);
    assert(w.to_multiset().count(w[k]) > 0);
    assert(s.to_multiset().count(w[k]) >= w.to_multiset().count(w[k]));
}

/// Insertion keeps the triangulation proper: when every triangle has three
/// distinct vertices drawn from the points inserted so far and the
/// super-triangle, the same holds after inserting point `i`, with `i` now
/// counted as inserted.
pub proof fn lemma_insert_keeps_triangles_proper(s: Seq<Tri>, i: usize, n: usize, bad: Seq<usize>)
    requires
        bad_ok(s, bad),
        all_ok(s, i as int, n as int),
        i < n,
    ensures
        all_ok(spec_insert(s, i, bad), i + 1, n as int),
{
    let w = without_bad(s, bad);
    let edges = boundary_of(s, bad, bad.len() as int);
    let r = spec_insert(s, i, bad);
    assert forall|k: int| 0 <= k < r.len() implies tri_ok(#[trigger] r[k], i + 1, n as int) by {
        if k < w.len() {
            lemma_without_bad_subset(s, bad, k);
            let j = choose|j: int| 0 <= j < s.len() && s[j] == w[k];
            assert(tri_ok(s[j], i as int, n as int));
            assert(r[k] == w[k]);
        } else {
            let m = k - w.len();
            assert(r[k] == (i, edges[m].0, edges[m].1));
            lemma_boundary_edge_origin(s, bad, bad.len() as int, m);
            let q = choose|q: int| 0 <= q < bad.len() && #[trigger] tri_edges(s[bad[q] as int]).contains(edges[m]);
            let tri = s[bad[q] as int];
            assert(tri_ok(tri, i as int, n as int));
            let es = tri_edges(tri);
            let c = choose|c: int| 0 <= c < 3 && es[c] == edges[m];
            assert(es[0] == (tri.0, tri.1) && es[1] == (tri.1, tri.2) && es[2] == (tri.2, tri.0));
        }
    }
}

/// The finished triangulation references input points only: once every
/// triangle is proper over inserted and super vertices, dropping the
/// triangles that touch the super-triangle leaves triangles with three
/// distinct indices into the first `n` points.
pub proof fn lemma_drop_super_output(s: Seq<Tri>, i: int, n: int, k: int)
    requires
        all_ok(s, i, n),
        0 <= k < inner_tris(s, n).len(),
    ensures
        inner(inner_tris(s, n)[k], n),
        inner_tris(s, n)[k].0 != inner_tris(s, n)[k].1,
        inner_tris(s, n)[k].1 != inner_tris(s, n)[k].2,
        inner_tris(s, n)[k].0 != inner_tris(s, n)[k].2,
    decreases s.len(),
{
    let d = s.drop_last();
    assert(all_ok(d, i, n)) by {
        assert forall|j: int| 0 <= j < d.len() implies tri_ok(#[trigger] d[j], i, n) by {
            assert(d[j] == s[j]);
        }
    }
    let front = inner_tris(d, n);
    if k < front.len() {
        lemma_drop_super_output(d, i, n, k);
        if inner(s.last(), n) {
            assert(inner_tris(s, n)[k] == front[k]);
        }
    } else {
        assert(tri_ok(s[s.len() - 1], i, n));
    }
}

/// The triangles after inserting points `0 .. k` from the super-triangle,
/// point `j` with bad triangles `bads[j]`.
pub open spec fn triangulation_after(n: usize, bads: Seq<Seq<usize>>, k: int) -> Seq<Tri>
    decreases k,
{
    if k <= 0 {
        seq![(n, (n + 1) as usize, (n + 2) as usize)]
    } else {
        spec_insert(triangulation_after(n, bads, k - 1), (k - 1) as usize, bads[k - 1])
    }
}

proof fn lemma_triangulation_after_ok(n: usize, bads: Seq<Seq<usize>>, k: int)
    requires
        n + 2 <= usize::MAX,
        0 <= k <= n,
        k <= bads.len(),
        forall|j: int| 0 <= j < k ==> bad_ok(#[trigger] triangulation_after(n, bads, j), bads[j]),
    ensures
        all_ok(triangulation_after(n, bads, k), k, n as int),
    decreases k,
{
    if k == 0 {
        lemma_super_triangle_ok(n);
    } else {
        lemma_triangulation_after_ok(n, bads, k - 1);
        lemma_insert_keeps_triangles_proper(triangulation_after(n, bads, k - 1), (k - 1) as usize, n, bads[k - 1]);
    }
}

/// Bowyer–Watson yields proper triangles over the input: after inserting all
/// `n` points from the super-triangle (each with bad triangles that index the
/// current triangle list in increasing order) and dropping the triangles that
/// touch the super-triangle, every triangle has three distinct vertices, all
/// indices into the `n` input points.
pub proof fn lemma_triangulation_output_proper(n: usize, bads: Seq<Seq<usize>>, k: int)
    requires
        n + 2 <= usize::MAX,
        bads.len() == n,
        forall|j: int| 0 <= j < n ==> bad_ok(#[trigger] triangulation_after(n, bads, j), bads[j]),
        0 <= k < inner_tris(triangulation_after(n, bads, n as int), n as int).len(),
    ensures
        ({
            let t = inner_tris(triangulation_after(n, bads, n as int), n as int)[k];
            t.0 < n && t.1 < n && t.2 < n && t.0 != t.1 && t.1 != t.2 && t.0 != t.2
        }),
{
    lemma_triangulation_after_ok(n, bads, n as int);
    lemma_drop_super_output(triangulation_after(n, bads, n as int), n as int, n as int, k);
}

/// Vertex `v` is a corner of triangle `t`.
pub open spec fn has_vertex(t: Tri, v: usize) -> bool {
    v == t.0 || v == t.1 || v == t.2
}

/// Triangles `a` and `b` have the same vertex set.
pub open spec fn same_verts(a: Tri, b: Tri) -> bool {
    &&& has_vertex(b, a.0) && has_vertex(b, a.1) && has_vertex(b, a.2)
    &&& has_vertex(a, b.0) && has_vertex(a, b.1) && has_vertex(a, b.2)
}

/// No two triangles of `s` have the same vertex set.
pub open spec fn distinct_tris(s: Seq<Tri>) -> bool {
    forall|k: int, l: int| 0 <= k < l < s.len() ==> !same_verts(#[trigger] s[k], #[trigger] s[l])
}

proof fn lemma_swap_removed_distinct(s: Seq<Tri>, t: int)
    requires
        0 <= t < s.len(),
        distinct_tris(s),
    ensures
        distinct_tris(swap_removed(s, t)),
{
    let r = swap_removed(s, t);
    let last = s.len() - 1;
    assert forall|k: int, l: int| 0 <= k < l < r.len() implies !same_verts(#[trigger] r[k], #[trigger] r[l]) by {
        let pk = if k == t { last } else { k };
        let pl = if l == t { last } else { l };
        assert(r[k] == s[pk] && r[l] == s[pl]);
        if pk < pl {
            assert(!same_verts(s[pk], s[pl]));
        } else {
            assert(!same_verts(s[pl], s[pk]));
        }
    }
}

proof fn lemma_removed_from_distinct(s: Seq<Tri>, bad: Seq<usize>, j: int)
    requires
        bad_ok(s, bad),
        0 <= j <= bad.len(),
        distinct_tris(s),
    ensures
        distinct_tris(removed_from(s, bad, j)),
    decreases bad.len() - j,
{
    if j < bad.len() {
        lemma_removed_from_distinct(s, bad, j + 1);
        lemma_removed_from_shape(s, bad, j);
        lemma_removed_from_shape(s, bad, j + 1);
        lemma_swap_removed_distinct(removed_from(s, bad, j + 1), bad[j] as int);
    }
}

/// Three distinct corners.
pub open spec fn proper(t: Tri) -> bool {
    t.0 != t.1 && t.1 != t.2 && t.0 != t.2
}

/// The boundary edges a bad triangle contributes are its own edges, none
/// shared with another bad triangle, and no two join the same vertices.
proof fn lemma_tri_boundary_facts(tris: Seq<Tri>, bad: Seq<usize>, t: usize)
    requires
        t < tris.len(),
        proper(tris[t as int]),
    ensures
        forall|j: int| 0 <= j < tri_boundary(tris, bad, t).len() ==> {
            &&& tri_edges(tris[t as int]).contains(#[trigger] tri_boundary(tris, bad, t)[j])
            &&& !edge_shared(tris, bad, t, tri_boundary(tris, bad, t)[j])
        },
        forall|j: int, l: int|
            0 <= j < l < tri_boundary(tris, bad, t).len() ==> !same_edge(
                #[trigger] tri_boundary(tris, bad, t)[j],
                #[trigger] tri_boundary(tris, bad, t)[l],
            ),
{
    let tri = tris[t as int];
    let e0 = (tri.0, tri.1);
    let e1 = (tri.1, tri.2);
    let e2 = (tri.2, tri.0);
    let k0 = keep_edge(tris, bad, t, e0);
    let k1 = keep_edge(tris, bad, t, e1);
    let k2 = keep_edge(tris, bad, t, e2);
    let tb = tri_boundary(tris, bad, t);
    let es = tri_edges(tri);
    assert(es[0] == e0 && es[1] == e1 && es[2] == e2);
    assert(tb == k0 + k1 + k2);
    // Position j of the boundary holds edge number `which(j)` of the triangle.
    let which = |j: int| if j < k0.len() { 0int } else if j < k0.len() + k1.len() { 1int } else { 2int };
    assert forall|j: int| 0 <= j < tb.len() implies {
        &&& tb[j] == es[which(j)]
        &&& !edge_shared(tris, bad, t, tb[j])
        &&& (which(j) == 0 ==> j == 0)
        &&& (which(j) == 1 ==> j == k0.len())
        &&& (which(j) == 2 ==> j == k0.len() + k1.len())
    } by {
        if j < k0.len() {
            assert(tb[j] == k0[j]);
        } else if j < k0.len() + k1.len() {
            assert(tb[j] == k1[j - k0.len()]);
        } else {
            assert(tb[j] == k2[j - k0.len() - k1.len()]);
        }
    }
    assert forall|j: int| 0 <= j < tb.len() implies {
        &&& tri_edges(tris[t as int]).contains(#[trigger] tb[j])
        &&& !edge_shared(tris, bad, t, tb[j])
    } by {
        assert(es[which(j)] == tb[j]);
    }
    assert forall|j: int, l: int| 0 <= j < l < tb.len() implies !same_edge(#[trigger] tb[j], #[trigger] tb[l]) by {
        assert(tb[j] == es[which(j)] && tb[l] == es[which(l)]);
        assert(which(j) != which(l));
    }
}

/// Every boundary edge is an edge of some bad triangle that shares it with
/// no other bad triangle.
proof fn lemma_boundary_kept_origin(tris: Seq<Tri>, bad: Seq<usize>, p: int, k: int)
    requires
        bad_ok(tris, bad),
        0 <= p <= bad.len(),
        0 <= k < boundary_of(tris, bad, p).len(),
        forall|q: int| 0 <= q < p ==> proper(#[trigger] tris[bad[q] as int]),
    ensures
        exists|q: int|
            0 <= q < p && #[trigger] tri_edges(tris[bad[q] as int]).contains(boundary_of(tris, bad, p)[k])
                && !edge_shared(tris, bad, bad[q], boundary_of(tris, bad, p)[k]),
    decreases p,
{
    let front = boundary_of(tris, bad, p - 1);
    let t = bad[p - 1];
    let tb = tri_boundary(tris, bad, t);
    assert(boundary_of(tris, bad, p) == front + tb);
    if k < front.len() {
        lemma_boundary_kept_origin(tris, bad, p - 1, k);
        assert(boundary_of(tris, bad, p)[k] == front[k]);
    } else {
        assert(proper(tris[bad[p - 1] as int]));
        lemma_tri_boundary_facts(tris, bad, t);
        assert(boundary_of(tris, bad, p)[k] == tb[k - front.len()]);
        assert(tri_edges(tris[bad[p - 1] as int]).contains(tb[k - front.len()]));
    }
}

/// No two boundary edges join the same pair of vertices.
proof fn lemma_boundary_distinct(tris: Seq<Tri>, bad: Seq<usize>, p: int)
    requires
        bad_ok(tris, bad),
        0 <= p <= bad.len(),
        forall|q: int| 0 <= q < bad.len() ==> proper(#[trigger] tris[bad[q] as int]),
    ensures
        forall|k: int, l: int|
            0 <= k < l < boundary_of(tris, bad, p).len() ==> !same_edge(
                #[trigger] boundary_of(tris, bad, p)[k],
                #[trigger] boundary_of(tris, bad, p)[l],
            ),
    decreases p,
{
    if p > 0 {
        lemma_boundary_distinct(tris, bad, p - 1);
        let front = boundary_of(tris, bad, p - 1);
        let t = bad[p - 1];
        let tb = tri_boundary(tris, bad, t);
        let b = boundary_of(tris, bad, p);
        assert(b == front + tb);
        assert(proper(tris[bad[p - 1] as int]));
        lemma_tri_boundary_facts(tris, bad, t);
        assert forall|k: int, l: int| 0 <= k < l < b.len() implies !same_edge(#[trigger] b[k], #[trigger] b[l]) by {
            if l < front.len() {
                assert(b[k] == front[k] && b[l] == front[l]);
            } else if k >= front.len() {
                assert(b[k] == tb[k - front.len()] && b[l] == tb[l - front.len()]);
            } else {
                let x = front[k];
                let y = tb[l - front.len()];
                assert(b[k] == x && b[l] == y);
                lemma_boundary_kept_origin(tris, bad, p - 1, k);
                let q = choose|q: int|
                    0 <= q < p - 1 && #[trigger] tri_edges(tris[bad[q] as int]).contains(x)
                        && !edge_shared(tris, bad, bad[q], x);
                assert(bad[q] < bad[p - 1]);
                if same_edge(x, y) {
                    let tri = tris[t as int];
                    let es = tri_edges(tri);
                    assert(es[0] == (tri.0, tri.1) && es[1] == (tri.1, tri.2) && es[2] == (tri.2, tri.0));
                    assert(es.contains(y));
                    assert(tri_has_edge(tris[bad[p - 1] as int], x));
                    assert(edge_shared(tris, bad, bad[q], x));
                }
            }
        }
    }
}

/// Endpoints of a boundary edge are distinct vertices of a bad triangle.
proof fn lemma_fan_edge_endpoints(s: Seq<Tri>, i: usize, n: usize, bad: Seq<usize>, m: int)
    requires
        bad_ok(s, bad),
        all_ok(s, i as int, n as int),
        i < n,
        0 <= m < boundary_of(s, bad, bad.len() as int).len(),
    ensures
        ({
            let e = boundary_of(s, bad, bad.len() as int)[m];
            &&& e.0 != e.1
            &&& vertex_ok(e.0, i as int, n as int) && vertex_ok(e.1, i as int, n as int)
            &&& e.0 != i && e.1 != i
        }),
{
    let edges = boundary_of(s, bad, bad.len() as int);
    lemma_boundary_edge_origin(s, bad, bad.len() as int, m);
    let q = choose|q: int| 0 <= q < bad.len() && #[trigger] tri_edges(s[bad[q] as int]).contains(edges[m]);
    let tri = s[bad[q] as int];
    assert(tri_ok(tri, i as int, n as int));
    let es = tri_edges(tri);
    let c = choose|c: int| 0 <= c < 3 && es[c] == edges[m];
    assert(es[0] == (tri.0, tri.1) && es[1] == (tri.1, tri.2) && es[2] == (tri.2, tri.0));
}

/// Insertion keeps vertex sets distinct: when no two triangles share a
/// vertex set (and all are proper over the points inserted so far and the
/// super-triangle), the same holds after inserting point `i`.
pub proof fn lemma_insert_keeps_triangles_distinct(s: Seq<Tri>, i: usize, n: usize, bad: Seq<usize>)
    requires
        bad_ok(s, bad),
        all_ok(s, i as int, n as int),
        distinct_tris(s),
        i < n,
    ensures
        distinct_tris(spec_insert(s, i, bad)),
{
    let w = without_bad(s, bad);
    let edges = boundary_of(s, bad, bad.len() as int);
    let r = spec_insert(s, i, bad);
    lemma_removed_from_distinct(s, bad, 0);
    assert forall|q: int| 0 <= q < bad.len() implies proper(#[trigger] s[bad[q] as int]) by {
        assert(tri_ok(s[bad[q] as int], i as int, n as int));
    }
    lemma_boundary_distinct(s, bad, bad.len() as int);
    assert forall|k: int, l: int| 0 <= k < l < r.len() implies !same_verts(#[trigger] r[k], #[trigger] r[l]) by {
        if l < w.len() {
            assert(r[k] == w[k] && r[l] == w[l]);
        } else if k >= w.len() {
            let mk = k - w.len();
            let ml = l - w.len();
            assert(r[k] == (i, edges[mk].0, edges[mk].1));
            assert(r[l] == (i, edges[ml].0, edges[ml].1));
            lemma_fan_edge_endpoints(s, i, n, bad, mk);
            lemma_fan_edge_endpoints(s, i, n, bad, ml);
            assert(!same_edge(edges[mk], edges[ml]));
        } else {
            lemma_without_bad_subset(s, bad, k);
            let j = choose|j: int| 0 <= j < s.len() && s[j] == w[k];
            assert(tri_ok(s[j], i as int, n as int));
            assert(r[k] == w[k]);
            let ml = l - w.len();
            assert(r[l] == (i, edges[ml].0, edges[ml].1));
            assert(!has_vertex(r[k], i));
        }
    }
}

/// Dropping the super-triangle's triangles keeps vertex sets distinct.
proof fn lemma_inner_tris_distinct(s: Seq<Tri>, n: int)
    requires
        distinct_tris(s),
    ensures
        distinct_tris(inner_tris(s, n)),
        forall|k: int| 0 <= k < inner_tris(s, n).len() ==> s.contains(#[trigger] inner_tris(s, n)[k]),
    decreases s.len(),
{
    if s.len() > 0 {
        let d = s.drop_last();
        assert(distinct_tris(d)) by {
            assert forall|k: int, l: int| 0 <= k < l < d.len() implies !same_verts(#[trigger] d[k], #[trigger] d[l]) by {
                assert(d[k] == s[k] && d[l] == s[l]);
            }
        }
        lemma_inner_tris_distinct(d, n);
        let front = inner_tris(d, n);
        let last = s.last();
        assert forall|k: int| 0 <= k < front.len() implies s.contains(#[trigger] front[k]) by {
            assert(d.contains(front[k]));
            let j = choose|j: int| 0 <= j < d.len() && d[j] == front[k];
            assert(s[j] == front[k]);
        }
        if inner(last, n) {
            let r = front.push(last);
            assert forall|k: int, l: int| 0 <= k < l < r.len() implies !same_verts(#[trigger] r[k], #[trigger] r[l]) by {
                if l < front.len() {
                    assert(r[k] == front[k] && r[l] == front[l]);
                } else {
                    assert(r[k] == front[k] && r[l] == last);
                    assert(d.contains(front[k]));
                    let j = choose|j: int| 0 <= j < d.len() && d[j] == front[k];
                    assert(s[j] == front[k] && s[s.len() - 1] == last);
                }
            }
            assert forall|k: int| 0 <= k < r.len() implies s.contains(#[trigger] r[k]) by {
                if k < front.len() {
                    assert(r[k] == front[k]);
                } else {
                    assert(s[s.len() - 1] == r[k]);
                }
            }
        }
    }
}

proof fn lemma_triangulation_after_distinct(n: usize, bads: Seq<Seq<usize>>, k: int)
    requires
        n + 2 <= usize::MAX,
        0 <= k <= n,
        k <= bads.len(),
        forall|j: int| 0 <= j < k ==> bad_ok(#[trigger] triangulation_after(n, bads, j), bads[j]),
    ensures
        distinct_tris(triangulation_after(n, bads, k)),
    decreases k,
{
    if k > 0 {
        lemma_triangulation_after_distinct(n, bads, k - 1);
        lemma_triangulation_after_ok(n, bads, k - 1);
        lemma_insert_keeps_triangles_distinct(triangulation_after(n, bads, k - 1), (k - 1) as usize, n, bads[k - 1]);
    }
}

/// Bowyer–Watson never outputs the same triangle twice: after inserting all
/// `n` points and dropping the triangles that touch the super-triangle, no
/// two output triangles have the same vertex set.
pub proof fn lemma_triangulation_output_distinct(n: usize, bads: Seq<Seq<usize>>, k: int, l: int)
    requires
        n + 2 <= usize::MAX,
        bads.len() == n,
        forall|j: int| 0 <= j < n ==> bad_ok(#[trigger] triangulation_after(n, bads, j), bads[j]),
        0 <= k < l < inner_tris(triangulation_after(n, bads, n as int), n as int).len(),
    ensures
        !same_verts(
            inner_tris(triangulation_after(n, bads, n as int), n as int)[k],
            inner_tris(triangulation_after(n, bads, n as int), n as int)[l],
        ),
{
    lemma_triangulation_after_distinct(n, bads, n as int);
    lemma_inner_tris_distinct(triangulation_after(n, bads, n as int), n as int);
}

/// `triangulation_after` depends only on the bad lists of the steps it has run.
proof fn lemma_triangulation_after_prefix(n: usize, b1: Seq<Seq<usize>>, b2: Seq<Seq<usize>>, k: int)
    requires
        0 <= k,
        forall|j: int| 0 <= j < k ==> b1[j] == b2[j],
    ensures
        triangulation_after(n, b1, k) == triangulation_after(n, b2, k),
    decreases k,
{
    if k > 0 {
        lemma_triangulation_after_prefix(n, b1, b2, k - 1);
    }
}

/// `bad` lists, in increasing order, exactly the positions of `tris` for which
/// the circumcircle test of point `i` answered `true`.
pub open spec fn bad_matches_test<F: Fn(usize, Tri) -> bool>(
    in_circle: F,
    i: usize,
    tris: Seq<Tri>,
    bad: Seq<usize>,
) -> bool {
    &&& bad_ok(tris, bad)
    &&& forall|t: int|
        0 <= t < tris.len() ==> (if bad.contains(t as usize) {
            call_ensures(in_circle, (i, tris[t]), true)
        } else {
            call_ensures(in_circle, (i, tris[t]), false)
        })
}

/// The positions of `tris` whose circumcircle contains point `i`.
fn find_bad<F: Fn(usize, Tri) -> bool>(tris: &Vec<Tri>, i: usize, in_circle: &F) -> (bad: Vec<usize>)
    requires
        forall|j: usize, t: Tri| in_circle.requires((j, t)),
    ensures
        bad_matches_test(*in_circle, i, tris@, bad@),
{
    let mut bad: Vec<usize> = Vec::new();
    let mut t: usize = 0;
    while t < tris.len()
        invariant
            t <= tris.len(),
            forall|j: usize, x: Tri| in_circle.requires((j, x)),
            forall|a: int, b: int| 0 <= a < b < bad.len() ==> bad@[a] < bad@[b],
            forall|a: int| 0 <= a < bad.len() ==> #[trigger] bad@[a] < t,
            forall|u: int|
                0 <= u < t ==> (if bad@.contains(u as usize) {
                    call_ensures(*in_circle, (i, tris@[u]), true)
                } else {
                    call_ensures(*in_circle, (i, tris@[u]), false)
                }),
        decreases tris.len() - t,
    {
        let ghost before = bad@;
        let hit = in_circle(i, tris[t]);
        if hit {
            bad.push(t);
        }
        proof {
            assert forall|u: int|
                0 <= u < t + 1 implies (if bad@.contains(u as usize) {
                    call_ensures(*in_circle, (i, tris@[u]), true)
                } else {
                    call_ensures(*in_circle, (i, tris@[u]), false)
                }) by {
                if u < t {
                    if hit {
                        assert(bad@ == before.push(t));
                        if before.contains(u as usize) {
                            let w = choose|w: int| 0 <= w < before.len() && before[w] == u as usize;
                            assert(bad@[w] == u as usize);
                        }
                        if bad@.contains(u as usize) {
                            let w = choose|w: int| 0 <= w < bad@.len() && bad@[w] == u as usize;
                            if w < before.len() {
                                assert(before[w] == u as usize);
                            }
                        }
                    }
                } else {
                    if hit {
                        assert(bad@[before.len() as int] == t);
                    } else {
                        if bad@.contains(u as usize) {
                            let w = choose|w: int| 0 <= w < bad@.len() && bad@[w] == u as usize;
                            assert(bad@[w] < t);
                        }
                    }
                }
            }
        }
        t += 1;
    }
    bad
}

/// Delaunay triangulation of points `0 .. n` by Bowyer–Watson, with the
/// circumcircle test supplied by the caller: `in_circle(i, t)` says whether
/// point `i` lies inside the circumcircle of triangle `t`, whose vertices are
/// point indices or the super-triangle vertices `n, n + 1, n + 2`.
/// Fewer than three points give no triangle. Otherwise the result is the
/// insertion process run with exactly the bad triangles the test reported,
/// so every triangle has three distinct indices into the points and no two
/// triangles have the same vertex set.
pub fn triangulate<F: Fn(usize, Tri) -> bool>(n: usize, in_circle: F) -> (r: Vec<Tri>)
    requires
        n + 2 <= usize::MAX,
        forall|i: usize, t: Tri| in_circle.requires((i, t)),
    ensures
        n < 3 ==> r.len() == 0,
        n >= 3 ==> exists|bads: Seq<Seq<usize>>|
            {
                &&& bads.len() == n
                &&& forall|j: int|
                    0 <= j < n ==> bad_matches_test(
                        in_circle,
                        j as usize,
                        #[trigger] triangulation_after(n, bads, j),
                        bads[j],
                    )
                &&& r@ == inner_tris(triangulation_after(n, bads, n as int), n as int)
            },
        forall|k: int| 0 <= k < r.len() ==> inner(#[trigger] r@[k], n as int) && proper(r@[k]),
        distinct_tris(r@),
{
    if n < 3 {
        return Vec::new();
    }
    let mut tris = super_triangle(n);
    let ghost mut bads: Seq<Seq<usize>> = Seq::empty();
    let mut i: usize = 0;
    while i < n
        invariant
            3 <= n,
            n + 2 <= usize::MAX,
            i <= n,
            bads.len() == i,
            forall|j: usize, t: Tri| in_circle.requires((j, t)),
            tris@ == triangulation_after(n, bads, i as int),
            forall|j: int|
                0 <= j < i ==> bad_matches_test(
                    in_circle,
                    j as usize,
                    #[trigger] triangulation_after(n, bads, j),
                    bads[j],
                ),
        decreases n - i,
    {
        let bad = find_bad(&tris, i, &in_circle);
        let ghost old_bads = bads;
        tris = insert_point(tris, i, &bad);
        proof {
            bads = bads.push(bad@);
            assert forall|k: int| 0 <= k <= i + 1 implies triangulation_after(n, bads, k)
                == #[trigger] triangulation_after(n, old_bads, k) || k == i + 1 by {
                if k <= i {
                    lemma_triangulation_after_prefix(n, bads, old_bads, k);
                }
            }
            lemma_triangulation_after_prefix(n, bads, old_bads, i as int);
            assert(triangulation_after(n, bads, i + 1) == spec_insert(
                triangulation_after(n, bads, i as int),
                i,
                bads[i as int],
            ));
            assert forall|j: int|
                0 <= j < i + 1 implies bad_matches_test(
                    in_circle,
                    j as usize,
                    #[trigger] triangulation_after(n, bads, j),
                    bads[j],
                ) by {
                lemma_triangulation_after_prefix(n, bads, old_bads, j);
                if j < i {
                    assert(bads[j] == old_bads[j]);
                }
            }
        }
        i += 1;
    }
    let r = drop_super(&tris, n);
    proof {
        assert forall|j: int| 0 <= j < n implies bad_ok(#[trigger] triangulation_after(n, bads, j), bads[j]) by {
            assert(bad_matches_test(in_circle, j as usize, triangulation_after(n, bads, j), bads[j]));
        }
        assert forall|k: int| 0 <= k < r.len() implies inner(#[trigger] r@[k], n as int) && proper(r@[k]) by {
            lemma_triangulation_output_proper(n, bads, k);
        }
        assert forall|k: int, l: int| 0 <= k < l < r.len() implies !same_verts(#[trigger] r@[k], #[trigger] r@[l]) by {
            lemma_triangulation_output_distinct(n, bads, k, l);
        }
    }
    r
}

} // verus!
