//! Nearest-site scans and the grouping of candidates by site.
//!
//! The distance comparison between two sites is made by the caller and
//! handed in as a closure; the scan decides which site wins. Ties keep the
//! lower index: the scan moves to a later site only when the comparison says
//! it is strictly closer than the current best.
use vstd::prelude::*;

verus! {

/// The best site after scanning sites `0 .. i`, when the comparison of site
/// `j` (for `1 <= j < i`) against the best so far came out `moves[j]`.
pub open spec fn best_after(moves: Seq<bool>, i: int) -> usize
    decreases i,
{
    if i <= 1 {
        0
    } else if moves[i - 1] {
        (i - 1) as usize
    } else {
        best_after(moves, i - 1)
    }
}

/// `moves[j]` is an answer the comparison can give to "is site `j` closer
/// than the best of sites `0 .. j`?", for every `1 <= j < n`.
pub open spec fn scan_answers<F: Fn(usize, usize) -> bool>(closer: F, moves: Seq<bool>, n: int) -> bool {
    &&& moves.len() == n
    &&& forall|j: int|
        1 <= j < n ==> call_ensures(closer, (j as usize, #[trigger] best_after(moves, j)), moves[j])
}

/// `closer(i, b)` answers whether `d[i] < d[b]`, for every two sites `i`,
/// `b` of `d`: the comparison is the one of the distances `d`.
pub open spec fn compares_by<F: Fn(usize, usize) -> bool>(closer: F, d: Seq<int>) -> bool {
    forall|i: usize, b: usize, res: bool|
        i < d.len() && b < d.len() && #[trigger] call_ensures(closer, (i, b), res) ==> res == (d[i as int]
            < d[b as int])
}

/// Site `r` is the first site of least distance among sites `0 .. m`.
pub open spec fn first_min(d: Seq<int>, m: int, r: int) -> bool {
    &&& 0 <= r < m
    &&& forall|j: int| 0 <= j < m ==> d[r] <= #[trigger] d[j]
    &&& forall|j: int| 0 <= j < r ==> d[r] < #[trigger] d[j]
}

/// A scan that compares each site with the best so far ends on the first
/// site of least distance: when the comparison is that of distances `d`,
/// the best after scanning sites `0 .. i` is nearer than every site, and
/// strictly nearer than every site before it.
pub proof fn lemma_scan_finds_first_min<F: Fn(usize, usize) -> bool>(
    closer: F,
    d: Seq<int>,
    moves: Seq<bool>,
    i: int,
)
    requires
        compares_by(closer, d),
        d.len() <= usize::MAX,
        scan_answers(closer, moves, moves.len() as int),
        1 <= i <= moves.len(),
        i <= d.len(),
    ensures
        first_min(d, i, best_after(moves, i) as int),
    decreases i,
{
    if i > 1 {
        lemma_scan_finds_first_min(closer, d, moves, i - 1);
        let b = best_after(moves, i - 1);
        let j = i - 1;
        assert(call_ensures(closer, (j as usize, best_after(moves, j)), moves[j]));
        assert(moves[j] == (d[j] < d[b as int]));
    }
}

/// Index of the nearest of `n` sites; `None` when there are none.
/// `closer(i, b)` says whether site `i` is strictly closer than site `b`.
/// The scan starts at site 0 and moves to each later site the comparison
/// prefers to the best so far.
pub fn nearest_index<F: Fn(usize, usize) -> bool>(n: usize, closer: F) -> (r: Option<usize>)
    requires
        forall|i: usize, b: usize| closer.requires((i, b)),
    ensures
        n == 0 <==> r is None,
        n > 0 ==> exists|moves: Seq<bool>|
            scan_answers(closer, moves, n as int) && r == Some(#[trigger] best_after(moves, n as int)),
        forall|d: Seq<int>|
            d.len() == n && n > 0 && #[trigger] compares_by(closer, d) ==> r is Some && first_min(
                d,
                n as int,
                r.unwrap() as int,
            ),
{
    if n == 0 {
        return None;
    }
    let mut best: usize = 0;
    let ghost mut moves: Seq<bool> = seq![false];
    let mut i: usize = 1;
    while i < n
        invariant
            1 <= i <= n,
            forall|x: usize, b: usize| closer.requires((x, b)),
            scan_answers(closer, moves, i as int),
            best == best_after(moves, i as int),
        decreases n - i,
    {
        let m = closer(i, best);
        let ghost prev = moves;
        proof {
            moves = moves.push(m);
            assert forall|j: int| 1 <= j < i + 1 implies call_ensures(
                closer,
                (j as usize, #[trigger] best_after(moves, j)),
                moves[j],
            ) by {
                assert(best_after(moves, j) == best_after(prev, j)) by {
                    lemma_best_after_prefix(prev, m, j);
                }
            }
        }
        proof {
            lemma_best_after_prefix(prev, m, i as int);
        }
        if m {
            best = i;
        }
        i += 1;
    }
    proof {
        assert(scan_answers(closer, moves, n as int));
        assert forall|d: Seq<int>| d.len() == n && n > 0 && #[trigger] compares_by(closer, d) implies first_min(
            d,
            n as int,
            best as int,
        ) by {
            lemma_scan_finds_first_min(closer, d, moves, n as int);
        }
    }
    Some(best)
}

proof fn lemma_best_after_prefix(moves: Seq<bool>, m: bool, j: int)
    requires
        0 <= j <= moves.len(),
    ensures
        best_after(moves.push(m), j) == best_after(moves, j),
    decreases j,
{
    if j > 1 {
        lemma_best_after_prefix(moves, m, j - 1);
    }
}

/// The nearest and second-nearest site after scanning sites `0 .. i`, when
/// site `j` was found below the nearest so far exactly when `first[j]`, and
/// (otherwise) below the second-nearest so far exactly when `second[j]`.
/// `None` stands for "no site yet".
pub open spec fn two_best_after(first: Seq<bool>, second: Seq<bool>, i: int) -> (Option<usize>, Option<usize>)
    decreases i,
{
    if i <= 0 {
        (None, None)
    } else {
        let (b1, b2) = two_best_after(first, second, i - 1);
        if first[i - 1] {
            (Some((i - 1) as usize), b1)
        } else if second[i - 1] {
            (b1, Some((i - 1) as usize))
        } else {
            (b1, b2)
        }
    }
}

/// `first[j]` and `second[j]` are answers the comparison can give when site
/// `j` is scanned: `below(j, b)` says whether site `j` is strictly nearer
/// than `b` (`None` being farther than every site); `second[j]` is asked
/// only when `first[j]` is `false`.
pub open spec fn two_scan_answers<F: Fn(usize, Option<usize>) -> bool>(
    below: F,
    first: Seq<bool>,
    second: Seq<bool>,
    n: int,
) -> bool {
    &&& first.len() == n
    &&& second.len() == n
    &&& forall|j: int|
        0 <= j < n ==> call_ensures(below, (j as usize, #[trigger] two_best_after(first, second, j).0), first[j])
    &&& forall|j: int|
        0 <= j < n && !first[j] ==> call_ensures(
            below,
            (j as usize, #[trigger] two_best_after(first, second, j).1),
            second[j],
        )
    &&& forall|j: int| 0 <= j < n && first[j] ==> !#[trigger] second[j]
}

proof fn lemma_two_best_after_prefix(first: Seq<bool>, second: Seq<bool>, a: bool, b: bool, j: int)
    requires
        0 <= j <= first.len(),
        j <= second.len(),
    ensures
        two_best_after(first.push(a), second.push(b), j) == two_best_after(first, second, j),
    decreases j,
{
    if j > 0 {
        lemma_two_best_after_prefix(first, second, a, b, j - 1);
    }
}

/// `below(i, b)` answers whether site `i` is strictly nearer than `b` under
/// the distances `d`, `None` standing for a site farther than every site.
pub open spec fn compares_below<F: Fn(usize, Option<usize>) -> bool>(below: F, d: Seq<int>) -> bool {
    forall|i: usize, b: Option<usize>, res: bool|
        i < d.len() && (b is None || b.unwrap() < d.len()) && #[trigger] call_ensures(below, (i, b), res) ==> res
            == (b is None || d[i as int] < d[b.unwrap() as int])
}

/// Site `y` is a site of least distance among sites `0 .. m` other than `x`.
pub open spec fn second_min(d: Seq<int>, m: int, x: int, y: int) -> bool {
    &&& 0 <= y < m
    &&& y != x
    &&& forall|j: int| 0 <= j < m && j != x ==> d[y] <= #[trigger] d[j]
}

/// `r` names the nearest and second-nearest of sites `0 .. m` under the
/// distances `d`: the first site of least distance, and a site of least
/// distance among the others; `None` where there are too few sites.
pub open spec fn two_mins(d: Seq<int>, m: int, r: (Option<usize>, Option<usize>)) -> bool {
    &&& m == 0 ==> r.0 is None
    &&& m >= 1 ==> r.0 is Some && first_min(d, m, r.0.unwrap() as int)
    &&& m <= 1 ==> r.1 is None
    &&& m >= 2 ==> r.1 is Some && second_min(d, m, r.0.unwrap() as int, r.1.unwrap() as int)
}

/// The two-best scan ends on the nearest and second-nearest sites: when the
/// comparison is that of distances `d`, the pair after scanning sites
/// `0 .. i` is the first site of least distance and a site of least distance
/// among the rest.
pub proof fn lemma_two_scan_finds_two_mins<F: Fn(usize, Option<usize>) -> bool>(
    below: F,
    d: Seq<int>,
    first: Seq<bool>,
    second: Seq<bool>,
    i: int,
)
    requires
        compares_below(below, d),
        d.len() <= usize::MAX,
        two_scan_answers(below, first, second, first.len() as int),
        0 <= i <= first.len(),
        i <= d.len(),
    ensures
        two_mins(d, i, two_best_after(first, second, i)),
    decreases i,
{
    if i > 0 {
        lemma_two_scan_finds_two_mins(below, d, first, second, i - 1);
        let j = i - 1;
        let (b1, b2) = two_best_after(first, second, j);
        assert(call_ensures(below, (j as usize, two_best_after(first, second, j).0), first[j]));
        assert(first[j] == (b1 is None || d[j] < d[b1.unwrap() as int]));
        if !first[j] {
            assert(call_ensures(below, (j as usize, two_best_after(first, second, j).1), second[j]));
            assert(second[j] == (b2 is None || d[j] < d[b2.unwrap() as int]));
        } else {
            assert(!second[j]);
        }
    }
}

/// The nearest and second-nearest of `n` sites, scanned in order: a site
/// strictly nearer than the nearest so far becomes the nearest (the old one
/// moving to second place); otherwise one strictly nearer than the second
/// becomes the second. `None` where there are fewer sites.
pub fn two_nearest<F: Fn(usize, Option<usize>) -> bool>(n: usize, below: F) -> (r: (Option<usize>, Option<usize>))
    requires
        forall|i: usize, b: Option<usize>| below.requires((i, b)),
    ensures
        exists|first: Seq<bool>, second: Seq<bool>|
            two_scan_answers(below, first, second, n as int) && r == #[trigger] two_best_after(
                first,
                second,
                n as int,
            ),
        forall|d: Seq<int>| d.len() == n && #[trigger] compares_below(below, d) ==> two_mins(d, n as int, r),
{
    let mut b1: Option<usize> = None;
    let mut b2: Option<usize> = None;
    let ghost mut first: Seq<bool> = Seq::empty();
    let ghost mut second: Seq<bool> = Seq::empty();
    let mut i: usize = 0;
    while i < n
        invariant
            i <= n,
            forall|x: usize, b: Option<usize>| below.requires((x, b)),
            two_scan_answers(below, first, second, i as int),
            (b1, b2) == two_best_after(first, second, i as int),
        decreases n - i,
    {
        let f = below(i, b1);
        let mut g = false;
        if !f {
            g = below(i, b2);
        }
        let ghost (pf, ps) = (first, second);
        proof {
            first = first.push(f);
            second = second.push(g);
            lemma_two_best_after_prefix(pf, ps, f, g, i as int);
            assert forall|j: int| 0 <= j < i + 1 implies call_ensures(
                below,
                (j as usize, #[trigger] two_best_after(first, second, j).0),
                first[j],
            ) by {
                lemma_two_best_after_prefix(pf, ps, f, g, j);
            }
            assert forall|j: int| 0 <= j < i + 1 && !first[j] implies call_ensures(
                below,
                (j as usize, #[trigger] two_best_after(first, second, j).1),
                second[j],
            ) by {
                lemma_two_best_after_prefix(pf, ps, f, g, j);
            }
            assert forall|j: int| 0 <= j < i + 1 && first[j] implies !#[trigger] second[j] by {
                if j < i {
                    assert(first[j] == pf[j] && second[j] == ps[j]);
                }
            }
        }
        if f {
            b2 = b1;
            b1 = Some(i);
        } else if g {
            b2 = Some(i);
        }
        i += 1;
    }
    proof {
        assert forall|d: Seq<int>| d.len() == n && #[trigger] compares_below(below, d) implies two_mins(
            d,
            n as int,
            (b1, b2),
        ) by {
            lemma_two_scan_finds_two_mins(below, d, first, second, n as int);
        }
    }
    (b1, b2)
}

/// Indices `j < n` with `labels[j] == site`, in increasing order.
pub open spec fn members(labels: Seq<usize>, site: usize, n: int) -> Seq<usize>
    decreases n,
{
    if n <= 0 {
        Seq::empty()
    } else if labels[n - 1] == site {
        members(labels, site, n - 1).push((n - 1) as usize)
    } else {
        members(labels, site, n - 1)
    }
}

/// Group candidate indices by site: group `s` lists, in increasing order,
/// the candidates whose label is `s`. Every label is below `k`.
pub fn group_by_label(k: usize, labels: &Vec<usize>) -> (r: Vec<Vec<usize>>)
    requires
        forall|j: int| 0 <= j < labels.len() ==> #[trigger] labels@[j] < k,
    ensures
        r.len() == k,
        forall|s: int| 0 <= s < k ==> #[trigger] r@[s]@ == members(labels@, s as usize, labels.len() as int),
        forall|s: int, j: int|
            #![trigger r@[s], labels@[j]]
            0 <= s < k && 0 <= j < labels.len() ==> (r@[s]@.contains(j as usize) <==> labels@[j] == s),
        forall|s: int, a: int, b: int|
            0 <= s < k && 0 <= a < b < r@[s].len() ==> #[trigger] r@[s]@[a] < #[trigger] r@[s]@[b],
        forall|s: int, a: int|
            0 <= s < k && 0 <= a < r@[s].len() ==> #[trigger] r@[s]@[a] < labels.len() && labels@[r@[s]@[a] as int]
                == s,
{
    let mut r: Vec<Vec<usize>> = Vec::new();
    let mut s: usize = 0;
    while s < k
        invariant
            s <= k,
            r.len() == s,
            forall|t: int| 0 <= t < s ==> #[trigger] r@[t]@ == Seq::<usize>::empty(),
        decreases k - s,
    {
        r.push(Vec::new());
        s += 1;
    }
    let mut j: usize = 0;
    while j < labels.len()
        invariant
            j <= labels.len(),
            r.len() == k,
            forall|t: int| 0 <= t < labels.len() ==> #[trigger] labels@[t] < k,
            forall|t: int| 0 <= t < k ==> #[trigger] r@[t]@ == members(labels@, t as usize, j as int),
        decreases labels.len() - j,
    {
        let l = labels[j];
        let ghost before = r@;
        let mut g: Vec<usize> = Vec::new();
        std::mem::swap(&mut g, &mut r[l]);
        g.push(j);
        r.set(l, g);
        proof {
            assert forall|t: int| 0 <= t < k implies #[trigger] r@[t]@ == members(
                labels@,
                t as usize,
                j + 1,
            ) by {
                if t != l as int {
                    assert(r@[t] == before[t]);
                }
            }
        }
        j += 1;
    }
    proof {
        assert forall|s: int| 0 <= s < k implies {
            let g = #[trigger] r@[s]@;
            &&& forall|j: int| 0 <= j < labels.len() ==> (g.contains(j as usize) <==> labels@[j] == s)
            &&& forall|a: int, b: int| 0 <= a < b < g.len() ==> g[a] < g[b]
            &&& forall|a: int| 0 <= a < g.len() ==> g[a] < labels.len() && labels@[g[a] as int] == s
        } by {
            lemma_members_lists_site(labels@, s as usize, labels.len() as int);
        }
    }
    r
}

/// The members of a site are exactly the candidates labelled with it, in
/// increasing order.
pub proof fn lemma_members_lists_site(labels: Seq<usize>, site: usize, n: int)
    requires
        0 <= n <= labels.len(),
        n <= usize::MAX,
    ensures
        forall|j: int| 0 <= j < n ==> (members(labels, site, n).contains(j as usize) <==> #[trigger] labels[j] == site),
        forall|a: int, b: int|
            0 <= a < b < members(labels, site, n).len() ==> members(labels, site, n)[a] < members(labels, site, n)[b],
        forall|a: int|
            0 <= a < members(labels, site, n).len() ==> #[trigger] members(labels, site, n)[a] < n && labels[members(
                labels,
                site,
                n,
            )[a] as int] == site,
    decreases n,
{
    if n > 0 {
        lemma_members_lists_site(labels, site, n - 1);
        let p = members(labels, site, n - 1);
        let q = members(labels, site, n);
        if labels[n - 1] == site {
            assert(q == p.push((n - 1) as usize));
            assert forall|j: int| 0 <= j < n implies (q.contains(j as usize) <==> #[trigger] labels[j] == site) by {
                if j < n - 1 {
                    if q.contains(j as usize) {
                        let w = choose|w: int| 0 <= w < q.len() && q[w] == j as usize;
                        if w < p.len() {
                            assert(p[w] == q[w]);
                        }
                    }
                    if p.contains(j as usize) {
                        let w = choose|w: int| 0 <= w < p.len() && p[w] == j as usize;
                        assert(q[w] == j as usize);
                    }
                } else {
                    assert(q[p.len() as int] == j as usize);
                }
            }
        } else {
            assert forall|j: int| 0 <= j < n implies (q.contains(j as usize) <==> #[trigger] labels[j] == site) by {
                if j == n - 1 && q.contains(j as usize) {
                    let w = choose|w: int| 0 <= w < q.len() && q[w] == j as usize;
                }
            }
        }
    }
}

} // verus!
