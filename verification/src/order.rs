//! Canonical candidate order.
//!
//! Candidates generated in parallel arrive in a scheduling-dependent order.
//! Before the sequential cull they are sorted by the bit patterns of their
//! coordinates, `x` first, then `y`, which makes the cull's outcome depend on
//! the candidate set only.
use vstd::prelude::*;

verus! {

/// Lexicographic order on coordinate bit patterns.
pub open spec fn key_le(a: (u32, u32), b: (u32, u32)) -> bool {
    a.0 < b.0 || (a.0 == b.0 && a.1 <= b.1)
}

/// Lexicographic comparison of two bit-pattern keys.
pub fn key_leq(a: (u32, u32), b: (u32, u32)) -> (r: bool)
    ensures
        r == key_le(a, b),
{
    a.0 < b.0 || (a.0 == b.0 && a.1 <= b.1)
}

/// `s` is in ascending key order.
pub open spec fn sorted_keys(s: Seq<(u32, u32)>) -> bool {
    forall|i: int, j: int| 0 <= i < j < s.len() ==> key_le(#[trigger] s[i], #[trigger] s[j])
}

/// Merge two key-sorted runs into one.
fn merge(a: &Vec<(u32, u32)>, b: &Vec<(u32, u32)>) -> (r: Vec<(u32, u32)>)
    requires
        sorted_keys(a@),
        sorted_keys(b@),
    ensures
        sorted_keys(r@),
        r@.to_multiset() == a@.to_multiset().add(b@.to_multiset()),
{
    broadcast use vstd::seq_lib::group_to_multiset_ensures;
    broadcast use vstd::multiset::group_multiset_axioms;

    let mut out: Vec<(u32, u32)> = Vec::new();
    let mut i: usize = 0;
    let mut j: usize = 0;
    proof {
        assert(a@.subrange(0, 0) =~= Seq::<(u32, u32)>::empty());
        assert(b@.subrange(0, 0) =~= Seq::<(u32, u32)>::empty());
    }
    while i < a.len() || j < b.len()
        invariant
            i <= a.len(),
            j <= b.len(),
            sorted_keys(a@),
            sorted_keys(b@),
            sorted_keys(out@),
            out@.to_multiset() == a@.subrange(0, i as int).to_multiset().add(b@.subrange(0, j as int).to_multiset()),
            forall|k: int| 0 <= k < out.len() ==> (i < a.len() ==> key_le(#[trigger] out@[k], a@[i as int])),
            forall|k: int| 0 <= k < out.len() ==> (j < b.len() ==> key_le(#[trigger] out@[k], b@[j as int])),
        decreases a.len() + b.len() - i - j,
    {
        let ghost before = out@;
        let take_a: bool = if i < a.len() && j < b.len() {
            key_leq(a[i], b[j])
        } else {
            i < a.len()
        };
        if take_a {
            let x = a[i];
            out.push(x);
            proof {
                assert(a@.subrange(0, i as int + 1) =~= a@.subrange(0, i as int).push(x));
                vstd::seq_lib::to_multiset_build(a@.subrange(0, i as int), x);
                vstd::seq_lib::to_multiset_build(before, x);
                assert forall|k: int| 0 <= k < out.len() && i + 1 < a.len() implies key_le(#[trigger] out@[k], a@[i + 1]) by {
                    if i + 1 < a.len() {
                        assert(key_le(a@[i as int], a@[i + 1]));
                        if k < before.len() {
                            assert(out@[k] == before[k]);
                        }
                    }
                }
                assert forall|k: int| 0 <= k < out.len() && j < b.len() implies key_le(#[trigger] out@[k], b@[j as int]) by {
                    if k < before.len() {
                        assert(out@[k] == before[k]);
                    }
                }
                assert forall|k: int, l: int| 0 <= k < l < out.len() implies key_le(#[trigger] out@[k], #[trigger] out@[l]) by {
                    if l < before.len() {
                        assert(out@[k] == before[k] && out@[l] == before[l]);
                    } else {
                        assert(out@[k] == before[k]);
                    }
                }
                assert(out@.to_multiset() =~= a@.subrange(0, i as int + 1).to_multiset().add(
                    b@.subrange(0, j as int).to_multiset(),
                ));
            }
            i += 1;
        } else {
            let x = b[j];
            out.push(x);
            proof {
                assert(b@.subrange(0, j as int + 1) =~= b@.subrange(0, j as int).push(x));
                vstd::seq_lib::to_multiset_build(b@.subrange(0, j as int), x);
                vstd::seq_lib::to_multiset_build(before, x);
                assert forall|k: int| 0 <= k < out.len() && j + 1 < b.len() implies key_le(#[trigger] out@[k], b@[j + 1]) by {
                    if j + 1 < b.len() {
                        assert(key_le(b@[j as int], b@[j + 1]));
                        if k < before.len() {
                            assert(out@[k] == before[k]);
                        }
                    }
                }
                assert forall|k: int| 0 <= k < out.len() && i < a.len() implies key_le(#[trigger] out@[k], a@[i as int]) by {
                    if k < before.len() {
                        assert(out@[k] == before[k]);
                    }
                }
                assert forall|k: int, l: int| 0 <= k < l < out.len() implies key_le(#[trigger] out@[k], #[trigger] out@[l]) by {
                    if l < before.len() {
                        assert(out@[k] == before[k] && out@[l] == before[l]);
                    } else {
                        assert(out@[k] == before[k]);
                    }
                }
                assert(out@.to_multiset() =~= a@.subrange(0, i as int).to_multiset().add(
                    b@.subrange(0, j as int + 1).to_multiset(),
                ));
            }
            j += 1;
        }
    }
    proof {
        assert(a@.subrange(0, a.len() as int) =~= a@);
        assert(b@.subrange(0, b.len() as int) =~= b@);
    }
    out
}

/// Sort positions `lo .. hi` of `v` by merging sorted halves.
fn sort_range(v: &Vec<(u32, u32)>, lo: usize, hi: usize) -> (r: Vec<(u32, u32)>)
    requires
        lo <= hi <= v.len(),
    ensures
        sorted_keys(r@),
        r@.to_multiset() == v@.subrange(lo as int, hi as int).to_multiset(),
    decreases hi - lo,
{
    broadcast use vstd::seq_lib::group_to_multiset_ensures;

    if hi - lo <= 1 {
        let mut out: Vec<(u32, u32)> = Vec::new();
        if hi - lo == 1 {
            out.push(v[lo]);
            proof {
                assert(out@ =~= v@.subrange(lo as int, hi as int));
            }
        } else {
            proof {
                assert(out@ =~= v@.subrange(lo as int, hi as int));
            }
        }
        out
    } else {
        let mid: usize = lo + (hi - lo) / 2;
        let left = sort_range(v, lo, mid);
        let right = sort_range(v, mid, hi);
        let out = merge(&left, &right);
        proof {
            assert(v@.subrange(lo as int, hi as int) =~= v@.subrange(lo as int, mid as int) + v@.subrange(
                mid as int,
                hi as int,
            ));
            vstd::seq_lib::lemma_multiset_commutative(
                v@.subrange(lo as int, mid as int),
                v@.subrange(mid as int, hi as int),
            );
        }
        out
    }
}

/// Sort candidates, given as the bit patterns of their coordinates, in
/// ascending lexicographic order. The result is a permutation of the input.
pub fn sort_by_bits(v: &Vec<(u32, u32)>) -> (r: Vec<(u32, u32)>)
    ensures
        sorted_keys(r@),
        r@.to_multiset() == v@.to_multiset(),
        r.len() == v.len(),
{
    broadcast use vstd::seq_lib::group_to_multiset_ensures;

    let r = sort_range(v, 0, v.len());
    proof {
        assert(v@.subrange(0, v.len() as int) =~= v@);
        vstd::seq_lib::to_multiset_len(r@);
        vstd::seq_lib::to_multiset_len(v@);
    }
    r
}

} // verus!
