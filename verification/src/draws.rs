//! Rejection scatter: which of a run of draws are kept.
//!
//! A shape's candidates are drawn from its bounding box one at a time; each
//! draw is kept when the caller's inside test accepts it, and drawing stops
//! once enough draws were kept or the budget of tries is spent.
use vstd::prelude::*;

verus! {

/// Indices `k < m` whose answer in `answers` is `true`, in increasing order.
pub open spec fn passing(answers: Seq<bool>, m: int) -> Seq<usize>
    decreases m,
{
    if m <= 0 {
        Seq::empty()
    } else if answers[m - 1] {
        passing(answers, m - 1).push((m - 1) as usize)
    } else {
        passing(answers, m - 1)
    }
}

/// The first `keep` of the draws `0 .. tries` that `inside` accepts, in
/// draw order (fewer when the tries run out). Draws are tested in order and
/// no draw is tested after the `keep`-th accepted one.
pub fn first_passing<F: Fn(usize) -> bool>(tries: usize, keep: usize, inside: F) -> (r: Vec<usize>)
    requires
        forall|k: usize| inside.requires((k,)),
    ensures
        forall|a: int, b: int| 0 <= a < b < r.len() ==> r@[a] < r@[b],
        forall|a: int| 0 <= a < r.len() ==> call_ensures(inside, (#[trigger] r@[a],), true),
        exists|answers: Seq<bool>|
            {
                &&& answers.len() <= tries
                &&& forall|k: int|
                    0 <= k < answers.len() ==> (r@.contains(k as usize) <==> #[trigger] answers[k])
                &&& forall|a: int| 0 <= a < r.len() ==> #[trigger] r@[a] < answers.len()
                &&& answers.len() > 0 && answers.len() < tries ==> r.len() > 0 && r@.last() == answers.len() - 1
                &&& forall|k: int| 0 <= k < answers.len() ==> call_ensures(inside, (k as usize,), #[trigger] answers[k])
                &&& r@ == #[trigger] passing(answers, answers.len() as int)
                &&& r.len() <= keep
                &&& r.len() < keep ==> answers.len() == tries
                &&& answers.len() > 0 ==> passing(answers, answers.len() - 1).len() < keep
            },
{
    let mut out: Vec<usize> = Vec::new();
    let ghost mut answers: Seq<bool> = Seq::empty();
    let mut k: usize = 0;
    while k < tries && out.len() < keep
        invariant
            k <= tries,
            answers.len() == k,
            forall|x: usize| inside.requires((x,)),
            forall|j: int| 0 <= j < k ==> call_ensures(inside, (j as usize,), #[trigger] answers[j]),
            out@ == passing(answers, k as int),
            out.len() <= keep,
            k > 0 ==> passing(answers, k - 1).len() < keep,
        decreases tries - k,
    {
        let a = inside(k);
        let ghost prev = answers;
        proof {
            answers = answers.push(a);
            lemma_passing_prefix(prev, a, k as int);
            assert forall|j: int| 0 <= j < k + 1 implies call_ensures(inside, (j as usize,), #[trigger] answers[j]) by {
                if j < k {
                    assert(answers[j] == prev[j]);
                }
            }
        }
        if a {
            out.push(k);
        }
        k += 1;
    }
    proof {
        lemma_passing_lists_accepted(answers, k as int);
        assert forall|a: int| 0 <= a < out.len() implies call_ensures(inside, (#[trigger] out@[a],), true) by {
            let x = out@[a] as int;
            assert(answers[x]);
        }
        if k > 0 && k < tries {
            assert(out.len() == keep);
            assert(passing(answers, k - 1).len() < keep);
            assert(answers[k - 1]);
        }
    }
    out
}

/// The kept draws are exactly the accepted ones among those tested: they
/// come in increasing order, each was tested and accepted, every accepted
/// tested draw is kept, and the last tested draw is the last kept one when
/// it was accepted.
pub proof fn lemma_passing_lists_accepted(answers: Seq<bool>, m: int)
    requires
        0 <= m <= answers.len(),
        m <= usize::MAX,
    ensures
        forall|a: int, b: int| 0 <= a < b < passing(answers, m).len() ==> passing(answers, m)[a] < passing(answers, m)[b],
        forall|a: int|
            0 <= a < passing(answers, m).len() ==> #[trigger] passing(answers, m)[a] < m && answers[passing(answers, m)[a] as int],
        forall|k: int| 0 <= k < m ==> (passing(answers, m).contains(k as usize) <==> #[trigger] answers[k]),
        m > 0 && answers[m - 1] ==> passing(answers, m).len() > 0 && passing(answers, m).last() == m - 1,
        passing(answers, m).len() <= m,
    decreases m,
{
    if m > 0 {
        lemma_passing_lists_accepted(answers, m - 1);
        let p = passing(answers, m - 1);
        let q = passing(answers, m);
        if answers[m - 1] {
            assert(q == p.push((m - 1) as usize));
            assert forall|k: int| 0 <= k < m implies (q.contains(k as usize) <==> #[trigger] answers[k]) by {
                if k < m - 1 {
                    if q.contains(k as usize) {
                        let w = choose|w: int| 0 <= w < q.len() && q[w] == k as usize;
                        if w < p.len() {
                            assert(p[w] == q[w]);
                        }
                    }
                    if p.contains(k as usize) {
                        let w = choose|w: int| 0 <= w < p.len() && p[w] == k as usize;
                        assert(q[w] == k as usize);
                    }
                } else {
                    assert(q[p.len() as int] == k as usize);
                }
            }
        } else {
            assert forall|k: int| 0 <= k < m implies (q.contains(k as usize) <==> #[trigger] answers[k]) by {
                if k == m - 1 && q.contains(k as usize) {
                    let w = choose|w: int| 0 <= w < q.len() && q[w] == k as usize;
                }
            }
        }
    }
}

proof fn lemma_passing_prefix(answers: Seq<bool>, a: bool, m: int)
    requires
        0 <= m <= answers.len(),
    ensures
        passing(answers.push(a), m) == passing(answers, m),
    decreases m,
{
    if m > 0 {
        lemma_passing_prefix(answers, a, m - 1);
    }
}

} // verus!
