//! Ranking of index-score pairs: a deterministic descending order,
//! a verified insertion sort, and truncation to the best entries.

use vstd::prelude::*;
use vstd::relations::{sorted_by, total_ordering};
use vstd::seq_lib::lemma_sorted_unique;
use vstd::math::min;

verus! {

/// `x` ranks at or before `y`: higher score first, ties by lower index.
pub open spec fn rank_le(x: (usize, u64), y: (usize, u64)) -> bool {
    x.1 > y.1 || (x.1 == y.1 && x.0 <= y.0)
}

/// The ranking order as a relation value, for `sort_by` and `sorted_by`.
pub open spec fn rank_ord() -> spec_fn((usize, u64), (usize, u64)) -> bool {
    |x: (usize, u64), y: (usize, u64)| rank_le(x, y)
}

/// The ranking order is a total order, so every sequence of pairs has
/// exactly one sorted arrangement.
pub proof fn lemma_rank_total()
    ensures
        total_ordering(rank_ord()),
{
}

/// The ranked arrangement of a sequence of pairs.
pub open spec fn ranked(s: Seq<(usize, u64)>) -> Seq<(usize, u64)> {
    s.sort_by(rank_ord())
}

/// What `ranked` guarantees: a sorted permutation.
pub proof fn lemma_ranked_ensures(s: Seq<(usize, u64)>)
    ensures
        ranked(s).to_multiset() == s.to_multiset(),
        sorted_by(ranked(s), rank_ord()),
        ranked(s).len() == s.len(),
{
    lemma_rank_total();
    s.lemma_sort_by_ensures(rank_ord());
    vstd::seq_lib::to_multiset_len(ranked(s));
    vstd::seq_lib::to_multiset_len(s);
}

/// Sort a vector of pairs into the ranking order, in place.
pub fn sort_pairs(v: &mut Vec<(usize, u64)>)
    ensures
        final(v)@ == ranked(old(v)@),
        final(v)@.to_multiset() == old(v)@.to_multiset(),
        sorted_by(final(v)@, rank_ord()),
        final(v)@.len() == old(v)@.len(),
{
    broadcast use vstd::seq_lib::group_to_multiset_ensures;
    broadcast use vstd::multiset::group_multiset_axioms;

    proof {
        lemma_rank_total();
        old(v)@.lemma_sort_by_ensures(rank_ord());
    }
    let ghost orig = v@;
    let n = v.len();
    let mut i: usize = 1;
    while i < n
        invariant
            1 <= i,
            i <= n || n == 0,
            v@.len() == n == orig.len(),
            v@.to_multiset() == orig.to_multiset(),
            forall|a: int, b: int| 0 <= a < b < i && b < n ==> rank_le(v@[a], v@[b]),
        decreases n - i,
    {
        let mut j: usize = i;
        while j > 0 && (v[j].1 > v[j - 1].1 || (v[j].1 == v[j - 1].1 && v[j].0 < v[j - 1].0))
            invariant
                j <= i < n,
                v@.len() == n == orig.len(),
                v@.to_multiset() == orig.to_multiset(),
                forall|a: int, b: int|
                    0 <= a < b <= i && b != j ==> rank_le(v@[a], v@[b]),
                forall|b: int| j < b <= i ==> rank_le(v@[j as int], v@[b]),
            decreases j,
        {
            let ghost before = v@;
            let x = v[j - 1];
            let y = v[j];
            v.set(j - 1, y);
            v.set(j, x);
            proof {
                assert(v@ =~= before.update(j - 1, y).update(j as int, x));
                lemma_swap_multiset(before, j - 1, j as int);
                assert forall|a: int, b: int|
                    0 <= a < b <= i && b != j - 1 implies rank_le(v@[a], v@[b]) by {
                    if a == j - 1 {
                        assert(v@[a] == before[j as int]);
                        if b == j {
                            assert(v@[b] == before[j - 1]);
                        } else {
                            assert(v@[b] == before[b]);
                        }
                    } else if a == j {
                        assert(v@[a] == before[j - 1]);
                        assert(v@[b] == before[b]);
                    } else if b == j {
                        assert(v@[b] == before[j - 1]);
                        assert(v@[a] == before[a]);
                    } else {
                        assert(v@[a] == before[a] && v@[b] == before[b]);
                    }
                }
                assert forall|b: int| j - 1 < b <= i implies rank_le(v@[j - 1], #[trigger] v@[b]) by {
                    assert(v@[j - 1] == before[j as int]);
                    if b == j {
                        assert(v@[b] == before[j - 1]);
                    } else {
                        assert(v@[b] == before[b]);
                    }
                }
            }
            j = j - 1;
        }
        proof {
            assert forall|a: int, b: int| 0 <= a < b <= i implies rank_le(v@[a], v@[b]) by {
                if b == j {
                    if j > 0 {
                        assert(rank_le(v@[j - 1], v@[j as int]));
                        if a < j - 1 {
                            assert(rank_le(v@[a], v@[j - 1]));
                        }
                    }
                }
            }
        }
        i = i + 1;
    }
    proof {
        if n == 0 {
            assert(v@ =~= Seq::<(usize, u64)>::empty());
        }
        assert(sorted_by(v@, rank_ord()));
        lemma_sorted_unique(v@, ranked(orig), rank_ord());
    }
}

/// Swapping two positions of a sequence keeps its multiset of elements.
proof fn lemma_swap_multiset(s: Seq<(usize, u64)>, p: int, q: int)
    requires
        0 <= p < s.len(),
        0 <= q < s.len(),
        p != q,
    ensures
        s.update(p, s[q]).update(q, s[p]).to_multiset() == s.to_multiset(),
{
    broadcast use vstd::seq_lib::group_to_multiset_ensures;
    broadcast use vstd::multiset::group_multiset_axioms;

    let a = s[p];
    let b = s[q];
    let s1 = s.update(p, b);
    let s2 = s1.update(q, a);
    assert(s1.to_multiset() =~= s.to_multiset().remove(a).insert(b));
    assert(s1[q] == b);
    assert(s2.to_multiset() =~= s1.to_multiset().remove(b).insert(a));
    assert(s.to_multiset().count(a) > 0) by {
        assert(s.contains(a));
    }
    assert forall|x: (usize, u64)| s2.to_multiset().count(x) == s.to_multiset().count(x) by {
        let m = s.to_multiset();
        assert(s2.to_multiset().count(x) == m.remove(a).insert(b).remove(b).insert(a).count(x));
    }
    assert(s2.to_multiset() =~= s.to_multiset());
}

/// The multiset of a prefix counts no element more often than the whole.
pub proof fn lemma_take_multiset_le(s: Seq<(usize, u64)>, k: int, x: (usize, u64))
    requires
        0 <= k <= s.len(),
    ensures
        s.take(k).to_multiset().count(x) <= s.to_multiset().count(x),
    decreases s.len() - k,
{
    broadcast use vstd::seq_lib::group_to_multiset_ensures;

    if k == s.len() {
        assert(s.take(k) =~= s);
    } else {
        lemma_take_multiset_le(s, k + 1, x);
        assert(s.take(k + 1) =~= s.take(k).push(s[k]));
        assert(s.take(k + 1).to_multiset() =~= s.take(k).to_multiset().insert(s[k]));
    }
}

/// The best `limit` entries of `pairs`: the ranked arrangement, truncated.
///
/// Every returned entry comes from `pairs`; an entry of `pairs` that was cut
/// scores no higher than the last entry kept; with a `limit` at or above the
/// length nothing is cut and the result is the full ranked arrangement.
pub fn top_pairs(pairs: Vec<(usize, u64)>, limit: usize) -> (r: Vec<(usize, u64)>)
    ensures
        r@ == ranked(pairs@).take(min(limit as int, pairs@.len() as int)),
        r@.len() == min(limit as int, pairs@.len() as int),
        sorted_by(r@, rank_ord()),
        forall|x: (usize, u64)|
            #[trigger] r@.to_multiset().count(x) <= pairs@.to_multiset().count(x),
        forall|x: (usize, u64)|
            pairs@.contains(x) && !r@.contains(x) && r@.len() > 0 ==> x.1 <= r@[r@.len() - 1].1,
        limit >= pairs@.len() ==> r@ == ranked(pairs@),
{
    broadcast use vstd::seq_lib::group_to_multiset_ensures;

    proof {
        lemma_ranked_ensures(pairs@);
    }
    let mut v = pairs;
    let ghost orig = v@;
    sort_pairs(&mut v);
    let keep: usize = if limit < v.len() {
        limit
    } else {
        v.len()
    };
    v.truncate(keep);
    proof {
        let f = ranked(orig);
        assert(v@ =~= f.take(keep as int));
        assert forall|x: (usize, u64)|
            #[trigger] v@.to_multiset().count(x) <= orig.to_multiset().count(x) by {
            lemma_take_multiset_le(f, keep as int, x);
        }
        assert forall|x: (usize, u64)|
            orig.contains(x) && !v@.contains(x) && v@.len() > 0 implies x.1 <= v@[v@.len() - 1].1
            by {
            assert(orig.to_multiset().count(x) > 0);
            assert(f.to_multiset().count(x) > 0);
            assert(f.contains(x));
            let p = choose|p: int| 0 <= p < f.len() && f[p] == x;
            assert(p >= keep) by {
                if p < keep {
                    assert(v@[p] == f[p]);
                    assert(v@.contains(x));
                }
            }
            assert(rank_ord()(f[keep - 1], f[p]));
            assert(rank_le(f[keep - 1], f[p]));
            assert(v@[v@.len() - 1] == f[keep - 1]);
        }
        if limit >= orig.len() {
            assert(v@ =~= f);
        }
    }
    v
}

} // verus!
