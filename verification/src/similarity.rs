//! Item-item similarity over a rating matrix, nearest neighbours, and
//! per-item rating statistics.

use vstd::prelude::*;
use vstd::relations::sorted_by;
use vstd::math::min;
use crate::fixed::{SCALE, MAX_DIM, MAX_WEIGHT, sqrt_floor, isqrt};
use crate::matrix::Matrix;
use crate::vecmath::{
    dot, dot_seq, cosine_fp, cosine_with_mags, lemma_cosine_sym, lemma_cosine_self,
    lemma_cosine_bounds, lemma_dot_nonneg,
};
use crate::rank::{rank_ord, ranked, top_pairs, lemma_ranked_ensures};

verus! {

/// Sum of a sequence of ratings; zero cells ("unrated") add nothing.
pub open spec fn sum_seq(s: Seq<u64>) -> int
    decreases s.len(),
{
    if s.len() == 0 {
        0
    } else {
        sum_seq(s.drop_last()) + s.last()
    }
}

/// How many cells of a sequence hold a rating, that is, are positive.
pub open spec fn count_pos(s: Seq<u64>) -> int
    decreases s.len(),
{
    if s.len() == 0 {
        0
    } else {
        count_pos(s.drop_last()) + if s.last() > 0 {
            1int
        } else {
            0int
        }
    }
}

proof fn lemma_sum_count_take_succ(s: Seq<u64>, i: int)
    requires
        0 <= i < s.len(),
    ensures
        sum_seq(s.take(i + 1)) == sum_seq(s.take(i)) + s[i],
        count_pos(s.take(i + 1)) == count_pos(s.take(i)) + if s[i] > 0 {
            1int
        } else {
            0int
        },
{
    assert(s.take(i + 1).drop_last() =~= s.take(i));
}

/// The item-item cosine-similarity matrix of a rating matrix: entry `(i, j)`
/// is the fixed-point cosine similarity of columns `i` and `j`.
///
/// The result is symmetric, every entry lies in `[0, SCALE]`, and the
/// diagonal is exactly `SCALE` for every item somebody rated.
pub fn compute_item_item_similarity(matrix: &Matrix) -> (s: Matrix)
    requires
        matrix.wf(),
        matrix.cols * matrix.cols <= usize::MAX,
    ensures
        s.wf(),
        s.rows == matrix.cols,
        s.cols == matrix.cols,
        forall|i: int, j: int|
            0 <= i < matrix.cols && 0 <= j < matrix.cols ==> s.at(i, j) as int == cosine_fp(
                matrix.col_seq(i),
                matrix.col_seq(j),
            ),
        forall|i: int, j: int|
            0 <= i < matrix.cols && 0 <= j < matrix.cols ==> s.at(i, j) == s.at(j, i),
        forall|i: int, j: int|
            0 <= i < matrix.cols && 0 <= j < matrix.cols ==> s.at(i, j) <= SCALE,
        forall|i: int|
            0 <= i < matrix.cols && dot_seq(matrix.col_seq(i), matrix.col_seq(i)) >= 1 ==> s.at(
                i,
                i,
            ) == SCALE,
{
    let n = matrix.cols;
    let mut columns: Vec<Vec<u64>> = Vec::new();
    let mut j: usize = 0;
    while j < n
        invariant
            matrix.wf(),
            n == matrix.cols,
            j <= n,
            columns@.len() == j,
            forall|t: int| 0 <= t < j ==> #[trigger] columns@[t]@ == matrix.col_seq(t),
        decreases n - j,
    {
        let c = matrix.column(j);
        columns.push(c);
        j = j + 1;
    }
    let mut mags: Vec<u64> = Vec::new();
    let mut j: usize = 0;
    while j < n
        invariant
            matrix.wf(),
            n == matrix.cols,
            j <= n,
            columns@.len() == n,
            forall|t: int| 0 <= t < n ==> #[trigger] columns@[t]@ == matrix.col_seq(t),
            mags@.len() == j,
            forall|t: int|
                0 <= t < j ==> #[trigger] mags@[t] as int == sqrt_floor(
                    dot_seq(matrix.col_seq(t), matrix.col_seq(t)),
                ) && mags@[t] < 0x1000000000000u64,
        decreases n - j,
    {
        proof {
            assert(columns@[j as int]@ == matrix.col_seq(j as int));
            assert(matrix.col_seq(j as int).len() == matrix.rows);
            matrix.lemma_col_bounds(j as int);
        }
        let d = dot(&columns[j], &columns[j]);
        proof {
            lemma_dot_nonneg(columns@[j as int]@, columns@[j as int]@);
            assert((MAX_DIM as int) * (MAX_WEIGHT as int) * (MAX_WEIGHT as int)
                < 0x1000000000000000000000000) by (nonlinear_arith);
            assert((d as int) <= (MAX_DIM as int) * (MAX_WEIGHT as int) * (MAX_WEIGHT as int))
                by (nonlinear_arith)
                requires
                    (d as int) <= (matrix.rows as int) * (MAX_WEIGHT as int) * (MAX_WEIGHT as int),
                    matrix.rows <= MAX_DIM,
            ;
        }
        let m = isqrt(d);
        proof {
            assert((m as int) * (m as int) <= d as int);
            assert(m < 0x1000000000000u64) by (nonlinear_arith)
                requires
                    0 <= m,
                    (m as int) * (m as int) <= d as int,
                    (d as int) < 0x1000000000000000000000000,
            ;
        }
        mags.push(m);
        j = j + 1;
    }
    let mut s = Matrix::new(n, n);
    let mut i: usize = 0;
    while i < n
        invariant
            matrix.wf(),
            n == matrix.cols,
            i <= n,
            columns@.len() == n,
            forall|t: int| 0 <= t < n ==> #[trigger] columns@[t]@ == matrix.col_seq(t),
            mags@.len() == n,
            forall|t: int|
                0 <= t < n ==> #[trigger] mags@[t] as int == sqrt_floor(
                    dot_seq(matrix.col_seq(t), matrix.col_seq(t)),
                ) && mags@[t] < 0x1000000000000u64,
            s.wf(),
            s.rows == n,
            s.cols == n,
            forall|a: int, b: int|
                0 <= a < n && 0 <= b < n && (a < i || b < i) ==> #[trigger] s.at(a, b) as int
                    == cosine_fp(matrix.col_seq(a), matrix.col_seq(b)),
        decreases n - i,
    {
        let mut jj: usize = i;
        while jj < n
            invariant
                matrix.wf(),
                n == matrix.cols,
                i < n,
                i <= jj <= n,
                columns@.len() == n,
                forall|t: int| 0 <= t < n ==> #[trigger] columns@[t]@ == matrix.col_seq(t),
                mags@.len() == n,
                forall|t: int|
                    0 <= t < n ==> #[trigger] mags@[t] as int == sqrt_floor(
                        dot_seq(matrix.col_seq(t), matrix.col_seq(t)),
                    ) && mags@[t] < 0x1000000000000u64,
                s.wf(),
                s.rows == n,
                s.cols == n,
                forall|a: int, b: int|
                    0 <= a < n && 0 <= b < n && (a < i || b < i) ==> #[trigger] s.at(a, b) as int
                        == cosine_fp(matrix.col_seq(a), matrix.col_seq(b)),
                forall|b: int|
                    i <= b < jj ==> #[trigger] s.at(i as int, b) as int == cosine_fp(
                        matrix.col_seq(i as int),
                        matrix.col_seq(b),
                    ),
                forall|b: int|
                    i <= b < jj ==> #[trigger] s.at(b, i as int) as int == cosine_fp(
                        matrix.col_seq(b),
                        matrix.col_seq(i as int),
                    ),
            decreases n - jj,
        {
            proof {
                assert(columns@[i as int]@ == matrix.col_seq(i as int));
                assert(columns@[jj as int]@ == matrix.col_seq(jj as int));
                matrix.lemma_col_bounds(i as int);
                matrix.lemma_col_bounds(jj as int);
            }
            let sim = cosine_with_mags(&columns[i], &columns[jj], mags[i], mags[jj]);
            proof {
                lemma_cosine_sym(matrix.col_seq(i as int), matrix.col_seq(jj as int));
            }
            let ghost s_old = s;
            s.set(i, jj, sim);
            s.set(jj, i, sim);
            jj = jj + 1;
        }
        i = i + 1;
    }
    proof {
        assert forall|a: int, b: int|
            0 <= a < n && 0 <= b < n implies s.at(a, b) == s.at(b, a) && s.at(a, b) <= SCALE by {
            lemma_cosine_sym(matrix.col_seq(a), matrix.col_seq(b));
            lemma_cosine_bounds(matrix.col_seq(a), matrix.col_seq(b));
        }
        assert forall|a: int|
            0 <= a < n && dot_seq(matrix.col_seq(a), matrix.col_seq(a)) >= 1 implies s.at(a, a)
            == SCALE by {
            lemma_cosine_self(matrix.col_seq(a));
        }
    }
    s
}

/// The candidate neighbours of item `i`: every other item, in index order,
/// paired with its similarity to `i`.
pub open spec fn neighbour_candidates(sim: Matrix, i: int) -> Seq<(usize, u64)> {
    Seq::new((sim.rows - 1) as nat, |t: int|
        if t < i {
            (t as usize, sim.at(i, t))
        } else {
            ((t + 1) as usize, sim.at(i, t + 1))
        })
}

/// For every item, the `k` most similar other items, best first.
///
/// Row `i` of the result is the ranked candidate list of item `i`, truncated
/// to `k` entries; it never names item `i` itself, and ties order by the
/// lower item index first.
pub fn find_k_nearest_neighbors(sim: &Matrix, k: usize) -> (r: Vec<Vec<(usize, u64)>>)
    requires
        sim.wf(),
        sim.rows == sim.cols,
    ensures
        r@.len() == sim.rows,
        forall|i: int|
            0 <= i < sim.rows ==> #[trigger] r@[i]@ == ranked(neighbour_candidates(*sim, i)).take(
                min(k as int, sim.rows - 1),
            ),
        forall|i: int|
            0 <= i < sim.rows ==> #[trigger] r@[i]@.len() == min(k as int, sim.rows - 1),
        forall|i: int| 0 <= i < sim.rows ==> sorted_by(#[trigger] r@[i]@, rank_ord()),
        forall|i: int, q: int|
            0 <= i < sim.rows && 0 <= q < r@[i]@.len() ==> (#[trigger] r@[i]@[q]).0 != i
                && r@[i]@[q].0 < sim.rows && r@[i]@[q].1 == sim.at(i, r@[i]@[q].0 as int),
        forall|i: int, a: int, b: int|
            0 <= i < sim.rows && 0 <= a < b < r@[i]@.len() ==> (#[trigger] r@[i]@[a]).0 != (
            #[trigger] r@[i]@[b]).0,
{
    let n = sim.rows;
    let mut r: Vec<Vec<(usize, u64)>> = Vec::new();
    let mut i: usize = 0;
    while i < n
        invariant
            sim.wf(),
            n == sim.rows == sim.cols,
            i <= n,
            r@.len() == i,
            forall|a: int|
                0 <= a < i ==> #[trigger] r@[a]@ == ranked(neighbour_candidates(*sim, a)).take(
                    min(k as int, n as int - 1),
                ),
            forall|a: int, q: int|
                0 <= a < i && 0 <= q < r@[a]@.len() ==> (#[trigger] r@[a]@[q]).0 != a && r@[a]@[q].0
                    < n && r@[a]@[q].1 == sim.at(a, r@[a]@[q].0 as int),
            forall|a: int, x: int, y: int|
                0 <= a < i && 0 <= x < y < r@[a]@.len() ==> (#[trigger] r@[a]@[x]).0 != (
                #[trigger] r@[a]@[y]).0,
            forall|a: int| 0 <= a < i ==> #[trigger] r@[a]@.len() == min(k as int, n as int - 1),
            forall|a: int| 0 <= a < i ==> sorted_by(#[trigger] r@[a]@, rank_ord()),
        decreases n - i,
    {
        let mut cand: Vec<(usize, u64)> = Vec::new();
        let mut t: usize = 0;
        while t < n
            invariant
                sim.wf(),
                n == sim.rows == sim.cols,
                i < n,
                t <= n,
                cand@.len() == if t <= i {
                    t as int
                } else {
                    t - 1
                },
                forall|q: int|
                    0 <= q < cand@.len() ==> #[trigger] cand@[q] == neighbour_candidates(*sim, i as int)[q],
            decreases n - t,
        {
            if t != i {
                let v = sim.get(i, t);
                cand.push((t, v));
            }
            t = t + 1;
        }
        proof {
            assert(cand@ =~= neighbour_candidates(*sim, i as int));
            lemma_ranked_ensures(cand@);
        }
        let nb = top_pairs(cand, k);
        proof {
            let cs = neighbour_candidates(*sim, i as int);
            let f = ranked(cs);
            assert forall|q: int| 0 <= q < nb@.len() implies nb@[q].0 != i as int && nb@[q].0 < n
                && nb@[q].1 == sim.at(i as int, nb@[q].0 as int) by {
                assert(nb@[q] == f[q]);
                assert(f.to_multiset().count(f[q]) > 0) by {
                    broadcast use vstd::seq_lib::group_to_multiset_ensures;

                    assert(f.contains(f[q]));
                }
                assert(cs.to_multiset().count(f[q]) > 0);
                assert(cs.contains(f[q])) by {
                    broadcast use vstd::seq_lib::group_to_multiset_ensures;

                }
                let w = choose|w: int| 0 <= w < cs.len() && cs[w] == f[q];
                assert(cs[w].0 != i as int && cs[w].0 < n && cs[w].1 == sim.at(
                    i as int,
                    cs[w].0 as int,
                ));
            }
            // Within one list the item indices are pairwise distinct: the
            // candidates are, so no pair value repeats, and equal indices
            // would force equal pairs.
            assert(cs.no_duplicates()) by {
                assert forall|x: int, y: int|
                    0 <= x < cs.len() && 0 <= y < cs.len() && x != y implies cs[x] != cs[y] by {
                    assert(cs[x].0 != cs[y].0);
                }
            }
            cs.lemma_multiset_has_no_duplicates();
            assert forall|x: (usize, u64)|
                nb@.to_multiset().contains(x) implies nb@.to_multiset().count(x) == 1 by {
                broadcast use vstd::seq_lib::group_to_multiset_ensures;
                broadcast use vstd::multiset::group_multiset_axioms;

                assert(nb@.to_multiset().count(x) > 0);
                assert(nb@.to_multiset().count(x) <= cs.to_multiset().count(x));
                assert(cs.to_multiset().contains(x));
            }
            nb@.lemma_multiset_has_no_duplicates_conv();
            assert forall|x: int, y: int| 0 <= x < y < nb@.len() implies (#[trigger] nb@[x]).0 != (
            #[trigger] nb@[y]).0 by {
                if nb@[x].0 == nb@[y].0 {
                    assert(nb@[x].1 == sim.at(i as int, nb@[x].0 as int));
                    assert(nb@[y].1 == sim.at(i as int, nb@[y].0 as int));
                    assert(nb@[x] == nb@[y]);
                }
            }
        }
        r.push(nb);
        i = i + 1;
    }
    r
}

/// Ratings-per-item counts, one pair per column, in column order.
pub open spec fn rating_counts(ratings: Matrix) -> Seq<(usize, u64)> {
    Seq::new(ratings.cols as nat, |j: int| (j as usize, count_pos(ratings.col_seq(j)) as u64))
}

/// The `top_n` most frequently rated items: every item paired with how many
/// users rated it, ranked by count descending (ties by item index), truncated.
pub fn most_frequently_rated_films(ratings: &Matrix, top_n: usize) -> (r: Vec<(usize, u64)>)
    requires
        ratings.wf(),
    ensures
        r@ == ranked(rating_counts(*ratings)).take(min(top_n as int, ratings.cols as int)),
        r@.len() == min(top_n as int, ratings.cols as int),
        sorted_by(r@, rank_ord()),
{
    let n = ratings.cols;
    let mut pairs: Vec<(usize, u64)> = Vec::new();
    let mut j: usize = 0;
    while j < n
        invariant
            ratings.wf(),
            n == ratings.cols,
            j <= n,
            pairs@.len() == j,
            forall|t: int| 0 <= t < j ==> #[trigger] pairs@[t] == rating_counts(*ratings)[t],
        decreases n - j,
    {
        let mut count: u64 = 0;
        let mut i: usize = 0;
        proof {
            assert(ratings.col_seq(j as int).take(0) =~= Seq::<u64>::empty());
        }
        while i < ratings.rows
            invariant
                ratings.wf(),
                n == ratings.cols,
                j < n,
                i <= ratings.rows,
                count as int == count_pos(ratings.col_seq(j as int).take(i as int)),
                count <= i,
            decreases ratings.rows - i,
        {
            let v = ratings.get(i, j);
            proof {
                lemma_sum_count_take_succ(ratings.col_seq(j as int), i as int);
            }
            if v > 0 {
                count = count + 1;
            }
            i = i + 1;
        }
        proof {
            assert(ratings.col_seq(j as int).take(ratings.rows as int) =~= ratings.col_seq(
                j as int,
            ));
        }
        pairs.push((j, count));
        j = j + 1;
    }
    proof {
        assert(pairs@ =~= rating_counts(*ratings));
    }
    top_pairs(pairs, top_n)
}

/// Item index paired with its average rating, rounding down; the average of
/// an unrated item is left at zero by the total division.
pub open spec fn avg_entry(ratings: Matrix, j: int) -> (usize, u64) {
    (j as usize, (sum_seq(ratings.col_seq(j)) / count_pos(ratings.col_seq(j))) as u64)
}

/// One average entry per column, in column order.
pub open spec fn avg_full(ratings: Matrix) -> Seq<(usize, u64)> {
    Seq::new(ratings.cols as nat, |j: int| avg_entry(ratings, j))
}

/// Keeps the items at least one user rated.
pub open spec fn avg_pred(ratings: Matrix) -> spec_fn((usize, u64)) -> bool {
    |p: (usize, u64)| count_pos(ratings.col_seq(p.0 as int)) > 0
}

/// Average ratings of the items somebody rated, one pair per such column, in
/// column order: the rating sum divided (rounding down) by the rating count.
pub open spec fn rated_averages(ratings: Matrix) -> Seq<(usize, u64)> {
    avg_full(ratings).filter(avg_pred(ratings))
}

/// The `top_n` highest-rated items: every rated item paired with its average
/// rating, ranked by average descending (ties by item index), truncated.
/// Items nobody rated do not appear.
pub fn highest_rated_films(ratings: &Matrix, top_n: usize) -> (r: Vec<(usize, u64)>)
    requires
        ratings.wf(),
    ensures
        r@ == ranked(rated_averages(*ratings)).take(
            min(top_n as int, rated_averages(*ratings).len() as int),
        ),
        sorted_by(r@, rank_ord()),
        r@.len() == min(top_n as int, rated_averages(*ratings).len() as int),
{
    broadcast use vstd::prelude::Seq::lemma_filter_push;

    let n = ratings.cols;
    let ghost full = avg_full(*ratings);
    let ghost pred = avg_pred(*ratings);
    let mut pairs: Vec<(usize, u64)> = Vec::new();
    let mut j: usize = 0;
    proof {
        assert(full.take(0) =~= Seq::<(usize, u64)>::empty());
        assert(full.take(0).filter(pred) =~= Seq::<(usize, u64)>::empty()) by {
            reveal(Seq::filter);
        }
    }
    while j < n
        invariant
            ratings.wf(),
            n == ratings.cols,
            j <= n,
            full == avg_full(*ratings),
            pred == avg_pred(*ratings),
            pairs@ == full.take(j as int).filter(pred),
        decreases n - j,
    {
        let mut count: u64 = 0;
        let mut sum: u64 = 0;
        let mut i: usize = 0;
        proof {
            assert(ratings.col_seq(j as int).take(0) =~= Seq::<u64>::empty());
        }
        while i < ratings.rows
            invariant
                ratings.wf(),
                n == ratings.cols,
                j < n,
                i <= ratings.rows,
                count as int == count_pos(ratings.col_seq(j as int).take(i as int)),
                sum as int == sum_seq(ratings.col_seq(j as int).take(i as int)),
                count <= i,
                sum as int <= (i as int) * (MAX_WEIGHT as int),
            decreases ratings.rows - i,
        {
            let v = ratings.get(i, j);
            proof {
                ratings.lemma_col_bounds(j as int);
                lemma_sum_count_take_succ(ratings.col_seq(j as int), i as int);
                assert((i as int) * (MAX_WEIGHT as int) + (MAX_WEIGHT as int) == (i + 1) * (
                MAX_WEIGHT as int)) by (nonlinear_arith);
                assert((i + 1) * (MAX_WEIGHT as int) <= (MAX_DIM as int + 1) * (MAX_WEIGHT as int))
                    by (nonlinear_arith)
                    requires
                        i + 1 <= MAX_DIM as int + 1,
                ;
            }
            if v > 0 {
                count = count + 1;
                sum = sum + v;
            }
            i = i + 1;
        }
        proof {
            assert(ratings.col_seq(j as int).take(ratings.rows as int) =~= ratings.col_seq(
                j as int,
            ));
            assert(full.take(j + 1) =~= full.take(j as int).push(full[j as int]));
            full.take(j as int).lemma_filter_push(full[j as int], pred);
            assert(full.take(j as int).push(full[j as int]).filter(pred) == if pred(
                full[j as int],
            ) {
                full.take(j as int).filter(pred).push(full[j as int])
            } else {
                full.take(j as int).filter(pred)
            });
        }
        if count > 0 {
            let avg = sum / count;
            proof {
                assert(full[j as int] == (j as usize, avg));
                assert(pred(full[j as int]));
            }
            pairs.push((j, avg));
        } else {
            proof {
                assert(!pred(full[j as int]));
            }
        }
        j = j + 1;
    }
    proof {
        assert(full.take(n as int) =~= full);
        assert(pairs@ == rated_averages(*ratings));
    }
    top_pairs(pairs, top_n)
}

/// The value the cell `(i, j)` ends up with after writing `entries` in order:
/// the last in-bounds entry for that cell wins; untouched cells stay zero.
pub open spec fn cell_value(
    entries: Seq<(usize, usize, u64)>,
    rows: int,
    cols: int,
    i: int,
    j: int,
) -> u64
    decreases entries.len(),
{
    if entries.len() == 0 {
        0
    } else {
        let e = entries.last();
        if e.0 == i && e.1 == j && e.0 < rows && e.1 < cols {
            e.2
        } else {
            cell_value(entries.drop_last(), rows, cols, i, j)
        }
    }
}

/// Build a user-item rating matrix of the given shape from `(user, item,
/// rating)` records.  Later records overwrite earlier ones for the same
/// cell; records naming a user or item outside the shape are skipped.
pub fn create_user_item_matrix(
    rows: usize,
    cols: usize,
    entries: &Vec<(usize, usize, u64)>,
) -> (m: Matrix)
    requires
        rows <= MAX_DIM,
        cols <= MAX_DIM,
        rows * cols <= usize::MAX,
        forall|q: int| 0 <= q < entries@.len() ==> entries@[q].2 <= MAX_WEIGHT,
    ensures
        m.wf(),
        m.rows == rows,
        m.cols == cols,
        forall|i: int, j: int|
            0 <= i < rows && 0 <= j < cols ==> m.at(i, j) == cell_value(
                entries@,
                rows as int,
                cols as int,
                i,
                j,
            ),
{
    let mut m = Matrix::new(rows, cols);
    let mut q: usize = 0;
    proof {
        assert forall|i: int, j: int| 0 <= i < rows && 0 <= j < cols implies m.at(i, j)
            == cell_value(entries@.take(0), rows as int, cols as int, i, j) by {
            assert(entries@.take(0) =~= Seq::<(usize, usize, u64)>::empty());
        }
    }
    while q < entries.len()
        invariant
            m.wf(),
            m.rows == rows,
            m.cols == cols,
            rows <= MAX_DIM,
            cols <= MAX_DIM,
            q <= entries@.len(),
            forall|t: int| 0 <= t < entries@.len() ==> entries@[t].2 <= MAX_WEIGHT,
            forall|i: int, j: int|
                0 <= i < rows && 0 <= j < cols ==> m.at(i, j) == cell_value(
                    entries@.take(q as int),
                    rows as int,
                    cols as int,
                    i,
                    j,
                ),
        decreases entries@.len() - q,
    {
        let e = entries[q];
        proof {
            assert(entries@.take(q + 1).drop_last() =~= entries@.take(q as int));
            assert(entries@.take(q + 1).last() == entries@[q as int]);
        }
        if e.0 < rows && e.1 < cols {
            m.set(e.0, e.1, e.2);
        }
        q = q + 1;
    }
    proof {
        assert(entries@.take(entries@.len() as int) =~= entries@);
    }
    m
}

} // verus!
