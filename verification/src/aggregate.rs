//! Distributing a user's ratings over the neighbour index into ranked
//! recommendation scores.

use vstd::prelude::*;
use crate::fixed::{SCALE, MAX_DIM, MAX_WEIGHT};
use crate::errors::RecError;
use crate::rank::{ranked, top_pairs, lemma_ranked_ensures};

verus! {

/// The views of a vector of neighbour lists.
pub open spec fn list_views(nb: Seq<Vec<(usize, u64)>>) -> Seq<Seq<(usize, u64)>> {
    Seq::new(nb.len(), |i: int| nb[i]@)
}

/// A sound neighbour list for `n` items: every entry names an item below
/// `n` at most once, with a similarity of at most one.
pub open spec fn neighbour_list_wf(list: Seq<(usize, u64)>, n: int) -> bool {
    &&& forall|q: int| 0 <= q < list.len() ==> (#[trigger] list[q]).0 < n && list[q].1 <= SCALE
    &&& forall|a: int, b: int|
        0 <= a < b < list.len() ==> (#[trigger] list[a]).0 != (#[trigger] list[b]).0
}

/// What one neighbour list contributes to the score of item `j`, when the
/// item the list belongs to carries the given rating: `rating * similarity`,
/// scaled back down, for each entry naming `j`.
pub open spec fn share(list: Seq<(usize, u64)>, rating: u64, j: int) -> int
    decreases list.len(),
{
    if list.len() == 0 {
        0
    } else {
        share(list.drop_last(), rating, j) + if list.last().0 == j {
            (rating as int) * (list.last().1 as int) / (SCALE as int)
        } else {
            0
        }
    }
}

/// The score of item `j` once the ratings of the first `upto` items have
/// been distributed over their neighbour lists; unrated items contribute
/// nothing.
pub open spec fn score_upto(
    ratings: Seq<u64>,
    nb: Seq<Seq<(usize, u64)>>,
    upto: int,
    j: int,
) -> int
    decreases upto,
{
    if upto <= 0 {
        0
    } else {
        score_upto(ratings, nb, upto - 1, j) + if ratings[upto - 1] > 0 {
            share(nb[upto - 1], ratings[upto - 1], j)
        } else {
            0
        }
    }
}

/// The full accumulated score of item `j`.
pub open spec fn user_score(ratings: Seq<u64>, nb: Seq<Seq<(usize, u64)>>, j: int) -> int {
    score_upto(ratings, nb, ratings.len() as int, j)
}

/// Item index paired with its accumulated score.
pub open spec fn score_entry(ratings: Seq<u64>, nb: Seq<Seq<(usize, u64)>>, j: int) -> (
    usize,
    u64,
) {
    (j as usize, user_score(ratings, nb, j) as u64)
}

/// One score entry per item, in item order.
pub open spec fn score_full(ratings: Seq<u64>, nb: Seq<Seq<(usize, u64)>>) -> Seq<(usize, u64)> {
    Seq::new(ratings.len(), |j: int| score_entry(ratings, nb, j))
}

/// Keeps the items that accumulated a positive score.
pub open spec fn score_pred() -> spec_fn((usize, u64)) -> bool {
    |p: (usize, u64)| p.1 > 0
}

/// The items with a positive accumulated score, in item order.
pub open spec fn score_pairs(ratings: Seq<u64>, nb: Seq<Seq<(usize, u64)>>) -> Seq<(usize, u64)> {
    score_full(ratings, nb).filter(score_pred())
}

/// A list with no entry for `j` contributes nothing to `j`.
proof fn lemma_contrib_absent(list: Seq<(usize, u64)>, rating: u64, j: int)
    requires
        forall|q: int| 0 <= q < list.len() ==> (#[trigger] list[q]).0 != j,
    ensures
        share(list, rating, j) == 0,
    decreases list.len(),
{
    if list.len() > 0 {
        lemma_contrib_absent(list.drop_last(), rating, j);
    }
}

/// A sound neighbour list contributes at most the rating itself.
proof fn lemma_contrib_bound(list: Seq<(usize, u64)>, rating: u64, j: int, n: int)
    requires
        neighbour_list_wf(list, n),
        rating <= MAX_WEIGHT,
    ensures
        0 <= share(list, rating, j) <= MAX_WEIGHT,
    decreases list.len(),
{
    if list.len() == 0 {
    } else {
        let rest = list.drop_last();
        assert(neighbour_list_wf(rest, n));
        lemma_contrib_bound(rest, rating, j, n);
        if list.last().0 == j {
            assert forall|q: int| 0 <= q < rest.len() implies (#[trigger] rest[q]).0 != j by {
                assert(list[q].0 != list[list.len() - 1].0);
            }
            lemma_contrib_absent(rest, rating, j);
            assert(list[list.len() - 1].1 <= SCALE);
            assert(list.last() == list[list.len() - 1]);
            let t = (rating as int) * (list.last().1 as int);
            assert(0 <= t <= (rating as int) * (SCALE as int)) by (nonlinear_arith)
                requires
                    t == (rating as int) * (list.last().1 as int),
                    0 <= list.last().1 <= SCALE,
                    0 <= rating,
            ;
            vstd::arithmetic::div_mod::lemma_div_pos_is_pos(t, SCALE as int);
            vstd::arithmetic::div_mod::lemma_div_is_ordered(
                t,
                (rating as int) * (SCALE as int),
                SCALE as int,
            );
            vstd::arithmetic::div_mod::lemma_div_by_multiple(rating as int, SCALE as int);
            assert((rating as int) * (SCALE as int) == (SCALE as int) * (rating as int))
                by (nonlinear_arith);
        }
    }
}

/// Scores grow by at most one rating bound per distributed item.
proof fn lemma_score_bound(ratings: Seq<u64>, nb: Seq<Seq<(usize, u64)>>, upto: int, j: int)
    requires
        0 <= upto <= ratings.len(),
        ratings.len() == nb.len(),
        forall|t: int| 0 <= t < ratings.len() ==> ratings[t] <= MAX_WEIGHT,
        forall|i: int|
            0 <= i < nb.len() ==> neighbour_list_wf(#[trigger] nb[i], ratings.len() as int),
    ensures
        0 <= score_upto(ratings, nb, upto, j) <= upto * (MAX_WEIGHT as int),
    decreases upto,
{
    if upto <= 0 {
    } else {
        lemma_score_bound(ratings, nb, upto - 1, j);
        if ratings[upto - 1] > 0 {
            lemma_contrib_bound(nb[upto - 1], ratings[upto - 1], j, ratings.len() as int);
        }
        assert((upto - 1) * (MAX_WEIGHT as int) + (MAX_WEIGHT as int) == upto * (MAX_WEIGHT as int))
            by (nonlinear_arith);
    }
}

/// With no positive rating no item accumulates any score.
pub proof fn lemma_score_all_zero(ratings: Seq<u64>, nb: Seq<Seq<(usize, u64)>>, upto: int, j: int)
    requires
        forall|t: int| 0 <= t < ratings.len() ==> ratings[t] == 0,
        0 <= upto <= ratings.len(),
    ensures
        score_upto(ratings, nb, upto, j) == 0,
    decreases upto,
{
    if upto > 0 {
        lemma_score_all_zero(ratings, nb, upto - 1, j);
    }
}

/// Extending a list prefix by one entry extends its contribution.
proof fn lemma_contrib_take_succ(list: Seq<(usize, u64)>, rating: u64, q: int, j: int)
    requires
        0 <= q < list.len(),
    ensures
        share(list.take(q + 1), rating, j) == share(list.take(q), rating, j) + if list[q].0
            == j {
            (rating as int) * (list[q].1 as int) / (SCALE as int)
        } else {
            0
        },
{
    assert(list.take(q + 1).drop_last() =~= list.take(q));
}

/// Distribute a user's ratings over the neighbour index: every rated item
/// passes `rating * similarity` (scaled back down) to each of its
/// neighbours, contributions add up, and the items that accumulated a
/// positive score come back ranked by score, ties by item index.
///
/// Items the user already rated are not excluded from the result; a caller
/// that wants them gone filters afterwards.  A user with no positive rating
/// gets an empty result.
pub fn recommend_items_for_user(
    user_ratings: &Vec<u64>,
    neighbors: &Vec<Vec<(usize, u64)>>,
) -> (out: Result<Vec<(usize, u64)>, RecError>)
    requires
        user_ratings@.len() <= MAX_DIM,
        forall|t: int| 0 <= t < user_ratings@.len() ==> user_ratings@[t] <= MAX_WEIGHT,
        forall|i: int|
            0 <= i < neighbors@.len() ==> neighbour_list_wf(
                #[trigger] neighbors@[i]@,
                neighbors@.len() as int,
            ),
    ensures
        out is Err <==> user_ratings@.len() != neighbors@.len(),
        out is Err ==> out->Err_0 == RecError::DimensionMismatch,
        out is Ok ==> out->Ok_0@ == ranked(
            score_pairs(user_ratings@, list_views(neighbors@)),
        ),
        out is Ok && (forall|t: int| 0 <= t < user_ratings@.len() ==> user_ratings@[t] == 0)
            ==> out->Ok_0@.len() == 0,
{
    broadcast use vstd::prelude::Seq::lemma_filter_push;

    let n = user_ratings.len();
    if n != neighbors.len() {
        return Err(RecError::DimensionMismatch);
    }
    let ghost rs = user_ratings@;
    let ghost nbv = list_views(neighbors@);
    let mut scores: Vec<u64> = Vec::new();
    let mut z: usize = 0;
    while z < n
        invariant
            z <= n,
            scores@.len() == z,
            forall|t: int| 0 <= t < z ==> scores@[t] == 0,
        decreases n - z,
    {
        scores.push(0);
        z = z + 1;
    }
    let mut i: usize = 0;
    while i < n
        invariant
            i <= n,
            n <= MAX_DIM,
            n == rs.len() == nbv.len() == neighbors@.len(),
            rs == user_ratings@,
            nbv == list_views(neighbors@),
            forall|t: int| 0 <= t < n ==> rs[t] <= MAX_WEIGHT,
            forall|w: int| 0 <= w < n ==> neighbour_list_wf(#[trigger] nbv[w], n as int),
            scores@.len() == n,
            forall|t: int| 0 <= t < n ==> #[trigger] scores@[t] as int == score_upto(rs, nbv, i as int, t),
        decreases n - i,
    {
        let rating = user_ratings[i];
        if rating > 0 {
            let mut q: usize = 0;
            let ghost base = scores@;
            while q < neighbors[i].len()
                invariant
                    i < n,
                    n <= MAX_DIM,
                    q <= neighbors@[i as int]@.len(),
                    n == rs.len() == nbv.len() == neighbors@.len(),
                    rs == user_ratings@,
                    nbv == list_views(neighbors@),
                    rating == rs[i as int],
                    rating > 0,
                    forall|t: int| 0 <= t < n ==> rs[t] <= MAX_WEIGHT,
                    forall|w: int| 0 <= w < n ==> neighbour_list_wf(#[trigger] nbv[w], n as int),
                    scores@.len() == n,
                    forall|t: int|
                        0 <= t < n ==> #[trigger] scores@[t] as int == score_upto(rs, nbv, i as int, t)
                            + share(nbv[i as int].take(q as int), rating, t),
                decreases neighbors@[i as int]@.len() - q,
            {
                let entry = neighbors[i][q];
                let tgt = entry.0;
                let sv = entry.1;
                proof {
                    assert(nbv[i as int] == neighbors@[i as int]@);
                    assert(nbv[i as int][q as int] == entry);
                    assert(tgt < n && sv <= SCALE);
                    assert((rating as int) * (sv as int) <= (MAX_WEIGHT as int) * (SCALE as int))
                        by (nonlinear_arith)
                        requires
                            0 <= rating <= MAX_WEIGHT,
                            0 <= sv <= SCALE,
                    ;
                }
                let delta = rating * sv / SCALE;
                proof {
                    let list = nbv[i as int];
                    assert forall|t: int| 0 <= t < n implies share(
                        list.take(q + 1),
                        rating,
                        t,
                    ) == share(list.take(q as int), rating, t) + if list[q as int].0 == t {
                        (rating as int) * (list[q as int].1 as int) / (SCALE as int)
                    } else {
                        0int
                    } by {
                        lemma_contrib_take_succ(list, rating, q as int, t);
                    }
                    assert(neighbour_list_wf(list.take(q + 1), n as int));
                    assert forall|t: int| 0 <= t < n implies 0 <= #[trigger] score_upto(rs, nbv, i as int, t)
                        + share(list.take(q + 1), rating, t) <= ((i as int) + 1) * (
                    MAX_WEIGHT as int) by {
                        lemma_score_bound(rs, nbv, i as int, t);
                        lemma_contrib_bound(list.take(q + 1), rating, t, n as int);
                        assert((i as int) * (MAX_WEIGHT as int) + (MAX_WEIGHT as int) == ((
                        i as int) + 1) * (MAX_WEIGHT as int)) by (nonlinear_arith);
                    }
                    assert(((i as int) + 1) * (MAX_WEIGHT as int) <= (MAX_DIM as int) * (
                    MAX_WEIGHT as int)) by (nonlinear_arith)
                        requires
                            (i as int) + 1 <= MAX_DIM as int,
                    ;
                    assert(share(nbv[i as int].take(q as int), rating, tgt as int) >= 0) by {
                        lemma_contrib_bound(
                            nbv[i as int].take(q as int),
                            rating,
                            tgt as int,
                            n as int,
                        );
                        assert(neighbour_list_wf(nbv[i as int].take(q as int), n as int));
                    }
                    lemma_score_bound(rs, nbv, i as int, tgt as int);
                }
                let cur = scores[tgt];
                scores.set(tgt, cur + delta);
                q = q + 1;
            }
            proof {
                assert(nbv[i as int].take(nbv[i as int].len() as int) =~= nbv[i as int]);
                assert forall|t: int| 0 <= t < n implies #[trigger] scores@[t] as int == score_upto(
                    rs,
                    nbv,
                    i as int + 1,
                    t,
                ) by {
                    assert(scores@[t] as int == score_upto(rs, nbv, i as int, t) + share(
                        nbv[i as int],
                        rating,
                        t,
                    ));
                }
            }
        } else {
            proof {
                assert forall|t: int| 0 <= t < n implies #[trigger] scores@[t] as int == score_upto(
                    rs,
                    nbv,
                    i as int + 1,
                    t,
                ) by {}
            }
        }
        i = i + 1;
    }
    let ghost full = score_full(rs, nbv);
    let ghost pred = score_pred();
    let mut pairs: Vec<(usize, u64)> = Vec::new();
    let mut j: usize = 0;
    proof {
        assert(full.take(0) =~= Seq::<(usize, u64)>::empty());
        assert(full.take(0).filter(pred) =~= Seq::<(usize, u64)>::empty()) by {
            reveal(Seq::filter);
        }
    }
    while j < n
        invariant
            j <= n,
            n <= MAX_DIM,
            n == rs.len() == nbv.len(),
            rs == user_ratings@,
            forall|t: int| 0 <= t < n ==> rs[t] <= MAX_WEIGHT,
            forall|w: int| 0 <= w < n ==> neighbour_list_wf(#[trigger] nbv[w], n as int),
            scores@.len() == n,
            forall|t: int| 0 <= t < n ==> #[trigger] scores@[t] as int == user_score(rs, nbv, t),
            full == score_full(rs, nbv),
            pred == score_pred(),
            pairs@ == full.take(j as int).filter(pred),
        decreases n - j,
    {
        proof {
            lemma_score_bound(rs, nbv, n as int, j as int);
            assert((n as int) * (MAX_WEIGHT as int) < 0x8000000000000000) by (nonlinear_arith)
                requires
                    0 <= n <= MAX_DIM,
            ;
            assert(full.take(j + 1) =~= full.take(j as int).push(full[j as int]));
            full.take(j as int).lemma_filter_push(full[j as int], pred);
            assert(full[j as int] == score_entry(rs, nbv, j as int));
            assert(score_entry(rs, nbv, j as int).1 == user_score(rs, nbv, j as int) as u64);
        }
        let sv = scores[j];
        if sv > 0 {
            pairs.push((j, sv));
            proof {
                assert(full[j as int] == (j as usize, sv));
                assert(pred(full[j as int]));
            }
        } else {
            proof {
                assert(!pred(full[j as int]));
            }
        }
        j = j + 1;
    }
    proof {
        assert(full.take(n as int) =~= full);
        assert(pairs@ == score_pairs(rs, nbv));
        lemma_ranked_ensures(pairs@);
        if forall|t: int| 0 <= t < rs.len() ==> rs[t] == 0 {
            assert forall|w: int| 0 <= w < full.len() implies !pred(#[trigger] full[w]) by {
                lemma_score_all_zero(rs, nbv, rs.len() as int, w);
            }
            full.lemma_all_neg_filter_empty(pred);
            assert(score_pairs(rs, nbv).len() == 0);
        }
    }
    let np = pairs.len();
    let r = top_pairs(pairs, np);
    Ok(r)
}

} // verus!
