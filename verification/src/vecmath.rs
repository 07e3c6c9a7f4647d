//! Dot products and fixed-point cosine similarity of weight vectors.

use vstd::prelude::*;
use crate::fixed::{SCALE, MAX_DIM, MAX_WEIGHT, sqrt_floor, isqrt, lemma_sqrt_pos};

verus! {

/// Sum of pairwise products of two equally long sequences.
pub open spec fn dot_seq(a: Seq<u64>, b: Seq<u64>) -> int
    decreases a.len(),
{
    if a.len() == 0 {
        0
    } else {
        dot_seq(a.drop_last(), b.drop_last()) + a.last() * b.last()
    }
}

/// A dot product of unsigned values is never negative.
pub proof fn lemma_dot_nonneg(a: Seq<u64>, b: Seq<u64>)
    ensures
        dot_seq(a, b) >= 0,
    decreases a.len(),
{
    if a.len() > 0 {
        lemma_dot_nonneg(a.drop_last(), b.drop_last());
        assert(a.last() * b.last() >= 0) by (nonlinear_arith);
    }
}

/// The dot product does not depend on the order of its arguments.
pub proof fn lemma_dot_sym(a: Seq<u64>, b: Seq<u64>)
    requires
        a.len() == b.len(),
    ensures
        dot_seq(a, b) == dot_seq(b, a),
    decreases a.len(),
{
    if a.len() > 0 {
        lemma_dot_sym(a.drop_last(), b.drop_last());
        assert(a.last() * b.last() == b.last() * a.last()) by (nonlinear_arith);
    }
}

/// A vector with one positive entry has a positive dot product with itself.
pub proof fn lemma_dot_self_pos(a: Seq<u64>, i: int)
    requires
        0 <= i < a.len(),
        a[i] >= 1,
    ensures
        dot_seq(a, a) >= 1,
    decreases a.len(),
{
    lemma_dot_nonneg(a.drop_last(), a.drop_last());
    if i == a.len() - 1 {
        assert(a.last() * a.last() >= 1) by (nonlinear_arith)
            requires
                a.last() >= 1,
        ;
    } else {
        lemma_dot_self_pos(a.drop_last(), i);
        assert(a.last() * a.last() >= 0) by (nonlinear_arith);
    }
}

/// Taking one more element extends the dot product by one more product.
pub proof fn lemma_dot_take_succ(a: Seq<u64>, b: Seq<u64>, i: int)
    requires
        a.len() == b.len(),
        0 <= i < a.len(),
    ensures
        dot_seq(a.take(i + 1), b.take(i + 1)) == dot_seq(a.take(i), b.take(i)) + a[i] * b[i],
{
    assert(a.take(i + 1).drop_last() =~= a.take(i));
    assert(b.take(i + 1).drop_last() =~= b.take(i));
}

/// Exact dot product of two bounded weight vectors.
pub fn dot(a: &Vec<u64>, b: &Vec<u64>) -> (r: u128)
    requires
        a@.len() == b@.len(),
        a@.len() <= MAX_DIM,
        forall|i: int| 0 <= i < a@.len() ==> a@[i] <= MAX_WEIGHT,
        forall|i: int| 0 <= i < b@.len() ==> b@[i] <= MAX_WEIGHT,
    ensures
        r as int == dot_seq(a@, b@),
        r as int <= a@.len() * (MAX_WEIGHT as int) * (MAX_WEIGHT as int),
{
    let n = a.len();
    let mut acc: u128 = 0;
    let mut i: usize = 0;
    proof {
        assert(a@.take(0) =~= Seq::<u64>::empty());
        assert(b@.take(0) =~= Seq::<u64>::empty());
    }
    while i < n
        invariant
            i <= n,
            n == a@.len() == b@.len(),
            n <= MAX_DIM,
            forall|t: int| 0 <= t < a@.len() ==> a@[t] <= MAX_WEIGHT,
            forall|t: int| 0 <= t < b@.len() ==> b@[t] <= MAX_WEIGHT,
            acc as int == dot_seq(a@.take(i as int), b@.take(i as int)),
            acc as int <= (i as int) * (MAX_WEIGHT as int) * (MAX_WEIGHT as int),
        decreases n - i,
    {
        proof {
            assert(a@[i as int] * b@[i as int] <= (MAX_WEIGHT as int) * (MAX_WEIGHT as int))
                by (nonlinear_arith)
                requires
                    0 <= a@[i as int] <= MAX_WEIGHT,
                    0 <= b@[i as int] <= MAX_WEIGHT,
            ;
        }
        let p: u128 = (a[i] as u128) * (b[i] as u128);
        proof {
            lemma_dot_take_succ(a@, b@, i as int);
            assert((i as int) * (MAX_WEIGHT as int) * (MAX_WEIGHT as int) + (MAX_WEIGHT as int) * (
            MAX_WEIGHT as int) == (i + 1) * (MAX_WEIGHT as int) * (MAX_WEIGHT as int))
                by (nonlinear_arith);
            assert((i + 1) * (MAX_WEIGHT as int) * (MAX_WEIGHT as int) <= (MAX_DIM as int) * (
            MAX_WEIGHT as int) * (MAX_WEIGHT as int)) by (nonlinear_arith)
                requires
                    i + 1 <= MAX_DIM as int,
            ;
            lemma_dot_nonneg(a@.take(i as int), b@.take(i as int));
        }
        acc = acc + p;
        i = i + 1;
    }
    proof {
        assert(a@.take(n as int) =~= a@);
        assert(b@.take(n as int) =~= b@);
    }
    acc
}

/// Fixed-point cosine similarity of two weight vectors: the dot product,
/// scaled, divided by the product of the floor square roots of the two
/// squared magnitudes, clamped to one; zero when either magnitude is zero.
pub open spec fn cosine_fp(a: Seq<u64>, b: Seq<u64>) -> int {
    let ma = sqrt_floor(dot_seq(a, a));
    let mb = sqrt_floor(dot_seq(b, b));
    if ma <= 0 || mb <= 0 {
        0
    } else {
        let q = dot_seq(a, b) * SCALE / (ma * mb);
        if q > SCALE {
            SCALE as int
        } else {
            q
        }
    }
}

/// Cosine similarity lies between zero and one.
pub proof fn lemma_cosine_bounds(a: Seq<u64>, b: Seq<u64>)
    ensures
        0 <= cosine_fp(a, b) <= SCALE,
{
    let ma = sqrt_floor(dot_seq(a, a));
    let mb = sqrt_floor(dot_seq(b, b));
    if ma <= 0 || mb <= 0 {
    } else {
        lemma_dot_nonneg(a, b);
        assert(ma * mb >= 1) by (nonlinear_arith)
            requires
                ma >= 1,
                mb >= 1,
        ;
        assert(dot_seq(a, b) * SCALE >= 0) by (nonlinear_arith)
            requires
                dot_seq(a, b) >= 0,
        ;
        vstd::arithmetic::div_mod::lemma_div_pos_is_pos(dot_seq(a, b) * SCALE, ma * mb);
    }
}

/// Cosine similarity does not depend on the order of its arguments.
pub proof fn lemma_cosine_sym(a: Seq<u64>, b: Seq<u64>)
    requires
        a.len() == b.len(),
    ensures
        cosine_fp(a, b) == cosine_fp(b, a),
{
    lemma_dot_sym(a, b);
    let ma = sqrt_floor(dot_seq(a, a));
    let mb = sqrt_floor(dot_seq(b, b));
    assert(ma * mb == mb * ma) by (nonlinear_arith);
}

/// A vector of positive magnitude has similarity exactly one with itself.
pub proof fn lemma_cosine_self(a: Seq<u64>)
    requires
        dot_seq(a, a) >= 1,
    ensures
        cosine_fp(a, a) == SCALE,
{
    let d = dot_seq(a, a);
    lemma_sqrt_pos(d);
    let m = sqrt_floor(d);
    assert(m * m >= 1) by (nonlinear_arith)
        requires
            m >= 1,
    ;
    assert(d * SCALE >= (m * m) * SCALE) by (nonlinear_arith)
        requires
            d >= m * m,
            SCALE > 0,
    ;
    vstd::arithmetic::div_mod::lemma_div_is_ordered((m * m) * SCALE, d * SCALE, m * m);
    vstd::arithmetic::div_mod::lemma_div_by_multiple(SCALE as int, m * m);
    assert((m * m) * SCALE == SCALE * (m * m)) by (nonlinear_arith);
    assert(d * SCALE / (m * m) >= SCALE);
}

/// Cosine similarity from precomputed magnitudes, exactly [`cosine_fp`].
pub fn cosine_with_mags(a: &Vec<u64>, b: &Vec<u64>, ma: u64, mb: u64) -> (r: u64)
    requires
        a@.len() == b@.len(),
        a@.len() <= MAX_DIM,
        forall|i: int| 0 <= i < a@.len() ==> a@[i] <= MAX_WEIGHT,
        forall|i: int| 0 <= i < b@.len() ==> b@[i] <= MAX_WEIGHT,
        ma as int == sqrt_floor(dot_seq(a@, a@)),
        mb as int == sqrt_floor(dot_seq(b@, b@)),
        ma < 0x1000000000000u64,
        mb < 0x1000000000000u64,
    ensures
        r as int == cosine_fp(a@, b@),
        r <= SCALE,
{
    proof {
        lemma_cosine_bounds(a@, b@);
    }
    if ma == 0 || mb == 0 {
        0
    } else {
        let d = dot(a, b);
        proof {
            lemma_dot_nonneg(a@, b@);
            assert((MAX_DIM as int) * (MAX_WEIGHT as int) * (MAX_WEIGHT as int) * (SCALE as int)
                < 0x100000000000000000000000000000000) by (nonlinear_arith);
            assert((d as int) * (SCALE as int) <= (MAX_DIM as int) * (MAX_WEIGHT as int) * (
            MAX_WEIGHT as int) * (SCALE as int)) by (nonlinear_arith)
                requires
                    0 <= d as int <= (MAX_DIM as int) * (MAX_WEIGHT as int) * (MAX_WEIGHT as int),
            ;
            assert(d as int <= (MAX_DIM as int) * (MAX_WEIGHT as int) * (MAX_WEIGHT as int));
            assert((ma as u128) * (mb as u128) < 0x1000000000000000000000000u128)
                by (nonlinear_arith)
                requires
                    ma < 0x1000000000000u64,
                    mb < 0x1000000000000u64,
            ;
            assert((ma as u128) * (mb as u128) >= 1) by (nonlinear_arith)
                requires
                    ma >= 1,
                    mb >= 1,
            ;
        }
        let q: u128 = d * (SCALE as u128) / ((ma as u128) * (mb as u128));
        if q > SCALE as u128 {
            SCALE
        } else {
            q as u64
        }
    }
}

/// Cosine similarity of two weight vectors, exactly [`cosine_fp`].
pub fn cosine_similarity(a: &Vec<u64>, b: &Vec<u64>) -> (r: u64)
    requires
        a@.len() == b@.len(),
        a@.len() <= MAX_DIM,
        forall|i: int| 0 <= i < a@.len() ==> a@[i] <= MAX_WEIGHT,
        forall|i: int| 0 <= i < b@.len() ==> b@[i] <= MAX_WEIGHT,
    ensures
        r as int == cosine_fp(a@, b@),
        r <= SCALE,
{
    let daa = dot(a, a);
    let dbb = dot(b, b);
    proof {
        lemma_dot_nonneg(a@, a@);
        lemma_dot_nonneg(b@, b@);
        assert((MAX_DIM as int) * (MAX_WEIGHT as int) * (MAX_WEIGHT as int)
            < 0x1000000000000000000000000) by (nonlinear_arith);
    }
    let ma = isqrt(daa);
    let mb = isqrt(dbb);
    proof {
        assert((ma as int) * (ma as int) <= daa as int);
        assert(ma < 0x1000000000000u64) by (nonlinear_arith)
            requires
                0 <= ma,
                (ma as int) * (ma as int) <= daa as int,
                (daa as int) < 0x1000000000000000000000000,
        ;
        assert((mb as int) * (mb as int) <= dbb as int);
        assert(mb < 0x1000000000000u64) by (nonlinear_arith)
            requires
                0 <= mb,
                (mb as int) * (mb as int) <= dbb as int,
                (dbb as int) < 0x1000000000000000000000000,
        ;
    }
    cosine_with_mags(a, b, ma, mb)
}

} // verus!
