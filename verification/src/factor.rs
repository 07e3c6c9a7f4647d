//! Latent-factor matrix factorization by stochastic gradient descent, in
//! signed fixed-point arithmetic, with the training recurrence stated as a
//! specification the loops are proved against.

use vstd::prelude::*;
use crate::fixed::{SCALE, MAX_DIM, MAX_WEIGHT, sqrt_floor, isqrt};
use crate::matrix::{Matrix, lemma_index_bound, lemma_index_injective};

verus! {

/// Hard cap on a learned latent factor, in fixed-point units: updates that
/// would pass it are clamped, which keeps every later product bounded.
pub const FACTOR_CAP: i64 = 64_000_000;

/// Bound on any entry a factor matrix may hold; reconstructed predictions
/// stay far below it.
pub const ENTRY_CAP: i64 = 0x200000000000;

/// Largest latent dimensionality the engine accepts.
pub const MAX_LATENT: usize = 1024;

/// A `rows x cols` matrix of signed fixed-point values, stored row-major.
pub struct FactorMatrix {
    pub rows: usize,
    pub cols: usize,
    pub data: Vec<i64>,
}

impl FactorMatrix {
    /// Dimensions within machine bounds, storage of exactly `rows * cols`
    /// entries, every entry within the entry cap.
    pub open spec fn wf(self) -> bool {
        &&& self.rows <= MAX_DIM
        &&& self.cols <= MAX_DIM
        &&& self.rows * self.cols <= usize::MAX
        &&& self.data.len() == self.rows * self.cols
        &&& forall|k: int| 0 <= k < self.data.len() ==> -ENTRY_CAP <= #[trigger] self.data[k] <= ENTRY_CAP
    }

    /// Every entry within `cap` in magnitude.
    pub open spec fn bounded(self, cap: int) -> bool {
        forall|k: int| 0 <= k < self.data.len() ==> -cap <= #[trigger] self.data[k] <= cap
    }

    /// The entry in row `i`, column `j`.
    pub open spec fn at(self, i: int, j: int) -> i64 {
        self.data[i * self.cols + j]
    }

    /// An all-zero matrix of the given shape.
    pub fn new(rows: usize, cols: usize) -> (m: FactorMatrix)
        requires
            rows <= MAX_DIM,
            cols <= MAX_DIM,
            rows * cols <= usize::MAX,
        ensures
            m.wf(),
            m.bounded(0),
            m.rows == rows,
            m.cols == cols,
    {
        proof {
            assert(rows * cols >= 0) by (nonlinear_arith)
                requires
                    rows >= 0,
                    cols >= 0,
            ;
        }
        let n = rows * cols;
        let mut data: Vec<i64> = Vec::new();
        let mut k: usize = 0;
        while k < n
            invariant
                k <= n,
                data.len() == k,
                forall|t: int| 0 <= t < k ==> data[t] == 0,
            decreases n - k,
        {
            data.push(0);
            k = k + 1;
        }
        FactorMatrix { rows, cols, data }
    }

    /// Read one entry.
    pub fn get(&self, i: usize, j: usize) -> (r: i64)
        requires
            self.wf(),
            i < self.rows,
            j < self.cols,
        ensures
            r == self.at(i as int, j as int),
    {
        proof {
            lemma_index_bound(i as int, j as int, self.rows as int, self.cols as int);
            assert(i * self.cols + j <= usize::MAX) by (nonlinear_arith)
                requires
                    0 <= (i as int) * (self.cols as int) + (j as int) < (self.rows as int) * (
                    self.cols as int),
                    (self.rows as int) * (self.cols as int) <= usize::MAX,
            ;
        }
        self.data[i * self.cols + j]
    }

    /// Write one entry, leaving every other entry as it was.
    pub fn set(&mut self, i: usize, j: usize, v: i64)
        requires
            old(self).wf(),
            i < old(self).rows,
            j < old(self).cols,
            -ENTRY_CAP <= v <= ENTRY_CAP,
        ensures
            final(self).wf(),
            final(self).rows == old(self).rows,
            final(self).cols == old(self).cols,
            final(self).data@ == old(self).data@.update(
                (i as int) * (old(self).cols as int) + (j as int),
                v,
            ),
            final(self).at(i as int, j as int) == v,
    {
        proof {
            lemma_index_bound(i as int, j as int, self.rows as int, self.cols as int);
            assert(i * self.cols + j <= usize::MAX) by (nonlinear_arith)
                requires
                    0 <= (i as int) * (self.cols as int) + (j as int) < (self.rows as int) * (
                    self.cols as int),
                    (self.rows as int) * (self.cols as int) <= usize::MAX,
            ;
        }
        let idx = i * self.cols + j;
        self.data.set(idx, v);
    }
}

/// Fixed-point division by the scale, rounding toward zero.
pub open spec fn tdiv_s(x: int) -> int {
    if x >= 0 {
        x / (SCALE as int)
    } else {
        -((-x) / (SCALE as int))
    }
}

/// Rounding toward zero never grows the magnitude.
pub proof fn lemma_tdiv_bound(x: int, b: int)
    requires
        -b <= x <= b,
        0 <= b,
    ensures
        -b <= tdiv_s(x) <= b,
{
    if x >= 0 {
        vstd::arithmetic::div_mod::lemma_div_pos_is_pos(x, SCALE as int);
        vstd::arithmetic::div_mod::lemma_div_is_ordered_by_denominator(x, 1, SCALE as int);
        vstd::arithmetic::div_mod::lemma_div_basics_2(x);
    } else {
        let y = -x;
        vstd::arithmetic::div_mod::lemma_div_pos_is_pos(y, SCALE as int);
        vstd::arithmetic::div_mod::lemma_div_is_ordered_by_denominator(y, 1, SCALE as int);
        vstd::arithmetic::div_mod::lemma_div_basics_2(y);
    }
}

/// Clamp to the factor cap.
pub open spec fn clamp_spec(x: int) -> i64 {
    if x > FACTOR_CAP {
        FACTOR_CAP
    } else if x < -(FACTOR_CAP as int) {
        (-FACTOR_CAP) as i64
    } else {
        x as i64
    }
}

/// Fixed-point division of a signed value by the scale, rounding toward
/// zero, exactly [`tdiv_s`].
fn div_scale(x: i128) -> (r: i128)
    requires
        -0x40000000000000000000000000000000i128 < x < 0x40000000000000000000000000000000i128,
    ensures
        r as int == tdiv_s(x as int),
{
    if x >= 0 {
        x / (SCALE as i128)
    } else {
        -((-x) / (SCALE as i128))
    }
}

/// Clamp a wide intermediate to the factor cap, exactly [`clamp_spec`].
fn clamp(x: i128) -> (r: i64)
    ensures
        r == clamp_spec(x as int),
        -FACTOR_CAP <= r <= FACTOR_CAP,
{
    if x > FACTOR_CAP as i128 {
        FACTOR_CAP
    } else if x < -(FACTOR_CAP as i128) {
        -FACTOR_CAP
    } else {
        x as i64
    }
}

/// Dot product of row `i` of the user factors and column `j` of the item
/// factors, over the first `k` latent dimensions.
pub open spec fn dot_uv(
    us: Seq<i64>,
    vs: Seq<i64>,
    f: int,
    m: int,
    i: int,
    j: int,
    k: int,
) -> int
    decreases k,
{
    if k <= 0 {
        0
    } else {
        dot_uv(us, vs, f, m, i, j, k - 1) + us[i * f + (k - 1)] * vs[(k - 1) * m + j]
    }
}

/// The predicted rating for cell `(i, j)`: the factor dot product scaled
/// back down, rounding toward zero.
pub open spec fn predict_s(us: Seq<i64>, vs: Seq<i64>, f: int, m: int, i: int, j: int) -> int {
    tdiv_s(dot_uv(us, vs, f, m, i, j, f))
}

/// One gradient step on latent dimension `k - 1` for cell `(i, j)` with
/// error `e`: first the user factor moves, then the item factor moves using
/// the already-updated user factor, both clamped; dimensions `0 .. k` done.
pub open spec fn step_k(
    us: Seq<i64>,
    vs: Seq<i64>,
    f: int,
    m: int,
    i: int,
    j: int,
    e: int,
    lr: int,
    reg: int,
    k: int,
) -> (Seq<i64>, Seq<i64>)
    decreases k,
{
    if k <= 0 {
        (us, vs)
    } else {
        let prev = step_k(us, vs, f, m, i, j, e, lr, reg, k - 1);
        let u1 = prev.0;
        let v1 = prev.1;
        let p = u1[i * f + (k - 1)];
        let q0 = v1[(k - 1) * m + j];
        let p2 = clamp_spec(p + tdiv_s(lr * tdiv_s(2 * e * q0 - reg * p)));
        let q2 = clamp_spec(q0 + tdiv_s(lr * tdiv_s(2 * e * p2 - reg * q0)));
        (u1.update(i * f + (k - 1), p2), v1.update((k - 1) * m + j, q2))
    }
}

/// The full update both factor matrices get from one rated cell: compute
/// the prediction error once, then walk every latent dimension.
pub open spec fn cell_update(
    us: Seq<i64>,
    vs: Seq<i64>,
    f: int,
    m: int,
    rating: u64,
    i: int,
    j: int,
    lr: int,
    reg: int,
) -> (Seq<i64>, Seq<i64>) {
    let e = rating - predict_s(us, vs, f, m, i, j);
    step_k(us, vs, f, m, i, j, e, lr, reg, f)
}

/// The factor state after the first `t` cells of the rating matrix, walked
/// row-major, have been visited; unrated cells change nothing.
pub open spec fn cells_upto(
    ratings: Matrix,
    us: Seq<i64>,
    vs: Seq<i64>,
    f: int,
    lr: int,
    reg: int,
    t: int,
) -> (Seq<i64>, Seq<i64>)
    decreases t,
{
    if t <= 0 {
        (us, vs)
    } else {
        let prev = cells_upto(ratings, us, vs, f, lr, reg, t - 1);
        let i = (t - 1) / (ratings.cols as int);
        let j = (t - 1) % (ratings.cols as int);
        if ratings.at(i, j) > 0 {
            cell_update(prev.0, prev.1, f, ratings.cols as int, ratings.at(i, j), i, j, lr, reg)
        } else {
            prev
        }
    }
}

/// The factor state after a number of full epochs.
pub open spec fn epochs_upto(
    ratings: Matrix,
    us: Seq<i64>,
    vs: Seq<i64>,
    f: int,
    lr: int,
    reg: int,
    ep: int,
) -> (Seq<i64>, Seq<i64>)
    decreases ep,
{
    if ep <= 0 {
        (us, vs)
    } else {
        let prev = epochs_upto(ratings, us, vs, f, lr, reg, ep - 1);
        cells_upto(
            ratings,
            prev.0,
            prev.1,
            f,
            lr,
            reg,
            (ratings.rows as int) * (ratings.cols as int),
        )
    }
}

/// The predicted rating for one cell, exactly [`predict_s`].
pub fn predict(u: &FactorMatrix, v: &FactorMatrix, i: usize, j: usize) -> (r: i64)
    requires
        u.wf(),
        v.wf(),
        u.bounded(FACTOR_CAP as int),
        v.bounded(FACTOR_CAP as int),
        u.cols == v.rows,
        1 <= u.cols <= MAX_LATENT,
        i < u.rows,
        j < v.cols,
    ensures
        r as int == predict_s(u.data@, v.data@, u.cols as int, v.cols as int, i as int, j as int),
        -0x80000000000i64 <= r <= 0x80000000000i64,
{
    let f = u.cols;
    let m = v.cols;
    let mut acc: i128 = 0;
    let mut k: usize = 0;
    while k < f
        invariant
            u.wf(),
            v.wf(),
            u.bounded(FACTOR_CAP as int),
            v.bounded(FACTOR_CAP as int),
            f == u.cols == v.rows,
            m == v.cols,
            1 <= f <= MAX_LATENT,
            i < u.rows,
            j < m,
            k <= f,
            acc as int == dot_uv(
                u.data@,
                v.data@,
                f as int,
                m as int,
                i as int,
                j as int,
                k as int,
            ),
            -((k as int) * (FACTOR_CAP as int) * (FACTOR_CAP as int)) <= acc as int <= (k as int)
                * (FACTOR_CAP as int) * (FACTOR_CAP as int),
        decreases f - k,
    {
        let p = u.get(i, k);
        let q = v.get(k, j);
        proof {
            lemma_index_bound(i as int, k as int, u.rows as int, f as int);
            lemma_index_bound(k as int, j as int, f as int, m as int);
            assert(p == u.data@[(i as int) * (f as int) + (k as int)]);
            assert(q == v.data@[(k as int) * (m as int) + (j as int)]);
            assert(-((FACTOR_CAP as int) * (FACTOR_CAP as int)) <= (p as int) * (q as int) <= (
            FACTOR_CAP as int) * (FACTOR_CAP as int)) by (nonlinear_arith)
                requires
                    -FACTOR_CAP <= p <= FACTOR_CAP,
                    -FACTOR_CAP <= q <= FACTOR_CAP,
            ;
            assert((k as int) * (FACTOR_CAP as int) * (FACTOR_CAP as int) + (FACTOR_CAP as int) * (
            FACTOR_CAP as int) == ((k as int) + 1) * (FACTOR_CAP as int) * (FACTOR_CAP as int))
                by (nonlinear_arith);
            assert(((k as int) + 1) * (FACTOR_CAP as int) * (FACTOR_CAP as int) <= (
            MAX_LATENT as int) * (FACTOR_CAP as int) * (FACTOR_CAP as int)) by (nonlinear_arith)
                requires
                    (k as int) + 1 <= MAX_LATENT as int,
            ;
        }
        acc = acc + (p as i128) * (q as i128);
        k = k + 1;
    }
    proof {
        assert((MAX_LATENT as int) * (FACTOR_CAP as int) * (FACTOR_CAP as int)
            < 0x40000000000000000000000000000000) by (nonlinear_arith);
        lemma_tdiv_bound(acc as int, (MAX_LATENT as int) * (FACTOR_CAP as int) * (FACTOR_CAP as int));
        assert((MAX_LATENT as int) * (FACTOR_CAP as int) * (FACTOR_CAP as int) / (SCALE as int)
            <= 0x80000000000) by (nonlinear_arith);
        lemma_tdiv_range(acc as int);
    }
    let r128 = div_scale(acc);
    r128 as i64
}

/// The scaled-down quotient of a bounded dot product stays small.
proof fn lemma_tdiv_range(x: int)
    requires
        -((MAX_LATENT as int) * (FACTOR_CAP as int) * (FACTOR_CAP as int)) <= x <= (
        MAX_LATENT as int) * (FACTOR_CAP as int) * (FACTOR_CAP as int),
    ensures
        -0x80000000000 <= tdiv_s(x) <= 0x80000000000,
{
    let b = (MAX_LATENT as int) * (FACTOR_CAP as int) * (FACTOR_CAP as int);
    assert(b < (SCALE as int) * 0x80000000000) by (nonlinear_arith)
        requires
            b == (MAX_LATENT as int) * (FACTOR_CAP as int) * (FACTOR_CAP as int),
            MAX_LATENT == 1024usize,
            FACTOR_CAP == 64_000_000i64,
            SCALE == 1_000_000u64,
    ;
    if x >= 0 {
        vstd::arithmetic::div_mod::lemma_div_pos_is_pos(x, SCALE as int);
        vstd::arithmetic::div_mod::lemma_div_is_ordered(x, b, SCALE as int);
        vstd::arithmetic::div_mod::lemma_multiply_divide_lt(b, SCALE as int, 0x80000000000);
    } else {
        vstd::arithmetic::div_mod::lemma_div_pos_is_pos(-x, SCALE as int);
        vstd::arithmetic::div_mod::lemma_div_is_ordered(-x, b, SCALE as int);
        vstd::arithmetic::div_mod::lemma_multiply_divide_lt(b, SCALE as int, 0x80000000000);
    }
}

/// Apply the gradient updates of one rated cell to both factor matrices,
/// exactly [`cell_update`].
pub fn sgd_cell(
    u: &mut FactorMatrix,
    v: &mut FactorMatrix,
    rating: u64,
    i: usize,
    j: usize,
    lr: u64,
    reg: u64,
)
    requires
        old(u).wf(),
        old(v).wf(),
        old(u).bounded(FACTOR_CAP as int),
        old(v).bounded(FACTOR_CAP as int),
        old(u).cols == old(v).rows,
        1 <= old(u).cols <= MAX_LATENT,
        i < old(u).rows,
        j < old(v).cols,
        rating <= MAX_WEIGHT,
        lr <= SCALE,
        reg <= SCALE,
    ensures
        final(u).wf(),
        final(v).wf(),
        final(u).bounded(FACTOR_CAP as int),
        final(v).bounded(FACTOR_CAP as int),
        final(u).rows == old(u).rows,
        final(u).cols == old(u).cols,
        final(v).rows == old(v).rows,
        final(v).cols == old(v).cols,
        final(u).data@ == cell_update(
            old(u).data@,
            old(v).data@,
            old(u).cols as int,
            old(v).cols as int,
            rating,
            i as int,
            j as int,
            lr as int,
            reg as int,
        ).0,
        final(v).data@ == cell_update(
            old(u).data@,
            old(v).data@,
            old(u).cols as int,
            old(v).cols as int,
            rating,
            i as int,
            j as int,
            lr as int,
            reg as int,
        ).1,
{
    let ghost us0 = u.data@;
    let ghost vs0 = v.data@;
    let f = u.cols;
    let m = v.cols;
    let pr = predict(u, v, i, j);
    let e: i64 = (rating as i64) - pr;
    let ghost ge = rating - predict_s(us0, vs0, f as int, m as int, i as int, j as int);
    proof {
        assert(e as int == ge);
        assert(-0x100000000000 < (e as int) < 0x100000000000);
    }
    let mut k: usize = 0;
    while k < f
        invariant
            u.wf(),
            v.wf(),
            u.bounded(FACTOR_CAP as int),
            v.bounded(FACTOR_CAP as int),
            u.rows == old(u).rows,
            u.cols == f,
            v.rows == old(v).rows,
            v.cols == m,
            f == old(u).cols == old(v).rows,
            m == old(v).cols,
            1 <= f <= MAX_LATENT,
            i < u.rows,
            j < m,
            k <= f,
            rating <= MAX_WEIGHT,
            lr <= SCALE,
            reg <= SCALE,
            e as int == ge,
            -0x100000000000 < (e as int) < 0x100000000000,
            u.data@ == step_k(
                us0,
                vs0,
                f as int,
                m as int,
                i as int,
                j as int,
                ge,
                lr as int,
                reg as int,
                k as int,
            ).0,
            v.data@ == step_k(
                us0,
                vs0,
                f as int,
                m as int,
                i as int,
                j as int,
                ge,
                lr as int,
                reg as int,
                k as int,
            ).1,
        decreases f - k,
    {
        let p = u.get(i, k);
        let q0 = v.get(k, j);
        proof {
            lemma_index_bound(i as int, k as int, u.rows as int, u.cols as int);
            lemma_index_bound(k as int, j as int, v.rows as int, v.cols as int);
            assert(p == u.data@[(i as int) * (f as int) + (k as int)]);
            assert(q0 == v.data@[(k as int) * (m as int) + (j as int)]);
        }
        proof {
            lemma_grad_bounds(e as int, q0 as int, p as int, reg as int);
        }
        let t1: i128 = 2 * (e as i128) * (q0 as i128);
        let t2: i128 = (reg as i128) * (p as i128);
        let grad = div_scale(t1 - t2);
        proof {
            lemma_tdiv_bound((t1 - t2) as int, 0x4000000000000000000);
            assert(-0x4000000000000000000000000 <= (lr as int) * (grad as int)
                <= 0x4000000000000000000000000) by (nonlinear_arith)
                requires
                    0 <= lr <= SCALE,
                    SCALE == 1_000_000u64,
                    -0x4000000000000000000 <= grad <= 0x4000000000000000000,
            ;
        }
        let delta = div_scale((lr as i128) * grad);
        proof {
            lemma_tdiv_bound(((lr as i128) * grad) as int, 0x4000000000000000000000000);
        }
        let p2 = clamp((p as i128) + delta);
        u.set(i, k, p2);
        proof {
            lemma_grad_bounds(e as int, p2 as int, q0 as int, reg as int);
        }
        let t1b: i128 = 2 * (e as i128) * (p2 as i128);
        let t2b: i128 = (reg as i128) * (q0 as i128);
        let gradb = div_scale(t1b - t2b);
        proof {
            lemma_tdiv_bound((t1b - t2b) as int, 0x4000000000000000000);
            assert(-0x4000000000000000000000000 <= (lr as int) * (gradb as int)
                <= 0x4000000000000000000000000) by (nonlinear_arith)
                requires
                    0 <= lr <= SCALE,
                    SCALE == 1_000_000u64,
                    -0x4000000000000000000 <= gradb <= 0x4000000000000000000,
            ;
        }
        let deltab = div_scale((lr as i128) * gradb);
        proof {
            lemma_tdiv_bound(((lr as i128) * gradb) as int, 0x4000000000000000000000000);
        }
        let q2 = clamp((q0 as i128) + deltab);
        v.set(k, j, q2);
        proof {
            let s = step_k(
                us0,
                vs0,
                f as int,
                m as int,
                i as int,
                j as int,
                ge,
                lr as int,
                reg as int,
                k as int + 1,
            );
            assert(s.0 == u.data@ && s.1 == v.data@);
        }
        k = k + 1;
    }
}

/// Wide intermediates of one gradient step stay far inside the wide range.
proof fn lemma_grad_bounds(e: int, q: int, p: int, reg: int)
    requires
        -0x100000000000 < e < 0x100000000000,
        -FACTOR_CAP <= q <= FACTOR_CAP,
        -FACTOR_CAP <= p <= FACTOR_CAP,
        0 <= reg <= SCALE,
    ensures
        -0x4000000000000000000 <= 2 * e * q - reg * p <= 0x4000000000000000000,
        -0x2000000000000000000 <= 2 * e * q <= 0x2000000000000000000,
        -0x2000000000000000000 <= reg * p <= 0x2000000000000000000,
{
    assert(-0x2000000000000000000 <= 2 * e * q <= 0x2000000000000000000) by (nonlinear_arith)
        requires
            -0x100000000000 < e < 0x100000000000,
            -FACTOR_CAP <= q <= FACTOR_CAP,
    ;
    assert(-0x2000000000000000000 <= reg * p <= 0x2000000000000000000) by (nonlinear_arith)
        requires
            0 <= reg <= SCALE,
            -FACTOR_CAP <= p <= FACTOR_CAP,
    ;
}

/// Train existing factor matrices for a number of epochs: every rated cell
/// of every epoch applies its gradient step in row-major order, exactly
/// [`epochs_upto`].  An all-unrated matrix changes nothing.
pub fn factorize_from(
    ratings: &Matrix,
    u0: FactorMatrix,
    v0: FactorMatrix,
    lr: u64,
    reg: u64,
    epochs: usize,
) -> (out: (FactorMatrix, FactorMatrix))
    requires
        ratings.wf(),
        u0.wf(),
        v0.wf(),
        u0.bounded(FACTOR_CAP as int),
        v0.bounded(FACTOR_CAP as int),
        u0.rows == ratings.rows,
        u0.cols == v0.rows,
        1 <= u0.cols <= MAX_LATENT,
        v0.cols == ratings.cols,
        lr <= SCALE,
        reg <= SCALE,
    ensures
        out.0.wf(),
        out.1.wf(),
        out.0.bounded(FACTOR_CAP as int),
        out.1.bounded(FACTOR_CAP as int),
        out.0.rows == ratings.rows,
        out.0.cols == u0.cols,
        out.1.rows == u0.cols,
        out.1.cols == ratings.cols,
        out.0.data@ == epochs_upto(
            *ratings,
            u0.data@,
            v0.data@,
            u0.cols as int,
            lr as int,
            reg as int,
            epochs as int,
        ).0,
        out.1.data@ == epochs_upto(
            *ratings,
            u0.data@,
            v0.data@,
            u0.cols as int,
            lr as int,
            reg as int,
            epochs as int,
        ).1,
{
    let ghost us0 = u0.data@;
    let ghost vs0 = v0.data@;
    let f = u0.cols;
    let mut u = u0;
    let mut v = v0;
    let rows = ratings.rows;
    let cols = ratings.cols;
    proof {
        assert(rows * cols >= 0) by (nonlinear_arith)
            requires
                rows >= 0,
                cols >= 0,
        ;
    }
    let total = rows * cols;
    let mut ep: usize = 0;
    while ep < epochs
        invariant
            ratings.wf(),
            rows == ratings.rows,
            cols == ratings.cols,
            total == rows * cols,
            ep <= epochs,
            lr <= SCALE,
            reg <= SCALE,
            1 <= f <= MAX_LATENT,
            u.wf(),
            v.wf(),
            u.bounded(FACTOR_CAP as int),
            v.bounded(FACTOR_CAP as int),
            u.rows == rows,
            u.cols == f,
            v.rows == f,
            v.cols == cols,
            u.data@ == epochs_upto(*ratings, us0, vs0, f as int, lr as int, reg as int, ep as int).0,
            v.data@ == epochs_upto(*ratings, us0, vs0, f as int, lr as int, reg as int, ep as int).1,
        decreases epochs - ep,
    {
        let ghost eu = u.data@;
        let ghost ev = v.data@;
        let mut t: usize = 0;
        while t < total
            invariant
                ratings.wf(),
                rows == ratings.rows,
                cols == ratings.cols,
                total == rows * cols,
                t <= total,
                lr <= SCALE,
                reg <= SCALE,
                1 <= f <= MAX_LATENT,
                u.wf(),
                v.wf(),
                u.bounded(FACTOR_CAP as int),
                v.bounded(FACTOR_CAP as int),
                u.rows == rows,
                u.cols == f,
                v.rows == f,
                v.cols == cols,
                u.data@ == cells_upto(*ratings, eu, ev, f as int, lr as int, reg as int, t as int).0,
                v.data@ == cells_upto(*ratings, eu, ev, f as int, lr as int, reg as int, t as int).1,
            decreases total - t,
        {
            proof {
                assert(cols > 0) by (nonlinear_arith)
                    requires
                        t < total,
                        total == rows * cols,
                        0 <= t,
                        rows >= 0,
                        cols >= 0,
                ;
                vstd::arithmetic::div_mod::lemma_multiply_divide_lt(
                    t as int,
                    cols as int,
                    rows as int,
                );
                assert((cols as int) * (rows as int) == (rows as int) * (cols as int))
                    by (nonlinear_arith);
                vstd::arithmetic::div_mod::lemma_mod_bound(t as int, cols as int);
            }
            let ci = t / cols;
            let cj = t % cols;
            let rv = ratings.get(ci, cj);
            if rv > 0 {
                proof {
                    crate::matrix::Matrix::lemma_col_bounds(*ratings, cj as int);
                }
                sgd_cell(&mut u, &mut v, rv, ci, cj, lr, reg);
            }
            t = t + 1;
        }
        ep = ep + 1;
    }
    (u, v)
}


/// The sum of squared differences between ratings and predictions over the
/// first `t` cells, row-major.
pub open spec fn sq_err(ratings: Matrix, p: FactorMatrix, t: int) -> int
    decreases t,
{
    if t <= 0 {
        0
    } else {
        let i = (t - 1) / (ratings.cols as int);
        let j = (t - 1) % (ratings.cols as int);
        let d = ratings.at(i, j) - p.at(i, j);
        sq_err(ratings, p, t - 1) + d * d
    }
}

/// Root-mean-square error between a rating matrix and a reconstruction,
/// over all cells (unrated cells count, with target zero), rounded down.
pub open spec fn rmse_spec(ratings: Matrix, p: FactorMatrix) -> int {
    sqrt_floor(
        sq_err(ratings, p, (ratings.rows as int) * (ratings.cols as int)) / (
        (ratings.rows as int) * (ratings.cols as int)),
    )
}

/// The dense reconstruction of the rating matrix: entry `(i, j)` is the
/// prediction of the factor model for that cell.
pub fn reconstruct(u: &FactorMatrix, v: &FactorMatrix) -> (p: FactorMatrix)
    requires
        u.wf(),
        v.wf(),
        u.bounded(FACTOR_CAP as int),
        v.bounded(FACTOR_CAP as int),
        u.cols == v.rows,
        1 <= u.cols <= MAX_LATENT,
        u.rows * v.cols <= usize::MAX,
    ensures
        p.wf(),
        p.rows == u.rows,
        p.cols == v.cols,
        forall|i: int, j: int|
            0 <= i < u.rows && 0 <= j < v.cols ==> #[trigger] p.at(i, j) as int == predict_s(
                u.data@,
                v.data@,
                u.cols as int,
                v.cols as int,
                i,
                j,
            ),
{
    let rows = u.rows;
    let cols = v.cols;
    let mut p = FactorMatrix::new(rows, cols);
    let mut i: usize = 0;
    while i < rows
        invariant
            u.wf(),
            v.wf(),
            u.bounded(FACTOR_CAP as int),
            v.bounded(FACTOR_CAP as int),
            u.cols == v.rows,
            1 <= u.cols <= MAX_LATENT,
            rows == u.rows,
            cols == v.cols,
            i <= rows,
            p.wf(),
            p.rows == rows,
            p.cols == cols,
            forall|a: int, b: int|
                0 <= a < rows && 0 <= b < cols && (a < i) ==> #[trigger] p.at(a, b) as int
                    == predict_s(u.data@, v.data@, u.cols as int, cols as int, a, b),
        decreases rows - i,
    {
        let mut j: usize = 0;
        while j < cols
            invariant
                u.wf(),
                v.wf(),
                u.bounded(FACTOR_CAP as int),
                v.bounded(FACTOR_CAP as int),
                u.cols == v.rows,
                1 <= u.cols <= MAX_LATENT,
                rows == u.rows,
                cols == v.cols,
                i < rows,
                j <= cols,
                p.wf(),
                p.rows == rows,
                p.cols == cols,
                forall|a: int, b: int|
                    0 <= a < rows && 0 <= b < cols && (a < i || (a == i && b < j)) ==> #[trigger] p
                        .at(a, b) as int == predict_s(
                        u.data@,
                        v.data@,
                        u.cols as int,
                        cols as int,
                        a,
                        b,
                    ),
            decreases cols - j,
        {
            let val = predict(u, v, i, j);
            let ghost p_old = p;
            p.set(i, j, val);
            proof {
                lemma_index_bound(i as int, j as int, rows as int, cols as int);
                assert(p.data@ == p_old.data@.update(
                    (i as int) * (cols as int) + (j as int),
                    val,
                ));
                assert forall|a: int, b: int|
                    0 <= a < rows && 0 <= b < cols && !(a == i as int && b == j as int) implies p
                        .at(a, b) == p_old.at(a, b) by {
                    lemma_index_bound(a, b, rows as int, cols as int);
                    if a * (cols as int) + b == (i as int) * (cols as int) + (j as int) {
                        lemma_index_injective(a, b, i as int, j as int, cols as int);
                    } else {
                        assert(p_old.data@.update(
                            (i as int) * (cols as int) + (j as int),
                            val,
                        )[a * (cols as int) + b] == p_old.data@[a * (cols as int) + b]);
                    }
                }
            }
            j = j + 1;
        }
        i = i + 1;
    }
    p
}

/// The root-mean-square error of a reconstruction, exactly [`rmse_spec`]:
/// the floor square root of the mean squared difference over all cells.
pub fn compute_rmse(ratings: &Matrix, predictions: &FactorMatrix) -> (r: u64)
    requires
        ratings.wf(),
        predictions.wf(),
        predictions.rows == ratings.rows,
        predictions.cols == ratings.cols,
        1 <= ratings.rows * ratings.cols <= MAX_DIM,
    ensures
        r as int == rmse_spec(*ratings, *predictions),
{
    let rows = ratings.rows;
    let cols = ratings.cols;
    proof {
        assert(rows * cols >= 0) by (nonlinear_arith)
            requires
                rows >= 0,
                cols >= 0,
        ;
    }
    let total = rows * cols;
    let mut acc: u128 = 0;
    let mut t: usize = 0;
    while t < total
        invariant
            ratings.wf(),
            predictions.wf(),
            predictions.rows == rows,
            predictions.cols == cols,
            rows == ratings.rows,
            cols == ratings.cols,
            1 <= total <= MAX_DIM,
            total == rows * cols,
            t <= total,
            acc as int == sq_err(*ratings, *predictions, t as int),
            (acc as int) <= (t as int) * 0x100000000000000000000000,
        decreases total - t,
    {
        proof {
            assert(cols > 0) by (nonlinear_arith)
                requires
                    t < total,
                    total == rows * cols,
                    0 <= t,
                    rows >= 0,
                    cols >= 0,
            ;
            vstd::arithmetic::div_mod::lemma_multiply_divide_lt(t as int, cols as int, rows as int);
            assert((cols as int) * (rows as int) == (rows as int) * (cols as int))
                by (nonlinear_arith);
            vstd::arithmetic::div_mod::lemma_mod_bound(t as int, cols as int);
        }
        let ci = t / cols;
        let cj = t % cols;
        let rv = ratings.get(ci, cj);
        let pv = predictions.get(ci, cj);
        proof {
            crate::matrix::Matrix::lemma_col_bounds(*ratings, cj as int);
            lemma_index_bound(ci as int, cj as int, rows as int, cols as int);
        }
        let d: i128 = (rv as i128) - (pv as i128);
        proof {
            assert(rv <= MAX_WEIGHT);
            assert(pv == predictions.data@[(ci as int) * (cols as int) + (cj as int)]);
            assert(-ENTRY_CAP <= pv <= ENTRY_CAP);
            assert(-0x300000000000 <= d <= 0x300000000000);
            assert(0 <= (d as int) * (d as int) <= 0x100000000000000000000000) by (nonlinear_arith)
                requires
                    -0x300000000000 <= d <= 0x300000000000,
            ;
            assert((t as int) * 0x100000000000000000000000 + 0x100000000000000000000000 == ((
            t as int) + 1) * 0x100000000000000000000000) by (nonlinear_arith);
            assert(((t as int) + 1) * 0x100000000000000000000000 <= (MAX_DIM as int)
                * 0x100000000000000000000000) by (nonlinear_arith)
                requires
                    (t as int) + 1 <= MAX_DIM as int,
            ;
        }
        let dd: i128 = d * d;
        acc = acc + (dd as u128);
        t = t + 1;
    }
    proof {
        assert((acc as int) <= (total as int) * 0x100000000000000000000000);
        vstd::arithmetic::div_mod::lemma_div_pos_is_pos(acc as int, total as int);
        assert((acc as int) < (total as int) * 0x100000000000000000000001) by (nonlinear_arith)
            requires
                (acc as int) <= (total as int) * 0x100000000000000000000000,
                total >= 1,
        ;
        vstd::arithmetic::div_mod::lemma_multiply_divide_lt(
            acc as int,
            total as int,
            0x100000000000000000000001,
        );
    }
    let mean = acc / (total as u128);
    proof {
        assert((acc as int) / (total as int) < 0x100000000000000000000001);
        assert(mean < 0x1000000000000000000000000u128);
    }
    isqrt(mean)
}

/// Relies on rand::rng: a handle to the thread-local random generator.
#[verifier::external_body]
fn fresh_rng() -> rand::rngs::ThreadRng {
    rand::rng()
}

#[verifier::external_type_specification]
#[verifier::external_body]
pub struct ExThreadRng(rand::rngs::ThreadRng);

/// Relies on rand::RngExt::random_range: a uniform draw from `0..limit`
/// always lies below `limit`.
#[verifier::external_body]
fn rng_below(rng: &mut rand::rngs::ThreadRng, limit: u64) -> (r: u64)
    requires
        limit >= 1,
    ensures
        r < limit,
{
    rand::RngExt::random_range(rng, 0..limit)
}

/// A factor matrix of the given shape filled with uniform random values in
/// `[0, 1)`, in fixed-point units.
pub fn init_factors(rows: usize, cols: usize) -> (m: FactorMatrix)
    requires
        rows <= MAX_DIM,
        cols <= MAX_DIM,
        rows * cols <= usize::MAX,
    ensures
        m.wf(),
        m.bounded(FACTOR_CAP as int),
        m.rows == rows,
        m.cols == cols,
        forall|k: int| 0 <= k < m.data@.len() ==> 0 <= #[trigger] m.data@[k] < SCALE,
{
    proof {
        assert(rows * cols >= 0) by (nonlinear_arith)
            requires
                rows >= 0,
                cols >= 0,
        ;
    }
    let n = rows * cols;
    let mut rng = fresh_rng();
    let mut data: Vec<i64> = Vec::new();
    let mut k: usize = 0;
    while k < n
        invariant
            k <= n,
            data.len() == k,
            forall|t: int| 0 <= t < k ==> 0 <= #[trigger] data[t] < SCALE,
        decreases n - k,
    {
        let x = rng_below(&mut rng, SCALE);
        data.push(x as i64);
        k = k + 1;
    }
    FactorMatrix { rows, cols, data }
}

/// Learn latent factor matrices for a rating matrix: both factor matrices
/// start with independent uniform random values in `[0, 1)` and then train
/// for the given number of epochs under [`factorize_from`], whose contract
/// pins the whole training recurrence.  On an all-unrated matrix no
/// gradient step runs and the random initialization comes back unchanged.
pub fn matrix_factorization(
    ratings: &Matrix,
    latent_features: usize,
    lr: u64,
    reg: u64,
    epochs: usize,
) -> (out: (FactorMatrix, FactorMatrix))
    requires
        ratings.wf(),
        1 <= latent_features <= MAX_LATENT,
        ratings.rows * latent_features <= usize::MAX,
        latent_features * ratings.cols <= usize::MAX,
        lr <= SCALE,
        reg <= SCALE,
    ensures
        out.0.wf(),
        out.1.wf(),
        out.0.bounded(FACTOR_CAP as int),
        out.1.bounded(FACTOR_CAP as int),
        out.0.rows == ratings.rows,
        out.0.cols == latent_features,
        out.1.rows == latent_features,
        out.1.cols == ratings.cols,
        exists|init: (Seq<i64>, Seq<i64>)|
            {
                &&& #[trigger] epochs_upto(
                    *ratings,
                    init.0,
                    init.1,
                    latent_features as int,
                    lr as int,
                    reg as int,
                    epochs as int,
                ) == (out.0.data@, out.1.data@)
                &&& init.0.len() == (ratings.rows as int) * (latent_features as int)
                &&& init.1.len() == (latent_features as int) * (ratings.cols as int)
                &&& (forall|k: int| 0 <= k < init.0.len() ==> 0 <= #[trigger] init.0[k] < SCALE)
                &&& (forall|k: int| 0 <= k < init.1.len() ==> 0 <= #[trigger] init.1[k] < SCALE)
            },
{
    let u0 = init_factors(ratings.rows, latent_features);
    let v0 = init_factors(latent_features, ratings.cols);
    let ghost w = (u0.data@, v0.data@);
    let r = factorize_from(ratings, u0, v0, lr, reg, epochs);
    proof {
        assert(epochs_upto(
            *ratings,
            w.0,
            w.1,
            latent_features as int,
            lr as int,
            reg as int,
            epochs as int,
        ) == (r.0.data@, r.1.data@));
    }
    r
}

} // verus!
