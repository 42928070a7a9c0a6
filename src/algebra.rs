use vstd::prelude::*;
use crate::pmf::{
    below, conv, conv_at, conv_len, conv_term, gt_num, gt_term, max_dist, max_term, mean_num, shift_dist,
    square_num, unit_dist,
    Dist,
};
use crate::sums::{
    lemma_fubini, lemma_sum2_add, lemma_sum2_ext, lemma_sum2_mono, lemma_sum2_product, lemma_sum2_scale,
    lemma_sum2_nonneg, lemma_sum_add, lemma_sum_ext,
    lemma_sum_prefix_le, lemma_sum_scale, lemma_sum_single, lemma_sum_zero, sum_to,
};

verus! {

/// Convolving with the certain outcome zero changes nothing.
pub proof fn lemma_conv_unit(a: Dist)
    ensures
        conv(unit_dist(), a) == a,
{
    let u = unit_dist();
    let c = conv(u, a);
    assert forall|k: int| 0 <= k < a.len() implies #[trigger] c.w[k] == a.w[k] by {
        let f = |x: int, y: int| conv_term(u, a, k, x, y);
        let row = |y: int| f(0, y);
        lemma_sum_single(row, k, a.len());
        assert(sum_to(|x: int| sum_to(|y: int| f(x, y), a.len()), 0) == 0);
        lemma_sum_ext(|y: int| f(0, y), row, a.len());
    }
    assert(c.w =~= a.w);
}

/// The sum of two independent values does not depend on their order; by
/// the contract of `convolve`, `convolve(a, b)` and `convolve(b, a)` give
/// the same table.
pub proof fn lemma_conv_commutes(a: Dist, b: Dist)
    ensures
        conv(a, b) == conv(b, a),
{
    assert forall|k: int| 0 <= k < conv_len(a, b) implies #[trigger] conv_at(a, b, k) == conv_at(b, a, k) by {
        let f = |x: int, y: int| conv_term(a, b, k, x, y);
        let g = |x: int, y: int| conv_term(b, a, k, x, y);
        lemma_fubini(f, a.len(), b.len());
        let fs = |y: int, x: int| f(x, y);
        assert forall|x: int, y: int| 0 <= x < b.len() && 0 <= y < a.len() implies fs(x, y) == #[trigger] g(x, y) by {
            let p = a.at(y);
            let q = b.at(x);
            assert(p * q == q * p) by (nonlinear_arith);
        }
        lemma_sum2_ext(fs, g, b.len(), a.len());
    }
    assert(a.d * b.d == b.d * a.d) by (nonlinear_arith);
    assert(conv(a, b).w =~= conv(b, a).w);
}

proof fn lemma_shift_moment(a: Dist, k: int, n: int)
    requires
        k >= 0,
        0 <= n <= a.len(),
    ensures
        sum_to(|v: int| v * shift_dist(a, k).at(v), k + n) == sum_to(|u: int| (u + k) * a.at(u), n),
    decreases n,
{
    let s = shift_dist(a, k);
    if n == 0 {
        lemma_sum_zero(|v: int| v * s.at(v), k);
    } else {
        lemma_shift_moment(a, k, n - 1);
        assert(s.at(k + n - 1) == a.at(n - 1));
    }
}

/// Adding `k` to every outcome adds `k` to the mean: over the common
/// denominator, the weighted sum grows by `k` times the total weight. With
/// the contracts of `shift` and `mean`, the mean of `shift(a, k)` is the
/// mean of `a` plus `k` for a complete table.
pub proof fn lemma_mean_shift(a: Dist, k: int)
    requires
        k >= 0,
    ensures
        shift_dist(a, k).d == a.d,
        mean_num(shift_dist(a, k)) == mean_num(a) + k * a.total(),
        a.is_proper() ==> mean_num(shift_dist(a, k)) == mean_num(a) + k * a.d,
{
    lemma_shift_moment(a, k, a.len());
    let f = |u: int| u * a.at(u);
    let h = |u: int| a.at(u);
    let g = |u: int| k * h(u);
    assert forall|u: int| 0 <= u < a.len() implies #[trigger] ((u + k) * a.at(u)) == f(u) + g(u) by {
        let p = a.at(u);
        assert((u + k) * p == u * p + k * p) by (nonlinear_arith);
    }
    lemma_sum_ext(|u: int| (u + k) * a.at(u), |u: int| f(u) + g(u), a.len());
    lemma_sum_add(f, g, a.len());
    lemma_sum_scale(h, k, a.len());
}

/// The cumulative weights never decrease, and reach the total weight at
/// the end of the table.
pub proof fn lemma_below_monotone(a: Dist, u: int, v: int)
    requires
        a.wf(),
        0 <= u <= v <= a.len(),
    ensures
        below(a, u) <= below(a, v),
        below(a, a.len()) == a.total(),
{
    lemma_sum_prefix_le(|x: int| a.at(x), u, v);
}

/// The weight of the pairs with equal draws.
pub open spec fn tie_num(a: Dist, b: Dist) -> int {
    sum_to(|v: int| a.at(v) * b.at(v), a.len())
}

/// Of two independent draws, either the first is larger, or the second,
/// or they tie: over the product of the denominators, the three weights
/// add up to the product of the total weights (one, for proper
/// distributions). `greater_than` computes `gt_num` over that product.
pub proof fn lemma_greater_than_complement(a: Dist, b: Dist)
    ensures
        gt_num(a, b) + gt_num(b, a) + tie_num(a, b) == a.total() * b.total(),
        a.is_proper() && b.is_proper() ==> gt_num(a, b) + gt_num(b, a) + tie_num(a, b) == a.d * b.d,
{
    let n = a.len();
    let m = b.len();
    let f1 = |x: int, y: int| gt_term(a, b, x, y);
    let f2 = |x: int, y: int| if y > x { a.at(x) * b.at(y) } else { 0 };
    let f3 = |x: int, y: int| if x == y { a.at(x) * b.at(y) } else { 0 };
    let all = |x: int, y: int| a.at(x) * b.at(y);
    // the second term, with the roles of the draws exchanged
    let g = |x: int, y: int| gt_term(b, a, x, y);
    lemma_fubini(g, m, n);
    let gs = |y: int, x: int| g(x, y);
    assert forall|x: int, y: int| 0 <= x < n && 0 <= y < m implies gs(x, y) == #[trigger] f2(x, y) by {
        let p = a.at(x);
        let q = b.at(y);
        assert(q * p == p * q) by (nonlinear_arith);
    }
    lemma_sum2_ext(gs, f2, n, m);
    // the ties
    let r3 = |x: int| sum_to(|y: int| f3(x, y), m);
    assert forall|x: int| 0 <= x < n implies #[trigger] r3(x) == a.at(x) * b.at(x) by {
        if x < m {
            lemma_sum_single(|y: int| f3(x, y), x, m);
        } else {
            lemma_sum_zero(|y: int| f3(x, y), m);
        }
    }
    lemma_sum_ext(r3, |v: int| a.at(v) * b.at(v), n);
    // the three cases cover every pair once
    lemma_sum2_add(f1, f2, n, m);
    let f12 = |x: int, y: int| f1(x, y) + f2(x, y);
    lemma_sum2_add(f12, f3, n, m);
    lemma_sum2_ext(|x: int, y: int| f12(x, y) + f3(x, y), all, n, m);
    lemma_sum2_product(|x: int| a.at(x), |y: int| b.at(y), n, m);
    lemma_sum2_ext(all, |x: int, y: int| (|x: int| a.at(x))(x) * (|y: int| b.at(y))(y), n, m);
}


spec fn max_moment_term(a: Dist, m: int, x: int, y: int) -> int {
    m * max_term(a, m, x, y)
}

spec fn max_moment_row(a: Dist, m: int, x: int) -> int {
    sum_to(|y: int| max_moment_term(a, m, x, y), a.len())
}

spec fn pair_max(a: Dist, x: int, y: int) -> int {
    (if x > y { x } else { y }) * (a.at(x) * a.at(y))
}

/// For one first draw `x`, the moment of the maximum summed over the
/// second draw.
proof fn lemma_max_moment_column(a: Dist, x: int)
    requires
        0 <= x < a.len(),
    ensures
        sum_to(|m: int| max_moment_row(a, m, x), a.len()) == sum_to(|y: int| pair_max(a, x, y), a.len()),
{
    let n = a.len();
    let g = |m: int, y: int| max_moment_term(a, m, x, y);
    lemma_fubini(g, n, n);
    let rg = |m: int| sum_to(|y: int| g(m, y), n);
    assert forall|m: int| 0 <= m < n implies #[trigger] rg(m) == max_moment_row(a, m, x) by {
        lemma_sum_ext(|y: int| g(m, y), |y: int| max_moment_term(a, m, x, y), n);
    }
    lemma_sum_ext(rg, |m: int| max_moment_row(a, m, x), n);
    let gs = |y: int, m: int| g(m, y);
    let cs = |y: int| sum_to(|m: int| gs(y, m), n);
    assert forall|y: int| 0 <= y < n implies #[trigger] cs(y) == pair_max(a, x, y) by {
        let top = if x > y { x } else { y };
        lemma_sum_single(|m: int| gs(y, m), top, n);
    }
    lemma_sum_ext(cs, |y: int| pair_max(a, x, y), n);
}

/// Taking the better of two rolls never lowers the mean (`best_of_two`
/// computes `max_dist`): over the common
/// denominator, the weighted sum of the maximum is at least the weighted
/// sum of one roll times the total weight.
pub proof fn lemma_best_of_two_mean(a: Dist)
    requires
        a.wf(),
    ensures
        max_dist(a).d == a.d * a.d,
        mean_num(max_dist(a)) >= mean_num(a) * a.total(),
        a.is_proper() ==> mean_num(max_dist(a)) >= mean_num(a) * a.d,
{
    let n = a.len();
    let b = max_dist(a);
    let outer = |m: int| sum_to(|x: int| max_moment_row(a, m, x), n);
    assert forall|m: int| 0 <= m < n implies #[trigger] (m * b.at(m)) == outer(m) by {
        let f = |x: int, y: int| max_term(a, m, x, y);
        lemma_sum2_scale(f, m, n, n);
        let h = |x: int, y: int| m * f(x, y);
        let rh = |x: int| sum_to(|y: int| h(x, y), n);
        assert forall|x: int| 0 <= x < n implies #[trigger] rh(x) == max_moment_row(a, m, x) by {
            lemma_sum_ext(|y: int| h(x, y), |y: int| max_moment_term(a, m, x, y), n);
        }
        lemma_sum_ext(rh, |x: int| max_moment_row(a, m, x), n);
    }
    lemma_sum_ext(|v: int| v * b.at(v), outer, n);
    let big = |m: int, x: int| max_moment_row(a, m, x);
    lemma_fubini(big, n, n);
    let rb = |m: int| sum_to(|x: int| big(m, x), n);
    assert forall|m: int| 0 <= m < n implies #[trigger] rb(m) == outer(m) by {
        lemma_sum_ext(|x: int| big(m, x), |x: int| max_moment_row(a, m, x), n);
    }
    lemma_sum_ext(rb, outer, n);
    let bs = |x: int, m: int| big(m, x);
    let hmax = |x: int, y: int| pair_max(a, x, y);
    let cb = |x: int| sum_to(|m: int| bs(x, m), n);
    let ch = |x: int| sum_to(|y: int| hmax(x, y), n);
    assert forall|x: int| 0 <= x < n implies #[trigger] cb(x) == ch(x) by {
        lemma_sum_ext(|m: int| bs(x, m), |m: int| max_moment_row(a, m, x), n);
        lemma_max_moment_column(a, x);
        lemma_sum_ext(|y: int| hmax(x, y), |y: int| pair_max(a, x, y), n);
    }
    lemma_sum_ext(cb, ch, n);
    let fx = |x: int| x * a.at(x);
    let gy = |y: int| a.at(y);
    let low = |x: int, y: int| fx(x) * gy(y);
    assert forall|x: int, y: int| 0 <= x < n && 0 <= y < n implies #[trigger] low(x, y) <= hmax(x, y) by {
        let p = a.at(x);
        let q = a.at(y);
        let top = if x > y { x } else { y };
        assert(a.w[x] >= 0 && a.w[y] >= 0);
        assert((x * p) * q <= top * (p * q)) by (nonlinear_arith)
            requires p >= 0, q >= 0, x <= top, x >= 0;
    }
    lemma_sum2_mono(low, hmax, n, n);
    lemma_sum2_product(fx, gy, n, n);
    lemma_sum_ext(fx, |v: int| v * a.at(v), n);
}

/// The squared mean never exceeds the second moment times the total
/// weight; so over the common denominator the variance is never negative.
pub proof fn lemma_variance_nonneg(a: Dist)
    requires
        a.wf(),
    ensures
        mean_num(a) * mean_num(a) <= a.total() * square_num(a),
        mean_num(a) * mean_num(a) <= a.d * square_num(a),
{
    let n = a.len();
    let w = |x: int| a.at(x);
    let xw = |x: int| x * a.at(x);
    let xxw = |x: int| x * x * a.at(x);
    let t = a.total();
    let m = mean_num(a);
    let s2 = square_num(a);
    let f1 = |x: int, y: int| xxw(x) * w(y);
    let f2 = |x: int, y: int| xw(x) * xw(y);
    let f3 = |x: int, y: int| w(x) * xxw(y);
    lemma_sum2_product(xxw, w, n, n);
    lemma_sum2_product(xw, xw, n, n);
    lemma_sum2_product(w, xxw, n, n);
    lemma_sum_ext(xxw, |v: int| v * v * a.at(v), n);
    lemma_sum_ext(xw, |v: int| v * a.at(v), n);
    let g2 = |x: int, y: int| (-2) * f2(x, y);
    lemma_sum2_scale(f2, -2, n, n);
    lemma_sum2_add(f1, g2, n, n);
    let f12 = |x: int, y: int| f1(x, y) + g2(x, y);
    lemma_sum2_add(f12, f3, n, n);
    let sq = |x: int, y: int| (x - y) * (x - y) * (a.at(x) * a.at(y));
    assert forall|x: int, y: int| 0 <= x < n && 0 <= y < n implies #[trigger] sq(x, y) == f12(x, y) + f3(x, y)
        && sq(x, y) >= 0 by {
        let p = a.at(x);
        let q = a.at(y);
        assert(a.w[x] >= 0 && a.w[y] >= 0);
        let r = p * q;
        assert((x - y) * (x - y) == x * x - 2 * (x * y) + y * y) by (nonlinear_arith);
        let xx = x * x;
        let xy = x * y;
        let yy = y * y;
        assert((xx - 2 * xy + yy) * r == xx * r - 2 * (xy * r) + yy * r) by (nonlinear_arith);
        assert(xx * r == x * x * p * q) by (nonlinear_arith)
            requires xx == x * x, r == p * q;
        assert(xy * r == (x * p) * (y * q)) by (nonlinear_arith)
            requires xy == x * y, r == p * q;
        assert(yy * r == p * (y * y * q)) by (nonlinear_arith)
            requires yy == y * y, r == p * q;
        assert((x - y) * (x - y) * (p * q) >= 0) by (nonlinear_arith)
            requires p >= 0, q >= 0;
    }
    lemma_sum2_ext(sq, |x: int, y: int| f12(x, y) + f3(x, y), n, n);
    lemma_sum2_nonneg(sq, n, n);
    assert(m * m <= t * s2) by (nonlinear_arith)
        requires
            s2 * t + (-2) * (m * m) + t * s2 >= 0;
    crate::sums::lemma_sum_nonneg(|v: int| v * v * a.at(v), n);
    assert(t * s2 <= a.d * s2) by (nonlinear_arith)
        requires t <= a.d, s2 >= 0;
}

/// The numerator of the variance of `a` over the cube of its denominator:
/// `sum of w(v) * (d * v - M)^2` with `M` the weighted sum of the values,
/// which is `d^2 * S - 2 * d * M^2 + T * M^2` for the second moment `S` and
/// the total weight `T`.
pub open spec fn variance_num(a: Dist) -> int {
    let m = mean_num(a);
    a.d * a.d * square_num(a) - 2 * a.d * (m * m) + a.total() * (m * m)
}

/// The variance is a weighted sum of squares, so it is never negative.
pub proof fn lemma_variance_num_nonneg(a: Dist)
    requires
        a.wf(),
    ensures
        variance_num(a) == sum_to(
            |v: int| a.at(v) * ((a.d * v - mean_num(a)) * (a.d * v - mean_num(a))),
            a.len(),
        ),
        variance_num(a) >= 0,
{
    let n = a.len();
    let d = a.d;
    let m = mean_num(a);
    let ws = |v: int| v * v * a.at(v);
    let wm = |v: int| v * a.at(v);
    let w = |v: int| a.at(v);
    let g1 = |i: int| (d * d) * ws(i);
    let g2 = |i: int| (-2 * d * m) * wm(i);
    let g3 = |i: int| (m * m) * w(i);
    let f = |v: int| a.at(v) * ((d * v - m) * (d * v - m));
    lemma_sum_scale(ws, d * d, n);
    lemma_sum_scale(wm, -2 * d * m, n);
    lemma_sum_scale(w, m * m, n);
    lemma_sum_ext(ws, |v: int| v * v * a.at(v), n);
    lemma_sum_ext(wm, |v: int| v * a.at(v), n);
    lemma_sum_add(g1, g2, n);
    let g12 = |i: int| g1(i) + g2(i);
    lemma_sum_add(g12, g3, n);
    assert forall|v: int| 0 <= v < n implies #[trigger] f(v) == g12(v) + g3(v) && f(v) >= 0 by {
        let p = a.at(v);
        assert(a.w[v] >= 0);
        let e = d * v;
        assert((e - m) * (e - m) == e * e - 2 * e * m + m * m) by (nonlinear_arith);
        assert(e * e == d * d * (v * v)) by (nonlinear_arith)
            requires e == d * v;
        let q = (e - m) * (e - m);
        assert(p * q == p * (e * e) - 2 * m * (p * e) + (m * m) * p) by (nonlinear_arith)
            requires q == e * e - 2 * e * m + m * m;
        assert(p * (e * e) == (d * d) * (v * v * p)) by (nonlinear_arith)
            requires e * e == d * d * (v * v);
        assert(2 * m * (p * e) == 2 * d * m * (v * p)) by (nonlinear_arith)
            requires e == d * v;
        assert((-2 * d * m) * (v * p) == -(2 * d * m * (v * p))) by (nonlinear_arith);
        assert(p * q >= 0) by (nonlinear_arith)
            requires p >= 0, q == (e - m) * (e - m);
    }
    lemma_sum_ext(f, |i: int| g12(i) + g3(i), n);
    crate::sums::lemma_sum_nonneg(f, n);
    let sq = square_num(a);
    let t = a.total();
    assert((d * d) * sq + (-2 * d * m) * m + (m * m) * t == d * d * sq - 2 * d * (m * m) + t * (m * m))
        by (nonlinear_arith);
}
} // verus!
