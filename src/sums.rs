use vstd::prelude::*;

verus! {

/// `f(0) + f(1) + ... + f(n - 1)`, and zero when `n <= 0`.
pub open spec fn sum_to(f: spec_fn(int) -> int, n: int) -> int
    decreases n,
{
    if n <= 0 {
        0
    } else {
        sum_to(f, n - 1) + f(n - 1)
    }
}

/// The sum of `f(x, y)` over `0 <= x < n` and `0 <= y < m`, rows first.
pub open spec fn sum2(f: spec_fn(int, int) -> int, n: int, m: int) -> int {
    sum_to(|x: int| sum_to(|y: int| f(x, y), m), n)
}

pub proof fn lemma_sum_ext(f: spec_fn(int) -> int, g: spec_fn(int) -> int, n: int)
    requires
        forall|i: int| 0 <= i < n ==> #[trigger] f(i) == g(i),
    ensures
        sum_to(f, n) == sum_to(g, n),
    decreases n,
{
    if n > 0 {
        lemma_sum_ext(f, g, n - 1);
    }
}

pub proof fn lemma_sum_nonneg(f: spec_fn(int) -> int, n: int)
    requires
        forall|i: int| 0 <= i < n ==> #[trigger] f(i) >= 0,
    ensures
        sum_to(f, n) >= 0,
    decreases n,
{
    if n > 0 {
        lemma_sum_nonneg(f, n - 1);
    }
}

pub proof fn lemma_sum_mono(f: spec_fn(int) -> int, g: spec_fn(int) -> int, n: int)
    requires
        forall|i: int| 0 <= i < n ==> #[trigger] f(i) <= g(i),
    ensures
        sum_to(f, n) <= sum_to(g, n),
    decreases n,
{
    if n > 0 {
        lemma_sum_mono(f, g, n - 1);
    }
}

pub proof fn lemma_sum_add(f: spec_fn(int) -> int, g: spec_fn(int) -> int, n: int)
    ensures
        sum_to(|i: int| f(i) + g(i), n) == sum_to(f, n) + sum_to(g, n),
    decreases n,
{
    if n > 0 {
        lemma_sum_add(f, g, n - 1);
    }
}

pub proof fn lemma_sum_scale(f: spec_fn(int) -> int, c: int, n: int)
    ensures
        sum_to(|i: int| c * f(i), n) == c * sum_to(f, n),
    decreases n,
{
    if n > 0 {
        lemma_sum_scale(f, c, n - 1);
        let s = sum_to(f, n - 1);
        let t = f(n - 1);
        assert(c * (s + t) == c * s + c * t) by (nonlinear_arith);
    }
}

/// A partial sum of non-negative terms is at most the full sum.
pub proof fn lemma_sum_prefix_le(f: spec_fn(int) -> int, i: int, n: int)
    requires
        0 <= i <= n,
        forall|k: int| 0 <= k < n ==> #[trigger] f(k) >= 0,
    ensures
        sum_to(f, i) <= sum_to(f, n),
    decreases n - i,
{
    if i < n {
        lemma_sum_prefix_le(f, i, n - 1);
    }
}

/// One non-negative term is at most the sum of all of them.
pub proof fn lemma_term_le_sum(f: spec_fn(int) -> int, k: int, n: int)
    requires
        0 <= k < n,
        forall|i: int| 0 <= i < n ==> #[trigger] f(i) >= 0,
    ensures
        f(k) <= sum_to(f, n),
{
    lemma_sum_nonneg(f, k);
    lemma_sum_prefix_le(f, k + 1, n);
}

/// Changing one term changes the sum by the difference.
pub proof fn lemma_sum_update(f: spec_fn(int) -> int, g: spec_fn(int) -> int, k: int, n: int)
    requires
        0 <= k < n,
        forall|i: int| 0 <= i < n && i != k ==> #[trigger] f(i) == g(i),
    ensures
        sum_to(g, n) == sum_to(f, n) - f(k) + g(k),
    decreases n,
{
    if n - 1 == k {
        lemma_sum_ext(f, g, n - 1);
    } else {
        lemma_sum_update(f, g, k, n - 1);
    }
}

/// A sum whose terms all vanish is zero.
pub proof fn lemma_sum_zero(f: spec_fn(int) -> int, n: int)
    requires
        forall|i: int| 0 <= i < n ==> #[trigger] f(i) == 0,
    ensures
        sum_to(f, n) == 0,
    decreases n,
{
    if n > 0 {
        lemma_sum_zero(f, n - 1);
    }
}

/// A sum with a single term that may be non-zero equals that term.
pub proof fn lemma_sum_single(f: spec_fn(int) -> int, k: int, n: int)
    requires
        0 <= k < n,
        forall|i: int| 0 <= i < n && i != k ==> #[trigger] f(i) == 0,
    ensures
        sum_to(f, n) == f(k),
{
    let z = |i: int| 0int;
    lemma_sum_zero(z, n);
    lemma_sum_update(z, f, k, n);
}

/// Terms at or past `n` that vanish do not change the sum.
pub proof fn lemma_sum_tail_zero(f: spec_fn(int) -> int, n: int, m: int)
    requires
        0 <= n <= m,
        forall|i: int| n <= i < m ==> #[trigger] f(i) == 0,
    ensures
        sum_to(f, m) == sum_to(f, n),
    decreases m - n,
{
    if n < m {
        lemma_sum_tail_zero(f, n, m - 1);
    }
}

/// The order of summation of a finite double sum does not matter.
pub proof fn lemma_fubini(f: spec_fn(int, int) -> int, n: int, m: int)
    requires
        n >= 0,
    ensures
        sum2(f, n, m) == sum2(|y: int, x: int| f(x, y), m, n),
    decreases n,
{
    let g = |y: int, x: int| f(x, y);
    if n > 0 {
        lemma_fubini(f, n - 1, m);
        let prev = |y: int| sum_to(|x: int| g(y, x), n - 1);
        let last = |y: int| f(n - 1, y);
        let full = |y: int| sum_to(|x: int| g(y, x), n);
        lemma_sum_add(prev, last, m);
        assert forall|y: int| 0 <= y < m implies #[trigger] full(y) == prev(y) + last(y) by {}
        lemma_sum_ext(full, |y: int| prev(y) + last(y), m);
        assert(sum2(g, m, n) == sum_to(full, m));
        assert(sum2(g, m, n - 1) == sum_to(prev, m));
        assert(sum2(f, n, m) == sum2(f, n - 1, m) + sum_to(last, m));
    } else {
        lemma_sum_zero(|y: int| sum_to(|x: int| g(y, x), n), m);
    }
}

/// A sum of products in which one factor does not depend on the inner index.
pub proof fn lemma_sum2_product(f: spec_fn(int) -> int, g: spec_fn(int) -> int, n: int, m: int)
    ensures
        sum2(|x: int, y: int| f(x) * g(y), n, m) == sum_to(f, n) * sum_to(g, m),
    decreases n,
{
    if n > 0 {
        lemma_sum2_product(f, g, n - 1, m);
        lemma_sum_scale(g, f(n - 1), m);
        lemma_sum_ext(|y: int| f(n - 1) * g(y), |y: int| (|x: int, y: int| f(x) * g(y))(n - 1, y), m);
        let a = sum_to(f, n - 1);
        let b = sum_to(g, m);
        let c = f(n - 1);
        assert(a * b + c * b == (a + c) * b) by (nonlinear_arith);
    }
}


pub proof fn lemma_sum2_ext(f: spec_fn(int, int) -> int, g: spec_fn(int, int) -> int, n: int, m: int)
    requires
        forall|x: int, y: int| 0 <= x < n && 0 <= y < m ==> #[trigger] f(x, y) == g(x, y),
    ensures
        sum2(f, n, m) == sum2(g, n, m),
{
    let rf = |x: int| sum_to(|y: int| f(x, y), m);
    let rg = |x: int| sum_to(|y: int| g(x, y), m);
    assert forall|x: int| 0 <= x < n implies #[trigger] rf(x) == rg(x) by {
        lemma_sum_ext(|y: int| f(x, y), |y: int| g(x, y), m);
    }
    lemma_sum_ext(rf, rg, n);
}

pub proof fn lemma_sum2_mono(f: spec_fn(int, int) -> int, g: spec_fn(int, int) -> int, n: int, m: int)
    requires
        forall|x: int, y: int| 0 <= x < n && 0 <= y < m ==> #[trigger] f(x, y) <= g(x, y),
    ensures
        sum2(f, n, m) <= sum2(g, n, m),
{
    let rf = |x: int| sum_to(|y: int| f(x, y), m);
    let rg = |x: int| sum_to(|y: int| g(x, y), m);
    assert forall|x: int| 0 <= x < n implies #[trigger] rf(x) <= rg(x) by {
        lemma_sum_mono(|y: int| f(x, y), |y: int| g(x, y), m);
    }
    lemma_sum_mono(rf, rg, n);
}

pub proof fn lemma_sum2_add(f: spec_fn(int, int) -> int, g: spec_fn(int, int) -> int, n: int, m: int)
    ensures
        sum2(|x: int, y: int| f(x, y) + g(x, y), n, m) == sum2(f, n, m) + sum2(g, n, m),
{
    let h = |x: int, y: int| f(x, y) + g(x, y);
    let rf = |x: int| sum_to(|y: int| f(x, y), m);
    let rg = |x: int| sum_to(|y: int| g(x, y), m);
    let rh = |x: int| sum_to(|y: int| h(x, y), m);
    assert forall|x: int| 0 <= x < n implies #[trigger] rh(x) == rf(x) + rg(x) by {
        lemma_sum_add(|y: int| f(x, y), |y: int| g(x, y), m);
        lemma_sum_ext(|y: int| h(x, y), |y: int| (|y: int| f(x, y))(y) + (|y: int| g(x, y))(y), m);
    }
    lemma_sum_ext(rh, |x: int| rf(x) + rg(x), n);
    lemma_sum_add(rf, rg, n);
}

pub proof fn lemma_sum2_scale(f: spec_fn(int, int) -> int, c: int, n: int, m: int)
    ensures
        sum2(|x: int, y: int| c * f(x, y), n, m) == c * sum2(f, n, m),
{
    let h = |x: int, y: int| c * f(x, y);
    let rf = |x: int| sum_to(|y: int| f(x, y), m);
    let rh = |x: int| sum_to(|y: int| h(x, y), m);
    assert forall|x: int| 0 <= x < n implies #[trigger] rh(x) == c * rf(x) by {
        lemma_sum_scale(|y: int| f(x, y), c, m);
        lemma_sum_ext(|y: int| h(x, y), |i: int| c * (|y: int| f(x, y))(i), m);
    }
    lemma_sum_ext(rh, |i: int| c * rf(i), n);
    lemma_sum_scale(rf, c, n);
}

pub proof fn lemma_sum2_nonneg(f: spec_fn(int, int) -> int, n: int, m: int)
    requires
        forall|x: int, y: int| 0 <= x < n && 0 <= y < m ==> #[trigger] f(x, y) >= 0,
    ensures
        sum2(f, n, m) >= 0,
{
    let rf = |x: int| sum_to(|y: int| f(x, y), m);
    assert forall|x: int| 0 <= x < n implies #[trigger] rf(x) >= 0 by {
        lemma_sum_nonneg(|y: int| f(x, y), m);
    }
    lemma_sum_nonneg(rf, n);
}
} // verus!
