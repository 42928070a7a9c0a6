use vstd::prelude::*;
use crate::combat::Die;
use crate::sums::{
    lemma_sum_add, lemma_sum_ext, lemma_sum_nonneg, lemma_sum_prefix_le, lemma_sum_scale,
    lemma_sum_tail_zero, lemma_sum_update, lemma_sum_zero, lemma_term_le_sum, sum2, sum_to,
};

verus! {

/// A distribution over damage values `0, 1, 2, ...`: the value `v` has
/// probability `w[v] / d`, and values past the end of `w` have none.
pub struct Dist {
    pub w: Seq<int>,
    pub d: int,
}

impl Dist {
    pub open spec fn len(self) -> int {
        self.w.len() as int
    }

    /// The weight of the value `v`, zero outside the table.
    pub open spec fn at(self, v: int) -> int {
        if 0 <= v < self.w.len() {
            self.w[v]
        } else {
            0
        }
    }

    pub open spec fn total(self) -> int {
        sum_to(|v: int| self.at(v), self.len())
    }

    /// Weights are non-negative and at most the denominator in all.
    pub open spec fn wf(self) -> bool {
        &&& self.d > 0
        &&& forall|v: int| 0 <= v < self.len() ==> #[trigger] self.w[v] >= 0
        &&& self.total() <= self.d
    }

    /// A complete outcome space: the probabilities add up to one.
    pub open spec fn is_proper(self) -> bool {
        self.wf() && self.total() == self.d
    }
}

/// The certain outcome zero, the unit of convolution.
pub open spec fn unit_dist() -> Dist {
    Dist { w: seq![1int], d: 1 }
}

/// A fair die with `sides` faces numbered from one.
pub open spec fn die_dist(sides: int) -> Dist {
    Dist { w: Seq::new((sides + 1) as nat, |v: int| if v == 0 { 0int } else { 1int }), d: sides }
}

/// The part of `P(A + B = k)` that the pair `(x, y)` contributes.
pub open spec fn conv_term(a: Dist, b: Dist, k: int, x: int, y: int) -> int {
    if x + y == k {
        a.at(x) * b.at(y)
    } else {
        0
    }
}

pub open spec fn conv_at(a: Dist, b: Dist, k: int) -> int {
    sum2(|x: int, y: int| conv_term(a, b, k, x, y), a.len(), b.len())
}

pub open spec fn conv_len(a: Dist, b: Dist) -> int {
    if a.len() == 0 || b.len() == 0 {
        0
    } else {
        a.len() + b.len() - 1
    }
}

/// The distribution of the sum of two independent values.
pub open spec fn conv(a: Dist, b: Dist) -> Dist {
    Dist { w: Seq::new(conv_len(a, b) as nat, |k: int| conv_at(a, b, k)), d: a.d * b.d }
}

/// The left fold of `conv` over `s`, starting from the unit: the
/// distribution of the sum of independent draws, one from each.
pub open spec fn conv_many(s: Seq<Dist>) -> Dist
    decreases s.len(),
{
    if s.len() == 0 {
        unit_dist()
    } else {
        conv(conv_many(s.drop_last()), s.last())
    }
}

pub open spec fn denom_product(s: Seq<Dist>) -> int
    decreases s.len(),
{
    if s.len() == 0 {
        1
    } else {
        denom_product(s.drop_last()) * s.last().d
    }
}

pub open spec fn len_sum(s: Seq<Dist>) -> int
    decreases s.len(),
{
    if s.len() == 0 {
        0
    } else {
        len_sum(s.drop_last()) + s.last().len()
    }
}

pub open spec fn views(s: Seq<Pmf>) -> Seq<Dist> {
    s.map_values(|p: Pmf| p@)
}

pub proof fn lemma_conv_many_denom(s: Seq<Dist>)
    ensures
        conv_many(s).d == denom_product(s),
    decreases s.len(),
{
    if s.len() > 0 {
        lemma_conv_many_denom(s.drop_last());
    }
}

/// With every denominator positive, a prefix has the smaller product.
pub proof fn lemma_denom_product_prefix(s: Seq<Dist>, i: int)
    requires
        0 <= i <= s.len(),
        forall|t: int| 0 <= t < s.len() ==> #[trigger] s[t].d >= 1,
    ensures
        1 <= denom_product(s.take(i)) <= denom_product(s),
    decreases s.len(),
{
    if s.len() > 0 {
        let j = if i == s.len() { i - 1 } else { i };
        lemma_denom_product_prefix(s.drop_last(), j);
        assert(s.drop_last().take(j) =~= s.take(j));
        let p = denom_product(s.drop_last());
        let q = s.last().d;
        assert(p <= p * q) by (nonlinear_arith)
            requires p >= 1, q >= 1;
        if i == s.len() {
            assert(s.take(i) =~= s);
        }
    }
}

pub proof fn lemma_len_sum_prefix(s: Seq<Dist>, i: int)
    requires
        0 <= i <= s.len(),
    ensures
        0 <= len_sum(s.take(i)) <= len_sum(s),
    decreases s.len(),
{
    if s.len() > 0 {
        let j = if i == s.len() { i - 1 } else { i };
        lemma_len_sum_prefix(s.drop_last(), j);
        assert(s.drop_last().take(j) =~= s.take(j));
        if i == s.len() {
            assert(s.take(i) =~= s);
        }
    }
}

pub open spec fn ints(s: Seq<u128>) -> Seq<int> {
    s.map_values(|x: u128| x as int)
}

/// Probabilities as integer weights over one common denominator.
#[derive(Debug, Clone)]
pub struct Pmf {
    pub weights: Vec<u128>,
    pub denom: u128,
}

impl View for Pmf {
    type V = Dist;

    open spec fn view(&self) -> Dist {
        Dist { w: ints(self.weights@), d: self.denom as int }
    }
}

pub open spec fn seq_total(s: Seq<int>) -> int {
    sum_to(|i: int| s[i], s.len() as int)
}

pub proof fn lemma_total_is_seq_total(a: Dist)
    ensures
        a.total() == seq_total(a.w),
{
    lemma_sum_ext(|v: int| a.at(v), |i: int| a.w[i], a.len());
}

/// Setting one entry moves the sum by the difference.
pub proof fn lemma_seq_total_update(s: Seq<int>, k: int, x: int)
    requires
        0 <= k < s.len(),
    ensures
        seq_total(s.update(k, x)) == seq_total(s) - s[k] + x,
{
    let t = s.update(k, x);
    lemma_sum_update(|i: int| s[i], |i: int| t[i], k, s.len() as int);
}

pub proof fn lemma_seq_entry_le_total(s: Seq<int>, k: int)
    requires
        0 <= k < s.len(),
        forall|i: int| 0 <= i < s.len() ==> #[trigger] s[i] >= 0,
    ensures
        s[k] <= seq_total(s),
{
    lemma_term_le_sum(|i: int| s[i], k, s.len() as int);
}

pub proof fn lemma_entry_le_total(a: Dist, k: int)
    requires
        0 <= k < a.len(),
        forall|i: int| 0 <= i < a.len() ==> #[trigger] a.w[i] >= 0,
    ensures
        a.w[k] <= a.total(),
{
    lemma_total_is_seq_total(a);
    lemma_seq_entry_le_total(a.w, k);
}

/// The distribution of one roll of `die`.
pub fn die_pmf(die: Die) -> (r: Pmf)
    ensures
        r@ == die_dist(die.spec_sides()),
        r@.is_proper(),
{
    let sides = die.sides();
    let mut weights: Vec<u128> = Vec::new();
    weights.push(0);
    let mut v: u32 = 1;
    while v <= sides
        invariant
            sides == die.spec_sides(),
            1 <= v <= sides + 1,
            weights.len() == v,
            forall|i: int| 0 <= i < v ==> #[trigger] weights@[i] == if i == 0 { 0u128 } else { 1u128 },
        decreases sides + 1 - v,
    {
        weights.push(1);
        v += 1;
    }
    let r = Pmf { weights, denom: sides as u128 };
    proof {
        assert(r@.w =~= die_dist(sides as int).w);
        lemma_die_proper(sides as int);
    }
    r
}

/// A fair die is a complete outcome space.
pub proof fn lemma_die_proper(sides: int)
    requires
        sides >= 1,
    ensures
        die_dist(sides).is_proper(),
{
    let a = die_dist(sides);
    let ones = |i: int| if i == 0 { 0int } else { 1int };
    lemma_ones(sides + 1);
    lemma_sum_ext(|v: int| a.at(v), ones, a.len());
}

proof fn lemma_ones(n: int)
    requires
        n >= 0,
    ensures
        sum_to(|i: int| if i == 0 { 0int } else { 1int }, n) == if n == 0 { 0 } else { n - 1 },
    decreases n,
{
    if n > 0 {
        lemma_ones(n - 1);
    }
}


pub open spec fn conv_row(a: Dist, b: Dist, k: int, x: int, m: int) -> int {
    sum_to(|y: int| conv_term(a, b, k, x, y), m)
}

pub open spec fn conv_rows(a: Dist, b: Dist, k: int, i: int) -> int {
    sum_to(|x: int| conv_row(a, b, k, x, b.len()), i)
}

proof fn lemma_conv_rows(a: Dist, b: Dist, k: int)
    ensures
        conv_at(a, b, k) == conv_rows(a, b, k, a.len()),
{
    let f = |x: int, y: int| conv_term(a, b, k, x, y);
    assert forall|x: int| 0 <= x < a.len() implies #[trigger] conv_row(a, b, k, x, b.len()) == sum_to(
        |y: int| f(x, y),
        b.len(),
    ) by {
        lemma_sum_ext(|y: int| conv_term(a, b, k, x, y), |y: int| f(x, y), b.len());
    }
    lemma_sum_ext(|x: int| conv_row(a, b, k, x, b.len()), |x: int| sum_to(|y: int| f(x, y), b.len()), a.len());
}

proof fn lemma_zeros_total(s: Seq<int>)
    requires
        forall|i: int| 0 <= i < s.len() ==> #[trigger] s[i] == 0,
    ensures
        seq_total(s) == 0,
{
    lemma_sum_zero(|i: int| s[i], s.len() as int);
}

/// A table of `len` zero weights.
fn zeros(len: usize) -> (r: Vec<u128>)
    ensures
        r.len() == len,
        forall|i: int| 0 <= i < len ==> #[trigger] r@[i] == 0,
{
    let mut r: Vec<u128> = Vec::new();
    let mut i: usize = 0;
    while i < len
        invariant
            i <= len,
            r.len() == i,
            forall|t: int| 0 <= t < i ==> #[trigger] r@[t] == 0,
        decreases len - i,
    {
        r.push(0);
        i += 1;
    }
    r
}

/// The distribution of the sum of two independent values drawn from `a`
/// and `b`: each pair of outcomes adds the product of its probabilities to
/// the bucket of its sum.
pub fn convolve(a: &Pmf, b: &Pmf) -> (r: Pmf)
    requires
        a@.wf(),
        b@.wf(),
        a@.d * b@.d <= u128::MAX,
        a.weights.len() + b.weights.len() <= usize::MAX,
    ensures
        r@ == conv(a@, b@),
        r@.wf(),
        r@.total() == a@.total() * b@.total(),
{
    let ghost ga = a@;
    let ghost gb = b@;
    let n = a.weights.len();
    let m = b.weights.len();
    let denom = a.denom * b.denom;
    proof {
        assert(ga.d * gb.d >= 1) by (nonlinear_arith)
            requires ga.d >= 1, gb.d >= 1;
    }
    if n == 0 || m == 0 {
        let r = Pmf { weights: Vec::new(), denom };
        proof {
            assert(r@.w =~= conv(ga, gb).w);
            if n == 0 {
                assert(ga.total() == 0);
            } else {
                assert(gb.total() == 0);
            }
        }
        return r;
    }
    let len = n + m - 1;
    let mut w = zeros(len);
    let ghost sa = ga.total();
    let ghost sb = gb.total();
    proof {
        assert forall|k: int| 0 <= k < len implies #[trigger] w@[k] as int == conv_rows(ga, gb, k, 0) by {}
        lemma_zeros_total(ints(w@));
    }
    let mut i: usize = 0;
    while i < n
        invariant
            ga == a@,
            gb == b@,
            n == a.weights.len(),
            m == b.weights.len(),
            len == n + m - 1,
            n >= 1,
            m >= 1,
            ga.wf(),
            gb.wf(),
            sa == ga.total(),
            sb == gb.total(),
            ga.d * gb.d <= u128::MAX,
            0 <= i <= n,
            w.len() == len,
            forall|k: int| 0 <= k < len ==> #[trigger] w@[k] as int == conv_rows(ga, gb, k, i as int),
            seq_total(ints(w@)) == sum_to(|x: int| ga.at(x), i as int) * sb,
        decreases n - i,
    {
        let ai = a.weights[i];
        let mut j: usize = 0;
        let ghost pa = sum_to(|x: int| ga.at(x), i as int);
        proof {
            assert forall|k: int| 0 <= k < len implies #[trigger] w@[k] as int == conv_rows(ga, gb, k, i as int)
                + conv_row(ga, gb, k, i as int, 0) by {}
            lemma_sum_nonneg(|x: int| ga.at(x), i as int);
            lemma_sum_prefix_le(|x: int| ga.at(x), i as int + 1, n as int);
            lemma_sum_nonneg(|y: int| gb.at(y), m as int);
        }
        while j < m
            invariant
                ga == a@,
                gb == b@,
                n == a.weights.len(),
                m == b.weights.len(),
                len == n + m - 1,
                ga.wf(),
                gb.wf(),
                sa == ga.total(),
                sb == gb.total(),
                ga.d * gb.d <= u128::MAX,
                0 <= i < n,
                0 <= j <= m,
                ai == a.weights@[i as int],
                pa == sum_to(|x: int| ga.at(x), i as int),
                pa >= 0,
                pa + ai <= sa,
                sb >= 0,
                w.len() == len,
                forall|k: int| 0 <= k < len ==> #[trigger] w@[k] as int == conv_rows(ga, gb, k, i as int)
                    + conv_row(ga, gb, k, i as int, j as int),
                seq_total(ints(w@)) == pa * sb + ai * sum_to(|y: int| gb.at(y), j as int),
            decreases m - j,
        {
            let bj = b.weights[j];
            let k0 = i + j;
            let ghost pb = sum_to(|y: int| gb.at(y), j as int);
            let ghost tw = ints(w@);
            proof {
                lemma_sum_prefix_le(|y: int| gb.at(y), j as int + 1, m as int);
                lemma_sum_nonneg(|y: int| gb.at(y), j as int);
                assert(forall|t: int| 0 <= t < tw.len() ==> #[trigger] tw[t] >= 0);
                lemma_seq_entry_le_total(tw, k0 as int);
                assert(pb + bj <= sb);
                assert(sa <= ga.d && sb <= gb.d);
                let aii = ai as int;
                let bjj = bj as int;
                assert(pa * sb + aii * pb + aii * bjj <= ga.d * gb.d) by (nonlinear_arith)
                    requires
                        pa >= 0, aii >= 0, bjj >= 0, pb >= 0, sb >= 0,
                        pb + bjj <= sb, pa + aii <= sa, sa <= ga.d, sb <= gb.d;
                assert(aii * bjj <= ga.d * gb.d) by (nonlinear_arith)
                    requires
                        pa >= 0, aii >= 0, bjj >= 0, pb >= 0, pb + bjj <= sb, pa + aii <= sa, sa <= ga.d,
                        sb <= gb.d;
            }
            let add = ai * bj;
            let cur = w[k0];
            w.set(k0, cur + add);
            proof {
                assert(ints(w@) =~= tw.update(k0 as int, (cur + add) as int));
                lemma_seq_total_update(tw, k0 as int, (cur + add) as int);
                assert forall|k: int| 0 <= k < len implies #[trigger] w@[k] as int == conv_rows(ga, gb, k, i as int)
                    + conv_row(ga, gb, k, i as int, j as int + 1) by {
                    assert(conv_row(ga, gb, k, i as int, j as int + 1) == conv_row(ga, gb, k, i as int, j as int)
                        + conv_term(ga, gb, k, i as int, j as int));
                }
                let aii = ai as int;
                let bjj = bj as int;
                assert(aii * pb + aii * bjj == aii * (pb + bjj)) by (nonlinear_arith);
            }
            j += 1;
        }
        proof {
            assert forall|k: int| 0 <= k < len implies #[trigger] w@[k] as int == conv_rows(ga, gb, k, i as int + 1) by {}
            assert(sum_to(|y: int| gb.at(y), m as int) == sb);
            let aii = ai as int;
            assert(pa * sb + aii * sb == (pa + aii) * sb) by (nonlinear_arith);
        }
        i += 1;
    }
    let r = Pmf { weights: w, denom };
    proof {
        assert forall|k: int| 0 <= k < len implies #[trigger] r@.w[k] == conv_at(ga, gb, k) by {
            lemma_conv_rows(ga, gb, k);
        }
        assert(r@.w =~= conv(ga, gb).w);
        assert(sum_to(|x: int| ga.at(x), n as int) == sa);
        lemma_total_is_seq_total(r@);
        lemma_sum_nonneg(|x: int| ga.at(x), n as int);
        lemma_sum_nonneg(|y: int| gb.at(y), m as int);
        assert(sa * sb <= ga.d * gb.d) by (nonlinear_arith)
            requires 0 <= sa <= ga.d, 0 <= sb <= gb.d;
    }
    r
}


/// The part of `P(max(A, A') = k)` that the pair `(x, y)` contributes.
pub open spec fn max_term(a: Dist, k: int, x: int, y: int) -> int {
    if (if x > y { x } else { y }) == k {
        a.at(x) * a.at(y)
    } else {
        0
    }
}

pub open spec fn max_at(a: Dist, k: int) -> int {
    sum2(|x: int, y: int| max_term(a, k, x, y), a.len(), a.len())
}

/// The distribution of the larger of two independent draws from `a`.
pub open spec fn max_dist(a: Dist) -> Dist {
    Dist { w: Seq::new(a.len() as nat, |k: int| max_at(a, k)), d: a.d * a.d }
}

pub open spec fn max_row(a: Dist, k: int, x: int, m: int) -> int {
    sum_to(|y: int| max_term(a, k, x, y), m)
}

pub open spec fn max_rows(a: Dist, k: int, i: int) -> int {
    sum_to(|x: int| max_row(a, k, x, a.len()), i)
}

proof fn lemma_max_rows(a: Dist, k: int)
    ensures
        max_at(a, k) == max_rows(a, k, a.len()),
{
    let f = |x: int, y: int| max_term(a, k, x, y);
    assert forall|x: int| 0 <= x < a.len() implies #[trigger] max_row(a, k, x, a.len()) == sum_to(
        |y: int| f(x, y),
        a.len(),
    ) by {
        lemma_sum_ext(|y: int| max_term(a, k, x, y), |y: int| f(x, y), a.len());
    }
    lemma_sum_ext(|x: int| max_row(a, k, x, a.len()), |x: int| sum_to(|y: int| f(x, y), a.len()), a.len());
}

/// The distribution of the larger of two independent rolls of `a`: each
/// pair of outcomes adds the product of its probabilities to the bucket of
/// its maximum.
pub fn best_of_two(a: &Pmf) -> (r: Pmf)
    requires
        a@.wf(),
        a@.d * a@.d <= u128::MAX,
    ensures
        r@ == max_dist(a@),
        r@.wf(),
        r@.total() == a@.total() * a@.total(),
{
    let ghost ga = a@;
    let ghost gb = a@;
    let n = a.weights.len();
    let m = a.weights.len();
    let denom = a.denom * a.denom;
    proof {
        assert(ga.d * gb.d >= 1) by (nonlinear_arith)
            requires ga.d >= 1, gb.d >= 1;
    }
    if n == 0 {
        let r = Pmf { weights: Vec::new(), denom };
        proof {
            assert(r@.w =~= max_dist(ga).w);
            assert(ga.total() == 0);
        }
        return r;
    }
    let len = n;
    let mut w = zeros(len);
    let ghost sa = ga.total();
    let ghost sb = gb.total();
    proof {
        assert forall|k: int| 0 <= k < len implies #[trigger] w@[k] as int == max_rows(ga, k, 0) by {}
        lemma_zeros_total(ints(w@));
    }
    let mut i: usize = 0;
    while i < n
        invariant
            ga == a@,
            gb == a@,
            n == a.weights.len(),
            m == a.weights.len(),
            len == n,
            n == m,
            n >= 1,
            m >= 1,
            ga.wf(),
            gb.wf(),
            sa == ga.total(),
            sb == gb.total(),
            ga.d * gb.d <= u128::MAX,
            0 <= i <= n,
            w.len() == len,
            forall|k: int| 0 <= k < len ==> #[trigger] w@[k] as int == max_rows(ga, k, i as int),
            seq_total(ints(w@)) == sum_to(|x: int| ga.at(x), i as int) * sb,
        decreases n - i,
    {
        let ai = a.weights[i];
        let mut j: usize = 0;
        let ghost pa = sum_to(|x: int| ga.at(x), i as int);
        proof {
            assert forall|k: int| 0 <= k < len implies #[trigger] w@[k] as int == max_rows(ga, k, i as int)
                + max_row(ga, k, i as int, 0) by {}
            lemma_sum_nonneg(|x: int| ga.at(x), i as int);
            lemma_sum_prefix_le(|x: int| ga.at(x), i as int + 1, n as int);
            lemma_sum_nonneg(|y: int| gb.at(y), m as int);
        }
        while j < m
            invariant
                ga == a@,
                gb == a@,
                n == a.weights.len(),
                m == a.weights.len(),
                len == n,
            n == m,
                ga.wf(),
                gb.wf(),
                sa == ga.total(),
                sb == gb.total(),
                ga.d * gb.d <= u128::MAX,
                0 <= i < n,
                0 <= j <= m,
                ai == a.weights@[i as int],
                pa == sum_to(|x: int| ga.at(x), i as int),
                pa >= 0,
                pa + ai <= sa,
                sb >= 0,
                w.len() == len,
                forall|k: int| 0 <= k < len ==> #[trigger] w@[k] as int == max_rows(ga, k, i as int)
                    + max_row(ga, k, i as int, j as int),
                seq_total(ints(w@)) == pa * sb + ai * sum_to(|y: int| gb.at(y), j as int),
            decreases m - j,
        {
            let bj = a.weights[j];
            let k0 = if i > j {
                i
            } else {
                j
            };
            let ghost pb = sum_to(|y: int| gb.at(y), j as int);
            let ghost tw = ints(w@);
            proof {
                lemma_sum_prefix_le(|y: int| gb.at(y), j as int + 1, m as int);
                lemma_sum_nonneg(|y: int| gb.at(y), j as int);
                assert(forall|t: int| 0 <= t < tw.len() ==> #[trigger] tw[t] >= 0);
                lemma_seq_entry_le_total(tw, k0 as int);
                assert(pb + bj <= sb);
                assert(sa <= ga.d && sb <= gb.d);
                let aii = ai as int;
                let bjj = bj as int;
                assert(pa * sb + aii * pb + aii * bjj <= ga.d * gb.d) by (nonlinear_arith)
                    requires
                        pa >= 0, aii >= 0, bjj >= 0, pb >= 0, sb >= 0,
                        pb + bjj <= sb, pa + aii <= sa, sa <= ga.d, sb <= gb.d;
                assert(aii * bjj <= ga.d * gb.d) by (nonlinear_arith)
                    requires
                        pa >= 0, aii >= 0, bjj >= 0, pb >= 0, pb + bjj <= sb, pa + aii <= sa, sa <= ga.d,
                        sb <= gb.d;
            }
            let add = ai * bj;
            let cur = w[k0];
            w.set(k0, cur + add);
            proof {
                assert(ints(w@) =~= tw.update(k0 as int, (cur + add) as int));
                lemma_seq_total_update(tw, k0 as int, (cur + add) as int);
                assert forall|k: int| 0 <= k < len implies #[trigger] w@[k] as int == max_rows(ga, k, i as int)
                    + max_row(ga, k, i as int, j as int + 1) by {
                    assert(max_row(ga, k, i as int, j as int + 1) == max_row(ga, k, i as int, j as int)
                        + max_term(ga, k, i as int, j as int));
                }
                let aii = ai as int;
                let bjj = bj as int;
                assert(aii * pb + aii * bjj == aii * (pb + bjj)) by (nonlinear_arith);
            }
            j += 1;
        }
        proof {
            assert forall|k: int| 0 <= k < len implies #[trigger] w@[k] as int == max_rows(ga, k, i as int + 1) by {}
            assert(sum_to(|y: int| gb.at(y), m as int) == sb);
            let aii = ai as int;
            assert(pa * sb + aii * sb == (pa + aii) * sb) by (nonlinear_arith);
        }
        i += 1;
    }
    let r = Pmf { weights: w, denom };
    proof {
        assert forall|k: int| 0 <= k < len implies #[trigger] r@.w[k] == max_at(ga, k) by {
            lemma_max_rows(ga, k);
        }
        assert(r@.w =~= max_dist(ga).w);
        assert(sum_to(|x: int| ga.at(x), n as int) == sa);
        lemma_total_is_seq_total(r@);
        lemma_sum_nonneg(|x: int| ga.at(x), n as int);
        lemma_sum_nonneg(|y: int| gb.at(y), m as int);
        assert(sa * sb <= ga.d * gb.d) by (nonlinear_arith)
            requires 0 <= sa <= ga.d, 0 <= sb <= gb.d;
    }
    r
}



/// Every outcome moved up by `k`; the probabilities are unchanged.
pub open spec fn shift_dist(a: Dist, k: int) -> Dist {
    Dist { w: Seq::new((a.len() + k) as nat, |v: int| if v < k { 0int } else { a.w[v - k] }), d: a.d }
}

/// Every probability multiplied by `num / den`.
pub open spec fn scale_dist(a: Dist, num: int, den: int) -> Dist {
    Dist { w: a.w.map_values(|x: int| x * num), d: a.d * den }
}

/// The pointwise sum of two weight tables over the denominator of `a`.
pub open spec fn sum_dist(a: Dist, b: Dist) -> Dist {
    Dist {
        w: Seq::new((if a.len() >= b.len() { a.len() } else { b.len() }) as nat, |v: int| a.at(v) + b.at(v)),
        d: a.d,
    }
}

/// `a` with `m` more weight on the outcome zero.
pub open spec fn add_zero_mass(a: Dist, m: int) -> Dist {
    Dist { w: a.w.update(0, a.w[0] + m), d: a.d }
}

proof fn lemma_shift_total(a: Dist, k: int, n: int)
    requires
        k >= 0,
        0 <= n <= a.len(),
    ensures
        sum_to(|v: int| shift_dist(a, k).at(v), k + n) == sum_to(|v: int| a.at(v), n),
    decreases n,
{
    let b = shift_dist(a, k);
    if n == 0 {
        lemma_sum_zero(|v: int| b.at(v), k);
    } else {
        lemma_shift_total(a, k, n - 1);
    }
}

/// Every outcome of `a` moved up by `offset`, as flat damage does.
pub fn shift(a: &Pmf, offset: u32) -> (r: Pmf)
    requires
        a@.wf(),
        a.weights.len() + offset <= usize::MAX,
    ensures
        r@ == shift_dist(a@, offset as int),
        r@.wf(),
        r@.total() == a@.total(),
{
    let ghost ga = a@;
    let k = offset as usize;
    let mut w = zeros(k);
    let mut i: usize = 0;
    while i < a.weights.len()
        invariant
            ga == a@,
            i <= a.weights.len(),
            a.weights.len() + k <= usize::MAX,
            w.len() == k + i,
            forall|v: int| 0 <= v < k + i ==> #[trigger] w@[v] as int == shift_dist(ga, k as int).w[v],
        decreases a.weights.len() - i,
    {
        w.push(a.weights[i]);
        i += 1;
    }
    let r = Pmf { weights: w, denom: a.denom };
    proof {
        assert(r@.w =~= shift_dist(ga, k as int).w);
        lemma_shift_total(ga, k as int, ga.len());
    }
    r
}

/// Every probability of `a` multiplied by `num / den`; the result must
/// still be a (partial) distribution.
pub fn scale(a: &Pmf, num: u128, den: u128) -> (r: Pmf)
    requires
        a@.wf(),
        1 <= den,
        a@.total() * num <= a@.d * den,
        a@.d * den <= u128::MAX,
    ensures
        r@ == scale_dist(a@, num as int, den as int),
        r@.wf(),
        r@.total() == a@.total() * num,
{
    let ghost ga = a@;
    let mut w: Vec<u128> = Vec::new();
    let mut i: usize = 0;
    proof {
        lemma_sum_nonneg(|v: int| ga.at(v), ga.len());
    }
    while i < a.weights.len()
        invariant
            ga == a@,
            ga.wf(),
            ga.total() * num <= ga.d * den,
            ga.d * den <= u128::MAX,
            i <= a.weights.len(),
            w.len() == i,
            forall|v: int| 0 <= v < i ==> #[trigger] w@[v] as int == ga.w[v] * num,
        decreases a.weights.len() - i,
    {
        let x = a.weights[i];
        proof {
            lemma_entry_le_total(ga, i as int);
            let xx = x as int;
            let t = ga.total();
            assert(xx * num <= ga.d * den) by (nonlinear_arith)
                requires 0 <= xx <= t, t * num <= ga.d * den, 0 <= num;
        }
        w.push(x * num);
        i += 1;
    }
    let r = Pmf { weights: w, denom: a.denom * den };
    proof {
        let gr = r@;
        assert(gr.w =~= scale_dist(ga, num as int, den as int).w);
        let f = |v: int| ga.at(v);
        let c = num as int;
        lemma_sum_scale(f, c, ga.len());
        assert forall|v: int| 0 <= v < ga.len() implies #[trigger] gr.at(v) == c * f(v) by {
            let x = ga.w[v];
            assert(gr.w[v] == x * c);
            assert(x * c == c * x) by (nonlinear_arith);
        }
        lemma_sum_ext(|v: int| gr.at(v), |i: int| c * f(i), ga.len());
        let t = ga.total();
        assert(0 <= t * num && c * t == t * num) by (nonlinear_arith)
            requires 0 <= t, 0 <= num, c == num;
        assert(ga.d * den >= 1) by (nonlinear_arith)
            requires ga.d >= 1, den >= 1;
    }
    r
}

/// The weights of `a` and `b`, which share a denominator, added outcome by
/// outcome.
pub fn merge(a: &Pmf, b: &Pmf) -> (r: Pmf)
    requires
        a@.wf(),
        b@.wf(),
        a.denom == b.denom,
        a@.total() + b@.total() <= a@.d,
    ensures
        r@ == sum_dist(a@, b@),
        r@.wf(),
        r@.total() == a@.total() + b@.total(),
{
    let ghost ga = a@;
    let ghost gb = b@;
    let n = if a.weights.len() >= b.weights.len() {
        a.weights.len()
    } else {
        b.weights.len()
    };
    let mut w: Vec<u128> = Vec::new();
    let mut i: usize = 0;
    while i < n
        invariant
            ga == a@,
            gb == b@,
            ga.wf(),
            gb.wf(),
            ga.total() + gb.total() <= ga.d,
            ga.d <= u128::MAX,
            n == if a.weights.len() >= b.weights.len() {
                a.weights.len()
            } else {
                b.weights.len()
            },
            i <= n,
            w.len() == i,
            forall|v: int| 0 <= v < i ==> #[trigger] w@[v] as int == ga.at(v) + gb.at(v),
        decreases n - i,
    {
        let x: u128 = if i < a.weights.len() {
            a.weights[i]
        } else {
            0
        };
        let y: u128 = if i < b.weights.len() {
            b.weights[i]
        } else {
            0
        };
        proof {
            if i < a.weights.len() {
                lemma_entry_le_total(ga, i as int);
            }
            if i < b.weights.len() {
                lemma_entry_le_total(gb, i as int);
            }
            lemma_sum_nonneg(|v: int| ga.at(v), ga.len());
            lemma_sum_nonneg(|v: int| gb.at(v), gb.len());
        }
        w.push(x + y);
        i += 1;
    }
    let r = Pmf { weights: w, denom: a.denom };
    proof {
        let gr = r@;
        assert(gr.w =~= sum_dist(ga, gb).w);
        let f = |v: int| ga.at(v);
        let g = |v: int| gb.at(v);
        lemma_sum_tail_zero(f, ga.len(), n as int);
        lemma_sum_tail_zero(g, gb.len(), n as int);
        lemma_sum_add(f, g, n as int);
        lemma_sum_ext(|v: int| gr.at(v), |i: int| f(i) + g(i), n as int);
    }
    r
}

/// Adds `m` to the weight of the outcome zero.
pub fn add_zero_weight(a: &mut Pmf, m: u128)
    requires
        old(a)@.wf(),
        old(a).weights.len() >= 1,
        old(a)@.total() + m <= old(a)@.d,
    ensures
        final(a)@ == add_zero_mass(old(a)@, m as int),
        final(a)@.wf(),
        final(a)@.total() == old(a)@.total() + m,
{
    let ghost ga = a@;
    proof {
        lemma_entry_le_total(ga, 0);
    }
    let x = a.weights[0];
    a.weights.set(0, x + m);
    proof {
        assert(a@.w =~= ga.w.update(0, ga.w[0] + m));
        lemma_total_is_seq_total(ga);
        lemma_total_is_seq_total(a@);
        lemma_seq_total_update(ga.w, 0, ga.w[0] + m);
    }
}

/// The distribution of the sum of independent draws, one from each of
/// `pmfs`; for an empty list, the certain outcome zero.
pub fn convolve_many(pmfs: &Vec<Pmf>) -> (r: Pmf)
    requires
        forall|t: int| 0 <= t < pmfs.len() ==> (#[trigger] pmfs@[t])@.wf(),
        denom_product(views(pmfs@)) <= u128::MAX,
        len_sum(views(pmfs@)) + 1 <= usize::MAX,
    ensures
        r@ == conv_many(views(pmfs@)),
        r@.wf(),
        (forall|t: int| 0 <= t < pmfs.len() ==> (#[trigger] pmfs@[t])@.is_proper()) ==> r@.is_proper(),
{
    let ghost vs = views(pmfs@);
    let mut weights: Vec<u128> = Vec::new();
    weights.push(1);
    let mut acc = Pmf { weights, denom: 1 };
    let mut i: usize = 0;
    proof {
        assert(acc@.w =~= unit_dist().w);
        assert(vs.take(0) =~= Seq::<Dist>::empty());
        let ga = acc@;
        assert(sum_to(|v: int| ga.at(v), 0) == 0);
        assert(ga.total() == 1);
        assert forall|t: int| 0 <= t < vs.len() implies #[trigger] vs[t].d >= 1 by {
            assert(pmfs@[t]@.wf());
        }
    }
    while i < pmfs.len()
        invariant
            vs == views(pmfs@),
            forall|t: int| 0 <= t < pmfs.len() ==> (#[trigger] pmfs@[t])@.wf(),
            forall|t: int| 0 <= t < vs.len() ==> #[trigger] vs[t].d >= 1,
            denom_product(vs) <= u128::MAX,
            len_sum(vs) + 1 <= usize::MAX,
            i <= pmfs.len(),
            acc@ == conv_many(vs.take(i as int)),
            acc@.wf(),
            acc.weights.len() <= 1 + len_sum(vs.take(i as int)),
            (forall|t: int| 0 <= t < i ==> (#[trigger] pmfs@[t])@.is_proper()) ==> acc@.is_proper(),
        decreases pmfs.len() - i,
    {
        let ghost pre = vs.take(i as int);
        let ghost next = vs.take(i as int + 1);
        proof {
            assert(next.drop_last() =~= pre);
            assert(next.last() == pmfs@[i as int]@);
            lemma_conv_many_denom(pre);
            lemma_denom_product_prefix(vs, i as int + 1);
            lemma_len_sum_prefix(vs, i as int + 1);
        }
        let next_acc = convolve(&acc, &pmfs[i]);
        acc = next_acc;
        i += 1;
    }
    proof {
        assert(vs.take(pmfs.len() as int) =~= vs);
    }
    acc
}

/// An exact probability or average: `num / den`.
#[derive(Debug, Clone, Copy, PartialEq, Eq, Structural)]
pub struct Ratio {
    pub num: u128,
    pub den: u128,
}

/// `sum of v * P(v)`, over the denominator of `a`.
pub open spec fn mean_num(a: Dist) -> int {
    sum_to(|v: int| v * a.at(v), a.len())
}

/// `sum of v * v * P(v)`, over the denominator of `a`.
pub open spec fn square_num(a: Dist) -> int {
    sum_to(|v: int| v * v * a.at(v), a.len())
}

/// The weight of the outcomes at or above `t`.
pub open spec fn at_least_num(a: Dist, t: int) -> int {
    sum_to(|v: int| if v >= t { a.at(v) } else { 0 }, a.len())
}

pub open spec fn gt_term(a: Dist, b: Dist, x: int, y: int) -> int {
    if x > y {
        a.at(x) * b.at(y)
    } else {
        0
    }
}

/// The weight of the pairs in which the draw from `a` is the larger, over
/// the product of the denominators.
pub open spec fn gt_num(a: Dist, b: Dist) -> int {
    sum2(|x: int, y: int| gt_term(a, b, x, y), a.len(), b.len())
}

/// The weighted sum `sum of v^k * w(v)` over the values `v < n`, for
/// `k` one or two.
pub open spec fn moment_term(a: Dist, k: int, v: int) -> int {
    if k == 1 {
        v * a.at(v)
    } else {
        v * v * a.at(v)
    }
}

proof fn lemma_moment_terms(a: Dist, k: int)
    requires
        a.wf(),
        1 <= k <= 2,
    ensures
        forall|v: int| 0 <= v < a.len() ==> #[trigger] moment_term(a, k, v) >= 0,
        sum_to(|v: int| moment_term(a, k, v), a.len()) == if k == 1 {
            mean_num(a)
        } else {
            square_num(a)
        },
{
    assert forall|v: int| 0 <= v < a.len() implies #[trigger] moment_term(a, k, v) >= 0 by {
        let p = a.at(v);
        assert(a.w[v] >= 0);
        assert(v * p >= 0 && v * v * p >= 0) by (nonlinear_arith)
            requires v >= 0, p >= 0;
    }
    if k == 1 {
        lemma_sum_ext(|v: int| moment_term(a, k, v), |v: int| v * a.at(v), a.len());
    } else {
        lemma_sum_ext(|v: int| moment_term(a, k, v), |v: int| v * v * a.at(v), a.len());
    }
}

/// `sum of v^k * w(v)` for `k` one or two, if it fits in `u128`.
fn checked_moment(a: &Pmf, k: u8) -> (r: Option<u128>)
    requires
        a@.wf(),
        1 <= k <= 2,
    ensures
        r.is_some() <==> sum_to(|v: int| moment_term(a@, k as int, v), a@.len()) <= u128::MAX,
        r matches Some(x) ==> x == sum_to(|v: int| moment_term(a@, k as int, v), a@.len()),
{
    let ghost ga = a@;
    let ghost f = |v: int| moment_term(ga, k as int, v);
    let ghost n = ga.len();
    proof {
        lemma_moment_terms(ga, k as int);
    }
    let mut acc: u128 = 0;
    let mut v: usize = 0;
    while v < a.weights.len()
        invariant
            ga == a@,
            ga.wf(),
            1 <= k <= 2,
            n == ga.len(),
            f == (|v: int| moment_term(ga, k as int, v)),
            forall|u: int| 0 <= u < n ==> #[trigger] f(u) >= 0,
            v <= a.weights.len(),
            acc == sum_to(f, v as int),
        decreases a.weights.len() - v,
    {
        let x = a.weights[v];
        proof {
            lemma_term_le_sum(f, v as int, n);
            lemma_sum_prefix_le(f, v as int + 1, n);
            let vv = v as int;
            assert(vv * vv <= u128::MAX) by (nonlinear_arith)
                requires 0 <= vv <= usize::MAX;
        }
        let vk: u128 = if k == 1 {
            v as u128
        } else {
            (v as u128) * (v as u128)
        };
        let term = match vk.checked_mul(x) {
            Some(t) => t,
            None => {
                return None;
            },
        };
        acc = match acc.checked_add(term) {
            Some(t) => t,
            None => {
                return None;
            },
        };
        v += 1;
    }
    Some(acc)
}

/// The mean of `a`: `sum of v * P(v)`; `None` exactly when the weighted
/// sum does not fit in `u128`.
pub fn mean(a: &Pmf) -> (r: Option<Ratio>)
    requires
        a@.wf(),
    ensures
        r.is_some() <==> mean_num(a@) <= u128::MAX,
        r matches Some(m) ==> m.num == mean_num(a@) && m.den == a.denom,
{
    proof {
        lemma_moment_terms(a@, 1);
    }
    match checked_moment(a, 1) {
        Some(x) => Some(Ratio { num: x, den: a.denom }),
        None => None,
    }
}

/// The second moment of `a`: `sum of v * v * P(v)`; `None` exactly when
/// the weighted sum does not fit in `u128`.
pub fn second_moment(a: &Pmf) -> (r: Option<Ratio>)
    requires
        a@.wf(),
    ensures
        r.is_some() <==> square_num(a@) <= u128::MAX,
        r matches Some(m) ==> m.num == square_num(a@) && m.den == a.denom,
{
    proof {
        lemma_moment_terms(a@, 2);
    }
    match checked_moment(a, 2) {
        Some(x) => Some(Ratio { num: x, den: a.denom }),
        None => None,
    }
}

/// The probability that a draw from `a` is at least `threshold`.
pub fn chance_at_least(a: &Pmf, threshold: u32) -> (r: Ratio)
    requires
        a@.wf(),
    ensures
        r.num == at_least_num(a@, threshold as int),
        r.den == a.denom,
        r.num <= r.den,
{
    let ghost ga = a@;
    let n = a.weights.len();
    let mut acc: u128 = 0;
    let mut v: usize = 0;
    let ghost t = threshold as int;
    while v < n
        invariant
            ga == a@,
            ga.wf(),
            n == a.weights.len(),
            t == threshold,
            v <= n,
            acc == sum_to(|u: int| if u >= t { ga.at(u) } else { 0 }, v as int),
            acc <= sum_to(|u: int| ga.at(u), v as int),
        decreases n - v,
    {
        let x = a.weights[v];
        proof {
            lemma_sum_prefix_le(|u: int| ga.at(u), v as int + 1, n as int);
        }
        if v as u64 >= threshold as u64 {
            acc = acc + x;
        }
        v += 1;
    }
    proof {
        assert(sum_to(|u: int| if u >= t { ga.at(u) } else { 0 }, n as int) == at_least_num(ga, t));
    }
    Ratio { num: acc, den: a.denom }
}

pub open spec fn gt_row(a: Dist, b: Dist, x: int, m: int) -> int {
    sum_to(|y: int| gt_term(a, b, x, y), m)
}

proof fn lemma_gt_rows(a: Dist, b: Dist)
    ensures
        gt_num(a, b) == sum_to(|x: int| gt_row(a, b, x, b.len()), a.len()),
{
    let f = |x: int, y: int| gt_term(a, b, x, y);
    assert forall|x: int| 0 <= x < a.len() implies #[trigger] gt_row(a, b, x, b.len()) == sum_to(
        |y: int| f(x, y),
        b.len(),
    ) by {
        lemma_sum_ext(|y: int| gt_term(a, b, x, y), |y: int| f(x, y), b.len());
    }
    lemma_sum_ext(|x: int| gt_row(a, b, x, b.len()), |x: int| sum_to(|y: int| f(x, y), b.len()), a.len());
}

/// The probability that a draw from `a` is strictly larger than an
/// independent draw from `b`; ties count for neither.
pub fn greater_than(a: &Pmf, b: &Pmf) -> (r: Ratio)
    requires
        a@.wf(),
        b@.wf(),
        a@.d * b@.d <= u128::MAX,
    ensures
        r.num == gt_num(a@, b@),
        r.den == a@.d * b@.d,
{
    let ghost ga = a@;
    let ghost gb = b@;
    let n = a.weights.len();
    let m = b.weights.len();
    let ghost sa = ga.total();
    let ghost sb = gb.total();
    let mut acc: u128 = 0;
    let mut i: usize = 0;
    proof {
        lemma_sum_nonneg(|y: int| gb.at(y), m as int);
    }
    while i < n
        invariant
            ga == a@,
            gb == b@,
            n == a.weights.len(),
            m == b.weights.len(),
            ga.wf(),
            gb.wf(),
            sa == ga.total(),
            sb == gb.total(),
            sb >= 0,
            ga.d * gb.d <= u128::MAX,
            i <= n,
            acc == sum_to(|x: int| gt_row(ga, gb, x, m as int), i as int),
            acc <= sum_to(|x: int| ga.at(x), i as int) * sb,
        decreases n - i,
    {
        let ai = a.weights[i];
        let ghost pa = sum_to(|x: int| ga.at(x), i as int);
        let ghost base = acc as int;
        proof {
            lemma_sum_nonneg(|x: int| ga.at(x), i as int);
            lemma_sum_prefix_le(|x: int| ga.at(x), i as int + 1, n as int);
        }
        let mut j: usize = 0;
        while j < m
            invariant
                ga == a@,
                gb == b@,
                n == a.weights.len(),
                m == b.weights.len(),
                ga.wf(),
                gb.wf(),
                sa == ga.total(),
                sb == gb.total(),
                ga.d * gb.d <= u128::MAX,
                i < n,
                j <= m,
                ai == a.weights@[i as int],
                pa == sum_to(|x: int| ga.at(x), i as int),
                pa >= 0,
                pa + ai <= sa,
                sb >= 0,
                base <= pa * sb,
                acc == base + gt_row(ga, gb, i as int, j as int),
                acc <= pa * sb + ai * sum_to(|y: int| gb.at(y), j as int),
            decreases m - j,
        {
            let bj = b.weights[j];
            let ghost pb = sum_to(|y: int| gb.at(y), j as int);
            proof {
                lemma_sum_prefix_le(|y: int| gb.at(y), j as int + 1, m as int);
                lemma_sum_nonneg(|y: int| gb.at(y), j as int);
                let aii = ai as int;
                let bjj = bj as int;
                assert(acc + aii * bjj <= pa * sb + aii * (pb + bjj) && pa * sb + aii * (pb + bjj) <= ga.d * gb.d)
                    by (nonlinear_arith)
                    requires
                        acc <= pa * sb + aii * pb, pa >= 0, aii >= 0, bjj >= 0, pb >= 0, sb >= 0,
                        pb + bjj <= sb, pa + aii <= sa, sa <= ga.d, sb <= gb.d;
            }
            if i > j {
                acc = acc + ai * bj;
            }
            proof {
                let aii = ai as int;
                let bjj = bj as int;
                assert(aii * (pb + bjj) == aii * pb + aii * bjj) by (nonlinear_arith);
                assert(0 <= aii * bjj) by (nonlinear_arith) requires aii >= 0, bjj >= 0;
            }
            j += 1;
        }
        proof {
            assert(sum_to(|y: int| gb.at(y), m as int) == sb);
            let aii = ai as int;
            assert(pa * sb + aii * sb == (pa + aii) * sb) by (nonlinear_arith);
        }
        i += 1;
    }
    proof {
        lemma_gt_rows(ga, gb);
    }
    Ratio { num: acc, den: a.denom * b.denom }
}

/// Cumulative weights of a distribution: entry `v` is the weight of the
/// outcomes `0..=v`, over `denom`.
#[derive(Debug, Clone)]
pub struct Cdf {
    pub cumulative: Vec<u128>,
    pub denom: u128,
}

/// The weight of the outcomes below `v`.
pub open spec fn below(a: Dist, v: int) -> int {
    sum_to(|u: int| a.at(u), v)
}

/// The running sums of `a`'s weights in increasing order of outcome.
pub fn cdf(a: &Pmf) -> (r: Cdf)
    requires
        a@.wf(),
    ensures
        r.denom == a.denom,
        r.cumulative.len() == a.weights.len(),
        forall|v: int| 0 <= v < r.cumulative.len() ==> #[trigger] r.cumulative@[v] == below(a@, v + 1),
{
    let ghost ga = a@;
    let n = a.weights.len();
    let mut out: Vec<u128> = Vec::new();
    let mut acc: u128 = 0;
    let mut v: usize = 0;
    while v < n
        invariant
            ga == a@,
            ga.wf(),
            n == a.weights.len(),
            v <= n,
            acc == below(ga, v as int),
            out.len() == v,
            forall|u: int| 0 <= u < v ==> #[trigger] out@[u] == below(ga, u + 1),
        decreases n - v,
    {
        proof {
            lemma_sum_prefix_le(|u: int| ga.at(u), v as int + 1, n as int);
        }
        acc = acc + a.weights[v];
        out.push(acc);
        v += 1;
    }
    Cdf { cumulative: out, denom: a.denom }
}

impl Pmf {
    /// Whether the weights add up to at most the denominator, which is
    /// positive.
    pub fn is_wf(&self) -> (r: bool)
        ensures
            r == self@.wf(),
    {
        let ghost a = self@;
        if self.denom == 0 {
            return false;
        }
        let mut acc: u128 = 0;
        let mut i: usize = 0;
        while i < self.weights.len()
            invariant
                a == self@,
                self.denom > 0,
                i <= self.weights.len(),
                acc == sum_to(|v: int| a.at(v), i as int),
                acc <= self.denom,
            decreases self.weights.len() - i,
        {
            let x = self.weights[i];
            if x > self.denom - acc {
                proof {
                    lemma_sum_nonneg(|v: int| a.at(v), self.weights.len() as int);
                    lemma_sum_prefix_le(|v: int| a.at(v), i as int + 1, self.weights.len() as int);
                }
                return false;
            }
            acc = acc + x;
            i += 1;
        }
        true
    }
}

/// The total weight of `a`.
pub fn total_weight(a: &Pmf) -> (r: u128)
    requires
        a@.wf(),
    ensures
        r == a@.total(),
{
    let ghost ga = a@;
    let mut acc: u128 = 0;
    let mut i: usize = 0;
    while i < a.weights.len()
        invariant
            ga == a@,
            ga.wf(),
            i <= a.weights.len(),
            acc == sum_to(|v: int| ga.at(v), i as int),
        decreases a.weights.len() - i,
    {
        proof {
            lemma_sum_nonneg(|v: int| ga.at(v), a.weights.len() as int);
            lemma_sum_prefix_le(|v: int| ga.at(v), i as int + 1, a.weights.len() as int);
        }
        acc = acc + a.weights[i];
        i += 1;
    }
    acc
}

/// The variance of `a`, `sum of (v - mean)^2 * P(v)`, over the cube of its
/// denominator (see `variance_num`); `None` exactly when that cube or the
/// second moment times the square does not fit in `u128`.
pub fn variance(a: &Pmf) -> (r: Option<Ratio>)
    requires
        a@.wf(),
    ensures
        r.is_some() <==> (a@.d * a@.d * a@.d <= u128::MAX && a@.d * a@.d * square_num(a@) <= u128::MAX),
        r matches Some(v) ==> v.num == crate::algebra::variance_num(a@) && v.den == a@.d * a@.d * a@.d,
{
    let ghost ga = a@;
    proof {
        crate::algebra::lemma_variance_nonneg(ga);
        let d = ga.d;
        let mn = mean_num(ga);
        let sn = square_num(ga);
        lemma_moment_terms(ga, 2);
        lemma_sum_nonneg(|v: int| moment_term(ga, 2, v), ga.len());
        assert(sn <= d * d * sn && (mn > u128::MAX ==> mn * mn > u128::MAX) && mn * mn <= d * d * sn)
            by (nonlinear_arith)
            requires d >= 1, sn >= 0, mn * mn <= d * sn;
    }
    let m = match mean(a) {
        Some(x) => x,
        None => {
            return None;
        },
    };
    let s = match second_moment(a) {
        Some(x) => x,
        None => {
            return None;
        },
    };
    let t = total_weight(a);
    let d = a.denom;
    let dd = match d.checked_mul(d) {
        Some(x) => x,
        None => {
            proof {
                let di = d as int;
                assert(di * di * di >= di * di) by (nonlinear_arith)
                    requires di >= 1;
            }
            return None;
        },
    };
    let ddd = match dd.checked_mul(d) {
        Some(x) => x,
        None => {
            return None;
        },
    };
    let dds = match dd.checked_mul(s.num) {
        Some(x) => x,
        None => {
            return None;
        },
    };
    let ghost mi = m.num as int;
    let ghost si = s.num as int;
    let ghost di = d as int;
    let ghost ti = t as int;
    proof {
        crate::algebra::lemma_variance_nonneg(ga);
        crate::algebra::lemma_variance_num_nonneg(ga);
        lemma_sum_nonneg(|v: int| v * v * ga.at(v), ga.len());
        assert(dds as int == di * di * si);
        assert(0 <= mi * mi && mi * mi <= di * si && mi * mi <= di * di * si && di * (mi * mi) <= di * di * si && (di - ti) * (mi * mi) <= di
            * (mi * mi)) by (nonlinear_arith)
            requires
                mi * mi <= di * si, di >= 1, si >= 0, 0 <= ti <= di;
        assert(di * di * si - di * (mi * mi) - (di - ti) * (mi * mi) == crate::algebra::variance_num(ga))
            by (nonlinear_arith)
            requires
                crate::algebra::variance_num(ga) == di * di * si - 2 * di * (mi * mi) + ti * (mi * mi);
    }
    let mm = m.num * m.num;
    let x = dds - d * mm;
    let y = (d - t) * mm;
    Some(Ratio { num: x - y, den: ddd })
}
} // verus!
