use vstd::prelude::*;
use crate::combat::{attack_dist, attack_pmf, Attack, Build};
use crate::pmf::{
    at_least_num, cdf, chance_at_least, conv_many, convolve_many, denom_product, len_sum, mean,
    mean_num, second_moment, square_num, unit_dist, variance, views, Cdf, Dist, Pmf, Ratio,
};

verus! {

/// The lowest armor class of the survey of mean damage.
pub const AC_MIN: u8 = 10;

/// One past the highest armor class of the survey of mean damage.
pub const AC_MAX: u8 = 24;

/// The damage distribution of each attack of `attacks` against `ac`.
pub open spec fn attack_dists(attacks: Seq<Attack>, ac: int, crit_enabled: bool, savage: bool) -> Seq<Dist> {
    Seq::new(attacks.len(), |i: int| attack_dist(attacks[i], ac, crit_enabled, savage))
}

/// The damage of a whole turn of `build` against `ac`: the sum of its
/// attacks, which are independent.
pub open spec fn build_dist(build: Build, ac: int) -> Dist {
    conv_many(attack_dists(build.attacks@, ac, build.crit_enabled, build.savage))
}

/// Whether the exact distribution of a turn of `build` against `ac` fits:
/// its denominator in `u128`, its length in `usize`.
pub open spec fn build_fits(build: Build, ac: int) -> bool {
    let ds = attack_dists(build.attacks@, ac, build.crit_enabled, build.savage);
    denom_product(ds) <= u128::MAX && len_sum(ds) + 1 <= usize::MAX
}

/// The damage distribution of one turn of `build` against armor class `ac`;
/// `None` exactly when it does not fit (see `build_fits`).
pub fn build_pmf(build: &Build, ac: u8) -> (r: Option<Pmf>)
    ensures
        r.is_some() <==> build_fits(*build, ac as int),
        r matches Some(p) ==> p@ == build_dist(*build, ac as int) && p@.is_proper(),
{
    let ghost ds = attack_dists(build.attacks@, ac as int, build.crit_enabled, build.savage);
    let n = build.attacks.len();
    let mut pmfs: Vec<Pmf> = Vec::new();
    let mut len_total: usize = 0;
    let mut i: usize = 0;
    proof {
        assert forall|t: int| 0 <= t < ds.len() implies #[trigger] ds[t].d >= 1 by {
            crate::combat::lemma_attack_denom_pos(build.attacks@[t], ac as int, build.crit_enabled, build.savage);
        }
        assert(ds.take(0) =~= Seq::<Dist>::empty());
    }
    while i < n
        invariant
            n == build.attacks.len(),
            ds == attack_dists(build.attacks@, ac as int, build.crit_enabled, build.savage),
            forall|t: int| 0 <= t < ds.len() ==> #[trigger] ds[t].d >= 1,
            i <= n,
            pmfs.len() == i,
            views(pmfs@) == ds.take(i as int),
            forall|t: int| 0 <= t < i ==> (#[trigger] pmfs@[t])@.is_proper(),
            len_total == len_sum(ds.take(i as int)),
        decreases n - i,
    {
        let ghost next = ds.take(i as int + 1);
        proof {
            assert(next.drop_last() =~= ds.take(i as int));
            assert(next.last() == ds[i as int]);
        }
        match attack_pmf(&build.attacks[i], ac, build.crit_enabled, build.savage) {
            Some(p) => {
                let plen = p.weights.len();
                match len_total.checked_add(plen) {
                    Some(t) => {
                        len_total = t;
                    },
                    None => {
                        proof {
                            crate::pmf::lemma_len_sum_prefix(ds, i as int + 1);
                        }
                        return None;
                    },
                }
                let ghost before = views(pmfs@);
                pmfs.push(p);
                proof {
                    assert(views(pmfs@) =~= before.push(p@));
                    assert(views(pmfs@) =~= next);
                }
            },
            None => {
                proof {
                    crate::combat::lemma_attack_denom_pos(
                        build.attacks@[i as int],
                        ac as int,
                        build.crit_enabled,
                        build.savage,
                    );
                    crate::pmf::lemma_denom_product_prefix(ds, i as int + 1);
                    crate::pmf::lemma_denom_product_prefix(ds, i as int);
                    let p = denom_product(ds.take(i as int));
                    let q = ds[i as int].d;
                    assert(p * q >= q) by (nonlinear_arith)
                        requires p >= 1, q >= 1;
                }
                return None;
            },
        }
        i += 1;
    }
    proof {
        assert(ds.take(n as int) =~= ds);
        assert forall|t: int| 0 <= t < pmfs.len() implies (#[trigger] pmfs@[t])@.d >= 1 by {}
    }
    if len_total == usize::MAX {
        return None;
    }
    match crate::combat::checked_denom_product(&pmfs) {
        Some(_) => {},
        None => {
            return None;
        },
    }
    let r = convolve_many(&pmfs);
    Some(r)
}

/// What is computed of one build at one armor class. The probability that
/// this build out-damages the other is filled in once both are known.
#[derive(Debug, Clone)]
pub struct Stats {
    pub pmf: Pmf,
    pub cdf: Cdf,
    pub mean: Option<Ratio>,
    pub second_moment: Option<Ratio>,
    pub variance: Option<Ratio>,
    pub greater_then_chance: Option<Ratio>,
    pub min_dmg_chance: Ratio,
}

/// The distribution of one turn of `build` against `sim_ac` with its
/// cumulative distribution, mean, second moment, variance and the chance
/// of dealing at least `desired_min_dmg`; `None` exactly when the
/// distribution does not fit. The mean, the second moment and the variance
/// are each `None` exactly when they do not fit.
pub fn calc_build_stats(build: &Build, sim_ac: u8, desired_min_dmg: u32) -> (r: Option<Stats>)
    ensures
        r.is_some() <==> build_fits(*build, sim_ac as int),
        r matches Some(s) ==> {
            let d = build_dist(*build, sim_ac as int);
            &&& s.pmf@ == d
            &&& d.is_proper()
            &&& s.cdf.denom == d.d
            &&& s.cdf.cumulative@.len() == d.len()
            &&& forall|v: int| 0 <= v < d.len() ==> #[trigger] s.cdf.cumulative@[v] == crate::pmf::below(d, v + 1)
            &&& s.mean.is_some() <==> mean_num(d) <= u128::MAX
            &&& s.mean matches Some(m) ==> m.num == mean_num(d) && m.den == d.d
            &&& s.second_moment.is_some() <==> square_num(d) <= u128::MAX
            &&& s.second_moment matches Some(m) ==> m.num == square_num(d) && m.den == d.d
            &&& s.variance.is_some() <==> (d.d * d.d * d.d <= u128::MAX && d.d * d.d * square_num(d)
                <= u128::MAX)
            &&& s.variance matches Some(v) ==> v.num == crate::algebra::variance_num(d) && v.den == d.d * d.d
                * d.d
            &&& s.min_dmg_chance.num == at_least_num(d, desired_min_dmg as int)
            &&& s.min_dmg_chance.den == d.d
            &&& s.greater_then_chance.is_none()
        },
{
    let pmf = match build_pmf(build, sim_ac) {
        Some(p) => p,
        None => {
            return None;
        },
    };
    let c = cdf(&pmf);
    let m = mean(&pmf);
    let sq = second_moment(&pmf);
    let var = variance(&pmf);
    let at_least = chance_at_least(&pmf, desired_min_dmg);
    Some(
        Stats {
            pmf,
            cdf: c,
            mean: m,
            second_moment: sq,
            variance: var,
            greater_then_chance: None,
            min_dmg_chance: at_least,
        },
    )
}

/// Whether the mean of one turn of `build` fits in `u128` at every armor
/// class of the survey.
pub open spec fn means_fit(build: Build) -> bool {
    forall|ac: int|
        AC_MIN <= ac < AC_MAX ==> #[trigger] build_fits(build, ac) && mean_num(build_dist(build, ac))
            <= u128::MAX
}

/// The mean damage of one turn of `build` at each armor class from
/// `AC_MIN` up to `AC_MAX`, in that order; `None` exactly when one of them
/// does not fit.
pub fn calc_build_means(build: &Build) -> (r: Option<Vec<Ratio>>)
    ensures
        r.is_some() <==> means_fit(*build),
        r matches Some(v) ==> {
            &&& v@.len() == AC_MAX - AC_MIN
            &&& forall|i: int|
                0 <= i < v@.len() ==> #[trigger] v@[i].num == mean_num(build_dist(*build, AC_MIN + i))
                    && v@[i].den == build_dist(*build, AC_MIN + i).d
        },
{
    let mut out: Vec<Ratio> = Vec::new();
    let mut ac: u8 = AC_MIN;
    while ac < AC_MAX
        invariant
            AC_MIN <= ac <= AC_MAX,
            out@.len() == ac - AC_MIN,
            forall|a: int| AC_MIN <= a < ac ==> #[trigger] build_fits(*build, a) && mean_num(build_dist(*build, a))
                <= u128::MAX,
            forall|i: int|
                0 <= i < out@.len() ==> #[trigger] out@[i].num == mean_num(build_dist(*build, AC_MIN + i))
                    && out@[i].den == build_dist(*build, AC_MIN + i).d,
        decreases AC_MAX - ac,
    {
        let pmf = match build_pmf(build, ac) {
            Some(p) => p,
            None => {
                return None;
            },
        };
        let m = match mean(&pmf) {
            Some(m) => m,
            None => {
                return None;
            },
        };
        out.push(m);
        ac += 1;
    }
    Some(out)
}

/// A build without attacks deals no damage: its turn is the certain
/// outcome zero, for the statistics and for the survey alike.
pub proof fn lemma_empty_build(build: Build, ac: int)
    requires
        build.attacks@.len() == 0,
    ensures
        build_dist(build, ac) == unit_dist(),
        build_fits(build, ac),
        mean_num(build_dist(build, ac)) == 0,
{
    let ds = attack_dists(build.attacks@, ac, build.crit_enabled, build.savage);
    assert(ds.len() == 0);
    let u = unit_dist();
    assert(ds =~= Seq::<Dist>::empty());
    assert(build_dist(build, ac) == u);
    assert(u.len() == 1 && u.d == 1);
    assert(u.len() * u.len() * u.d == 1);
    assert(crate::sums::sum_to(|v: int| v * u.at(v), 0) == 0);
    assert(mean_num(u) == 0);
}

} // verus!
