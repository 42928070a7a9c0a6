use dnd_damage::combat::{attack_pmf, hit_chance, Attack, Build, Die};
use dnd_damage::math::{build_pmf, calc_build_means, calc_build_stats, AC_MAX, AC_MIN};
use dnd_damage::pmf::Ratio;

fn attack(ab: i32, flat: u8, counts: [u8; 5]) -> Attack {
    Attack {
        ab,
        flat,
        dice: [
            (Die::D4, counts[0]),
            (Die::D6, counts[1]),
            (Die::D8, counts[2]),
            (Die::D10, counts[3]),
            (Die::D20, counts[4]),
        ],
    }
}

#[test]
fn hit_chance_natural_twenty_only() {
    assert_eq!(hit_chance(0, 30), 1);
}

#[test]
fn hit_chance_natural_one_only_misses() {
    assert_eq!(hit_chance(30, 2), 19);
}

#[test]
fn hit_chance_middle() {
    assert_eq!(hit_chance(10, 15), 16);
    assert_eq!(hit_chance(5, 25), 1);
    assert_eq!(hit_chance(5, 24), 2);
    assert_eq!(hit_chance(5, 7), 19);
    assert_eq!(hit_chance(5, 8), 18);
}

#[test]
fn single_d4_attack_against_ac_15() {
    let a = attack(10, 4, [1, 0, 0, 0, 0]);
    let p = attack_pmf(&a, 15, true, false).unwrap();
    assert_eq!(p.denom, 20 * 16);
    assert_eq!(p.weights, vec![64, 0, 0, 0, 0, 60, 61, 62, 63, 4, 3, 2, 1]);
    assert_eq!(p.weights.iter().sum::<u128>(), p.denom);
    let miss = p.weights[0] as f64 / p.denom as f64;
    assert!((miss - 0.2).abs() < 1e-12);
}

#[test]
fn attack_without_crits_has_no_crit_mass() {
    let a = attack(10, 4, [1, 0, 0, 0, 0]);
    let p = attack_pmf(&a, 15, false, false).unwrap();
    let total: u128 = p.weights.iter().sum();
    assert_eq!(total, p.denom);
    assert!(p.weights[9..].iter().all(|&w| w == 0));
    assert_eq!(p.weights[0] as f64 / p.denom as f64, 0.2);
}

#[test]
fn savage_attack_is_normalized_and_stronger() {
    let a = Attack::default();
    let plain = attack_pmf(&a, 18, true, false).unwrap();
    let savage = attack_pmf(&a, 18, true, true).unwrap();
    assert_eq!(savage.weights.iter().sum::<u128>(), savage.denom);
    let mean = |p: &dnd_damage::pmf::Pmf| {
        let m = dnd_damage::pmf::mean(p).unwrap();
        m.num as f64 / m.den as f64
    };
    assert!(mean(&savage) > mean(&plain));
}

#[test]
fn attack_without_dice_hits_for_flat() {
    let a = attack(0, 3, [0, 0, 0, 0, 0]);
    let p = attack_pmf(&a, 30, true, false).unwrap();
    assert_eq!(p.weights.len(), 4);
    assert_eq!(p.weights[0], 19);
    assert_eq!(p.weights[3], 1);
    assert_eq!(p.denom, 20);
}

#[test]
fn attack_too_large_to_be_exact() {
    let a = attack(5, 0, [0, 0, 0, 0, 40]);
    assert!(attack_pmf(&a, 15, true, false).is_none());
}

#[test]
fn default_attack_and_build() {
    let a = Attack::default();
    assert_eq!(a.ab, 10);
    assert_eq!(a.flat, 4);
    assert_eq!(a.dice[0], (Die::D4, 2));
    assert_eq!(a.dice[2], (Die::D8, 1));
    let b = Build::default();
    assert_eq!(b.attacks.len(), 1);
    assert!(b.crit_enabled);
    assert!(!b.savage);
}

#[test]
fn die_sides() {
    assert_eq!(Die::D10.sides(), 10);
    assert_eq!(Die::D20.sides(), 20);
}

#[test]
fn empty_build_is_certain_zero() {
    let b = Build { attacks: Vec::new(), savage: false, crit_enabled: true };
    let s = calc_build_stats(&b, 15, 1).unwrap();
    assert_eq!(s.pmf.weights, vec![1]);
    assert_eq!(s.pmf.denom, 1);
    assert_eq!(s.mean, Some(Ratio { num: 0, den: 1 }));
    assert_eq!(s.variance, Some(Ratio { num: 0, den: 1 }));
    assert_eq!(s.min_dmg_chance, Ratio { num: 0, den: 1 });
    let means = calc_build_means(&b).unwrap();
    assert_eq!(means.len(), (AC_MAX - AC_MIN) as usize);
    assert!(means.iter().all(|m| *m == Ratio { num: 0, den: 1 }));
}

#[test]
fn build_of_two_attacks_convolves() {
    let a = attack(10, 4, [1, 0, 0, 0, 0]);
    let b = Build { attacks: vec![a, a], savage: false, crit_enabled: true };
    let one = attack_pmf(&a, 15, true, false).unwrap();
    let both = build_pmf(&b, 15).unwrap();
    assert_eq!(both.denom, one.denom * one.denom);
    assert_eq!(both.weights.len(), 2 * one.weights.len() - 1);
    assert_eq!(both.weights[0], 64 * 64);
    let s = calc_build_stats(&b, 15, 0).unwrap();
    assert_eq!(s.min_dmg_chance.num, s.min_dmg_chance.den);
    let m1 = dnd_damage::pmf::mean(&one).unwrap();
    let m2 = s.mean.unwrap();
    let f1 = m1.num as f64 / m1.den as f64;
    let f2 = m2.num as f64 / m2.den as f64;
    assert!((f2 - 2.0 * f1).abs() < 1e-9);
    assert!(s.greater_then_chance.is_none());
    assert_eq!(*s.cdf.cumulative.last().unwrap(), s.pmf.denom);
}

#[test]
fn means_fall_as_armor_class_rises() {
    let b = Build::default();
    let means = calc_build_means(&b).unwrap();
    assert_eq!(means.len(), 14);
    let f: Vec<f64> = means.iter().map(|m| m.num as f64 / m.den as f64).collect();
    assert!(f.windows(2).all(|w| w[0] >= w[1]));
    let at18 = calc_build_stats(&b, 18, 15).unwrap();
    assert_eq!(Some(means[8]), at18.mean);
}

fn default_build(n: usize, savage: bool) -> Build {
    Build { attacks: vec![Attack::default(); n], savage, crit_enabled: true }
}

#[test]
fn default_attack_denominator_is_small() {
    let p = attack_pmf(&Attack::default(), 18, true, false).unwrap();
    assert_eq!(p.denom, 327_680);
    assert_eq!(p.weights.iter().sum::<u128>(), p.denom);
}

#[test]
fn three_default_attacks_compare() {
    let b = default_build(3, false);
    let p = build_pmf(&b, 18).unwrap();
    let r = dnd_damage::pmf::greater_than(&p, &p);
    assert!(r.num < r.den / 2);
    let s = calc_build_stats(&b, 18, 15).unwrap();
    assert!(s.mean.is_some() && s.second_moment.is_some());
}

#[test]
fn three_savage_attacks_have_stats() {
    let b = default_build(3, true);
    let s = calc_build_stats(&b, 18, 15).unwrap();
    assert_eq!(s.pmf.weights.iter().sum::<u128>(), s.pmf.denom);
    assert!(s.mean.is_some());
    assert!(calc_build_means(&b).is_some());
}

#[test]
fn five_default_attacks_have_stats() {
    let b = default_build(5, false);
    let s = calc_build_stats(&b, 18, 15).unwrap();
    assert_eq!(*s.cdf.cumulative.last().unwrap(), s.pmf.denom);
    assert!(s.mean.is_some());
}
