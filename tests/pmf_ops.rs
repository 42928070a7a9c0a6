use dnd_damage::combat::Die;
use dnd_damage::pmf::{
    best_of_two, cdf, chance_at_least, convolve, convolve_many, die_pmf, greater_than, mean, merge,
    scale, second_moment, shift, variance, Pmf, Ratio,
};

fn pmf(weights: &[u128], denom: u128) -> Pmf {
    Pmf { weights: weights.to_vec(), denom }
}

fn as_f64(r: Ratio) -> f64 {
    r.num as f64 / r.den as f64
}

#[test]
fn die_pmf_is_uniform_over_faces() {
    let d6 = die_pmf(Die::D6);
    assert_eq!(d6.weights, vec![0, 1, 1, 1, 1, 1, 1]);
    assert_eq!(d6.denom, 6);
    let d20 = die_pmf(Die::D20);
    assert_eq!(d20.weights.len(), 21);
    assert_eq!(d20.denom, 20);
}

#[test]
fn convolve_two_d4() {
    let d4 = die_pmf(Die::D4);
    let r = convolve(&d4, &d4);
    assert_eq!(r.weights, vec![0, 0, 1, 2, 3, 4, 3, 2, 1]);
    assert_eq!(r.denom, 16);
}

#[test]
fn convolve_accumulates_pairs_with_equal_sums() {
    let a = pmf(&[1, 1], 2);
    let b = pmf(&[1, 2, 1], 4);
    let r = convolve(&a, &b);
    assert_eq!(r.weights, vec![1, 3, 3, 1]);
    assert_eq!(r.denom, 8);
}

#[test]
fn convolve_commutes_on_uneven_inputs() {
    let a = pmf(&[1, 0, 3], 4);
    let b = die_pmf(Die::D6);
    let ab = convolve(&a, &b);
    let ba = convolve(&b, &a);
    assert_eq!(ab.weights, ba.weights);
    assert_eq!(ab.denom, ba.denom);
}

#[test]
fn convolve_many_of_nothing_is_certain_zero() {
    let r = convolve_many(&Vec::new());
    assert_eq!(r.weights, vec![1]);
    assert_eq!(r.denom, 1);
}

#[test]
fn convolve_many_matches_pairwise() {
    let d4 = die_pmf(Die::D4);
    let d6 = die_pmf(Die::D6);
    let many = convolve_many(&vec![d4.clone(), d6.clone(), d4.clone()]);
    let pair = convolve(&convolve(&d4, &d6), &d4);
    assert_eq!(many.weights, pair.weights);
    assert_eq!(many.denom, 96);
    assert_eq!(many.weights.iter().sum::<u128>(), 96);
}

#[test]
fn convolve_with_unit_is_identity() {
    let d8 = die_pmf(Die::D8);
    let unit = convolve_many(&Vec::new());
    let r = convolve(&unit, &d8);
    assert_eq!(r.weights, d8.weights);
    assert_eq!(r.denom, d8.denom);
}

#[test]
fn shift_moves_outcomes() {
    let d4 = die_pmf(Die::D4);
    let r = shift(&d4, 3);
    assert_eq!(r.weights, vec![0, 0, 0, 0, 1, 1, 1, 1]);
    assert_eq!(r.denom, 4);
}

#[test]
fn mean_of_shift_adds_offset() {
    let d6 = die_pmf(Die::D6);
    let m = mean(&d6).unwrap();
    assert_eq!(m, Ratio { num: 21, den: 6 });
    let shifted = mean(&shift(&d6, 5)).unwrap();
    assert_eq!(shifted, Ratio { num: 21 + 5 * 6, den: 6 });
    assert!((as_f64(shifted) - (as_f64(m) + 5.0)).abs() < 1e-12);
}

#[test]
fn scale_multiplies_probabilities() {
    let d4 = die_pmf(Die::D4);
    let r = scale(&d4, 3, 20);
    assert_eq!(r.weights, vec![0, 3, 3, 3, 3]);
    assert_eq!(r.denom, 80);
}

#[test]
fn merge_adds_weights() {
    let a = pmf(&[1, 2], 10);
    let b = pmf(&[0, 1, 4], 10);
    let r = merge(&a, &b);
    assert_eq!(r.weights, vec![1, 3, 4]);
    assert_eq!(r.denom, 10);
}

#[test]
fn best_of_two_d4() {
    let d4 = die_pmf(Die::D4);
    let r = best_of_two(&d4);
    assert_eq!(r.weights, vec![0, 1, 3, 5, 7]);
    assert_eq!(r.denom, 16);
    let m2 = mean(&r).unwrap();
    let m1 = mean(&d4).unwrap();
    assert_eq!(m2, Ratio { num: 50, den: 16 });
    assert!(as_f64(m2) >= as_f64(m1));
}

#[test]
fn best_of_two_of_certain_value_keeps_mean() {
    let a = pmf(&[0, 0, 1], 1);
    let r = best_of_two(&a);
    assert_eq!(as_f64(mean(&r).unwrap()), as_f64(mean(&a).unwrap()));
}

#[test]
fn second_moment_of_d4() {
    let d4 = die_pmf(Die::D4);
    assert_eq!(second_moment(&d4), Some(Ratio { num: 30, den: 4 }));
}

#[test]
fn greater_than_strict_and_complement() {
    let d6 = die_pmf(Die::D6);
    let d4 = die_pmf(Die::D4);
    let ab = greater_than(&d6, &d4);
    let ba = greater_than(&d4, &d6);
    assert_eq!(ab, Ratio { num: 14, den: 24 });
    assert_eq!(ba, Ratio { num: 6, den: 24 });
    let tie: u128 = (0..d4.weights.len()).map(|v| d4.weights[v] * d6.weights[v]).sum();
    assert_eq!(ab.num + ba.num + tie, 24);
}

#[test]
fn greater_than_of_equal_dists_has_no_ties_counted() {
    let a = pmf(&[0, 1], 1);
    assert_eq!(greater_than(&a, &a), Ratio { num: 0, den: 1 });
}

#[test]
fn chance_at_least_threshold() {
    let d6 = die_pmf(Die::D6);
    assert_eq!(chance_at_least(&d6, 5), Ratio { num: 2, den: 6 });
    assert_eq!(chance_at_least(&d6, 0), Ratio { num: 6, den: 6 });
    assert_eq!(chance_at_least(&d6, 7), Ratio { num: 0, den: 6 });
}

#[test]
fn cdf_is_running_sum() {
    let d4 = die_pmf(Die::D4);
    let c = cdf(&convolve(&d4, &d4));
    assert_eq!(c.cumulative, vec![0, 0, 1, 3, 6, 10, 13, 15, 16]);
    assert_eq!(c.denom, 16);
    assert!(c.cumulative.windows(2).all(|w| w[0] <= w[1]));
}

#[test]
fn is_wf_checks_total() {
    assert!(pmf(&[1, 2], 3).is_wf());
    assert!(!pmf(&[2, 2], 3).is_wf());
    assert!(!pmf(&[0], 0).is_wf());
}

#[test]
fn variance_of_d6() {
    let d6 = die_pmf(Die::D6);
    let v = variance(&d6).unwrap();
    // 36 * 91 - 2 * 6 * 21^2 + 6 * 21^2
    assert_eq!(v, Ratio { num: 630, den: 216 });
    assert!((as_f64(v) - 35.0 / 12.0).abs() < 1e-12);
}

#[test]
fn variance_of_certain_value_is_zero() {
    let a = pmf(&[0, 0, 0, 2], 2);
    assert_eq!(variance(&a).unwrap().num, 0);
}

#[test]
fn scale_above_one_on_partial_distribution() {
    let a = pmf(&[1, 0, 1], 8);
    let r = scale(&a, 3, 1);
    assert_eq!(r.weights, vec![3, 0, 3]);
    assert_eq!(r.denom, 8);
}

#[test]
fn variance_of_partial_distribution() {
    // value 1 with probability 1/2: mean 1/2, variance (1/2)^2 * 1/2 + ... = 1/8
    let a = pmf(&[0, 1], 2);
    assert_eq!(variance(&a), Some(Ratio { num: 1, den: 8 }));
}

#[test]
fn mean_too_large_is_none() {
    let a = pmf(&[0, u128::MAX / 2, u128::MAX / 2], u128::MAX);
    assert!(mean(&a).is_none());
    assert!(second_moment(&a).is_none());
    assert!(variance(&a).is_none());
}
