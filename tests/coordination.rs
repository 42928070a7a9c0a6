use dnd_damage::combat::Build;
use dnd_damage::coordinator::{Coordinator, Side};
use dnd_damage::math::{calc_build_means, calc_build_stats};

#[test]
fn new_coordinator_dispatches_both_sides() {
    let mut c = Coordinator::new(Build::default(), Build::default(), 18, 15);
    let jobs = c.take_jobs();
    assert_eq!(jobs.len(), 2);
    assert_eq!(jobs[0].side, Side::A);
    assert_eq!(jobs[1].side, Side::B);
    assert_eq!(jobs[0].version, 1);
    assert_eq!(jobs[0].sim_ac, 18);
    assert_eq!(jobs[0].desired_min_dmg, 15);
    assert!(c.take_jobs().is_empty());
}

#[test]
fn edits_and_inputs_mark_dirty() {
    let mut c = Coordinator::new(Build::default(), Build::default(), 18, 15);
    c.take_jobs();
    c.mark_changed(Side::B);
    let jobs = c.take_jobs();
    assert_eq!(jobs.len(), 1);
    assert_eq!(jobs[0].side, Side::B);
    assert_eq!(jobs[0].version, 2);
    c.set_inputs(18, 15);
    assert!(c.take_jobs().is_empty());
    c.set_inputs(12, 15);
    assert_eq!(c.take_jobs().len(), 2);
}

#[test]
fn stale_results_are_discarded() {
    let mut c = Coordinator::new(Build::default(), Build::default(), 18, 15);
    let first = c.take_jobs();
    c.mark_changed(Side::A);
    let second = c.take_jobs();
    let stale = calc_build_stats(&first[0].build, first[0].sim_ac, first[0].desired_min_dmg);
    assert!(!c.accept_stats(Side::A, first[0].version, stale));
    assert!(c.a.stats.is_none());
    let fresh = calc_build_stats(&second[0].build, second[0].sim_ac, second[0].desired_min_dmg);
    assert!(c.accept_stats(Side::A, second[0].version, fresh));
    assert!(c.a.stats.is_some());
    assert!(!c.accept_means(Side::A, first[0].version, calc_build_means(&first[0].build)));
    assert!(c.a.means.is_none());
}

#[test]
fn means_arrival_fills_comparison() {
    let mut c = Coordinator::new(Build::default(), Build::default(), 18, 15);
    let jobs = c.take_jobs();
    for j in &jobs {
        let s = calc_build_stats(&j.build, j.sim_ac, j.desired_min_dmg);
        assert!(c.accept_stats(j.side, j.version, s));
    }
    for j in &jobs {
        assert!(c.accept_means(j.side, j.version, calc_build_means(&j.build)));
    }
    let ga = c.a.stats.as_ref().unwrap().greater_then_chance.unwrap();
    let gb = c.b.stats.as_ref().unwrap().greater_then_chance.unwrap();
    assert_eq!(ga, gb);
    assert!(ga.num < ga.den / 2);
    assert_eq!(c.a.means.as_ref().unwrap().len(), 14);
}

#[test]
fn jobs_carry_a_copy_of_the_build() {
    let mut b = Build::default();
    b.savage = true;
    let mut c = Coordinator::new(Build::default(), b, 18, 15);
    let jobs = c.take_jobs();
    assert!(!jobs[0].build.savage);
    assert!(jobs[1].build.savage);
    c.b.build.attacks.clear();
    assert_eq!(jobs[1].build.attacks.len(), 1);
    let snap = c.a.build.snapshot();
    assert_eq!(snap.attacks.len(), c.a.build.attacks.len());
    assert_eq!(snap.attacks[0].ab, c.a.build.attacks[0].ab);
}
