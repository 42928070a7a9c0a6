use vstd::prelude::*;
use crate::combat::Build;
use crate::math::Stats;
use crate::pmf::{gt_num, greater_than, Ratio};

verus! {

/// One of the two builds being compared.
#[derive(Debug, Clone, Copy, PartialEq, Eq, Structural)]
pub enum Side {
    A,
    B,
}

/// Work for one side's workers: the build as it stood when the job was
/// made, the shared inputs, and the version that tags the job's results.
#[derive(Debug, Clone)]
pub struct Job {
    pub side: Side,
    pub version: u64,
    pub build: Build,
    pub sim_ac: u8,
    pub desired_min_dmg: u32,
}

/// What the interactive side knows of one build: whether it changed since
/// its last job, the version of that job, and the latest results of it.
#[derive(Debug)]
pub struct SideState {
    pub build: Build,
    pub dirty: bool,
    pub sent: u64,
    pub stats: Option<Stats>,
    pub means: Option<Vec<Ratio>>,
}

/// The decisions between the editing surface and the background workers.
/// Edits mark a side dirty; `take_jobs` turns dirty sides into jobs with a
/// fresh version; a result is installed only if it carries the latest
/// version sent for its side.
#[derive(Debug)]
pub struct Coordinator {
    pub a: SideState,
    pub b: SideState,
    pub sim_ac: u8,
    pub desired_min_dmg: u32,
}

/// The probability that `x`'s turn out-damages `y`'s, when both are known
/// and the exact value fits in `u128`.
pub open spec fn comparison(x: Option<Stats>, y: Option<Stats>) -> Option<Ratio> {
    match (x, y) {
        (Some(sx), Some(sy)) => if sx.pmf@.wf() && sy.pmf@.wf() && sx.pmf@.d * sy.pmf@.d <= u128::MAX {
            Some(Ratio { num: gt_num(sx.pmf@, sy.pmf@) as u128, den: (sx.pmf@.d * sy.pmf@.d) as u128 })
        } else {
            None
        },
        _ => None,
    }
}

/// `x`'s statistics with the chance of out-damaging `y` filled in.
pub open spec fn with_comparison(x: Option<Stats>, y: Option<Stats>) -> Option<Stats> {
    match x {
        Some(s) => Some(Stats { greater_then_chance: comparison(x, y), ..s }),
        None => None,
    }
}

/// Computes `comparison(x, y)`.
pub fn compare(x: &Option<Stats>, y: &Option<Stats>) -> (r: Option<Ratio>)
    ensures
        r == comparison(*x, *y),
{
    match (x, y) {
        (Some(sx), Some(sy)) => {
            if !sx.pmf.is_wf() || !sy.pmf.is_wf() {
                return None;
            }
            match sx.pmf.denom.checked_mul(sy.pmf.denom) {
                Some(_) => Some(greater_than(&sx.pmf, &sy.pmf)),
                None => None,
            }
        },
        _ => None,
    }
}

impl SideState {
    pub fn new(build: Build) -> (r: SideState)
        ensures
            r.build == build,
            r.dirty,
            r.sent == 0,
            r.stats.is_none(),
            r.means.is_none(),
    {
        SideState { build, dirty: true, sent: 0, stats: None, means: None }
    }
}

impl Coordinator {
    pub open spec fn side(&self, side: Side) -> &SideState {
        match side {
            Side::A => &self.a,
            Side::B => &self.b,
        }
    }

    /// Both builds start dirty, so that the first tick computes them.
    pub fn new(build_a: Build, build_b: Build, sim_ac: u8, desired_min_dmg: u32) -> (r: Coordinator)
        ensures
            r.a.build == build_a && r.b.build == build_b,
            r.a.dirty && r.b.dirty,
            r.a.sent == 0 && r.b.sent == 0,
            r.a.stats.is_none() && r.b.stats.is_none(),
            r.a.means.is_none() && r.b.means.is_none(),
            r.sim_ac == sim_ac,
            r.desired_min_dmg == desired_min_dmg,
    {
        Coordinator { a: SideState::new(build_a), b: SideState::new(build_b), sim_ac, desired_min_dmg }
    }

    /// Records that the build of `side` was edited.
    pub fn mark_changed(&mut self, side: Side)
        ensures
            final(self).side(side).dirty,
            final(self).side(side).build == old(self).side(side).build,
            final(self).side(side).sent == old(self).side(side).sent,
            final(self).side(side).stats == old(self).side(side).stats,
            final(self).side(side).means == old(self).side(side).means,
            side == Side::A ==> final(self).b == old(self).b,
            side == Side::B ==> final(self).a == old(self).a,
            final(self).sim_ac == old(self).sim_ac,
            final(self).desired_min_dmg == old(self).desired_min_dmg,
    {
        match side {
            Side::A => {
                self.a.dirty = true;
            },
            Side::B => {
                self.b.dirty = true;
            },
        }
    }

    /// Changes the shared inputs; a change marks both sides dirty.
    pub fn set_inputs(&mut self, sim_ac: u8, desired_min_dmg: u32)
        ensures
            final(self).sim_ac == sim_ac,
            final(self).desired_min_dmg == desired_min_dmg,
            final(self).a.dirty == (old(self).a.dirty || sim_ac != old(self).sim_ac || desired_min_dmg
                != old(self).desired_min_dmg),
            final(self).b.dirty == (old(self).b.dirty || sim_ac != old(self).sim_ac || desired_min_dmg
                != old(self).desired_min_dmg),
            final(self).a.sent == old(self).a.sent && final(self).b.sent == old(self).b.sent,
            final(self).a.build == old(self).a.build && final(self).b.build == old(self).b.build,
            final(self).a.stats == old(self).a.stats && final(self).b.stats == old(self).b.stats,
            final(self).a.means == old(self).a.means && final(self).b.means == old(self).b.means,
    {
        if sim_ac != self.sim_ac || desired_min_dmg != self.desired_min_dmg {
            self.a.dirty = true;
            self.b.dirty = true;
        }
        self.sim_ac = sim_ac;
        self.desired_min_dmg = desired_min_dmg;
    }

    fn take_side(state: &mut SideState, side: Side, sim_ac: u8, desired_min_dmg: u32, jobs: &mut Vec<Job>)
        ensures
            (old(state).dirty && old(state).sent < u64::MAX) ==> {
                &&& final(state).sent == old(state).sent + 1
                &&& !final(state).dirty
                &&& final(jobs)@.len() == old(jobs)@.len() + 1
                &&& final(jobs)@.last().side == side
                &&& final(jobs)@.last().version == final(state).sent
                &&& final(jobs)@.last().build.same_as(old(state).build)
                &&& final(jobs)@.last().sim_ac == sim_ac
                &&& final(jobs)@.last().desired_min_dmg == desired_min_dmg
                &&& final(jobs)@.drop_last() == old(jobs)@
            },
            !(old(state).dirty && old(state).sent < u64::MAX) ==> final(state).sent == old(state).sent
                && final(state).dirty == old(state).dirty && final(jobs)@ == old(jobs)@,
            final(state).build == old(state).build,
            final(state).stats == old(state).stats,
            final(state).means == old(state).means,
    {
        if state.dirty && state.sent < u64::MAX {
            state.sent = state.sent + 1;
            state.dirty = false;
            let ghost before = jobs@;
            jobs.push(
                Job { side, version: state.sent, build: state.build.snapshot(), sim_ac, desired_min_dmg },
            );
            proof {
                assert(jobs@.drop_last() =~= before);
            }
        }
    }

    /// One job for each dirty side, A first, each with the next version of
    /// its side; the sides that got a job are clean afterwards. A side whose
    /// version counter is exhausted stays dirty and gets no job.
    pub fn take_jobs(&mut self) -> (jobs: Vec<Job>)
        ensures
            forall|i: int| 0 <= i < jobs@.len() ==> {
                let j = #[trigger] jobs@[i];
                &&& j.version == final(self).side(j.side).sent
                &&& j.version == old(self).side(j.side).sent + 1
                &&& j.build.same_as(old(self).side(j.side).build)
                &&& j.sim_ac == final(self).sim_ac
                &&& j.desired_min_dmg == final(self).desired_min_dmg
            },
            jobs@.len() == (if old(self).a.dirty && old(self).a.sent < u64::MAX { 1int } else { 0int }) + (
            if old(self).b.dirty && old(self).b.sent < u64::MAX { 1int } else { 0int }),
            (old(self).a.dirty && old(self).a.sent < u64::MAX) ==> !final(self).a.dirty && jobs@[0].side
                == Side::A,
            (old(self).b.dirty && old(self).b.sent < u64::MAX) ==> !final(self).b.dirty && jobs@.last().side
                == Side::B,
            !(old(self).a.dirty && old(self).a.sent < u64::MAX) ==> final(self).a.sent == old(self).a.sent
                && final(self).a.dirty == old(self).a.dirty,
            !(old(self).b.dirty && old(self).b.sent < u64::MAX) ==> final(self).b.sent == old(self).b.sent
                && final(self).b.dirty == old(self).b.dirty,
            final(self).sim_ac == old(self).sim_ac,
            final(self).desired_min_dmg == old(self).desired_min_dmg,
    {
        let mut jobs: Vec<Job> = Vec::new();
        let ac = self.sim_ac;
        let min = self.desired_min_dmg;
        Self::take_side(&mut self.a, Side::A, ac, min, &mut jobs);
        let ghost mid = jobs@;
        Self::take_side(&mut self.b, Side::B, ac, min, &mut jobs);
        proof {
            if jobs@.len() == 2 {
                assert(jobs@[0] == mid[0]);
            }
            assert forall|i: int| 0 <= i < jobs@.len() implies {
                let j = #[trigger] jobs@[i];
                &&& j.version == self.side(j.side).sent
                &&& j.version == old(self).side(j.side).sent + 1
                &&& j.build.same_as(old(self).side(j.side).build)
                &&& j.sim_ac == self.sim_ac
                &&& j.desired_min_dmg == self.desired_min_dmg
            } by {
                if i < mid.len() {
                    assert(jobs@[i] == mid[i]);
                }
            }
        }
        jobs
    }

    /// Installs the statistics computed for `version` of `side`, unless a
    /// later version has been sent since; returns whether they were
    /// installed.
    pub fn accept_stats(&mut self, side: Side, version: u64, stats: Option<Stats>) -> (r: bool)
        ensures
            r == (version == old(self).side(side).sent),
            r ==> final(self).side(side).stats == stats,
            !r ==> final(self).side(side).stats == old(self).side(side).stats,
            final(self).side(side).means == old(self).side(side).means,
            final(self).side(side).sent == old(self).side(side).sent,
            final(self).side(side).dirty == old(self).side(side).dirty,
            side == Side::A ==> final(self).b == old(self).b,
            side == Side::B ==> final(self).a == old(self).a,
    {
        match side {
            Side::A => {
                if version == self.a.sent {
                    self.a.stats = stats;
                    true
                } else {
                    false
                }
            },
            Side::B => {
                if version == self.b.sent {
                    self.b.stats = stats;
                    true
                } else {
                    false
                }
            },
        }
    }

    /// Installs the survey of means computed for `version` of `side`, unless
    /// a later version has been sent since, and then recomputes the chance
    /// that this side out-damages the other from the statistics both sides
    /// hold now; returns whether the means were installed.
    pub fn accept_means(&mut self, side: Side, version: u64, means: Option<Vec<Ratio>>) -> (r: bool)
        ensures
            r == (version == old(self).side(side).sent),
            r ==> final(self).side(side).means == means,
            !r ==> *final(self) == *old(self),
            final(self).side(side).sent == old(self).side(side).sent,
            r ==> final(self).side(side).stats == with_comparison(
                old(self).side(side).stats,
                match side {
                    Side::A => old(self).b.stats,
                    Side::B => old(self).a.stats,
                },
            ),
            final(self).side(side).dirty == old(self).side(side).dirty,
            final(self).side(side).build == old(self).side(side).build,
            side == Side::A ==> final(self).b == old(self).b,
            side == Side::B ==> final(self).a == old(self).a,
    {
        match side {
            Side::A => {
                if version != self.a.sent {
                    return false;
                }
                self.a.means = means;
                let g = compare(&self.a.stats, &self.b.stats);
                if let Some(s) = &mut self.a.stats {
                    s.greater_then_chance = g;
                }
                true
            },
            Side::B => {
                if version != self.b.sent {
                    return false;
                }
                self.b.means = means;
                let g = compare(&self.b.stats, &self.a.stats);
                if let Some(s) = &mut self.b.stats {
                    s.greater_then_chance = g;
                }
                true
            },
        }
    }
}

} // verus!
