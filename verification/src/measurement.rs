//! The measuring of a group, batch by batch: every case is calibrated, and then
//! they are sampled in the order of the schedule.
//!
//! The clock is elsewhere. This says which batch is to be run next, and takes in
//! what it cost.

use vstd::prelude::*;

use crate::baseline::{Baseline, RowView};
use crate::bencher::{
    a_reason_settles_the_size, batch_sizes_are_settled_for_a_reason, calibration_ends,
    is_power_of_two, Batch, Calibrated, Calibration, MIN_SAMPLES,
};
use crate::cli::Config;
use crate::group::Case;
use crate::report::{CaseResult, GroupResult};
use crate::runner::{
    agreed, budget, every_case_gets_its_samples, max_batch, occurrences, order,
    samples_fit_the_budget, samples_wanted,
    sequential_ratios_are_of_the_minima, summarize, summarizes, target_samples, visit_length, Plan,
    Schedule,
};
use crate::stats::{
    in_order, is_least_of, iteration_ratio_quantile, pairs, per_iteration, percent, quantile_of,
    ratios_are_per_iteration, shared_rounds, the_minimum_is_per_iteration,
    times_are_per_iteration,
};

verus! {

/// How far the measuring of a group is.
#[derive(Debug, Clone, PartialEq, Eq)]
pub enum Phase {
    /// The batch size of the next case is being searched for.
    Calibrating(Calibration),
    /// A sample of `case` is due, and `schedule` says what follows it.
    Sampling { schedule: Schedule, case: usize },
    /// Every case has its samples.
    Finished,
}

/// The measuring of a group, between two batches.
#[derive(Debug, Clone, PartialEq, Eq)]
pub struct Measurement {
    /// The time budget of each case in nanoseconds.
    pub budget: u128,
    /// Upper bound on samples collected per case.
    pub cap: usize,
    /// Samples collected per visit to a case while interleaving.
    pub block: usize,
    /// Cases are measured in interleaved rounds.
    pub interleave: bool,
    /// The cases that are measured, in registration order.
    pub plans: Vec<Plan>,
    /// How many samples each case gets, as far as that is decided.
    pub targets: Vec<usize>,
    pub phase: Phase,
}

/// The batch to run next: `iters` iterations of case number `case`.
#[derive(Debug, Clone, Copy, PartialEq, Eq)]
pub struct Wanted {
    pub case: usize,
    pub iters: u64,
}

/// The search for the batch size of a case at its start.
pub open spec fn fresh_search(budget: u128) -> Calibration {
    Calibration { iters: 1, max_batch: budget / 10, cleared: None }
}

/// Is this a number of samples that a case gets? Ten at least, and no more than
/// `cap`; where the cap is below ten, exactly the cap, of one at least.
pub open spec fn is_due(target: int, cap: int) -> bool {
    let most = if cap < 1 {
        1
    } else {
        cap
    };
    let least = if most < MIN_SAMPLES {
        most
    } else {
        MIN_SAMPLES as int
    };
    least <= target <= most
}

/// Is `p` the case `c` before anything is known of it?
pub open spec fn is_unmeasured(p: Plan, c: Case) -> bool {
    p.name@ == c.name@ && p.throughput == c.throughput && p.samples@.len() == 0
}

/// Is `new` the list `old`, but for the batch size of case `k`?
pub open spec fn sizes(old: Seq<Plan>, new: Seq<Plan>, k: int, iters: u64) -> bool {
    &&& new.len() == old.len()
    &&& forall|i: int| 0 <= i < old.len() && i != k ==> #[trigger] new[i] == old[i]
    &&& new[k] == (Plan { iters, ..old[k] })
}

/// Is `new` the list `old`, but for one more sample of case `k`?
pub open spec fn samples(old: Seq<Plan>, new: Seq<Plan>, k: int, nanos: u128) -> bool {
    &&& new.len() == old.len()
    &&& forall|i: int| 0 <= i < old.len() && i != k ==> #[trigger] new[i] == old[i]
    &&& new[k].name == old[k].name
    &&& new[k].throughput == old[k].throughput
    &&& new[k].iters == old[k].iters
    &&& new[k].samples@ == old[k].samples@.push(nanos)
}

/// Is `m` where the measuring of the cases at `places` starts?
pub open spec fn starts(m: Measurement, cases: Seq<Case>, places: Seq<usize>) -> bool {
    &&& m.plans@.len() == places.len()
    &&& forall|i: int|
        0 <= i < places.len() ==> is_unmeasured(#[trigger] m.plans@[i], cases[places[i] as int])
    &&& m.targets@.len() == 0
    &&& m.phase == if places.len() == 0 {
        Phase::Finished
    } else {
        Phase::Calibrating(fresh_search(m.budget))
    }
}

/// Is this a run of the measuring: a state before each batch, each of them well
/// formed, and one after the last?
pub open spec fn runs(states: Seq<Measurement>, batches: Seq<Batch>) -> bool {
    &&& states.len() == batches.len() + 1
    &&& forall|k: int| 0 <= k < states.len() ==> (#[trigger] states[k]).wf()
    &&& forall|k: int|
        0 <= k < batches.len() ==> states[k].takes(states[k + 1], #[trigger] batches[k])
}

impl Measurement {
    /// The cases still to be sampled, in order, once all are calibrated.
    pub open spec fn upcoming(&self) -> Seq<int> {
        match self.phase {
            Phase::Sampling { schedule, case } => seq![case as int] + schedule.upcoming(),
            _ => Seq::empty(),
        }
    }

    /// The counts agree with how far the measuring is.
    pub open spec fn wf(&self) -> bool {
        let n = self.plans@.len();
        &&& self.targets@.len() <= n
        &&& forall|i: int|
            0 <= i < self.targets@.len() ==> is_due(
                #[trigger] self.targets@[i] as int,
                self.cap as int,
            )
        &&& forall|i: int|
            0 <= i < self.targets@.len() ==> is_power_of_two(
                (#[trigger] self.plans@[i]).iters as int,
            )
        &&& match self.phase {
            Phase::Calibrating(search) => {
                &&& search.wf()
                &&& search.max_batch == self.budget / 10
                &&& self.targets@.len() < n
                &&& forall|i: int| 0 <= i < n ==> (#[trigger] self.plans@[i]).samples@.len() == 0
            },
            Phase::Sampling { schedule, case } => {
                &&& schedule.wf()
                &&& schedule.targets@ == self.targets@
                &&& case < n
                &&& self.targets@.len() == n
                &&& forall|i: int|
                    0 <= i < n ==> (#[trigger] self.plans@[i]).samples@.len() + occurrences(
                        self.upcoming(),
                        i,
                    ) == self.targets@[i]
            },
            Phase::Finished => {
                &&& self.targets@.len() == n
                &&& forall|i: int|
                    0 <= i < n ==> (#[trigger] self.plans@[i]).samples@.len() == self.targets@[i]
            },
        }
    }

    /// An upper bound on the batches that calibration still takes.
    pub open spec fn calibration_left(&self) -> nat {
        match self.phase {
            Phase::Calibrating(search) => (128 * (self.plans@.len() - self.targets@.len() - 1)
                + search.batches_left()) as nat,
            _ => 0,
        }
    }

    /// Is `new` how the measuring stands after `batch`?
    pub open spec fn takes(self, new: Measurement, batch: Batch) -> bool {
        &&& new.budget == self.budget
        &&& new.cap == self.cap
        &&& new.block == self.block
        &&& new.interleave == self.interleave
        &&& match self.phase {
            Phase::Calibrating(search) => {
                let (next, done) = search.after(batch);
                match done {
                    // Another batch of the same case.
                    None => {
                        &&& new.phase == Phase::Calibrating(next)
                        &&& new.plans@ == self.plans@
                        &&& new.targets@ == self.targets@
                    },
                    // The batch size is settled, and with it how many samples
                    // fit in the budget.
                    Some(done) => {
                        let k = self.targets@.len() as int;
                        &&& sizes(self.plans@, new.plans@, k, done.iters)
                        &&& new.targets@ == self.targets@.push(
                            samples_wanted(
                                done.wall as int,
                                self.budget as int,
                                self.cap as int,
                            ) as usize,
                        )
                        &&& if k + 1 < self.plans@.len() {
                            new.phase == Phase::Calibrating(fresh_search(self.budget))
                        } else {
                            &&& new.phase is Sampling
                            &&& new.upcoming() == order(
                                new.targets@,
                                visit_length(self.block, self.interleave) as nat,
                            )
                        }
                    },
                }
            },
            // One more sample of the case that was due.
            Phase::Sampling { schedule: _, case } => {
                &&& samples(self.plans@, new.plans@, case as int, batch.timed)
                &&& new.targets@ == self.targets@
                &&& new.upcoming() == self.upcoming().drop_first()
                &&& new.phase !is Calibrating
                &&& new.phase is Finished <==> new.upcoming().len() == 0
            },
            Phase::Finished => false,
        }
    }

    /// Nothing measured: the cases at `places`, each to be calibrated.
    pub fn new(config: &Config, cases: &Vec<Case>, places: &Vec<usize>) -> (r: Self)
        requires
            forall|i: int| 0 <= i < places@.len() ==> #[trigger] places@[i] < cases@.len(),
        ensures
            r.wf(),
            r.budget == config.time_ms * 1_000_000,
            r.cap == config.samples,
            r.block == config.block,
            r.interleave == config.interleave,
            starts(r, cases@, places@),
    {
        let n = places.len();
        let mut plans: Vec<Plan> = Vec::new();
        let mut i: usize = 0;
        while i < n
            invariant
                n == places@.len(),
                forall|j: int| 0 <= j < n ==> #[trigger] places@[j] < cases@.len(),
                i <= n,
                plans@.len() == i,
                forall|j: int|
                    0 <= j < i ==> is_unmeasured(#[trigger] plans@[j], cases@[places@[j] as int]),
            decreases n - i,
        {
            let place = places[i];
            plans.push(Plan::new(&cases[place], 1));
            i += 1;
        }
        let budget = budget(config.time_ms);
        let phase = if n == 0 {
            Phase::Finished
        } else {
            Phase::Calibrating(Calibration::new(max_batch(budget)))
        };
        Measurement {
            budget,
            cap: config.samples,
            block: config.block,
            interleave: config.interleave,
            plans,
            targets: Vec::new(),
            phase,
        }
    }

    /// The batch to run next, or `None` when every case has its samples.
    pub fn wanted(&self) -> (r: Option<Wanted>)
        requires
            self.wf(),
        ensures
            r is None <==> self.phase is Finished,
            r matches Some(w) ==> w.case < self.plans@.len(),
            r == match self.phase {
                Phase::Calibrating(search) => Some(
                    Wanted { case: self.targets@.len() as usize, iters: search.iters },
                ),
                Phase::Sampling { schedule: _, case } => Some(
                    Wanted { case, iters: self.plans@[case as int].iters },
                ),
                Phase::Finished => None,
            },
    {
        match &self.phase {
            Phase::Calibrating(search) => Some(
                Wanted { case: self.targets.len(), iters: search.iters },
            ),
            Phase::Sampling { schedule: _, case } => Some(
                Wanted { case: *case, iters: self.plans[*case].iters },
            ),
            Phase::Finished => None,
        }
    }

    /// Take in the batch that was wanted.
    pub fn take(&mut self, batch: Batch)
        requires
            old(self).wf(),
            old(self).phase !is Finished,
        ensures
            final(self).wf(),
            old(self).takes(*final(self), batch),
    {
        let mut phase = Phase::Finished;
        std::mem::swap(&mut phase, &mut self.phase);
        match phase {
            Phase::Calibrating(search) => {
                let ghost before = search;
                let mut search = search;
                match search.step(batch) {
                    None => self.phase = Phase::Calibrating(search),
                    Some(done) => {
                        proof {
                            batch_sizes_are_settled_for_a_reason(before, batch);
                        }
                        self.settle(done);
                    },
                }
            },
            Phase::Sampling { schedule, case } => {
                let ghost due = seq![case as int] + schedule.upcoming();
                let ghost before = self.plans@;
                let mut schedule = schedule;
                self.plans[case].take_sample(batch.timed);
                let ghost left = schedule.upcoming();
                match schedule.next() {
                    Some(next) => {
                        self.phase = Phase::Sampling { schedule, case: next };
                        assert(self.upcoming() =~= left);
                    },
                    None => {
                        self.phase = Phase::Finished;
                        assert(left =~= Seq::<int>::empty());
                    },
                }
                proof {
                    assert(due.drop_first() =~= left);
                    assert forall|i: int| 0 <= i < before.len() implies (
                    #[trigger] self.plans@[i]).samples@.len() + occurrences(left, i)
                        == self.targets@[i] by {
                        assert(before[i].samples@.len() + occurrences(due, i) == self.targets@[i]);
                        occurrences_of_the_first(case as int, left, i);
                    }
                }
            },
            Phase::Finished => {},
        }
    }

    /// The batch size of the next case is settled. Calibrate the one after it,
    /// or start sampling if that was the last.
    fn settle(&mut self, done: Calibrated)
        requires
            old(self).targets@.len() < old(self).plans@.len(),
            forall|i: int|
                0 <= i < old(self).targets@.len() ==> is_due(
                    #[trigger] old(self).targets@[i] as int,
                    old(self).cap as int,
                ),
            forall|i: int|
                0 <= i < old(self).targets@.len() ==> is_power_of_two(
                    (#[trigger] old(self).plans@[i]).iters as int,
                ),
            is_power_of_two(done.iters as int),
            forall|i: int|
                0 <= i < old(self).plans@.len() ==> (#[trigger] old(self).plans@[i]).samples@.len()
                    == 0,
        ensures
            final(self).wf(),
            final(self).budget == old(self).budget,
            final(self).cap == old(self).cap,
            final(self).block == old(self).block,
            final(self).interleave == old(self).interleave,
            sizes(
                old(self).plans@,
                final(self).plans@,
                old(self).targets@.len() as int,
                done.iters,
            ),
            final(self).targets@ == old(self).targets@.push(
                samples_wanted(
                    done.wall as int,
                    old(self).budget as int,
                    old(self).cap as int,
                ) as usize,
            ),
            if old(self).targets@.len() + 1 < old(self).plans@.len() {
                final(self).phase == Phase::Calibrating(fresh_search(old(self).budget))
            } else {
                final(self).phase is Sampling && final(self).upcoming() == order(
                    final(self).targets@,
                    visit_length(old(self).block, old(self).interleave) as nat,
                )
            },
    {
        let k = self.targets.len();
        self.plans[k].iters = done.iters;
        let target = target_samples(done.wall, self.budget, self.cap);
        self.targets.push(target);
        if self.targets.len() < self.plans.len() {
            self.phase = Phase::Calibrating(Calibration::new(max_batch(self.budget)));
            return;
        }
        let mut targets: Vec<usize> = Vec::new();
        targets.extend_from_slice(self.targets.as_slice());
        assert(targets@ =~= self.targets@);
        let mut schedule = Schedule::new(targets, self.block, self.interleave);
        let ghost all = schedule.upcoming();
        proof {
            let b = visit_length(self.block, self.interleave) as nat;
            assert forall|i: int| 0 <= i < targets@.len() implies occurrences(all, i)
                == #[trigger] targets@[i] by {
                every_case_gets_its_samples(targets@, b, i);
            }
            assert(occurrences(all, 0) == targets@[0]);
        }
        match schedule.next() {
            Some(case) => {
                self.phase = Phase::Sampling { schedule, case };
                proof {
                    assert(self.upcoming() =~= all);
                }
            },
            None => {
                assert(false);
            },
        }
    }

    /// The result of the group.
    pub fn finish(&self, saved: &Baseline, group: &str, no_reference: bool) -> (r: GroupResult)
        requires
            self.wf(),
            self.phase is Finished,
        ensures
            r.name@ == group@,
            r.no_reference == no_reference,
            r.throughput == agreed(self.plans@),
            r.cases@.len() == self.plans@.len(),
            forall|i: int|
                0 <= i < self.plans@.len() ==> summarizes(
                    #[trigger] r.cases@[i],
                    self.interleave,
                    saved@,
                    group@,
                    no_reference,
                    self.plans@,
                    i,
                ),
    {
        summarize(self.interleave, saved, group, no_reference, &self.plans)
    }
}

/// How often `i` occurs in a list that starts with `c`.
proof fn occurrences_of_the_first(c: int, rest: Seq<int>, i: int)
    ensures
        occurrences(seq![c] + rest, i) == occurrences(rest, i) + if c == i {
            1nat
        } else {
            0nat
        },
    decreases rest.len(),
{
    reveal_with_fuel(occurrences, 2);
    let all = seq![c] + rest;
    if rest.len() == 0 {
        assert(all.drop_last() =~= Seq::<int>::empty());
        assert(all.last() == c);
    } else {
        assert(all.drop_last() =~= seq![c] + rest.drop_last());
        assert(all.last() == rest.last());
        occurrences_of_the_first(c, rest.drop_last(), i);
    }
}

/// However the batches turn out, the measuring ends: each one brings the end of
/// calibration nearer, and once that is over, each is one of the samples still
/// due.
pub proof fn measuring_ends(m: Measurement, new: Measurement, batch: Batch)
    requires
        m.wf(),
        m.takes(new, batch),
    ensures
        m.phase is Calibrating ==> new.calibration_left() < m.calibration_left(),
        m.phase is Sampling ==> new.phase !is Calibrating && new.upcoming().len() + 1
            == m.upcoming().len(),
{
    if let Phase::Calibrating(search) = m.phase {
        batch_sizes_are_settled_for_a_reason(search, batch);
        calibration_ends((m.budget / 10) as u128);
    }
}

/// A finished group has of every case as many samples as it was to get: ten at
/// least and at most the cap, or the cap itself where that is below ten. Its
/// batches are a power of two iterations, so there is a time per iteration.
pub proof fn a_finished_group_has_its_samples(m: Measurement, i: int)
    requires
        m.wf(),
        m.phase is Finished,
        0 <= i < m.plans@.len(),
    ensures
        m.plans@[i].samples@.len() == m.targets@[i],
        is_due(m.plans@[i].samples@.len() as int, m.cap as int),
        is_power_of_two(m.plans@[i].iters as int),
        m.plans@[i].iters > 0,
{
    assert(is_due(m.targets@[i] as int, m.cap as int));
}

/// The reported times are times per iteration: those of a finished group's
/// cases, divided by the iterations of a batch, are the least and the order
/// statistics of the samples divided by them.
pub proof fn a_finished_group_reports_times_per_iteration(
    m: Measurement,
    c: CaseResult,
    saved: Map<Seq<char>, RowView>,
    group: Seq<char>,
    no_reference: bool,
    i: int,
)
    requires
        m.wf(),
        m.phase is Finished,
        0 <= i < m.plans@.len(),
        summarizes(c, m.interleave, saved, group, no_reference, m.plans@, i),
    ensures
        is_least_of(
            (c.stats.min as real) / (c.iters as real),
            per_iteration(c.samples@, c.iters),
        ),
        quantile_of(in_order(per_iteration(c.samples@, c.iters)), percent(50))
            == c.stats.p50.value() / (c.iters as real),
        quantile_of(in_order(per_iteration(c.samples@, c.iters)), percent(90))
            == c.stats.p90.value() / (c.iters as real),
{
    a_finished_group_has_its_samples(m, i);
    the_minimum_is_per_iteration(c.stats, c.samples@, c.iters);
    times_are_per_iteration(c.samples@, c.iters, percent(50));
    times_are_per_iteration(c.samples@, c.iters, percent(90));
}

/// The reported ratios are ratios per iteration: that of an interleaved case and
/// the ends of its band, times the factor between the two batch sizes, are the
/// median and the quartiles of the per-round ratios of its times per iteration.
pub proof fn a_finished_group_reports_ratios_per_iteration(
    m: Measurement,
    c: CaseResult,
    saved: Map<Seq<char>, RowView>,
    group: Seq<char>,
    i: int,
)
    requires
        m.wf(),
        m.phase is Finished,
        m.interleave,
        0 < i < m.plans@.len(),
        summarizes(c, true, saved, group, false, m.plans@, i),
        pairs(m.plans@[i].samples@, m.plans@[0].samples@).len() > 0,
    ensures
        ({
            let (case, reference) = (m.plans@[i].samples@, m.plans@[0].samples@);
            let (own, other) = (c.iters, c.reference_iters);
            let factor = (other as real) / (own as real);
            &&& c.ratio is Some
            &&& iteration_ratio_quantile(case, reference, own, other, percent(50)) == factor
                * c.ratio->0.point.value()
            &&& c.ratio->0.iqr matches Some((lo, hi)) ==> {
                &&& iteration_ratio_quantile(case, reference, own, other, percent(25)) == factor
                    * lo.value()
                &&& iteration_ratio_quantile(case, reference, own, other, percent(75)) == factor
                    * hi.value()
            }
        }),
{
    a_finished_group_has_its_samples(m, i);
    a_finished_group_has_its_samples(m, 0);
    let (case, reference) = (m.plans@[i].samples@, m.plans@[0].samples@);
    ratios_are_per_iteration(case, reference, c.iters, c.reference_iters, percent(25));
    ratios_are_per_iteration(case, reference, c.iters, c.reference_iters, percent(50));
    ratios_are_per_iteration(case, reference, c.iters, c.reference_iters, percent(75));
}

/// Where no round can be compared there is no ratio either: a reference that
/// took no time in any shared round has zero for its minimum.
pub proof fn without_pairs_there_is_no_ratio(
    m: Measurement,
    c: CaseResult,
    saved: Map<Seq<char>, RowView>,
    group: Seq<char>,
    i: int,
)
    requires
        m.wf(),
        m.phase is Finished,
        0 < i < m.plans@.len(),
        summarizes(c, m.interleave, saved, group, false, m.plans@, i),
        pairs(m.plans@[i].samples@, m.plans@[0].samples@).len() == 0,
    ensures
        c.ratio is None,
{
    a_finished_group_has_its_samples(m, i);
    a_finished_group_has_its_samples(m, 0);
    let (case, reference) = (m.plans@[i].samples@, m.plans@[0].samples@);
    assert(reference[shared_rounds(case, reference) - 1] == 0);
}

/// The ratios of a sequential run are ratios per iteration too: that of the two
/// minima, times the factor between the two batch sizes, is the quotient of the
/// two least times per iteration.
pub proof fn a_sequential_group_reports_ratios_per_iteration(
    m: Measurement,
    c: CaseResult,
    reference: CaseResult,
    saved: Map<Seq<char>, RowView>,
    group: Seq<char>,
    i: int,
)
    requires
        m.wf(),
        m.phase is Finished,
        !m.interleave,
        0 < i < m.plans@.len(),
        summarizes(c, false, saved, group, false, m.plans@, i),
        summarizes(reference, false, saved, group, false, m.plans@, 0),
    ensures
        ({
            let own = (c.stats.min as real) / (c.iters as real);
            let other = (reference.stats.min as real) / (reference.iters as real);
            let factor = (c.reference_iters as real) / (c.iters as real);
            &&& is_least_of(own, per_iteration(c.samples@, c.iters))
            &&& is_least_of(other, per_iteration(reference.samples@, reference.iters))
            &&& c.ratio is Some <==> other > 0 as real
            &&& c.ratio matches Some(r) ==> factor * r.point.value() == own / other && r.iqr is None
        }),
{
    a_finished_group_has_its_samples(m, i);
    a_finished_group_has_its_samples(m, 0);
    the_minimum_is_per_iteration(c.stats, c.samples@, c.iters);
    the_minimum_is_per_iteration(reference.stats, reference.samples@, reference.iters);
    sequential_ratios_are_of_the_minima(c, reference, saved, group, false, m.plans@, i);
    let (a, b) = (c.stats.min as real, reference.stats.min as real);
    let (k, j) = (c.iters as real, reference.iters as real);
    assert(b / j > 0 as real <==> b > 0 as real) by (nonlinear_arith)
        requires
            j > 0 as real,
            b >= 0 as real,
    ;
    if b > 0 as real {
        assert((j / k) * (a / b) == (a / k) / (b / j)) by (nonlinear_arith)
            requires
                j > 0 as real,
                k > 0 as real,
                b > 0 as real,
        ;
    }
}

/// A settled case fits its budget: the size is that of the batch that was run,
/// and the samples are as many as fit of what that batch took, ten at least and
/// at most the cap. The search for the next case starts with one iteration, and
/// ends at a tenth of the budget at the latest.
pub proof fn a_settled_case_fits_its_budget(m: Measurement, new: Measurement, batch: Batch)
    requires
        m.wf(),
        m.takes(new, batch),
        new.targets@.len() != m.targets@.len(),
    ensures
        ({
            let k = m.targets@.len() as int;
            let target = new.targets@[k] as int;
            let most: int = if m.cap == 0 {
                1
            } else {
                m.cap as int
            };
            let least: int = if most < 10 {
                most
            } else {
                10
            };
            &&& m.phase is Calibrating
            &&& new.targets@.len() == k + 1
            &&& new.plans@[k].iters == m.phase->Calibrating_0.iters
            &&& least <= target <= most
            &&& batch.wall > 0 && 2 * new.plans@[k].iters <= u64::MAX && target > least ==> target
                * batch.wall <= m.budget
            &&& batch.wall > 0 && 2 * new.plans@[k].iters <= u64::MAX && target < most ==> (target
                + 1) * batch.wall > m.budget
            &&& k + 1 < m.plans@.len() ==> new.phase == Phase::Calibrating(
                Calibration { iters: 1, max_batch: m.budget / 10, cleared: None },
            )
        }),
{
    let search = m.phase->Calibrating_0;
    batch_sizes_are_settled_for_a_reason(search, batch);
    a_reason_settles_the_size(search, batch);
    let done = search.after(batch).1->0;
    samples_fit_the_budget(done.wall as int, m.budget as int, m.cap as int);
}

/// Calibration follows what the batches took. A batch of a tenth of the budget
/// settles the case, and so does one that takes a millisecond for the second
/// time. One that takes it for the first time is run again, and a shorter one is
/// doubled.
pub proof fn calibration_follows_the_batches(m: Measurement, new: Measurement, batch: Batch)
    requires
        m.wf(),
        m.phase is Calibrating,
        m.takes(new, batch),
    ensures
        ({
            let search = m.phase->Calibrating_0;
            let k = m.targets@.len() as int;
            let settled = new.targets@.len() == k + 1;
            let long = search.cleared is None && batch.wall >= m.budget / 10;
            let clears = batch.timed >= 1_000_000;
            &&& long || (search.cleared is Some && clears) ==> settled
            &&& search.cleared is None && !long && clears ==> !settled && new.phase
                == Phase::Calibrating(
                Calibration {
                    iters: search.iters,
                    max_batch: (m.budget / 10) as u128,
                    cleared: Some(batch.wall),
                },
            )
            &&& !long && !clears && 2 * search.iters <= u64::MAX ==> !settled && new.phase
                == Phase::Calibrating(
                Calibration {
                    iters: (2 * search.iters) as u64,
                    max_batch: (m.budget / 10) as u128,
                    cleared: None,
                },
            )
            &&& !settled ==> new.targets@ == m.targets@ && new.plans@ == m.plans@
        }),
{
    a_reason_settles_the_size(m.phase->Calibrating_0, batch);
}

// ---------------------------------------------------------------------------
// A whole run
// ---------------------------------------------------------------------------

/// Whatever was measured, the cases keep their names and amounts, and the run
/// its settings.
proof fn cases_stay(states: Seq<Measurement>, batches: Seq<Batch>, k: int)
    requires
        runs(states, batches),
        0 <= k < states.len(),
    ensures
        ({
            let (a, b) = (states[0], states[k]);
            &&& b.budget == a.budget
            &&& b.cap == a.cap
            &&& b.block == a.block
            &&& b.interleave == a.interleave
            &&& b.plans@.len() == a.plans@.len()
            &&& forall|i: int|
                0 <= i < a.plans@.len() ==> (#[trigger] b.plans@[i]).name == a.plans@[i].name
                    && b.plans@[i].throughput == a.plans@[i].throughput
        }),
    decreases k,
{
    if k > 0 {
        cases_stay(states, batches, k - 1);
        let (before, after) = (states[k - 1], states[k]);
        assert(before.takes(after, batches[k - 1]));
        assert forall|i: int| 0 <= i < before.plans@.len() implies (#[trigger] after.plans@[i]).name
            == before.plans@[i].name && after.plans@[i].throughput
            == before.plans@[i].throughput by {
            assert(before.wf());
        }
    }
}

/// Where calibration ends: the first state from `k` on that is past it.
proof fn end_of_calibration(states: Seq<Measurement>, batches: Seq<Batch>, k: int) -> (s: int)
    requires
        runs(states, batches),
        states.last().phase is Finished,
        0 <= k < states.len(),
        forall|j: int| 0 <= j < k ==> (#[trigger] states[j]).phase is Calibrating,
    ensures
        k <= s < states.len(),
        states[s].phase !is Calibrating,
        forall|j: int| 0 <= j < s ==> (#[trigger] states[j]).phase is Calibrating,
    decreases states.len() - k,
{
    if states[k].phase is Calibrating {
        end_of_calibration(states, batches, k + 1)
    } else {
        k
    }
}

/// One more entry is one more occurrence of what it is.
proof fn occurrences_of_the_next(s: Seq<int>, t: int, i: int)
    requires
        0 <= t < s.len(),
    ensures
        occurrences(s.take(t + 1), i) == occurrences(s.take(t), i) + if s[t] == i {
            1nat
        } else {
            0nat
        },
{
    assert(s.take(t + 1).drop_last() =~= s.take(t));
    assert(s.take(t + 1).last() == s[t]);
}

/// Is the batch of visit `u` the sample of the case that was visited, and the
/// `k`-th of them where this is the `k`-th visit to it?
pub open spec fn is_sample(
    plans: Seq<Plan>,
    visits: Seq<int>,
    batches: Seq<Batch>,
    s: int,
    u: int,
) -> bool {
    let i = visits[u];
    let k = occurrences(visits.take(u), i) as int;
    &&& 0 <= i < plans.len()
    &&& 0 <= k < plans[i].samples@.len()
    &&& plans[i].samples@[k] == batches[s + u].timed
}

/// Is visit `u` a sample of the case that is due in the state before it?
pub open spec fn is_visit(states: Seq<Measurement>, visits: Seq<int>, s: int, u: int) -> bool {
    states[s + u].phase is Sampling && visits[u] == states[s + u].phase->case
}

/// Are the batches from number `s` on, the first `t` of them, the samples of the
/// cases in `visits`, and are there no others?
pub open spec fn sampled(
    plans: Seq<Plan>,
    visits: Seq<int>,
    batches: Seq<Batch>,
    s: int,
    t: int,
) -> bool {
    &&& forall|i: int|
        0 <= i < plans.len() ==> (#[trigger] plans[i]).samples@.len() == occurrences(
            visits.take(t),
            i,
        )
    &&& forall|u: int| 0 <= u < t ==> #[trigger] is_sample(plans, visits, batches, s, u)
}

/// One more sample of the case that is visited next.
proof fn one_more_is_sampled(
    old: Seq<Plan>,
    new: Seq<Plan>,
    visits: Seq<int>,
    batches: Seq<Batch>,
    s: int,
    t: int,
)
    requires
        0 <= t < visits.len(),
        0 <= visits[t] < old.len(),
        sampled(old, visits, batches, s, t),
        samples(old, new, visits[t], batches[s + t].timed),
    ensures
        sampled(new, visits, batches, s, t + 1),
{
    assert forall|i: int| 0 <= i < new.len() implies (#[trigger] new[i]).samples@.len()
        == occurrences(visits.take(t + 1), i) by {
        assert(old[i].samples@.len() == occurrences(visits.take(t), i));
        occurrences_of_the_next(visits, t, i);
    }
    assert forall|u: int| 0 <= u < t + 1 implies #[trigger] is_sample(
        new,
        visits,
        batches,
        s,
        u,
    ) by {
        let i = visits[u];
        if u < t {
            assert(is_sample(old, visits, batches, s, u));
        } else {
            assert(old[i].samples@.len() == occurrences(visits.take(t), i));
        }
    }
}

/// Once calibration is over, a batch is a sample of the case that is due.
proof fn a_batch_is_a_sample(before: Measurement, after: Measurement, batch: Batch)
    requires
        before.wf(),
        before.takes(after, batch),
        before.phase !is Calibrating,
    ensures
        before.phase is Sampling,
        after.phase !is Calibrating,
        before.upcoming().len() > 0,
        before.upcoming()[0] == before.phase->case,
        0 <= before.upcoming()[0] < before.plans@.len(),
        after.upcoming() == before.upcoming().drop_first(),
        after.targets@ == before.targets@,
        after.plans@.len() == before.plans@.len(),
        samples(before.plans@, after.plans@, before.upcoming()[0], batch.timed),
{
    assert(before.upcoming()[0] == before.phase->case);
}

/// Has the run come as far as `t` samples after calibration ended at state `s`?
/// They stand with the cases that were visited, and the other visits are still
/// to come.
spec fn is_as_far_as(
    states: Seq<Measurement>,
    batches: Seq<Batch>,
    visits: Seq<int>,
    s: int,
    t: int,
) -> bool {
    let (first, now) = (states[s], states[s + t]);
    &&& t <= visits.len()
    &&& now.phase !is Calibrating
    &&& now.upcoming() == visits.skip(t)
    &&& now.targets@ == first.targets@
    &&& now.plans@.len() == first.plans@.len()
    &&& sampled(now.plans@, visits, batches, s, t)
    &&& forall|u: int| 0 <= u < t ==> #[trigger] is_visit(states, visits, s, u)
}

/// Are the batches from number `s` on one visit each, in this order, and the
/// samples of the last state what they took?
pub open spec fn follows(
    states: Seq<Measurement>,
    batches: Seq<Batch>,
    visits: Seq<int>,
    s: int,
) -> bool {
    &&& batches.len() == s + visits.len()
    &&& forall|u: int| 0 <= u < visits.len() ==> #[trigger] is_visit(states, visits, s, u)
    &&& sampled(states.last().plans@, visits, batches, s, visits.len() as int)
}

/// A run that is over has made all its visits.
proof fn the_end_is_reached(
    states: Seq<Measurement>,
    batches: Seq<Batch>,
    visits: Seq<int>,
    s: int,
)
    requires
        states.len() == batches.len() + 1,
        0 <= s < states.len(),
        states.last().phase is Finished,
        is_as_far_as(states, batches, visits, s, batches.len() - s),
    ensures
        states.last().targets@ == states[s].targets@,
        follows(states, batches, visits, s),
{
    let t = batches.len() - s;
    assert(states[s + t] == states.last());
    assert(visits.skip(t).len() == visits.len() - t);
    assert(states.last().upcoming().len() == 0);
}

/// One more batch is one more sample.
proof fn one_batch_further(
    states: Seq<Measurement>,
    batches: Seq<Batch>,
    visits: Seq<int>,
    s: int,
    t: int,
)
    requires
        0 <= t,
        states[s + t].wf(),
        states[s + t].takes(states[s + t + 1], batches[s + t]),
        is_as_far_as(states, batches, visits, s, t),
    ensures
        is_as_far_as(states, batches, visits, s, t + 1),
{
    let (before, after) = (states[s + t], states[s + t + 1]);
    a_batch_is_a_sample(before, after, batches[s + t]);
    assert(visits.skip(t).len() == visits.len() - t);
    assert(visits[t] == visits.skip(t)[0]);
    assert(visits.skip(t).drop_first() =~= visits.skip(t + 1));
    one_more_is_sampled(before.plans@, after.plans@, visits, batches, s, t);
    assert(states[s + (t + 1)] == after);
    assert(is_visit(states, visits, s, t));
}

/// Every batch after calibration goes where it was taken.
proof fn samples_go_where_they_were_taken(
    states: Seq<Measurement>,
    batches: Seq<Batch>,
    visits: Seq<int>,
    s: int,
    t: int,
)
    requires
        runs(states, batches),
        0 <= s,
        0 <= t,
        s + t < states.len(),
        is_as_far_as(states, batches, visits, s, 0),
    ensures
        is_as_far_as(states, batches, visits, s, t),
    decreases t,
{
    if t > 0 {
        let p = t - 1;
        samples_go_where_they_were_taken(states, batches, visits, s, p);
        assert(states[s + p].takes(states[s + p + 1], batches[s + p]));
        one_batch_further(states, batches, visits, s, p);
    }
}

/// Where calibration has ended nothing is sampled yet, and the whole schedule is
/// to come.
proof fn sampling_starts(
    states: Seq<Measurement>,
    batches: Seq<Batch>,
    cases: Seq<Case>,
    places: Seq<usize>,
    s: int,
)
    requires
        runs(states, batches),
        starts(states[0], cases, places),
        0 <= s < states.len(),
        states[s].phase !is Calibrating,
        forall|j: int| 0 <= j < s ==> (#[trigger] states[j]).phase is Calibrating,
    ensures
        states[s].upcoming() == order(
            states[s].targets@,
            visit_length(states[0].block, states[0].interleave) as nat,
        ),
        is_as_far_as(states, batches, states[s].upcoming(), s, 0),
{
    let (start, first) = (states[0], states[s]);
    let block = visit_length(start.block, start.interleave) as nat;
    let visits = first.upcoming();
    assert(first.wf());
    if s == 0 {
        assert(places.len() == 0);
        assert(order(first.targets@, block) =~= Seq::<int>::empty());
    } else {
        let before = states[s - 1];
        assert(before.wf());
        assert(before.takes(first, batches[s - 1]));
        cases_stay(states, batches, s - 1);
        assert forall|i: int| 0 <= i < first.plans@.len() implies (
        #[trigger] first.plans@[i]).samples@.len() == 0 by {
            assert(before.plans@[i].samples@.len() == 0);
        }
    }
    assert(visits.skip(0) =~= visits);
    assert(visits.take(0) =~= Seq::<int>::empty());
}

/// A run measures the selected cases: from the start of a group to its end,
/// however the batches turn out, the cases are those at the chosen places, in
/// order and with their names and amounts, and the settings are those it started
/// with.
pub proof fn a_run_keeps_its_cases(
    states: Seq<Measurement>,
    batches: Seq<Batch>,
    cases: Seq<Case>,
    places: Seq<usize>,
)
    requires
        runs(states, batches),
        starts(states[0], cases, places),
    ensures
        ({
            let (start, end) = (states[0], states.last());
            &&& end.budget == start.budget
            &&& end.cap == start.cap
            &&& end.block == start.block
            &&& end.interleave == start.interleave
            &&& end.plans@.len() == places.len()
            &&& forall|i: int|
                0 <= i < places.len() ==> (#[trigger] end.plans@[i]).name@
                    == cases[places[i] as int].name@ && end.plans@[i].throughput
                    == cases[places[i] as int].throughput
        }),
{
    let (start, end) = (states[0], states.last());
    cases_stay(states, batches, batches.len() as int);
    assert forall|i: int| 0 <= i < places.len() implies (#[trigger] end.plans@[i]).name@
        == cases[places[i] as int].name@ && end.plans@[i].throughput
        == cases[places[i] as int].throughput by {
        assert(is_unmeasured(start.plans@[i], cases[places[i] as int]));
    }
}

/// A run samples its cases in the order of the schedule. The first `s` batches
/// of it calibrate, and every one after them is a visit, one for each. The batch
/// of the `k`-th visit to a case is its sample `k`, and it has no others.
pub proof fn a_run_samples_its_cases_in_order(
    states: Seq<Measurement>,
    batches: Seq<Batch>,
    cases: Seq<Case>,
    places: Seq<usize>,
) -> (s: int)
    requires
        runs(states, batches),
        starts(states[0], cases, places),
        states.last().phase is Finished,
    ensures
        0 <= s,
        forall|k: int| 0 <= k < s ==> (#[trigger] states[k]).phase is Calibrating,
        follows(
            states,
            batches,
            order(
                states.last().targets@,
                visit_length(states[0].block, states[0].interleave) as nat,
            ),
            s,
        ),
{
    let s = end_of_calibration(states, batches, 0);
    let t = batches.len() - s;
    sampling_starts(states, batches, cases, places, s);
    samples_go_where_they_were_taken(states, batches, states[s].upcoming(), s, t);
    the_end_is_reached(states, batches, states[s].upcoming(), s);
    s
}

} // verus!
