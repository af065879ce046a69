//! The scheduler: how many samples a case gets, and in which order the cases of
//! a group are visited.
//!
//! Samples must stay in round order, and index `i` of one case must be the same
//! round as index `i` of another, because that is what the ratios pair on.

use vstd::prelude::*;

use crate::baseline::{key, key_of, Baseline, RowView};
use crate::bencher::MIN_SAMPLES;
use crate::cli::{at_least_one, passes, Config, ConfigView};
use crate::group::{cases_of, Case, CaseView, Throughput};
use crate::report::{
    case_cells, no_ratio_leaves_its_columns_empty, tsv_fields, CaseNumbers, CaseResult, GroupResult,
    SavedStats,
};
use crate::stats::{paired_ratio, pairs, Ratio, Stats};
use crate::text::texts;

verus! {

/// The time budget of a benchmark in nanoseconds.
pub fn budget(time_ms: u64) -> (r: u128)
    ensures
        r == time_ms * 1_000_000,
{
    (time_ms as u128) * 1_000_000
}

/// The cap on a single batch, so that even a slow operation yields several
/// samples.
pub fn max_batch(budget: u128) -> (r: u128)
    ensures
        r == budget / 10,
{
    budget / (MIN_SAMPLES as u128)
}

/// `n`, but no less than `low` and then no more than `high`.
pub open spec fn clamp(n: int, low: int, high: int) -> int {
    if n < low {
        low
    } else if n > high {
        high
    } else {
        n
    }
}

/// How many samples fit in the budget, floored so a slow case still gets
/// enough for order statistics to mean anything, and capped.
///
/// The floor gives way to an explicit cap: someone who asked for 5 gets 5. A
/// cap of zero counts as one.
pub open spec fn samples_wanted(batch: int, budget: int, cap: int) -> int {
    let cap = if cap < 1 {
        1
    } else {
        cap
    };
    let floor = if cap < MIN_SAMPLES {
        cap
    } else {
        MIN_SAMPLES as int
    };
    let fits = budget / if batch < 1 {
        1
    } else {
        batch
    };
    clamp(fits, floor, cap)
}

/// More samples than the fewest are wanted only where all of them fit in the
/// budget, and fewer than the most only where one more would not.
pub proof fn samples_fit_the_budget(batch: int, budget: int, cap: int)
    requires
        batch >= 0,
        budget >= 0,
        cap >= 0,
    ensures
        ({
            let most: int = if cap == 0 {
                1
            } else {
                cap
            };
            let least: int = if most < 10 {
                most
            } else {
                10
            };
            let each: int = if batch == 0 {
                1
            } else {
                batch
            };
            let n = samples_wanted(batch, budget, cap);
            &&& least <= n <= most
            &&& n > least ==> n * each <= budget
            &&& n < most ==> (n + 1) * each > budget
        }),
{
    let each: int = if batch == 0 {
        1
    } else {
        batch
    };
    let fits = budget / each;
    let n = samples_wanted(batch, budget, cap);
    vstd::arithmetic::div_mod::lemma_fundamental_div_mod(budget, each);
    vstd::arithmetic::div_mod::lemma_mod_bound(budget, each);
    if n <= fits {
        vstd::arithmetic::mul::lemma_mul_inequality(n, fits, each);
        vstd::arithmetic::mul::lemma_mul_is_commutative(fits, each);
    }
    if n >= fits {
        vstd::arithmetic::mul::lemma_mul_inequality(fits + 1, n + 1, each);
        vstd::arithmetic::mul::lemma_mul_is_distributive_add_other_way(each, fits, 1);
        vstd::arithmetic::mul::lemma_mul_is_commutative(fits, each);
    }
}

/// How many samples to take of a case whose batch takes `batch` nanoseconds.
pub fn target_samples(batch: u128, budget: u128, cap: usize) -> (r: usize)
    ensures
        r == samples_wanted(batch as int, budget as int, cap as int),
        r >= 1,
        cap >= 1 ==> r <= cap,
        cap >= MIN_SAMPLES ==> r >= MIN_SAMPLES,
        cap < MIN_SAMPLES && cap >= 1 ==> r == cap,
        // More than the fewest only where all of them fit in the budget, and
        // fewer than the most only where one more would not.
        r > MIN_SAMPLES ==> r * at_least_one(batch as int) <= budget,
        r < at_least_one(cap as int) ==> (r + 1) * at_least_one(batch as int) > budget,
{
    let cap: usize = if cap < 1 {
        1
    } else {
        cap
    };
    let floor: usize = if cap < MIN_SAMPLES {
        cap
    } else {
        MIN_SAMPLES
    };
    let batch: u128 = if batch < 1 {
        1
    } else {
        batch
    };
    let fits = budget / batch;
    proof {
        let (f, b, n) = (fits as int, batch as int, budget as int);
        vstd::arithmetic::div_mod::lemma_fundamental_div_mod(n, b);
        vstd::arithmetic::div_mod::lemma_mod_bound(n, b);
        assert forall|k: int| k <= f implies #[trigger] (k * b) <= n by {
            assert(k * b <= n) by (nonlinear_arith)
                requires
                    k <= f,
                    b > 0,
                    n == b * f + n % b,
                    n % b >= 0,
            ;
        }
        assert forall|k: int| k > f implies #[trigger] (k * b) > n by {
            assert(k * b > n) by (nonlinear_arith)
                requires
                    k >= f + 1,
                    b > 0,
                    n == b * f + n % b,
                    n % b < b,
            ;
        }
    }
    if fits < floor as u128 {
        floor
    } else if fits > cap as u128 {
        cap
    } else {
        fits as usize
    }
}

// ---------------------------------------------------------------------------
// The order of visits
// ---------------------------------------------------------------------------

/// How many samples a case has after `r` rounds: `block` from each, until it
/// has `target`.
pub open spec fn taken_after(target: nat, block: nat, r: nat) -> nat {
    if target < r * block {
        target
    } else {
        r * block
    }
}

/// How many samples a case takes in round `r`.
pub open spec fn visits(target: nat, block: nat, r: nat) -> nat {
    (taken_after(target, block, r + 1) - taken_after(target, block, r)) as nat
}

/// Case `i`, `n` times in a row.
pub open spec fn repeated(i: int, n: nat) -> Seq<int> {
    Seq::new(n, |k: int| i)
}

/// Round `r` from case `i` on: one visit to each, in order.
pub open spec fn round_from(targets: Seq<usize>, block: nat, r: nat, i: int) -> Seq<int>
    decreases targets.len() - i,
{
    if i < 0 || i >= targets.len() {
        Seq::empty()
    } else {
        repeated(i, visits(targets[i] as nat, block, r)) + round_from(targets, block, r, i + 1)
    }
}

/// Does any case want more after `r` rounds?
pub open spec fn unfinished(targets: Seq<usize>, block: nat, r: nat) -> bool {
    exists|i: int| 0 <= i < targets.len() && #[trigger] targets[i] > r * block
}

/// The visits from round `r` on, until no case wants more.
pub open spec fn order_from(targets: Seq<usize>, block: nat, r: nat) -> Seq<int>
    decreases usize::MAX - r,
    when block > 0
{
    if unfinished(targets, block, r) {
        proof {
            rounds_are_few(targets, block, r);
        }
        round_from(targets, block, r, 0) + order_from(targets, block, r + 1)
    } else {
        Seq::empty()
    }
}

/// The order in which the cases of a group are visited.
pub open spec fn order(targets: Seq<usize>, block: nat) -> Seq<int> {
    order_from(targets, block, 0)
}

/// As long as a case wants more, fewer rounds have passed than it has samples
/// to take.
pub proof fn rounds_are_few(targets: Seq<usize>, block: nat, r: nat)
    requires
        block > 0,
        unfinished(targets, block, r),
    ensures
        r < usize::MAX,
{
    let i = choose|i: int| 0 <= i < targets.len() && #[trigger] targets[i] > r * block;
    assert(r <= r * block) by (nonlinear_arith)
        requires
            block >= 1,
            r >= 0,
    ;
}

/// How many samples a visit takes at most: a block, of one at least, or
/// everything where nothing is interleaved.
pub open spec fn visit_length(block: usize, interleave: bool) -> usize {
    if !interleave {
        usize::MAX
    } else if block == 0 {
        1
    } else {
        block
    }
}

/// A run of samples over the cases of a group, between two samples.
#[derive(Debug, Clone, PartialEq, Eq)]
pub struct Schedule {
    /// How many samples each case is to get.
    pub targets: Vec<usize>,
    /// How many it has.
    pub taken: Vec<usize>,
    /// Samples per visit.
    pub block: usize,
    /// The round that is under way.
    pub round: usize,
    /// The case that is being visited.
    pub case: usize,
    /// How many samples this visit has taken.
    pub visit: usize,
}

impl Schedule {
    /// The counts agree with the place in the round.
    pub open spec fn wf(&self) -> bool {
        let n = self.targets@.len();
        let b = self.block as nat;
        let r = self.round as nat;
        &&& b > 0
        &&& self.taken@.len() == n
        &&& self.case <= n
        &&& forall|i: int|
            0 <= i < self.case ==> #[trigger] self.taken@[i] == taken_after(
                self.targets@[i] as nat,
                b,
                r + 1,
            )
        &&& forall|i: int|
            self.case < i < n ==> #[trigger] self.taken@[i] == taken_after(
                self.targets@[i] as nat,
                b,
                r,
            )
        &&& self.case < n ==> {
            let t = self.targets@[self.case as int] as nat;
            &&& self.visit <= visits(t, b, r)
            &&& self.taken@[self.case as int] == taken_after(t, b, r) + self.visit
        }
    }

    /// The visits still to come.
    pub open spec fn upcoming(&self) -> Seq<int> {
        let b = self.block as nat;
        let r = self.round as nat;
        let visit = if self.case < self.targets@.len() {
            repeated(
                self.case as int,
                (visits(self.targets@[self.case as int] as nat, b, r) - self.visit) as nat,
            )
        } else {
            Seq::empty()
        };
        visit + round_from(self.targets@, b, r, self.case + 1) + order_from(self.targets@, b, r + 1)
    }

    /// One sample of every case and then the next round, or with `interleave`
    /// off each case run to completion. A block of zero counts as one.
    pub fn new(targets: Vec<usize>, block: usize, interleave: bool) -> (r: Self)
        ensures
            r.wf(),
            r.targets@ == targets@,
            r.block == visit_length(block, interleave),
            r.upcoming() == order(targets@, r.block as nat),
            !interleave ==> r.upcoming() == one_after_another(targets@, 0),
    {
        let mut taken: Vec<usize> = Vec::new();
        let n = targets.len();
        let mut i: usize = 0;
        while i < n
            invariant
                n == targets@.len(),
                i <= n,
                taken@.len() == i,
                forall|j: int| 0 <= j < i ==> #[trigger] taken@[j] == 0,
            decreases n - i,
        {
            taken.push(0);
            i += 1;
        }
        let block: usize = if !interleave {
            usize::MAX
        } else if block == 0 {
            1
        } else {
            block
        };
        let r = Schedule { targets, taken, block, round: 0, case: 0, visit: 0 };
        proof {
            let b = block as nat;
            let t = targets@;
            assert(0 * b == 0 && 1 * b == b);
            if t.len() == 0 {
                assert(round_from(t, b, 0, 1) =~= Seq::<int>::empty());
            }
            if !unfinished(t, b, 0) {
                nothing_after_the_end(t, b, 0, 0);
                nothing_after_the_end(t, b, 0, 1);
            }
            assert(r.upcoming() =~= round_from(t, b, 0, 0) + order_from(t, b, 1));
            if !interleave {
                sequential_cases_are_run_to_completion(t, block);
            }
        }
        r
    }

    /// Does any case want more samples?
    fn any_wants_more(&self) -> (r: bool)
        requires
            self.wf(),
            self.case == self.targets@.len(),
        ensures
            r == unfinished(self.targets@, self.block as nat, (self.round + 1) as nat),
    {
        let n = self.targets.len();
        let mut i: usize = 0;
        while i < n
            invariant
                self.wf(),
                self.case == self.targets@.len(),
                n == self.targets@.len(),
                i <= n,
                forall|j: int|
                    0 <= j < i ==> #[trigger] self.targets@[j] <= (self.round + 1) * self.block,
            decreases n - i,
        {
            assert(self.taken@[i as int] == taken_after(
                self.targets@[i as int] as nat,
                self.block as nat,
                (self.round + 1) as nat,
            ));
            if self.taken[i] < self.targets[i] {
                assert(self.targets@[i as int] > (self.round + 1) * self.block);
                return true;
            }
            i += 1;
        }
        false
    }

    /// The case to take the next sample of, or `None` when every case has what
    /// it wants.
    pub fn next(&mut self) -> (r: Option<usize>)
        requires
            old(self).wf(),
        ensures
            final(self).wf(),
            final(self).targets@ == old(self).targets@,
            final(self).block == old(self).block,
            match r {
                Some(i) => i < old(self).targets@.len() && old(self).upcoming().len() > 0 && i
                    == old(self).upcoming()[0] && final(self).upcoming() == old(self).upcoming().drop_first(),
                None => old(self).upcoming().len() == 0 && final(self).upcoming().len() == 0,
            },
    {
        let ghost todo = self.upcoming();
        loop
            invariant
                self.wf(),
                self.upcoming() == todo,
                todo == old(self).upcoming(),
                self.targets@ == old(self).targets@,
                self.block == old(self).block,
            decreases usize::MAX - self.round, self.targets@.len() - self.case,
        {
            let ghost b = self.block as nat;
            let ghost rd = self.round as nat;
            let ghost t = self.targets@;
            let ghost n = t.len() as int;
            let ghost c = self.case as int;
            if self.case == self.targets.len() {
                if !self.any_wants_more() {
                    proof {
                        assert(round_from(t, b, rd, n + 1) =~= Seq::<int>::empty());
                        assert(self.upcoming() =~= Seq::<int>::empty());
                    }
                    return None;
                }
                proof {
                    rounds_are_few(t, b, rd + 1);
                    assert(round_from(t, b, rd, n + 1) =~= Seq::<int>::empty());
                    assert(self.upcoming() =~= order_from(t, b, rd + 1));
                }
                self.round += 1;
                self.case = 0;
                self.visit = 0;
                proof {
                    assert(self.upcoming() =~= round_from(t, b, rd + 1, 0) + order_from(
                        t,
                        b,
                        rd + 2,
                    ));
                }
            } else {
                let i = self.case;
                proof {
                    visit_bounds(t[c] as nat, b, rd);
                }
                if self.visit < self.block && self.taken[i] < self.targets[i] {
                    let ghost left = (visits(t[c] as nat, b, rd) - self.visit) as nat;
                    let ghost tail = round_from(t, b, rd, c + 1) + order_from(t, b, rd + 1);
                    let ghost before = self.taken@;
                    proof {
                        assert(todo =~= repeated(c, left) + tail);
                        assert(repeated(c, left).drop_first() =~= repeated(c, (left - 1) as nat));
                    }
                    let count = self.taken[i] + 1;
                    self.taken.set(i, count);
                    self.visit += 1;
                    proof {
                        assert(self.upcoming() =~= repeated(c, (left - 1) as nat) + tail);
                        assert(todo[0] == c);
                        assert(todo.drop_first() =~= repeated(c, left).drop_first() + tail);
                        assert forall|j: int| 0 <= j < n && j != c implies self.taken@[j]
                            == before[j] by {}
                    }
                    return Some(i);
                }
                proof {
                    assert(self.visit == visits(t[c] as nat, b, rd));
                    assert(repeated(c, 0) =~= Seq::<int>::empty());
                    assert(self.upcoming() =~= round_from(t, b, rd, c + 1) + order_from(
                        t,
                        b,
                        rd + 1,
                    ));
                    if c + 1 < n {
                        visit_bounds(t[c + 1] as nat, b, rd);
                    } else {
                        assert(round_from(t, b, rd, c + 2) =~= Seq::<int>::empty());
                    }
                }
                self.case += 1;
                self.visit = 0;
                proof {
                    assert(self.upcoming() =~= round_from(t, b, rd, c + 1) + order_from(
                        t,
                        b,
                        rd + 1,
                    ));
                }
            }
        }
    }
}

/// A visit takes at most a block, and it stops short of one only where the
/// case has all it wants.
proof fn visit_bounds(target: nat, block: nat, r: nat)
    ensures
        taken_after(target, block, r) <= taken_after(target, block, r + 1) <= target,
        visits(target, block, r) <= block,
        visits(target, block, r) < block ==> taken_after(target, block, r + 1) == target,
        (r + 1) * block == r * block + block,
{
    assert((r + 1) * block == r * block + block) by (nonlinear_arith);
}

/// Once no case wants more, no round holds a visit.
proof fn nothing_after_the_end(targets: Seq<usize>, block: nat, r: nat, i: int)
    requires
        block > 0,
        !unfinished(targets, block, r),
    ensures
        0 <= i ==> round_from(targets, block, r, i).len() == 0,
        !unfinished(targets, block, r + 1),
        order_from(targets, block, r).len() == 0,
    decreases targets.len() - i,
{
    assert((r + 1) * block == r * block + block) by (nonlinear_arith);
    assert forall|j: int| 0 <= j < targets.len() implies #[trigger] targets[j] <= (r + 1)
        * block by {
        assert(!(targets[j] > r * block));
    }
    if 0 <= i < targets.len() {
        assert(!(targets[i] > r * block));
        nothing_after_the_end(targets, block, r, i + 1);
    }
}

/// How often `i` occurs in `s`.
pub open spec fn occurrences(s: Seq<int>, i: int) -> nat
    decreases s.len(),
{
    if s.len() == 0 {
        0
    } else {
        occurrences(s.drop_last(), i) + if s.last() == i {
            1nat
        } else {
            0nat
        }
    }
}

/// The first `r` rounds, one after another.
pub open spec fn first_rounds(targets: Seq<usize>, block: nat, r: nat) -> Seq<int>
    decreases r,
{
    if r == 0 {
        Seq::empty()
    } else {
        first_rounds(targets, block, (r - 1) as nat) + round_from(
            targets,
            block,
            (r - 1) as nat,
            0,
        )
    }
}

proof fn occurrences_add_up(s: Seq<int>, t: Seq<int>, i: int)
    ensures
        occurrences(s + t, i) == occurrences(s, i) + occurrences(t, i),
    decreases t.len(),
{
    if t.len() == 0 {
        assert(s + t =~= s);
    } else {
        occurrences_add_up(s, t.drop_last(), i);
        assert((s + t).drop_last() =~= s + t.drop_last());
    }
}

proof fn occurrences_repeated(c: int, n: nat, i: int)
    ensures
        occurrences(repeated(c, n), i) == if c == i {
            n
        } else {
            0
        },
    decreases n,
{
    if n > 0 {
        assert(repeated(c, n).drop_last() =~= repeated(c, (n - 1) as nat));
        occurrences_repeated(c, (n - 1) as nat, i);
    }
}

proof fn occurrences_in_a_round(targets: Seq<usize>, block: nat, r: nat, from: int, i: int)
    requires
        0 <= from,
        0 <= i < targets.len(),
    ensures
        occurrences(round_from(targets, block, r, from), i) == if from <= i {
            visits(targets[i] as nat, block, r)
        } else {
            0
        },
    decreases targets.len() - from,
{
    if from < targets.len() {
        let visit = repeated(from, visits(targets[from] as nat, block, r));
        occurrences_repeated(from, visits(targets[from] as nat, block, r), i);
        occurrences_in_a_round(targets, block, r, from + 1, i);
        occurrences_add_up(visit, round_from(targets, block, r, from + 1), i);
    }
}

/// Rounds pair the samples: the schedule is a row of rounds, and after `r` of
/// them each case has `block` samples for every round, or all it wants. So
/// sample `k` of every case is taken in round `k / block`, and with a block of
/// one, sample `k` of one case in the same round as sample `k` of every other.
pub proof fn rounds_pair_the_samples(targets: Seq<usize>, block: nat, r: nat, i: int)
    requires
        block > 0,
        0 <= i < targets.len(),
    ensures
        order(targets, block) == first_rounds(targets, block, r) + order_from(targets, block, r),
        occurrences(first_rounds(targets, block, r), i) == taken_after(
            targets[i] as nat,
            block,
            r,
        ),
    decreases r,
{
    if r == 0 {
        assert(first_rounds(targets, block, 0) + order(targets, block) =~= order(targets, block));
        assert(0 * block == 0) by (nonlinear_arith);
    } else {
        let p = (r - 1) as nat;
        rounds_pair_the_samples(targets, block, p, i);
        occurrences_in_a_round(targets, block, p, 0, i);
        occurrences_add_up(
            first_rounds(targets, block, p),
            round_from(targets, block, p, 0),
            i,
        );
        visit_bounds(targets[i] as nat, block, p);
        if !unfinished(targets, block, p) {
            nothing_after_the_end(targets, block, p, 0);
            nothing_after_the_end(targets, block, r, 0);
        }
        assert(order(targets, block) =~= first_rounds(targets, block, r) + order_from(
            targets,
            block,
            r,
        ));
    }
}

/// Every case is visited as often as it wants samples, whatever the block.
pub proof fn every_case_gets_its_samples(targets: Seq<usize>, block: nat, i: int)
    requires
        block > 0,
        0 <= i < targets.len(),
    ensures
        occurrences(order(targets, block), i) == targets[i],
{
    let r = usize::MAX as nat;
    rounds_pair_the_samples(targets, block, r, i);
    assert(r <= r * block) by (nonlinear_arith)
        requires
            block >= 1,
            r >= 0,
    ;
    assert forall|j: int| 0 <= j < targets.len() implies #[trigger] targets[j] <= r * block by {}
    assert(!unfinished(targets, block, r));
    assert(order_from(targets, block, r) =~= Seq::<int>::empty());
    occurrences_add_up(first_rounds(targets, block, r), order_from(targets, block, r), i);
}

/// The cases from `i` on, each run to completion before the next.
pub open spec fn one_after_another(targets: Seq<usize>, i: int) -> Seq<int>
    decreases targets.len() - i,
{
    if i < 0 || i >= targets.len() {
        Seq::empty()
    } else {
        repeated(i, targets[i] as nat) + one_after_another(targets, i + 1)
    }
}

proof fn a_round_of_long_visits(targets: Seq<usize>, block: nat, i: int)
    requires
        0 <= i,
        forall|j: int| 0 <= j < targets.len() ==> #[trigger] targets[j] <= block,
    ensures
        round_from(targets, block, 0, i) == one_after_another(targets, i),
    decreases targets.len() - i,
{
    assert(0 * block == 0 && 1 * block == block) by (nonlinear_arith);
    if i < targets.len() {
        a_round_of_long_visits(targets, block, i + 1);
    }
}

/// A block that no case can exhaust is the sequential order: each case is run
/// to completion before the next one starts.
pub proof fn long_blocks_are_sequential(targets: Seq<usize>, block: nat)
    requires
        block > 0,
        forall|j: int| 0 <= j < targets.len() ==> #[trigger] targets[j] <= block,
    ensures
        order(targets, block) == one_after_another(targets, 0),
{
    a_round_of_long_visits(targets, block, 0);
    assert(1 * block == block) by (nonlinear_arith);
    assert(!unfinished(targets, block, 1)) by {
        assert forall|j: int| 0 <= j < targets.len() implies #[trigger] targets[j] <= 1
            * block by {}
    }
    assert(order_from(targets, block, 1) =~= Seq::<int>::empty());
    if !unfinished(targets, block, 0) {
        nothing_after_the_end(targets, block, 0, 0);
    }
    assert(order(targets, block) =~= round_from(targets, block, 0, 0));
}

/// Occurrences are counted as those of a multiset.
proof fn occurrences_are_counted(s: Seq<int>, i: int)
    ensures
        occurrences(s, i) == s.to_multiset().count(i),
    decreases s.len(),
{
    broadcast use vstd::seq_lib::group_to_multiset_ensures;

    if s.len() > 0 {
        occurrences_are_counted(s.drop_last(), i);
        assert(s =~= s.drop_last().push(s.last()));
    }
}

/// Visits never go back within a round, and are of cases that still want a
/// sample in it.
proof fn visits_in_a_round(targets: Seq<usize>, block: nat, r: nat, from: int, u: int)
    requires
        0 <= from,
        0 <= u < round_from(targets, block, r, from).len(),
    ensures
        ({
            let round = round_from(targets, block, r, from);
            &&& from <= round[u] < targets.len()
            &&& occurrences(round.take(u), round[u]) < visits(
                targets[round[u]] as nat,
                block,
                r,
            )
            &&& forall|v: int| u <= v < round.len() ==> round[u] <= #[trigger] round[v]
        }),
    decreases targets.len() - from,
{
    let round = round_from(targets, block, r, from);
    if from < targets.len() {
        let n = visits(targets[from] as nat, block, r);
        let own = repeated(from, n);
        let rest = round_from(targets, block, r, from + 1);
        assert(round =~= own + rest);
        if u < n {
            assert(round.take(u) =~= repeated(from, u as nat));
            occurrences_repeated(from, u as nat, from);
            assert forall|v: int| u <= v < round.len() implies round[u] <= #[trigger] round[v] by {
                if v >= n {
                    visits_in_a_round(targets, block, r, from + 1, v - n);
                    assert(round[v] == rest[v - n]);
                }
            }
        } else {
            let w = u - n;
            visits_in_a_round(targets, block, r, from + 1, w);
            assert(round[u] == rest[w]);
            assert(round.take(u) =~= own + rest.take(w));
            occurrences_add_up(own, rest.take(w), rest[w]);
            occurrences_repeated(from, n, rest[w]);
            assert forall|v: int| u <= v < round.len() implies round[u] <= #[trigger] round[v] by {
                assert(round[v] == rest[v - n]);
            }
        }
    }
}

/// How many samples the case visited at place `u` has before that visit, where
/// the visits from round `r` on are looked at.
spec fn had_before(targets: Seq<usize>, block: nat, r: nat, u: int) -> int {
    let all = order_from(targets, block, r);
    taken_after(targets[all[u]] as nat, block, r) + occurrences(all.take(u), all[u]) as int
}

/// A place in a later round is one in the visits from the next round on, and
/// its case has as many samples before it, however the counting starts.
proof fn later_visits(targets: Seq<usize>, block: nat, r: nat, u: int)
    requires
        block > 0,
        unfinished(targets, block, r),
        round_from(targets, block, r, 0).len() <= u < order_from(targets, block, r).len(),
        0 <= order_from(targets, block, r)[u] < targets.len(),
    ensures
        ({
            let w = u - round_from(targets, block, r, 0).len();
            &&& 0 <= w < order_from(targets, block, r + 1).len()
            &&& order_from(targets, block, r)[u] == order_from(targets, block, r + 1)[w]
            &&& had_before(targets, block, r, u) == had_before(targets, block, r + 1, w)
        }),
{
    rounds_are_few(targets, block, r);
    let all = order_from(targets, block, r);
    let round = round_from(targets, block, r, 0);
    let rest = order_from(targets, block, r + 1);
    let w = u - round.len();
    assert(all =~= round + rest);
    assert(all.take(u) =~= round + rest.take(w));
    occurrences_add_up(round, rest.take(w), all[u]);
    occurrences_in_a_round(targets, block, r, 0, all[u]);
    visit_bounds(targets[all[u]] as nat, block, r);
}

/// A sample falls into the round that its number says, and into none before the
/// first that is looked at.
proof fn round_of_a_visit(targets: Seq<usize>, block: nat, r: nat, u: int)
    requires
        block > 0,
        0 <= u < order_from(targets, block, r).len(),
    ensures
        0 <= order_from(targets, block, r)[u] < targets.len(),
        had_before(targets, block, r, u) < targets[order_from(targets, block, r)[u]],
        had_before(targets, block, r, u) / (block as int) >= r,
        u < round_from(targets, block, r, 0).len() ==> had_before(targets, block, r, u) / (
        block as int) == r,
    decreases usize::MAX - r,
{
    let all = order_from(targets, block, r);
    assert(unfinished(targets, block, r));
    rounds_are_few(targets, block, r);
    let round = round_from(targets, block, r, 0);
    let rest = order_from(targets, block, r + 1);
    assert(all =~= round + rest);
    if u < round.len() {
        visits_in_a_round(targets, block, r, 0, u);
        let a = round[u];
        assert(all[u] == a);
        assert(all.take(u) =~= round.take(u));
        visit_bounds(targets[a] as nat, block, r);
        let had = occurrences(round.take(u), a) as int;
        vstd::arithmetic::div_mod::lemma_fundamental_div_mod_converse(
            r * block + had,
            block as int,
            r as int,
            had,
        );
        assert(r * block == block * r) by (nonlinear_arith);
    } else {
        let w = u - round.len();
        round_of_a_visit(targets, block, r + 1, w);
        assert(all[u] == rest[w]);
        later_visits(targets, block, r, u);
    }
}

/// Of two visits, the earlier one is in an earlier round, or in the same round
/// and of no later case.
proof fn visits_rise(targets: Seq<usize>, block: nat, r: nat, u: int, v: int)
    requires
        block > 0,
        0 <= u < v < order_from(targets, block, r).len(),
    ensures
        ({
            let all = order_from(targets, block, r);
            let (p, q) = (
                had_before(targets, block, r, u) / (block as int),
                had_before(targets, block, r, v) / (block as int),
            );
            p < q || (p == q && all[u] <= all[v])
        }),
    decreases usize::MAX - r,
{
    let all = order_from(targets, block, r);
    let round = round_from(targets, block, r, 0);
    let rest = order_from(targets, block, r + 1);
    assert(unfinished(targets, block, r));
    rounds_are_few(targets, block, r);
    assert(all =~= round + rest);
    round_of_a_visit(targets, block, r, u);
    round_of_a_visit(targets, block, r, v);
    let n = round.len() as int;
    if v < n {
        visits_in_a_round(targets, block, r, 0, u);
        assert(all[u] == round[u] && all[v] == round[v]);
    } else if u < n {
        later_visits(targets, block, r, v);
        round_of_a_visit(targets, block, r + 1, v - n);
    } else {
        later_visits(targets, block, r, u);
        later_visits(targets, block, r, v);
        visits_rise(targets, block, r + 1, u - n, v - n);
    }
}

/// Every visit is to a case that still wants a sample, and every case is visited
/// as often as it wants samples, whatever the settings.
pub proof fn the_schedule_gives_every_case_its_samples(
    targets: Seq<usize>,
    block: usize,
    interleave: bool,
)
    ensures
        ({
            let all = order(targets, visit_length(block, interleave) as nat);
            &&& forall|i: int|
                0 <= i < targets.len() ==> all.to_multiset().count(i) == #[trigger] targets[i]
            &&& forall|u: int| 0 <= u < all.len() ==> 0 <= #[trigger] all[u] < targets.len()
        }),
{
    let b = visit_length(block, interleave) as nat;
    let all = order(targets, b);
    assert forall|i: int| 0 <= i < targets.len() implies all.to_multiset().count(i)
        == #[trigger] targets[i] by {
        every_case_gets_its_samples(targets, b, i);
        occurrences_are_counted(all, i);
    }
    assert forall|u: int| 0 <= u < all.len() implies 0 <= #[trigger] all[u] < targets.len() by {
        round_of_a_visit(targets, b, 0, u);
    }
}

/// Interleaved samples are taken round by round, a block of each case in a round
/// and the cases of a round in order. Sample `k` of a case is in round
/// `k / block`; of any two visits, the earlier one is in an earlier round, or in
/// the same round and of no later case. A block of zero counts as one.
pub proof fn interleaved_samples_are_taken_round_by_round(
    targets: Seq<usize>,
    block: usize,
    u: int,
    v: int,
)
    requires
        0 <= u < v < order(targets, visit_length(block, true) as nat).len(),
    ensures
        ({
            let all = order(targets, visit_length(block, true) as nat);
            let per_round: int = if block == 0 {
                1
            } else {
                block as int
            };
            let p = all.take(u).to_multiset().count(all[u]) as int / per_round;
            let q = all.take(v).to_multiset().count(all[v]) as int / per_round;
            p < q || (p == q && all[u] <= all[v])
        }),
{
    let b = visit_length(block, true) as nat;
    let all = order(targets, b);
    visits_rise(targets, b, 0, u, v);
    round_of_a_visit(targets, b, 0, u);
    round_of_a_visit(targets, b, 0, v);
    occurrences_are_counted(all.take(u), all[u]);
    occurrences_are_counted(all.take(v), all[v]);
    assert(0 * b == 0) by (nonlinear_arith);
}

/// Without interleaving each case is run to completion before the next: whatever
/// the cases want, and whatever the block, no visit is followed by one to an
/// earlier case.
pub proof fn sequential_cases_are_run_to_completion(targets: Seq<usize>, block: usize)
    ensures
        ({
            let all = order(targets, visit_length(block, false) as nat);
            &&& all == one_after_another(targets, 0)
            &&& forall|u: int, v: int|
                0 <= u <= v < all.len() ==> #[trigger] all[u] <= #[trigger] all[v]
        }),
{
    let b = visit_length(block, false) as nat;
    let all = order(targets, b);
    assert forall|j: int| 0 <= j < targets.len() implies #[trigger] targets[j] <= b by {}
    long_blocks_are_sequential(targets, b);
    assert forall|u: int, v: int| 0 <= u <= v < all.len() implies #[trigger] all[u]
        <= #[trigger] all[v] by {
        if u < v {
            visits_rise(targets, b, 0, u, v);
            round_of_a_visit(targets, b, 0, u);
            round_of_a_visit(targets, b, 0, v);
            assert(0 * b == 0) by (nonlinear_arith);
            let (k, l) = (had_before(targets, b, 0, u), had_before(targets, b, 0, v));
            vstd::arithmetic::div_mod::lemma_basic_div(l, b as int);
            if k / (b as int) < l / (b as int) {
                vstd::arithmetic::div_mod::lemma_div_pos_is_pos(k, b as int);
            }
        }
    }
}

// ---------------------------------------------------------------------------
// Which cases run
// ---------------------------------------------------------------------------

/// The name of a case within a run, `group/case`.
pub fn full_name(group: &str, case: &str) -> (r: String)
    ensures
        r@ == key_of(group@, case@),
{
    key(group, case)
}

/// The places of those among the first `n` cases that pass the filter.
pub open spec fn passing(c: ConfigView, group: Seq<char>, cases: Seq<CaseView>, n: int) -> Seq<int>
    decreases n,
{
    if n <= 0 {
        Seq::empty()
    } else if passes(c, key_of(group, cases[n - 1].name)) {
        passing(c, group, cases, n - 1).push(n - 1)
    } else {
        passing(c, group, cases, n - 1)
    }
}

/// What a run does with a group.
#[derive(Debug, Clone, PartialEq, Eq)]
pub enum Selection {
    /// No case passes the filter.
    Nothing,
    /// The names to list instead of running anything.
    List(Vec<String>),
    /// The places of the cases to measure.
    Measure(Vec<usize>),
}

/// Is this what a run does with a group? Only cases that pass the filter count;
/// where there are none nothing is done, and otherwise they are listed if the
/// run is to list and measured if not.
pub open spec fn selects(
    s: Selection,
    c: ConfigView,
    group: Seq<char>,
    cases: Seq<CaseView>,
) -> bool {
    let p = passing(c, group, cases, cases.len() as int);
    match s {
        Selection::Nothing => p.len() == 0,
        Selection::List(names) => p.len() > 0 && c.list && texts(names@) == Seq::new(
            p.len(),
            |i: int| key_of(group, cases[p[i]].name),
        ),
        Selection::Measure(places) => p.len() > 0 && !c.list && places@.len() == p.len() && forall|
            i: int,
        |
            0 <= i < p.len() ==> #[trigger] places@[i] == p[i],
    }
}

/// The filter only leaves cases out: the places that pass are exactly those of
/// the cases whose `group/case` name passes, each once, in registration order.
pub proof fn the_filter_keeps_registration_order(
    c: ConfigView,
    group: Seq<char>,
    cases: Seq<CaseView>,
    n: int,
)
    requires
        0 <= n <= cases.len(),
    ensures
        ({
            let p = passing(c, group, cases, n);
            &&& p.len() <= n
            &&& forall|i: int|
                0 <= i < p.len() ==> 0 <= #[trigger] p[i] < n && passes(
                    c,
                    key_of(group, cases[p[i]].name),
                )
            &&& forall|i: int, j: int| 0 <= i < j < p.len() ==> #[trigger] p[i] < #[trigger] p[j]
            &&& forall|k: int|
                0 <= k < n && passes(c, key_of(group, (#[trigger] cases[k]).name)) ==> p.contains(k)
        }),
    decreases n,
{
    if n > 0 {
        the_filter_keeps_registration_order(c, group, cases, n - 1);
        let before = passing(c, group, cases, n - 1);
        let p = passing(c, group, cases, n);
        assert forall|k: int|
            0 <= k < n && passes(c, key_of(group, (#[trigger] cases[k]).name)) implies p.contains(
            k,
        ) by {
            if k < n - 1 {
                let i = choose|i: int| 0 <= i < before.len() && before[i] == k;
                assert(p[i] == k);
            } else {
                assert(p[p.len() - 1] == k);
            }
        }
    }
}

/// What a run does with a group.
pub fn select(config: &Config, group: &str, cases: &Vec<Case>) -> (r: Selection)
    ensures
        selects(r, config@, group@, cases_of(cases@)),
{
    let ghost all = cases_of(cases@);
    let n = cases.len();
    let mut places: Vec<usize> = Vec::new();
    let mut names: Vec<String> = Vec::new();
    let mut i: usize = 0;
    while i < n
        invariant
            n == cases@.len(),
            all == cases_of(cases@),
            i <= n,
            places@.len() == passing(config@, group@, all, i as int).len(),
            names@.len() == places@.len(),
            forall|j: int|
                0 <= j < places@.len() ==> #[trigger] places@[j] == passing(
                    config@,
                    group@,
                    all,
                    i as int,
                )[j],
            forall|j: int|
                0 <= j < names@.len() ==> (#[trigger] names@[j])@ == key_of(
                    group@,
                    all[passing(config@, group@, all, i as int)[j]].name,
                ),
        decreases n - i,
    {
        let name = full_name(group, &cases[i].name);
        assert(all[i as int].name == cases@[i as int].name@);
        if config.matches(&name) {
            places.push(i);
            names.push(name);
        }
        i += 1;
    }
    if places.len() == 0 {
        return Selection::Nothing;
    }
    if config.list {
        proof {
            let p = passing(config@, group@, all, n as int);
            assert(texts(names@) =~= Seq::new(p.len(), |i: int| key_of(group@, all[p[i]].name)));
        }
        return Selection::List(names);
    }
    Selection::Measure(places)
}

// ---------------------------------------------------------------------------
// What was measured
// ---------------------------------------------------------------------------

/// What calibration decided for one case, and where its samples land.
#[derive(Debug, Clone, PartialEq, Eq)]
pub struct Plan {
    pub name: String,
    pub throughput: Option<Throughput>,
    pub iters: u64,
    /// Nanoseconds per batch, in round order.
    pub samples: Vec<u128>,
}

impl Plan {
    /// A case without samples.
    pub fn new(case: &Case, iters: u64) -> (r: Self)
        ensures
            r.name@ == case@.name,
            r.throughput == case@.throughput,
            r.iters == iters,
            r.samples@ == Seq::<u128>::empty(),
    {
        Plan {
            name: case.name.clone(),
            throughput: case.throughput,
            iters,
            samples: Vec::new(),
        }
    }

    /// A batch was measured.
    pub fn take_sample(&mut self, nanos: u128)
        ensures
            final(self).samples@ == old(self).samples@.push(nanos),
            final(self).name == old(self).name,
            final(self).throughput == old(self).throughput,
            final(self).iters == old(self).iters,
    {
        self.samples.push(nanos);
    }
}

/// The amount that every case declared, if they agree.
pub open spec fn agreed(plans: Seq<Plan>) -> Option<Throughput> {
    if plans.len() > 0 && forall|i: int|
        0 <= i < plans.len() ==> (#[trigger] plans[i]).throughput == plans[0].throughput {
        plans[0].throughput
    } else {
        None
    }
}

/// Is `t` the least of the samples?
pub open spec fn is_least(t: u128, samples: Seq<u128>) -> bool {
    samples.contains(t) && forall|i: int| 0 <= i < samples.len() ==> t <= #[trigger] samples[i]
}

/// Is this how a case compares with the reference? By pairs of rounds where
/// rounds were interleaved and any can be compared, by the two minima
/// otherwise, and not at all where the reference measured as zero.
pub open spec fn compares(
    r: Option<Ratio>,
    interleave: bool,
    case: Seq<u128>,
    reference: Seq<u128>,
) -> bool {
    if interleave && pairs(case, reference).len() > 0 {
        r matches Some(ratio) && ratio.pairs_up(case, reference)
    } else {
        match r {
            Some(ratio) => exists|c: u128, f: u128|
                is_least(c, case) && is_least(f, reference) && f > 0 && #[trigger] ratio.divides(
                    c,
                    f,
                ),
            None => is_least(0, reference),
        }
    }
}

/// Is this what a baseline had recorded under a name?
pub open spec fn recalls(
    s: Option<SavedStats>,
    saved: Map<Seq<char>, RowView>,
    full_name: Seq<char>,
) -> bool {
    match s {
        Some(s) => saved.dom().contains(full_name) && s.min_ns@ == saved[full_name].min_ns
            && s.p50_ns@ == saved[full_name].p50_ns && s.p90_ns@ == saved[full_name].p90_ns,
        None => !saved.dom().contains(full_name),
    }
}

/// Is `c` the result of plan `i`?
pub open spec fn summarizes(
    c: CaseResult,
    interleave: bool,
    saved: Map<Seq<char>, RowView>,
    group: Seq<char>,
    no_reference: bool,
    plans: Seq<Plan>,
    i: int,
) -> bool {
    &&& c.name@ == plans[i].name@
    &&& c.iters == plans[i].iters
    &&& c.samples@ == plans[i].samples@
    &&& c.stats.describes(plans[i].samples@)
    &&& c.is_reference == (i == 0 && !no_reference)
    &&& c.reference_iters == plans[0].iters
    &&& c.throughput == plans[i].throughput
    &&& recalls(c.baseline, saved, key_of(group, plans[i].name@))
    &&& if i == 0 || no_reference {
        c.ratio is None
    } else {
        compares(c.ratio, interleave, plans[i].samples@, plans[0].samples@)
    }
}

/// What a baseline had recorded under a name.
pub fn saved_stats(saved: &Baseline, full_name: &str) -> (r: Option<SavedStats>)
    ensures
        recalls(r, saved@, full_name@),
{
    match saved.get(full_name) {
        Some(row) => Some(
            SavedStats {
                min_ns: row.min_ns.clone(),
                p50_ns: row.p50_ns.clone(),
                p90_ns: row.p90_ns.clone(),
            },
        ),
        None => None,
    }
}

/// How a case compares with the reference.
fn compare(interleave: bool, case: &Vec<u128>, reference: &Vec<u128>) -> (r: Option<Ratio>)
    requires
        case@.len() > 0,
        reference@.len() > 0,
    ensures
        compares(r, interleave, case@, reference@),
{
    if interleave {
        if let Some(r) = paired_ratio(case.as_slice(), reference.as_slice()) {
            return Some(r);
        }
    }
    let least = Stats::of(case.as_slice()).min;
    let reference_least = Stats::of(reference.as_slice()).min;
    if reference_least > 0 {
        let r = Ratio::of_times(least, reference_least);
        assert(is_least(least, case@) && is_least(reference_least, reference@));
        Some(r)
    } else {
        None
    }
}

/// Do the cases agree on an amount?
fn common_throughput(plans: &Vec<Plan>) -> (r: Option<Throughput>)
    ensures
        r == agreed(plans@),
{
    if plans.len() == 0 {
        return None;
    }
    let first = plans[0].throughput;
    let mut i: usize = 0;
    while i < plans.len()
        invariant
            plans@.len() > 0,
            first == plans@[0].throughput,
            i <= plans@.len(),
            forall|j: int| 0 <= j < i ==> (#[trigger] plans@[j]).throughput == first,
        decreases plans@.len() - i,
    {
        if plans[i].throughput != first {
            assert(plans@[i as int].throughput != plans@[0].throughput);
            return None;
        }
        i += 1;
    }
    first
}

/// The result of a group: per case the order statistics of its samples, its
/// ratio to the reference, and what the baseline had recorded for it.
///
/// The reference is the first case that passed the filter. A case without
/// samples has no statistics, so every plan has one at least.
pub fn summarize(
    interleave: bool,
    saved: &Baseline,
    group: &str,
    no_reference: bool,
    plans: &Vec<Plan>,
) -> (r: GroupResult)
    requires
        forall|i: int| 0 <= i < plans@.len() ==> (#[trigger] plans@[i]).samples@.len() > 0,
    ensures
        r.name@ == group@,
        r.no_reference == no_reference,
        r.throughput == agreed(plans@),
        r.cases@.len() == plans@.len(),
        forall|i: int|
            0 <= i < plans@.len() ==> summarizes(
                #[trigger] r.cases@[i],
                interleave,
                saved@,
                group@,
                no_reference,
                plans@,
                i,
            ),
{
    let throughput = common_throughput(plans);
    let mut cases: Vec<CaseResult> = Vec::new();
    let n = plans.len();
    let mut i: usize = 0;
    while i < n
        invariant
            n == plans@.len(),
            i <= n,
            cases@.len() == i,
            forall|j: int| 0 <= j < n ==> (#[trigger] plans@[j]).samples@.len() > 0,
            forall|j: int|
                0 <= j < i ==> summarizes(
                    #[trigger] cases@[j],
                    interleave,
                    saved@,
                    group@,
                    no_reference,
                    plans@,
                    j,
                ),
        decreases n - i,
    {
        let plan = &plans[i];
        let first = &plans[0];
        let ratio = if i == 0 || no_reference {
            None
        } else {
            compare(interleave, &plan.samples, &first.samples)
        };
        let samples = copied(&plan.samples);
        cases.push(
            CaseResult {
                name: plan.name.clone(),
                iters: plan.iters,
                stats: Stats::of(plan.samples.as_slice()),
                samples,
                is_reference: i == 0 && !no_reference,
                ratio,
                reference_iters: first.iters,
                baseline: saved_stats(saved, &full_name(group, &plan.name)),
                throughput: plan.throughput,
            },
        );
        i += 1;
    }
    GroupResult { name: group.to_owned(), cases, throughput, no_reference }
}

/// The same samples in the same order.
fn copied(samples: &Vec<u128>) -> (r: Vec<u128>)
    ensures
        r@ == samples@,
{
    let mut r: Vec<u128> = Vec::new();
    r.extend_from_slice(samples.as_slice());
    assert(r@ =~= samples@);
    r
}

impl GroupResult {
    /// The result of a group that measured nothing.
    pub fn nothing(group: &str) -> (r: Self)
        ensures
            r.name@ == group@,
            r.cases@.len() == 0,
            r.throughput is None,
            !r.no_reference,
    {
        GroupResult {
            name: group.to_owned(),
            cases: Vec::new(),
            throughput: None,
            no_reference: false,
        }
    }
}

/// Cases that are not alternatives are not compared: in a group without a
/// reference no case is one, none has a ratio or a band to print, and the ratio
/// columns of its rows are empty.
pub proof fn without_a_reference_nothing_is_compared(
    c: CaseResult,
    n: CaseNumbers,
    interleave: bool,
    saved: Map<Seq<char>, RowView>,
    group: Seq<char>,
    plans: Seq<Plan>,
    i: int,
)
    requires
        0 <= i < plans.len(),
        summarizes(c, interleave, saved, group, true, plans, i),
    ensures
        !c.is_reference,
        c.ratio is None,
        case_cells(c, n, true).ratio.len() == 0,
        case_cells(c, n, true).band.len() == 0,
        tsv_fields(group, c, n)[7].len() == 0,
        tsv_fields(group, c, n)[8].len() == 0,
        tsv_fields(group, c, n)[9].len() == 0,
{
    no_ratio_leaves_its_columns_empty(group, c, n);
}

/// Where nothing was interleaved there is nothing to pair: a ratio is that of
/// the two reported minima, and the band is omitted.
pub proof fn sequential_ratios_are_of_the_minima(
    c: CaseResult,
    reference: CaseResult,
    saved: Map<Seq<char>, RowView>,
    group: Seq<char>,
    no_reference: bool,
    plans: Seq<Plan>,
    i: int,
)
    requires
        0 <= i < plans.len(),
        summarizes(c, false, saved, group, no_reference, plans, i),
        summarizes(reference, false, saved, group, no_reference, plans, 0),
    ensures
        c.ratio is Some <==> i > 0 && !no_reference && reference.stats.min > 0,
        c.ratio matches Some(r) ==> r.divides(c.stats.min, reference.stats.min),
{
    if i > 0 && !no_reference {
        let samples = plans[0].samples@;
        let least = choose|k: int| 0 <= k < samples.len() && samples[k] == reference.stats.min;
        if let Some(r) = c.ratio {
            let (a, b) = choose|a: u128, b: u128|
                is_least(a, plans[i].samples@) && is_least(b, samples) && b > 0
                    && #[trigger] r.divides(a, b);
            let at = choose|k: int| 0 <= k < samples.len() && samples[k] == b;
            let own = plans[i].samples@;
            let own_at = choose|k: int| 0 <= k < own.len() && own[k] == a;
            let own_least = choose|k: int| 0 <= k < own.len() && own[k] == c.stats.min;
            assert(a == c.stats.min);
            assert(b == reference.stats.min);
        } else {
            assert(is_least(0, samples));
            assert(samples[least] == reference.stats.min);
            let at = choose|k: int| 0 <= k < samples.len() && samples[k] == 0;
            assert(reference.stats.min <= samples[at]);
        }
    }
}

/// What a run does with a group is told by the cases that pass, which stand here
/// in registration order: nothing where there are none, their full names where
/// the run is to list, and their places where it is to measure.
pub proof fn a_selection_is_what_passes(
    s: Selection,
    c: ConfigView,
    group: Seq<char>,
    cases: Seq<CaseView>,
) -> (p: Seq<int>)
    requires
        selects(s, c, group, cases),
    ensures
        forall|i: int, j: int| 0 <= i < j < p.len() ==> #[trigger] p[i] < #[trigger] p[j],
        forall|i: int| 0 <= i < p.len() ==> 0 <= #[trigger] p[i] < cases.len(),
        forall|k: int|
            0 <= k < cases.len() ==> (p.contains(k) <==> passes(
                c,
                group + seq!['/'] + (#[trigger] cases[k]).name,
            )),
        s is Nothing <==> p.len() == 0,
        p.len() > 0 ==> (s is List <==> c.list),
        s matches Selection::List(names) ==> names@.len() == p.len() && forall|i: int|
            0 <= i < p.len() ==> (#[trigger] names@[i])@ == group + seq!['/'] + cases[p[i]].name,
        s matches Selection::Measure(places) ==> places@.len() == p.len() && forall|i: int|
            0 <= i < p.len() ==> #[trigger] places@[i] == p[i],
{
    reveal_strlit("/");
    assert("/"@ =~= seq!['/']);
    the_filter_keeps_registration_order(c, group, cases, cases.len() as int);
    let p = passing(c, group, cases, cases.len() as int);
    assert forall|k: int| 0 <= k < cases.len() implies (p.contains(k) <==> passes(
        c,
        group + seq!['/'] + (#[trigger] cases[k]).name,
    )) by {
        if p.contains(k) {
            let i = choose|i: int| 0 <= i < p.len() && p[i] == k;
            assert(passes(c, key_of(group, cases[p[i]].name)));
        }
    }
    if let Selection::List(names) = s {
        assert(texts(names@).len() == p.len());
        assert forall|i: int| 0 <= i < p.len() implies (#[trigger] names@[i])@ == group + seq!['/']
            + cases[p[i]].name by {
            assert(texts(names@)[i] == names@[i]@);
        }
    }
    p
}

/// The amount in a group's first line is the one that every case declared, and
/// there is none where one of them declared another or none.
pub proof fn the_header_amount_is_everyones(plans: Seq<Plan>, t: Throughput)
    ensures
        agreed(plans) == Some(t) <==> plans.len() > 0 && forall|i: int|
            0 <= i < plans.len() ==> (#[trigger] plans[i]).throughput == Some(t),
{
    if agreed(plans) == Some(t) {
        assert(plans[0].throughput == Some(t));
    }
    if plans.len() > 0 && forall|i: int|
        0 <= i < plans.len() ==> (#[trigger] plans[i]).throughput == Some(t) {
        assert(plans[0].throughput == Some(t));
    }
}

/// A case is handed back with what was measured of it and what was saved for it,
/// and where rounds were interleaved it is compared with the first case, round
/// by round.
pub proof fn a_case_carries_what_was_measured(
    c: CaseResult,
    interleave: bool,
    saved: Map<Seq<char>, RowView>,
    group: Seq<char>,
    no_reference: bool,
    plans: Seq<Plan>,
    i: int,
)
    requires
        0 <= i < plans.len(),
        summarizes(c, interleave, saved, group, no_reference, plans, i),
    ensures
        c.name@ == plans[i].name@,
        c.iters == plans[i].iters,
        c.samples@ == plans[i].samples@,
        c.throughput == plans[i].throughput,
        c.reference_iters == plans[0].iters,
        c.is_reference <==> i == 0 && !no_reference,
        ({
            let name = group + seq!['/'] + plans[i].name@;
            &&& c.baseline is Some <==> saved.dom().contains(name)
            &&& c.baseline matches Some(times) ==> times.min_ns@ == saved[name].min_ns
                && times.p50_ns@ == saved[name].p50_ns && times.p90_ns@ == saved[name].p90_ns
        }),
        i == 0 || no_reference ==> c.ratio is None,
        i > 0 && !no_reference && interleave && pairs(
            plans[i].samples@,
            plans[0].samples@,
        ).len() > 0 ==> c.ratio is Some && c.ratio->0.pairs_up(
            plans[i].samples@,
            plans[0].samples@,
        ),
{
    reveal_strlit("/");
    assert("/"@ =~= seq!['/']);
}

} // verus!
