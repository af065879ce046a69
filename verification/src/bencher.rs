//! The measurement core without its clock: what a benchmark body reports, and
//! how the size of a batch is chosen.
//!
//! Times are whole nanoseconds.

use vstd::prelude::*;

verus! {

/// The floor a calibrated batch must clear: a millisecond. About 25000x a timer
/// round trip, which puts timer error under 0.01% of the reported number.
pub const BATCH_FLOOR: u128 = 1_000_000;

/// The fewest samples a case is allowed to contribute. A batch is capped so
/// that even a slow operation yields at least this many samples per case.
pub const MIN_SAMPLES: usize = 10;

/// What one call of a benchmark body reports: the scheduler presets the
/// iteration count, calls the body once, and reads the elapsed time back out.
#[derive(Debug, Clone, PartialEq, Eq)]
pub struct Bencher {
    /// How many iterations the body has to run.
    pub iters: u64,
    /// The time it reported, once it has.
    pub elapsed: Option<u128>,
}

/// `a` less `b`, and never less than nothing.
pub open spec fn less(a: int, b: int) -> int {
    if a < b {
        0
    } else {
        a - b
    }
}

impl Bencher {
    /// Nothing timed yet.
    pub fn new(iters: u64) -> (r: Self)
        ensures
            r == (Bencher { iters, elapsed: None }),
    {
        Bencher { iters, elapsed: None }
    }

    /// The whole batch took `total`.
    pub fn iter(&mut self, total: u128)
        ensures
            *final(self) == (Bencher { elapsed: Some(total), ..*old(self) }),
    {
        self.elapsed = Some(total);
    }

    /// The timed spans of the iterations took `total` together, of which
    /// `overhead` was spent reading the clock.
    pub fn iter_with(&mut self, total: u128, overhead: u128)
        ensures
            *final(self) == (Bencher {
                elapsed: Some(less(total as int, overhead as int) as u128),
                ..*old(self)
            }),
            total >= overhead ==> final(self).elapsed == Some((total - overhead) as u128),
            total <= overhead ==> final(self).elapsed == Some(0u128),
    {
        self.elapsed = Some(total.saturating_sub(overhead));
    }

    /// The time that was reported. A body that never timed anything is an
    /// error, told in words that name the case.
    pub fn take(self, case: &str) -> (r: Result<u128, String>)
        ensures
            match r {
                Ok(t) => self.elapsed == Some(t),
                Err(words) => self.elapsed is None && words@ == never_timed(case@),
            },
    {
        match self.elapsed {
            Some(t) => Ok(t),
            None => {
                let mut words = String::new();
                words.append("benchmark `");
                words.append(case);
                words.append("` never timed anything: its body must call `iter` or `iter_with`");
                assert(words@ =~= never_timed(case@));
                Err(words)
            },
        }
    }
}

/// What is said of a body that never timed anything.
pub open spec fn never_timed(case: Seq<char>) -> Seq<char> {
    "benchmark `"@ + case
        + "` never timed anything: its body must call `iter` or `iter_with`"@
}

/// The two costs of one batch.
#[derive(Debug, Clone, Copy, PartialEq, Eq)]
pub struct Batch {
    /// What the body reported, and the only thing that reaches the report.
    pub timed: u128,
    /// What the batch cost the run, setup included.
    pub wall: u128,
}

/// What calibration decided: the batch size, and how long that batch took.
#[derive(Debug, Clone, Copy, PartialEq, Eq)]
pub struct Calibrated {
    pub iters: u64,
    pub wall: u128,
}

/// The search for a batch size, between two batches.
///
/// Doubles the iteration count until a batch clears [`BATCH_FLOOR`], then
/// re-times that batch: a closure that gets faster as it warms up can clear the
/// floor on a cold batch and fall back under it once warm.
#[derive(Debug, Clone, PartialEq, Eq)]
pub struct Calibration {
    /// The size of the batch to run next.
    pub iters: u64,
    /// The wall time at which a batch is long enough whatever was timed.
    pub max_batch: u128,
    /// The wall time of the batch that cleared the floor, while it is re-timed.
    pub cleared: Option<u128>,
}

/// Is `n` a power of two?
pub open spec fn is_power_of_two(n: int) -> bool
    decreases n,
{
    n == 1 || (n > 1 && n % 2 == 0 && is_power_of_two(n / 2))
}

/// How often `n` can be doubled without leaving 64 bits.
pub open spec fn doublings_left(n: int) -> nat
    decreases u64::MAX - n,
{
    if n <= 0 || 2 * n > u64::MAX {
        0
    } else {
        1 + doublings_left(2 * n)
    }
}

impl Calibration {
    /// The size of a batch is a power of two.
    pub open spec fn wf(self) -> bool {
        is_power_of_two(self.iters as int)
    }

    /// An upper bound on the batches still to come.
    pub open spec fn batches_left(self) -> nat {
        2 * doublings_left(self.iters as int) + if self.cleared is None {
            2nat
        } else {
            1nat
        }
    }

    /// The next batch size, if there is one; the outcome with the wall time
    /// `wall` if there is none.
    pub open spec fn doubled(self, wall: u128) -> (Calibration, Option<Calibrated>) {
        if 2 * self.iters > u64::MAX {
            (self, Some(Calibrated { iters: self.iters, wall }))
        } else {
            (Calibration { iters: (2 * self.iters) as u64, cleared: None, ..self }, None)
        }
    }

    /// What a batch makes of the search: how it stands after it, and the
    /// outcome if that is settled.
    pub open spec fn after(self, batch: Batch) -> (Calibration, Option<Calibrated>) {
        match self.cleared {
            None => if batch.wall >= self.max_batch {
                (self, Some(Calibrated { iters: self.iters, wall: batch.wall }))
            } else if batch.timed >= BATCH_FLOOR {
                (Calibration { cleared: Some(batch.wall), ..self }, None)
            } else {
                self.doubled(batch.wall)
            },
            Some(wall) => if batch.timed >= BATCH_FLOOR {
                (self, Some(Calibrated { iters: self.iters, wall: batch.wall }))
            } else {
                self.doubled(wall)
            },
        }
    }

    /// Start with a batch of one iteration.
    pub fn new(max_batch: u128) -> (r: Self)
        ensures
            r == (Calibration { iters: 1, max_batch, cleared: None }),
            r.wf(),
    {
        Calibration { iters: 1, max_batch, cleared: None }
    }

    /// Take in the batch that was asked for. The outcome, or `None` where
    /// another batch of `iters` iterations is wanted.
    pub fn step(&mut self, batch: Batch) -> (r: Option<Calibrated>)
        requires
            old(self).wf(),
        ensures
            (*final(self), r) == old(self).after(batch),
            final(self).wf(),
            r is None ==> final(self).batches_left() < old(self).batches_left(),
    {
        let wall = match self.cleared {
            None => {
                // The cap is on wall time, since that is what the run pays for.
                if batch.wall >= self.max_batch {
                    return Some(Calibrated { iters: self.iters, wall: batch.wall });
                }
                // The floor is on the timed span, since that is what timer
                // error is measured against.

                if batch.timed >= BATCH_FLOOR {
                    self.cleared = Some(batch.wall);
                    return None;
                }
                batch.wall
            },
            Some(wall) => {
                if batch.timed >= BATCH_FLOOR {
                    return Some(Calibrated { iters: self.iters, wall: batch.wall });
                }
                wall
            },
        };
        match self.iters.checked_mul(2) {
            None => Some(Calibrated { iters: self.iters, wall }),
            Some(next) => {
                self.iters = next;
                self.cleared = None;
                None
            },
        }
    }
}

/// A batch size is settled on for a reason: the batch reached the cap, or it
/// cleared the floor twice in a row, or no larger one can be counted. It is a
/// power of two, and the wall time is that of a batch of that size.
pub proof fn batch_sizes_are_settled_for_a_reason(c: Calibration, batch: Batch)
    requires
        c.wf(),
    ensures
        c.after(batch).0.wf(),
        c.after(batch).1 matches Some(done) ==> {
            &&& done.iters == c.iters
            &&& is_power_of_two(done.iters as int)
            &&& done.wall == batch.wall || c.cleared == Some(done.wall)
            &&& {
                ||| c.cleared is None && batch.wall >= c.max_batch
                ||| c.cleared is Some && batch.timed >= BATCH_FLOOR
                ||| 2 * done.iters > u64::MAX
            }
        },
        c.after(batch).1 is None ==> c.after(batch).0.batches_left() < c.batches_left(),
{
}

/// A reason settles the size, at once: a batch that took as long as a batch may,
/// and a re-timed batch that took a millisecond again. Of the others, one that
/// took a millisecond is re-timed, and one that did not is doubled, as long as
/// there is a number for that.
pub proof fn a_reason_settles_the_size(c: Calibration, batch: Batch)
    ensures
        ({
            let (next, done) = c.after(batch);
            let long = c.cleared is None && batch.wall >= c.max_batch;
            let clears = batch.timed >= 1_000_000;
            let settled = Some(Calibrated { iters: c.iters, wall: batch.wall });
            &&& long ==> done == settled
            &&& c.cleared is Some && clears ==> done == settled
            &&& c.cleared is None && !long && clears ==> done is None && next == (Calibration {
                iters: c.iters,
                max_batch: c.max_batch,
                cleared: Some(batch.wall),
            })
            &&& !long && !clears && 2 * c.iters <= u64::MAX ==> done is None
                && next.iters == 2 * c.iters && next.cleared is None && next.max_batch
                == c.max_batch
            &&& !long && !clears && 2 * c.iters > u64::MAX ==> done is Some
                && done->0.iters == c.iters
        }),
{
}

/// Between a power of two and its double there is no other.
proof fn powers_of_two_keep_apart(m: int, n: int)
    requires
        is_power_of_two(m),
        is_power_of_two(n),
        m < 2 * n,
    ensures
        m <= n,
    decreases n,
{
    if n > 1 && m > 1 {
        powers_of_two_keep_apart(m / 2, n / 2);
    }
}

/// Is a batch that cost this large enough: did it take a millisecond, or as long
/// as a batch may?
pub open spec fn is_enough(batch: Batch, max_batch: u128) -> bool {
    batch.wall >= max_batch || batch.timed >= 1_000_000
}

/// What holds on the way of a search over batches whose cost is that of their
/// size: no smaller size was enough, and a size that is re-timed is.
proof fn smaller_sizes_were_not_enough(
    states: Seq<Calibration>,
    cost: spec_fn(u64) -> Batch,
    max_batch: u128,
    k: int,
)
    requires
        0 <= k < states.len(),
        states[0] == (Calibration { iters: 1, max_batch, cleared: None }),
        forall|j: int|
            0 <= j < states.len() - 1 ==> (#[trigger] states[j]).after(cost(states[j].iters)) == (
                states[j + 1],
                None::<Calibrated>,
            ),
    ensures
        states[k].wf(),
        states[k].max_batch == max_batch,
        states[k].cleared is Some ==> cost(states[k].iters).timed >= 1_000_000,
        forall|m: u64|
            is_power_of_two(m as int) && m < states[k].iters ==> !is_enough(
                #[trigger] cost(m),
                max_batch,
            ),
    decreases k,
{
    if k > 0 {
        smaller_sizes_were_not_enough(states, cost, max_batch, k - 1);
        let (before, after) = (states[k - 1], states[k]);
        let batch = cost(before.iters);
        assert(before.after(batch) == (after, None::<Calibrated>));
        assert forall|m: u64| is_power_of_two(m as int) && m < after.iters implies !is_enough(
            #[trigger] cost(m),
            max_batch,
        ) by {
            if after.iters != before.iters {
                powers_of_two_keep_apart(m as int, before.iters as int);
            }
        }
    }
}

/// The size that calibration settles on is the least that is enough: for a body
/// whose batches cost what their size says, it is the smallest power of two at
/// which a batch takes a millisecond or as long as a batch may. Only a size that
/// cannot be doubled is taken for want of a larger one.
pub proof fn calibration_finds_the_least_size(
    states: Seq<Calibration>,
    cost: spec_fn(u64) -> Batch,
    max_batch: u128,
    done: Calibrated,
)
    requires
        states.len() > 0,
        states[0] == (Calibration { iters: 1, max_batch, cleared: None }),
        forall|j: int|
            0 <= j < states.len() - 1 ==> (#[trigger] states[j]).after(cost(states[j].iters)) == (
                states[j + 1],
                None::<Calibrated>,
            ),
        states.last().after(cost(states.last().iters)).1 == Some(done),
    ensures
        is_power_of_two(done.iters as int),
        done.wall == cost(done.iters).wall,
        is_enough(cost(done.iters), max_batch) || 2 * done.iters > u64::MAX,
        forall|m: u64|
            is_power_of_two(m as int) && m < done.iters ==> !is_enough(
                #[trigger] cost(m),
                max_batch,
            ),
{
    smaller_sizes_were_not_enough(states, cost, max_batch, states.len() - 1);
}

/// However the batches turn out, calibration is over after at most 128 of them.
pub proof fn calibration_ends(max_batch: u128)
    ensures
        (Calibration { iters: 1, max_batch, cleared: None }).batches_left() == 128,
{
    reveal_with_fuel(doublings_left, 65);
}

/// The least of the totals: clock noise is one-sided, so the least is the best
/// estimate of what the clock itself costs.
pub fn fastest(totals: &[u128]) -> (r: Option<u128>)
    ensures
        match r {
            Some(t) => totals@.contains(t) && forall|i: int|
                0 <= i < totals@.len() ==> t <= #[trigger] totals@[i],
            None => totals@.len() == 0,
        },
{
    if totals.len() == 0 {
        return None;
    }
    let mut best = totals[0];
    let mut i: usize = 1;
    assert(totals@.contains(totals@[0]));
    while i < totals.len()
        invariant
            1 <= i <= totals@.len(),
            totals@.contains(best),
            forall|j: int| 0 <= j < i ==> best <= #[trigger] totals@[j],
        decreases totals@.len() - i,
    {
        if totals[i] < best {
            best = totals[i];
            assert(totals@.contains(totals@[i as int]));
        }
        i += 1;
    }
    Some(best)
}

} // verus!
