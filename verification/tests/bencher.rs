//! What a benchmark body reports, and how the size of a batch is chosen.

use benchit::bencher::{fastest, BATCH_FLOOR};
use benchit::{Batch, Bencher, Calibrated, Calibration};

/// Calibrate a body that takes `timed` and `wall` nanoseconds per iteration, and
/// count its batches.
fn calibrate(max_batch: u128, timed: u128, wall: u128) -> (Calibrated, usize) {
    let mut search = Calibration::new(max_batch);
    let mut batches = 0;
    loop {
        let n = u128::from(search.iters);
        batches += 1;
        let batch = Batch {
            timed: timed * n,
            wall: wall * n,
        };
        if let Some(done) = search.step(batch) {
            return (done, batches);
        }
    }
}

#[test]
fn a_body_reports_its_time() {
    let mut b = Bencher::new(8);
    assert_eq!(b.iters, 8);
    b.iter(123);
    assert_eq!(b.take("g/c"), Ok(123));
}

#[test]
fn clock_overhead_is_subtracted_and_never_below_zero() {
    let mut b = Bencher::new(8);
    b.iter_with(100, 40);
    assert_eq!(b.clone().take("g/c"), Ok(60));
    b.iter_with(100, 140);
    assert_eq!(b.take("g/c"), Ok(0));
}

#[test]
fn a_body_that_never_timed_anything_is_named() {
    assert_eq!(
        Bencher::new(1).take("g/c"),
        Err(
            "benchmark `g/c` never timed anything: its body must call `iter` or `iter_with`"
                .to_string()
        )
    );
}

#[test]
fn batches_double_until_they_clear_a_millisecond() {
    assert_eq!(BATCH_FLOOR, 1_000_000);
    // 1000 ns: 1024 iterations clear the floor, and are timed once more.
    let (done, batches) = calibrate(100_000_000, 1000, 1000);
    assert_eq!(
        done,
        Calibrated {
            iters: 1024,
            wall: 1_024_000
        }
    );
    assert_eq!(batches, 12);
}

#[test]
fn a_slow_body_stops_at_the_cap() {
    let (done, batches) = calibrate(100_000_000, 250_000_000, 250_000_000);
    assert_eq!(
        done,
        Calibrated {
            iters: 1,
            wall: 250_000_000
        }
    );
    assert_eq!(batches, 1);
    // The cap is on wall time: setup that is not timed counts.
    let (done, _) = calibrate(100_000, 1, 1000);
    assert_eq!(
        done,
        Calibrated {
            iters: 128,
            wall: 128_000
        }
    );
}

#[test]
fn a_batch_that_warms_up_under_the_floor_is_doubled() {
    let mut search = Calibration::new(u128::MAX);
    let cold = Batch {
        timed: BATCH_FLOOR,
        wall: 7,
    };
    let warm = Batch {
        timed: BATCH_FLOOR - 1,
        wall: 5,
    };
    assert_eq!(search.step(cold), None);
    assert_eq!(search.iters, 1, "the same batch again");
    assert_eq!(search.step(warm), None);
    assert_eq!(search.iters, 2);
    assert_eq!(search.step(cold), None);
    let confirmed = Batch {
        timed: BATCH_FLOOR,
        wall: 6,
    };
    assert_eq!(
        search.step(confirmed),
        Some(Calibrated { iters: 2, wall: 6 })
    );
}

#[test]
fn calibration_ends_when_nothing_is_ever_timed() {
    let (done, batches) = calibrate(u128::MAX, 0, 0);
    assert_eq!(
        done,
        Calibrated {
            iters: 1 << 63,
            wall: 0
        }
    );
    assert_eq!(batches, 64);
    // And at most twice as many when every batch clears the floor only once.
    let mut search = Calibration::new(u128::MAX);
    let mut batches = 0;
    loop {
        batches += 1;
        let timed = if batches % 2 == 1 { BATCH_FLOOR } else { 0 };
        let wall = batches;
        if let Some(done) = search.step(Batch { timed, wall }) {
            assert_eq!(done.iters, 1 << 63);
            // The wall time of the batch that cleared the floor.
            assert_eq!(done.wall, 127);
            break;
        }
    }
    assert_eq!(batches, 128);
}

#[test]
fn the_fastest_total_is_the_least() {
    assert_eq!(fastest(&[5, 3, 9, 3]), Some(3));
    assert_eq!(fastest(&[u128::MAX]), Some(u128::MAX));
    assert_eq!(fastest(&[]), None);
}
