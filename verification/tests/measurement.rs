//! The measuring of a group, batch by batch.

use benchit::{Baseline, Batch, Case, Config, Measurement, Phase, Wanted};

fn cases(names: &[&str]) -> Vec<Case> {
    names
        .iter()
        .map(|n| Case {
            name: n.to_string(),
            throughput: None,
        })
        .collect()
}

fn even(nanos: u128) -> Batch {
    Batch {
        timed: nanos,
        wall: nanos,
    }
}

fn wanted(case: usize, iters: u64) -> Option<Wanted> {
    Some(Wanted { case, iters })
}

const MS: u128 = 1_000_000;

#[test]
fn every_case_is_calibrated_before_any_is_sampled() {
    let config = Config {
        time_ms: 100,
        samples: 2,
        ..Config::default()
    };
    let all = cases(&["x", "a", "b"]);
    let mut m = Measurement::new(&config, &all, &vec![1, 2]);
    // A tenth of the budget is enough for a batch.
    assert_eq!(m.wanted(), wanted(0, 1));
    m.take(even(10 * MS));
    assert_eq!(m.targets, [2]);
    // The floor is cleared at two iterations, and once more.
    assert_eq!(m.wanted(), wanted(1, 1));
    m.take(even(MS - 1));
    assert_eq!(m.wanted(), wanted(1, 2));
    m.take(even(MS));
    assert_eq!(m.wanted(), wanted(1, 2));
    m.take(even(2 * MS));
    assert_eq!(m.targets, [2, 2]);
    // Rounds.
    assert_eq!(m.wanted(), wanted(0, 1));
    m.take(even(11));
    assert_eq!(m.wanted(), wanted(1, 2));
    m.take(even(21));
    assert_eq!(m.wanted(), wanted(0, 1));
    m.take(even(12));
    assert_eq!(m.wanted(), wanted(1, 2));
    m.take(even(22));
    assert_eq!(m.wanted(), None);
    assert_eq!(m.phase, Phase::Finished);
    let r = m.finish(&Baseline::new(), "g", false);
    let names: Vec<&str> = r.cases.iter().map(|c| c.name.as_str()).collect();
    assert_eq!(names, ["a", "b"]);
    assert_eq!(r.cases[0].samples, [11, 12]);
    assert_eq!(r.cases[1].samples, [21, 22]);
    assert_eq!((r.cases[0].iters, r.cases[1].iters), (1, 2));
    assert!(r.cases[0].is_reference);
}

#[test]
fn sequential_cases_are_sampled_one_after_another() {
    let config = Config {
        time_ms: 1,
        samples: 3,
        interleave: false,
        ..Config::default()
    };
    let mut m = Measurement::new(&config, &cases(&["a", "b"]), &vec![0, 1]);
    let mut visits = Vec::new();
    while let Some(w) = m.wanted() {
        if matches!(m.phase, Phase::Sampling { .. }) {
            visits.push(w.case);
        }
        m.take(even(MS));
    }
    assert_eq!(visits, [0, 0, 0, 1, 1, 1]);
    let r = m.finish(&Baseline::new(), "g", false);
    assert_eq!(r.cases[1].ratio.expect("a ratio").iqr, None);
}

#[test]
fn the_budget_decides_how_many_samples_a_case_gets() {
    let mut m = Measurement::new(&Config::default(), &cases(&["slow", "fast"]), &vec![0, 1]);
    m.take(even(500 * MS));
    while m.targets.len() == 1 {
        let iters = m.wanted().expect("calibrating").iters;
        m.take(even(u128::from(iters) * 30 * MS));
    }
    // Ten at least, and what fits in a second otherwise.
    assert_eq!(m.targets, [10, 33]);
}

#[test]
fn the_setup_counts_against_the_budget_and_not_as_a_sample() {
    let config = Config {
        samples: 1,
        ..Config::default()
    };
    let mut m = Measurement::new(&config, &cases(&["a"]), &vec![0]);
    let batch = Batch {
        timed: 5,
        wall: 100 * MS,
    };
    m.take(batch);
    m.take(batch);
    assert_eq!(m.wanted(), None);
    assert_eq!(m.plans[0].samples, [5]);
}

#[test]
fn a_sample_keeps_its_time_however_long() {
    let config = Config {
        samples: 1,
        ..Config::default()
    };
    let mut m = Measurement::new(&config, &cases(&["a"]), &vec![0]);
    m.take(even(u128::MAX));
    m.take(even(u128::MAX));
    assert_eq!(m.plans[0].samples, [u128::MAX]);
}

#[test]
fn no_cases_are_measured_at_once() {
    let m = Measurement::new(&Config::default(), &cases(&["a"]), &Vec::new());
    assert_eq!(m.wanted(), None);
    assert!(m.finish(&Baseline::new(), "g", false).cases.is_empty());
}

#[test]
fn a_finished_group_has_the_samples_that_were_asked_for() {
    for (cap, due) in [(0, 1), (1, 1), (5, 5), (10, 10), (50, 10)] {
        let config = Config {
            samples: cap,
            ..Config::default()
        };
        let mut m = Measurement::new(&config, &cases(&["a", "b"]), &vec![0, 1]);
        while let Some(w) = m.wanted() {
            assert!(w.iters.is_power_of_two());
            // Longer than the whole budget.
            m.take(even(2000 * MS));
        }
        for c in m.finish(&Baseline::new(), "g", false).cases {
            assert_eq!(c.samples.len(), due, "cap {cap}");
            assert!(c.iters.is_power_of_two());
        }
    }
}

#[test]
fn the_batch_of_a_visit_is_the_sample_of_its_case() {
    let config = Config {
        samples: 5,
        block: 2,
        ..Config::default()
    };
    let all = cases(&["x", "a", "y", "b"]);
    let mut m = Measurement::new(&config, &all, &vec![1, 3]);
    let mut taken: Vec<Vec<u128>> = vec![Vec::new(), Vec::new()];
    let mut visits = Vec::new();
    let mut nanos = 200 * MS;
    while let Some(w) = m.wanted() {
        nanos += 1;
        if matches!(m.phase, Phase::Sampling { .. }) {
            visits.push(w.case);
            taken[w.case].push(nanos);
        }
        m.take(even(nanos));
    }
    assert_eq!(visits, [0, 0, 1, 1, 0, 0, 1, 1, 0, 1]);
    let r = m.finish(&Baseline::new(), "g", false);
    let names: Vec<&str> = r.cases.iter().map(|c| c.name.as_str()).collect();
    assert_eq!(names, ["a", "b"]);
    assert_eq!(r.cases[0].samples, taken[0]);
    assert_eq!(r.cases[1].samples, taken[1]);
}

#[test]
fn sequential_ratios_are_per_iteration() {
    let config = Config {
        samples: 2,
        interleave: false,
        ..Config::default()
    };
    let mut m = Measurement::new(&config, &cases(&["a", "b"]), &vec![0, 1]);
    // 400 and 100 microseconds per iteration: batches of 4 and of 16.
    while let Some(w) = m.wanted() {
        let each = if w.case == 0 { 400_000 } else { 100_000 };
        m.take(even(u128::from(w.iters) * each));
    }
    let r = m.finish(&Baseline::new(), "g", false);
    let (a, b) = (&r.cases[0], &r.cases[1]);
    assert_eq!((a.iters, b.iters, b.reference_iters), (4, 16, 4));
    assert_eq!(a.stats.min / u128::from(a.iters), 400_000);
    assert_eq!(b.stats.min / u128::from(b.iters), 100_000);
    let p = b.ratio.expect("a ratio").point.low;
    // Batch against batch they are the same, and a quarter per iteration.
    assert_eq!((p.case, p.reference), (1_600_000, 1_600_000));
    let factor = b.reference_iters as f64 / b.iters as f64;
    assert_eq!(factor * (p.case as f64 / p.reference as f64), 0.25);
}

#[test]
fn no_shared_round_means_no_ratio() {
    let config = Config {
        samples: 2,
        ..Config::default()
    };
    let mut m = Measurement::new(&config, &cases(&["a", "b"]), &vec![0, 1]);
    while let Some(w) = m.wanted() {
        m.take(Batch {
            timed: if w.case == 0 { 0 } else { 7 },
            wall: 200 * MS,
        });
    }
    let r = m.finish(&Baseline::new(), "g", false);
    assert_eq!(r.cases[1].samples, [7, 7]);
    assert_eq!(r.cases[1].ratio, None);
}
