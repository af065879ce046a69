//! The scheduler: sample counts, the order of visits, and the summary.

use benchit::bencher::MIN_SAMPLES;
use benchit::runner::{budget, full_name, max_batch, saved_stats, select, summarize, target_samples};
use benchit::{
    Baseline, Case, Config, Group, GroupResult, Plan, Row, SavedStats, Schedule, Selection,
    Throughput,
};

const MS: u128 = 1_000_000;

fn order(targets: &[usize], block: usize, interleave: bool) -> Vec<usize> {
    let mut schedule = Schedule::new(targets.to_vec(), block, interleave);
    let mut visits = Vec::new();
    while let Some(i) = schedule.next() {
        visits.push(i);
    }
    assert_eq!(schedule.next(), None, "and it stays over");
    visits
}

fn plan(name: &str, throughput: Option<Throughput>, iters: u64, samples: &[u128]) -> Plan {
    let case = Case {
        name: name.to_string(),
        throughput,
    };
    let mut p = Plan::new(&case, iters);
    for &s in samples {
        p.take_sample(s);
    }
    p
}

fn point(r: &GroupResult, i: usize) -> f64 {
    let q = r.cases[i].ratio.expect("a ratio").point;
    let low = q.low.case as f64 / q.low.reference as f64;
    let high = q.high.case as f64 / q.high.reference as f64;
    low + (high - low) * q.weight as f64 / q.parts as f64
}

#[test]
fn samples_fill_the_budget_but_respect_the_floor_and_cap() {
    let budget = budget(1000);
    // A 1ms batch could run 1000 times; the cap holds it to 50.
    assert_eq!(target_samples(MS, budget, 50), 50);
    // A 100ms batch fits 10 times, which is also the floor.
    assert_eq!(target_samples(100 * MS, budget, 50), 10);
    // A batch longer than the whole budget still gets the floor.
    assert_eq!(target_samples(5000 * MS, budget, 50), MIN_SAMPLES);
    // A zero-length batch must not divide by zero.
    assert_eq!(target_samples(0, budget, 50), 50);
}

#[test]
fn an_explicit_sample_cap_below_the_floor_is_honoured() {
    let budget = budget(1000);
    assert_eq!(target_samples(MS, budget, 5), 5);
    assert_eq!(target_samples(500 * MS, budget, 5), 5);
    assert_eq!(target_samples(MS, budget, 0), 1);
}

#[test]
fn samples_in_between_are_as_many_as_fit() {
    assert_eq!(target_samples(30 * MS, budget(1000), 50), 33);
    assert_eq!(
        target_samples(1, u128::MAX, usize::MAX),
        usize::MAX,
        "saturating"
    );
}

#[test]
fn one_more_sample_would_not_fit() {
    let budget = budget(1000);
    for ms in 1..120u128 {
        let n = target_samples(ms * MS, budget, 50);
        if n > MIN_SAMPLES {
            assert!(n as u128 * ms * MS <= budget, "{ms}");
        }
        if n < 50 {
            assert!((n as u128 + 1) * ms * MS > budget, "{ms}");
        }
    }
}

#[test]
fn the_budget_is_in_nanoseconds_and_a_batch_gets_a_tenth() {
    assert_eq!(budget(1000), 1_000_000_000);
    assert_eq!(budget(u64::MAX), u128::from(u64::MAX) * MS);
    assert_eq!(max_batch(budget(1000)), 100 * MS);
    assert_eq!(max_batch(19), 1);
}

#[test]
fn rounds_visit_every_case_in_turn() {
    assert_eq!(order(&[3, 3], 1, true), [0, 1, 0, 1, 0, 1]);
    assert_eq!(order(&[1, 3, 2], 1, true), [0, 1, 2, 1, 2, 1]);
    // A block of zero counts as one.
    assert_eq!(order(&[2, 2], 0, true), [0, 1, 0, 1]);
}

#[test]
fn a_block_takes_several_samples_per_visit() {
    assert_eq!(order(&[4, 3], 2, true), [0, 0, 1, 1, 0, 0, 1]);
    assert_eq!(order(&[2, 5], 4, true), [0, 0, 1, 1, 1, 1, 1]);
}

#[test]
fn without_interleaving_each_case_runs_to_completion() {
    assert_eq!(order(&[2, 1, 3], 1, false), [0, 0, 1, 2, 2, 2]);
    // A block at least as long as every case is the same order.
    assert_eq!(order(&[2, 1, 3], 3, true), order(&[2, 1, 3], 1, false));
}

#[test]
fn cases_that_want_nothing_are_passed_over() {
    assert_eq!(order(&[], 1, true), Vec::<usize>::new());
    assert_eq!(order(&[0, 0], 1, true), Vec::<usize>::new());
    assert_eq!(order(&[0, 2, 0, 1], 1, true), [1, 3, 1]);
    assert_eq!(order(&[0, 2, 0], 9, false), [1, 1]);
}

#[test]
fn every_case_gets_exactly_its_samples() {
    for block in [1, 2, 3, 7] {
        let targets = [5, 0, 12, 1, 7];
        let visits = order(&targets, block, true);
        for (i, &t) in targets.iter().enumerate() {
            assert_eq!(visits.iter().filter(|&&v| v == i).count(), t);
        }
    }
}

#[test]
fn a_full_name_is_group_slash_case() {
    assert_eq!(full_name("decode/1MiB", "mine"), "decode/1MiB/mine");
    assert_eq!(full_name("", ""), "/");
}

#[test]
fn the_filter_chooses_cases_in_registration_order() {
    let mut g = Group::new("g");
    g.bench("ab");
    g.bench("b");
    g.bench("ba");
    let cases = g.finish();
    let with = |filter: Option<&str>, list: bool| Config {
        filter: filter.map(str::to_string),
        list,
        ..Config::default()
    };
    assert_eq!(
        select(&with(None, false), "g", &cases),
        Selection::Measure(vec![0, 1, 2])
    );
    assert_eq!(
        select(&with(Some("a"), false), "g", &cases),
        Selection::Measure(vec![0, 2])
    );
    assert_eq!(
        select(&with(Some("g/b"), true), "g", &cases),
        Selection::List(vec!["g/b".to_string(), "g/ba".to_string()])
    );
    for list in [false, true] {
        assert_eq!(
            select(&with(Some("x"), list), "g", &cases),
            Selection::Nothing
        );
        assert_eq!(select(&with(None, list), "g", &Vec::new()), Selection::Nothing);
    }
}

#[test]
fn the_header_amount_needs_every_case_to_agree() {
    let one = Some(Throughput::Bytes(1));
    let two = Some(Throughput::Bytes(2));
    let elements = Some(Throughput::Elements(1));
    let agreed = |amounts: &[Option<Throughput>]| {
        let plans: Vec<Plan> = amounts.iter().map(|&t| plan("c", t, 1, &[1])).collect();
        summarize(true, &Baseline::new(), "g", false, &plans).throughput
    };
    assert_eq!(agreed(&[one, one, one]), one);
    assert_eq!(agreed(&[one, one, two]), None);
    assert_eq!(agreed(&[one, None]), None);
    assert_eq!(agreed(&[one, elements]), None);
    assert_eq!(agreed(&[None, None]), None);
    assert_eq!(agreed(&[]), None);
}

#[test]
fn interleaved_cases_are_compared_round_by_round() {
    let plans = vec![
        plan("a", None, 4, &[10, 20, 30, 40]),
        plan("b", None, 2, &[20, 40, 60, 120]),
    ];
    let r = summarize(true, &Baseline::new(), "g", false, &plans);
    assert_eq!(r.name, "g");
    assert!(r.cases[0].is_reference && !r.cases[1].is_reference);
    assert_eq!(r.cases[0].ratio, None);
    assert_eq!(point(&r, 1), 2.0);
    assert!(r.cases[1].ratio.expect("a ratio").iqr.is_some());
    assert_eq!((r.cases[1].iters, r.cases[1].reference_iters), (2, 4));
    assert_eq!(r.cases[1].samples, [20, 40, 60, 120]);
    assert_eq!(r.cases[1].stats.min, 20);
}

#[test]
fn sequential_cases_are_compared_by_their_minima() {
    let plans = vec![
        plan("a", None, 1, &[30, 10, 20, 40]),
        plan("b", None, 1, &[90, 80, 25, 70]),
    ];
    let r = summarize(false, &Baseline::new(), "g", false, &plans);
    assert_eq!(point(&r, 1), 2.5);
    assert_eq!(r.cases[1].ratio.expect("a ratio").iqr, None);
}

#[test]
fn a_reference_of_zero_gives_no_ratio() {
    let zeros = vec![plan("a", None, 1, &[0, 0]), plan("b", None, 1, &[5, 6])];
    for interleave in [true, false] {
        let r = summarize(interleave, &Baseline::new(), "g", false, &zeros);
        assert_eq!(r.cases[1].ratio, None);
        assert!(!r.cases[1].is_reference);
    }
    // One round of zero spoils the minimum, and not the other pairs.
    let one_zero = vec![plan("a", None, 1, &[0, 2]), plan("b", None, 1, &[5, 6])];
    let r = summarize(true, &Baseline::new(), "g", false, &one_zero);
    assert_eq!(point(&r, 1), 3.0);
    let r = summarize(false, &Baseline::new(), "g", false, &one_zero);
    assert_eq!(r.cases[1].ratio, None);
}

#[test]
fn a_group_without_a_reference_compares_nothing() {
    let plans = vec![plan("a", None, 1, &[1]), plan("b", None, 1, &[2])];
    let r = summarize(true, &Baseline::new(), "g", true, &plans);
    assert!(r.no_reference);
    for c in &r.cases {
        assert_eq!(c.ratio, None);
        assert!(!c.is_reference);
    }
}

#[test]
fn a_case_carries_what_the_baseline_recorded() {
    let mut saved = Baseline::new();
    saved.insert(Row {
        group: "g".to_string(),
        case: "b".to_string(),
        iters: 1,
        min_ns: "1.500".to_string(),
        p50_ns: "2.000".to_string(),
        p90_ns: "3.000".to_string(),
        samples: 10,
    });
    let plans = vec![plan("a", None, 1, &[1]), plan("b", None, 1, &[2])];
    let r = summarize(true, &saved, "g", false, &plans);
    assert_eq!(r.cases[0].baseline, None);
    let recorded = Some(SavedStats {
        min_ns: "1.500".to_string(),
        p50_ns: "2.000".to_string(),
        p90_ns: "3.000".to_string(),
    });
    assert_eq!(r.cases[1].baseline, recorded);
    assert_eq!(saved_stats(&saved, "g/b"), recorded);
    assert_eq!(saved_stats(&saved, "g"), None);
}

#[test]
fn nothing_measured_is_still_a_result() {
    let r = GroupResult::nothing("g");
    assert_eq!(r.name, "g");
    assert!(r.cases.is_empty());
    assert_eq!(r.throughput, None);
}
