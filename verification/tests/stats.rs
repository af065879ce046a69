//! Order statistics, over whole nanoseconds.

use benchit::stats::{paired_ratio, percent, quantile, sorted_copy};
use benchit::{Fraction, Pair, Quantile, Ratio, Stats};

fn between(low: f64, high: f64, weight: u64, parts: u64) -> f64 {
    low + (high - low) * (weight as f64 / parts as f64)
}

fn value(q: Quantile<u128>) -> f64 {
    between(q.low as f64, q.high as f64, q.weight, q.parts)
}

fn ratio(q: Quantile<Pair>) -> f64 {
    let at = |p: Pair| p.case as f64 / p.reference as f64;
    between(at(q.low), at(q.high), q.weight, q.parts)
}

fn band(r: Ratio) -> Option<(f64, f64)> {
    r.iqr.map(|(lo, hi)| (ratio(lo), ratio(hi)))
}

#[test]
fn quantile_endpoints_and_interpolation() {
    let s: [u128; 5] = [1, 2, 3, 4, 5];
    assert_eq!(value(quantile(&s, percent(0))), 1.0);
    assert_eq!(value(quantile(&s, percent(100))), 5.0);
    assert_eq!(value(quantile(&s, percent(50))), 3.0);
    // 0.9 * 4 = 3.6 -> between 4.0 and 5.0
    assert!((value(quantile(&s, percent(90))) - 4.6).abs() < 1e-12);
}

#[test]
fn quantile_of_single_sample() {
    assert_eq!(value(quantile(&[7u128], percent(90))), 7.0);
}

#[test]
fn stats_read_off_a_sorted_slice() {
    let sorted = sorted_copy(&[5u128, 1, 4, 2, 3]);
    assert_eq!(sorted, vec![1, 2, 3, 4, 5]);
    let st = Stats::from_sorted(&sorted);
    assert_eq!(st.min, 1);
    assert_eq!(value(st.p50), 3.0);
}

#[test]
fn sorting_does_not_disturb_round_order() {
    let samples: Vec<u128> = vec![3, 1, 2];
    let _ = sorted_copy(&samples);
    assert_eq!(samples, vec![3, 1, 2]);
}

#[test]
fn paired_ratios_cancel_a_drifting_machine() {
    // A machine slowing down by 50% across the run: unpaired, the last
    // rounds of one case would swamp the first rounds of the other.
    let drift: [u128; 6] = [10, 11, 12, 13, 14, 15];
    let reference: Vec<u128> = drift.iter().map(|d| 10 * d).collect();
    let case: Vec<u128> = drift.iter().map(|d| 20 * d).collect();
    let r = paired_ratio(&case, &reference).expect("enough pairs");
    let (lo, hi) = band(r).expect("enough pairs for an IQR");
    let point = ratio(r.point);
    assert!((point - 2.0).abs() < 1e-12, "point = {point}");
    assert!((lo - 2.0).abs() < 1e-12, "lo = {lo}");
    assert!((hi - 2.0).abs() < 1e-12, "hi = {hi}");
}

#[test]
fn the_point_always_sits_inside_its_own_band() {
    // The whole reason the point is a paired order statistic: a min-over-min
    // ratio is a different estimator and lands outside the band routinely.
    // In tenths.
    let reference = [100, 105, 110, 120, 300, 102];
    let case = [200, 215, 220, 250, 330, 204];
    let r = paired_ratio(&case, &reference).expect("pairs");
    let (lo, hi) = band(r).expect("iqr");
    let point = ratio(r.point);
    assert!(lo <= point && point <= hi, "{lo} .. {point} .. {hi}");
}

#[test]
fn a_short_run_gets_a_median_but_no_band() {
    let r = paired_ratio(&[2, 4], &[1, 2]).expect("pairs");
    assert_eq!(ratio(r.point), 2.0);
    assert_eq!(r.iqr, None);
}

#[test]
fn no_usable_pairs_means_no_ratio() {
    assert_eq!(paired_ratio(&[1], &[0]), None);
    assert_eq!(paired_ratio(&[], &[]), None);
}

#[test]
fn a_quantile_names_its_neighbours_and_its_weight() {
    let s: [u128; 5] = [10, 20, 30, 40, 50];
    // 0.9 * 4 = 3.6
    let q = quantile(&s, percent(90));
    assert_eq!((q.low, q.high), (40, 50));
    assert_eq!(q.weight * 10, q.parts * 6);
    // 0.25 * 4 = 1 exactly: no weight on anything else.
    let q = quantile(&s, percent(25));
    assert_eq!((q.low, q.high, q.weight), (20, 20, 0));
    // 0.5 of two samples lies half way.
    let q = quantile(&[1u128, 2], percent(50));
    assert_eq!((q.low, q.high), (1, 2));
    assert_eq!(q.weight * 2, q.parts);
}

#[test]
fn a_fraction_above_one_is_taken_for_one() {
    let s: [u128; 3] = [1, 2, 9];
    assert_eq!(value(quantile(&s, Fraction { num: 7, den: 2 })), 9.0);
    assert_eq!(value(quantile(&s, percent(250))), 9.0);
    // A third of the way along three samples.
    let q = quantile(&s, Fraction { num: 1, den: 3 });
    assert!((value(q) - (1.0 + 2.0 / 3.0)).abs() < 1e-12);
}

#[test]
fn sorting_keeps_every_sample() {
    assert_eq!(sorted_copy::<u128>(&[]), Vec::<u128>::new());
    assert_eq!(sorted_copy(&[2u128, 2, 1, 2, 1]), vec![1, 1, 2, 2, 2]);
    let falling: Vec<u128> = (0..1000).rev().collect();
    let rising: Vec<u128> = (0..1000).collect();
    assert_eq!(sorted_copy(&falling), rising);
    assert_eq!(sorted_copy(&[u128::MAX, 0]), vec![0, u128::MAX]);
}

#[test]
fn ratios_are_ordered_exactly() {
    let pair = |case: u128, reference: u128| Pair { case, reference };
    // Too close to each other for floating point, and too large for the cross
    // products to be held.
    let near = pair(u128::MAX - 1, u128::MAX);
    let nearer = pair(u128::MAX - 2, u128::MAX);
    assert_eq!(sorted_copy(&[near, nearer]), vec![nearer, near]);
    let above = pair(u128::MAX, u128::MAX - 1);
    assert_eq!(sorted_copy(&[above, near]), vec![near, above]);
    // The same ratio in other terms stays where it is.
    let (one, two) = (pair(u128::MAX / 3, u128::MAX), pair(1, 3));
    assert_eq!(sorted_copy(&[one, two]), vec![one, two]);
    assert_eq!(sorted_copy(&[two, one]), vec![two, one]);
    for a in 0..12 {
        for b in 1..12 {
            for c in 0..12 {
                for d in 1..12 {
                    let (x, y) = (pair(a, b), pair(c, d));
                    let first = if a * d <= c * b { x } else { y };
                    assert_eq!(sorted_copy(&[x, y])[0], first, "{a}/{b} {c}/{d}");
                }
            }
        }
    }
}

#[test]
fn quantiles_rise_with_the_fraction_and_stay_in_range() {
    let s = sorted_copy(&[31u128, 4, 15, 92, 65, 35]);
    let mut last = value(quantile(&s, percent(0)));
    assert_eq!(last, 4.0);
    for p in 1..=100 {
        let next = value(quantile(&s, percent(p)));
        assert!(last <= next && next <= 92.0, "{p}: {last} {next}");
        last = next;
    }
    assert_eq!(last, 92.0);
}

#[test]
fn the_three_columns_rise() {
    let st = Stats::of(&[9, 3, 7, 5, 1, 8, 2, 6, 4, 10]);
    assert_eq!(st.min, 1);
    assert!((value(st.p50) - 5.5).abs() < 1e-12);
    assert!((value(st.p90) - 9.1).abs() < 1e-12);
    let same = Stats::of(&[4, 4, 4]);
    assert_eq!((same.min, value(same.p50), value(same.p90)), (4, 4.0, 4.0));
}

#[test]
fn a_reference_round_of_zero_is_left_out() {
    // The pairs are 4/2, 9/3 and 8/1.
    let r = paired_ratio(&[4, 5, 9, 8, 7], &[2, 0, 3, 1]).expect("pairs");
    assert_eq!(ratio(r.point), 3.0);
    assert_eq!(r.iqr, None, "three pairs carry no band");
    // A case round of zero is a ratio of zero.
    let r = paired_ratio(&[0, 0, 0, 0], &[1, 2, 3, 4]).expect("pairs");
    assert_eq!(ratio(r.point), 0.0);
    assert_eq!(band(r), Some((0.0, 0.0)));
}

#[test]
fn four_pairs_carry_a_band() {
    let r = paired_ratio(&[1, 2, 3, 4], &[1, 1, 1, 1]).expect("pairs");
    assert_eq!(ratio(r.point), 2.5);
    assert_eq!(band(r), Some((1.75, 3.25)));
}

#[test]
fn drift_common_to_both_cancels() {
    let case = [20, 24, 19, 30, 22];
    let reference = [10, 11, 10, 12, 10];
    let slower: [u128; 5] = [1, 3, 2, 7, 5];
    let drifted = |s: [u128; 5]| -> Vec<u128> { (0..5).map(|i| s[i] * slower[i]).collect() };
    let calm = paired_ratio(&case, &reference).expect("pairs");
    let stormy = paired_ratio(&drifted(case), &drifted(reference)).expect("pairs");
    assert!((ratio(calm.point) - ratio(stormy.point)).abs() < 1e-12);
    let ((a, b), (c, d)) = (band(calm).expect("band"), band(stormy).expect("band"));
    assert!((a - c).abs() < 1e-12 && (b - d).abs() < 1e-12);
}

#[test]
fn a_ratio_of_two_times_has_no_band() {
    let r = Ratio::of_times(30, 12);
    assert_eq!(ratio(r.point), 2.5);
    assert_eq!(r.iqr, None);
}

#[test]
fn batches_scale_down_to_iterations() {
    // Batches of 4 iterations against batches of 8.
    let (case, reference) = ([40u128, 48, 44, 60], [80u128, 88, 80, 96]);
    let q = Stats::of(&case).p90;
    let each: Vec<f64> = case.iter().map(|&t| t as f64 / 4.0).collect();
    assert_eq!(each, [10.0, 12.0, 11.0, 15.0]);
    // 0.9 * 3 = 2.7 -> between 12.0 and 15.0
    assert!((value(q) / 4.0 - (12.0 + 3.0 * 0.7)).abs() < 1e-12);
    let r = paired_ratio(&case, &reference).expect("pairs");
    // Per iteration the pairs are 10/10, 12/11, 11/10 and 15/12.
    let median = (12.0 / 11.0 + 1.1) / 2.0;
    assert!((ratio(r.point) * (8.0 / 4.0) - median).abs() < 1e-12);
}
