//! End-to-end tests: the schedule a group actually gets and the report that is
//! actually laid out, on a clock that the test turns by hand.

use benchit::report::{amount_steps, byte_unit, decimals, element_unit, settled_decimals, LARGEST_UNIT};
use benchit::runner::select;
use benchit::{
    reporter_for, Baseline, Batch, Bench, Bencher, CaseNumbers, CaseResult, Config, Format,
    Group, GroupResult, Measurement, Pair, Quantile, Reporter, Selection, Throughput,
};

/// A configuration whose budget is far larger than 12 batches of these bodies
/// need, so that the sample cap is what binds.
fn fast(format: Format) -> Config {
    Config {
        time_ms: 1000,
        samples: 12,
        format,
        ..Config::default()
    }
}

/// What an iteration of a body costs, in nanoseconds.
#[derive(Clone, Copy)]
struct Cost {
    /// Inside the timed span.
    timed: u64,
    /// Outside it.
    setup: u64,
    /// Clock reads inside the timed span, which are subtracted.
    clock: u64,
}

fn work(rounds: u64) -> Cost {
    Cost {
        timed: rounds,
        setup: 0,
        clock: 0,
    }
}

/// A run on a clock that slows down a little from batch to batch.
struct Run {
    bench: Bench,
    reporter: Reporter,
    batches: u64,
    visits: Vec<String>,
    listed: Vec<String>,
}

impl Run {
    fn new(config: Config) -> Self {
        Run {
            reporter: reporter_for(config.format),
            bench: Bench::with_config(config, Baseline::new()),
            batches: 0,
            visits: Vec::new(),
            listed: Vec::new(),
        }
    }

    fn batch(&mut self, name: &str, cost: Cost, iters: u64) -> Batch {
        self.visits.push(name.to_string());
        self.batches += 1;
        let n = u128::from(iters);
        let drift = 1000 + u128::from(self.batches % 7);
        let timed = n * u128::from(cost.timed) * drift / 1000;
        let mut b = Bencher::new(iters);
        if cost.clock > 0 || cost.setup > 0 {
            let clock = n * u128::from(cost.clock);
            b.iter_with(timed + clock, clock);
        } else {
            b.iter(timed);
        }
        Batch {
            timed: b.take(name).expect("timed"),
            wall: timed + n * u128::from(cost.clock + cost.setup),
        }
    }

    fn finish(&mut self, g: &mut Group, costs: &[Cost]) -> GroupResult {
        let cases = g.finish();
        let places = match select(&self.bench.config, &g.name, &cases) {
            Selection::Measure(places) => places,
            Selection::List(names) => {
                self.listed = names;
                return GroupResult::nothing(&g.name);
            }
            Selection::Nothing => return GroupResult::nothing(&g.name),
        };
        if self.bench.begin_run() {
            match &mut self.reporter {
                Reporter::Text(r) => r.header(&self.bench.config, "42.17 ns", "17.62 ns"),
                Reporter::Tsv(r) => {
                    r.header(&self.bench.config, "0.1.0", "42.170", "17.620", "release")
                }
            }
        }
        let mut measuring = Measurement::new(&self.bench.config, &cases, &places);
        while let Some(wanted) = measuring.wanted() {
            let place = places[wanted.case];
            let batch = self.batch(&cases[place].name, costs[place], wanted.iters);
            measuring.take(batch);
        }
        let result = measuring.finish(&self.bench.loaded, &g.name, g.no_reference);
        let texts: Vec<CaseNumbers> = result
            .cases
            .iter()
            .map(|c| numbers(c, self.bench.config.format))
            .collect();
        match &mut self.reporter {
            Reporter::Text(r) => r.group(&result, &texts, &scaled_amount(result.throughput)),
            Reporter::Tsv(r) => r.group(&result, &texts),
        }
        self.bench.record(&result, &texts);
        result
    }

    fn report(&mut self) -> String {
        match &mut self.reporter {
            Reporter::Text(r) => r.take(),
            Reporter::Tsv(r) => r.take(),
        }
    }
}

fn int_digits(a: f64) -> i32 {
    if a > 0.0 {
        a.log10().floor() as i32 + 1
    } else {
        1
    }
}

fn sig(v: f64, digits: u32) -> String {
    if !v.is_finite() {
        return "-".to_string();
    }
    let given = decimals(int_digits(v.abs()), digits);
    let rounded: f64 = format!("{v:.*}", given as usize).parse().unwrap_or(v);
    let settled = settled_decimals(given, decimals(int_digits(rounded.abs()), digits));
    format!("{v:.*}", settled as usize)
}

fn scaled_amount(t: Option<Throughput>) -> String {
    let Some(t) = t else {
        return String::new();
    };
    let base = match t {
        Throughput::Bytes(_) => 1024f64,
        Throughput::Elements(_) => 1000f64,
    };
    sig(t.amount() as f64 / base.powi(amount_steps(t) as i32), 4)
}

fn between(low: f64, high: f64, weight: u64, parts: u64) -> f64 {
    low + (high - low) * (weight as f64 / parts as f64)
}

fn min(c: &CaseResult) -> f64 {
    c.stats.min as f64 / c.iters as f64
}

fn time(q: Quantile<u128>, c: &CaseResult) -> f64 {
    between(q.low as f64, q.high as f64, q.weight, q.parts) / c.iters as f64
}

fn ratio(q: Quantile<Pair>, c: &CaseResult) -> f64 {
    let at = |p: Pair| {
        (p.case as f64 / c.iters as f64) / (p.reference as f64 / c.reference_iters as f64)
    };
    between(at(q.low), at(q.high), q.weight, q.parts)
}

fn per_second(c: &CaseResult) -> Option<f64> {
    c.rate()
        .map(|r| r.amount as f64 / (r.nanos as f64 / r.iters as f64 * 1e-9))
}

fn numbers(c: &CaseResult, format: Format) -> CaseNumbers {
    let point = c.ratio.map_or(f64::NAN, |r| ratio(r.point, c));
    let (low, high) = c
        .ratio
        .and_then(|r| r.iqr)
        .map_or((f64::NAN, f64::NAN), |(lo, hi)| {
            (ratio(lo, c), ratio(hi, c))
        });
    let tsv = format == Format::Tsv;
    let nanos = |v: f64| {
        if tsv {
            format!("{v:.3}")
        } else {
            format!("{} ns", sig(v, 4))
        }
    };
    let plain = |v: f64| if tsv { format!("{v:.6}") } else { sig(v, 3) };
    let rate = match (per_second(c), c.throughput) {
        (Some(v), _) if tsv => format!("{v:.6}"),
        (Some(v), Some(t)) => {
            let bytes = matches!(t, Throughput::Bytes(_));
            let base = if bytes { 1024.0 } else { 1000.0 };
            let (mut v, mut i) = (v, 0);
            while v >= base && i < LARGEST_UNIT {
                v /= base;
                i += 1;
            }
            let unit = if bytes { byte_unit(i) } else { element_unit(i) };
            format!("{} {unit}/s", sig(v, 4))
        }
        _ => String::new(),
    };
    CaseNumbers {
        min: nanos(min(c)),
        p50: nanos(time(c.stats.p50, c)),
        p90: nanos(time(c.stats.p90, c)),
        rate,
        point: plain(point),
        low: plain(low),
        high: plain(high),
        delta: None,
        baseline_min: String::new(),
    }
}

/// Run two cases and return the order in which they were visited, alongside the
/// report.
fn schedule(config: Config) -> (Vec<String>, String) {
    let mut run = Run::new(config);
    let mut g = run.bench.group("g");
    g.bench("a");
    g.bench("b");
    run.finish(&mut g, &[work(200), work(400)]);
    let report = run.report();
    (run.visits, report)
}

fn field(line: &str, n: usize) -> f64 {
    line.split('\t')
        .nth(n)
        .and_then(|v| v.parse().ok())
        .unwrap_or_else(|| panic!("field {n} in: {line}"))
}

fn row<'a>(report: &'a str, case: &str) -> &'a str {
    report
        .lines()
        .find(|l| l.split('\t').nth(1) == Some(case))
        .unwrap_or_else(|| panic!("no row for {case} in:\n{report}"))
}

#[test]
fn interleaving_alternates_between_cases() {
    let (visits, _) = schedule(fast(Format::Text));
    // Calibration runs first and is not interleaved, so look at the tail,
    // which is entirely rounds.
    let tail = &visits[visits.len() - 12..];
    let expected: Vec<&str> = (0..12)
        .map(|i| if i % 2 == 0 { "a" } else { "b" })
        .collect();
    assert_eq!(tail, expected.as_slice(), "full visit order: {visits:?}");
}

#[test]
fn a_block_size_trades_pairing_for_warmer_caches() {
    let config = Config {
        block: 4,
        ..fast(Format::Text)
    };
    let (visits, _) = schedule(config);
    let tail = &visits[visits.len() - 8..];
    assert_eq!(
        tail,
        ["a", "a", "a", "a", "b", "b", "b", "b"],
        "visit order: {visits:?}"
    );
}

#[test]
fn no_interleave_runs_each_case_to_completion() {
    let config = Config {
        interleave: false,
        ..fast(Format::Text)
    };
    let (visits, _) = schedule(config);
    let tail = &visits[visits.len() - 12..];
    assert!(tail.iter().all(|v| v == "b"), "visit order: {visits:?}");
}

#[test]
fn the_report_carries_a_ratio_and_a_measured_band() {
    let (_, report) = schedule(fast(Format::Text));
    let case_b = report
        .lines()
        .find(|l| l.trim_start().starts_with("b "))
        .unwrap_or_else(|| panic!("no line for case b in:\n{report}"));

    assert!(case_b.contains("p50"), "{case_b}");
    assert!(case_b.contains("p90"), "{case_b}");
    // b does twice the work of a, and the band is the paired IQR around it.
    assert!(case_b.contains('['), "expected an IQR band: {case_b}");
    let ratio: f64 = case_b
        .split_whitespace()
        .find_map(|t| t.strip_suffix('x')?.parse().ok())
        .unwrap_or_else(|| panic!("no ratio in: {case_b}"));
    assert!(
        (1.4..3.0).contains(&ratio),
        "b should cost about 2x a, got {ratio}x"
    );
}

#[test]
fn a_lone_case_gets_no_ratio_column() {
    let mut run = Run::new(fast(Format::Text));
    let mut g = run.bench.group("solo");
    g.bench("only");
    run.finish(&mut g, &[work(100)]);
    let report = run.report();
    assert!(report.contains("solo"), "{report}");
    assert!(
        !report.contains('x'),
        "a lone case has nothing to compare against:\n{report}"
    );
}

#[test]
fn tsv_is_one_row_per_case() {
    let (_, report) = schedule(fast(Format::Tsv));
    let mut lines = report.lines();
    assert!(lines.next().expect("comment").starts_with("# benchit"));
    let header: Vec<&str> = lines.next().expect("header").split('\t').collect();
    assert_eq!(header[0], "group");
    assert_eq!(header[1], "case");

    let rows: Vec<Vec<&str>> = lines.map(|l| l.split('\t').collect()).collect();
    assert_eq!(rows.len(), 2, "{report}");
    for row in &rows {
        assert_eq!(row.len(), header.len(), "row width must match the header");
        assert_eq!(row[0], "g");
    }
    assert_eq!(rows[0][1], "a");
    assert_eq!(rows[1][1], "b");
}

#[test]
fn the_filter_is_a_substring_of_group_slash_case() {
    let config = Config {
        filter: Some("g/b".into()),
        ..fast(Format::Text)
    };
    let (visits, report) = schedule(config);
    assert!(visits.iter().all(|v| v == "b"), "{visits:?}");
    assert!(!report.contains("\n  a "), "{report}");
    // The surviving case becomes the reference, so it gets no ratio.
    assert!(!report.contains('['), "{report}");
}

#[test]
fn list_mode_measures_nothing() {
    let (visits, report) = schedule(Config {
        list: true,
        ..Config::default()
    });
    assert!(
        visits.is_empty(),
        "list mode must not call any benchmark body"
    );
    assert_eq!(
        report, "",
        "list mode writes names to stdout, not to the reporter"
    );
}

#[test]
fn throughput_is_reported_as_a_rate() {
    let mut run = Run::new(fast(Format::Text));
    let mut g = run.bench.group("thr");
    g.throughput(Throughput::Bytes(1 << 20));
    g.bench("case");
    run.finish(&mut g, &[work(100)]);
    let report = run.report();
    assert!(
        report.contains("1.000 MiB"),
        "the declared amount:\n{report}"
    );
    assert!(report.contains("iB/s"), "the measured rate:\n{report}");
}

#[test]
fn throughput_applies_to_the_cases_registered_after_it() {
    let mut run = Run::new(fast(Format::Tsv));
    let mut g = run.bench.group("sized");
    for n in [1_024u64, 4_096] {
        g.throughput(Throughput::Bytes(n));
        g.bench(&format!("n={n}"));
    }
    let result = run.finish(&mut g, &[work(100), work(100)]);

    // Each case keeps the amount declared before it: the second must not
    // inherit the first one's, nor the first the second's.
    let declared: Vec<Option<Throughput>> = result.cases.iter().map(|c| c.throughput).collect();
    assert_eq!(
        declared,
        [
            Some(Throughput::Bytes(1_024)),
            Some(Throughput::Bytes(4_096))
        ]
    );

    // The rate column follows from that: same time, four times the amount.
    let report = run.report();
    for case in &result.cases {
        let amount = case.throughput.expect("declared").amount() as f64;
        let rate = per_second(case).expect("declared");
        assert!(
            (rate * min(case) * 1e-9 - amount).abs() < 1e-6,
            "{} reports {rate}/s for {amount}:\n{report}",
            case.name
        );
    }
}

#[test]
fn a_hand_built_config_with_zero_counts_does_not_panic() {
    // `Config`'s fields are public, so these bypass the command line's
    // validation.
    let config = Config {
        block: 0,
        samples: 0,
        time_ms: 0,
        ..Config::default()
    };
    let mut run = Run::new(config);
    let mut g = run.bench.group("zeroes");
    g.bench("a");
    g.bench("b");
    run.finish(&mut g, &[work(50), work(50)]);
    let report = run.report();
    assert!(report.contains("zeroes"), "{report}");
}

#[test]
fn the_ratio_sits_inside_its_own_band() {
    let (_, report) = schedule(fast(Format::Tsv));
    let b = row(&report, "b");
    let (point, lo, hi) = (field(b, 7), field(b, 8), field(b, 9));
    assert!(
        lo <= point && point <= hi,
        "the point estimate must lie inside the band it is printed with: {lo} .. {point} .. {hi}"
    );
}

#[test]
fn a_case_that_beats_the_reference_keeps_its_digits() {
    let mut run = Run::new(fast(Format::Text));
    let mut g = run.bench.group("wins");
    g.bench("slow_reference");
    g.bench("fast");
    run.finish(&mut g, &[work(4_000), work(4)]);
    let report = run.report();
    let line = report
        .lines()
        .find(|l| l.trim_start().starts_with("fast "))
        .unwrap_or_else(|| panic!("no line for fast in:\n{report}"));
    let ratio: f64 = line
        .split_whitespace()
        .find_map(|t| t.strip_suffix('x')?.parse().ok())
        .unwrap_or_else(|| panic!("no ratio in: {line}"));
    assert!(ratio > 0.0, "a winning case must not report 0.00x: {line}");
    assert!(ratio < 0.5, "expected a large win, got {ratio}x: {line}");
}

#[test]
fn iter_with_subtracts_its_own_clock_overhead() {
    // A near-zero timed span never reaches the 1ms calibration floor, so only
    // the wall-time cap stops the batch growing.
    let config = Config {
        time_ms: 100,
        ..fast(Format::Tsv)
    };
    let mut run = Run::new(config);
    let mut g = run.bench.group("floor");
    g.bench("nothing_at_all");
    let nothing = Cost {
        timed: 0,
        setup: 1,
        clock: 17,
    };
    run.finish(&mut g, &[nothing]);
    let report = run.report();
    let min_ns = field(row(&report, "nothing_at_all"), 4);
    // An empty body should land near zero, not near one clock read.
    assert!(
        min_ns < 8.0,
        "iter_with on an empty body reported {min_ns} ns; the clock overhead is not being subtracted"
    );
}

#[test]
fn iter_with_excludes_setup_from_the_timed_span() {
    let config = Config {
        time_ms: 50,
        ..fast(Format::Tsv)
    };
    let mut run = Run::new(config);
    let mut g = run.bench.group("setup");
    // Setup dwarfs the measured body; if it were being timed, the two cases
    // would look identical.
    g.bench("timed_body_only");
    g.bench("setup_included");
    let timed_body_only = Cost {
        timed: 1,
        setup: 2_000,
        clock: 17,
    };
    run.finish(&mut g, &[timed_body_only, work(2_001)]);
    let report = run.report();
    let min_ns = |case: &str| field(row(&report, case), 4);
    assert!(
        min_ns("timed_body_only") < min_ns("setup_included") / 2.0,
        "setup must fall outside the timed span:\n{report}"
    );
}

#[test]
fn finish_hands_back_the_numbers_it_printed() {
    let mut run = Run::new(fast(Format::Tsv));
    let mut g = run.bench.group("g");
    g.throughput(Throughput::Elements(100));
    g.bench("cheap");
    g.bench("dear");
    let result = run.finish(&mut g, &[work(50), work(400)]);

    assert_eq!(result.name, "g");
    let names: Vec<&str> = result.cases.iter().map(|c| c.name.as_str()).collect();
    assert_eq!(names, ["cheap", "dear"]);

    let find = |name: &str| {
        result
            .cases
            .iter()
            .find(|c| c.name == name)
            .unwrap_or_else(|| panic!("no case {name}"))
    };

    let cheap = find("cheap");
    assert!(cheap.is_reference);
    assert_eq!(cheap.ratio, None, "the reference has nothing to compare to");
    assert_eq!(cheap.samples.len(), 12);
    assert_eq!(cheap.throughput, Some(Throughput::Elements(100)));
    // A rate times the time one iteration took is the amount it declared.
    let per_iteration = per_second(cheap).expect("declared a throughput") * min(cheap) * 1e-9;
    assert!((per_iteration - 100.0).abs() < 1e-9, "{per_iteration}");
    assert_eq!(cheap.baseline, None, "no baseline was loaded");

    let dear = find("dear");
    assert!(!dear.is_reference);
    let against = dear.ratio.expect("a ratio against the reference");
    assert!(ratio(against.point, dear) > 1.0);

    // The same numbers reached the report, rather than the result carrying one
    // set and the printed table another.
    let report = run.report();
    for c in &result.cases {
        assert!(
            report.contains(&format!("{:.3}", min(c))),
            "{} is missing from:\n{report}",
            c.name
        );
    }
}

#[test]
fn a_group_that_measures_nothing_still_hands_back_a_result() {
    for config in [
        Config {
            filter: Some("no-such-case".to_string()),
            ..fast(Format::Text)
        },
        Config {
            list: true,
            ..fast(Format::Text)
        },
    ] {
        let mut run = Run::new(config);
        let mut g = run.bench.group("g");
        g.bench("a");
        let result = run.finish(&mut g, &[work(50)]);
        assert_eq!(result.name, "g");
        assert!(result.cases.is_empty(), "{} cases", result.cases.len());
        assert_eq!(run.report(), "", "nothing should have been measured");
    }
}

#[test]
fn finish_does_not_run_the_schedule_twice() {
    let mut run = Run::new(fast(Format::Tsv));
    let mut g = run.bench.group("g");
    g.bench("a");
    let result = run.finish(&mut g, &[work(50)]);
    assert_eq!(result.cases.len(), 1);
    // What is dropped at the end of its block must not measure again.
    assert!(!g.should_run(false));
    let again = run.finish(&mut g, &[work(50)]);
    assert!(again.cases.is_empty());

    let report = run.report();
    let rows = report.lines().filter(|l| l.starts_with("g\t")).count();
    assert_eq!(rows, 1, "the group was reported twice:\n{report}");
}

#[test]
fn a_group_without_a_reference_prints_no_ratio_column() {
    let mut run = Run::new(fast(Format::Text));
    let mut g = run.bench.group("codec");
    g.no_reference();
    g.bench("encode");
    g.bench("decode");
    let result = run.finish(&mut g, &[work(100), work(400)]);
    let report = run.report();

    // The timings are the reason the group exists, so they all stay.
    assert!(report.contains("encode"), "{report}");
    assert!(report.contains("decode"), "{report}");
    assert!(report.contains("p50"), "{report}");
    assert!(
        !report.contains('x'),
        "cases that are not alternatives must not be compared:\n{report}"
    );
    assert!(!report.contains('['), "no ratio means no band:\n{report}");

    // And the result says what the report says, rather than carrying a
    // comparison the printed table declined to make.
    for case in &result.cases {
        assert_eq!(case.ratio, None, "{} carries a ratio", case.name);
        assert!(!case.is_reference, "{} is a reference", case.name);
    }
}

#[test]
fn a_group_without_a_reference_leaves_the_tsv_ratio_columns_empty() {
    let mut run = Run::new(fast(Format::Tsv));
    let mut g = run.bench.group("codec");
    g.no_reference();
    g.bench("encode");
    g.bench("decode");
    run.finish(&mut g, &[work(100), work(400)]);
    let report = run.report();

    let mut lines = report.lines();
    assert!(lines.next().expect("comment").starts_with("# benchit"));
    let header: Vec<&str> = lines.next().expect("header").split('\t').collect();
    let ratio_columns = ["ratio", "ratio_lo", "ratio_hi"].map(|name| {
        header
            .iter()
            .position(|h| *h == name)
            .unwrap_or_else(|| panic!("no {name} column in: {header:?}"))
    });
    let min_ns = header
        .iter()
        .position(|h| *h == "min_ns")
        .expect("a min_ns column");

    let rows: Vec<Vec<&str>> = lines.map(|l| l.split('\t').collect()).collect();
    assert_eq!(rows.len(), 2, "{report}");
    for row in &rows {
        assert_eq!(row.len(), header.len(), "row width must match the header");
        assert!(
            !row[min_ns].is_empty(),
            "the timings still print:\n{report}"
        );
        for column in ratio_columns {
            assert_eq!(
                row[column], "",
                "{} must report no ratio:\n{report}",
                row[1]
            );
        }
    }
}

#[test]
fn the_reference_is_the_first_case_that_passes_the_filter() {
    let mut run = Run::new(Config {
        filter: Some("b".to_string()),
        ..fast(Format::Tsv)
    });
    let mut g = run.bench.group("g");
    g.bench("a");
    g.bench("ab");
    g.bench("b");
    let result = run.finish(&mut g, &[work(1), work(300), work(600)]);
    let names: Vec<&str> = result.cases.iter().map(|c| c.name.as_str()).collect();
    assert_eq!(names, ["ab", "b"]);
    assert!(result.cases[0].is_reference);
    let r = result.cases[1].ratio.expect("a ratio");
    assert!((ratio(r.point, &result.cases[1]) - 2.0).abs() < 0.02);
}

#[test]
fn listed_names_are_those_that_would_run() {
    let mut run = Run::new(Config {
        list: true,
        ..Config::default()
    });
    let mut g = run.bench.group("g");
    g.bench("a");
    g.bench("b");
    run.finish(&mut g, &[work(1), work(1)]);
    assert_eq!(run.listed, ["g/a", "g/b"]);
    assert!(!run.bench.started, "nothing begins");
}

#[test]
fn a_run_saved_as_a_baseline_is_found_by_the_next_one() {
    let mut run = Run::new(Config {
        save_baseline: Some("main".to_string()),
        ..fast(Format::Tsv)
    });
    let mut g = run.bench.group("g");
    g.bench("a");
    run.finish(&mut g, &[work(200)]);
    let (name, rows) = run.bench.finish().expect("something to save");
    assert_eq!(name, "main");
    let min_ns = rows[0].min_ns.clone();
    let text = benchit::baseline::save(Baseline::new(), rows, "0.1.0", "release").expect("saves");
    let loaded = benchit::baseline::load(&text).expect("loads");
    let next = Bench::with_config(Config::default(), loaded);
    assert_eq!(next.saved_stats("g/a").map(|s| s.min_ns), Some(min_ns));
}
