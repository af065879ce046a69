//! What a group declares, and what a run keeps.

use benchit::{
    reporter_for, Baseline, Bench, Case, CaseNumbers, Config, Format, Group, Plan, Reporter,
    Throughput,
};
use benchit::runner::summarize;

fn numbers(min: &str) -> CaseNumbers {
    CaseNumbers {
        min: min.to_string(),
        p50: min.to_string(),
        p90: min.to_string(),
        rate: String::new(),
        point: String::new(),
        low: String::new(),
        high: String::new(),
        delta: None,
        baseline_min: String::new(),
    }
}

fn saving(name: Option<&str>) -> Bench {
    let config = Config {
        save_baseline: name.map(str::to_string),
        ..Config::default()
    };
    Bench::with_config(config, Baseline::new())
}

#[test]
fn an_amount_counts_for_the_cases_after_it() {
    let mut g = Group::new("g");
    g.bench("plain");
    g.throughput(Throughput::Bytes(64));
    g.bench("small");
    g.bench("same");
    g.throughput(Throughput::Elements(9));
    g.bench("large");
    let case = |name: &str, throughput: Option<Throughput>| Case {
        name: name.to_string(),
        throughput,
    };
    assert_eq!(
        g.finish(),
        [
            case("plain", None),
            case("small", Some(Throughput::Bytes(64))),
            case("same", Some(Throughput::Bytes(64))),
            case("large", Some(Throughput::Elements(9))),
        ]
    );
    assert_eq!(Throughput::Elements(9).amount(), 9);
    assert_eq!(Throughput::Bytes(64).amount(), 64);
}

#[test]
fn a_group_runs_once() {
    let mut g = Group::new("g");
    assert!(!g.should_run(false), "nothing to run");
    g.bench("a");
    assert!(g.should_run(false));
    assert_eq!(g.finish().len(), 1);
    assert!(!g.should_run(false));
    assert!(g.finish().is_empty());
}

#[test]
fn nothing_runs_while_the_stack_unwinds() {
    let mut g = Group::new("g");
    g.bench("a");
    assert!(!g.should_run(true));
}

#[test]
fn a_group_can_do_without_a_reference() {
    let mut g = Group::new("g");
    assert!(!g.no_reference);
    g.no_reference();
    assert!(g.no_reference);
}

#[test]
fn the_header_is_due_once() {
    let mut bench = saving(None);
    assert!(bench.begin_run());
    assert!(!bench.begin_run());
    assert!(!bench.begin_run());
}

#[test]
fn a_run_saves_what_it_measured() {
    let mut bench = saving(Some("main"));
    let g = bench.group("g");
    assert_eq!(g, Group::new("g"));
    let case = Case {
        name: "c".to_string(),
        throughput: None,
    };
    let mut plan = Plan::new(&case, 4);
    plan.take_sample(9);
    let result = summarize(true, &bench.loaded, "g", false, &vec![plan]);
    bench.record(&result, &vec![numbers("2.250")]);
    bench.record(&result, &vec![numbers("2.500")]);
    let (name, rows) = bench.finish().expect("something to save");
    assert_eq!(name, "main");
    let times: Vec<&str> = rows.iter().map(|r| r.min_ns.as_str()).collect();
    assert_eq!(times, ["2.250", "2.500"]);
    assert_eq!((rows[0].key(), rows[0].iters, rows[0].samples), ("g/c".to_string(), 4, 1));
    assert_eq!(bench.finish(), None, "once");
}

#[test]
fn nothing_measured_is_nothing_to_save() {
    assert_eq!(saving(Some("main")).finish(), None);
}

#[test]
fn without_a_name_nothing_is_kept() {
    let mut bench = saving(None);
    let case = Case {
        name: "c".to_string(),
        throughput: None,
    };
    let mut plan = Plan::new(&case, 1);
    plan.take_sample(1);
    let result = summarize(true, &bench.loaded, "g", false, &vec![plan]);
    bench.record(&result, &vec![numbers("1.000")]);
    assert!(bench.to_save.is_empty());
    assert_eq!(bench.finish(), None);
}

#[test]
fn counts_of_zero_are_raised() {
    let config = Config {
        samples: 0,
        block: 0,
        time_ms: 0,
        ..Config::default()
    };
    let bench = Bench::with_config(config, Baseline::new());
    assert_eq!(
        (bench.config.samples, bench.config.block, bench.config.time_ms),
        (1, 1, 1)
    );
    assert_eq!(bench.saved_stats("g/c"), None);
}

#[test]
fn the_format_picks_the_reporter() {
    assert!(matches!(reporter_for(Format::Text), Reporter::Text(_)));
    assert!(matches!(reporter_for(Format::Tsv), Reporter::Tsv(_)));
}
