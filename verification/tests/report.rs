//! Amounts, figures, and the two reporters.

use benchit::report::{
    amount, amount_steps, byte_unit, decimals, element_unit, settled_decimals, Cells, Widths,
    LARGEST_UNIT,
};
use benchit::{
    CaseNumbers, CaseResult, Config, GroupResult, Rate, Ratio, SavedStats, Stats, TextReporter,
    Throughput, TsvReporter,
};

fn int_digits(a: f64) -> i32 {
    if a > 0.0 {
        a.log10().floor() as i32 + 1
    } else {
        1
    }
}

/// `v` to `digits` significant figures, with as many decimals as the library
/// settles on.
fn sig(v: f64, digits: u32) -> String {
    if !v.is_finite() {
        return "-".to_string();
    }
    let given = decimals(int_digits(v.abs()), digits);
    let first = format!("{v:.*}", given as usize);
    let rounded: f64 = first.parse().unwrap_or(v);
    let settled = settled_decimals(given, decimals(int_digits(rounded.abs()), digits));
    format!("{v:.*}", settled as usize)
}

fn ratio(v: f64) -> String {
    format!("{}x", sig(v, 3))
}

fn scaled(n: f64, base: f64) -> (String, usize) {
    let (mut v, mut i) = (n, 0);
    while v >= base && i < LARGEST_UNIT {
        v /= base;
        i += 1;
    }
    (sig(v, 4), i)
}

fn rate(per_second: f64, t: Throughput) -> String {
    match t {
        Throughput::Bytes(_) => {
            let (v, i) = scaled(per_second, 1024.0);
            format!("{v} {}/s", byte_unit(i))
        }
        Throughput::Elements(_) => {
            let (v, i) = scaled(per_second, 1000.0);
            format!("{v} {}/s", element_unit(i))
        }
    }
}

fn declared(t: Throughput) -> String {
    let base = match t {
        Throughput::Bytes(_) => 1024f64,
        Throughput::Elements(_) => 1000f64,
    };
    let divided = t.amount() as f64 / base.powi(amount_steps(t) as i32);
    amount(t, &sig(divided, 4))
}

fn case(name: &str) -> CaseResult {
    CaseResult {
        name: name.to_string(),
        iters: 8,
        samples: vec![3, 1, 2],
        stats: Stats::of(&[3, 1, 2]),
        is_reference: false,
        ratio: None,
        reference_iters: 8,
        baseline: None,
        throughput: None,
    }
}

fn recorded() -> Option<SavedStats> {
    Some(SavedStats {
        min_ns: "1".to_string(),
        p50_ns: "1".to_string(),
        p90_ns: "1".to_string(),
    })
}

fn with_band() -> Option<Ratio> {
    let r = Ratio::of_times(2, 1);
    Some(Ratio {
        iqr: Some((r.point, r.point)),
        ..r
    })
}

fn numbers(min: &str, p50: &str, p90: &str) -> CaseNumbers {
    CaseNumbers {
        min: min.to_string(),
        p50: p50.to_string(),
        p90: p90.to_string(),
        rate: "RATE".to_string(),
        point: "POINT".to_string(),
        low: "LOW".to_string(),
        high: "HIGH".to_string(),
        delta: None,
        baseline_min: "BASE".to_string(),
    }
}

fn group(name: &str, cases: Vec<CaseResult>) -> GroupResult {
    GroupResult {
        name: name.to_string(),
        cases,
        throughput: None,
        no_reference: false,
    }
}

fn text(g: &GroupResult, n: Vec<CaseNumbers>, scaled: &str) -> String {
    let mut r = TextReporter::new();
    r.group(g, &n, scaled);
    r.take()
}

#[test]
fn significant_figures() {
    assert_eq!(sig(412.34, 4), "412.3");
    assert_eq!(sig(1.2345, 4), "1.234");
    assert_eq!(sig(34567.0, 3), "34567");
    assert_eq!(sig(0.5, 4), "0.5000");
    assert_eq!(sig(f64::NAN, 4), "-");
}

#[test]
fn values_below_one_keep_their_significant_digits() {
    // A case that wins by 1000x has a ratio of 0.001; rounding that to two
    // decimals reports `0.00x` and throws the whole result away.
    assert_eq!(ratio(0.000421), "0.000421x");
    assert_eq!(ratio(0.0421), "0.0421x");
    assert_eq!(ratio(0.421), "0.421x");
    assert_eq!(sig(0.0, 3), "0.00");
}

#[test]
fn rounding_that_carries_does_not_widen_the_column() {
    // 0.9996 to three figures is 1.00; without the carry check it printed
    // 1.000 and sat one character wider than every other ratio.
    assert_eq!(sig(0.9996, 3), "1.00");
    assert_eq!(sig(9.996, 3), "10.0");
    assert_eq!(sig(999.6, 3), "1000");
}

#[test]
fn rates_use_binary_bytes_and_si_elements() {
    assert_eq!(
        rate(1024.0 * 1024.0 * 1024.0, Throughput::Bytes(1)),
        "1.000 GiB/s"
    );
    assert_eq!(rate(2_000_000.0, Throughput::Elements(1)), "2.000 Melem/s");
}

#[test]
fn declared_amounts_are_exact_counts() {
    assert_eq!(declared(Throughput::Bytes(1 << 20)), "1.000 MiB");
    assert_eq!(declared(Throughput::Bytes(64)), "64 B");
    assert_eq!(declared(Throughput::Elements(1)), "1 elem");
    assert_eq!(declared(Throughput::Elements(1_000_000)), "1.000 Melem");
}

#[test]
fn ratios_stay_readable_across_magnitudes() {
    assert_eq!(ratio(1.0), "1.00x");
    assert_eq!(ratio(2.357), "2.36x");
    assert_eq!(ratio(34600.0), "34600x");
}

#[test]
fn decimals_make_up_the_figures() {
    assert_eq!(decimals(1, 4), 3);
    assert_eq!(decimals(4, 4), 0);
    assert_eq!(decimals(5, 3), 0);
    assert_eq!(decimals(0, 3), 3);
    assert_eq!(decimals(-3, 3), 6);
    assert_eq!(decimals(i32::MIN, u32::MAX), (1 << 31) + u64::from(u32::MAX));
    assert_eq!(settled_decimals(3, 2), 2);
    assert_eq!(settled_decimals(2, 3), 2);
}

#[test]
fn amounts_change_units_at_the_base() {
    assert_eq!(declared(Throughput::Bytes(1023)), "1023 B");
    assert_eq!(declared(Throughput::Bytes(1024)), "1.000 KiB");
    assert_eq!(declared(Throughput::Elements(999)), "999 elem");
    assert_eq!(declared(Throughput::Elements(1000)), "1.000 Kelem");
    assert_eq!(declared(Throughput::Elements(999_999)), "1000 Kelem");
    assert_eq!(declared(Throughput::Bytes(1 << 30)), "1.000 GiB");
    assert_eq!(declared(Throughput::Bytes(1 << 40)), "1.000 TiB");
    // No unit is larger.
    assert_eq!(declared(Throughput::Bytes(1 << 51)), "2048 TiB");
    assert_eq!(amount_steps(Throughput::Bytes(u64::MAX)), LARGEST_UNIT);
    assert_eq!(amount_steps(Throughput::Elements(u64::MAX)), LARGEST_UNIT);
    assert_eq!(declared(Throughput::Bytes(0)), "0 B");
}

#[test]
fn units_follow_each_other() {
    let bytes: Vec<&str> = (0..=LARGEST_UNIT).map(byte_unit).collect();
    assert_eq!(bytes, ["B", "KiB", "MiB", "GiB", "TiB"]);
    let elements: Vec<&str> = (0..=LARGEST_UNIT).map(element_unit).collect();
    assert_eq!(elements, ["elem", "Kelem", "Melem", "Gelem", "Telem"]);
}

#[test]
fn a_rate_times_the_time_is_the_amount() {
    let mut c = case("a");
    assert_eq!(c.rate(), None, "nothing was declared");
    c.throughput = Some(Throughput::Bytes(100));
    let r = c.rate().expect("declared");
    assert_eq!(
        r,
        Rate {
            amount: 100,
            iters: 8,
            nanos: 1
        }
    );
    let per_nanosecond = (r.amount * r.iters) as f64 / r.nanos as f64;
    assert_eq!(per_nanosecond * (r.nanos as f64 / r.iters as f64), 100.0);
    c.stats = Stats::of(&[0, 5]);
    assert_eq!(c.rate(), None, "it measured as nothing");
}

#[test]
fn a_row_takes_the_texts_of_the_times() {
    let row = case("c").to_row("g", &numbers("1.000", "2.000", "3.000"));
    assert_eq!(row.key(), "g/c");
    assert_eq!((row.iters, row.samples), (8, 3));
    assert_eq!(
        [row.min_ns, row.p50_ns, row.p90_ns],
        ["1.000", "2.000", "3.000"]
    );
}

#[test]
fn a_ratio_cell_says_what_there_is() {
    let n = numbers("1", "2", "3");
    let cell = |c: &CaseResult, no_reference: bool| Cells::new(c, &n, no_reference).ratio;
    let mut c = case("a");
    assert_eq!(cell(&c, false), "-");
    c.is_reference = true;
    assert_eq!(cell(&c, false), "1.00x");
    c.ratio = Some(Ratio::of_times(2, 1));
    assert_eq!(cell(&c, false), "POINTx");
    assert_eq!(cell(&c, true), "");
    assert_eq!(Cells::new(&c, &n, false).band, "");
    c.ratio = with_band();
    assert_eq!(Cells::new(&c, &n, false).band, "[LOW .. HIGH]");
}

#[test]
fn widths_are_those_of_the_longest_cells() {
    let mut a = Cells::new(&case("é"), &numbers("1", "22", "333"), false);
    let b = Cells::new(&case("long"), &numbers("55555", "2", "3"), false);
    a.delta = "+1.0%".to_string();
    let w = Widths::of(&vec![a.clone(), b]);
    assert_eq!((w.name, w.min, w.p50, w.p90), (4, 5, 2, 3));
    assert_eq!((w.rate, w.ratio, w.band, w.delta), (0, 1, 0, 5));
    // One case alone has no ratio column.
    let w = Widths::of(&vec![a]);
    assert_eq!((w.name, w.ratio), (1, 0));
    let w = Widths::of(&Vec::new());
    assert_eq!((w.name, w.min, w.ratio), (0, 0, 0));
}

#[test]
fn the_table_is_laid_out_exactly() {
    let rows = [
        ["hashmap", "6.018 ns", "6.258 ns", "6.358 ns", "166.2 Melem/s", "", "", ""],
        ["btreemap", "19.70 ns", "20.28 ns", "20.70 ns", "50.77 Melem/s", "3.27", "3.24", "3.29"],
        ["linear_scan", "1.615 us", "1.672 us", "1.714 us", "619.3 Kelem/s", "269", "264", "273"],
    ];
    let mut cases = Vec::new();
    let mut texts = Vec::new();
    for (i, r) in rows.iter().enumerate() {
        let mut c = case(r[0]);
        c.throughput = Some(Throughput::Elements(1));
        c.is_reference = i == 0;
        if i > 0 {
            c.ratio = with_band();
        }
        cases.push(c);
        texts.push(CaseNumbers {
            rate: r[4].to_string(),
            point: r[5].to_string(),
            low: r[6].to_string(),
            high: r[7].to_string(),
            ..numbers(r[1], r[2], r[3])
        });
    }
    let mut g = group("lookup/10000_keys", cases);
    g.throughput = Some(Throughput::Elements(1));
    assert_eq!(
        text(&g, texts, ""),
        "lookup/10000_keys  1 elem\n  \
           hashmap      6.018 ns   p50 6.258 ns   p90 6.358 ns   166.2 Melem/s   1.00x\n  \
           btreemap     19.70 ns   p50 20.28 ns   p90 20.70 ns   50.77 Melem/s   3.27x  [3.24 .. 3.29]\n  \
           linear_scan  1.615 us   p50 1.672 us   p90 1.714 us   619.3 Kelem/s    269x  [264 .. 273]\n\n"
    );
}

#[test]
fn the_amount_sits_over_the_min_column() {
    let mut g = group("g", vec![case("a_long_name")]);
    g.throughput = Some(Throughput::Bytes(1 << 20));
    assert_eq!(
        text(&g, vec![numbers("1.000 ns", "2", "3")], "1.000"),
        "g             1.000 MiB\n  a_long_name  1.000 ns   p50 2   p90 3\n\n"
    );
}

#[test]
fn an_empty_cell_does_not_shift_the_columns_after_it() {
    let mut one = case("a");
    one.baseline = recorded();
    let mut second = case("b");
    second.ratio = with_band();
    second.baseline = recorded();
    let g = group("g", vec![one, second]);
    let mut first = numbers("1", "2", "3");
    first.delta = Some("+4.0%".to_string());
    let other = CaseNumbers {
        delta: Some("-12.5%".to_string()),
        ..numbers("1", "2", "3")
    };
    assert_eq!(
        text(&g, vec![first, other], ""),
        "g\n  a  1   p50 2   p90 3        -                 base  +4.0%\n  \
            b  1   p50 2   p90 3   POINTx  [LOW .. HIGH]  base -12.5%\n\n"
    );
}

#[test]
fn a_change_needs_a_baseline_to_be_one_against() {
    let mut c = case("a");
    let mut n = numbers("1", "2", "3");
    n.delta = Some("+4.0%".to_string());
    assert_eq!(Cells::new(&c, &n, false).delta, "");
    c.baseline = recorded();
    assert_eq!(Cells::new(&c, &n, false).delta, "+4.0%");
    // A baseline of nothing is none to report a change against.
    n.delta = None;
    assert_eq!(Cells::new(&c, &n, false).delta, "");
}

#[test]
fn white_space_at_the_end_of_a_line_is_taken_off() {
    let mut second = case("b");
    second.ratio = with_band();
    let g = group("g", vec![case("a"), second]);
    let out = text(&g, vec![numbers("1", "2", "3"), numbers("1", "2", "3")], "");
    assert!(out.lines().all(|l| l == l.trim_end()), "{out:?}");
    assert!(out.starts_with("g\n  a  1   p50 2   p90 3        -\n"), "{out:?}");
}

#[test]
fn no_rate_is_printed_without_one() {
    let mut c = case("a");
    c.throughput = Some(Throughput::Bytes(1));
    c.stats = Stats::of(&[0]);
    let out = text(&group("g", vec![c]), vec![numbers("0", "0", "0")], "");
    assert_eq!(out, "g\n  a  0   p50 0   p90 0\n\n");
}

#[test]
fn the_header_says_what_was_asked_for() {
    let header = |c: Config| {
        let mut r = TextReporter::new();
        r.header(&c, "42.17 ns", "17.62 ns");
        r.take()
    };
    let head = "benchit: timer 42.17 ns/call, iter_with floor 17.62 ns/iter\n";
    assert_eq!(
        header(Config::default()),
        format!("{head}         up to 50 samples in 1000 ms per case, interleaved\n\n")
    );
    assert_eq!(
        header(Config {
            samples: 1,
            block: 4,
            ..Config::default()
        }),
        format!("{head}         up to 1 sample in 1000 ms per case, interleaved, 4 per visit\n\n")
    );
    assert_eq!(
        header(Config {
            samples: 0,
            time_ms: 200,
            block: 4,
            interleave: false,
            ..Config::default()
        }),
        format!("{head}         up to 0 samples in 200 ms per case, sequential\n\n")
    );
}

#[test]
fn the_machine_readable_report_is_exact() {
    let mut r = TsvReporter::new();
    r.header(&Config::default(), "0.1.0", "42.000", "17.500", "release");
    let mut a = case("a");
    a.is_reference = true;
    a.throughput = Some(Throughput::Bytes(1));
    let mut b = case("b");
    b.ratio = with_band();
    b.baseline = recorded();
    let mut c = case("c");
    c.ratio = Some(Ratio::of_times(2, 1));
    let n = numbers("1.000", "2.000", "3.000");
    r.group(&group("g", vec![a, b]), &vec![n.clone(), n.clone()]);
    r.group(&group("h", vec![c, case("d")]), &vec![n.clone(), n]);
    assert_eq!(
        r.take(),
        "# benchit v0.1.0  timer_ns=42.000  iter_with_floor_ns=17.500  profile=release  interleave=true  block=1\n\
         group\tcase\titers\tsamples\tmin_ns\tp50_ns\tp90_ns\tratio\tratio_lo\tratio_hi\tper_second\tbaseline_min_ns\n\
         g\ta\t8\t3\t1.000\t2.000\t3.000\t1.000000\t\t\tRATE\t\n\
         g\tb\t8\t3\t1.000\t2.000\t3.000\tPOINT\tLOW\tHIGH\t\tBASE\n\
         h\tc\t8\t3\t1.000\t2.000\t3.000\tPOINT\t\t\t\t\n\
         h\td\t8\t3\t1.000\t2.000\t3.000\t\t\t\t\t\n"
    );
    assert_eq!(r.take(), "", "taken is taken");
}

#[test]
fn a_sequential_run_is_marked() {
    let mut r = TsvReporter::new();
    let config = Config {
        interleave: false,
        block: 7,
        ..Config::default()
    };
    r.header(&config, "1", "2", "3", "debug");
    assert_eq!(
        r.take(),
        "# benchit v1  timer_ns=2  iter_with_floor_ns=3  profile=debug  interleave=false  block=7\n"
    );
}
