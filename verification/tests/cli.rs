//! The command line.

use benchit::cli::QUICK_TIME_MS;
use benchit::{ArgError, Config, Format, USAGE};

fn owned(args: &[&str]) -> Vec<String> {
    args.iter().map(|a| a.to_string()).collect()
}

fn try_parse(args: &[&str]) -> Result<Config, ArgError> {
    Config::parse(owned(args))
}

fn parse(args: &[&str]) -> Config {
    try_parse(args).expect("parses")
}

#[test]
fn defaults_are_the_documented_ones() {
    let c = Config::default();
    assert_eq!(c.samples, 50);
    assert_eq!(c.time_ms, 1000);
    assert_eq!(c.block, 1);
    assert!(c.interleave);
    assert_eq!(c.format, Format::Text);
}

#[test]
fn no_args_is_the_default() {
    assert_eq!(parse(&[]), Config::default());
}

#[test]
fn flags_take_values_either_way() {
    assert_eq!(parse(&["--samples", "10"]).samples, 10);
    assert_eq!(parse(&["--samples=10"]).samples, 10);
    assert_eq!(parse(&["--format=tsv"]).format, Format::Tsv);
    assert_eq!(parse(&["--format", "tsv"]).format, Format::Tsv);
}

#[test]
fn positional_argument_is_the_filter() {
    assert_eq!(parse(&["decode"]).filter.as_deref(), Some("decode"));
}

#[test]
fn cargo_bench_passes_bench_through() {
    assert_eq!(parse(&["--bench"]), Config::default());
    assert_eq!(
        parse(&["--bench", "decode"]).filter.as_deref(),
        Some("decode")
    );
}

#[test]
fn quick_shortens_the_budget() {
    assert_eq!(parse(&["--quick"]).time_ms, QUICK_TIME_MS);
}

#[test]
fn a_forgotten_value_is_not_swallowed_from_the_next_flag() {
    // Otherwise this writes a baseline named `--quick` and drops `--quick`.
    assert!(matches!(
        try_parse(&["--save-baseline", "--quick"]),
        Err(ArgError::MissingValue(_))
    ));
}

#[test]
fn a_value_on_a_valueless_flag_is_rejected() {
    // Silently dropping it would make `--no-interleave=false` interleave.
    assert!(matches!(
        try_parse(&["--no-interleave=false"]),
        Err(ArgError::UnexpectedValue(_))
    ));
    assert!(matches!(
        try_parse(&["--list=x"]),
        Err(ArgError::UnexpectedValue(_))
    ));
}

#[test]
fn bad_input_is_rejected() {
    assert!(matches!(
        try_parse(&["--samples"]),
        Err(ArgError::MissingValue(_))
    ));
    assert!(matches!(
        try_parse(&["--samples", "lots"]),
        Err(ArgError::BadValue(..))
    ));
    assert!(matches!(
        try_parse(&["--format=html"]),
        Err(ArgError::BadValue(..))
    ));
    assert!(matches!(
        try_parse(&["--plot"]),
        Err(ArgError::UnknownFlag(_))
    ));
    assert!(matches!(
        try_parse(&["a", "b"]),
        Err(ArgError::TooManyFilters(_))
    ));
    assert!(matches!(
        try_parse(&["--samples", "0"]),
        Err(ArgError::BadValue(..))
    ));
    assert!(matches!(
        try_parse(&["--help"]),
        Err(ArgError::HelpRequested)
    ));
}

#[test]
fn filter_is_a_substring_of_group_slash_case() {
    let c = parse(&["decode/mine"]);
    assert!(c.matches("decode/mine"));
    assert!(c.matches("json/decode/mine"));
    assert!(!c.matches("decode/theirs"));
    assert!(Config::default().matches("anything"));
}

#[test]
fn every_flag_sets_its_field() {
    let c = parse(&[
        "--time=250",
        "--block",
        "4",
        "--no-interleave",
        "--save-baseline",
        "main",
        "--baseline=old",
        "--list",
        "needle",
    ]);
    assert_eq!(
        c,
        Config {
            filter: Some("needle".to_string()),
            samples: 50,
            time_ms: 250,
            block: 4,
            interleave: false,
            save_baseline: Some("main".to_string()),
            baseline: Some("old".to_string()),
            format: Format::Text,
            list: true,
        }
    );
}

#[test]
fn a_later_flag_overrides_an_earlier_one() {
    assert_eq!(parse(&["--quick", "--time", "7"]).time_ms, 7);
    assert_eq!(parse(&["--time", "7", "--quick"]).time_ms, 200);
    assert_eq!(
        parse(&["--format", "tsv", "--format", "text"]).format,
        Format::Text
    );
}

#[test]
fn pass_through_flags_are_ignored_with_their_values() {
    assert_eq!(
        parse(&["--test", "--nocapture", "--color", "always", "x"]).filter,
        Some("x".to_string())
    );
    // A trailing `--color` has nothing to take along.
    assert_eq!(parse(&["--color"]), Config::default());
    assert_eq!(
        try_parse(&["--color=always"]),
        Err(ArgError::UnexpectedValue("--color".to_string()))
    );
}

#[test]
fn a_value_may_be_empty_or_hold_an_equals_sign() {
    assert_eq!(
        parse(&["--save-baseline="]).save_baseline,
        Some(String::new())
    );
    assert_eq!(
        parse(&["--baseline=a=b"]).baseline,
        Some("a=b".to_string())
    );
    // Only two dashes make `name=value` a flag.
    assert_eq!(parse(&["size=10"]).filter, Some("size=10".to_string()));
    assert_eq!(
        try_parse(&["-s=10"]),
        Err(ArgError::UnknownFlag("-s=10".to_string()))
    );
    // One dash does not make a value a forgotten one.
    assert_eq!(parse(&["--baseline", "-x"]).baseline, Some("-x".to_string()));
}

#[test]
fn numbers_are_read_like_unsigned_integers() {
    assert_eq!(parse(&["--time", "+7"]).time_ms, 7);
    assert_eq!(parse(&["--time", "007"]).time_ms, 7);
    assert_eq!(
        parse(&["--time", "18446744073709551615"]).time_ms,
        u64::MAX
    );
    for bad in ["", "+", "-1", "1.0", " 1", "1 ", "18446744073709551616"] {
        assert_eq!(
            try_parse(&["--time", bad]),
            Err(ArgError::BadValue("--time".to_string(), bad.to_string())),
            "{bad:?}"
        );
    }
}

#[test]
fn zero_counts_are_named_in_order() {
    let bad = |flag: &str| Err(ArgError::BadValue(flag.to_string(), "0".to_string()));
    assert_eq!(try_parse(&["--block", "0"]), bad("--block"));
    assert_eq!(try_parse(&["--time=0"]), bad("--time"));
    assert_eq!(
        try_parse(&["--time=0", "--block=0", "--samples=000"]),
        bad("--samples")
    );
    // A zero that is overridden is no zero.
    assert_eq!(parse(&["--time=0", "--quick"]).time_ms, 200);
}

#[test]
fn the_first_error_wins() {
    assert_eq!(
        try_parse(&["--samples=0", "--help", "--plot"]),
        Err(ArgError::HelpRequested)
    );
    assert_eq!(try_parse(&["-h"]), Err(ArgError::HelpRequested));
    for more in [&[][..], &["--quick"], &["--plot"], &["c", "--samples", "0"]] {
        let after = |front: &[&str]| try_parse(&[front, more].concat());
        assert_eq!(after(&["--help"]), Err(ArgError::HelpRequested));
        assert_eq!(
            after(&["--plot"]),
            Err(ArgError::UnknownFlag("--plot".to_string()))
        );
        assert_eq!(
            after(&["--list=x"]),
            Err(ArgError::UnexpectedValue("--list".to_string()))
        );
        assert_eq!(
            after(&["a", "b"]),
            Err(ArgError::TooManyFilters("b".to_string()))
        );
        assert_eq!(
            after(&["--format", "html"]),
            Err(ArgError::BadValue("--format".to_string(), "html".to_string()))
        );
    }
    assert_eq!(
        try_parse(&["--plot", "--help"]),
        Err(ArgError::UnknownFlag("--plot".to_string()))
    );
}

#[test]
fn errors_are_told_in_words() {
    let words = |args: &[&str]| match try_parse(args) {
        Err(e) => e.message(),
        Ok(c) => panic!("{c:?}"),
    };
    assert_eq!(words(&["-h"]), "help requested");
    assert_eq!(words(&["--samples"]), "`--samples` needs a value");
    assert_eq!(
        words(&["--samples", "lots"]),
        "`--samples` does not accept `lots`"
    );
    assert_eq!(words(&["--plot"]), "unknown flag `--plot`");
    assert_eq!(words(&["--list=x"]), "`--list` takes no value");
    assert_eq!(
        words(&["a", "b"]),
        "only one filter is accepted, got `b` as well"
    );
}

#[test]
fn clamping_only_raises_zeros() {
    let zeros = Config {
        samples: 0,
        block: 0,
        time_ms: 0,
        ..Config::default()
    };
    let clamped = zeros.clamp_counts();
    assert_eq!((clamped.samples, clamped.block, clamped.time_ms), (1, 1, 1));
    assert_eq!(parse(&["--quick"]).clamp_counts(), parse(&["--quick"]));
}

#[test]
fn the_empty_filter_matches_everything() {
    let c = parse(&[""]);
    assert_eq!(c.filter, Some(String::new()));
    assert!(c.matches("g/a"));
    assert!(c.matches(""));
}

#[test]
fn the_help_text_names_every_flag() {
    for flag in [
        "--quick",
        "--samples N",
        "--time MS",
        "--block N",
        "--no-interleave",
        "--save-baseline NAME",
        "--baseline NAME",
        "--format=text|tsv",
        "--list",
        "-h, --help",
    ] {
        assert!(USAGE.contains(flag), "{flag}");
    }
    assert!(USAGE.starts_with("usage: <bench binary> [FILTER] [OPTIONS]\n\n"));
    assert!(USAGE.ends_with("this message\n"));
}
