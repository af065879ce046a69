//! Saved baselines, as the texts of their files.

use benchit::baseline::{build_dir, key, load, path, save, HEADER};
use benchit::{Baseline, BaselineError, BuildDir, Row};

fn row(group: &str, case: &str) -> Row {
    Row {
        group: group.into(),
        case: case.into(),
        iters: 64,
        min_ns: "412300.000".into(),
        p50_ns: "418100.000".into(),
        p90_ns: "431700.000".into(),
        samples: 50,
    }
}

fn write(existing: Baseline, rows: Vec<Row>) -> Result<String, BaselineError> {
    save(existing, rows, "0.1.0", "release")
}

fn min_ns(b: &Baseline, full_name: &str) -> f64 {
    b.get(full_name)
        .unwrap_or_else(|| panic!("no {full_name}"))
        .min_ns
        .parse()
        .expect("a number")
}

#[test]
fn round_trips_through_a_file() {
    let rows = vec![row("decode/1MiB", "theirs"), row("decode/1MiB", "mine")];
    let text = write(Baseline::new(), rows).expect("saves");

    let loaded = load(&text).expect("loads");
    assert_eq!(loaded.len(), 2);
    let mine = loaded.get("decode/1MiB/mine").expect("saved");
    assert_eq!(mine.iters, 64);
    assert_eq!(min_ns(&loaded, "decode/1MiB/mine"), 412300.0);
    assert_eq!(mine.samples, 50);

    assert!(text.starts_with("# benchit baseline v1"));
    assert!(text.contains(HEADER));
}

#[test]
fn a_filtered_run_keeps_the_cases_it_did_not_measure() {
    let first = write(Baseline::new(), vec![row("a", "one"), row("b", "two")]).expect("first save");

    // A second run measuring only `a/one`, faster than before.
    let mut updated = row("a", "one");
    updated.min_ns = "1.000".to_string();
    let second = write(load(&first).expect("loads"), vec![updated]).expect("second save");

    let loaded = load(&second).expect("loads");
    assert_eq!(loaded.len(), 2, "the unmeasured case must survive");
    assert_eq!(min_ns(&loaded, "a/one"), 1.0, "the measured case must update");
    assert_eq!(min_ns(&loaded, "b/two"), 412300.0);
}

#[test]
fn a_name_that_would_corrupt_the_file_is_refused() {
    let bad = row("gr\toup", "case");
    assert!(write(Baseline::new(), vec![bad]).is_err());
}

#[test]
fn a_corrupt_row_is_an_error_not_a_silent_skip() {
    let text = format!("{HEADER}\ndecode\tmine\tsixty-four\t1\t1\t1\t50\n");
    assert!(load(&text).is_err());
}

#[test]
fn baseline_names_stay_inside_the_target_directory() {
    assert!(path("../../etc/passwd").is_err());
    assert!(path("").is_err());
    let p = path("main").expect("valid name");
    assert!(p.ends_with("benchit/main.tsv"), "{p}");
}

#[test]
fn unusable_names_are_told_apart() {
    for bad in ["", "..", "/", "a/b", "a\\b", "\\", "x/"] {
        assert_eq!(
            path(bad),
            Err(BaselineError::UnusableName(bad.to_string())),
            "{bad:?}"
        );
    }
    // Dots are only a way out when they are the whole name.
    assert_eq!(path("."), Ok("benchit/..tsv".to_string()));
    assert_eq!(path("..."), Ok("benchit/....tsv".to_string()));
    assert_eq!(path("v1.2 é"), Ok("benchit/v1.2 é.tsv".to_string()));
}

#[test]
fn the_text_of_a_file_is_exact() {
    let text = write(Baseline::new(), vec![row("b", "x"), row("a", "y"), row("a", "x")])
        .expect("saves");
    assert_eq!(
        text,
        "# benchit baseline v1  harness=0.1.0  profile=release\n\
         group\tcase\titers\tmin_ns\tp50_ns\tp90_ns\tsamples\n\
         a\tx\t64\t412300.000\t418100.000\t431700.000\t50\n\
         a\ty\t64\t412300.000\t418100.000\t431700.000\t50\n\
         b\tx\t64\t412300.000\t418100.000\t431700.000\t50\n"
    );
    assert_eq!(
        write(Baseline::new(), Vec::new()).expect("saves"),
        "# benchit baseline v1  harness=0.1.0  profile=release\n\
         group\tcase\titers\tmin_ns\tp50_ns\tp90_ns\tsamples\n"
    );
}

#[test]
fn rows_are_sorted_by_group_and_then_by_case() {
    let b = load("b\tx\t1\t1\t1\t1\t1\na!\tz\t1\t1\t1\t1\t1\na\tz\t1\t1\t1\t1\t1\na\té\t1\t1\t1\t1\t1\n\tq\t1\t1\t1\t1\t1\n")
        .expect("loads");
    let order: Vec<(&str, &str)> = (0..b.len())
        .map(|i| (b.row(i).group.as_str(), b.row(i).case.as_str()))
        .collect();
    assert_eq!(
        order,
        [("", "q"), ("a", "z"), ("a", "é"), ("a!", "z"), ("b", "x")]
    );
}

#[test]
fn what_was_not_measured_is_carried_over_untouched() {
    // Not the way a time is written here, and left as it is all the same.
    let old = "z\tone\t8\t1e3\t+2.\tinf\t+3\n";
    let text = write(load(old).expect("loads"), vec![row("a", "b")]).expect("saves");
    assert!(text.ends_with("z\tone\t8\t1e3\t+2.\tinf\t3\n"), "{text}");
    assert_eq!(min_ns(&load(&text).expect("loads"), "z/one"), 1000.0);
}

#[test]
fn a_later_row_replaces_an_earlier_one_with_its_name() {
    let mut again = row("g", "c");
    again.iters = 128;
    let text = write(Baseline::new(), vec![row("g", "c"), again]).expect("saves");
    let b = load(&text).expect("loads");
    assert_eq!(b.len(), 1);
    assert_eq!(b.get("g/c").map(|r| r.iters), Some(128));
    // The name counts, not how it is split into group and case.
    let b = load("a/b\tc\t1\t1\t1\t1\t1\na\tb/c\t2\t1\t1\t1\t1\n").expect("loads");
    assert_eq!(b.len(), 1);
    assert_eq!(b.get("a/b/c").map(|r| r.group.clone()), Some("a".to_string()));
}

#[test]
fn lines_that_are_no_rows_are_skipped() {
    let text = format!("# a comment\n\n{HEADER}\r\n#g\tc\tno\trow\r\n\r\ng\tc\t1\t2\t3\t4\t5\r\n");
    let b = load(&text).expect("loads");
    assert_eq!(b.len(), 1);
    assert_eq!(
        b.get("g/c"),
        Some(&Row {
            group: "g".into(),
            case: "c".into(),
            iters: 1,
            min_ns: "2".into(),
            p50_ns: "3".into(),
            p90_ns: "4".into(),
            samples: 5,
        })
    );
    assert_eq!(load("").map(|b| b.len()), Ok(0));
}

#[test]
fn a_bad_row_is_told_by_its_line() {
    let good = "g\tc\t1\t2\t3\t4\t5\n";
    for bad in [
        "g\tc\t1\t2\t3\t4",
        "g\tc\t1\t2\t3\t4\t5\t6",
        "g\tc\t-1\t2\t3\t4\t5",
        "g\tc\t1\t\t3\t4\t5",
        "g\tc\t1\t2\tx\t4\t5",
        "g\tc\t1\t2\t3\t0x4\t5",
        "g\tc\t1\t2\t3\t4\t5.0",
        "g\tc\t18446744073709551616\t2\t3\t4\t5",
        "g",
        " ",
    ] {
        let text = format!("# top\n{good}{bad}\n{good}");
        let e = load(&text).expect_err(bad);
        assert_eq!(e, BaselineError::BadRow(3), "{bad:?}");
        assert_eq!(e.message("x.tsv"), "x.tsv:3: cannot parse baseline row");
    }
}

#[test]
fn names_that_a_row_cannot_carry_are_named() {
    let refused = |rows: Vec<Row>| write(Baseline::new(), rows).expect_err("refused");
    let e = refused(vec![row("g", "c"), row("g", "a\nb"), row("h\r", "c")]);
    assert_eq!(e, BaselineError::UnwritableName("a\nb".to_string()));
    assert_eq!(
        e.message(""),
        "`a\nb` contains a tab or newline, which a TSV row cannot carry"
    );
    // The group is looked at before the case.
    assert_eq!(
        refused(vec![row("g\r", "\t")]),
        BaselineError::UnwritableName("g\r".to_string())
    );
    assert_eq!(
        path("a/b").expect_err("refused").message(""),
        "`a/b` is not a usable baseline name"
    );
}

#[test]
fn a_group_that_reads_as_a_comment_does_not_come_back() {
    let text = write(Baseline::new(), vec![row("#g", "c")]).expect("saves");
    assert_eq!(load(&text).map(|b| b.len()), Ok(0));
}

#[test]
fn names_with_spaces_slashes_and_accents_come_back() {
    let rows = vec![row("a b/ç", " x "), row("", ""), row("日本", "=#")];
    let b = load(&write(Baseline::new(), rows.clone()).expect("saves")).expect("loads");
    assert_eq!(b.len(), 3);
    for r in &rows {
        assert_eq!(b.get(&r.key()), Some(r));
        assert_eq!(r.key(), key(&r.group, &r.case));
    }
    assert_eq!(b.get("no/such"), None);
}

#[test]
fn saving_twice_changes_nothing() {
    let rows = vec![row("g", "b"), row("g", "a")];
    let once = write(Baseline::new(), rows.clone()).expect("saves");
    let twice = write(load(&once).expect("loads"), rows).expect("saves");
    assert_eq!(once, twice);
    let carried = write(load(&once).expect("loads"), Vec::new()).expect("saves");
    assert_eq!(once, carried);
}

#[test]
fn the_nearest_directory_with_deps_holds_the_baselines() {
    assert_eq!(build_dir(&[false, true, true], true), BuildDir::Ancestor(1));
    assert_eq!(build_dir(&[true], false), BuildDir::Ancestor(0));
    assert_eq!(build_dir(&[false, false], true), BuildDir::TargetVariable);
    assert_eq!(build_dir(&[false, false], false), BuildDir::Target);
    assert_eq!(build_dir(&[], false), BuildDir::Target);
}
