//! Texts and numbers.

use benchit::number::{decimal_text, parse_unsigned, spells_number};
use benchit::text::{
    has_part, has_prefix, join_tabs, line_list, pieces, push_left_aligned, push_right_aligned,
    trimmed_end, white_space,
};

#[test]
fn text_comes_apart_at_a_separator() {
    assert_eq!(pieces("a\tb\t\tc", '\t'), ["a", "b", "", "c"]);
    assert_eq!(pieces("", '\t'), [""]);
    assert_eq!(pieces("\t", '\t'), ["", ""]);
    for s in ["", "a", "\t", "a\t", "\ta\t\tb", "é\t日"] {
        let std: Vec<&str> = s.split('\t').collect();
        assert_eq!(pieces(s, '\t'), std, "{s:?}");
        assert_eq!(join_tabs(&pieces(s, '\t')), s);
    }
    assert_eq!(join_tabs(&Vec::new()), "");
}

#[test]
fn lines_end_like_those_of_the_standard_library() {
    for s in [
        "", "\n", "\r\n", "a", "a\n", "a\r\n", "a\r", "\ra\r\n", "a\n\nb", "a\r\r\nb\r", "\n\n",
        "a\rb\n", "é\r\n日\n",
    ] {
        let std: Vec<&str> = s.lines().collect();
        assert_eq!(line_list(s), std, "{s:?}");
    }
}

#[test]
fn parts_and_prefixes() {
    assert!(has_part("decode/mine", "de/m"));
    assert!(has_part("decode", ""));
    assert!(has_part("", ""));
    assert!(!has_part("", "a"));
    assert!(has_part("aab", "ab"));
    assert!(!has_part("aab", "ba"));
    assert!(has_prefix("--quick", "--"));
    assert!(!has_prefix("-q", "--"));
    assert!(!has_prefix("-", "--"));
}

#[test]
fn cells_are_padded_by_characters() {
    let mut s = String::new();
    push_left_aligned(&mut s, "é", 3);
    push_right_aligned(&mut s, "日", 3);
    assert_eq!(s, "é    日");
    let mut s = "x".to_string();
    push_left_aligned(&mut s, "long", 2);
    push_right_aligned(&mut s, "er", 0);
    assert_eq!(s, "xlonger");
}

#[test]
fn white_space_is_that_of_unicode() {
    for code in 0..=0x11_0000u32 {
        if let Some(c) = char::from_u32(code) {
            assert_eq!(white_space(c), c.is_whitespace(), "{code:x}");
        }
    }
    for s in ["", " ", "a", "a ", " a\t\n", "a\u{3000}\u{a0}", "a b  "] {
        assert_eq!(trimmed_end(s), s.trim_end(), "{s:?}");
    }
}

#[test]
fn numbers_are_written_in_decimal() {
    for n in [0, 1, 9, 10, 99, 100, 1 << 32, u64::MAX] {
        assert_eq!(decimal_text(n), n.to_string());
        assert_eq!(parse_unsigned(&decimal_text(n), u64::MAX), Some(n));
    }
}

#[test]
fn numbers_are_read_up_to_a_limit() {
    assert_eq!(parse_unsigned("255", 255), Some(255));
    assert_eq!(parse_unsigned("256", 255), None);
    assert_eq!(parse_unsigned("0000256", 256), Some(256));
    for s in [
        "", "+", "-", "-0", "+1", "++1", "1_000", "0x1", "١", " 1", "1.0", "99999999999999999999",
        "18446744073709551615", "18446744073709551616",
    ] {
        assert_eq!(parse_unsigned(s, u64::MAX), s.parse::<u64>().ok(), "{s:?}");
        assert_eq!(
            parse_unsigned(s, 255),
            s.parse::<u8>().ok().map(u64::from),
            "{s:?}"
        );
    }
}

#[test]
fn floating_point_numbers_are_told_from_other_texts() {
    for s in [
        "0", "1", "-1", "+1", "1.", ".5", "-.5e-3", "1e9", "1E+9", "1.5e400", "inf", "-Infinity",
        "+NaN", "INF", "infinity", "nan", "412300.000", "00.00", "", ".", "+", "-", "e", "1e", "1e+",
        ".e1", "1.2.3", "1,5", " 1", "1 ", "0x1", "1f", "infin", "nanx", "--1", "+-1", "1e1.0", "i",
        "1_0", "١", "e5", "1ee5", "in", "na", "+.", "-inf ", "1e-", ".5.", "5.e3", "ınf",
    ] {
        assert_eq!(spells_number(s), s.parse::<f64>().is_ok(), "{s:?}");
    }
}
