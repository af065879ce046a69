//! Numbers as text: decimal integers both ways, and the shape of a decimal
//! floating-point number.

use vstd::prelude::*;

use crate::text::chars;

verus! {

/// The digit `d`, for `d` below ten.
pub open spec fn digit_char(d: nat) -> char {
    (48 + d) as char
}

/// Is `c` one of `0` to `9`?
pub open spec fn is_digit(c: char) -> bool {
    48 <= c as int <= 57
}

/// Is every character of `s` a digit?
pub open spec fn all_digits(s: Seq<char>) -> bool {
    forall|i: int| 0 <= i < s.len() ==> is_digit(#[trigger] s[i])
}

/// The number that a row of digits stands for.
pub open spec fn digits_value(s: Seq<char>) -> nat
    decreases s.len(),
{
    if s.len() == 0 {
        0
    } else {
        digits_value(s.drop_last()) * 10 + (s.last() as int - 48) as nat
    }
}

/// `n` in decimal, without leading zeros.
pub open spec fn decimal(n: nat) -> Seq<char>
    decreases n,
{
    if n < 10 {
        seq![digit_char(n)]
    } else {
        decimal(n / 10).push(digit_char(n % 10))
    }
}

/// `s` without a `+` in front.
pub open spec fn without_plus(s: Seq<char>) -> Seq<char> {
    if s.len() > 0 && s[0] == '+' {
        s.subrange(1, s.len() as int)
    } else {
        s
    }
}

/// The natural number that `s` spells: an optional `+`, then one digit or more
/// and nothing else.
pub open spec fn spelled(s: Seq<char>) -> Option<nat> {
    let digits = without_plus(s);
    if digits.len() > 0 && all_digits(digits) {
        Some(digits_value(digits))
    } else {
        None
    }
}

/// The number that `s` spells, where it is at most `max`.
pub open spec fn spelled_within(s: Seq<char>, max: nat) -> Option<nat> {
    match spelled(s) {
        Some(n) => if n <= max {
            Some(n)
        } else {
            None
        },
        None => None,
    }
}

/// `s` without a sign in front.
pub open spec fn without_sign(s: Seq<char>) -> Seq<char> {
    if s.len() > 0 && (s[0] == '+' || s[0] == '-') {
        s.subrange(1, s.len() as int)
    } else {
        s
    }
}

/// Is `c` the small letter `small`, or that letter in upper case?
pub open spec fn is_letter(c: char, small: char) -> bool {
    c == small || c as int + 32 == small as int
}

/// Is `s` the word `w`, in whatever case?
pub open spec fn is_word(s: Seq<char>, w: Seq<char>) -> bool {
    s.len() == w.len() && forall|i: int| 0 <= i < s.len() ==> is_letter(#[trigger] s[i], w[i])
}

/// Digits with at most one point among them, before, between or behind, and at
/// least one digit.
pub open spec fn is_mantissa(s: Seq<char>) -> bool {
    ||| s.len() > 0 && all_digits(s)
    ||| s.len() > 1 && exists|dot: int|
        0 <= dot < s.len() && #[trigger] s[dot] == '.' && all_digits(s.subrange(0, dot))
            && all_digits(s.subrange(dot + 1, s.len() as int))
}

/// An `e`, an optional sign, and one digit or more.
pub open spec fn is_exponent(s: Seq<char>) -> bool {
    s.len() > 0 && is_letter(s[0], 'e') && {
        let digits = without_sign(s.subrange(1, s.len() as int));
        digits.len() > 0 && all_digits(digits)
    }
}

/// Does `s` spell a floating-point number? An optional sign, and then `inf`,
/// `infinity`, `nan`, or decimal digits with an optional point and an optional
/// exponent.
pub open spec fn is_number(s: Seq<char>) -> bool {
    let t = without_sign(s);
    ||| is_word(t, "inf"@)
    ||| is_word(t, "infinity"@)
    ||| is_word(t, "nan"@)
    ||| is_mantissa(t)
    ||| exists|at: int|
        0 <= at < t.len() && is_mantissa(#[trigger] t.subrange(0, at)) && is_exponent(
            t.subrange(at, t.len() as int),
        )
}

/// Every natural number is spelled by its own decimal text.
pub proof fn decimal_spells(n: nat)
    ensures
        decimal(n).len() > 0,
        all_digits(decimal(n)),
        digits_value(decimal(n)) == n,
        spelled(decimal(n)) == Some(n),
    decreases n,
{
    reveal_with_fuel(digits_value, 2);
    let s = decimal(n);
    if n < 10 {
        assert(s.drop_last() =~= Seq::<char>::empty());
        assert(s.last() == digit_char(n));
    } else {
        decimal_spells(n / 10);
        assert(s.drop_last() =~= decimal(n / 10));
        assert(s.last() == digit_char(n % 10));
    }
    assert(is_digit(s[0]));
    assert(without_plus(s) == s);
}

/// Put the digit `d` behind `out`.
fn push_digit(out: &mut String, d: u64)
    requires
        d < 10,
    ensures
        final(out)@ == old(out)@.push(digit_char(d as nat)),
{
    let text = match d {
        0 => "0",
        1 => "1",
        2 => "2",
        3 => "3",
        4 => "4",
        5 => "5",
        6 => "6",
        7 => "7",
        8 => "8",
        _ => "9",
    };
    out.append(text);
    proof {
        reveal_strlit("0");
        reveal_strlit("1");
        reveal_strlit("2");
        reveal_strlit("3");
        reveal_strlit("4");
        reveal_strlit("5");
        reveal_strlit("6");
        reveal_strlit("7");
        reveal_strlit("8");
        reveal_strlit("9");
        assert(out@ =~= old(out)@.push(digit_char(d as nat)));
    }
}

/// Put `n` in decimal behind `out`.
pub fn push_decimal(out: &mut String, n: u64)
    ensures
        final(out)@ == old(out)@ + decimal(n as nat),
    decreases n,
{
    if n < 10 {
        push_digit(out, n);
    } else {
        push_decimal(out, n / 10);
        push_digit(out, n % 10);
    }
    assert(out@ =~= old(out)@ + decimal(n as nat));
}

/// `n` in decimal.
pub fn decimal_text(n: u64) -> (r: String)
    ensures
        r@ == decimal(n as nat),
{
    let mut out = String::new();
    push_decimal(&mut out, n);
    assert(out@ =~= decimal(n as nat));
    out
}

/// Is `c` one of `0` to `9`?
fn digit(c: char) -> (r: bool)
    ensures
        r == is_digit(c),
{
    let u = c as u32;
    48 <= u && u <= 57
}

proof fn value_grows(s: Seq<char>, i: int)
    requires
        all_digits(s),
        0 <= i <= s.len(),
    ensures
        digits_value(s.subrange(0, i)) <= digits_value(s),
    decreases s.len() - i,
{
    if i == s.len() {
        assert(s.subrange(0, i) =~= s);
    } else {
        value_grows(s, i + 1);
        assert(s.subrange(0, i + 1).drop_last() =~= s.subrange(0, i));
    }
}

/// The number that `s` spells, where it is at most `max`.
pub fn parse_unsigned(s: &str, max: u64) -> (r: Option<u64>)
    ensures
        match r {
            Some(n) => spelled_within(s@, max as nat) == Some(n as nat),
            None => spelled_within(s@, max as nat) is None,
        },
{
    let all = chars(s);
    let mut i: usize = if all.len() > 0 && all[0] == '+' {
        1
    } else {
        0
    };
    let ghost digits = without_plus(s@);
    let ghost first: int = i as int;
    if i == all.len() {
        return None;
    }
    let mut n: u128 = 0;
    assert(digits.subrange(0, 0) =~= Seq::<char>::empty());
    while i < all.len()
        invariant
            all@ == s@,
            digits == without_plus(s@),
            digits.len() == s@.len() - first,
            forall|j: int| 0 <= j < digits.len() ==> digits[j] == s@[first + j],
            first <= i <= s@.len(),
            n <= max,
            all_digits(digits.subrange(0, i - first)),
            n == digits_value(digits.subrange(0, i - first)),
        decreases s@.len() - i,
    {
        let c = all[i];
        if !digit(c) {
            assert(!is_digit(digits[i - first]));
            return None;
        }
        n = n * 10 + (c as u32 - 48) as u128;
        proof {
            let next = digits.subrange(0, i + 1 - first);
            assert(next.drop_last() =~= digits.subrange(0, i - first));
            assert(next.last() == c);
            assert forall|j: int| 0 <= j < next.len() implies is_digit(#[trigger] next[j]) by {
                if j < i - first {
                    assert(next[j] == digits.subrange(0, i - first)[j]);
                }
            }
            if n > max && all_digits(digits) {
                value_grows(digits, i + 1 - first);
            }
        }
        if n > max as u128 {
            return None;
        }
        i += 1;
    }
    assert(digits.subrange(0, i - first) =~= digits);
    Some(n as u64)
}

/// Are the characters from `from` up to `to` all digits?
fn digits_between(s: &Vec<char>, from: usize, to: usize) -> (r: bool)
    requires
        from <= to <= s@.len(),
    ensures
        r == all_digits(s@.subrange(from as int, to as int)),
{
    let mut i: usize = from;
    let ghost part = s@.subrange(from as int, to as int);
    while i < to
        invariant
            from <= i <= to <= s@.len(),
            part == s@.subrange(from as int, to as int),
            forall|j: int| from <= j < i ==> is_digit(#[trigger] s@[j]),
        decreases to - i,
    {
        if !digit(s[i]) {
            assert(!is_digit(part[i - from]));
            return false;
        }
        i += 1;
    }
    true
}

/// Are the characters from `from` up to `to` a mantissa?
fn mantissa_between(s: &Vec<char>, from: usize, to: usize) -> (r: bool)
    requires
        from <= to <= s@.len(),
    ensures
        r == is_mantissa(s@.subrange(from as int, to as int)),
{
    let ghost part = s@.subrange(from as int, to as int);
    let mut dot: usize = from;
    while dot < to && s[dot] != '.'
        invariant
            from <= dot <= to <= s@.len(),
            forall|j: int| from <= j < dot ==> s@[j] != '.',
        decreases to - dot,
    {
        dot += 1;
    }
    if dot == to {
        proof {
            assert forall|d: int| 0 <= d < part.len() implies #[trigger] part[d] != '.' by {
                assert(part[d] == s@[from + d]);
            }
        }
        return from < to && digits_between(s, from, to);
    }
    let r = to - from > 1 && digits_between(s, from, dot) && digits_between(s, dot + 1, to);
    proof {
        let at = dot - from;
        assert(part[at] == '.');
        assert(!is_digit(part[at]));
        assert(part.subrange(0, at) =~= s@.subrange(from as int, dot as int));
        assert(part.subrange(at + 1, part.len() as int) =~= s@.subrange(dot + 1, to as int));
        assert forall|d: int|
            0 <= d < part.len() && #[trigger] part[d] == '.' && all_digits(part.subrange(0, d))
                && all_digits(part.subrange(d + 1, part.len() as int)) implies d == at by {
            assert(part[d] == s@[from + d]);
            if d > at {
                assert(part.subrange(0, d)[at] == '.');
            }
        }
    }
    r
}

/// Are the characters from `from` to the end an exponent?
fn exponent_from(s: &Vec<char>, from: usize) -> (r: bool)
    requires
        from < s@.len(),
    ensures
        r == is_exponent(s@.subrange(from as int, s@.len() as int)),
{
    let ghost part = s@.subrange(from as int, s@.len() as int);
    let ghost tail = part.subrange(1, part.len() as int);
    assert(part[0] == s@[from as int]);
    if s[from] != 'e' && s[from] != 'E' {
        return false;
    }
    let n = s.len();
    let signed = n - from > 1 && (s[from + 1] == '+' || s[from + 1] == '-');
    proof {
        if from + 1 < s@.len() {
            assert(tail[0] == s@[from + 1]);
        }
    }
    let start = if signed {
        from + 2
    } else {
        from + 1
    };
    assert(without_sign(tail) =~= s@.subrange(start as int, s@.len() as int));
    start < n && digits_between(s, start, n)
}

/// Is `c` the small letter `small`, or that letter in upper case?
fn letter(c: char, small: char) -> (r: bool)
    ensures
        r == is_letter(c, small),
{
    c == small || c as u32 + 32 == small as u32
}

/// Are the characters from `from` to the end the word `w`, in whatever case?
fn word_from(s: &Vec<char>, from: usize, w: &str) -> (r: bool)
    requires
        from <= s@.len(),
    ensures
        r == is_word(s@.subrange(from as int, s@.len() as int), w@),
{
    let word = chars(w);
    let total = s.len();
    let ghost part = s@.subrange(from as int, s@.len() as int);
    if s.len() - from != word.len() {
        return false;
    }
    let mut i: usize = 0;
    while i < word.len()
        invariant
            word@ == w@,
            total == s@.len(),
            from + word@.len() == s@.len(),
            part == s@.subrange(from as int, s@.len() as int),
            i <= word@.len(),
            forall|j: int| 0 <= j < i ==> is_letter(#[trigger] part[j], w@[j]),
        decreases word@.len() - i,
    {
        assert(part[i as int] == s@[from + i]);
        if !letter(s[from + i], word[i]) {
            assert(!is_letter(part[i as int], w@[i as int]));
            return false;
        }
        i += 1;
    }
    true
}

/// Does `s` spell a floating-point number?
pub fn spells_number(s: &str) -> (r: bool)
    ensures
        r == is_number(s@),
{
    let all = chars(s);
    let from: usize = if all.len() > 0 && (all[0] == '+' || all[0] == '-') {
        1
    } else {
        0
    };
    let ghost t = without_sign(s@);
    proof {
        assert(t =~= s@.subrange(from as int, s@.len() as int));
        reveal_strlit("inf");
        reveal_strlit("infinity");
        reveal_strlit("nan");
    }
    if word_from(&all, from, "inf") || word_from(&all, from, "infinity") || word_from(
        &all,
        from,
        "nan",
    ) {
        return true;
    }
    let mut at: usize = from;
    while at < all.len() && all[at] != 'e' && all[at] != 'E'
        invariant
            all@ == s@,
            from <= at <= s@.len(),
            forall|j: int| from <= j < at ==> s@[j] != 'e' && s@[j] != 'E',
        decreases s@.len() - at,
    {
        at += 1;
    }
    if at == all.len() {
        proof {
            assert forall|k: int| 0 <= k < t.len() implies !is_exponent(
                #[trigger] t.subrange(k, t.len() as int),
            ) by {
                assert(t.subrange(k, t.len() as int)[0] == s@[from + k]);
            }
        }
        return mantissa_between(&all, from, all.len());
    }
    let r = mantissa_between(&all, from, at) && exponent_from(&all, at);
    proof {
        let e = at - from;
        assert(t[e] == s@[at as int]);
        assert(t.subrange(0, e) =~= s@.subrange(from as int, at as int));
        assert(t.subrange(e, t.len() as int) =~= s@.subrange(at as int, s@.len() as int));
        mantissa_has_no_letter(t, e);
        assert forall|k: int|
            0 <= k < t.len() && is_mantissa(#[trigger] t.subrange(0, k)) && is_exponent(
                t.subrange(k, t.len() as int),
            ) implies k == e by {
            assert(t.subrange(k, t.len() as int)[0] == s@[from + k]);
            if k > e {
                assert(t.subrange(0, k)[e] == t[e]);
                mantissa_has_no_letter(t.subrange(0, k), e);
            }
        }
    }
    r
}

/// A mantissa holds no `e`.
proof fn mantissa_has_no_letter(s: Seq<char>, i: int)
    requires
        0 <= i < s.len(),
        s[i] == 'e' || s[i] == 'E',
    ensures
        !is_mantissa(s),
{
    assert(!is_digit(s[i]));
    assert forall|dot: int|
        0 <= dot < s.len() && #[trigger] s[dot] == '.' && all_digits(
            s.subrange(0, dot),
        ) implies !all_digits(s.subrange(dot + 1, s.len() as int)) by {
        if i < dot {
            assert(s.subrange(0, dot)[i] == s[i]);
        } else {
            assert(s.subrange(dot + 1, s.len() as int)[i - dot - 1] == s[i]);
        }
    }
}

/// A character that a number can hold: a digit, a sign, a point, or a letter.
pub open spec fn is_number_char(c: char) -> bool {
    is_digit(c) || c == '+' || c == '-' || c == '.' || 65 <= c as int <= 122
}

proof fn word_holds_letters(s: Seq<char>, w: Seq<char>)
    requires
        is_word(s, w),
        forall|i: int| 0 <= i < w.len() ==> 97 <= #[trigger] w[i] as int <= 122,
    ensures
        forall|i: int| 0 <= i < s.len() ==> is_number_char(#[trigger] s[i]),
{
    assert forall|i: int| 0 <= i < s.len() implies is_number_char(#[trigger] s[i]) by {
        assert(is_letter(s[i], w[i]));
        assert(97 <= w[i] as int <= 122);
    }
}

proof fn mantissa_holds_digits(s: Seq<char>)
    requires
        is_mantissa(s),
    ensures
        forall|i: int| 0 <= i < s.len() ==> is_number_char(#[trigger] s[i]),
{
    if !all_digits(s) {
        let dot = choose|dot: int|
            0 <= dot < s.len() && #[trigger] s[dot] == '.' && all_digits(s.subrange(0, dot))
                && all_digits(s.subrange(dot + 1, s.len() as int));
        assert forall|i: int| 0 <= i < s.len() implies is_number_char(#[trigger] s[i]) by {
            if i < dot {
                assert(s[i] == s.subrange(0, dot)[i]);
            } else if i > dot {
                assert(s[i] == s.subrange(dot + 1, s.len() as int)[i - dot - 1]);
            }
        }
    }
}

/// A number holds digits, signs, points and letters, so no space and no line
/// ending.
pub proof fn numbers_hold_number_chars(s: Seq<char>)
    requires
        is_number(s),
    ensures
        forall|i: int| 0 <= i < s.len() ==> is_number_char(#[trigger] s[i]),
{
    let t = without_sign(s);
    reveal_strlit("inf");
    reveal_strlit("infinity");
    reveal_strlit("nan");
    if is_word(t, "inf"@) {
        word_holds_letters(t, "inf"@);
    } else if is_word(t, "infinity"@) {
        word_holds_letters(t, "infinity"@);
    } else if is_word(t, "nan"@) {
        word_holds_letters(t, "nan"@);
    } else if is_mantissa(t) {
        mantissa_holds_digits(t);
    } else {
        let at = choose|at: int|
            0 <= at < t.len() && is_mantissa(#[trigger] t.subrange(0, at)) && is_exponent(
                t.subrange(at, t.len() as int),
            );
        let m = t.subrange(0, at);
        let e = t.subrange(at, t.len() as int);
        let tail = e.subrange(1, e.len() as int);
        let digits = without_sign(tail);
        mantissa_holds_digits(m);
        assert forall|i: int| 0 <= i < t.len() implies is_number_char(#[trigger] t[i]) by {
            if i < at {
                assert(t[i] == m[i]);
            } else if i == at {
                assert(t[i] == e[0]);
            } else {
                assert(t[i] == tail[i - at - 1]);
                if digits.len() < tail.len() {
                    if i > at + 1 {
                        assert(tail[i - at - 1] == digits[i - at - 2]);
                    }
                } else {
                    assert(digits == tail);
                }
            }
        }
    }
    assert forall|i: int| 0 <= i < s.len() implies is_number_char(#[trigger] s[i]) by {
        if t.len() < s.len() {
            if i > 0 {
                assert(s[i] == t[i - 1]);
            }
        } else {
            assert(t == s);
        }
    }
}

/// A further digit makes ten times the number and the digit.
pub proof fn digits_count_in_tens(s: Seq<char>, n: nat, c: char)
    requires
        spelled(s) == Some(n),
        '0' <= c <= '9',
    ensures
        spelled(s.push(c)) == Some((10 * n + (c as int - '0' as int)) as nat),
{
    let digits = without_plus(s);
    let more = without_plus(s.push(c));
    assert(more =~= digits.push(c));
    assert(more.drop_last() =~= digits);
    assert(more.last() == c);
    assert forall|i: int| 0 <= i < more.len() implies is_digit(#[trigger] more[i]) by {
        if i < digits.len() {
            assert(more[i] == digits[i]);
        }
    }
}

/// One digit spells itself, with or without a `+`.
pub proof fn a_digit_spells_itself(c: char)
    requires
        '0' <= c <= '9',
    ensures
        spelled(seq![c]) == Some((c as int - '0' as int) as nat),
        spelled(seq!['+', c]) == Some((c as int - '0' as int) as nat),
{
    reveal_with_fuel(digits_value, 2);
    assert(without_plus(seq!['+', c]) =~= seq![c]);
    assert(without_plus(seq![c]) =~= seq![c]);
    assert(seq![c].drop_last() =~= Seq::<char>::empty());
}

/// Nothing but digits spells a number: every other character, other than a `+`
/// in front, spoils it, and so does having no digit at all.
pub proof fn only_digits_spell(s: Seq<char>)
    ensures
        (exists|i: int|
            0 <= i < s.len() && !('0' <= #[trigger] s[i] <= '9') && !(i == 0 && s[i] == '+'))
            ==> spelled(s) is None,
        s.len() == 0 || s == seq!['+'] ==> spelled(s) is None,
{
    let digits = without_plus(s);
    if exists|i: int|
        0 <= i < s.len() && !('0' <= #[trigger] s[i] <= '9') && !(i == 0 && s[i] == '+') {
        let i = choose|i: int|
            0 <= i < s.len() && !('0' <= #[trigger] s[i] <= '9') && !(i == 0 && s[i] == '+');
        if digits.len() < s.len() {
            assert(digits[i - 1] == s[i]);
            assert(!is_digit(digits[i - 1]));
        } else {
            assert(digits[i] == s[i]);
            assert(!is_digit(digits[i]));
        }
    }
}

/// A time as it is written is a number: digits, a point and digits, of any
/// length and with or without a sign.
pub proof fn decimals_are_numbers(whole: Seq<char>, part: Seq<char>)
    requires
        whole.len() > 0,
        forall|i: int| 0 <= i < whole.len() ==> '0' <= #[trigger] whole[i] <= '9',
        forall|i: int| 0 <= i < part.len() ==> '0' <= #[trigger] part[i] <= '9',
    ensures
        is_number(whole),
        is_number(whole + seq!['.'] + part),
        is_number(seq!['-'] + whole + seq!['.'] + part),
{
    let s = whole + seq!['.'] + part;
    let signed = seq!['-'] + whole + seq!['.'] + part;
    let dot = whole.len() as int;
    assert(whole[0] != '+' && whole[0] != '-');
    assert(s[0] == whole[0]);
    assert(without_sign(s) == s);
    assert(without_sign(whole) == whole);
    assert(without_sign(signed) =~= s);
    assert(all_digits(whole)) by {
        assert forall|i: int| 0 <= i < whole.len() implies is_digit(#[trigger] whole[i]) by {}
    }
    assert(all_digits(part)) by {
        assert forall|i: int| 0 <= i < part.len() implies is_digit(#[trigger] part[i]) by {}
    }
    assert(s[dot] == '.');
    assert(s.subrange(0, dot) =~= whole);
    assert(s.subrange(dot + 1, s.len() as int) =~= part);
    assert(is_mantissa(s));
}

} // verus!
