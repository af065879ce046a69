//! Text as a sequence of characters: searching, splitting, padding.

use vstd::prelude::*;

verus! {

/// The contents of a list of strings.
pub open spec fn texts(v: Seq<String>) -> Seq<Seq<char>> {
    v.map_values(|s: String| s@)
}

/// The contents of an optional string.
pub open spec fn opt_text(s: Option<String>) -> Option<Seq<char>> {
    match s {
        Some(s) => Some(s@),
        None => None,
    }
}

/// The position of the first `c` in `s` at or after `from`, or the length of `s`
/// where there is none.
pub open spec fn find_from(s: Seq<char>, c: char, from: int) -> int
    decreases s.len() - from,
{
    if from >= s.len() {
        s.len() as int
    } else if s[from] == c {
        from
    } else {
        find_from(s, c, from + 1)
    }
}

/// Does `s` begin with `prefix`?
pub open spec fn starts_with(s: Seq<char>, prefix: Seq<char>) -> bool {
    prefix.len() <= s.len() && s.subrange(0, prefix.len() as int) == prefix
}

/// Does `part` occur in `s` without a gap?
pub open spec fn contains(s: Seq<char>, part: Seq<char>) -> bool {
    exists|i: int|
        0 <= i <= s.len() - part.len() && #[trigger] s.subrange(i, i + part.len()) == part
}

/// The pieces of `s` between the occurrences of `sep`. One more piece than
/// there are separators, so never none.
pub open spec fn split(s: Seq<char>, sep: char) -> Seq<Seq<char>>
    decreases s.len(),
{
    let i = find_from(s, sep, 0);
    if 0 <= i < s.len() {
        seq![s.subrange(0, i)] + split(s.subrange(i + 1, s.len() as int), sep)
    } else {
        seq![s]
    }
}

/// `s` without the carriage return at its end, if it has one.
pub open spec fn without_return(s: Seq<char>) -> Seq<char> {
    if s.len() > 0 && s.last() == '\r' {
        s.drop_last()
    } else {
        s
    }
}

/// The lines of `s`. A line ends at `\n` or `\r\n`, which is no part of it, and
/// the last ending is optional.
pub open spec fn lines(s: Seq<char>) -> Seq<Seq<char>>
    decreases s.len(),
{
    let i = find_from(s, '\n', 0);
    if s.len() == 0 {
        Seq::empty()
    } else if 0 <= i < s.len() {
        seq![without_return(s.subrange(0, i))] + lines(s.subrange(i + 1, s.len() as int))
    } else {
        seq![s]
    }
}

/// The fields of a row with `sep` between them.
pub open spec fn joined(fields: Seq<Seq<char>>, sep: char) -> Seq<char>
    decreases fields.len(),
{
    if fields.len() == 0 {
        Seq::empty()
    } else if fields.len() == 1 {
        fields[0]
    } else {
        joined(fields.drop_last(), sep) + seq![sep] + fields.last()
    }
}

/// `n` spaces.
pub open spec fn spaces(n: nat) -> Seq<char> {
    Seq::new(n, |i: int| ' ')
}

/// `s` with spaces behind it, to at least `width` characters.
pub open spec fn pad_right(s: Seq<char>, width: nat) -> Seq<char> {
    if s.len() < width {
        s + spaces((width - s.len()) as nat)
    } else {
        s
    }
}

/// `s` with spaces in front of it, to at least `width` characters.
pub open spec fn pad_left(s: Seq<char>, width: nat) -> Seq<char> {
    if s.len() < width {
        spaces((width - s.len()) as nat) + s
    } else {
        s
    }
}

/// The characters with the Unicode property `White_Space`.
pub open spec fn is_white_space(c: char) -> bool {
    let u = c as u32;
    ||| 0x9 <= u <= 0xd
    ||| u == 0x20
    ||| u == 0x85
    ||| u == 0xa0
    ||| u == 0x1680
    ||| 0x2000 <= u <= 0x200a
    ||| u == 0x2028
    ||| u == 0x2029
    ||| u == 0x202f
    ||| u == 0x205f
    ||| u == 0x3000
}

/// `s` without the white space at its end.
pub open spec fn trim_end(s: Seq<char>) -> Seq<char>
    decreases s.len(),
{
    if s.len() > 0 && is_white_space(s.last()) {
        trim_end(s.drop_last())
    } else {
        s
    }
}

/// Where `find_from` points: no earlier position holds the character, and the
/// one it points at does.
pub proof fn find_from_is_first(s: Seq<char>, c: char, from: int)
    requires
        0 <= from <= s.len(),
    ensures
        from <= find_from(s, c, from) <= s.len(),
        forall|i: int| from <= i < find_from(s, c, from) ==> s[i] != c,
        find_from(s, c, from) < s.len() ==> s[find_from(s, c, from)] == c,
    decreases s.len() - from,
{
    if from < s.len() && s[from] != c {
        find_from_is_first(s, c, from + 1);
    }
}

/// `find_from` is the only position that is first.
pub proof fn first_is_find_from(s: Seq<char>, c: char, from: int, at: int)
    requires
        0 <= from <= at <= s.len(),
        forall|i: int| from <= i < at ==> s[i] != c,
        at < s.len() ==> s[at] == c,
    ensures
        find_from(s, c, from) == at,
    decreases at - from,
{
    if from < at {
        first_is_find_from(s, c, from + 1, at);
    }
}

/// A piece without the separator, the separator, and more: the piece comes off
/// the front.
pub proof fn split_takes_the_first(piece: Seq<char>, sep: char, rest: Seq<char>)
    requires
        forall|i: int| 0 <= i < piece.len() ==> piece[i] != sep,
    ensures
        split(piece + seq![sep] + rest, sep) == seq![piece] + split(rest, sep),
{
    let all = piece + seq![sep] + rest;
    first_is_find_from(all, sep, 0, piece.len() as int);
    assert(all.subrange(0, piece.len() as int) =~= piece);
    assert(all.subrange(piece.len() as int + 1, all.len() as int) =~= rest);
}

/// A text without the separator is one piece.
pub proof fn split_leaves_one(piece: Seq<char>, sep: char)
    requires
        forall|i: int| 0 <= i < piece.len() ==> piece[i] != sep,
    ensures
        split(piece, sep) == seq![piece],
{
    first_is_find_from(piece, sep, 0, piece.len() as int);
}

/// A piece put behind a separator is one more piece.
pub proof fn split_takes_one_more(s: Seq<char>, sep: char, piece: Seq<char>)
    requires
        forall|i: int| 0 <= i < piece.len() ==> piece[i] != sep,
    ensures
        split(s + seq![sep] + piece, sep) == split(s, sep).push(piece),
    decreases s.len(),
{
    let all = s + seq![sep] + piece;
    find_from_is_first(s, sep, 0);
    let i = find_from(s, sep, 0);
    assert forall|j: int| 0 <= j < i implies all[j] != sep by {
        assert(all[j] == s[j]);
    }
    first_is_find_from(all, sep, 0, i);
    if i < s.len() {
        let rest = s.subrange(i + 1, s.len() as int);
        assert(all.subrange(0, i) =~= s.subrange(0, i));
        assert(all.subrange(i + 1, all.len() as int) =~= rest + seq![sep] + piece);
        split_takes_one_more(rest, sep, piece);
        assert(split(all, sep) =~= split(s, sep).push(piece));
    } else {
        assert(all.subrange(0, i) =~= s);
        assert(all.subrange(i + 1, all.len() as int) =~= piece);
        split_leaves_one(piece, sep);
        assert(split(all, sep) =~= split(s, sep).push(piece));
    }
}

/// Fields that do not hold the separator come apart again.
pub proof fn joined_comes_apart(fields: Seq<Seq<char>>, sep: char)
    requires
        fields.len() > 0,
        forall|i: int, j: int|
            0 <= i < fields.len() && 0 <= j < fields[i].len() ==> #[trigger] fields[i][j] != sep,
    ensures
        split(joined(fields, sep), sep) == fields,
    decreases fields.len(),
{
    if fields.len() == 1 {
        split_leaves_one(fields[0], sep);
        assert(seq![fields[0]] =~= fields);
    } else {
        let front = fields.drop_last();
        assert forall|i: int, j: int|
            0 <= i < front.len() && 0 <= j < front[i].len() implies #[trigger] front[i][j]
            != sep by {
            assert(fields[i][j] != sep);
        }
        joined_comes_apart(front, sep);
        let last = fields.last();
        assert forall|j: int| 0 <= j < last.len() implies last[j] != sep by {
            assert(fields[fields.len() - 1][j] != sep);
        }
        split_takes_one_more(joined(front, sep), sep, last);
        assert(front.push(last) =~= fields);
    }
}

/// A line put behind whole lines is one more line.
pub proof fn lines_take_one_more(s: Seq<char>, line: Seq<char>)
    requires
        s.len() == 0 || s.last() == '\n',
        forall|i: int| 0 <= i < line.len() ==> line[i] != '\n',
        line.len() == 0 || line.last() != '\r',
    ensures
        lines(s + line + seq!['\n']) == lines(s).push(line),
    decreases s.len(),
{
    let all = s + line + seq!['\n'];
    if s.len() == 0 {
        first_is_find_from(all, '\n', 0, line.len() as int);
        assert(all.subrange(0, line.len() as int) =~= line);
        assert(all.subrange(line.len() as int + 1, all.len() as int) =~= Seq::<char>::empty());
        assert(lines(Seq::<char>::empty()) =~= Seq::<Seq<char>>::empty());
        assert(lines(all) =~= seq![line]);
        assert(lines(s).push(line) =~= seq![line]);
    } else {
        find_from_is_first(s, '\n', 0);
        let i = find_from(s, '\n', 0);
        if i == s.len() {
            assert(s[s.len() - 1] == '\n');
        }
        assert forall|j: int| 0 <= j < i implies all[j] != '\n' by {
            assert(all[j] == s[j]);
        }
        first_is_find_from(all, '\n', 0, i);
        let rest = s.subrange(i + 1, s.len() as int);
        assert(all.subrange(0, i) =~= s.subrange(0, i));
        assert(all.subrange(i + 1, all.len() as int) =~= rest + line + seq!['\n']);
        if rest.len() > 0 {
            assert(rest.last() == s.last());
        }
        lines_take_one_more(rest, line);
        assert(lines(all) =~= lines(s).push(line));
    }
}

/// No line holds a line ending.
pub proof fn lines_hold_no_ending(s: Seq<char>)
    ensures
        forall|i: int, j: int|
            0 <= i < lines(s).len() && 0 <= j < lines(s)[i].len() ==> #[trigger] lines(s)[i][j]
                != '\n',
    decreases s.len(),
{
    if s.len() > 0 {
        find_from_is_first(s, '\n', 0);
        let k = find_from(s, '\n', 0);
        if k < s.len() {
            let rest = s.subrange(k + 1, s.len() as int);
            lines_hold_no_ending(rest);
            assert forall|i: int, j: int|
                0 <= i < lines(s).len() && 0 <= j < lines(s)[i].len() implies #[trigger] lines(
                s,
            )[i][j] != '\n' by {
                if i == 0 {
                    assert(lines(s)[0] == without_return(s.subrange(0, k)));
                    assert(lines(s)[0][j] == s[j]);
                } else {
                    assert(lines(s)[i] == lines(rest)[i - 1]);
                }
            }
        }
    }
}

/// The pieces of a text hold nothing that the text does not hold.
pub proof fn pieces_come_from_the_text(s: Seq<char>, sep: char, c: char)
    requires
        forall|i: int| 0 <= i < s.len() ==> s[i] != c,
    ensures
        forall|i: int, j: int|
            0 <= i < split(s, sep).len() && 0 <= j < split(s, sep)[i].len() ==> #[trigger] split(
                s,
                sep,
            )[i][j] != c,
    decreases s.len(),
{
    let k = find_from(s, sep, 0);
    if 0 <= k < s.len() {
        let rest = s.subrange(k + 1, s.len() as int);
        pieces_come_from_the_text(rest, sep, c);
        assert forall|i: int, j: int|
            0 <= i < split(s, sep).len() && 0 <= j < split(s, sep)[i].len() implies #[trigger] split(
            s,
            sep,
        )[i][j] != c by {
            if i == 0 {
                assert(split(s, sep)[0][j] == s[j]);
            } else {
                assert(split(s, sep)[i] == split(rest, sep)[i - 1]);
            }
        }
    }
}

/// No piece holds the separator, and the first one starts as the text does.
pub proof fn pieces_hold_no_separator(s: Seq<char>, sep: char)
    ensures
        split(s, sep).len() > 0,
        split(s, sep)[0].len() > 0 ==> s.len() > 0 && split(s, sep)[0][0] == s[0],
        forall|i: int, j: int|
            0 <= i < split(s, sep).len() && 0 <= j < split(s, sep)[i].len() ==> #[trigger] split(
                s,
                sep,
            )[i][j] != sep,
    decreases s.len(),
{
    find_from_is_first(s, sep, 0);
    let k = find_from(s, sep, 0);
    if k < s.len() {
        let rest = s.subrange(k + 1, s.len() as int);
        pieces_hold_no_separator(rest, sep);
        assert forall|i: int, j: int|
            0 <= i < split(s, sep).len() && 0 <= j < split(s, sep)[i].len() implies #[trigger] split(
            s,
            sep,
        )[i][j] != sep by {
            if i == 0 {
                assert(split(s, sep)[0][j] == s[j]);
            } else {
                assert(split(s, sep)[i] == split(rest, sep)[i - 1]);
            }
        }
    }
}

/// Are the two texts the same?
pub fn same(a: &str, b: &str) -> (r: bool)
    ensures
        r == (a@ == b@),
{
    a.to_owned() == b.to_owned()
}

/// The characters of `s`, in order.
pub fn chars(s: &str) -> (v: Vec<char>)
    ensures
        v@ == s@,
{
    let mut v: Vec<char> = Vec::new();
    for c in it: s.chars()
        invariant
            it.seq() == s@,
            v@ == s@.take(it.index()),
    {
        proof {
            assert(s@.take(it.index() + 1) =~= s@.take(it.index()).push(c));
        }
        v.push(c);
    }
    assert(s@.take(s@.len() as int) =~= s@);
    v
}

/// The position of the first `c` in `s` at or after `from`, or the length of `s`.
pub fn position(s: &Vec<char>, c: char, from: usize) -> (r: usize)
    requires
        from <= s@.len(),
    ensures
        from <= r <= s@.len(),
        r == find_from(s@, c, from as int),
{
    let mut i: usize = from;
    while i < s.len() && s[i] != c
        invariant
            from <= i <= s@.len(),
            find_from(s@, c, from as int) == find_from(s@, c, i as int),
        decreases s@.len() - i,
    {
        i += 1;
    }
    i
}

/// Does `s` begin with `prefix`?
pub fn has_prefix(s: &str, prefix: &str) -> (r: bool)
    ensures
        r == starts_with(s@, prefix@),
{
    let n = prefix.unicode_len();
    n <= s.unicode_len() && same(s.substring_char(0, n), prefix)
}

/// Does `part` occur in `s` without a gap?
pub fn has_part(s: &str, part: &str) -> (r: bool)
    ensures
        r == contains(s@, part@),
{
    let n = s.unicode_len();
    let m = part.unicode_len();
    if m > n {
        return false;
    }
    let mut i: usize = 0;
    while i <= n - m
        invariant
            n == s@.len(),
            m == part@.len(),
            m <= n,
            0 <= i <= n - m + 1,
            forall|j: int| 0 <= j < i ==> #[trigger] s@.subrange(j, j + part@.len()) != part@,
        decreases n - m + 1 - i,
    {
        if same(s.substring_char(i, i + m), part) {
            return true;
        }
        if i == n - m {
            return false;
        }
        i += 1;
    }
    false
}

/// The pieces of `s` between the occurrences of `sep`.
pub fn pieces(s: &str, sep: char) -> (r: Vec<String>)
    ensures
        texts(r@) == split(s@, sep),
{
    let all = chars(s);
    let mut out: Vec<String> = Vec::new();
    let mut start: usize = 0;
    assert(s@.subrange(0, s@.len() as int) =~= s@);
    loop
        invariant
            all@ == s@,
            start <= s@.len(),
            texts(out@) + split(s@.subrange(start as int, s@.len() as int), sep) == split(s@, sep),
        decreases s@.len() - start,
    {
        let ghost rest = s@.subrange(start as int, s@.len() as int);
        let ghost before = out@;
        let i = position(&all, sep, start);
        proof {
            find_from_is_first(s@, sep, start as int);
            assert forall|j: int| 0 <= j < i - start implies rest[j] != sep by {
                assert(rest[j] == s@[start + j]);
            }
            first_is_find_from(rest, sep, 0, i - start);
        }
        out.push(s.substring_char(start, i).to_owned());
        proof {
            assert(rest.subrange(0, i - start) =~= s@.subrange(start as int, i as int));
            assert(texts(out@) =~= texts(before).push(s@.subrange(start as int, i as int)));
        }
        if i == all.len() {
            proof {
                assert(rest =~= s@.subrange(start as int, i as int));
                assert(texts(out@) =~= texts(before) + seq![rest]);
            }
            return out;
        }
        proof {
            assert(rest.subrange(i - start + 1, rest.len() as int) =~= s@.subrange(
                i + 1,
                s@.len() as int,
            ));
            assert(texts(out@) + split(s@.subrange(i + 1, s@.len() as int), sep) =~= texts(before)
                + split(rest, sep));
        }
        start = i + 1;
    }
}

/// The lines of `s`.
pub fn line_list(s: &str) -> (r: Vec<String>)
    ensures
        texts(r@) == lines(s@),
{
    let all = chars(s);
    let mut out: Vec<String> = Vec::new();
    let mut start: usize = 0;
    assert(s@.subrange(0, s@.len() as int) =~= s@);
    while start < all.len()
        invariant
            all@ == s@,
            start <= s@.len(),
            texts(out@) + lines(s@.subrange(start as int, s@.len() as int)) == lines(s@),
        decreases s@.len() - start,
    {
        let ghost rest = s@.subrange(start as int, s@.len() as int);
        let ghost before = out@;
        let i = position(&all, '\n', start);
        proof {
            find_from_is_first(s@, '\n', start as int);
            assert forall|j: int| 0 <= j < i - start implies rest[j] != '\n' by {
                assert(rest[j] == s@[start + j]);
            }
            first_is_find_from(rest, '\n', 0, i - start);
            assert(rest.subrange(0, i - start) =~= s@.subrange(start as int, i as int));
        }
        if i == all.len() {
            out.push(s.substring_char(start, i).to_owned());
            proof {
                assert(rest =~= s@.subrange(start as int, i as int));
                assert(texts(out@) =~= texts(before) + seq![rest]);
            }
            return out;
        }
        let end = if i > start && all[i - 1] == '\r' {
            i - 1
        } else {
            i
        };
        out.push(s.substring_char(start, end).to_owned());
        proof {
            let line = rest.subrange(0, i - start);
            if i > start {
                assert(line.last() == all@[i - 1]);
            }
            assert(without_return(line) =~= s@.subrange(start as int, end as int));
            assert(texts(out@) =~= texts(before).push(without_return(line)));
            assert(rest.subrange(i - start + 1, rest.len() as int) =~= s@.subrange(
                i + 1,
                s@.len() as int,
            ));
            assert(texts(out@) + lines(s@.subrange(i + 1, s@.len() as int)) =~= texts(before)
                + lines(rest));
        }
        start = i + 1;
    }
    proof {
        assert(s@.subrange(start as int, s@.len() as int) =~= Seq::<char>::empty());
        assert(texts(out@) + Seq::<Seq<char>>::empty() =~= texts(out@));
    }
    out
}

/// The fields with tabs between them.
pub fn join_tabs(fields: &Vec<String>) -> (r: String)
    ensures
        r@ == joined(texts(fields@), '\t'),
{
    let mut r = String::new();
    let ghost all = texts(fields@);
    let n = fields.len();
    let mut i: usize = 0;
    assert(r@ =~= joined(all.subrange(0, 0), '\t'));
    while i < n
        invariant
            n == fields@.len(),
            all == texts(fields@),
            i <= n,
            r@ == joined(all.subrange(0, i as int), '\t'),
        decreases n - i,
    {
        let ghost before = r@;
        if i > 0 {
            r.append("\t");
        }
        r.append(&fields[i]);
        proof {
            reveal_strlit("\t");
            let part = all.subrange(0, i + 1);
            assert(part.drop_last() =~= all.subrange(0, i as int));
            assert(part.last() == fields@[i as int]@);
            assert("\t"@ =~= seq!['\t']);
            assert(r@ =~= joined(part, '\t'));
        }
        i += 1;
    }
    assert(all.subrange(0, n as int) =~= all);
    r
}

/// Put `n` spaces behind `out`.
pub fn push_spaces(out: &mut String, n: u128)
    ensures
        final(out)@ == old(out)@ + spaces(n as nat),
{
    let mut i: u128 = 0;
    proof {
        assert(out@ + spaces(0) =~= out@);
    }
    while i < n
        invariant
            i <= n,
            out@ == old(out)@ + spaces(i as nat),
        decreases n - i,
    {
        out.append(" ");
        proof {
            reveal_strlit(" ");
            assert(out@ =~= old(out)@ + spaces((i + 1) as nat));
        }
        i += 1;
    }
}

/// Put `s` behind `out`, then spaces to a column of `width` characters.
pub fn push_left_aligned(out: &mut String, s: &str, width: usize)
    ensures
        final(out)@ == old(out)@ + pad_right(s@, width as nat),
{
    let n = s.unicode_len();
    out.append(s);
    if n < width {
        push_spaces(out, (width - n) as u128);
    }
    assert(out@ =~= old(out)@ + pad_right(s@, width as nat));
}

/// Put spaces behind `out`, then `s`, in a column of `width` characters.
pub fn push_right_aligned(out: &mut String, s: &str, width: usize)
    ensures
        final(out)@ == old(out)@ + pad_left(s@, width as nat),
{
    let n = s.unicode_len();
    if n < width {
        push_spaces(out, (width - n) as u128);
    }
    out.append(s);
    assert(out@ =~= old(out)@ + pad_left(s@, width as nat));
}

/// Has `c` the Unicode property `White_Space`?
pub fn white_space(c: char) -> (r: bool)
    ensures
        r == is_white_space(c),
{
    let u = c as u32;
    (0x9 <= u && u <= 0xd) || u == 0x20 || u == 0x85 || u == 0xa0 || u == 0x1680 || (0x2000 <= u
        && u <= 0x200a) || u == 0x2028 || u == 0x2029 || u == 0x202f || u == 0x205f || u == 0x3000
}

/// `s` without the white space at its end.
pub fn trimmed_end(s: &str) -> (r: String)
    ensures
        r@ == trim_end(s@),
{
    let all = chars(s);
    let mut n: usize = all.len();
    assert(s@.subrange(0, n as int) =~= s@);
    while n > 0 && white_space(all[n - 1])
        invariant
            all@ == s@,
            n <= s@.len(),
            trim_end(s@.subrange(0, n as int)) == trim_end(s@),
        decreases n,
    {
        proof {
            assert(s@.subrange(0, n as int).last() == all@[n - 1]);
            assert(s@.subrange(0, n as int).drop_last() =~= s@.subrange(0, n - 1));
        }
        n -= 1;
    }
    proof {
        if n > 0 {
            assert(s@.subrange(0, n as int).last() == all@[n - 1]);
        }
    }
    s.substring_char(0, n).to_owned()
}

/// Taking a text apart loses nothing: with the separator between them, the
/// pieces make up the text again.
pub proof fn pieces_make_up_the_text(s: Seq<char>, sep: char)
    ensures
        joined_right(split(s, sep), sep) == s,
    decreases s.len(),
{
    find_from_is_first(s, sep, 0);
    let i = find_from(s, sep, 0);
    let all = split(s, sep);
    if i < s.len() {
        let rest = s.subrange(i + 1, s.len() as int);
        pieces_make_up_the_text(rest, sep);
        pieces_hold_no_separator(rest, sep);
        assert(all =~= seq![s.subrange(0, i)] + split(rest, sep));
        assert(all.subrange(1, all.len() as int) =~= split(rest, sep));
        assert(s =~= s.subrange(0, i) + seq![sep] + rest);
    } else {
        assert(all[0] == s);
    }
}

/// The pieces with the separator between them, put together from the front.
pub open spec fn joined_right(pieces: Seq<Seq<char>>, sep: char) -> Seq<char>
    decreases pieces.len(),
{
    if pieces.len() == 0 {
        Seq::empty()
    } else if pieces.len() == 1 {
        pieces[0]
    } else {
        pieces[0] + seq![sep] + joined_right(pieces.subrange(1, pieces.len() as int), sep)
    }
}

/// Only white space is taken off, and all of it: what is left is the front of
/// the text and does not end in white space, and the rest is nothing else.
pub proof fn only_white_space_is_trimmed(s: Seq<char>)
    ensures
        ({
            let t = trim_end(s);
            &&& t.len() <= s.len()
            &&& t == s.subrange(0, t.len() as int)
            &&& t.len() > 0 ==> !is_white_space(t.last())
            &&& forall|i: int| t.len() <= i < s.len() ==> is_white_space(#[trigger] s[i])
        }),
    decreases s.len(),
{
    if s.len() > 0 && is_white_space(s.last()) {
        only_white_space_is_trimmed(s.drop_last());
        let t = trim_end(s);
        assert(t =~= s.subrange(0, t.len() as int));
        assert forall|i: int| t.len() <= i < s.len() implies is_white_space(#[trigger] s[i]) by {
            if i < s.len() - 1 {
                assert(s.drop_last()[i] == s[i]);
            }
        }
    } else {
        assert(s.subrange(0, s.len() as int) =~= s);
    }
}

/// A padded cell is the cell and spaces, to the width of its column or to its
/// own length where that is more.
pub proof fn padding_adds_spaces_only(cell: Seq<char>, width: nat)
    ensures
        ({
            let (left, right) = (pad_left(cell, width), pad_right(cell, width));
            let n = cell.len() as int;
            let gap = left.len() - n;
            &&& left.len() == right.len()
            &&& left.len() == width || (left.len() == n && n >= width)
            &&& left.len() >= width
            &&& left.subrange(gap, left.len() as int) == cell
            &&& right.subrange(0, n) == cell
            &&& forall|i: int| 0 <= i < gap ==> #[trigger] left[i] == ' '
            &&& forall|i: int| n <= i < right.len() ==> #[trigger] right[i] == ' '
        }),
{
    let (left, right) = (pad_left(cell, width), pad_right(cell, width));
    assert(left.subrange(left.len() - cell.len(), left.len() as int) =~= cell);
    assert(right.subrange(0, cell.len() as int) =~= cell);
}

/// A part of a text is found, whatever stands around it.
pub proof fn a_part_is_found(before: Seq<char>, part: Seq<char>, after: Seq<char>)
    ensures
        contains(before + part + after, part),
{
    let s = before + part + after;
    let i = before.len() as int;
    assert(s.subrange(i, i + part.len()) =~= part);
}

/// What is found is a part of the text: the text is that part and what stands
/// around it.
pub proof fn what_is_found_is_a_part(s: Seq<char>, part: Seq<char>) -> (r: (Seq<char>, Seq<char>))
    requires
        contains(s, part),
    ensures
        s == r.0 + part + r.1,
{
    let i = choose|i: int|
        0 <= i <= s.len() - part.len() && #[trigger] s.subrange(i, i + part.len()) == part;
    let (before, after) = (s.subrange(0, i), s.subrange(i + part.len(), s.len() as int));
    assert(s =~= before + part + after);
    (before, after)
}

/// Whole lines and what follows them have the lines of both.
pub proof fn lines_go_on(s: Seq<char>, more: Seq<char>)
    requires
        s.len() == 0 || s.last() == '\n',
    ensures
        lines(s + more) == lines(s) + lines(more),
    decreases s.len(),
{
    let all = s + more;
    if s.len() == 0 {
        assert(all =~= more);
        assert(lines(s) + lines(more) =~= lines(more));
    } else {
        find_from_is_first(s, '\n', 0);
        let i = find_from(s, '\n', 0);
        if i == s.len() {
            assert(s[s.len() - 1] == '\n');
        }
        assert forall|j: int| 0 <= j < i implies all[j] != '\n' by {
            assert(all[j] == s[j]);
        }
        first_is_find_from(all, '\n', 0, i);
        let rest = s.subrange(i + 1, s.len() as int);
        assert(all.subrange(0, i) =~= s.subrange(0, i));
        assert(all.subrange(i + 1, all.len() as int) =~= rest + more);
        if rest.len() > 0 {
            assert(rest.last() == s.last());
        }
        lines_go_on(rest, more);
        assert(lines(all) =~= lines(s) + lines(more));
    }
}

/// One line is one line, whether it ends in a line feed, in a carriage return
/// and a line feed, or with the text; and no text has no line.
pub proof fn a_line_ends_either_way(line: Seq<char>)
    requires
        forall|i: int| 0 <= i < line.len() ==> line[i] != '\n',
    ensures
        line.len() > 0 ==> lines(line) == seq![line],
        line.len() == 0 || line.last() != '\r' ==> lines(line + seq!['\n']) == seq![line],
        lines(line + seq!['\r', '\n']) == seq![line],
        lines(Seq::empty()) == Seq::<Seq<char>>::empty(),
{
    let n = line.len() as int;
    first_is_find_from(line, '\n', 0, n);
    let (a, b) = (line + seq!['\n'], line + seq!['\r', '\n']);
    first_is_find_from(a, '\n', 0, n);
    assert(a.subrange(0, n) =~= line);
    assert(a.subrange(n + 1, a.len() as int) =~= Seq::<char>::empty());
    first_is_find_from(b, '\n', 0, n + 1);
    assert(b.subrange(0, n + 1) =~= line.push('\r'));
    assert(line.push('\r').drop_last() =~= line);
    assert(b.subrange(n + 2, b.len() as int) =~= Seq::<char>::empty());
    assert(lines(Seq::<char>::empty()) =~= Seq::<Seq<char>>::empty());
    assert(seq![line] + Seq::<Seq<char>>::empty() =~= seq![line]);
}

} // verus!
