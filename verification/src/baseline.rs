//! Saved baselines, as TSV.
//!
//! One row per case under a comment and a header line, sorted by group then
//! case, so that the file diffs cleanly. A time is kept as the text it has in
//! the file.

use vstd::prelude::*;

use crate::number::{
    decimal, decimal_spells, is_digit, is_number, is_number_char, numbers_hold_number_chars,
    parse_unsigned, push_decimal, spelled_within, spells_number, without_plus,
};
use crate::text::{
    chars, line_list, lines, lines_hold_no_ending, lines_take_one_more, pieces,
    pieces_come_from_the_text, pieces_hold_no_separator, same, split, split_leaves_one,
    split_takes_the_first, texts,
};

verus! {

/// The line above the rows.
pub const HEADER: &'static str = "group\tcase\titers\tmin_ns\tp50_ns\tp90_ns\tsamples";

/// One saved case.
#[derive(Debug, Clone, PartialEq, Eq)]
pub struct Row {
    pub group: String,
    pub case: String,
    pub iters: u64,
    pub min_ns: String,
    pub p50_ns: String,
    pub p90_ns: String,
    pub samples: usize,
}

/// A [`Row`] with its texts as sequences of characters.
pub struct RowView {
    pub group: Seq<char>,
    pub case: Seq<char>,
    pub iters: u64,
    pub min_ns: Seq<char>,
    pub p50_ns: Seq<char>,
    pub p90_ns: Seq<char>,
    pub samples: usize,
}

impl View for Row {
    type V = RowView;

    open spec fn view(&self) -> RowView {
        RowView {
            group: self.group@,
            case: self.case@,
            iters: self.iters,
            min_ns: self.min_ns@,
            p50_ns: self.p50_ns@,
            p90_ns: self.p90_ns@,
            samples: self.samples,
        }
    }
}

/// What can be wrong with a baseline.
#[derive(Debug, Clone, PartialEq, Eq)]
pub enum BaselineError {
    /// A name that no baseline file can have.
    UnusableName(String),
    /// A group or case name that a TSV row cannot carry.
    UnwritableName(String),
    /// The line of a file, counted from one, that is no row.
    BadRow(usize),
}

impl BaselineError {
    /// The error in words; `file` names the file that was read.
    pub open spec fn words(&self, file: Seq<char>) -> Seq<char> {
        match self {
            BaselineError::UnusableName(name) => "`"@ + name@
                + "` is not a usable baseline name"@,
            BaselineError::UnwritableName(name) => "`"@ + name@
                + "` contains a tab or newline, which a TSV row cannot carry"@,
            BaselineError::BadRow(n) => file + ":"@ + decimal(*n as nat)
                + ": cannot parse baseline row"@,
        }
    }

    /// The error in words; `file` names the file that was read.
    pub fn message(&self, file: &str) -> (r: String)
        ensures
            r@ == self.words(file@),
    {
        let mut r = String::new();
        match self {
            BaselineError::UnusableName(name) => {
                r.append("`");
                r.append(name);
                r.append("` is not a usable baseline name");
            },
            BaselineError::UnwritableName(name) => {
                r.append("`");
                r.append(name);
                r.append("` contains a tab or newline, which a TSV row cannot carry");
            },
            BaselineError::BadRow(n) => {
                r.append(file);
                r.append(":");
                push_decimal(&mut r, *n as u64);
                r.append(": cannot parse baseline row");
            },
        }
        assert(r@ =~= self.words(file@));
        r
    }
}

/// The rows of a list.
pub open spec fn rows_of(v: Seq<Row>) -> Seq<RowView> {
    v.map_values(|r: Row| r@)
}

/// The name of a case within a run: `group/case`.
pub open spec fn key_of(group: Seq<char>, case: Seq<char>) -> Seq<char> {
    group + "/"@ + case
}

/// The lookup key of a row: the same `group/case` name used everywhere else.
pub open spec fn row_key(r: RowView) -> Seq<char> {
    key_of(r.group, r.case)
}

/// Does a row with this key stand in the list?
pub open spec fn has_key(rows: Seq<RowView>, k: Seq<char>) -> bool {
    exists|i: int| 0 <= i < rows.len() && #[trigger] row_key(rows[i]) == k
}

/// The rows by their keys.
pub open spec fn by_key(rows: Seq<RowView>) -> Map<Seq<char>, RowView> {
    Map::new(
        |k: Seq<char>| has_key(rows, k),
        |k: Seq<char>| rows[choose|i: int| 0 <= i < rows.len() && #[trigger] row_key(rows[i]) == k],
    )
}

/// Has every row a key of its own?
pub open spec fn distinct(rows: Seq<RowView>) -> bool {
    forall|i: int, j: int|
        0 <= i < j < rows.len() ==> #[trigger] row_key(rows[i]) != #[trigger] row_key(rows[j])
}

/// Do `a` and `b` part at `k`, with `a` the lesser: at its end, or by a lesser
/// character?
pub open spec fn parts_below(a: Seq<char>, b: Seq<char>, k: int) -> bool {
    &&& 0 <= k <= a.len()
    &&& k < b.len()
    &&& a.subrange(0, k) == b.subrange(0, k)
    &&& k == a.len() || (a[k] as int) < (b[k] as int)
}

/// Is `a` before `b` in the order of their characters?
pub open spec fn text_less(a: Seq<char>, b: Seq<char>) -> bool {
    exists|k: int| parts_below(a, b, k)
}

/// Is the one row before the other, by group and then by case?
pub open spec fn row_less(a: RowView, b: RowView) -> bool {
    text_less(a.group, b.group) || (a.group == b.group && text_less(a.case, b.case))
}

/// Is the list in the order of a file?
pub open spec fn sorted(rows: Seq<RowView>) -> bool {
    forall|i: int, j: int| 0 <= i < j < rows.len() ==> #[trigger] row_less(rows[i], rows[j])
}

/// Is `rows` the content of `m` in the order of a file?
pub open spec fn lists(rows: Seq<RowView>, m: Map<Seq<char>, RowView>) -> bool {
    distinct(rows) && sorted(rows) && by_key(rows) == m
}

proof fn text_less_transitive(a: Seq<char>, b: Seq<char>, c: Seq<char>)
    requires
        text_less(a, b),
        text_less(b, c),
    ensures
        text_less(a, c),
{
    let i = choose|k: int| parts_below(a, b, k);
    let j = choose|k: int| parts_below(b, c, k);
    let k = if i < j {
        i
    } else {
        j
    };
    assert(a.subrange(0, k) =~= a.subrange(0, i).subrange(0, k));
    assert(b.subrange(0, k) =~= b.subrange(0, i).subrange(0, k));
    assert(b.subrange(0, k) =~= b.subrange(0, j).subrange(0, k));
    assert(c.subrange(0, k) =~= c.subrange(0, j).subrange(0, k));
    if i < j {
        assert(b[i] == b.subrange(0, j)[i]);
        assert(c[i] == c.subrange(0, j)[i]);
    } else if j < i {
        assert(a[j] == a.subrange(0, i)[j]);
        assert(b[j] == b.subrange(0, i)[j]);
    }
    assert(parts_below(a, c, k));
}

proof fn text_less_irreflexive(a: Seq<char>, b: Seq<char>)
    requires
        text_less(a, b),
    ensures
        a != b,
{
    let k = choose|k: int| parts_below(a, b, k);
}

proof fn row_less_transitive(a: RowView, b: RowView, c: RowView)
    requires
        row_less(a, b),
        row_less(b, c),
    ensures
        row_less(a, c),
{
    if text_less(a.group, b.group) && text_less(b.group, c.group) {
        text_less_transitive(a.group, b.group, c.group);
    } else if a.group == b.group && b.group == c.group {
        text_less_transitive(a.case, b.case, c.case);
    }
}

proof fn row_less_irreflexive(a: RowView)
    ensures
        !row_less(a, a),
{
    if text_less(a.group, a.group) {
        text_less_irreflexive(a.group, a.group);
    }
    if text_less(a.case, a.case) {
        text_less_irreflexive(a.case, a.case);
    }
}

/// How two texts compare: before, after, or the same.
fn text_order(a: &str, b: &str) -> (r: (bool, bool))
    ensures
        r.0 == text_less(a@, b@),
        r.1 == text_less(b@, a@),
        !r.0 && !r.1 ==> a@ == b@,
{
    let x = chars(a);
    let y = chars(b);
    let mut i: usize = 0;
    while i < x.len() && i < y.len() && x[i] == y[i]
        invariant
            x@ == a@,
            y@ == b@,
            i <= a@.len(),
            i <= b@.len(),
            forall|j: int| 0 <= j < i ==> a@[j] == b@[j],
        decreases a@.len() - i,
    {
        i += 1;
    }
    assert(a@.subrange(0, i as int) =~= b@.subrange(0, i as int));
    if i == x.len() && i == y.len() {
        proof {
            assert(a@ =~= b@);
            if text_less(a@, b@) {
                text_less_irreflexive(a@, b@);
            }
        }
        return (false, false);
    }
    let first = i == x.len() || (i < y.len() && code(x[i]) < code(y[i]));
    proof {
        if first {
            assert(parts_below(a@, b@, i as int));
            if text_less(b@, a@) {
                text_less_transitive(a@, b@, a@);
                text_less_irreflexive(a@, a@);
            }
        } else {
            assert(b@.subrange(0, i as int) =~= a@.subrange(0, i as int));
            assert(parts_below(b@, a@, i as int));
            if text_less(a@, b@) {
                text_less_transitive(a@, b@, a@);
                text_less_irreflexive(a@, a@);
            }
        }
    }
    (first, !first)
}

/// The code point of a character.
fn code(c: char) -> (r: u32)
    ensures
        r as int == c as int,
{
    c as u32
}

impl Row {
    /// Is this row before the other in the order of a file?
    fn before(&self, other: &Row) -> (r: bool)
        ensures
            r == row_less(self@, other@),
            !r && row_key(self@) != row_key(other@) ==> row_less(other@, self@),
    {
        let (less, more) = text_order(&self.group, &other.group);
        if less || more {
            proof {
                if more {
                    text_less_irreflexive(other.group@, self.group@);
                }
            }
            return less;
        }
        text_order(&self.case, &other.case).0
    }

    /// The lookup key of this row.
    pub fn key(&self) -> (r: String)
        ensures
            r@ == row_key(self@),
    {
        key(&self.group, &self.case)
    }
}

/// The name of a case within a run, `group/case`.
pub fn key(group: &str, case: &str) -> (r: String)
    ensures
        r@ == key_of(group@, case@),
{
    let mut r = String::new();
    r.append(group);
    r.append("/");
    r.append(case);
    assert(r@ =~= key_of(group@, case@));
    r
}

/// Baselines by `group/case`, kept in the order of a file.
#[derive(Debug, PartialEq, Eq)]
pub struct Baseline {
    rows: Vec<Row>,
}

impl View for Baseline {
    type V = Map<Seq<char>, RowView>;

    closed spec fn view(&self) -> Map<Seq<char>, RowView> {
        by_key(rows_of(self.rows@))
    }
}

/// In a list with distinct keys, each row is found under its own.
proof fn by_key_finds(rows: Seq<RowView>, i: int)
    requires
        distinct(rows),
        0 <= i < rows.len(),
    ensures
        by_key(rows).dom().contains(row_key(rows[i])),
        by_key(rows)[row_key(rows[i])] == rows[i],
{
    let k = row_key(rows[i]);
    let j = choose|j: int| 0 <= j < rows.len() && #[trigger] row_key(rows[j]) == k;
    assert(has_key(rows, k));
    assert(row_key(rows[j]) == k);
    assert(i == j);
}

/// A row put in a place of its own is an entry put in the map.
proof fn inserted_row(rows: Seq<RowView>, p: int, row: RowView)
    requires
        distinct(rows),
        0 <= p <= rows.len(),
        !has_key(rows, row_key(row)),
    ensures
        distinct(rows.insert(p, row)),
        by_key(rows.insert(p, row)) == by_key(rows).insert(row_key(row), row),
{
    let all = rows.insert(p, row);
    let old_at = |i: int| if i < p {
        i
    } else {
        i - 1
    };
    assert forall|i: int| 0 <= i < all.len() && i != p implies all[i] == rows[#[trigger] old_at(
        i,
    )] by {}
    assert forall|i: int, j: int| 0 <= i < j < all.len() implies #[trigger] row_key(all[i])
        != #[trigger] row_key(all[j]) by {
        if i == p {
            assert(all[j] == rows[old_at(j)]);
            assert(row_key(rows[old_at(j)]) != row_key(row));
        } else if j == p {
            assert(all[i] == rows[old_at(i)]);
            assert(row_key(rows[old_at(i)]) != row_key(row));
        } else {
            assert(all[i] == rows[old_at(i)] && all[j] == rows[old_at(j)]);
            assert(row_key(rows[old_at(i)]) != row_key(rows[old_at(j)]));
        }
    }
    let m = by_key(rows).insert(row_key(row), row);
    by_key_finds(all, p);
    assert forall|k: Seq<char>| by_key(all).dom().contains(k) == m.dom().contains(k) by {
        if has_key(all, k) {
            let i = choose|i: int| 0 <= i < all.len() && #[trigger] row_key(all[i]) == k;
            if i != p {
                assert(row_key(rows[old_at(i)]) == k);
            }
        }
        if has_key(rows, k) {
            let i = choose|i: int| 0 <= i < rows.len() && #[trigger] row_key(rows[i]) == k;
            let at = if i < p {
                i
            } else {
                i + 1
            };
            assert(all[at] == rows[i]);
            assert(row_key(all[at]) == k);
        }
    }
    assert forall|k: Seq<char>| by_key(all).dom().contains(k) implies by_key(all)[k] == m[k] by {
        let i = choose|i: int| 0 <= i < all.len() && #[trigger] row_key(all[i]) == k;
        by_key_finds(all, i);
        if i != p {
            assert(all[i] == rows[old_at(i)]);
            by_key_finds(rows, old_at(i));
        }
    }
    assert(by_key(all) =~= m);
}

/// A row taken out is an entry taken out.
proof fn removed_row(rows: Seq<RowView>, p: int)
    requires
        distinct(rows),
        0 <= p < rows.len(),
    ensures
        distinct(rows.remove(p)),
        !has_key(rows.remove(p), row_key(rows[p])),
        by_key(rows.remove(p)) == by_key(rows).remove(row_key(rows[p])),
{
    let rest = rows.remove(p);
    assert forall|i: int, j: int| 0 <= i < j < rest.len() implies #[trigger] row_key(rest[i])
        != #[trigger] row_key(rest[j]) by {
        let x = if i < p {
            i
        } else {
            i + 1
        };
        let y = if j < p {
            j
        } else {
            j + 1
        };
        assert(rest[i] == rows[x] && rest[j] == rows[y]);
        assert(row_key(rows[x]) != row_key(rows[y]));
    }
    if has_key(rest, row_key(rows[p])) {
        let i = choose|i: int|
            0 <= i < rest.len() && #[trigger] row_key(rest[i]) == row_key(rows[p]);
        let x = if i < p {
            i
        } else {
            i + 1
        };
        assert(rest[i] == rows[x]);
        if x < p {
            assert(row_key(rows[x]) != row_key(rows[p]));
        } else {
            assert(row_key(rows[p]) != row_key(rows[x]));
        }
    }
    assert(rest.insert(p, rows[p]) =~= rows);
    inserted_row(rest, p, rows[p]);
    assert(by_key(rest) =~= by_key(rows).remove(row_key(rows[p])));
}

proof fn rows_of_remove(v: Seq<Row>, p: int)
    requires
        0 <= p < v.len(),
    ensures
        rows_of(v.remove(p)) == rows_of(v).remove(p),
{
    assert(rows_of(v.remove(p)) =~= rows_of(v).remove(p));
}

proof fn rows_of_insert(v: Seq<Row>, p: int, r: Row)
    requires
        0 <= p <= v.len(),
    ensures
        rows_of(v.insert(p, r)) == rows_of(v).insert(p, r@),
{
    assert(rows_of(v.insert(p, r)) =~= rows_of(v).insert(p, r@));
}

impl Baseline {
    /// The rows in the order of a file.
    pub closed spec fn listed(&self) -> Seq<RowView> {
        rows_of(self.rows@)
    }

    /// The rows are in order, each with a key of its own.
    #[verifier::type_invariant]
    closed spec fn inv(&self) -> bool {
        distinct(rows_of(self.rows@)) && sorted(rows_of(self.rows@))
    }

    /// Nothing saved.
    pub fn new() -> (r: Self)
        ensures
            r@ == Map::<Seq<char>, RowView>::empty(),
            lists(r.listed(), r@),
    {
        let r = Baseline { rows: Vec::new() };
        assert(r@ =~= Map::<Seq<char>, RowView>::empty());
        r
    }

    /// How many rows there are.
    pub fn len(&self) -> (r: usize)
        ensures
            r == self.listed().len(),
            lists(self.listed(), self@),
    {
        proof {
            use_type_invariant(self);
        }
        self.rows.len()
    }

    /// Row `i` in the order of a file.
    pub fn row(&self, i: usize) -> (r: &Row)
        requires
            i < self.listed().len(),
        ensures
            r@ == self.listed()[i as int],
    {
        &self.rows[i]
    }

    /// What is saved under a `group/case` name.
    pub fn get(&self, full_name: &str) -> (r: Option<&Row>)
        ensures
            match r {
                Some(row) => self@.dom().contains(full_name@) && row@ == self@[full_name@],
                None => !self@.dom().contains(full_name@),
            },
    {
        proof {
            use_type_invariant(self);
        }
        match find_key(&self.rows, full_name) {
            Some(i) => {
                proof {
                    by_key_finds(rows_of(self.rows@), i as int);
                }
                Some(&self.rows[i])
            },
            None => None,
        }
    }

    /// Put a row in, in place of the one with its key if there is one.
    pub fn insert(&mut self, row: Row)
        ensures
            final(self)@ == old(self)@.insert(row_key(row@), row@),
            lists(final(self).listed(), final(self)@),
    {
        proof {
            use_type_invariant(&*self);
        }
        let mut rows: Vec<Row> = Vec::new();
        std::mem::swap(&mut rows, &mut self.rows);
        insert_row(&mut rows, row);
        self.rows = rows;
    }
}

/// The place of the row with this key.
fn find_key(rows: &Vec<Row>, k: &str) -> (r: Option<usize>)
    ensures
        match r {
            Some(i) => i < rows@.len() && row_key(rows_of(rows@)[i as int]) == k@,
            None => !has_key(rows_of(rows@), k@),
        },
{
    let ghost all = rows_of(rows@);
    let mut i: usize = 0;
    while i < rows.len()
        invariant
            all == rows_of(rows@),
            i <= all.len(),
            forall|j: int| 0 <= j < i ==> #[trigger] row_key(all[j]) != k@,
        decreases all.len() - i,
    {
        assert(all[i as int] == rows@[i as int]@);
        if same(&rows[i].key(), k) {
            return Some(i);
        }
        i += 1;
    }
    None
}

/// Put a row into a sorted list, in place of the one with its key.
fn insert_row(rows: &mut Vec<Row>, row: Row)
    requires
        distinct(rows_of(old(rows)@)),
        sorted(rows_of(old(rows)@)),
    ensures
        distinct(rows_of(final(rows)@)),
        sorted(rows_of(final(rows)@)),
        by_key(rows_of(final(rows)@)) == by_key(rows_of(old(rows)@)).insert(row_key(row@), row@),
{
    let ghost start = rows_of(rows@);
    let ghost k = row_key(row@);
    let key = row.key();
    if let Some(i) = find_key(rows, &key) {
        proof {
            removed_row(start, i as int);
            rows_of_remove(rows@, i as int);
        }
        rows.remove(i);
        proof {
            let rest = start.remove(i as int);
            assert forall|a: int, b: int| 0 <= a < b < rest.len() implies #[trigger] row_less(
                rest[a],
                rest[b],
            ) by {
                let x = if a < i {
                    a
                } else {
                    a + 1
                };
                let y = if b < i {
                    b
                } else {
                    b + 1
                };
                assert(rest[a] == start[x] && rest[b] == start[y]);
                assert(row_less(start[x], start[y]));
            }
        }
    }
    let ghost rest = rows_of(rows@);
    let m = rows.len();
    let mut p: usize = 0;
    while p < m && rows[p].before(&row)
        invariant
            m == rows@.len(),
            rest == rows_of(rows@),
            p <= m,
            forall|j: int| 0 <= j < p ==> row_less(#[trigger] rest[j], row@),
        decreases m - p,
    {
        assert(rest[p as int] == rows@[p as int]@);
        p += 1;
    }
    proof {
        assert(by_key(rest) =~= by_key(start).remove(k));
        assert(!has_key(rest, k));
        inserted_row(rest, p as int, row@);
        rows_of_insert(rows@, p as int, row);
        let all = rest.insert(p as int, row@);
        if p < m {
            assert(rest[p as int] == rows@[p as int]@);
            assert(row_key(rest[p as int]) != k);
            assert(row_less(row@, rest[p as int]));
        }
        assert forall|a: int, b: int| 0 <= a < b < all.len() implies #[trigger] row_less(
            all[a],
            all[b],
        ) by {
            let x = if a < p {
                a
            } else {
                a - 1
            };
            let y = if b < p {
                b
            } else {
                b - 1
            };
            if a != p && b != p {
                assert(row_less(rest[x], rest[y]));
            } else if b == p {
                assert(row_less(rest[a], row@));
            } else {
                assert(all[b] == rest[y]);
                if y > p {
                    assert(row_less(rest[p as int], rest[y]));
                    row_less_transitive(row@, rest[p as int], rest[y]);
                }
            }
        }
        assert(by_key(all) =~= by_key(start).insert(k, row@));
    }
    rows.insert(p, row);
}

/// There is one way to list a baseline.
pub proof fn listings_are_unique(a: Seq<RowView>, b: Seq<RowView>, m: Map<Seq<char>, RowView>)
    requires
        lists(a, m),
        lists(b, m),
    ensures
        a == b,
    decreases a.len(),
{
    if a.len() == 0 {
        if b.len() > 0 {
            by_key_finds(b, 0);
        }
        assert(a =~= b);
    } else {
        let last = a.last();
        by_key_finds(a, a.len() - 1);
        assert(has_key(b, row_key(last)));
        let j = choose|j: int| 0 <= j < b.len() && #[trigger] row_key(b[j]) == row_key(last);
        by_key_finds(b, j);
        by_key_finds(b, b.len() - 1);
        assert(has_key(a, row_key(b.last())));
        let i = choose|i: int| 0 <= i < a.len() && #[trigger] row_key(a[i]) == row_key(b.last());
        by_key_finds(a, i);
        if j < b.len() - 1 {
            assert(row_less(b[j], b[b.len() - 1]));
            if i < a.len() - 1 {
                assert(row_less(a[i], a[a.len() - 1]));
                row_less_transitive(last, b.last(), last);
            }
            row_less_irreflexive(last);
        }
        assert(b.last() == last);
        let n = a.len() - 1;
        let o = b.len() - 1;
        assert(a.remove(n) =~= a.drop_last());
        assert(b.remove(o) =~= b.drop_last());
        removed_row(a, n);
        removed_row(b, o);
        assert forall|x: int, y: int| 0 <= x < y < a.drop_last().len() implies #[trigger] row_less(
            a.drop_last()[x],
            a.drop_last()[y],
        ) by {
            assert(row_less(a[x], a[y]));
        }
        assert forall|x: int, y: int| 0 <= x < y < b.drop_last().len() implies #[trigger] row_less(
            b.drop_last()[x],
            b.drop_last()[y],
        ) by {
            assert(row_less(b[x], b[y]));
        }
        listings_are_unique(a.drop_last(), b.drop_last(), m.remove(row_key(last)));
        assert(a =~= a.drop_last().push(last));
        assert(b =~= b.drop_last().push(last));
    }
}

// ---------------------------------------------------------------------------
// Names
// ---------------------------------------------------------------------------

/// Can a baseline have this name? One that is empty, that holds a path
/// separator or that is the parent directory could lead elsewhere.
pub open spec fn is_usable_name(name: Seq<char>) -> bool {
    &&& name.len() > 0
    &&& forall|i: int| 0 <= i < name.len() ==> #[trigger] name[i] != '/' && name[i] != '\\'
    &&& name != ".."@
}

/// The file of a baseline.
pub open spec fn file_of(name: Seq<char>) -> Seq<char> {
    name + ".tsv"@
}

/// `benchit/<name>.tsv`, to be found in the build directory.
pub fn path(name: &str) -> (r: Result<String, BaselineError>)
    ensures
        match r {
            Ok(p) => is_usable_name(name@) && p@ == "benchit/"@ + file_of(name@),
            Err(BaselineError::UnusableName(n)) => !is_usable_name(name@) && n@ == name@,
            Err(_) => false,
        },
{
    let all = chars(name);
    let mut i: usize = 0;
    let mut usable = all.len() > 0 && !same(name, "..");
    while i < all.len()
        invariant
            all@ == name@,
            i <= all@.len(),
            usable == (name@.len() > 0 && name@ != ".."@ && forall|j: int|
                0 <= j < i ==> #[trigger] name@[j] != '/' && name@[j] != '\\'),
        decreases all@.len() - i,
    {
        if all[i] == '/' || all[i] == '\\' {
            usable = false;
            assert(!(name@[i as int] != '/' && name@[i as int] != '\\'));
        }
        i += 1;
    }
    if !usable {
        return Err(BaselineError::UnusableName(name.to_owned()));
    }
    let mut p = String::new();
    p.append("benchit/");
    p.append(name);
    p.append(".tsv");
    assert(p@ =~= "benchit/"@ + file_of(name@));
    Ok(p)
}

/// Baselines stay inside their directory: the file of a usable name holds no
/// path separator, and is neither the directory itself nor its parent.
pub proof fn baselines_stay_inside_their_directory(name: Seq<char>)
    requires
        is_usable_name(name),
    ensures
        forall|i: int|
            0 <= i < file_of(name).len() ==> #[trigger] file_of(name)[i] != '/' && file_of(name)[i]
                != '\\',
        file_of(name) != "."@,
        file_of(name) != ".."@,
{
    reveal_strlit(".tsv");
    reveal_strlit(".");
    reveal_strlit("..");
    let file = file_of(name);
    assert forall|i: int| 0 <= i < file.len() implies #[trigger] file[i] != '/' && file[i]
        != '\\' by {
        if i < name.len() {
            assert(file[i] == name[i]);
        } else {
            assert(file[i] == ".tsv"@[i - name.len()]);
        }
    }
    assert("."@.len() == 1 && ".."@.len() == 2 && ".tsv"@.len() == 4);
}

/// Where baselines are kept.
#[derive(Debug, Clone, Copy, PartialEq, Eq)]
pub enum BuildDir {
    /// The ancestor of the binary with this number, counted from the nearest.
    Ancestor(usize),
    /// The directory that `CARGO_TARGET_DIR` names.
    TargetVariable,
    /// `target`, relative to the working directory.
    Target,
}

/// The directory cargo built the binary into: its nearest ancestor that holds a
/// `deps` directory. Failing that, what `CARGO_TARGET_DIR` names if it is set,
/// and failing that, `target`.
pub fn build_dir(holds_deps: &[bool], target_variable: bool) -> (r: BuildDir)
    ensures
        match r {
            BuildDir::Ancestor(i) => i < holds_deps@.len() && holds_deps@[i as int] && forall|j: int|
                0 <= j < i ==> !#[trigger] holds_deps@[j],
            BuildDir::TargetVariable => target_variable && !holds_deps@.contains(true),
            BuildDir::Target => !target_variable && !holds_deps@.contains(true),
        },
{
    let mut i: usize = 0;
    while i < holds_deps.len()
        invariant
            i <= holds_deps@.len(),
            forall|j: int| 0 <= j < i ==> !#[trigger] holds_deps@[j],
        decreases holds_deps@.len() - i,
    {
        if holds_deps[i] {
            return BuildDir::Ancestor(i);
        }
        i += 1;
    }
    if target_variable {
        BuildDir::TargetVariable
    } else {
        BuildDir::Target
    }
}

// ---------------------------------------------------------------------------
// Reading
// ---------------------------------------------------------------------------

/// Is this line no row: empty, a comment, or the header?
pub open spec fn is_skipped(line: Seq<char>) -> bool {
    line.len() == 0 || line[0] == '#' || line == HEADER@
}

/// The row that a line holds: seven fields between tabs, the third and the last
/// whole numbers and the three between them floating-point numbers.
pub open spec fn row_in(line: Seq<char>) -> Option<RowView> {
    let f = split(line, '\t');
    let iters = spelled_within(f[2], u64::MAX as nat);
    let samples = spelled_within(f[6], usize::MAX as nat);
    if f.len() == 7 && iters is Some && is_number(f[3]) && is_number(f[4]) && is_number(f[5])
        && samples is Some {
        Some(
            RowView {
                group: f[0],
                case: f[1],
                iters: iters->0 as u64,
                min_ns: f[3],
                p50_ns: f[4],
                p90_ns: f[5],
                samples: samples->0 as usize,
            },
        )
    } else {
        None
    }
}

/// What the lines of a file hold, by key. A later row replaces an earlier one
/// with its key. The first line that is neither skipped nor a row is an error,
/// told by its number.
pub open spec fn loaded(file: Seq<Seq<char>>) -> Result<Map<Seq<char>, RowView>, nat>
    decreases file.len(),
{
    if file.len() == 0 {
        Ok(Map::empty())
    } else {
        match loaded(file.drop_last()) {
            Err(n) => Err(n),
            Ok(m) => if is_skipped(file.last()) {
                Ok(m)
            } else {
                match row_in(file.last()) {
                    Some(row) => Ok(m.insert(row_key(row), row)),
                    None => Err(file.len()),
                }
            },
        }
    }
}

/// The row that a line holds.
fn parse_row(line: &str) -> (r: Option<Row>)
    ensures
        match r {
            Some(row) => row_in(line@) == Some(row@),
            None => row_in(line@) is None,
        },
{
    let mut f = pieces(line, '\t');
    let ghost all = split(line@, '\t');
    if f.len() != 7 {
        assert(texts(f@).len() == f@.len());
        return None;
    }
    assert(all.len() == 7);
    assert forall|i: int| 0 <= i < 7 implies #[trigger] f@[i]@ == all[i] by {
        assert(texts(f@)[i] == f@[i]@);
    }
    let iters = match parse_unsigned(&f[2], u64::MAX) {
        Some(n) => n,
        None => return None,
    };
    let samples = match parse_unsigned(&f[6], usize::MAX as u64) {
        Some(n) => n as usize,
        None => return None,
    };
    if !spells_number(&f[3]) || !spells_number(&f[4]) || !spells_number(&f[5]) {
        return None;
    }
    Some(
        Row {
            group: f[0].clone(),
            case: f[1].clone(),
            iters,
            min_ns: f[3].clone(),
            p50_ns: f[4].clone(),
            p90_ns: f[5].clone(),
            samples,
        },
    )
}

/// Once a line is an error, so is every longer file that starts the same.
proof fn errors_stay(file: Seq<Seq<char>>, n: int)
    requires
        0 <= n <= file.len(),
        loaded(file.subrange(0, n)) is Err,
    ensures
        loaded(file) == loaded(file.subrange(0, n)),
    decreases file.len() - n,
{
    if n == file.len() {
        assert(file.subrange(0, n) =~= file);
    } else {
        assert(file.subrange(0, n + 1).drop_last() =~= file.subrange(0, n));
        errors_stay(file, n + 1);
    }
}

/// Read the text of a baseline file. A line that cannot be parsed is an error
/// rather than a silent skip: a half-loaded baseline would produce a delta
/// column that quietly omits cases.
pub fn load(text: &str) -> (r: Result<Baseline, BaselineError>)
    ensures
        match r {
            Ok(b) => loaded(lines(text@)) == Ok::<Map<Seq<char>, RowView>, nat>(b@),
            Err(BaselineError::BadRow(n)) => loaded(lines(text@)) == Err::<
                Map<Seq<char>, RowView>,
                nat,
            >(n as nat),
            Err(_) => false,
        },
{
    let file = line_list(text);
    let ghost all = lines(text@);
    let n = file.len();
    let mut out = Baseline::new();
    let mut i: usize = 0;
    proof {
        assert(texts(file@).len() == file@.len());
        assert(all.subrange(0, 0) =~= Seq::<Seq<char>>::empty());
    }
    while i < n
        invariant
            texts(file@) == all,
            all == lines(text@),
            n == file@.len(),
            n == all.len(),
            i <= n,
            loaded(all.subrange(0, i as int)) == Ok::<Map<Seq<char>, RowView>, nat>(out@),
        decreases n - i,
    {
        let line = file[i].as_str();
        proof {
            assert(all[i as int] == texts(file@)[i as int]);
            assert(all.subrange(0, i + 1).drop_last() =~= all.subrange(0, i as int));
            assert(all.subrange(0, i + 1).last() == line@);
        }
        i += 1;
        if line.is_empty() || line.get_char(0) == '#' || same(line, HEADER) {
            continue;
        }
        match parse_row(line) {
            Some(row) => out.insert(row),
            None => {
                proof {
                    errors_stay(all, i as int);
                }
                return Err(BaselineError::BadRow(i));
            },
        }
    }
    assert(all.subrange(0, n as int) =~= all);
    Ok(out)
}

// ---------------------------------------------------------------------------
// Writing
// ---------------------------------------------------------------------------

/// The content of a baseline in the order of a file.
pub open spec fn listing(m: Map<Seq<char>, RowView>) -> Seq<RowView> {
    choose|rows: Seq<RowView>| lists(rows, m)
}

/// Would this character end a field or a row?
pub open spec fn breaks_a_row(c: char) -> bool {
    c == '\t' || c == '\n' || c == '\r'
}

/// Can a TSV row carry this name?
pub open spec fn is_carried(name: Seq<char>) -> bool {
    forall|i: int| 0 <= i < name.len() ==> !breaks_a_row(#[trigger] name[i])
}

/// The first name in a list of rows that a TSV row cannot carry.
pub open spec fn unwritable(rows: Seq<RowView>) -> Option<Seq<char>>
    decreases rows.len(),
{
    if rows.len() == 0 {
        None
    } else if unwritable(rows.drop_last()) is Some {
        unwritable(rows.drop_last())
    } else if !is_carried(rows.last().group) {
        Some(rows.last().group)
    } else if !is_carried(rows.last().case) {
        Some(rows.last().case)
    } else {
        None
    }
}

/// `m` with the rows put in, one after another.
pub open spec fn merged(m: Map<Seq<char>, RowView>, rows: Seq<RowView>) -> Map<Seq<char>, RowView>
    decreases rows.len(),
{
    if rows.len() == 0 {
        m
    } else {
        merged(m, rows.drop_last()).insert(row_key(rows.last()), rows.last())
    }
}

/// A row as a line.
pub open spec fn row_text(r: RowView) -> Seq<char> {
    r.group + seq!['\t'] + (r.case + seq!['\t'] + (decimal(r.iters as nat) + seq!['\t'] + (r.min_ns
        + seq!['\t'] + (r.p50_ns + seq!['\t'] + (r.p90_ns + seq!['\t'] + decimal(
        r.samples as nat,
    ))))))
}

/// Rows as lines, each with its ending.
pub open spec fn rows_text(rows: Seq<RowView>) -> Seq<char>
    decreases rows.len(),
{
    if rows.len() == 0 {
        Seq::empty()
    } else {
        rows_text(rows.drop_last()) + row_text(rows.last()) + seq!['\n']
    }
}

/// The comment at the top of a file: the version of the harness and the profile
/// it was built with.
pub open spec fn comment(harness: Seq<char>, profile: Seq<char>) -> Seq<char> {
    "# benchit baseline v1  harness="@ + harness + "  profile="@ + profile
}

/// The text of a baseline file.
pub open spec fn file_text(
    rows: Seq<RowView>,
    harness: Seq<char>,
    profile: Seq<char>,
) -> Seq<char> {
    comment(harness, profile) + seq!['\n'] + HEADER@ + seq!['\n'] + rows_text(rows)
}

/// Can a TSV row carry this name?
fn carried(name: &str) -> (r: bool)
    ensures
        r == is_carried(name@),
{
    let all = chars(name);
    let mut i: usize = 0;
    while i < all.len()
        invariant
            all@ == name@,
            i <= all@.len(),
            forall|j: int| 0 <= j < i ==> !breaks_a_row(#[trigger] name@[j]),
        decreases all@.len() - i,
    {
        if all[i] == '\t' || all[i] == '\n' || all[i] == '\r' {
            assert(breaks_a_row(name@[i as int]));
            return false;
        }
        i += 1;
    }
    true
}

/// The first name that a TSV row cannot carry.
fn first_unwritable(rows: &Vec<Row>) -> (r: Option<String>)
    ensures
        match r {
            Some(bad) => unwritable(rows_of(rows@)) == Some(bad@),
            None => unwritable(rows_of(rows@)) is None,
        },
{
    let ghost all = rows_of(rows@);
    let n = rows.len();
    let mut i: usize = 0;
    assert(all.subrange(0, 0) =~= Seq::<RowView>::empty());
    while i < n
        invariant
            n == rows@.len(),
            all == rows_of(rows@),
            i <= n,
            unwritable(all.subrange(0, i as int)) is None,
        decreases n - i,
    {
        let row = &rows[i];
        proof {
            assert(all.subrange(0, i + 1).drop_last() =~= all.subrange(0, i as int));
            assert(all.subrange(0, i + 1).last() == row@);
        }
        if !carried(&row.group) {
            proof {
                found_unwritable(all, i + 1);
            }
            return Some(row.group.clone());
        }
        if !carried(&row.case) {
            proof {
                found_unwritable(all, i + 1);
            }
            return Some(row.case.clone());
        }
        i += 1;
    }
    assert(all.subrange(0, n as int) =~= all);
    None
}

/// The first unwritable name of a part at the front is the first of all.
proof fn found_unwritable(rows: Seq<RowView>, n: int)
    requires
        0 <= n <= rows.len(),
        unwritable(rows.subrange(0, n)) is Some,
    ensures
        unwritable(rows) == unwritable(rows.subrange(0, n)),
    decreases rows.len() - n,
{
    if n == rows.len() {
        assert(rows.subrange(0, n) =~= rows);
    } else {
        assert(rows.subrange(0, n + 1).drop_last() =~= rows.subrange(0, n));
        found_unwritable(rows, n + 1);
    }
}

/// Put a row behind `out`, with its line ending.
fn push_row(out: &mut String, row: &Row)
    ensures
        final(out)@ == old(out)@ + row_text(row@) + seq!['\n'],
{
    out.append(&row.group);
    out.append("\t");
    out.append(&row.case);
    out.append("\t");
    push_decimal(out, row.iters);
    out.append("\t");
    out.append(&row.min_ns);
    out.append("\t");
    out.append(&row.p50_ns);
    out.append("\t");
    out.append(&row.p90_ns);
    out.append("\t");
    push_decimal(out, row.samples as u64);
    out.append("\n");
    proof {
        reveal_strlit("\t");
        reveal_strlit("\n");
        assert("\t"@ =~= seq!['\t']);
        assert("\n"@ =~= seq!['\n']);
        assert(out@ =~= old(out)@ + row_text(row@) + seq!['\n']);
    }
}

/// The text of a baseline file: the rows measured by this run in place of the
/// rows with their keys, and everything else as it was.
///
/// A name that a row cannot carry is refused before anything is written.
pub fn save(existing: Baseline, measured: Vec<Row>, harness: &str, profile: &str) -> (r: Result<
    String,
    BaselineError,
>)
    ensures
        match r {
            Ok(text) => {
                let content = merged(existing@, rows_of(measured@));
                &&& unwritable(rows_of(measured@)) is None
                &&& lists(listing(content), content)
                &&& text@ == file_text(listing(content), harness@, profile@)
            },
            Err(BaselineError::UnwritableName(bad)) => unwritable(rows_of(measured@)) == Some(bad@),
            Err(_) => false,
        },
{
    match first_unwritable(&measured) {
        Some(bad) => return Err(BaselineError::UnwritableName(bad)),
        None => {},
    }
    let ghost all = rows_of(measured@);
    let ghost before = existing@;
    let n = measured.len();
    let mut merged_rows = existing;
    let mut i: usize = 0;
    assert(all.subrange(0, 0) =~= Seq::<RowView>::empty());
    while i < n
        invariant
            n == measured@.len(),
            all == rows_of(measured@),
            i <= n,
            merged_rows@ == merged(before, all.subrange(0, i as int)),
        decreases n - i,
    {
        let row = copy_row(&measured[i]);
        proof {
            assert(all.subrange(0, i + 1).drop_last() =~= all.subrange(0, i as int));
            assert(all.subrange(0, i + 1).last() == row@);
        }
        merged_rows.insert(row);
        i += 1;
    }
    assert(all.subrange(0, n as int) =~= all);
    let mut out = String::new();
    out.append("# benchit baseline v1  harness=");
    out.append(harness);
    out.append("  profile=");
    out.append(profile);
    out.append("\n");
    out.append(HEADER);
    out.append("\n");
    let ghost head = out@;
    let count = merged_rows.len();
    let ghost rows = merged_rows.listed();
    let mut j: usize = 0;
    assert(rows.subrange(0, 0) =~= Seq::<RowView>::empty());
    assert(out@ =~= head + rows_text(rows.subrange(0, 0)));
    while j < count
        invariant
            count == rows.len(),
            rows == merged_rows.listed(),
            j <= count,
            out@ == head + rows_text(rows.subrange(0, j as int)),
        decreases count - j,
    {
        proof {
            assert(rows.subrange(0, j + 1).drop_last() =~= rows.subrange(0, j as int));
        }
        push_row(&mut out, merged_rows.row(j));
        assert(out@ =~= head + rows_text(rows.subrange(0, j + 1)));
        j += 1;
    }
    proof {
        assert(rows.subrange(0, count as int) =~= rows);
        let m = merged(before, all);
        assert(lists(rows, m));
        listings_are_unique(rows, listing(m), m);
        reveal_strlit("\n");
        assert("\n"@ =~= seq!['\n']);
        assert(out@ =~= file_text(rows, harness@, profile@));
    }
    Ok(out)
}

/// A row of the same content.
fn copy_row(row: &Row) -> (r: Row)
    ensures
        r@ == row@,
{
    Row {
        group: row.group.clone(),
        case: row.case.clone(),
        iters: row.iters,
        min_ns: row.min_ns.clone(),
        p50_ns: row.p50_ns.clone(),
        p90_ns: row.p90_ns.clone(),
        samples: row.samples,
    }
}

// ---------------------------------------------------------------------------
// Laws
// ---------------------------------------------------------------------------

/// A filtered run keeps what it did not measure: under a key that no measured
/// row has, everything stays as it was.
pub proof fn merging_keeps_the_unmeasured(
    m: Map<Seq<char>, RowView>,
    rows: Seq<RowView>,
    k: Seq<char>,
)
    requires
        !has_key(rows, k),
    ensures
        merged(m, rows).dom().contains(k) == m.dom().contains(k),
        m.dom().contains(k) ==> merged(m, rows)[k] == m[k],
    decreases rows.len(),
{
    if rows.len() > 0 {
        assert(row_key(rows[rows.len() - 1]) != k);
        let front = rows.drop_last();
        if has_key(front, k) {
            let i = choose|i: int| 0 <= i < front.len() && #[trigger] row_key(front[i]) == k;
            assert(row_key(rows[i]) == k);
        }
        merging_keeps_the_unmeasured(m, front, k);
    }
}

/// What was measured replaces what was saved: under the key of a measured row
/// stands that row, or a later one with its key.
pub proof fn merging_takes_the_measured(
    m: Map<Seq<char>, RowView>,
    rows: Seq<RowView>,
    i: int,
)
    requires
        0 <= i < rows.len(),
        forall|j: int| i < j < rows.len() ==> #[trigger] row_key(rows[j]) != row_key(rows[i]),
    ensures
        merged(m, rows).dom().contains(row_key(rows[i])),
        merged(m, rows)[row_key(rows[i])] == rows[i],
    decreases rows.len(),
{
    if i < rows.len() - 1 {
        let front = rows.drop_last();
        assert(row_key(rows[rows.len() - 1]) != row_key(rows[i]));
        assert forall|j: int| i < j < front.len() implies #[trigger] row_key(front[j]) != row_key(
            front[i],
        ) by {
            assert(row_key(rows[j]) != row_key(rows[i]));
        }
        merging_takes_the_measured(m, front, i);
    }
}

/// A row that is still the same row once it has been written and read: no tab
/// or line feed in its names, no group that reads as a comment, and numbers for
/// times.
pub open spec fn is_legible(r: RowView) -> bool {
    &&& forall|i: int| 0 <= i < r.group.len() ==> #[trigger] r.group[i] != '\t' && r.group[i] != '\n'
    &&& forall|i: int| 0 <= i < r.case.len() ==> #[trigger] r.case[i] != '\t' && r.case[i] != '\n'
    &&& r.group.len() > 0 ==> r.group[0] != '#'
    &&& is_number(r.min_ns)
    &&& is_number(r.p50_ns)
    &&& is_number(r.p90_ns)
}

/// The text of a number holds no tab and no line end.
proof fn numbers_are_carried(s: Seq<char>)
    requires
        is_number(s),
    ensures
        is_carried(s),
{
    numbers_hold_number_chars(s);
    assert forall|i: int| 0 <= i < s.len() implies !breaks_a_row(#[trigger] s[i]) by {
        assert(is_number_char(s[i]));
    }
}

proof fn decimals_are_carried(n: nat)
    ensures
        is_carried(decimal(n)),
{
    decimal_spells(n);
    assert forall|i: int| 0 <= i < decimal(n).len() implies !breaks_a_row(
        #[trigger] decimal(n)[i],
    ) by {
        assert(is_digit(decimal(n)[i]));
    }
}

/// A legible row is one line, which is not skipped and holds that row.
proof fn a_written_row_is_read(r: RowView)
    requires
        is_legible(r),
    ensures
        forall|i: int| 0 <= i < row_text(r).len() ==> row_text(r)[i] != '\n',
        row_text(r).len() > 0,
        row_text(r).last() != '\r',
        !is_skipped(row_text(r)),
        row_in(row_text(r)) == Some(r),
{
    let tab = seq!['\t'];
    let iters = decimal(r.iters as nat);
    let samples = decimal(r.samples as nat);
    decimal_spells(r.iters as nat);
    decimal_spells(r.samples as nat);
    decimals_are_carried(r.iters as nat);
    decimals_are_carried(r.samples as nat);
    numbers_are_carried(r.min_ns);
    numbers_are_carried(r.p50_ns);
    numbers_are_carried(r.p90_ns);
    assert forall|i: int| 0 <= i < iters.len() implies iters[i] != '\t' && iters[i] != '\n' by {
        assert(!breaks_a_row(iters[i]));
    }
    assert forall|i: int| 0 <= i < samples.len() implies samples[i] != '\t' && samples[i] != '\n'
        && samples[i] != '\r' by {
        assert(!breaks_a_row(samples[i]));
    }
    assert forall|i: int| 0 <= i < r.min_ns.len() implies r.min_ns[i] != '\t' && r.min_ns[i]
        != '\n' by {
        assert(!breaks_a_row(r.min_ns[i]));
    }
    assert forall|i: int| 0 <= i < r.p50_ns.len() implies r.p50_ns[i] != '\t' && r.p50_ns[i]
        != '\n' by {
        assert(!breaks_a_row(r.p50_ns[i]));
    }
    assert forall|i: int| 0 <= i < r.p90_ns.len() implies r.p90_ns[i] != '\t' && r.p90_ns[i]
        != '\n' by {
        assert(!breaks_a_row(r.p90_ns[i]));
    }
    let t5 = r.p90_ns + tab + samples;
    let t4 = r.p50_ns + tab + t5;
    let t3 = r.min_ns + tab + t4;
    let t2 = iters + tab + t3;
    let t1 = r.case + tab + t2;
    let line = row_text(r);
    assert(line == r.group + tab + t1);
    split_leaves_one(samples, '\t');
    split_takes_the_first(r.p90_ns, '\t', samples);
    split_takes_the_first(r.p50_ns, '\t', t5);
    split_takes_the_first(r.min_ns, '\t', t4);
    split_takes_the_first(iters, '\t', t3);
    split_takes_the_first(r.case, '\t', t2);
    split_takes_the_first(r.group, '\t', t1);
    let f = split(line, '\t');
    assert(f =~= seq![r.group, r.case, iters, r.min_ns, r.p50_ns, r.p90_ns, samples]);
    assert(row_in(line) == Some(r));
    assert(line.last() == samples.last());
    if r.group.len() > 0 {
        assert(line[0] == r.group[0]);
    } else {
        assert(line[0] == '\t');
    }
    if line == HEADER@ {
        header_is_no_row();
    }
}

/// The header would not be taken for a row even if it were not skipped.
proof fn header_is_no_row()
    ensures
        row_in(HEADER@) is None,
{
    reveal_strlit("group\tcase\titers\tmin_ns\tp50_ns\tp90_ns\tsamples");
    let h = HEADER@;
    let tail = h.subrange(17, h.len() as int);
    let group = h.subrange(0, 5);
    let case = h.subrange(6, 10);
    let iters = h.subrange(11, 16);
    let rest = h.subrange(11, h.len() as int);
    assert(rest =~= iters + seq!['\t'] + tail);
    assert(h.subrange(6, h.len() as int) =~= case + seq!['\t'] + rest);
    assert(h =~= group + seq!['\t'] + h.subrange(6, h.len() as int));
    split_takes_the_first(iters, '\t', tail);
    split_takes_the_first(case, '\t', rest);
    split_takes_the_first(group, '\t', h.subrange(6, h.len() as int));
    assert(split(h, '\t')[2] == iters);
    assert(iters[0] == 'i');
    assert(without_plus(iters) == iters);
    assert(!is_digit(iters[0]));
}

/// The lines of legible rows, read one after another, are those rows by key.
proof fn written_rows_are_read(head: Seq<char>, rows: Seq<RowView>)
    requires
        head.len() == 0 || head.last() == '\n',
        loaded(lines(head)) == Ok::<Map<Seq<char>, RowView>, nat>(Map::empty()),
        distinct(rows),
        forall|i: int| 0 <= i < rows.len() ==> is_legible(#[trigger] rows[i]),
    ensures
        loaded(lines(head + rows_text(rows))) == Ok::<Map<Seq<char>, RowView>, nat>(by_key(rows)),
        (head + rows_text(rows)).len() == 0 || (head + rows_text(rows)).last() == '\n',
    decreases rows.len(),
{
    if rows.len() == 0 {
        assert(head + rows_text(rows) =~= head);
        assert(by_key(rows) =~= Map::<Seq<char>, RowView>::empty());
    } else {
        let front = rows.drop_last();
        let last = rows.last();
        let n = rows.len() - 1;
        assert(rows.remove(n) =~= front);
        removed_row(rows, n);
        assert forall|i: int| 0 <= i < front.len() implies is_legible(#[trigger] front[i]) by {
            assert(is_legible(rows[i]));
        }
        written_rows_are_read(head, front);
        assert(is_legible(rows[n]));
        a_written_row_is_read(last);
        let s = head + rows_text(front);
        lines_take_one_more(s, row_text(last));
        assert(head + rows_text(rows) =~= s + row_text(last) + seq!['\n']);
        let file = lines(s).push(row_text(last));
        assert(file.drop_last() =~= lines(s));
        inserted_row(front, n, last);
        assert(front.insert(n, last) =~= rows);
    }
}

/// What is saved is what is loaded: the text of a file, read back, is the
/// content it was made of.
///
/// The harness and the profile are one line, and the rows are legible. A group
/// that starts with `#` is not: its rows read as comments.
pub proof fn saved_is_loaded(
    m: Map<Seq<char>, RowView>,
    rows: Seq<RowView>,
    harness: Seq<char>,
    profile: Seq<char>,
)
    requires
        lists(rows, m),
        forall|k: Seq<char>| #[trigger] m.dom().contains(k) ==> is_legible(m[k]),
        is_carried(harness),
        is_carried(profile),
    ensures
        loaded(lines(file_text(rows, harness, profile))) == Ok::<Map<Seq<char>, RowView>, nat>(m),
        listing(m) == rows,
{
    let first = comment(harness, profile);
    reveal_strlit("# benchit baseline v1  harness=");
    reveal_strlit("  profile=");
    reveal_strlit("group\tcase\titers\tmin_ns\tp50_ns\tp90_ns\tsamples");
    let a = "# benchit baseline v1  harness="@;
    let b = "  profile="@;
    assert forall|i: int| 0 <= i < first.len() implies !breaks_a_row(#[trigger] first[i]) by {
        if i < a.len() {
            assert(first[i] == a[i]);
        } else if i < a.len() + harness.len() {
            assert(first[i] == harness[i - a.len()]);
        } else if i < a.len() + harness.len() + b.len() {
            assert(first[i] == b[i - a.len() - harness.len()]);
        } else {
            assert(first[i] == profile[i - a.len() - harness.len() - b.len()]);
        }
    }
    assert forall|i: int| 0 <= i < first.len() implies first[i] != '\n' by {
        assert(!breaks_a_row(first[i]));
    }
    assert(!breaks_a_row(first[first.len() - 1]));
    assert(first[0] == '#');
    let none = Seq::<char>::empty();
    let one = first + seq!['\n'];
    lines_take_one_more(none, first);
    assert(none + first + seq!['\n'] =~= one);
    lines_take_one_more(one, HEADER@);
    let head = one + HEADER@ + seq!['\n'];
    let file = lines(head);
    assert(lines(none) =~= Seq::<Seq<char>>::empty());
    assert(file.drop_last() =~= lines(one));
    assert(lines(one).drop_last() =~= lines(none));
    assert(loaded(lines(one)) == loaded(lines(none)));
    assert(loaded(file) == loaded(lines(one)));
    assert forall|i: int| 0 <= i < rows.len() implies is_legible(#[trigger] rows[i]) by {
        by_key_finds(rows, i);
    }
    written_rows_are_read(head, rows);
    assert(file_text(rows, harness, profile) =~= head + rows_text(rows));
    listings_are_unique(rows, listing(m), m);
}

/// Merging legible rows leaves every row legible.
proof fn merged_is_legible(m: Map<Seq<char>, RowView>, rows: Seq<RowView>)
    requires
        forall|k: Seq<char>| #[trigger] m.dom().contains(k) ==> is_legible(m[k]),
        forall|i: int| 0 <= i < rows.len() ==> is_legible(#[trigger] rows[i]),
    ensures
        forall|k: Seq<char>| #[trigger]
            merged(m, rows).dom().contains(k) ==> is_legible(merged(m, rows)[k]),
    decreases rows.len(),
{
    if rows.len() > 0 {
        let front = rows.drop_last();
        assert forall|i: int| 0 <= i < front.len() implies is_legible(#[trigger] front[i]) by {
            assert(is_legible(rows[i]));
        }
        merged_is_legible(m, front);
        assert(is_legible(rows[rows.len() - 1]));
        let before = merged(m, front);
        assert forall|k: Seq<char>| #[trigger]
            merged(m, rows).dom().contains(k) implies is_legible(merged(m, rows)[k]) by {
            if k != row_key(rows.last()) {
                assert(before.dom().contains(k));
            }
        }
    }
}

/// A run saved over a baseline loads as that baseline with the measured rows in
/// place of those with their keys.
pub proof fn a_saved_run_loads_as_the_merge(
    saved: Map<Seq<char>, RowView>,
    measured: Seq<RowView>,
    harness: Seq<char>,
    profile: Seq<char>,
)
    requires
        lists(listing(merged(saved, measured)), merged(saved, measured)),
        forall|k: Seq<char>| #[trigger] saved.dom().contains(k) ==> is_legible(saved[k]),
        forall|i: int| 0 <= i < measured.len() ==> is_legible(#[trigger] measured[i]),
        is_carried(harness),
        is_carried(profile),
    ensures
        loaded(lines(file_text(listing(merged(saved, measured)), harness, profile))) == Ok::<
            Map<Seq<char>, RowView>,
            nat,
        >(merged(saved, measured)),
{
    merged_is_legible(saved, measured);
    saved_is_loaded(
        merged(saved, measured),
        listing(merged(saved, measured)),
        harness,
        profile,
    );
}

/// What was loaded can be saved: every row of a file that loads is legible.
pub proof fn loaded_is_legible(text: Seq<char>)
    ensures
        loaded(lines(text)) matches Ok(m) ==> forall|k: Seq<char>| #[trigger]
            m.dom().contains(k) ==> is_legible(m[k]),
{
    loaded_part_is_legible(text, lines(text).len() as int);
    assert(lines(text).subrange(0, lines(text).len() as int) =~= lines(text));
}

proof fn loaded_part_is_legible(text: Seq<char>, n: int)
    requires
        0 <= n <= lines(text).len(),
    ensures
        loaded(lines(text).subrange(0, n)) matches Ok(m) ==> forall|k: Seq<char>| #[trigger]
            m.dom().contains(k) ==> is_legible(m[k]),
    decreases n,
{
    let file = lines(text).subrange(0, n);
    if n > 0 {
        loaded_part_is_legible(text, n - 1);
        assert(file.drop_last() =~= lines(text).subrange(0, n - 1));
        let line = file.last();
        assert(line == lines(text)[n - 1]);
        if let Some(row) = row_in(line) {
            if !is_skipped(line) {
                lines_hold_no_ending(text);
                assert forall|i: int| 0 <= i < line.len() implies line[i] != '\n' by {
                    assert(lines(text)[n - 1][i] != '\n');
                }
                pieces_come_from_the_text(line, '\t', '\n');
                pieces_hold_no_separator(line, '\t');
                let f = split(line, '\t');
                assert forall|i: int| 0 <= i < row.group.len() implies #[trigger] row.group[i]
                    != '\t' && row.group[i] != '\n' by {
                    assert(f[0][i] != '\t' && f[0][i] != '\n');
                }
                assert forall|i: int| 0 <= i < row.case.len() implies #[trigger] row.case[i]
                    != '\t' && row.case[i] != '\n' by {
                    assert(f[1][i] != '\t' && f[1][i] != '\n');
                }
                assert(is_legible(row));
            }
        }
    }
}

/// A name is refused for three reasons only: it is empty, it leads out of the
/// directory by a separator, or it is the parent directory. Every other name, of
/// any length and in any letters, can be that of a baseline.
pub proof fn names_are_refused_for_a_reason(name: Seq<char>)
    ensures
        is_usable_name(name) <==> name.len() > 0 && !name.contains('/') && !name.contains('\\')
            && name != seq!['.', '.'],
{
    reveal_strlit("..");
    assert(".."@ =~= seq!['.', '.']);
    if is_usable_name(name) {
        if name.contains('/') {
            let i = choose|i: int| 0 <= i < name.len() && name[i] == '/';
            assert(!(name[i] != '/'));
        }
        if name.contains('\\') {
            let i = choose|i: int| 0 <= i < name.len() && name[i] == '\\';
            assert(!(name[i] != '\\'));
        }
    }
    if name.len() > 0 && !name.contains('/') && !name.contains('\\') && name != seq!['.', '.'] {
        assert forall|i: int| 0 <= i < name.len() implies #[trigger] name[i] != '/' && name[i]
            != '\\' by {
            assert(name.contains(name[i]));
        }
    }
}

/// Does a name hold a character that ends a field or a row?
pub open spec fn ends_a_field(name: Seq<char>) -> bool {
    name.contains('\t') || name.contains('\n') || name.contains('\r')
}

proof fn carried_names_end_no_field(name: Seq<char>)
    ensures
        is_carried(name) <==> !ends_a_field(name),
{
    if is_carried(name) && ends_a_field(name) {
        let i = choose|i: int|
            0 <= i < name.len() && (name[i] == '\t' || name[i] == '\n' || name[i] == '\r');
        assert(!breaks_a_row(name[i]));
    }
    if !ends_a_field(name) {
        assert forall|i: int| 0 <= i < name.len() implies !breaks_a_row(#[trigger] name[i]) by {
            assert(name.contains(name[i]));
        }
    }
}

/// A run is refused exactly where a row of it has a name that would end a field,
/// and the name that is told is one of those.
pub proof fn a_run_is_refused_for_a_name(rows: Seq<RowView>)
    ensures
        unwritable(rows) is Some <==> exists|i: int|
            0 <= i < rows.len() && (ends_a_field((#[trigger] rows[i]).group) || ends_a_field(
                rows[i].case,
            )),
        unwritable(rows) matches Some(bad) ==> ends_a_field(bad) && exists|i: int|
            0 <= i < rows.len() && ((#[trigger] rows[i]).group == bad || rows[i].case == bad),
    decreases rows.len(),
{
    if rows.len() > 0 {
        let front = rows.drop_last();
        let last = rows[rows.len() - 1];
        a_run_is_refused_for_a_name(front);
        carried_names_end_no_field(last.group);
        carried_names_end_no_field(last.case);
        assert forall|i: int| 0 <= i < front.len() implies #[trigger] rows[i] == front[i] by {}
        if unwritable(front) is Some {
            let i = choose|i: int|
                0 <= i < front.len() && (ends_a_field((#[trigger] front[i]).group)
                    || ends_a_field(front[i].case));
            assert(ends_a_field(rows[i].group) || ends_a_field(rows[i].case));
            let bad = unwritable(front)->0;
            let j = choose|j: int|
                0 <= j < front.len() && ((#[trigger] front[j]).group == bad || front[j].case
                    == bad);
            assert(rows[j].group == bad || rows[j].case == bad);
        } else if exists|i: int|
            0 <= i < rows.len() && (ends_a_field((#[trigger] rows[i]).group) || ends_a_field(
                rows[i].case,
            )) {
            let i = choose|i: int|
                0 <= i < rows.len() && (ends_a_field((#[trigger] rows[i]).group) || ends_a_field(
                    rows[i].case,
                ));
            if i < front.len() {
                assert(ends_a_field(front[i].group) || ends_a_field(front[i].case));
            }
        }
        assert(rows.last() == last);
    }
}

/// A row has seven fields, and the five behind the names are numbers: a line
/// with another number of fields, or with another text in one of these, is none.
pub proof fn a_row_has_seven_fields(line: Seq<char>)
    ensures
        ({
            let f = split(line, '\t');
            &&& row_in(line) is Some <==> f.len() == 7 && spelled_within(f[2], u64::MAX as nat) is Some
                && is_number(f[3]) && is_number(f[4]) && is_number(f[5]) && spelled_within(
                f[6],
                usize::MAX as nat,
            ) is Some
            &&& row_in(line) matches Some(row) ==> row.group == f[0] && row.case == f[1]
                && row.min_ns == f[3] && row.p50_ns == f[4] && row.p90_ns == f[5]
                && spelled_within(f[2], u64::MAX as nat) == Some(row.iters as nat)
                && spelled_within(f[6], usize::MAX as nat) == Some(row.samples as nat)
        }),
{
}

/// Is this line neither empty, nor a comment, nor the line with the names of the
/// fields?
pub open spec fn counts(line: Seq<char>) -> bool {
    line.len() > 0 && line[0] != '#' && line != HEADER@
}

/// No line is skipped in silence. A file with a line that counts and is no row
/// does not load, and the error tells the first of them. A file that loads holds
/// every row of it, the last one of each full name, and nothing else.
pub proof fn no_line_is_skipped_in_silence(file: Seq<Seq<char>>)
    ensures
        match loaded(file) {
            Err(n) => {
                &&& 0 < n <= file.len()
                &&& counts(file[n - 1])
                &&& row_in(file[n - 1]) is None
                &&& forall|k: int|
                    0 <= k < n - 1 && counts(#[trigger] file[k]) ==> row_in(file[k]) is Some
            },
            Ok(m) => {
                &&& forall|k: int|
                    0 <= k < file.len() && counts(#[trigger] file[k]) ==> row_in(file[k]) is Some
                        && m.dom().contains(row_key(row_in(file[k])->0))
                &&& forall|k: int|
                    0 <= k < file.len() && counts(#[trigger] file[k]) && (forall|j: int|
                        k < j < file.len() && counts(#[trigger] file[j]) ==> row_key(
                            row_in(file[j])->0,
                        ) != row_key(row_in(file[k])->0)) ==> m[row_key(row_in(file[k])->0)]
                        == row_in(file[k])->0
                &&& forall|name: Seq<char>| #[trigger]
                    m.dom().contains(name) ==> exists|k: int|
                        0 <= k < file.len() && counts(#[trigger] file[k]) && row_in(file[k])
                            == Some(m[name]) && row_key(m[name]) == name
            },
        },
    decreases file.len(),
{
    if file.len() > 0 {
        let front = file.drop_last();
        let last = file[file.len() - 1];
        no_line_is_skipped_in_silence(front);
        assert(file.last() == last);
        assert forall|k: int| 0 <= k < front.len() implies #[trigger] file[k] == front[k] by {}
        if let Ok(before) = loaded(front) {
            if let Ok(m) = loaded(file) {
                rows_of_a_longer_file(file, before, m);
            }
        }
    }
}

/// One line more, of a file that loads.
proof fn rows_of_a_longer_file(
    file: Seq<Seq<char>>,
    before: Map<Seq<char>, RowView>,
    m: Map<Seq<char>, RowView>,
)
    requires
        file.len() > 0,
        loaded(file.drop_last()) == Ok::<Map<Seq<char>, RowView>, nat>(before),
        loaded(file) == Ok::<Map<Seq<char>, RowView>, nat>(m),
        ({
            let front = file.drop_last();
            &&& forall|k: int|
                0 <= k < front.len() && counts(#[trigger] front[k]) ==> row_in(front[k]) is Some
                    && before.dom().contains(row_key(row_in(front[k])->0))
            &&& forall|k: int|
                0 <= k < front.len() && counts(#[trigger] front[k]) && (forall|j: int|
                    k < j < front.len() && counts(#[trigger] front[j]) ==> row_key(
                        row_in(front[j])->0,
                    ) != row_key(row_in(front[k])->0)) ==> before[row_key(row_in(front[k])->0)]
                    == row_in(front[k])->0
            &&& forall|name: Seq<char>| #[trigger]
                before.dom().contains(name) ==> exists|k: int|
                    0 <= k < front.len() && counts(#[trigger] front[k]) && row_in(front[k])
                        == Some(before[name]) && row_key(before[name]) == name
        }),
    ensures
        forall|k: int|
            0 <= k < file.len() && counts(#[trigger] file[k]) ==> row_in(file[k]) is Some
                && m.dom().contains(row_key(row_in(file[k])->0)),
        forall|k: int|
            0 <= k < file.len() && counts(#[trigger] file[k]) && (forall|j: int|
                k < j < file.len() && counts(#[trigger] file[j]) ==> row_key(row_in(file[j])->0)
                    != row_key(row_in(file[k])->0)) ==> m[row_key(row_in(file[k])->0)] == row_in(
                file[k],
            )->0,
        forall|name: Seq<char>| #[trigger]
            m.dom().contains(name) ==> exists|k: int|
                0 <= k < file.len() && counts(#[trigger] file[k]) && row_in(file[k]) == Some(
                    m[name],
                ) && row_key(m[name]) == name,
{
    let front = file.drop_last();
    let last = file[file.len() - 1];
    assert(file.last() == last);
    assert forall|k: int| 0 <= k < front.len() implies #[trigger] file[k] == front[k] by {}
    assert forall|k: int|
        0 <= k < file.len() && counts(#[trigger] file[k]) && (forall|j: int|
            k < j < file.len() && counts(#[trigger] file[j]) ==> row_key(row_in(file[j])->0)
                != row_key(row_in(file[k])->0)) implies m[row_key(row_in(file[k])->0)] == row_in(
        file[k],
    )->0 by {
        if k < front.len() {
            assert(counts(front[k]));
            assert forall|j: int| k < j < front.len() && counts(#[trigger] front[j]) implies row_key(
                row_in(front[j])->0,
            ) != row_key(row_in(front[k])->0) by {
                assert(counts(file[j]));
            }
            assert(counts(last) ==> row_key(row_in(last)->0) != row_key(row_in(file[k])->0));
        }
    }
    assert forall|name: Seq<char>| #[trigger] m.dom().contains(name) implies exists|k: int|
        0 <= k < file.len() && counts(#[trigger] file[k]) && row_in(file[k]) == Some(m[name])
            && row_key(m[name]) == name by {
        if counts(last) && row_key(row_in(last)->0) == name {
            assert(counts(file[file.len() - 1]));
        } else {
            assert(before.dom().contains(name));
            let k = choose|k: int|
                0 <= k < front.len() && counts(#[trigger] front[k]) && row_in(front[k]) == Some(
                    before[name],
                ) && row_key(before[name]) == name;
            assert(counts(file[k]));
        }
    }
}

/// Texts are in the order of their first difference, a text before every longer
/// one that starts with it.
pub proof fn texts_are_ordered_by_their_first_difference(
    common: Seq<char>,
    x: char,
    a: Seq<char>,
    y: char,
    b: Seq<char>,
)
    ensures
        x < y ==> text_less(common + seq![x] + a, common + seq![y] + b) && !text_less(
            common + seq![y] + b,
            common + seq![x] + a,
        ),
        text_less(common, common + seq![x] + a) && !text_less(common + seq![x] + a, common),
        !text_less(common, common),
{
    let (s, t) = (common + seq![x] + a, common + seq![y] + b);
    let n = common.len() as int;
    assert(s.subrange(0, n) =~= common && t.subrange(0, n) =~= common);
    assert(common.subrange(0, n) =~= common);
    assert(s[n] == x && t[n] == y);
    if x < y {
        assert(parts_below(s, t, n));
        only_one_is_less(s, t);
    }
    assert(parts_below(common, s, n));
    only_one_is_less(common, s);
    if text_less(common, common) {
        only_one_is_less(common, common);
    }
}

proof fn only_one_is_less(a: Seq<char>, b: Seq<char>)
    requires
        text_less(a, b),
    ensures
        !text_less(b, a),
{
    if text_less(b, a) {
        text_less_transitive(a, b, a);
        text_less_irreflexive(a, a);
    }
}

} // verus!
