//! Result types and the two reporters.
//!
//! A reporter lays out text. The numbers in it come to it as texts, and what it
//! has laid out waits in it until it is taken.

use vstd::prelude::*;

use crate::baseline::{Row, RowView};
use crate::cli::{Config, ConfigView};
use crate::group::Throughput;
use crate::number::{decimal, decimal_spells, decimal_text, is_digit, push_decimal};
use crate::stats::{Ratio, Stats};
use crate::text::{
    join_tabs, joined, joined_comes_apart, pad_left, pad_right, padding_adds_spaces_only,
    push_left_aligned,
    push_right_aligned, push_spaces, spaces, split, texts, trim_end, trimmed_end,
};

verus! {

/// What a baseline had recorded for a case, as texts.
#[derive(Debug, Clone, PartialEq, Eq)]
pub struct SavedStats {
    pub min_ns: String,
    pub p50_ns: String,
    pub p90_ns: String,
}

/// One measured case.
#[derive(Debug, Clone, PartialEq, Eq)]
pub struct CaseResult {
    /// The case name, without the group prefix.
    pub name: String,
    /// Iterations per sample, as calibrated.
    pub iters: u64,
    /// Nanoseconds per batch, one entry per sample, in round order.
    ///
    /// Round order is load-bearing: index `i` here was measured in the same
    /// round as index `i` of every other case in the group.
    pub samples: Vec<u128>,
    /// Order statistics over the samples.
    pub stats: Stats,
    /// The group's reference case: the first one that passed the filter. False
    /// on every case of a group that has none.
    pub is_reference: bool,
    /// This case's cost relative to the reference case, batch against batch.
    ///
    /// `None` for the reference case, for a case whose ratio could not be
    /// computed because the reference measured as zero, and for every case of a
    /// group without a reference.
    pub ratio: Option<Ratio>,
    /// Iterations per sample of the group's first case, which the batches of a
    /// ratio are compared with.
    pub reference_iters: u64,
    /// What the loaded baseline had recorded for this case, if anything.
    pub baseline: Option<SavedStats>,
    /// What this case declared it processes per iteration.
    pub throughput: Option<Throughput>,
}

/// A rate, taken apart: `amount` items in each of `iters` iterations, which took
/// `nanos` nanoseconds together.
#[derive(Debug, Clone, Copy, PartialEq, Eq)]
pub struct Rate {
    pub amount: u64,
    pub iters: u64,
    pub nanos: u128,
}

impl Rate {
    /// Items per nanosecond.
    pub open spec fn per_nanosecond(self) -> real {
        (self.amount as real) * (self.iters as real) / (self.nanos as real)
    }
}

/// The texts of a case's numbers, in the format of a report. A text that stands
/// for a number the case does not have is not used.
#[derive(Debug, Clone, PartialEq, Eq)]
pub struct CaseNumbers {
    pub min: String,
    pub p50: String,
    pub p90: String,
    /// The rate, with its unit in aligned text.
    pub rate: String,
    /// The ratio, and the two ends of its band.
    pub point: String,
    pub low: String,
    pub high: String,
    /// The change against the baseline, where there is one to report.
    pub delta: Option<String>,
    /// The minimum of the baseline.
    pub baseline_min: String,
}

impl CaseResult {
    /// Does this case have a rate: did it declare an amount, and measure as more
    /// than nothing?
    pub open spec fn has_rate(&self) -> bool {
        self.throughput is Some && self.stats.min > 0
    }

    /// Items per unit of time, if this case declared a throughput. Computed
    /// from the minimum, matching the printed column.
    pub fn rate(&self) -> (r: Option<Rate>)
        ensures
            r is Some <==> self.has_rate(),
            r matches Some(rate) ==> {
                &&& rate.amount == self.throughput->0.count()
                &&& rate.iters == self.iters
                &&& rate.nanos == self.stats.min
            },
    {
        match self.throughput {
            Some(t) => if self.stats.min > 0 {
                Some(Rate { amount: t.amount(), iters: self.iters, nanos: self.stats.min })
            } else {
                None
            },
            None => None,
        }
    }

    /// The row to save for this case.
    pub fn to_row(&self, group: &str, numbers: &CaseNumbers) -> (r: Row)
        ensures
            r@ == (RowView {
                group: group@,
                case: self.name@,
                iters: self.iters,
                min_ns: numbers.min@,
                p50_ns: numbers.p50@,
                p90_ns: numbers.p90@,
                samples: self.samples@.len() as usize,
            }),
    {
        Row {
            group: group.to_owned(),
            case: self.name.clone(),
            iters: self.iters,
            min_ns: numbers.min.clone(),
            p50_ns: numbers.p50.clone(),
            p90_ns: numbers.p90.clone(),
            samples: self.samples.len(),
        }
    }
}

/// A rate times the time one iteration took is the amount it declared.
pub proof fn rate_times_time_is_the_amount(rate: Rate)
    requires
        rate.iters > 0,
        rate.nanos > 0,
    ensures
        rate.per_nanosecond() * ((rate.nanos as real) / (rate.iters as real)) == rate.amount as real,
{
    let (a, i, n) = (rate.amount as real, rate.iters as real, rate.nanos as real);
    assert((a * i / n) * (n / i) == a) by (nonlinear_arith)
        requires
            i > 0 as real,
            n > 0 as real,
    ;
}

/// One measured group.
#[derive(Debug, Clone, PartialEq, Eq)]
pub struct GroupResult {
    /// The group name, which prefixes every case's full name.
    pub name: String,
    /// The measured cases, in registration order. Empty if the group did not
    /// run.
    pub cases: Vec<CaseResult>,
    /// The amount for the text header, set only when every case agrees.
    pub throughput: Option<Throughput>,
    /// The cases of this group are not compared with each other.
    pub no_reference: bool,
}

// ---------------------------------------------------------------------------
// Amounts
// ---------------------------------------------------------------------------

/// How often `n` can be divided by `base` and stay at least one, up to `most`
/// times.
pub open spec fn steps(n: nat, base: nat, most: nat) -> nat
    decreases most,
{
    if n < base || most == 0 {
        0
    } else {
        1 + steps(n / base, base, (most - 1) as nat)
    }
}

/// The unit of a byte count after `i` divisions by 1024.
pub open spec fn byte_unit_text(i: nat) -> Seq<char> {
    if i == 0 {
        "B"@
    } else if i == 1 {
        "KiB"@
    } else if i == 2 {
        "MiB"@
    } else if i == 3 {
        "GiB"@
    } else {
        "TiB"@
    }
}

/// The unit of an element count after `i` divisions by 1000.
pub open spec fn element_unit_text(i: nat) -> Seq<char> {
    if i == 0 {
        "elem"@
    } else if i == 1 {
        "Kelem"@
    } else if i == 2 {
        "Melem"@
    } else if i == 3 {
        "Gelem"@
    } else {
        "Telem"@
    }
}

/// The largest number of divisions that there is a unit for.
pub const LARGEST_UNIT: usize = 4;

/// The unit of a byte count after `i` divisions by 1024.
pub fn byte_unit(i: usize) -> (r: &'static str)
    ensures
        r@ == byte_unit_text(i as nat),
{
    match i {
        0 => "B",
        1 => "KiB",
        2 => "MiB",
        3 => "GiB",
        _ => "TiB",
    }
}

/// The unit of an element count after `i` divisions by 1000.
pub fn element_unit(i: usize) -> (r: &'static str)
    ensures
        r@ == element_unit_text(i as nat),
{
    match i {
        0 => "elem",
        1 => "Kelem",
        2 => "Melem",
        3 => "Gelem",
        _ => "Telem",
    }
}

/// How often `n` is divided by `base`.
fn divisions(n: u64, base: u64, most: usize) -> (r: usize)
    requires
        base > 1,
    ensures
        r == steps(n as nat, base as nat, most as nat),
        r <= most,
    decreases most,
{
    if n < base || most == 0 {
        0
    } else {
        1 + divisions(n / base, base, most - 1)
    }
}

/// How often a declared amount is divided, by 1024 for bytes and by 1000 for
/// elements, until it is below that or the units run out.
pub open spec fn amount_steps_of(t: Throughput) -> nat {
    match t {
        Throughput::Bytes(n) => steps(n as nat, 1024, 4),
        Throughput::Elements(n) => steps(n as nat, 1000, 4),
    }
}

/// How often a declared amount is divided before it is printed. Where that is
/// zero times, the amount is printed as the exact count it is.
pub fn amount_steps(t: Throughput) -> (r: usize)
    ensures
        r == amount_steps_of(t),
        r == 0 <==> match t {
            Throughput::Bytes(n) => n < 1024,
            Throughput::Elements(n) => n < 1000,
        },
{
    match t {
        Throughput::Bytes(n) => divisions(n, 1024, LARGEST_UNIT),
        Throughput::Elements(n) => divisions(n, 1000, LARGEST_UNIT),
    }
}

/// The amount a group declared, for its header line. Exact counts, so small
/// ones print as integers; `scaled` is the text of the divided amount.
pub open spec fn amount_text(t: Throughput, scaled: Seq<char>) -> Seq<char> {
    let count = if amount_steps_of(t) == 0 {
        decimal(t.count() as nat)
    } else {
        scaled
    };
    match t {
        Throughput::Bytes(_) => count + " "@ + byte_unit_text(amount_steps_of(t)),
        Throughput::Elements(_) => count + " "@ + element_unit_text(amount_steps_of(t)),
    }
}

/// The amount a group declared, for its header line; `scaled` is the text of the
/// amount after [`amount_steps`] divisions, and not used where there are none.
pub fn amount(t: Throughput, scaled: &str) -> (r: String)
    ensures
        r@ == amount_text(t, scaled@),
{
    let n = amount_steps(t);
    let mut r = String::new();
    if n == 0 {
        push_decimal(&mut r, t.amount());
    } else {
        r.append(scaled);
    }
    r.append(" ");
    match t {
        Throughput::Bytes(_) => r.append(byte_unit(n)),
        Throughput::Elements(_) => r.append(element_unit(n)),
    }
    assert(r@ =~= amount_text(t, scaled@));
    r
}

/// How many decimals a number gets whose integer part has `int_digits` digits
/// (zero or fewer below one), so that it shows `digits` significant figures.
/// Never fewer digits than the integer part needs.
pub fn decimals(int_digits: i32, digits: u32) -> (r: u64)
    ensures
        r == if int_digits > digits {
            0
        } else {
            digits - int_digits
        },
{
    let d = (digits as i64) - (int_digits as i64);
    if d < 0 {
        0
    } else {
        d as u64
    }
}

/// Rounding can carry into another integer digit, which takes a decimal away:
/// the decimals of the number as it was, or of the rounded one where those are
/// fewer.
pub fn settled_decimals(given: u64, carried: u64) -> (r: u64)
    ensures
        r == if carried < given {
            carried
        } else {
            given
        },
{
    if carried < given {
        carried
    } else {
        given
    }
}

// ---------------------------------------------------------------------------
// Text
// ---------------------------------------------------------------------------

/// One case's cells, pre-formatted so the widths can be measured.
#[derive(Debug, Clone, PartialEq, Eq)]
pub struct Cells {
    pub name: String,
    pub min: String,
    pub p50: String,
    pub p90: String,
    pub rate: String,
    pub ratio: String,
    pub band: String,
    pub delta: String,
}

/// [`Cells`] as sequences of characters.
pub struct CellsView {
    pub name: Seq<char>,
    pub min: Seq<char>,
    pub p50: Seq<char>,
    pub p90: Seq<char>,
    pub rate: Seq<char>,
    pub ratio: Seq<char>,
    pub band: Seq<char>,
    pub delta: Seq<char>,
}

impl View for Cells {
    type V = CellsView;

    open spec fn view(&self) -> CellsView {
        CellsView {
            name: self.name@,
            min: self.min@,
            p50: self.p50@,
            p90: self.p90@,
            rate: self.rate@,
            ratio: self.ratio@,
            band: self.band@,
            delta: self.delta@,
        }
    }
}

/// The cells of a list.
pub open spec fn cells_of(v: Seq<Cells>) -> Seq<CellsView> {
    v.map_values(|c: Cells| c@)
}

/// The ratio cell: the ratio, `1.00x` for the reference itself, a dash for a
/// ratio that there is none of, and nothing at all in a group that has no
/// reference.
pub open spec fn ratio_cell(c: CaseResult, n: CaseNumbers, no_reference: bool) -> Seq<char> {
    if no_reference {
        Seq::empty()
    } else if c.ratio is Some {
        n.point@ + "x"@
    } else if c.is_reference {
        "1.00x"@
    } else {
        "-"@
    }
}

/// The band cell: the interquartile range, where it was measured.
pub open spec fn band_cell(c: CaseResult, n: CaseNumbers) -> Seq<char> {
    if c.ratio is Some && c.ratio->0.iqr is Some {
        "["@ + n.low@ + " .. "@ + n.high@ + "]"@
    } else {
        Seq::empty()
    }
}

/// The cells of a case.
pub open spec fn case_cells(c: CaseResult, n: CaseNumbers, no_reference: bool) -> CellsView {
    CellsView {
        name: c.name@,
        min: n.min@,
        p50: n.p50@,
        p90: n.p90@,
        rate: if c.has_rate() {
            n.rate@
        } else {
            Seq::empty()
        },
        ratio: ratio_cell(c, n, no_reference),
        band: band_cell(c, n),
        delta: match n.delta {
            Some(d) => shown(c.baseline is Some, d@),
            None => Seq::empty(),
        },
    }
}

impl Cells {
    /// The cells of a case, given the texts of its numbers.
    pub fn new(c: &CaseResult, n: &CaseNumbers, no_reference: bool) -> (r: Self)
        ensures
            r@ == case_cells(*c, *n, no_reference),
    {
        let mut ratio = String::new();
        if !no_reference {
            match c.ratio {
                Some(_) => {
                    ratio.append(&n.point);
                    ratio.append("x");
                },
                None => {
                    if c.is_reference {
                        ratio.append("1.00x");
                    } else {
                        // The reference measured as zero, so there is no ratio
                        // to report. Saying "1.00x" here would be a lie.
                        ratio.append("-");
                    }
                },
            }
        }
        assert(ratio@ =~= ratio_cell(*c, *n, no_reference));
        let mut band = String::new();
        if let Some(r) = c.ratio {
            if r.iqr.is_some() {
                band.append("[");
                band.append(&n.low);
                band.append(" .. ");
                band.append(&n.high);
                band.append("]");
            }
        }
        assert(band@ =~= band_cell(*c, *n));
        let rate = if c.rate().is_some() {
            n.rate.clone()
        } else {
            String::new()
        };
        let delta = match &n.delta {
            Some(d) => if_shown(c.baseline.is_some(), d),
            None => String::new(),
        };
        Cells {
            name: c.name.clone(),
            min: n.min.clone(),
            p50: n.p50.clone(),
            p90: n.p90.clone(),
            rate,
            ratio,
            band,
            delta,
        }
    }
}

/// The width of each column; a column of width zero is not printed.
#[derive(Debug, Clone, Copy, PartialEq, Eq)]
pub struct Widths {
    pub name: usize,
    pub min: usize,
    pub p50: usize,
    pub p90: usize,
    pub rate: usize,
    pub ratio: usize,
    pub band: usize,
    pub delta: usize,
}

/// Are these the widths of the columns: of each the length of its longest cell?
/// A group with one case has nothing to compare against, so it has no ratio
/// column at all.
pub open spec fn fits(w: Widths, cells: Seq<CellsView>) -> bool {
    &&& w.name == longest(cells, |c: CellsView| c.name)
    &&& w.min == longest(cells, |c: CellsView| c.min)
    &&& w.p50 == longest(cells, |c: CellsView| c.p50)
    &&& w.p90 == longest(cells, |c: CellsView| c.p90)
    &&& w.rate == longest(cells, |c: CellsView| c.rate)
    &&& w.ratio == if cells.len() > 1 {
        longest(cells, |c: CellsView| c.ratio)
    } else {
        0
    }
    &&& w.band == longest(cells, |c: CellsView| c.band)
    &&& w.delta == longest(cells, |c: CellsView| c.delta)
}

/// The length of the longest cell in a column.
pub open spec fn longest(cells: Seq<CellsView>, column: spec_fn(CellsView) -> Seq<char>) -> nat
    decreases cells.len(),
{
    if cells.len() == 0 {
        0
    } else {
        let others = longest(cells.drop_last(), column);
        if others < column(cells.last()).len() {
            column(cells.last()).len()
        } else {
            others
        }
    }
}

/// No cell is longer than the longest, and one is as long.
pub proof fn longest_is_longest(
    cells: Seq<CellsView>,
    column: spec_fn(CellsView) -> Seq<char>,
    i: int,
)
    requires
        0 <= i < cells.len(),
    ensures
        column(cells[i]).len() <= longest(cells, column),
        exists|j: int|
            0 <= j < cells.len() && column(#[trigger] cells[j]).len() == longest(cells, column),
    decreases cells.len(),
{
    reveal_with_fuel(longest, 2);
    let front = cells.drop_last();
    if front.len() > 0 {
        let k = if i < front.len() {
            i
        } else {
            0
        };
        longest_is_longest(front, column, k);
        let j = choose|j: int|
            0 <= j < front.len() && column(#[trigger] front[j]).len() == longest(front, column);
        assert(cells[j] == front[j]);
    }
    let last = cells[cells.len() - 1];
    if longest(front, column) < column(last).len() || front.len() == 0 {
        assert(column(last).len() == longest(cells, column));
    }
}

/// The larger of two widths.
fn larger(a: usize, b: usize) -> (r: usize)
    ensures
        r == if a < b {
            b
        } else {
            a
        },
{
    if a < b {
        b
    } else {
        a
    }
}

impl Widths {
    /// The widths that fit the cells.
    pub fn of(cells: &Vec<Cells>) -> (w: Self)
        ensures
            fits(w, cells_of(cells@)),
    {
        let mut w = Widths {
            name: 0,
            min: 0,
            p50: 0,
            p90: 0,
            rate: 0,
            ratio: 0,
            band: 0,
            delta: 0,
        };
        let ghost all = cells_of(cells@);
        let n = cells.len();
        let mut i: usize = 0;
        assert(all.subrange(0, 0) =~= Seq::<CellsView>::empty());
        while i < n
            invariant
                n == cells@.len(),
                all == cells_of(cells@),
                i <= n,
                w.name == longest(all.subrange(0, i as int), |c: CellsView| c.name),
                w.min == longest(all.subrange(0, i as int), |c: CellsView| c.min),
                w.p50 == longest(all.subrange(0, i as int), |c: CellsView| c.p50),
                w.p90 == longest(all.subrange(0, i as int), |c: CellsView| c.p90),
                w.rate == longest(all.subrange(0, i as int), |c: CellsView| c.rate),
                w.ratio == longest(all.subrange(0, i as int), |c: CellsView| c.ratio),
                w.band == longest(all.subrange(0, i as int), |c: CellsView| c.band),
                w.delta == longest(all.subrange(0, i as int), |c: CellsView| c.delta),
            decreases n - i,
        {
            let c = &cells[i];
            proof {
                assert(all.subrange(0, i + 1).drop_last() =~= all.subrange(0, i as int));
                assert(all.subrange(0, i + 1).last() == c@);
            }
            w.name = larger(w.name, c.name.unicode_len());
            w.min = larger(w.min, c.min.unicode_len());
            w.p50 = larger(w.p50, c.p50.unicode_len());
            w.p90 = larger(w.p90, c.p90.unicode_len());
            w.rate = larger(w.rate, c.rate.unicode_len());
            w.ratio = larger(w.ratio, c.ratio.unicode_len());
            w.band = larger(w.band, c.band.unicode_len());
            w.delta = larger(w.delta, c.delta.unicode_len());
            i += 1;
        }
        assert(all.subrange(0, n as int) =~= all);
        if n <= 1 {
            w.ratio = 0;
        }
        w
    }
}

/// A case's line before the white space at its end is taken off. Every column
/// is padded even when its cell is empty, so that a case without a band does
/// not shift the columns after it.
pub open spec fn padded_line(c: CellsView, w: Widths) -> Seq<char> {
    "  "@ + pad_right(c.name, w.name as nat) + "  "@ + pad_left(c.min, w.min as nat) + "   p50 "@
        + pad_left(c.p50, w.p50 as nat) + "   p90 "@ + pad_left(c.p90, w.p90 as nat) + column(
        "   "@,
        pad_left(c.rate, w.rate as nat),
        w.rate as nat,
    ) + column("   "@, pad_left(c.ratio, w.ratio as nat), w.ratio as nat) + column(
        "  "@,
        pad_right(c.band, w.band as nat),
        w.band as nat,
    ) + column("  base "@, pad_left(c.delta, w.delta as nat), w.delta as nat)
}

/// A column that is printed only where it has a width.
pub open spec fn column(gap: Seq<char>, cell: Seq<char>, width: nat) -> Seq<char> {
    if width > 0 {
        gap + cell
    } else {
        Seq::empty()
    }
}

/// The space between a group's name and its amount: enough to put the amount
/// right-aligned over the min column, and two at least.
pub open spec fn head_gap(name: nat, amount: nat, w: Widths) -> nat {
    let room = 2 + w.name + 2 + w.min - (name + amount);
    if room < 2 {
        2
    } else {
        room as nat
    }
}

/// A group's first line: its name, and the amount that every case declared.
pub open spec fn head_line(name: Seq<char>, amount: Option<Seq<char>>, w: Widths) -> Seq<char> {
    match amount {
        Some(a) => name + spaces(head_gap(name.len(), a.len(), w)) + a,
        None => name,
    }
}

/// The lines of the cases.
pub open spec fn case_lines(cells: Seq<CellsView>, w: Widths) -> Seq<char>
    decreases cells.len(),
{
    if cells.len() == 0 {
        Seq::empty()
    } else {
        case_lines(cells.drop_last(), w) + trim_end(padded_line(cells.last(), w)) + "\n"@
    }
}

/// The cells of a group's cases.
pub open spec fn group_cells(g: GroupResult, numbers: Seq<CaseNumbers>) -> Seq<CellsView> {
    Seq::new(
        g.cases@.len(),
        |i: int| case_cells(g.cases@[i], numbers[i], g.no_reference),
    )
}

/// The amount in a group's first line.
pub open spec fn group_amount(g: GroupResult, scaled: Seq<char>) -> Option<Seq<char>> {
    match g.throughput {
        Some(t) => Some(amount_text(t, scaled)),
        None => None,
    }
}

/// A group as aligned text: its first line, a line per case, and an empty line.
pub open spec fn group_text(
    g: GroupResult,
    numbers: Seq<CaseNumbers>,
    scaled: Seq<char>,
    w: Widths,
) -> Seq<char> {
    head_line(g.name@, group_amount(g, scaled), w) + "\n"@ + case_lines(
        group_cells(g, numbers),
        w,
    ) + "\n"@
}

/// The schedule in words.
pub open spec fn schedule_words(c: ConfigView) -> Seq<char> {
    if !c.interleave {
        "sequential"@
    } else if c.block == 1 {
        "interleaved"@
    } else {
        "interleaved, "@ + decimal(c.block as nat) + " per visit"@
    }
}

/// The lines above the first group: what the clock costs, and what was asked
/// for.
pub open spec fn text_header(c: ConfigView, timer: Seq<char>, floor: Seq<char>) -> Seq<char> {
    "benchit: timer "@ + timer + "/call, iter_with floor "@ + floor + "/iter\n         up to "@
        + decimal(c.samples as nat) + " sample"@ + (if c.samples == 1 {
        ""@
    } else {
        "s"@
    }) + " in "@ + decimal(c.time_ms as nat) + " ms per case, "@ + schedule_words(c) + "\n\n"@
}

/// Put a right-aligned column behind `out`, where it has a width.
fn push_column(out: &mut String, gap: &str, cell: &str, width: usize)
    ensures
        final(out)@ == old(out)@ + column(
            gap@,
            pad_left(cell@, width as nat),
            width as nat,
        ),
{
    if width > 0 {
        out.append(gap);
        push_right_aligned(out, cell, width);
    }
    assert(out@ =~= old(out)@ + column(gap@, pad_left(cell@, width as nat), width as nat));
}

/// Put a left-aligned column behind `out`, where it has a width.
fn push_left_column(out: &mut String, gap: &str, cell: &str, width: usize)
    ensures
        final(out)@ == old(out)@ + column(
            gap@,
            pad_right(cell@, width as nat),
            width as nat,
        ),
{
    if width > 0 {
        out.append(gap);
        push_left_aligned(out, cell, width);
    }
    assert(out@ =~= old(out)@ + column(gap@, pad_right(cell@, width as nat), width as nat));
}

/// Put a case's line behind `out`, without the white space at its end.
fn push_case_line(out: &mut String, c: &Cells, w: Widths)
    ensures
        final(out)@ == old(out)@ + trim_end(padded_line(c@, w)) + "\n"@,
{
    let mut line = "  ".to_owned();
    push_left_aligned(&mut line, &c.name, w.name);
    line.append("  ");
    push_right_aligned(&mut line, &c.min, w.min);
    line.append("   p50 ");
    push_right_aligned(&mut line, &c.p50, w.p50);
    line.append("   p90 ");
    push_right_aligned(&mut line, &c.p90, w.p90);
    push_column(&mut line, "   ", &c.rate, w.rate);
    push_column(&mut line, "   ", &c.ratio, w.ratio);
    push_left_column(&mut line, "  ", &c.band, w.band);
    push_column(&mut line, "  base ", &c.delta, w.delta);
    assert(line@ == padded_line(c@, w));
    out.append(&trimmed_end(&line));
    out.append("\n");
    assert(out@ =~= old(out)@ + trim_end(padded_line(c@, w)) + "\n"@);
}

/// Put a group's first line behind `out`.
fn push_head(out: &mut String, name: &str, amount: Option<&str>, w: Widths)
    ensures
        final(out)@ == old(out)@ + head_line(
            name@,
            match amount {
                Some(a) => Some(a@),
                None => None,
            },
            w,
        ) + "\n"@,
{
    out.append(name);
    if let Some(a) = amount {
        let room: u128 = 2 + (w.name as u128) + 2 + (w.min as u128);
        let used: u128 = (name.unicode_len() as u128) + (a.unicode_len() as u128);
        let gap: u128 = if room < used + 2 {
            2
        } else {
            room - used
        };
        push_spaces(out, gap);
        out.append(a);
    }
    out.append("\n");
    assert(out@ =~= old(out)@ + head_line(
        name@,
        match amount {
            Some(a) => Some(a@),
            None => None,
        },
        w,
    ) + "\n"@);
}

/// The cells of a group's cases, in order.
fn cell_list(g: &GroupResult, numbers: &Vec<CaseNumbers>) -> (r: Vec<Cells>)
    requires
        numbers@.len() == g.cases@.len(),
    ensures
        cells_of(r@) == group_cells(*g, numbers@),
{
    let mut r: Vec<Cells> = Vec::new();
    let n = g.cases.len();
    let mut i: usize = 0;
    while i < n
        invariant
            n == g.cases@.len(),
            numbers@.len() == n,
            i <= n,
            r@.len() == i,
            forall|j: int|
                0 <= j < i ==> (#[trigger] r@[j])@ == case_cells(
                    g.cases@[j],
                    numbers@[j],
                    g.no_reference,
                ),
        decreases n - i,
    {
        r.push(Cells::new(&g.cases[i], &numbers[i], g.no_reference));
        i += 1;
    }
    assert(cells_of(r@) =~= group_cells(*g, numbers@));
    r
}

/// Aligned text.
#[derive(Debug, Clone, PartialEq, Eq)]
pub struct TextReporter {
    /// What has been laid out and not yet taken.
    pub out: String,
}

impl TextReporter {
    /// Nothing laid out.
    pub fn new() -> (r: Self)
        ensures
            r.out@ == Seq::<char>::empty(),
    {
        TextReporter { out: String::new() }
    }

    /// Lay out the lines above the first group. `timer` and `floor` are the
    /// texts of what the clock costs.
    pub fn header(&mut self, config: &Config, timer: &str, floor: &str)
        ensures
            final(self).out@ == old(self).out@ + text_header(config@, timer@, floor@),
    {
        let mut t = String::new();
        t.append("benchit: timer ");
        t.append(timer);
        t.append("/call, iter_with floor ");
        t.append(floor);
        t.append("/iter\n         up to ");
        push_decimal(&mut t, config.samples as u64);
        t.append(" sample");
        if config.samples == 1 {
            t.append("");
        } else {
            t.append("s");
        }
        t.append(" in ");
        push_decimal(&mut t, config.time_ms);
        t.append(" ms per case, ");
        if !config.interleave {
            t.append("sequential");
        } else if config.block == 1 {
            t.append("interleaved");
        } else {
            t.append("interleaved, ");
            push_decimal(&mut t, config.block as u64);
            t.append(" per visit");
        }
        t.append("\n\n");
        assert(t@ =~= text_header(config@, timer@, floor@));
        self.out.append(&t);
    }

    /// Lay out a group. `numbers` are the texts of its cases' numbers, and
    /// `scaled` that of its amount after division.
    pub fn group(&mut self, g: &GroupResult, numbers: &Vec<CaseNumbers>, scaled: &str)
        requires
            numbers@.len() == g.cases@.len(),
        ensures
            exists|w: Widths|
                fits(w, group_cells(*g, numbers@)) && final(self).out@ == old(self).out@
                    + group_text(*g, numbers@, scaled@, w),
    {
        let cells = cell_list(g, numbers);
        let w = Widths::of(&cells);
        let ghost all = cells_of(cells@);
        let mut t = String::new();
        match g.throughput {
            Some(declared) => {
                let a = amount(declared, scaled);
                push_head(&mut t, &g.name, Some(&a), w);
            },
            None => push_head(&mut t, &g.name, None, w),
        }
        let ghost head = t@;
        let n = cells.len();
        let mut i: usize = 0;
        proof {
            assert(head =~= head_line(g.name@, group_amount(*g, scaled@), w) + "\n"@);
            assert(all.subrange(0, 0) =~= Seq::<CellsView>::empty());
            assert(t@ =~= head + case_lines(all.subrange(0, 0), w));
        }
        while i < n
            invariant
                n == cells@.len(),
                all == cells_of(cells@),
                i <= n,
                t@ == head + case_lines(all.subrange(0, i as int), w),
            decreases n - i,
        {
            proof {
                assert(all.subrange(0, i + 1).drop_last() =~= all.subrange(0, i as int));
                assert(all.subrange(0, i + 1).last() == cells@[i as int]@);
            }
            push_case_line(&mut t, &cells[i], w);
            assert(t@ =~= head + case_lines(all.subrange(0, i + 1), w));
            i += 1;
        }
        t.append("\n");
        proof {
            assert(all.subrange(0, n as int) =~= all);
            assert(t@ =~= group_text(*g, numbers@, scaled@, w));
        }
        self.out.append(&t);
    }

    /// Take what has been laid out.
    pub fn take(&mut self) -> (r: String)
        ensures
            r@ == old(self).out@,
            final(self).out@ == Seq::<char>::empty(),
    {
        let mut r = String::new();
        std::mem::swap(&mut r, &mut self.out);
        r
    }
}

/// How long a printed column is, its gap included.
pub open spec fn column_width(gap: Seq<char>, width: nat) -> nat {
    if width > 0 {
        gap.len() + width
    } else {
        0
    }
}

/// How long the lines of a group are before the white space at their ends is
/// taken off.
pub open spec fn line_width(w: Widths) -> nat {
    "  "@.len() + w.name as nat + "  "@.len() + w.min as nat + "   p50 "@.len() + w.p50 as nat
        + "   p90 "@.len() + w.p90 as nat + column_width("   "@, w.rate as nat) + column_width(
        "   "@,
        w.ratio as nat,
    ) + column_width("  "@, w.band as nat) + column_width("  base "@, w.delta as nat)
}

/// A cell that fits is padded to the width of its column.
proof fn padded_to_width(cell: Seq<char>, width: nat)
    requires
        cell.len() <= width,
    ensures
        pad_left(cell, width).len() == width,
        pad_right(cell, width).len() == width,
{
}

/// Do the cells fit into the columns that are printed?
pub open spec fn within(c: CellsView, w: Widths) -> bool {
    &&& c.name.len() <= w.name
    &&& c.min.len() <= w.min
    &&& c.p50.len() <= w.p50
    &&& c.p90.len() <= w.p90
    &&& c.rate.len() <= w.rate
    &&& c.ratio.len() <= w.ratio || w.ratio == 0
    &&& c.band.len() <= w.band
    &&& c.delta.len() <= w.delta
}

/// Widths that fit hold the cells of every case.
proof fn every_case_is_within(cells: Seq<CellsView>, w: Widths, i: int)
    requires
        fits(w, cells),
        0 <= i < cells.len(),
    ensures
        within(cells[i], w),
{
    longest_is_longest(cells, |c: CellsView| c.name, i);
    longest_is_longest(cells, |c: CellsView| c.min, i);
    longest_is_longest(cells, |c: CellsView| c.p50, i);
    longest_is_longest(cells, |c: CellsView| c.p90, i);
    longest_is_longest(cells, |c: CellsView| c.rate, i);
    longest_is_longest(cells, |c: CellsView| c.ratio, i);
    longest_is_longest(cells, |c: CellsView| c.band, i);
    longest_is_longest(cells, |c: CellsView| c.delta, i);
}

/// A line of cells that fit is as long as its columns are wide.
proof fn padded_line_length(c: CellsView, w: Widths)
    requires
        within(c, w),
    ensures
        padded_line(c, w).len() == line_width(w),
{
    padded_to_width(c.name, w.name as nat);
    padded_to_width(c.min, w.min as nat);
    padded_to_width(c.p50, w.p50 as nat);
    padded_to_width(c.p90, w.p90 as nat);
    padded_to_width(c.rate, w.rate as nat);
    if w.ratio > 0 {
        padded_to_width(c.ratio, w.ratio as nat);
    }
    padded_to_width(c.band, w.band as nat);
    padded_to_width(c.delta, w.delta as nat);
}

/// The columns of a group line up: before the white space at their ends is
/// taken off, all its lines are of one length, since every cell is padded to
/// the width of its column.
pub proof fn columns_line_up(cells: Seq<CellsView>, w: Widths, i: int)
    requires
        fits(w, cells),
        0 <= i < cells.len(),
    ensures
        padded_line(cells[i], w).len() == line_width(w),
{
    every_case_is_within(cells, w, i);
    padded_line_length(cells[i], w);
}

/// Where all cells of a column are empty it has no width.
proof fn empty_column_has_no_width(
    cells: Seq<CellsView>,
    column: spec_fn(CellsView) -> Seq<char>,
)
    requires
        forall|i: int| 0 <= i < cells.len() ==> column(#[trigger] cells[i]).len() == 0,
    ensures
        longest(cells, column) == 0,
    decreases cells.len(),
{
    if cells.len() > 0 {
        let front = cells.drop_last();
        assert forall|i: int| 0 <= i < front.len() implies column(
            #[trigger] front[i],
        ).len() == 0 by {
            assert(column(cells[i]).len() == 0);
        }
        empty_column_has_no_width(front, column);
        assert(column(cells[cells.len() - 1]).len() == 0);
    }
}

/// A lone case has nothing to compare against, and neither has a group without
/// a reference: no ratio column is printed, whatever the cells would say.
pub proof fn nothing_to_compare_no_ratio_column(
    g: GroupResult,
    numbers: Seq<CaseNumbers>,
    w: Widths,
    c: CellsView,
    other: Seq<char>,
)
    requires
        numbers.len() == g.cases@.len(),
        fits(w, group_cells(g, numbers)),
        g.cases@.len() <= 1 || g.no_reference,
    ensures
        w.ratio == 0,
        padded_line(c, w) == padded_line(CellsView { ratio: other, ..c }, w),
{
    let cells = group_cells(g, numbers);
    if g.no_reference {
        empty_column_has_no_width(cells, |c: CellsView| c.ratio);
    }
}

// ---------------------------------------------------------------------------
// TSV
// ---------------------------------------------------------------------------

/// The names of the columns.
pub open spec fn tsv_columns() -> Seq<Seq<char>> {
    seq![
        "group"@,
        "case"@,
        "iters"@,
        "samples"@,
        "min_ns"@,
        "p50_ns"@,
        "p90_ns"@,
        "ratio"@,
        "ratio_lo"@,
        "ratio_hi"@,
        "per_second"@,
        "baseline_min_ns"@,
    ]
}

/// `text` if there is such a number, and nothing if not.
pub open spec fn shown(is_there: bool, text: Seq<char>) -> Seq<char> {
    if is_there {
        text
    } else {
        Seq::empty()
    }
}

/// The fields of a case's row.
pub open spec fn tsv_fields(group: Seq<char>, c: CaseResult, n: CaseNumbers) -> Seq<Seq<char>> {
    let band = c.ratio is Some && c.ratio->0.iqr is Some;
    seq![
        group,
        c.name@,
        decimal(c.iters as nat),
        decimal(c.samples@.len()),
        n.min@,
        n.p50@,
        n.p90@,
        if c.ratio is Some {
            n.point@
        } else {
            shown(c.is_reference, "1.000000"@)
        },
        shown(band, n.low@),
        shown(band, n.high@),
        shown(c.has_rate(), n.rate@),
        shown(c.baseline is Some, n.baseline_min@),
    ]
}

/// The rows of the first `k` cases.
pub open spec fn tsv_rows(g: GroupResult, numbers: Seq<CaseNumbers>, k: int) -> Seq<char>
    decreases k,
{
    if k <= 0 {
        Seq::empty()
    } else {
        tsv_rows(g, numbers, k - 1) + joined(
            tsv_fields(g.name@, g.cases@[k - 1], numbers[k - 1]),
            '\t',
        ) + "\n"@
    }
}

/// The comment at the top.
pub open spec fn tsv_comment(
    c: ConfigView,
    version: Seq<char>,
    timer: Seq<char>,
    floor: Seq<char>,
    profile: Seq<char>,
) -> Seq<char> {
    "# benchit v"@ + version + "  timer_ns="@ + timer + "  iter_with_floor_ns="@ + floor
        + "  profile="@ + profile + "  interleave="@ + (if c.interleave {
        "true"@
    } else {
        "false"@
    }) + "  block="@ + decimal(c.block as nat) + "\n"@
}

/// One machine-readable row per case.
#[derive(Debug, Clone, PartialEq, Eq)]
pub struct TsvReporter {
    /// What has been laid out and not yet taken.
    pub out: String,
    /// The line with the column names has been laid out.
    pub header_written: bool,
}

/// `text` if there is such a number, and nothing if not.
fn if_shown(is_there: bool, text: &str) -> (r: String)
    ensures
        r@ == shown(is_there, text@),
{
    if is_there {
        text.to_owned()
    } else {
        String::new()
    }
}

/// The line with the column names.
fn column_names() -> (r: String)
    ensures
        r@ == joined(tsv_columns(), '\t'),
{
    let names: Vec<String> = vec![
        "group".to_owned(),
        "case".to_owned(),
        "iters".to_owned(),
        "samples".to_owned(),
        "min_ns".to_owned(),
        "p50_ns".to_owned(),
        "p90_ns".to_owned(),
        "ratio".to_owned(),
        "ratio_lo".to_owned(),
        "ratio_hi".to_owned(),
        "per_second".to_owned(),
        "baseline_min_ns".to_owned(),
    ];
    assert(texts(names@) =~= tsv_columns());
    join_tabs(&names)
}

/// A case's row.
fn tsv_row(group: &str, c: &CaseResult, n: &CaseNumbers) -> (r: String)
    ensures
        r@ == joined(tsv_fields(group@, *c, *n), '\t'),
{
    let band = match c.ratio {
        Some(r) => r.iqr.is_some(),
        None => false,
    };
    let point = if c.ratio.is_some() {
        n.point.clone()
    } else {
        if_shown(c.is_reference, "1.000000")
    };
    let fields: Vec<String> = vec![
        group.to_owned(),
        c.name.clone(),
        decimal_text(c.iters),
        decimal_text(c.samples.len() as u64),
        n.min.clone(),
        n.p50.clone(),
        n.p90.clone(),
        point,
        if_shown(band, &n.low),
        if_shown(band, &n.high),
        if_shown(c.rate().is_some(), &n.rate),
        if_shown(c.baseline.is_some(), &n.baseline_min),
    ];
    assert(texts(fields@) =~= tsv_fields(group@, *c, *n));
    join_tabs(&fields)
}

impl TsvReporter {
    /// Nothing laid out.
    pub fn new() -> (r: Self)
        ensures
            r.out@ == Seq::<char>::empty(),
            !r.header_written,
    {
        TsvReporter { out: String::new(), header_written: false }
    }

    /// Lay out the comment at the top. `timer` and `floor` are the texts of what
    /// the clock costs.
    pub fn header(
        &mut self,
        config: &Config,
        version: &str,
        timer: &str,
        floor: &str,
        profile: &str,
    )
        ensures
            final(self).out@ == old(self).out@ + tsv_comment(
                config@,
                version@,
                timer@,
                floor@,
                profile@,
            ),
            final(self).header_written == old(self).header_written,
    {
        let mut t = "# benchit v".to_owned();
        t.append(version);
        t.append("  timer_ns=");
        t.append(timer);
        t.append("  iter_with_floor_ns=");
        t.append(floor);
        t.append("  profile=");
        t.append(profile);
        t.append("  interleave=");
        if config.interleave {
            t.append("true");
        } else {
            t.append("false");
        }
        t.append("  block=");
        push_decimal(&mut t, config.block as u64);
        t.append("\n");
        assert(t@ == tsv_comment(config@, version@, timer@, floor@, profile@));
        self.out.append(&t);
    }

    /// Lay out a row per case, below the column names if these are the first
    /// rows. `numbers` are the texts of the cases' numbers.
    pub fn group(&mut self, g: &GroupResult, numbers: &Vec<CaseNumbers>)
        requires
            numbers@.len() == g.cases@.len(),
        ensures
            final(self).out@ == old(self).out@ + (if old(self).header_written {
                Seq::empty()
            } else {
                joined(tsv_columns(), '\t') + "\n"@
            }) + tsv_rows(*g, numbers@, g.cases@.len() as int),
            final(self).header_written,
    {
        if !self.header_written {
            self.out.append(&column_names());
            self.out.append("\n");
            self.header_written = true;
        }
        let ghost head = self.out@;
        let n = g.cases.len();
        let mut i: usize = 0;
        proof {
            assert(head =~= old(self).out@ + (if old(self).header_written {
                Seq::empty()
            } else {
                joined(tsv_columns(), '\t') + "\n"@
            }));
            assert(head + tsv_rows(*g, numbers@, 0) =~= head);
        }
        while i < n
            invariant
                n == g.cases@.len(),
                numbers@.len() == n,
                i <= n,
                self.header_written,
                self.out@ == head + tsv_rows(*g, numbers@, i as int),
            decreases n - i,
        {
            self.out.append(&tsv_row(&g.name, &g.cases[i], &numbers[i]));
            self.out.append("\n");
            i += 1;
            assert(self.out@ =~= head + tsv_rows(*g, numbers@, i as int));
        }
    }

    /// Take what has been laid out.
    pub fn take(&mut self) -> (r: String)
        ensures
            r@ == old(self).out@,
            final(self).out@ == Seq::<char>::empty(),
            final(self).header_written == old(self).header_written,
    {
        let mut r = String::new();
        std::mem::swap(&mut r, &mut self.out);
        r
    }
}

/// Has the text no tab?
pub open spec fn tab_free(s: Seq<char>) -> bool {
    forall|i: int| 0 <= i < s.len() ==> #[trigger] s[i] != '\t'
}

/// Every row is as wide as the header: both come apart into twelve fields, and
/// a row's are those of its case. The group and the case are named without
/// tabs, and no number is written with one.
pub proof fn rows_are_as_wide_as_the_header(group: Seq<char>, c: CaseResult, n: CaseNumbers)
    requires
        tab_free(group),
        tab_free(c.name@),
        tab_free(n.min@),
        tab_free(n.p50@),
        tab_free(n.p90@),
        tab_free(n.rate@),
        tab_free(n.point@),
        tab_free(n.low@),
        tab_free(n.high@),
        tab_free(n.baseline_min@),
    ensures
        split(joined(tsv_columns(), '\t'), '\t') == tsv_columns(),
        split(joined(tsv_fields(group, c, n), '\t'), '\t') == tsv_fields(group, c, n),
        tsv_fields(group, c, n).len() == tsv_columns().len(),
{
    reveal_strlit("group");
    reveal_strlit("case");
    reveal_strlit("iters");
    reveal_strlit("samples");
    reveal_strlit("min_ns");
    reveal_strlit("p50_ns");
    reveal_strlit("p90_ns");
    reveal_strlit("ratio");
    reveal_strlit("ratio_lo");
    reveal_strlit("ratio_hi");
    reveal_strlit("per_second");
    reveal_strlit("baseline_min_ns");
    reveal_strlit("1.000000");
    let names = tsv_columns();
    assert forall|i: int, j: int|
        0 <= i < names.len() && 0 <= j < names[i].len() implies #[trigger] names[i][j] != '\t' by {}
    joined_comes_apart(names, '\t');
    decimals_are_tab_free(c.iters as nat);
    decimals_are_tab_free(c.samples@.len());
    let fields = tsv_fields(group, c, n);
    assert(tab_free("1.000000"@));
    assert forall|i: int| 0 <= i < fields.len() implies tab_free(#[trigger] fields[i]) by {}
    assert forall|i: int, j: int|
        0 <= i < fields.len() && 0 <= j < fields[i].len() implies #[trigger] fields[i][j]
        != '\t' by {
        assert(tab_free(fields[i]));
    }
    joined_comes_apart(fields, '\t');
}

proof fn decimals_are_tab_free(n: nat)
    ensures
        tab_free(decimal(n)),
{
    decimal_spells(n);
    assert forall|i: int| 0 <= i < decimal(n).len() implies #[trigger] decimal(n)[i] != '\t' by {
        assert(is_digit(decimal(n)[i]));
    }
}

/// A case that has no ratio and is not the reference leaves the ratio columns of
/// its row empty.
pub proof fn no_ratio_leaves_its_columns_empty(group: Seq<char>, c: CaseResult, n: CaseNumbers)
    requires
        c.ratio is None,
        !c.is_reference,
    ensures
        tsv_fields(group, c, n)[7].len() == 0,
        tsv_fields(group, c, n)[8].len() == 0,
        tsv_fields(group, c, n)[9].len() == 0,
{
}

// ---------------------------------------------------------------------------
// What a report says
// ---------------------------------------------------------------------------

/// A declared amount is printed in the largest unit that it reaches: bytes in
/// powers of 1024 and elements in powers of 1000, up to the fourth.
pub proof fn amounts_are_in_the_largest_unit_they_reach(n: u64)
    ensures
        ({
            let (b, e) = (
                amount_steps_of(Throughput::Bytes(n)),
                amount_steps_of(Throughput::Elements(n)),
            );
            &&& b == 0 <==> n < 1024
            &&& b == 1 <==> 1024 <= n < 1_048_576
            &&& b == 2 <==> 1_048_576 <= n < 1_073_741_824
            &&& b == 3 <==> 1_073_741_824 <= n < 1_099_511_627_776
            &&& b == 4 <==> 1_099_511_627_776 <= n
            &&& e == 0 <==> n < 1000
            &&& e == 1 <==> 1000 <= n < 1_000_000
            &&& e == 2 <==> 1_000_000 <= n < 1_000_000_000
            &&& e == 3 <==> 1_000_000_000 <= n < 1_000_000_000_000
            &&& e == 4 <==> 1_000_000_000_000 <= n
        }),
{
    reveal_with_fuel(steps, 5);
}

/// A small amount is printed as the count it is, and a larger one as the divided
/// amount, each with its unit.
pub proof fn amounts_are_printed_with_their_unit(n: u64, scaled: Seq<char>)
    ensures
        n < 1024 ==> amount_text(Throughput::Bytes(n), scaled) == decimal(n as nat) + " "@ + "B"@,
        1024 <= n < 1_048_576 ==> amount_text(Throughput::Bytes(n), scaled) == scaled + " "@
            + "KiB"@,
        1_048_576 <= n < 1_073_741_824 ==> amount_text(Throughput::Bytes(n), scaled) == scaled
            + " "@ + "MiB"@,
        1_073_741_824 <= n < 1_099_511_627_776 ==> amount_text(Throughput::Bytes(n), scaled)
            == scaled + " "@ + "GiB"@,
        1_099_511_627_776 <= n ==> amount_text(Throughput::Bytes(n), scaled) == scaled + " "@
            + "TiB"@,
        n < 1000 ==> amount_text(Throughput::Elements(n), scaled) == decimal(n as nat) + " "@
            + "elem"@,
        1000 <= n < 1_000_000 ==> amount_text(Throughput::Elements(n), scaled) == scaled + " "@
            + "Kelem"@,
        1_000_000 <= n < 1_000_000_000 ==> amount_text(Throughput::Elements(n), scaled) == scaled
            + " "@ + "Melem"@,
        1_000_000_000 <= n < 1_000_000_000_000 ==> amount_text(Throughput::Elements(n), scaled)
            == scaled + " "@ + "Gelem"@,
        1_000_000_000_000 <= n ==> amount_text(Throughput::Elements(n), scaled) == scaled + " "@
            + "Telem"@,
{
    amounts_are_in_the_largest_unit_they_reach(n);
}

/// A case is reported under its own name and with its own times, and with no
/// number that it does not have: a rate only of an amount that took time, a
/// change only against a baseline, a band only around a ratio of enough rounds.
/// The reference is one times itself, and a ratio that there is none of is a
/// dash.
pub proof fn cells_say_what_there_is(c: CaseResult, n: CaseNumbers)
    ensures
        ({
            let cells = case_cells(c, n, false);
            &&& cells.name == c.name@
            &&& cells.min == n.min@
            &&& cells.p50 == n.p50@
            &&& cells.p90 == n.p90@
            &&& c.throughput is Some && c.stats.min > 0 ==> cells.rate == n.rate@
            &&& c.throughput is None || c.stats.min == 0 ==> cells.rate.len() == 0
            &&& c.ratio is Some ==> cells.ratio == n.point@.push('x')
            &&& c.ratio is None && c.is_reference ==> cells.ratio == seq!['1', '.', '0', '0', 'x']
            &&& c.ratio is None && !c.is_reference ==> cells.ratio == seq!['-']
            &&& c.ratio is Some && c.ratio->0.iqr is Some ==> cells.band == "["@ + n.low@ + " .. "@
                + n.high@ + "]"@
            &&& c.ratio is None || c.ratio->0.iqr is None ==> cells.band.len() == 0
            &&& c.baseline is Some && n.delta is Some ==> cells.delta == n.delta->0@
            &&& c.baseline is None || n.delta is None ==> cells.delta.len() == 0
        }),
{
    reveal_strlit("x");
    reveal_strlit("1.00x");
    reveal_strlit("-");
    assert(n.point@ + "x"@ =~= n.point@.push('x'));
    assert("1.00x"@ =~= seq!['1', '.', '0', '0', 'x']);
    assert("-"@ =~= seq!['-']);
}

/// Every case has a line, in order: the lines of the cases are those of the ones
/// before it, its own, and those of the ones behind it.
pub proof fn every_case_has_its_line(cells: Seq<CellsView>, w: Widths, i: int)
    requires
        0 <= i < cells.len(),
    ensures
        case_lines(cells, w) == case_lines(cells.take(i), w) + trim_end(padded_line(cells[i], w))
            + "\n"@ + case_lines(cells.skip(i + 1), w),
{
    lines_of_two_lists(cells.take(i + 1), cells.skip(i + 1), w);
    assert(cells.take(i + 1) + cells.skip(i + 1) =~= cells);
    assert(cells.take(i + 1).drop_last() =~= cells.take(i));
    assert(cells.take(i + 1).last() == cells[i]);
}

proof fn lines_of_two_lists(a: Seq<CellsView>, b: Seq<CellsView>, w: Widths)
    ensures
        case_lines(a + b, w) == case_lines(a, w) + case_lines(b, w),
    decreases b.len(),
{
    if b.len() == 0 {
        assert(a + b =~= a);
        assert(case_lines(a, w) + case_lines(b, w) =~= case_lines(a, w));
    } else {
        lines_of_two_lists(a, b.drop_last(), w);
        assert((a + b).drop_last() =~= a + b.drop_last());
        assert((a + b).last() == b.last());
        assert(case_lines(a + b, w) =~= case_lines(a, w) + case_lines(b, w));
    }
}

/// A line starts with two spaces and the whole name of its case.
pub proof fn lines_start_with_the_name(c: CellsView, w: Widths)
    ensures
        padded_line(c, w).len() >= 2 + c.name.len(),
        padded_line(c, w)[0] == ' ' && padded_line(c, w)[1] == ' ',
        padded_line(c, w).subrange(2, 2 + c.name.len() as int) == c.name,
{
    reveal_strlit("  ");
    padding_adds_spaces_only(c.name, w.name as nat);
    let line = padded_line(c, w);
    let name = pad_right(c.name, w.name as nat);
    assert forall|i: int| 0 <= i < c.name.len() implies line[2 + i] == c.name[i] by {
        assert(line[2 + i] == name[i]);
        assert(name.subrange(0, c.name.len() as int)[i] == name[i]);
    }
    assert(line.subrange(2, 2 + c.name.len() as int) =~= c.name);
}

/// Every case has a row, in order, below those of the cases before it.
pub proof fn every_case_has_its_row(g: GroupResult, numbers: Seq<CaseNumbers>, i: int, n: int)
    requires
        0 <= i < n,
    ensures
        ({
            let before = tsv_rows(g, numbers, i);
            let own = joined(tsv_fields(g.name@, g.cases@[i], numbers[i]), '\t') + "\n"@;
            let all = tsv_rows(g, numbers, n);
            let end = before.len() + own.len();
            &&& end <= all.len()
            &&& all.subrange(0, before.len() as int) == before
            &&& all.subrange(before.len() as int, end as int) == own
        }),
    decreases n,
{
    let before = tsv_rows(g, numbers, i);
    let own = joined(tsv_fields(g.name@, g.cases@[i], numbers[i]), '\t') + "\n"@;
    let all = tsv_rows(g, numbers, n);
    let end = (before.len() + own.len()) as int;
    if n == i + 1 {
        assert(all =~= before + own);
        assert(all.subrange(0, before.len() as int) =~= before);
        assert(all.subrange(before.len() as int, end) =~= own);
    } else {
        every_case_has_its_row(g, numbers, i, n - 1);
        let most = tsv_rows(g, numbers, n - 1);
        assert(most.len() <= all.len());
        assert forall|k: int| 0 <= k < most.len() implies all[k] == most[k] by {}
        assert(all.subrange(0, before.len() as int) =~= most.subrange(0, before.len() as int));
        assert(all.subrange(before.len() as int, end) =~= most.subrange(
            before.len() as int,
            end,
        ));
    }
}

/// A row says what there is, in the order of the columns: the names, the counts,
/// the times, the ratio and its band, the rate, and the minimum of the baseline.
/// A number that the case does not have leaves its field empty.
pub proof fn fields_say_what_there_is(group: Seq<char>, c: CaseResult, n: CaseNumbers)
    ensures
        ({
            let f = tsv_fields(group, c, n);
            let band = c.ratio is Some && c.ratio->0.iqr is Some;
            let rate = c.throughput is Some && c.stats.min > 0;
            &&& f.len() == 12
            &&& f[0] == group
            &&& f[1] == c.name@
            &&& f[2] == decimal(c.iters as nat)
            &&& f[3] == decimal(c.samples@.len())
            &&& f[4] == n.min@
            &&& f[5] == n.p50@
            &&& f[6] == n.p90@
            &&& c.ratio is Some ==> f[7] == n.point@
            &&& c.ratio is None && c.is_reference ==> f[7] == "1.000000"@
            &&& c.ratio is None && !c.is_reference ==> f[7].len() == 0
            &&& band ==> f[8] == n.low@ && f[9] == n.high@
            &&& !band ==> f[8].len() == 0 && f[9].len() == 0
            &&& rate ==> f[10] == n.rate@
            &&& !rate ==> f[10].len() == 0
            &&& c.baseline is Some ==> f[11] == n.baseline_min@
            &&& c.baseline is None ==> f[11].len() == 0
        }),
{
}

/// Every column holds its cells: none of a case's is wider than its column. Two
/// cases or more have a ratio column, and one alone has none.
pub proof fn columns_hold_their_cells(cells: Seq<CellsView>, w: Widths, i: int)
    requires
        fits(w, cells),
        0 <= i < cells.len(),
    ensures
        cells[i].name.len() <= w.name,
        cells[i].min.len() <= w.min,
        cells[i].p50.len() <= w.p50,
        cells[i].p90.len() <= w.p90,
        cells[i].rate.len() <= w.rate,
        cells[i].band.len() <= w.band,
        cells[i].delta.len() <= w.delta,
        cells.len() > 1 ==> cells[i].ratio.len() <= w.ratio,
        cells.len() == 1 ==> w.ratio == 0,
{
    every_case_is_within(cells, w, i);
    longest_is_longest(cells, |c: CellsView| c.ratio, i);
}

/// A group's first line starts with its whole name and ends with the amount, two
/// spaces apart at least, and reaches as far as the min column where there is
/// room for that.
pub proof fn heads_hold_the_name_and_the_amount(name: Seq<char>, amount: Seq<char>, w: Widths)
    ensures
        ({
            let line = head_line(name, Some(amount), w);
            let (n, a) = (name.len() as int, amount.len() as int);
            let end = line.len() as int;
            &&& end >= n + 2 + a
            &&& end == n + 2 + a || end == 2 + w.name + 2 + w.min
            &&& line.subrange(0, n) == name
            &&& line.subrange(end - a, end) == amount
            &&& forall|i: int| n <= i < end - a ==> #[trigger] line[i] == ' '
        }),
        head_line(name, None, w) == name,
{
    let line = head_line(name, Some(amount), w);
    let (n, a) = (name.len() as int, amount.len() as int);
    let end = line.len() as int;
    assert(line.subrange(0, n) =~= name);
    assert(line.subrange(end - a, end) =~= amount);
}

} // verus!
