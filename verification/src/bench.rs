//! A benchmark run: its configuration, the loaded baseline, and the rows to
//! save at the end.

use vstd::prelude::*;

use crate::baseline::{
    a_saved_run_loads_as_the_merge, file_text, is_carried, is_legible, key_of, listing, lists, loaded,
    merged, merging_takes_the_measured, row_key, rows_of, Baseline, Row, RowView,
};
use crate::cli::{clamped, Config, ConfigView, Format};
use crate::group::{Group, GroupView};
use crate::report::{CaseNumbers, GroupResult, SavedStats, TextReporter, TsvReporter};
use crate::runner::{recalls, saved_stats};
use crate::text::lines;

verus! {

/// A benchmark run, without its clock and its files.
#[derive(Debug, PartialEq, Eq)]
pub struct Bench {
    /// The configuration, with no count of zero.
    pub config: Config,
    /// The run header has been printed.
    pub started: bool,
    /// The baseline to compare with.
    pub loaded: Baseline,
    /// What this run has measured and is to save.
    pub to_save: Vec<Row>,
}

/// The rows of a group's first `n` cases.
pub open spec fn group_rows(g: GroupResult, numbers: Seq<CaseNumbers>, n: int) -> Seq<RowView> {
    Seq::new(
        n as nat,
        |i: int|
            RowView {
                group: g.name@,
                case: g.cases@[i].name@,
                iters: g.cases@[i].iters,
                min_ns: numbers[i].min@,
                p50_ns: numbers[i].p50@,
                p90_ns: numbers[i].p90@,
                samples: g.cases@[i].samples@.len() as usize,
            },
    )
}

impl Bench {
    /// Build from an explicit configuration, with counts of zero raised to one,
    /// and the baseline that was loaded for it.
    pub fn with_config(config: Config, loaded: Baseline) -> (r: Self)
        ensures
            r.config@ == clamped(config@),
            r.config@.samples >= 1 && r.config@.block >= 1 && r.config@.time_ms >= 1,
            !r.started,
            r.loaded@ == loaded@,
            r.to_save@.len() == 0,
    {
        Bench { config: config.clamp_counts(), started: false, loaded, to_save: Vec::new() }
    }

    /// Open a group of cases to be compared against each other.
    pub fn group(&self, name: &str) -> (r: Group)
        ensures
            r@ == (GroupView {
                name: name@,
                throughput: None,
                no_reference: false,
                cases: Seq::empty(),
            }),
    {
        Group::new(name)
    }

    /// The run begins. True the first time, when the header is due.
    pub fn begin_run(&mut self) -> (r: bool)
        ensures
            r == !old(self).started,
            final(self).started,
            final(self).config@ == old(self).config@,
            final(self).loaded@ == old(self).loaded@,
            rows_of(final(self).to_save@) == rows_of(old(self).to_save@),
    {
        let first = !self.started;
        self.started = true;
        first
    }

    /// What the loaded baseline had recorded under a name.
    pub fn saved_stats(&self, full_name: &str) -> (r: Option<SavedStats>)
        ensures
            recalls(r, self.loaded@, full_name@),
    {
        saved_stats(&self.loaded, full_name)
    }

    /// Keep the rows of a measured group, if they are to be saved. `numbers` are
    /// the texts of its cases' times.
    pub fn record(&mut self, g: &GroupResult, numbers: &Vec<CaseNumbers>)
        requires
            numbers@.len() == g.cases@.len(),
        ensures
            final(self).config@ == old(self).config@,
            final(self).started == old(self).started,
            final(self).loaded@ == old(self).loaded@,
            rows_of(final(self).to_save@) == rows_of(old(self).to_save@) + (
            if old(self).config@.save_baseline is Some {
                group_rows(*g, numbers@, g.cases@.len() as int)
            } else {
                Seq::empty()
            }),
    {
        if self.config.save_baseline.is_none() {
            assert(rows_of(self.to_save@) + Seq::<RowView>::empty() =~= rows_of(self.to_save@));
            return;
        }
        let ghost before = rows_of(self.to_save@);
        let n = g.cases.len();
        let mut i: usize = 0;
        assert(before + group_rows(*g, numbers@, 0) =~= before);
        while i < n
            invariant
                n == g.cases@.len(),
                numbers@.len() == n,
                i <= n,
                self.config@ == old(self).config@,
                self.started == old(self).started,
                self.loaded@ == old(self).loaded@,
                rows_of(self.to_save@) == before + group_rows(*g, numbers@, i as int),
            decreases n - i,
        {
            let ghost kept = self.to_save@;
            let row = g.cases[i].to_row(&g.name, &numbers[i]);
            self.to_save.push(row);
            proof {
                assert(rows_of(self.to_save@) =~= rows_of(kept).push(row@));
                assert(rows_of(self.to_save@) =~= before + group_rows(*g, numbers@, i + 1));
            }
            i += 1;
        }
    }

    /// The run is over: the name to save under and the rows to save, if any.
    ///
    /// Nothing measured means nothing to save; listing the cases of a run must
    /// not write an empty file over a real baseline.
    pub fn finish(&mut self) -> (r: Option<(String, Vec<Row>)>)
        ensures
            match r {
                Some((name, rows)) => old(self).config@.save_baseline == Some(name@) && rows_of(
                    rows@,
                ) == rows_of(old(self).to_save@) && rows@.len() > 0 && final(self).to_save@.len()
                    == 0,
                None => (old(self).config@.save_baseline is None || old(self).to_save@.len() == 0)
                    && rows_of(final(self).to_save@) == rows_of(old(self).to_save@),
            },
            final(self).config@ == (ConfigView { save_baseline: None, ..old(self).config@ }),
            final(self).started == old(self).started,
            final(self).loaded@ == old(self).loaded@,
    {
        let name = self.config.save_baseline.take();
        match name {
            Some(name) => {
                if self.to_save.len() == 0 {
                    return None;
                }
                let mut rows: Vec<Row> = Vec::new();
                std::mem::swap(&mut rows, &mut self.to_save);
                Some((name, rows))
            },
            None => None,
        }
    }
}

/// Where results are laid out.
#[derive(Debug, Clone, PartialEq, Eq)]
pub enum Reporter {
    Text(TextReporter),
    Tsv(TsvReporter),
}

/// The reporter of a format, with nothing laid out.
pub fn reporter_for(format: Format) -> (r: Reporter)
    ensures
        match r {
            Reporter::Text(t) => format == Format::Text && t.out@.len() == 0,
            Reporter::Tsv(t) => format == Format::Tsv && t.out@.len() == 0 && !t.header_written,
        },
{
    match format {
        Format::Text => Reporter::Text(TextReporter::new()),
        Format::Tsv => Reporter::Tsv(TsvReporter::new()),
    }
}

/// Every case of a measured group has a row of its own: under its own full name,
/// with its own iterations, times and number of samples.
pub proof fn every_case_is_recorded_under_its_own_name(
    g: GroupResult,
    numbers: Seq<CaseNumbers>,
    i: int,
)
    requires
        0 <= i < g.cases@.len(),
    ensures
        ({
            let rows = group_rows(g, numbers, g.cases@.len() as int);
            &&& rows.len() == g.cases@.len()
            &&& row_key(rows[i]) == g.name@ + seq!['/'] + g.cases@[i].name@
            &&& rows[i].group == g.name@
            &&& rows[i].case == g.cases@[i].name@
            &&& rows[i].iters == g.cases@[i].iters
            &&& rows[i].min_ns == numbers[i].min@
            &&& rows[i].p50_ns == numbers[i].p50@
            &&& rows[i].p90_ns == numbers[i].p90@
            &&& rows[i].samples == g.cases@[i].samples@.len() as usize
        }),
{
    reveal_strlit("/");
    assert("/"@ =~= seq!['/']);
}

/// Cases of one group with names of their own have full names of their own.
proof fn full_names_differ(group: Seq<char>, a: Seq<char>, b: Seq<char>)
    requires
        a != b,
    ensures
        key_of(group, a) != key_of(group, b),
{
    let (x, y) = (key_of(group, a), key_of(group, b));
    let n = (group + "/"@).len() as int;
    assert(x.subrange(n, x.len() as int) =~= a);
    assert(y.subrange(n, y.len() as int) =~= b);
}

/// What was recorded is what is saved: after a group whose cases have names of
/// their own, whatever was recorded before it and whatever the file held, the
/// full name of a case leads to the times of that case.
pub proof fn a_recorded_case_is_saved_under_its_name(
    saved: Map<Seq<char>, RowView>,
    before: Seq<RowView>,
    g: GroupResult,
    numbers: Seq<CaseNumbers>,
    i: int,
)
    requires
        0 <= i < g.cases@.len(),
        forall|a: int, b: int|
            0 <= a < b < g.cases@.len() ==> (#[trigger] g.cases@[a]).name@ != (
            #[trigger] g.cases@[b]).name@,
    ensures
        ({
            let all = merged(saved, before + group_rows(g, numbers, g.cases@.len() as int));
            let name = g.name@ + seq!['/'] + g.cases@[i].name@;
            &&& all.dom().contains(name)
            &&& all[name].case == g.cases@[i].name@
            &&& all[name].iters == g.cases@[i].iters
            &&& all[name].min_ns == numbers[i].min@
            &&& all[name].p50_ns == numbers[i].p50@
            &&& all[name].p90_ns == numbers[i].p90@
            &&& all[name].samples == g.cases@[i].samples@.len() as usize
        }),
{
    let own = group_rows(g, numbers, g.cases@.len() as int);
    let rows = before + own;
    let at = before.len() + i;
    assert(rows[at] == own[i]);
    assert forall|j: int| at < j < rows.len() implies #[trigger] row_key(rows[j]) != row_key(
        rows[at],
    ) by {
        let k = j - before.len();
        assert(rows[j] == own[k]);
        assert(g.cases@[i].name@ != g.cases@[k].name@);
        full_names_differ(g.name@, g.cases@[i].name@, g.cases@[k].name@);
    }
    merging_takes_the_measured(saved, rows, at);
    every_case_is_recorded_under_its_own_name(g, numbers, i);
}

/// What was recorded is what the next run finds: saved over whatever the file
/// held and loaded again, the full name of a case recalls the times of that
/// case.
pub proof fn a_recorded_case_is_recalled_by_the_next_run(
    saved: Map<Seq<char>, RowView>,
    before: Seq<RowView>,
    g: GroupResult,
    numbers: Seq<CaseNumbers>,
    harness: Seq<char>,
    profile: Seq<char>,
    loaded_again: Map<Seq<char>, RowView>,
    found: Option<SavedStats>,
    i: int,
)
    requires
        0 <= i < g.cases@.len(),
        forall|a: int, b: int|
            0 <= a < b < g.cases@.len() ==> (#[trigger] g.cases@[a]).name@ != (
            #[trigger] g.cases@[b]).name@,
        ({
            let rows = before + group_rows(g, numbers, g.cases@.len() as int);
            let all = merged(saved, rows);
            &&& lists(listing(all), all)
            &&& forall|k: Seq<char>| #[trigger] saved.dom().contains(k) ==> is_legible(saved[k])
            &&& forall|j: int| 0 <= j < rows.len() ==> is_legible(#[trigger] rows[j])
            &&& is_carried(harness)
            &&& is_carried(profile)
            &&& loaded(lines(file_text(listing(all), harness, profile))) == Ok::<
                Map<Seq<char>, RowView>,
                nat,
            >(loaded_again)
        }),
        recalls(found, loaded_again, g.name@ + seq!['/'] + g.cases@[i].name@),
    ensures
        found matches Some(times) && times.min_ns@ == numbers[i].min@ && times.p50_ns@
            == numbers[i].p50@ && times.p90_ns@ == numbers[i].p90@,
{
    let rows = before + group_rows(g, numbers, g.cases@.len() as int);
    a_saved_run_loads_as_the_merge(saved, rows, harness, profile);
    a_recorded_case_is_saved_under_its_name(saved, before, g, numbers, i);
}

} // verus!
