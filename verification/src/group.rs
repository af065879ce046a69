//! What a group of cases declares before it is measured.

use vstd::prelude::*;

verus! {

/// What a benchmark processes per iteration, so the reporter can print a rate.
#[derive(Debug, Clone, Copy, PartialEq, Eq, Structural)]
pub enum Throughput {
    /// Bytes per iteration; reported in binary units.
    Bytes(u64),
    /// Elements per iteration; reported in SI units.
    Elements(u64),
}

impl Throughput {
    /// The declared count.
    pub open spec fn count(self) -> u64 {
        match self {
            Throughput::Bytes(n) => n,
            Throughput::Elements(n) => n,
        }
    }

    /// The declared count, whatever it counts.
    pub fn amount(&self) -> (r: u64)
        ensures
            r == self.count(),
    {
        match self {
            Throughput::Bytes(n) => *n,
            Throughput::Elements(n) => *n,
        }
    }
}

/// A registered case, waiting for the group to build a schedule.
#[derive(Debug, Clone, PartialEq, Eq)]
pub struct Case {
    pub name: String,
    pub throughput: Option<Throughput>,
}

/// A [`Case`] with its name as a sequence of characters.
pub struct CaseView {
    pub name: Seq<char>,
    pub throughput: Option<Throughput>,
}

impl View for Case {
    type V = CaseView;

    open spec fn view(&self) -> CaseView {
        CaseView { name: self.name@, throughput: self.throughput }
    }
}

/// The cases of a list.
pub open spec fn cases_of(v: Seq<Case>) -> Seq<CaseView> {
    v.map_values(|c: Case| c@)
}

/// A set of cases to be measured against each other in one schedule.
///
/// Cases are registered, not run: the group cannot build an interleaved
/// schedule until it has seen all of them.
#[derive(Debug, Clone, PartialEq, Eq)]
pub struct Group {
    pub name: String,
    /// Applied to cases registered from here on.
    pub throughput: Option<Throughput>,
    /// The cases are not alternatives, and get no ratios.
    pub no_reference: bool,
    pub cases: Vec<Case>,
}

/// A [`Group`] with its names as sequences of characters.
pub struct GroupView {
    pub name: Seq<char>,
    pub throughput: Option<Throughput>,
    pub no_reference: bool,
    pub cases: Seq<CaseView>,
}

impl View for Group {
    type V = GroupView;

    open spec fn view(&self) -> GroupView {
        GroupView {
            name: self.name@,
            throughput: self.throughput,
            no_reference: self.no_reference,
            cases: cases_of(self.cases@),
        }
    }
}

/// A group after an amount was declared.
pub open spec fn declared(g: GroupView, t: Throughput) -> GroupView {
    GroupView { throughput: Some(t), ..g }
}

/// A group after a case was registered.
pub open spec fn registered(g: GroupView, name: Seq<char>) -> GroupView {
    GroupView { cases: g.cases.push(CaseView { name, throughput: g.throughput }), ..g }
}

impl Group {
    /// A group without cases.
    pub fn new(name: &str) -> (r: Self)
        ensures
            r@ == (GroupView {
                name: name@,
                throughput: None,
                no_reference: false,
                cases: Seq::empty(),
            }),
    {
        let r = Group {
            name: name.to_owned(),
            throughput: None,
            no_reference: false,
            cases: Vec::new(),
        };
        assert(cases_of(r.cases@) =~= Seq::<CaseView>::empty());
        r
    }

    /// Declare what one iteration processes. This applies to every case
    /// registered after the call.
    pub fn throughput(&mut self, throughput: Throughput)
        ensures
            final(self)@ == declared(old(self)@, throughput),
    {
        self.throughput = Some(throughput);
    }

    /// The cases are not alternatives to one another: none is a reference, and
    /// none gets a ratio.
    pub fn no_reference(&mut self)
        ensures
            final(self)@ == (GroupView { no_reference: true, ..old(self)@ }),
    {
        self.no_reference = true;
    }

    /// Register a case.
    pub fn bench(&mut self, name: &str)
        ensures
            final(self)@ == registered(old(self)@, name@),
    {
        let throughput = self.throughput;
        self.cases.push(Case { name: name.to_owned(), throughput });
        assert(cases_of(self.cases@) =~= registered(old(self)@, name@).cases);
    }

    /// Is there anything to run? Not while the stack unwinds: that would bury
    /// the panic under seconds of measurement.
    pub fn should_run(&self, panicking: bool) -> (r: bool)
        ensures
            r == (self@.cases.len() > 0 && !panicking),
    {
        self.cases.len() > 0 && !panicking
    }

    /// The cases to run now. None of them is left to be run again.
    pub fn finish(&mut self) -> (r: Vec<Case>)
        ensures
            cases_of(r@) == old(self)@.cases,
            final(self)@ == (GroupView { cases: Seq::empty(), ..old(self)@ }),
    {
        let mut r: Vec<Case> = Vec::new();
        std::mem::swap(&mut r, &mut self.cases);
        assert(cases_of(self.cases@) =~= Seq::<CaseView>::empty());
        r
    }
}

/// Each case keeps the amount declared before it: a later declaration changes
/// none of the cases registered so far, and the next case gets that one.
pub proof fn cases_keep_the_amount_declared_before_them(
    g: GroupView,
    first: Throughput,
    one: Seq<char>,
    second: Throughput,
    two: Seq<char>,
)
    ensures
        ({
            let done = registered(declared(registered(declared(g, first), one), second), two);
            &&& done.cases == g.cases.push(CaseView { name: one, throughput: Some(first) }).push(
                CaseView { name: two, throughput: Some(second) },
            )
            &&& done.name == g.name
            &&& done.no_reference == g.no_reference
        }),
{
}

} // verus!
