//! The configuration of a run, and the argument list that spells it.
//!
//! The positional filter is a substring match on `group/case`.

use vstd::prelude::*;

use crate::number::{
    decimal, decimal_spells, decimal_text, is_digit, parse_unsigned, spelled_within,
};
use crate::text::{
    a_part_is_found, chars, contains, find_from, first_is_find_from, has_part, has_prefix, opt_text,
    position, same, starts_with, texts, what_is_found_is_a_part,
};

verus! {

/// The per-benchmark time budget, in milliseconds.
pub const DEFAULT_TIME_MS: u64 = 1000;

/// What `--quick` lowers that budget to.
pub const QUICK_TIME_MS: u64 = 200;

/// The cap on samples collected per case.
pub const DEFAULT_SAMPLES: usize = 50;

/// Output format for the run.
#[derive(Debug, Clone, Copy, PartialEq, Eq, Default, Structural)]
pub enum Format {
    /// Aligned text on stdout.
    #[default]
    Text,
    /// One machine-readable row per case.
    Tsv,
}

/// Everything the harness can be told to do.
#[derive(Debug, Clone, PartialEq, Eq)]
pub struct Config {
    /// Substring match on `group/case`. `None` runs everything.
    pub filter: Option<String>,
    /// Upper bound on samples collected per case.
    pub samples: usize,
    /// Per-benchmark time budget in milliseconds.
    pub time_ms: u64,
    /// Samples collected per visit to a case while interleaving.
    ///
    /// The default of 1 gives maximally paired samples. Raising it trades some
    /// of that pairing for warmer caches.
    pub block: usize,
    /// Run the cases of a group in interleaved rounds rather than one at a time.
    pub interleave: bool,
    /// Write results to `benchit/<name>.tsv` in the build directory.
    pub save_baseline: Option<String>,
    /// Load `benchit/<name>.tsv` from that same directory and add a delta
    /// column.
    pub baseline: Option<String>,
    /// Output format.
    pub format: Format,
    /// List matching `group/case` names instead of running anything.
    pub list: bool,
}

/// What went wrong while parsing arguments.
#[derive(Debug, Clone, PartialEq, Eq)]
pub enum ArgError {
    /// `--help` was passed; the caller should print [`USAGE`] and exit
    /// successfully.
    HelpRequested,
    /// A flag that takes a value was given none.
    MissingValue(String),
    /// A flag's value could not be understood.
    BadValue(String, String),
    /// An unrecognised `-`-prefixed argument.
    UnknownFlag(String),
    /// A `--flag=value` where the flag takes no value.
    UnexpectedValue(String),
    /// More than one positional filter.
    TooManyFilters(String),
}

/// The `--help` text.
pub const USAGE: &'static str = "\
usage: <bench binary> [FILTER] [OPTIONS]

  FILTER                substring match on \"group/case\"

  --quick               ~200ms per benchmark
  --samples N           cap on samples per case (default 50)
  --time MS             per-benchmark budget in ms (default 1000)
  --block N             samples per visit when interleaving (default 1)
  --no-interleave       run each case to completion instead of in rounds
  --save-baseline NAME  write benchit/NAME.tsv beside the built binary
  --baseline NAME       load benchit/NAME.tsv from there, show a delta column
  --format=text|tsv     output format (default text)
  --list                list matching benchmarks without running them
  -h, --help            this message
";

/// A [`Config`] with its texts as sequences of characters.
pub struct ConfigView {
    pub filter: Option<Seq<char>>,
    pub samples: usize,
    pub time_ms: u64,
    pub block: usize,
    pub interleave: bool,
    pub save_baseline: Option<Seq<char>>,
    pub baseline: Option<Seq<char>>,
    pub format: Format,
    pub list: bool,
}

/// An [`ArgError`] with its texts as sequences of characters.
pub enum ArgErrorView {
    HelpRequested,
    MissingValue(Seq<char>),
    BadValue(Seq<char>, Seq<char>),
    UnknownFlag(Seq<char>),
    UnexpectedValue(Seq<char>),
    TooManyFilters(Seq<char>),
}

impl View for Config {
    type V = ConfigView;

    open spec fn view(&self) -> ConfigView {
        ConfigView {
            filter: opt_text(self.filter),
            samples: self.samples,
            time_ms: self.time_ms,
            block: self.block,
            interleave: self.interleave,
            save_baseline: opt_text(self.save_baseline),
            baseline: opt_text(self.baseline),
            format: self.format,
            list: self.list,
        }
    }
}

impl View for ArgError {
    type V = ArgErrorView;

    open spec fn view(&self) -> ArgErrorView {
        match self {
            ArgError::HelpRequested => ArgErrorView::HelpRequested,
            ArgError::MissingValue(flag) => ArgErrorView::MissingValue(flag@),
            ArgError::BadValue(flag, v) => ArgErrorView::BadValue(flag@, v@),
            ArgError::UnknownFlag(flag) => ArgErrorView::UnknownFlag(flag@),
            ArgError::UnexpectedValue(flag) => ArgErrorView::UnexpectedValue(flag@),
            ArgError::TooManyFilters(v) => ArgErrorView::TooManyFilters(v@),
        }
    }
}

impl ArgError {
    /// The error in words.
    pub open spec fn words(&self) -> Seq<char> {
        match self {
            ArgError::HelpRequested => "help requested"@,
            ArgError::MissingValue(flag) => "`"@ + flag@ + "` needs a value"@,
            ArgError::BadValue(flag, v) => "`"@ + flag@ + "` does not accept `"@ + v@ + "`"@,
            ArgError::UnknownFlag(flag) => "unknown flag `"@ + flag@ + "`"@,
            ArgError::UnexpectedValue(flag) => "`"@ + flag@ + "` takes no value"@,
            ArgError::TooManyFilters(v) => "only one filter is accepted, got `"@ + v@
                + "` as well"@,
        }
    }

    /// The error in words.
    pub fn message(&self) -> (r: String)
        ensures
            r@ == self.words(),
    {
        let mut r = String::new();
        match self {
            ArgError::HelpRequested => r.append("help requested"),
            ArgError::MissingValue(flag) => {
                r.append("`");
                r.append(flag);
                r.append("` needs a value");
            },
            ArgError::BadValue(flag, v) => {
                r.append("`");
                r.append(flag);
                r.append("` does not accept `");
                r.append(v);
                r.append("`");
            },
            ArgError::UnknownFlag(flag) => {
                r.append("unknown flag `");
                r.append(flag);
                r.append("`");
            },
            ArgError::UnexpectedValue(flag) => {
                r.append("`");
                r.append(flag);
                r.append("` takes no value");
            },
            ArgError::TooManyFilters(v) => {
                r.append("only one filter is accepted, got `");
                r.append(v);
                r.append("` as well");
            },
        }
        assert(r@ =~= self.words());
        r
    }
}

/// The outcome of parsing, with its texts as sequences of characters.
pub open spec fn outcome(r: Result<Config, ArgError>) -> Result<ConfigView, ArgErrorView> {
    match r {
        Ok(c) => Ok(c@),
        Err(e) => Err(e@),
    }
}

/// The configuration of a run without arguments.
pub open spec fn default_config() -> ConfigView {
    ConfigView {
        filter: None,
        samples: 50,
        time_ms: 1000,
        block: 1,
        interleave: true,
        save_baseline: None,
        baseline: None,
        format: Format::Text,
        list: false,
    }
}

/// An argument taken apart: `--flag=value` is a flag with a value of its own,
/// and everything else is itself.
pub open spec fn flag_and_value(arg: Seq<char>) -> (Seq<char>, Option<Seq<char>>) {
    let i = find_from(arg, '=', 0);
    if 0 <= i < arg.len() && starts_with(arg.subrange(0, i), "--"@) {
        (arg.subrange(0, i), Some(arg.subrange(i + 1, arg.len() as int)))
    } else {
        (arg, None)
    }
}

/// The flags that need a value.
pub open spec fn takes_a_value(flag: Seq<char>) -> bool {
    ||| flag == "--samples"@
    ||| flag == "--time"@
    ||| flag == "--block"@
    ||| flag == "--save-baseline"@
    ||| flag == "--baseline"@
    ||| flag == "--format"@
}

/// The value that a flag gets, and the arguments left after it: its own, or
/// else the next argument. A value that looks like a flag is a forgotten one.
pub open spec fn value_and_rest(inline: Option<Seq<char>>, rest: Seq<Seq<char>>) -> Option<
    (Seq<char>, Seq<Seq<char>>),
> {
    match inline {
        Some(v) => if starts_with(v, "--"@) {
            None
        } else {
            Some((v, rest))
        },
        None => if rest.len() == 0 || starts_with(rest[0], "--"@) {
            None
        } else {
            Some((rest[0], rest.subrange(1, rest.len() as int)))
        },
    }
}

/// The configuration after a flag that needs a value.
pub open spec fn with_value(c: ConfigView, flag: Seq<char>, v: Seq<char>) -> Result<
    ConfigView,
    ArgErrorView,
> {
    let count = spelled_within(v, usize::MAX as nat);
    let millis = spelled_within(v, u64::MAX as nat);
    if flag == "--samples"@ && count is Some {
        Ok(ConfigView { samples: count->0 as usize, ..c })
    } else if flag == "--time"@ && millis is Some {
        Ok(ConfigView { time_ms: millis->0 as u64, ..c })
    } else if flag == "--block"@ && count is Some {
        Ok(ConfigView { block: count->0 as usize, ..c })
    } else if flag == "--save-baseline"@ {
        Ok(ConfigView { save_baseline: Some(v), ..c })
    } else if flag == "--baseline"@ {
        Ok(ConfigView { baseline: Some(v), ..c })
    } else if flag == "--format"@ && v == "text"@ {
        Ok(ConfigView { format: Format::Text, ..c })
    } else if flag == "--format"@ && v == "tsv"@ {
        Ok(ConfigView { format: Format::Tsv, ..c })
    } else {
        Err(ArgErrorView::BadValue(flag, v))
    }
}

/// The flags that `cargo bench` passes through, which mean nothing here.
pub open spec fn is_ignored(flag: Seq<char>) -> bool {
    flag == "--bench"@ || flag == "--test"@ || flag == "--nocapture"@
}

/// The configuration after a flag that needs no value, if it is one.
pub open spec fn switched(c: ConfigView, flag: Seq<char>) -> Option<ConfigView> {
    if flag == "--quick"@ {
        Some(ConfigView { time_ms: QUICK_TIME_MS, ..c })
    } else if flag == "--no-interleave"@ {
        Some(ConfigView { interleave: false, ..c })
    } else if flag == "--list"@ {
        Some(ConfigView { list: true, ..c })
    } else if is_ignored(flag) {
        Some(c)
    } else {
        None
    }
}

/// No count may be zero; the first that is, is the error.
pub open spec fn checked(c: ConfigView) -> Result<ConfigView, ArgErrorView> {
    if c.samples == 0 {
        Err(ArgErrorView::BadValue("--samples"@, decimal(0)))
    } else if c.block == 0 {
        Err(ArgErrorView::BadValue("--block"@, decimal(0)))
    } else if c.time_ms == 0 {
        Err(ArgErrorView::BadValue("--time"@, decimal(0)))
    } else {
        Ok(c)
    }
}

/// What the arguments `args` make of the configuration `c`: read from the left,
/// the first one that cannot be used is the error.
pub open spec fn parsed(c: ConfigView, args: Seq<Seq<char>>) -> Result<ConfigView, ArgErrorView>
    decreases args.len(),
{
    if args.len() == 0 {
        checked(c)
    } else {
        let (flag, inline) = flag_and_value(args[0]);
        let rest = args.subrange(1, args.len() as int);
        if inline is Some && !takes_a_value(flag) {
            Err(ArgErrorView::UnexpectedValue(flag))
        } else if flag == "--help"@ || flag == "-h"@ {
            Err(ArgErrorView::HelpRequested)
        } else if takes_a_value(flag) {
            match value_and_rest(inline, rest) {
                None => Err(ArgErrorView::MissingValue(flag)),
                Some((v, after)) => match with_value(c, flag, v) {
                    Err(e) => Err(e),
                    Ok(next) => parsed(next, after),
                },
            }
        } else if switched(c, flag) is Some {
            parsed(switched(c, flag)->0, rest)
        } else if flag == "--color"@ {
            let after = if rest.len() == 0 {
                rest
            } else {
                rest.subrange(1, rest.len() as int)
            };
            parsed(c, after)
        } else if starts_with(flag, "-"@) {
            Err(ArgErrorView::UnknownFlag(flag))
        } else if c.filter is Some {
            Err(ArgErrorView::TooManyFilters(flag))
        } else {
            parsed(ConfigView { filter: Some(flag), ..c }, rest)
        }
    }
}

/// Does the name of a case, `group/case`, pass the filter?
pub open spec fn passes(c: ConfigView, full_name: Seq<char>) -> bool {
    match c.filter {
        Some(f) => contains(full_name, f),
        None => true,
    }
}

/// A count of at least one.
pub open spec fn at_least_one(n: int) -> int {
    if n < 1 {
        1
    } else {
        n
    }
}

/// The configuration with every count at least one.
pub open spec fn clamped(c: ConfigView) -> ConfigView {
    ConfigView {
        samples: at_least_one(c.samples as int) as usize,
        block: at_least_one(c.block as int) as usize,
        time_ms: at_least_one(c.time_ms as int) as u64,
        ..c
    }
}

impl Default for Config {
    fn default() -> (r: Self)
        ensures
            r@ == default_config(),
    {
        Config {
            filter: None,
            samples: DEFAULT_SAMPLES,
            time_ms: DEFAULT_TIME_MS,
            block: 1,
            interleave: true,
            save_baseline: None,
            baseline: None,
            format: Format::Text,
            list: false,
        }
    }
}

/// Does `flag` need a value?
fn needs_value(flag: &str) -> (r: bool)
    ensures
        r == takes_a_value(flag@),
{
    same(flag, "--samples") || same(flag, "--time") || same(flag, "--block") || same(
        flag,
        "--save-baseline",
    ) || same(flag, "--baseline") || same(flag, "--format")
}

/// Is `flag` one that `cargo bench` passes through?
fn ignored(flag: &str) -> (r: bool)
    ensures
        r == is_ignored(flag@),
{
    same(flag, "--bench") || same(flag, "--test") || same(flag, "--nocapture")
}

/// An argument taken apart into its flag and the value behind `=`.
fn take_apart(arg: &str) -> (r: (String, Option<String>))
    ensures
        (r.0@, opt_text(r.1)) == flag_and_value(arg@),
{
    let all = chars(arg);
    let n = all.len();
    let i = position(&all, '=', 0);
    if i < n {
        let flag = arg.substring_char(0, i);
        if has_prefix(flag, "--") {
            return (flag.to_owned(), Some(arg.substring_char(i + 1, n).to_owned()));
        }
    }
    (arg.to_owned(), None)
}

/// A number given as a flag's value, at most `max`.
fn parse_num(flag: &str, raw: &str, max: u64) -> (r: Result<u64, ArgError>)
    ensures
        match r {
            Ok(n) => spelled_within(raw@, max as nat) == Some(n as nat),
            Err(e) => spelled_within(raw@, max as nat) is None && e@ == ArgErrorView::BadValue(
                flag@,
                raw@,
            ),
        },
{
    match parse_unsigned(raw, max) {
        Some(n) => Ok(n),
        None => Err(ArgError::BadValue(flag.to_owned(), raw.to_owned())),
    }
}

impl Config {
    /// This configuration after a flag with its value.
    fn set(&mut self, flag: &str, v: &str) -> (r: Result<(), ArgError>)
        requires
            takes_a_value(flag@),
        ensures
            match r {
                Ok(_) => with_value(old(self)@, flag@, v@) == Ok::<ConfigView, ArgErrorView>(
                    final(self)@,
                ),
                Err(e) => with_value(old(self)@, flag@, v@) == Err::<ConfigView, ArgErrorView>(e@),
            },
    {
        proof {
            distinct_flags();
        }
        if same(flag, "--samples") {
            match parse_num(flag, v, usize::MAX as u64) {
                Ok(n) => self.samples = n as usize,
                Err(e) => return Err(e),
            }
        } else if same(flag, "--time") {
            match parse_num(flag, v, u64::MAX) {
                Ok(n) => self.time_ms = n,
                Err(e) => return Err(e),
            }
        } else if same(flag, "--block") {
            match parse_num(flag, v, usize::MAX as u64) {
                Ok(n) => self.block = n as usize,
                Err(e) => return Err(e),
            }
        } else if same(flag, "--save-baseline") {
            self.save_baseline = Some(v.to_owned());
        } else if same(flag, "--baseline") {
            self.baseline = Some(v.to_owned());
        } else if same(v, "text") {
            self.format = Format::Text;
        } else if same(v, "tsv") {
            self.format = Format::Tsv;
        } else {
            return Err(ArgError::BadValue(flag.to_owned(), v.to_owned()));
        }
        Ok(())
    }

    /// This configuration after a flag without a value; `false` where `flag`
    /// is no such flag.
    fn switch(&mut self, flag: &str) -> (r: bool)
        ensures
            match switched(old(self)@, flag@) {
                Some(c) => r && final(self)@ == c,
                None => !r && final(self)@ == old(self)@,
            },
    {
        if same(flag, "--quick") {
            self.time_ms = QUICK_TIME_MS;
        } else if same(flag, "--no-interleave") {
            self.interleave = false;
        } else if same(flag, "--list") {
            self.list = true;
        } else {
            return ignored(flag);
        }
        true
    }

    /// Parse an explicit argument list.
    pub fn parse(args: Vec<String>) -> (r: Result<Self, ArgError>)
        ensures
            outcome(r) == parsed(default_config(), texts(args@)),
    {
        let mut cfg = Config::default();
        let n = args.len();
        let ghost all = texts(args@);
        let mut i: usize = 0;
        assert(all.subrange(0, n as int) =~= all);
        while i < n
            invariant
                n == args@.len(),
                all == texts(args@),
                i <= n,
                parsed(default_config(), all) == parsed(cfg@, all.subrange(i as int, n as int)),
            decreases n - i,
        {
            let ghost todo = all.subrange(i as int, n as int);
            let ghost rest = todo.subrange(1, todo.len() as int);
            proof {
                assert(todo[0] == args@[i as int]@);
                assert(rest =~= all.subrange(i + 1, n as int));
                if i + 1 < n {
                    assert(rest[0] == args@[i + 1]@);
                    assert(rest.subrange(1, rest.len() as int) =~= all.subrange(i + 2, n as int));
                }
            }
            let (flag, inline) = take_apart(&args[i]);
            i += 1;
            if inline.is_some() && !needs_value(&flag) {
                return Err(ArgError::UnexpectedValue(flag));
            }
            if same(&flag, "--help") || same(&flag, "-h") {
                return Err(ArgError::HelpRequested);
            }
            if needs_value(&flag) {
                let v = match inline {
                    Some(v) => v,
                    None => {
                        if i == n {
                            return Err(ArgError::MissingValue(flag));
                        }
                        i += 1;
                        args[i - 1].clone()
                    },
                };
                if has_prefix(&v, "--") {
                    return Err(ArgError::MissingValue(flag));
                }
                match cfg.set(&flag, &v) {
                    Ok(_) => {},
                    Err(e) => return Err(e),
                }
            } else if cfg.switch(&flag) {
            } else if same(&flag, "--color") {
                if i < n {
                    i += 1;
                }
            } else if has_prefix(&flag, "-") {
                return Err(ArgError::UnknownFlag(flag));
            } else {
                if cfg.filter.is_some() {
                    return Err(ArgError::TooManyFilters(flag));
                }
                cfg.filter = Some(flag);
            }
        }
        assert(all.subrange(n as int, n as int) =~= Seq::<Seq<char>>::empty());
        if cfg.samples < 1 {
            return Err(ArgError::BadValue("--samples".to_owned(), decimal_text(0)));
        }
        if cfg.block < 1 {
            return Err(ArgError::BadValue("--block".to_owned(), decimal_text(0)));
        }
        if cfg.time_ms < 1 {
            return Err(ArgError::BadValue("--time".to_owned(), decimal_text(0)));
        }
        Ok(cfg)
    }

    /// Does this case's `group/case` name pass the filter?
    pub fn matches(&self, full_name: &str) -> (r: bool)
        ensures
            r == passes(self@, full_name@),
    {
        match &self.filter {
            Some(f) => has_part(full_name, f),
            None => true,
        }
    }

    /// This configuration with counts of zero raised to one. The command line
    /// rejects them, but a configuration built by hand bypasses that check.
    pub fn clamp_counts(self) -> (r: Self)
        ensures
            r@ == clamped(self@),
    {
        let mut r = self;
        if r.samples < 1 {
            r.samples = 1;
        }
        if r.block < 1 {
            r.block = 1;
        }
        if r.time_ms < 1 {
            r.time_ms = 1;
        }
        r
    }
}

/// The flags, letter by letter: what tells them apart from each other and from
/// everything else.
proof fn flags_in_letters()
    ensures
        "-"@ == seq!['-'],
        "--"@ == seq!['-', '-'],
        "--samples"@ == seq!['-', '-', 's', 'a', 'm', 'p', 'l', 'e', 's'],
        "--time"@ == seq!['-', '-', 't', 'i', 'm', 'e'],
        "--block"@ == seq!['-', '-', 'b', 'l', 'o', 'c', 'k'],
        "--save-baseline"@ == seq!['-', '-', 's', 'a', 'v', 'e', '-', 'b', 'a', 's', 'e', 'l', 'i', 'n', 'e'],
        "--baseline"@ == seq!['-', '-', 'b', 'a', 's', 'e', 'l', 'i', 'n', 'e'],
        "--format"@ == seq!['-', '-', 'f', 'o', 'r', 'm', 'a', 't'],
        "--help"@ == seq!['-', '-', 'h', 'e', 'l', 'p'],
        "-h"@ == seq!['-', 'h'],
        "--quick"@ == seq!['-', '-', 'q', 'u', 'i', 'c', 'k'],
        "--no-interleave"@ == seq!['-', '-', 'n', 'o', '-', 'i', 'n', 't', 'e', 'r', 'l', 'e', 'a', 'v', 'e'],
        "--list"@ == seq!['-', '-', 'l', 'i', 's', 't'],
        "--bench"@ == seq!['-', '-', 'b', 'e', 'n', 'c', 'h'],
        "--test"@ == seq!['-', '-', 't', 'e', 's', 't'],
        "--nocapture"@ == seq!['-', '-', 'n', 'o', 'c', 'a', 'p', 't', 'u', 'r', 'e'],
        "--color"@ == seq!['-', '-', 'c', 'o', 'l', 'o', 'r'],
{
    reveal_strlit("-");
    reveal_strlit("--");
    reveal_strlit("--samples");
    reveal_strlit("--time");
    reveal_strlit("--block");
    reveal_strlit("--save-baseline");
    reveal_strlit("--baseline");
    reveal_strlit("--format");
    reveal_strlit("--help");
    reveal_strlit("-h");
    reveal_strlit("--quick");
    reveal_strlit("--no-interleave");
    reveal_strlit("--list");
    reveal_strlit("--bench");
    reveal_strlit("--test");
    reveal_strlit("--nocapture");
    reveal_strlit("--color");
}

/// No two of the flags that need a value are the same.
proof fn distinct_flags()
    ensures
        "--format"@ != "--samples"@,
        "--format"@ != "--time"@,
        "--format"@ != "--block"@,
        "--format"@ != "--save-baseline"@,
        "--format"@ != "--baseline"@,
        "--samples"@ != "--time"@,
        "--samples"@ != "--block"@,
        "--time"@ != "--block"@,
        "--samples"@ != "--save-baseline"@,
        "--samples"@ != "--baseline"@,
        "--time"@ != "--save-baseline"@,
        "--time"@ != "--baseline"@,
        "--block"@ != "--save-baseline"@,
        "--block"@ != "--baseline"@,
{
    flags_in_letters();
    assert("--format"@.len() == 8 && "--samples"@.len() == 9 && "--time"@.len() == 6);
    assert("--block"@.len() == 7 && "--save-baseline"@.len() == 15 && "--baseline"@.len() == 10);
}

/// No flag that needs a value holds an `=`, and each starts with `--`.
proof fn value_flags_are_plain(flag: Seq<char>)
    requires
        takes_a_value(flag),
    ensures
        forall|i: int| 0 <= i < flag.len() ==> flag[i] != '=',
        starts_with(flag, "--"@),
        flag != "--help"@,
        flag != "-h"@,
{
    flags_in_letters();
    assert(flag.subrange(0, 2) =~= "--"@);
    assert(flag.len() >= 6);
    assert("--help"@.len() == 6 && "--help"@[2] == 'h');
    assert("-h"@.len() == 2);
    if flag.len() == 6 {
        assert(flag == "--time"@);
        assert(flag[2] == 't');
    }
}

/// A text without an `=` is its own flag.
proof fn plain_argument_is_its_own_flag(arg: Seq<char>)
    requires
        forall|i: int| 0 <= i < arg.len() ==> arg[i] != '=',
    ensures
        flag_and_value(arg) == (arg, None::<Seq<char>>),
{
    first_is_find_from(arg, '=', 0, arg.len() as int);
}

/// Flags take values either way: `--flag=value` and `--flag value` are the same.
pub proof fn values_are_taken_either_way(
    c: ConfigView,
    flag: Seq<char>,
    v: Seq<char>,
    rest: Seq<Seq<char>>,
)
    requires
        takes_a_value(flag),
    ensures
        parsed(c, seq![flag + seq!['='] + v] + rest) == parsed(c, seq![flag, v] + rest),
{
    value_flags_are_plain(flag);
    let joined = flag + seq!['='] + v;
    first_is_find_from(joined, '=', 0, flag.len() as int);
    assert(joined.subrange(0, flag.len() as int) =~= flag);
    assert(joined.subrange(flag.len() as int + 1, joined.len() as int) =~= v);
    plain_argument_is_its_own_flag(flag);
    let one = seq![joined] + rest;
    let two = seq![flag, v] + rest;
    assert(one[0] == joined && two[0] == flag);
    assert(one.subrange(1, one.len() as int) =~= rest);
    let tail = two.subrange(1, two.len() as int);
    assert(tail[0] == v);
    assert(tail.subrange(1, tail.len() as int) =~= rest);
}

/// A flag where a value belongs means that the value was forgotten, and so does
/// the end of the list.
pub proof fn a_forgotten_value_is_an_error(c: ConfigView, flag: Seq<char>, rest: Seq<Seq<char>>)
    requires
        takes_a_value(flag),
        rest.len() == 0 || starts_with(rest[0], "--"@),
    ensures
        parsed(c, seq![flag] + rest) == Err::<ConfigView, ArgErrorView>(
            ArgErrorView::MissingValue(flag),
        ),
{
    value_flags_are_plain(flag);
    plain_argument_is_its_own_flag(flag);
    let args = seq![flag] + rest;
    assert(args[0] == flag);
    assert(args.subrange(1, args.len() as int) =~= rest);
}

/// A `--flag=value` where the flag takes no value is rejected, whatever the
/// value and whatever follows.
pub proof fn a_value_on_a_valueless_flag_is_an_error(
    c: ConfigView,
    flag: Seq<char>,
    v: Seq<char>,
    rest: Seq<Seq<char>>,
)
    requires
        !takes_a_value(flag),
        starts_with(flag, "--"@),
        forall|i: int| 0 <= i < flag.len() ==> flag[i] != '=',
    ensures
        parsed(c, seq![flag + seq!['='] + v] + rest) == Err::<ConfigView, ArgErrorView>(
            ArgErrorView::UnexpectedValue(flag),
        ),
{
    let joined = flag + seq!['='] + v;
    first_is_find_from(joined, '=', 0, flag.len() as int);
    assert(joined.subrange(0, flag.len() as int) =~= flag);
    assert((seq![joined] + rest)[0] == joined);
}

/// The flags that `cargo bench` passes through change nothing.
pub proof fn pass_through_flags_change_nothing(
    c: ConfigView,
    flag: Seq<char>,
    rest: Seq<Seq<char>>,
)
    requires
        is_ignored(flag),
    ensures
        parsed(c, seq![flag] + rest) == parsed(c, rest),
{
    let args = seq![flag] + rest;
    assert(args[0] == flag);
    assert(args.subrange(1, args.len() as int) =~= rest);
    flags_in_letters();
    assert("--bench"@[2] == 'b' && "--bench"@[3] == 'e' && "--test"@[2] == 't' && "--test"@[3]
        == 'e' && "--nocapture"@[2] == 'n' && "--nocapture"@[3] == 'o');
    assert("--help"@[2] == 'h' && "--quick"@[2] == 'q' && "--list"@[2] == 'l' && "-h"@.len() == 2);
    assert("--samples"@[2] == 's' && "--time"@[3] == 'i' && "--block"@[3] == 'l');
    assert("--save-baseline"@[2] == 's' && "--baseline"@[3] == 'a' && "--format"@[2] == 'f');
    assert("--no-interleave"@.len() == 15 && "--nocapture"@.len() == 11);
    plain_argument_is_its_own_flag(flag);
}

/// A `--color` is passed over together with the value behind it.
pub proof fn a_color_is_passed_over_with_its_value(
    c: ConfigView,
    v: Seq<char>,
    rest: Seq<Seq<char>>,
)
    ensures
        parsed(c, seq!["--color"@, v] + rest) == parsed(c, rest),
        parsed(c, seq!["--color"@]) == parsed(c, Seq::empty()),
{
    let flag = "--color"@;
    let args = seq![flag, v] + rest;
    assert(args[0] == flag);
    let tail = args.subrange(1, args.len() as int);
    assert(tail.subrange(1, tail.len() as int) =~= rest);
    assert(seq![flag][0] == flag);
    assert(seq![flag].subrange(1, 1) =~= Seq::<Seq<char>>::empty());
    flags_in_letters();
    assert("--color"@.len() == 7 && "--color"@[2] == 'c');
    assert("--bench"@[2] == 'b' && "--test"@[2] == 't' && "--nocapture"@[2] == 'n');
    assert("--help"@[2] == 'h' && "--quick"@[2] == 'q' && "--list"@[2] == 'l' && "-h"@.len() == 2);
    assert("--samples"@[2] == 's' && "--time"@[2] == 't' && "--block"@[2] == 'b');
    assert("--save-baseline"@[2] == 's' && "--baseline"@[2] == 'b' && "--format"@[2] == 'f');
    assert("--no-interleave"@[2] == 'n');
    plain_argument_is_its_own_flag(flag);
}

/// An argument that is no flag is the filter, and a second one is an error.
pub proof fn one_filter_is_accepted(c: ConfigView, arg: Seq<char>, rest: Seq<Seq<char>>)
    requires
        !starts_with(arg, "-"@),
    ensures
        parsed(c, seq![arg] + rest) == if c.filter is Some {
            Err::<ConfigView, ArgErrorView>(ArgErrorView::TooManyFilters(arg))
        } else {
            parsed(ConfigView { filter: Some(arg), ..c }, rest)
        },
{
    let args = seq![arg] + rest;
    assert(args[0] == arg);
    assert(args.subrange(1, args.len() as int) =~= rest);
    flags_in_letters();
    assert(arg.len() > 0 ==> arg[0] != '-') by {
        if arg.len() > 0 && arg[0] == '-' {
            assert(arg.subrange(0, 1) =~= "-"@);
        }
    }
    let i = find_from(arg, '=', 0);
    if 0 <= i < arg.len() && starts_with(arg.subrange(0, i), "--"@) {
        let front = arg.subrange(0, i);
        assert(front.subrange(0, 2)[0] == arg[0]);
    }
    assert("--color"@[0] == '-' && "--bench"@[0] == '-' && "--test"@[0] == '-');
    assert("--nocapture"@[0] == '-' && "--help"@[0] == '-' && "-h"@[0] == '-');
    assert("--quick"@[0] == '-' && "--no-interleave"@[0] == '-' && "--list"@[0] == '-');
    assert("--samples"@[0] == '-' && "--time"@[0] == '-' && "--block"@[0] == '-');
    assert("--save-baseline"@[0] == '-' && "--baseline"@[0] == '-' && "--format"@[0] == '-');
}

/// Is this an error that no later argument can put right? A value that is
/// missing at the end of the list may still follow, and a count of zero may
/// still be overridden.
pub open spec fn is_final(e: ArgErrorView) -> bool {
    ||| e is HelpRequested
    ||| e is UnknownFlag
    ||| e is UnexpectedValue
    ||| e is TooManyFilters
}

/// The first error is the answer: a call for help, an unknown flag, an
/// unexpected value and a second filter stay it, whatever follows.
pub proof fn the_first_error_stays(
    c: ConfigView,
    args: Seq<Seq<char>>,
    more: Seq<Seq<char>>,
    e: ArgErrorView,
)
    requires
        parsed(c, args) == Err::<ConfigView, ArgErrorView>(e),
        is_final(e),
    ensures
        parsed(c, args + more) == Err::<ConfigView, ArgErrorView>(e),
    decreases args.len(),
{
    if args.len() > 0 {
        let all = args + more;
        let (flag, inline) = flag_and_value(args[0]);
        let rest = args.subrange(1, args.len() as int);
        let all_rest = all.subrange(1, all.len() as int);
        assert(all[0] == args[0]);
        assert(all_rest =~= rest + more);
        if rest.len() > 0 {
            assert(all_rest[0] == rest[0]);
            assert(all_rest.subrange(1, all_rest.len() as int) =~= rest.subrange(
                1,
                rest.len() as int,
            ) + more);
        }
        if inline is Some && !takes_a_value(flag) {
        } else if flag == "--help"@ || flag == "-h"@ {
        } else if takes_a_value(flag) {
            if let Some((v, after)) = value_and_rest(inline, rest) {
                if let Ok(next) = with_value(c, flag, v) {
                    the_first_error_stays(next, after, more, e);
                }
            }
        } else if switched(c, flag) is Some {
            the_first_error_stays(switched(c, flag)->0, rest, more, e);
        } else if flag == "--color"@ {
            if rest.len() > 0 {
                the_first_error_stays(c, rest.subrange(1, rest.len() as int), more, e);
            } else {
                assert(parsed(c, rest) == checked(c));
            }
        } else if !starts_with(flag, "-"@) && c.filter is None {
            the_first_error_stays(ConfigView { filter: Some(flag), ..c }, rest, more, e);
        }
    }
}

/// A value that its flag cannot use is the answer, whatever follows.
pub proof fn a_bad_value_is_an_error(
    c: ConfigView,
    flag: Seq<char>,
    v: Seq<char>,
    rest: Seq<Seq<char>>,
)
    requires
        takes_a_value(flag),
        !starts_with(v, "--"@),
        with_value(c, flag, v) is Err,
    ensures
        parsed(c, seq![flag, v] + rest) == Err::<ConfigView, ArgErrorView>(
            ArgErrorView::BadValue(flag, v),
        ),
{
    value_flags_are_plain(flag);
    plain_argument_is_its_own_flag(flag);
    let args = seq![flag, v] + rest;
    assert(args[0] == flag);
    assert(args.subrange(1, args.len() as int)[0] == v);
}

/// Whatever the arguments, a configuration that parses has no count of zero.
pub proof fn parsed_counts_are_never_zero(c: ConfigView, args: Seq<Seq<char>>)
    ensures
        parsed(c, args) matches Ok(r) ==> r.samples >= 1 && r.block >= 1 && r.time_ms >= 1,
    decreases args.len(),
{
    if args.len() > 0 {
        let (flag, inline) = flag_and_value(args[0]);
        let rest = args.subrange(1, args.len() as int);
        if takes_a_value(flag) {
            if let Some((v, after)) = value_and_rest(inline, rest) {
                if let Ok(next) = with_value(c, flag, v) {
                    parsed_counts_are_never_zero(next, after);
                }
            }
        } else {
            if let Some(next) = switched(c, flag) {
                parsed_counts_are_never_zero(next, rest);
            }
            parsed_counts_are_never_zero(ConfigView { filter: Some(flag), ..c }, rest);
            if rest.len() > 0 {
                parsed_counts_are_never_zero(c, rest.subrange(1, rest.len() as int));
            } else {
                parsed_counts_are_never_zero(c, rest);
            }
        }
    }
}

/// Clamping leaves what the command line accepted as it is, and clamping twice
/// is clamping once.
pub proof fn clamping_only_raises_zeros(c: ConfigView, args: Seq<Seq<char>>)
    ensures
        parsed(c, args) matches Ok(r) ==> clamped(r) == r,
        clamped(clamped(c)) == clamped(c),
        clamped(c).samples >= 1 && clamped(c).block >= 1 && clamped(c).time_ms >= 1,
{
    parsed_counts_are_never_zero(c, args);
}

/// No arguments are the default configuration, which passes every case.
pub proof fn no_arguments_are_the_default(full_name: Seq<char>)
    ensures
        parsed(default_config(), Seq::empty()) == Ok::<ConfigView, ArgErrorView>(default_config()),
        passes(default_config(), full_name),
{
}

/// The filter passes every full name that it is a part of, and no other.
pub proof fn the_filter_is_a_part_of_the_name(
    c: ConfigView,
    before: Seq<char>,
    filter: Seq<char>,
    after: Seq<char>,
    full_name: Seq<char>,
)
    ensures
        c.filter == Some(filter) ==> passes(c, before + filter + after),
        c.filter == Some(filter) && passes(c, full_name) ==> exists|a: Seq<char>, b: Seq<char>|
            full_name == #[trigger] (a + filter + b),
        c.filter is None ==> passes(c, full_name),
{
    a_part_is_found(before, filter, after);
    if c.filter == Some(filter) && passes(c, full_name) {
        let (a, b) = what_is_found_is_a_part(full_name, filter);
        assert(full_name == a + filter + b);
    }
}

/// A flag and its value make the configuration that the flag makes of it.
proof fn a_flag_with_its_value(
    c: ConfigView,
    flag: Seq<char>,
    v: Seq<char>,
    rest: Seq<Seq<char>>,
    next: ConfigView,
)
    requires
        takes_a_value(flag),
        !starts_with(v, "--"@),
        with_value(c, flag, v) == Ok::<ConfigView, ArgErrorView>(next),
    ensures
        parsed(c, seq![flag, v] + rest) == parsed(next, rest),
{
    value_flags_are_plain(flag);
    plain_argument_is_its_own_flag(flag);
    let args = seq![flag, v] + rest;
    assert(args[0] == flag);
    let tail = args.subrange(1, args.len() as int);
    assert(tail[0] == v);
    assert(tail.subrange(1, tail.len() as int) =~= rest);
}

/// A number in decimal is a value of its own, and no forgotten one.
proof fn decimals_are_values(n: nat)
    ensures
        !starts_with(decimal(n), "--"@),
        spelled_within(decimal(n), n) == Some(n),
{
    decimal_spells(n);
    flags_in_letters();
    assert(is_digit(decimal(n)[0]));
    if starts_with(decimal(n), "--"@) {
        assert(decimal(n).subrange(0, 2)[0] == decimal(n)[0]);
        assert("--"@[0] == '-');
    }
}

/// Each count flag sets its own count, to the number that follows it and
/// whatever that is, and nothing else.
pub proof fn count_flags_set_their_count(
    c: ConfigView,
    count: usize,
    millis: u64,
    rest: Seq<Seq<char>>,
)
    ensures
        parsed(c, seq!["--samples"@, decimal(count as nat)] + rest) == parsed(
            ConfigView { samples: count, ..c },
            rest,
        ),
        parsed(c, seq!["--block"@, decimal(count as nat)] + rest) == parsed(
            ConfigView { block: count, ..c },
            rest,
        ),
        parsed(c, seq!["--time"@, decimal(millis as nat)] + rest) == parsed(
            ConfigView { time_ms: millis, ..c },
            rest,
        ),
{
    distinct_flags();
    let (n, t) = (decimal(count as nat), decimal(millis as nat));
    decimals_are_values(count as nat);
    decimals_are_values(millis as nat);
    a_flag_with_its_value(c, "--samples"@, n, rest, ConfigView { samples: count, ..c });
    a_flag_with_its_value(c, "--block"@, n, rest, ConfigView { block: count, ..c });
    a_flag_with_its_value(c, "--time"@, t, rest, ConfigView { time_ms: millis, ..c });
}

/// Each name flag takes its name as it stands, and the format flag knows two
/// formats. Nothing else changes.
pub proof fn text_flags_set_their_text(c: ConfigView, name: Seq<char>, rest: Seq<Seq<char>>)
    requires
        !starts_with(name, "--"@),
    ensures
        parsed(c, seq!["--save-baseline"@, name] + rest) == parsed(
            ConfigView { save_baseline: Some(name), ..c },
            rest,
        ),
        parsed(c, seq!["--baseline"@, name] + rest) == parsed(
            ConfigView { baseline: Some(name), ..c },
            rest,
        ),
        parsed(c, seq!["--format"@, "text"@] + rest) == parsed(
            ConfigView { format: Format::Text, ..c },
            rest,
        ),
        parsed(c, seq!["--format"@, "tsv"@] + rest) == parsed(
            ConfigView { format: Format::Tsv, ..c },
            rest,
        ),
{
    distinct_flags();
    flags_in_letters();
    reveal_strlit("text");
    reveal_strlit("tsv");
    assert("--save-baseline"@.len() != "--baseline"@.len());
    assert("text"@.len() == 4 && "tsv"@.len() == 3);
    assert("text"@[0] == 't' && "tsv"@[0] == 't' && "--"@[0] == '-');
    if starts_with("text"@, "--"@) {
        assert("text"@.subrange(0, 2)[0] == 't');
    }
    if starts_with("tsv"@, "--"@) {
        assert("tsv"@.subrange(0, 2)[0] == 't');
    }
    let (save, load) = ("--save-baseline"@, "--baseline"@);
    a_flag_with_its_value(c, save, name, rest, ConfigView { save_baseline: Some(name), ..c });
    a_flag_with_its_value(c, load, name, rest, ConfigView { baseline: Some(name), ..c });
    let flag = "--format"@;
    a_flag_with_its_value(c, flag, "text"@, rest, ConfigView { format: Format::Text, ..c });
    a_flag_with_its_value(c, flag, "tsv"@, rest, ConfigView { format: Format::Tsv, ..c });
}

/// Each switch turns one thing, and nothing else.
pub proof fn switches_turn_one_thing(c: ConfigView, rest: Seq<Seq<char>>)
    ensures
        parsed(c, seq!["--quick"@] + rest) == parsed(ConfigView { time_ms: 200, ..c }, rest),
        parsed(c, seq!["--no-interleave"@] + rest) == parsed(
            ConfigView { interleave: false, ..c },
            rest,
        ),
        parsed(c, seq!["--list"@] + rest) == parsed(ConfigView { list: true, ..c }, rest),
        parsed(c, seq!["--help"@] + rest) == Err::<ConfigView, ArgErrorView>(
            ArgErrorView::HelpRequested,
        ),
        parsed(c, seq!["-h"@] + rest) == Err::<ConfigView, ArgErrorView>(
            ArgErrorView::HelpRequested,
        ),
{
    a_switch(c, "--quick"@, rest);
    a_switch(c, "--no-interleave"@, rest);
    a_switch(c, "--list"@, rest);
    flags_in_letters();
    let (long, short) = (seq!["--help"@] + rest, seq!["-h"@] + rest);
    assert(long[0] == "--help"@ && short[0] == "-h"@);
    plain_argument_is_its_own_flag("--help"@);
    plain_argument_is_its_own_flag("-h"@);
}

/// A switch makes the configuration that it makes, and the rest is read on.
proof fn a_switch(c: ConfigView, flag: Seq<char>, rest: Seq<Seq<char>>)
    requires
        flag == "--quick"@ || flag == "--no-interleave"@ || flag == "--list"@,
    ensures
        parsed(c, seq![flag] + rest) == parsed(
            if flag == "--quick"@ {
                ConfigView { time_ms: 200, ..c }
            } else if flag == "--no-interleave"@ {
                ConfigView { interleave: false, ..c }
            } else {
                ConfigView { list: true, ..c }
            },
            rest,
        ),
        "--quick"@ != "--no-interleave"@,
        "--quick"@ != "--list"@,
        "--no-interleave"@ != "--list"@,
{
    let args = seq![flag] + rest;
    assert(args[0] == flag);
    assert(args.subrange(1, args.len() as int) =~= rest);
    flags_in_letters();
    assert("--quick"@[2] == 'q' && "--no-interleave"@[2] == 'n' && "--list"@[2] == 'l');
    assert("--help"@[2] == 'h' && "-h"@.len() == 2);
    assert("--samples"@[2] == 's' && "--time"@[2] == 't' && "--block"@[2] == 'b');
    assert("--save-baseline"@[2] == 's' && "--baseline"@[2] == 'b' && "--format"@[2] == 'f');
    plain_argument_is_its_own_flag(flag);
}

/// The defaults: fifty samples in a second per case, one per visit, interleaved,
/// as text, with nothing filtered, listed, saved or loaded.
pub proof fn the_defaults_are_the_documented_ones()
    ensures
        parsed(default_config(), Seq::empty()) == Ok::<ConfigView, ArgErrorView>(
            ConfigView {
                filter: None,
                samples: 50,
                time_ms: 1000,
                block: 1,
                interleave: true,
                save_baseline: None,
                baseline: None,
                format: Format::Text,
                list: false,
            },
        ),
{
}

} // verus!
