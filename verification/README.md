# benchit

The verified core of a minimal benchmarking harness for Rust, and the harness
around it.

`src/` is the library: everything the harness decides, over whole nanoseconds
and texts, with contracts that Verus proves.

| module | what it holds |
| --- | --- |
| `cli` | the configuration of a run and the argument list that spells it |
| `group` | the cases of a group and the amounts they declare |
| `bencher` | what a benchmark body reports, and how the size of a batch is chosen |
| `runner` | which cases run, how many samples each gets, in which order, and the summary |
| `measurement` | the measuring of a group batch by batch, from calibration to result |
| `stats` | order statistics, exact over the reals, of times and of per-round ratios |
| `report` | the two reporters: aligned text and tab-separated rows |
| `baseline` | saved baselines: names, files, merging |
| `bench` | a run from its configuration to the rows it saves |
| `number`, `text` | numbers as text, and text as a sequence of characters |

`app/` is ordinary Rust: the clock, the benchmark bodies, the files, the
terminal, and all floating-point rendering. A sample reaches the library as the
nanoseconds of one batch. What comes back of a quantile is its two neighbouring
samples and its place between them, so that every comparison is exact and
numbers are rounded only on their way to the reader.

`tests/` runs the library on a clock that the tests turn by hand.
