# adr_optimizer

A linear ADR optimizer for FSRS decks: it searches the three parameters of a linear
adaptive desired-retention policy (flat offset, short-term factor, difficulty factor)
for a deck preset, ranks the simulated points against a fixed-retention curve, and
reports Recommended, Aggressive, Calm and other labelled points.

## Layout

- `src/` is the verified library (Verus). It holds the decisions of the search:
  - `cli`, `options`, `overrides`, `config`: the command-line grammar, integer
    parsing, JSON override keys and the order in which they apply, point-only
    selection, the quality presets and the preset of each batch job;
  - `keyed`: ordered collections with one entry per point key (deduplication,
    upserts, promotion of ranked points, local-search seeds);
  - `labels`: the labels of reference points, and labels grouped by point key;
  - `ranking`: the integer order keys of binary64 bit patterns, stable sorting by
    them, the Pareto frontier, the ranked lists, the choice of a best entry, the steps
    of the local hill climb and the labelled points;
  - `domain`: the integer grid of the first search phase and how it grows round
    by round;
  - `safety`: the safety pool and the safety pre-screen;
  - `export`: the rows of an export file, each line read as JSON (through `serde_json`)
    with the names the row is known by, and choosing a row by preset or deck name;
  - `text`, `types`: point keys, labels, file-name-safe names and script escaping.
- `app/` is the program around it: reading exports and batch files, running the
  simulator, turning real numbers into the library's order keys, and writing the
  JSON, HTML, PNG and text reports.
- `tests/` exercises the library on concrete values.

Real numbers never enter the library. Where the search compares them, the program
hands the library their bit patterns, and the library makes integer keys that order as
`f64::total_cmp` orders the numbers.
