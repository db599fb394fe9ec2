# prompt-eval-rubric

Score outputs of language models against named rubrics from zero to one, and
aggregate the scores of a weighted set of rubrics into one overall score. The
library is written in Verus, and its contracts are proved.

## Layout

- `src/rubric.rs`, `src/rubric_set.rs`, `src/score.rs`: rubrics, sets of them,
  scores and reports.
- `src/average.rs`: the weighted average behind the overall score.
- `src/binary64.rs`, `src/arithmetic.rs`, `src/rounding.rs`: the 64-bit binary
  floating-point numbers that scores and weights are, given by their encoding.
  Sums, products and quotients are proved to be the exact result rounded to the
  nearest number, ties to even.
- `src/average_laws.rs`, `src/set_laws.rs`: what holds of the library as a
  whole, as public proof functions.
- `src/text.rs`: debug output.
- `app/`: the same interface over `f64` and plain closures. It catches the
  panics of scorers, and its scores and reports print their numbers.

## Scorers

A scorer is any `Fn(&str, Option<&serde_json::Value>)` that hands back either
its value, with or without a reason, or the panic that ended it. Values are
clipped to the unit interval, and what is not a number counts as zero. A panic
scores zero and is told in the reason; the other rubrics are not affected.

## What is taken on trust

- `serde_json::Value` is carried through to the scorers and never looked into.
- The quoting of names in the debug output of a set is the standard library's.
