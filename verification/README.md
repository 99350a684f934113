# onix_core

Deep structural comparison of Python-shaped values, with reports in the layout
that `DeepDiff` prints, verified with Verus.

- `src/` is the library. Every function in it states what it computes, and Verus
  proves it.
  - `value`, `canonical`, `order`, `walk`: the values that are compared, and the
    fixed order that dicts and sets keep.
  - `datetime`, `float`, `float_math`, `numeric_text`, `shortest`, `big`: Python's
    calendar types, and floats as bit patterns: arithmetic, reading and printing.
  - `text`, `repr`, `path`, `unified_diff`: how values, paths and differences of
    texts are written down.
  - `scalar_key`, `lcs`: `difflib`'s opcodes over lists of scalars.
  - `diff`: the comparison. `diff::model` says what it finds, as a function of
    both values; `diff::laws` states what holds of every comparison,
    `diff::limit` that a comparison in order which succeeds finds the same under
    every wider limit, `diff::reach` that values within the limit are never too
    deep to compare, `diff::places` where findings stand, `diff::neutral` that
    without order neither remembered distances nor a limit that is wide enough show
    in a report, and `diff::tokens` that values without tokens are compared alike
    whatever stands for tokens, and that a comparison which ends compares tokens as
    what stands for them.
  - `ignore_order`: lists compared without regard to order: keys of items,
    distances, pairing; and the values that stand for tokens, with the test that
    a comparison of them ends. `ignore_order::pairing` shows that an item goes with
    the nearest one, `ignore_order::rearranged` that order and repetition leave the
    keys as they are, `ignore_order::identified` that keys tell apart whatever is
    not alike, `ignore_order::replayed` that keys found again are the same, and
    `ignore_order::digest` that equal values have one hash.
  - `report`, `error`: what a comparison gives. `mutual` shows what becomes of items
    that are added and removed at one path.
- `app/` is ordinary Rust around the library: JSON in and out, and errors as
  `std::error::Error`.
- `tests/` holds the tests.
