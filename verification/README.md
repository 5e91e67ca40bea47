# rustlab

A collection of small Rust exercises whose logic is written and proved in Verus.

- `src/` is the verified library:
  - `token`, `scanner`, `parser`: the calculator language. The scanner's and the
    recursive-descent parser's results are stated exactly against a grammar written
    as spec functions.
  - `earley`: an Earley recogniser for the same language, the trees it records
    (`forest`), where every recorded item comes from (`derivation`), and the
    grammar's language, which is exactly what the recogniser accepts (`language`).
  - `heap`: a binary max-heap of `u64`, modelled as a multiset.
  - `vigenere`: the Vigenère cipher over ASCII letters, and reading a key.
  - `reader`, `zipbomb`, `text`, `progress`: command-line checking, entry
    extraction (through `regex`), hexadecimal decoding (through `hex`), path
    naming, trimming and decimal numerals.
  - `sync`: the decisions of a spin lock, a futex mutex and condition variable, a
    reader-writer lock and a one-shot channel, with the laws they keep.
- `app/` is the program around it: the read-evaluate-print loops, floating-point
  evaluation, file and process I/O, and the locks themselves on real atomics and
  futexes, each asking the library what to do next.
- `tests/` runs the library on concrete values.

## Notes

- The Earley recogniser handles, at each position, the items of that position's
  set in the order they are made; an item it scans goes to the next set and is
  handled at the next position. `recognise` states both halves of what it is for:
  an accepted input is derived by the start rule, and, when no rule is empty,
  every input that the start rule derives is accepted.
- An item set is a vector whose items have pairwise distinct keys (rule, start,
  dot), rather than a `HashSet` of items with a hand-written `Eq` and `Hash`. vstd
  specifies `HashSet` only for keys whose hashing it knows; for a struct key with
  hand-written `Eq`/`Hash` no call would tell anything of the set's contents. The
  vector also walks the items in the order they were added, which the recogniser's
  contracts rely on, where a `HashSet` walks in an order that its hasher decides.
- Heap items need an `Ord` whose `cmp` is a total order agreeing with `==`, which
  is what `Ord`'s documentation asks of every implementation (`total_order`).
