# roaring

A compressed bitmap of 32-bit integers in the roaring layout, verified with
Verus, together with model-based properties that compare it against a
`BTreeSet`.

Values are grouped by their high 16 bits into containers sorted by key. Each
container keeps the low 16 bits in one of three stores: a sorted array (at
most 4096 values), sorted non-adjacent runs, or a bitmap of 1024 words.
A double-ended iterator walks the values in increasing order and can skip
ahead from either end (`nth`, `nth_back`, `advance_to`, `advance_back_to`).

Layout:

- `src/order.rs`: strictly increasing sequences and filters over them.
- `src/runs.rs`, `src/bits.rs`, `src/store.rs`: the three stores and the
  positions (cursors) in them.
- `src/bitmap/mod.rs`: `RoaringBitmap` (insert, insert_range, contains, len,
  count_below, range_cardinality); `src/bitmap/iter.rs`: its iterator.
- `src/model.rs`: the `BTreeSet` model walked in order.
- `src/etna.rs`: the recipes (points and ranges) that build a bitmap and a
  model, and the properties that compare them.
- `src/laws.rs`: laws relating several operations.
- `app/main.rs`: a command-line runner that drives the properties with
  proptest, quickcheck, crabcheck or hegel and prints a JSON line.
