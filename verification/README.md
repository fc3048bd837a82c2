# hive

A bucket-based unordered container with stable element handles, verified
with Verus.

Elements live in blocks of slots. Erased slots are kept in per-block free
lists of skipblocks and reused by later insertions, so an element keeps its
handle until it is erased, whatever else is inserted or erased.

## Layout

- `src/hive.rs` — the container: insertion, erasure, lookup, capacity
  management (`reserve`, `trim_capacity`, `shrink_to_fit`, `reshape`),
  bulk operations, `retain`, `unique`, `splice`, and the laws that relate
  them (`lemma_*` proof functions with `pub`).
- `src/group.rs`, `src/free_list.rs`, `src/skipfield.rs` — a block, its
  skipfield and its free list of erased runs; cursors.
- `src/contents.rs` — the model: a hive's contents are the sequence of
  `(handle, value)` pairs of its occupied slots, block after block.
- `src/iter.rs` — shared, mutable and consuming traversals.
- `src/sort.rs` — sorting by a comparator or by `Ord`; values move between
  slots, handles stay.
- `src/pool.rs` — an object pool whose tokens own their objects.
- `src/tag.rs` — the random tag that tells apart the blocks of different
  hives.
- `app/lib.rs` — what needs the standard library's locks or iterator
  traits: a pool shared between threads, and iterator adapters.
- `tests/` — the test suite.

## Model

`hive@` is a `Seq<(Handle, T)>` in iteration order. Every operation states
its effect on that sequence; for instance an insertion inserts one pair at
some position and an erasure removes the pair of the erased handle. Capacity
is stated exactly where the growth rule fixes it.
