# vec_collections

Sets, maps, interval sets and a radix tree, each stored in sorted `Vec`s, with their
behaviour stated as Verus contracts over mathematical models (`Set<int>`, `Map`, `Seq`) and
proved.

Layout of `src/`:

- `key`: the `SortKey` trait — element types ordered by an integer key.
- `sorted`, `set_merge`: strictly ascending sequences, binary search, and the merges of two
  such sequences under a set operation.
- `array_set`, `total_array_set`, `range_set`, `boundary`, `countable_interval_set`: finite
  sets, sets with a complement flag, and sets of ranges given by their boundaries.
- `kind`, `interval`, `interval_seq`, `interval_text`, `text`: intervals, sets of intervals
  over totally ordered keys, and their text form (parsed with `regex`).
- `array_map`: a map as a vector of entries with ascending keys, and its joins.
- `total_array_map`: an array map with a default value, so that every key has a value.
- `radix_tree`: a map from key sequences to values that shares common prefixes.
- `dedup`, `sonic_reducer`, `flip_buffer`, `total_seq`: sorting with deduplication,
  balanced reduction, in-place vector building, and sequences with a default value.
- `laws`: the algebra that the set types obey through their models.
- `trusted`: the few calls into `std` and `regex` whose contracts are assumed.

Elements live in plain `Vec`s; no inline small-vector storage is used, and the in-place
vector builders keep their target and source parts in two vectors.

`app/main.rs` reads intervals from standard input and prints their normal form.
