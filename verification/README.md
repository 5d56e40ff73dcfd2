# roaring

Compressed sets of integers, verified with Verus.

- `src/bitmap/` holds the 32-bit bitmap. A value is split into a 16-bit key
  and a 16-bit low half; each `Container` keeps the low halves under one key in
  a `Store` (a sorted array, or a marker for all 65536 of them).
  `RoaringBitmap` keeps its containers sorted by key, never empty, and the
  array stores never full, so that two bitmaps with the same values are laid
  out the same way. `cmp.rs` walks the containers of two bitmaps side by side
  (`Pairs`) for `is_disjoint`, `is_subset` and `is_superset`, and cuts such a
  walk into independent parts (`ParPairsProducer::split`) that yield the same
  pairs in order.
- `src/artmap/` holds a set of `u64` values whose high halves are the keys of
  an adaptive radix tree from the `blart` crate (`art.rs` declares the calls it
  makes), with a `Container` (all values, or a bitmap) under each key;
  `compare.rs` walks the entries of two such trees side by side.
- `app/` runs the walk over pairs of containers on `rayon`'s thread pool,
  with the cuts that the library decides.
