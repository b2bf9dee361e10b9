# portable_collections

Collections built around one idea, **scoped rollback**: a structure hands out a
`checkpoint()` mark and can later be rolled back to it with `rollback_to(mark)`,
every backing store at once, newest entries first.

The library in `src/` is written in Verus: its functions carry contracts over
a mathematical model of each type, and the contracts, the type invariants and
the laws of the library are proved. One small function that builds the inline
array of `HeaplessLog` calls `core::array::from_fn` unverified and promises
nothing about the slots it returns. The callback walks (`for_each_range`)
promise that the callback was called on every entry in range; the order of
the calls is what the lazy walk and `range_ref` state, not the callback walk.
The tree statistics (`node_count`, `approx_bytes`, ...) demand that their
totals fit a `usize`; `metric_fits` and `nodes_fit` test that first.

## Layout

- `src/primitives/` — the trait vocabulary: `Container`, `Clearable`,
  `Checkpoint` and `ScopedRollback` (with the rollback laws over logs),
  `Push`/`TryPush`/`Pop`/`Pull`, `ScopedStack`/`ScopedQueue`, `Bimap`, the
  map/set shims and facades, and the byte-keyed `OrderedMap`/`SnapshotMap`.
  `trees.rs` and `hashkvs.rs` implement the map/set facades for the standard
  `BTreeMap`/`BTreeSet` and `HashMap`/`HashSet`, queried by the key type
  itself; their contracts hold where the key type orders (or hashes and
  compares) lawfully, which `Container::lawful_model` names.
- `src/queues/` — `VecScopedStack`, `HeaplessLog` (inline array, no
  allocation) and `DequeScopedQueue`.
- `src/bijectives/` — `BTreeBimap` and `FlatRadixBimap` (dense integer keys),
  modelled as an insertion log whose forward and reverse maps are kept equal
  to the maps of the log; the bijection and atomic-rollback laws.
- `src/radix/` — `RadixOrderedMap` (byte-radix trie) and `ArtOrderedMap`
  (adaptive radix tree with N4/N16/N48/N256 containers), both copy-on-write
  with O(1) snapshots, ordered ranges and a lazy range walk (`ArtRangeRef`);
  `sharded` holds the seq-stamped shard trees, the shard hash and the batch
  planning and folding behind the concurrent map.
- `src/lex.rs`, `src/ranges.rs`, `src/values.rs` — byte-string order, range
  results, and what cloning a value keeps.
- `app/` — the lock-free `ShardedArtOrderedMap` (atomic root swaps through
  `arc-swap`), the float depth statistics, and a displayable insert error.
- `tests/` — tests run against the compiled library.
