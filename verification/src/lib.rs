//! Portable, allocation-light collections with scope checkpoint/rollback:
//! bijective maps, scoped stacks and queues, and copy-on-write radix maps
//! with O(1) snapshots, each with its behaviour stated as a contract and
//! proved.
use vstd::prelude::*;

pub mod lex;
pub mod ranges;
pub mod values;
pub mod primitives;
pub mod radix;
pub mod queues;
pub mod bijectives;

pub use primitives::{Checkpoint, ScopedRollback};
pub use bijectives::{BTreeBimap, DenseIndex, FlatRadixBimap, InsertError};
pub use queues::{DequeScopedQueue, HeaplessLog, VecScopedStack};
pub use radix::{ArtOrderedMap, RadixOrderedMap, ShardRoot, ShardedArtSnapshot};
