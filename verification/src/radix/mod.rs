pub mod traits;
pub mod cow;
pub mod art;
pub mod sharded;

pub use art::ArtOrderedMap;
pub use cow::RadixOrderedMap;
pub use sharded::{ShardRoot, ShardedArtSnapshot};
pub use traits::{OrderedMap, SnapshotMap};
