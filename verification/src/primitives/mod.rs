pub mod container;
pub mod checkpointing;
pub mod queue;
pub mod scoped_log;

pub use container::{Clearable, Container};
pub use checkpointing::{Checkpoint, ScopedRollback};
pub use queue::{Pop, Pull, Push, TryPush};
pub use scoped_log::{ScopedQueue, ScopedStack};
pub mod facade;

pub use facade::{MapFacade, MapInsertShim, MapReadShim, MapRefKeyInsertShim, MapRefKeyShim, MapShim, SetFacade, SetReadShim, SetShim};
pub mod ordered;

pub use ordered::{OrderedMap, SnapshotMap};
pub mod bijection;

pub use bijection::Bimap;
pub mod trees;
pub mod hashkvs;
