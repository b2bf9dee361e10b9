pub mod pairs;
pub mod btree_bimap;
pub mod flat_radix_bimap;

pub use btree_bimap::{BTreeBimap, InsertError};
pub use flat_radix_bimap::{DenseIndex, FlatRadixBimap};
