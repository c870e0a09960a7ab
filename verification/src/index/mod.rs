//! The specialist k-nearest-neighbour index: a partitioned tree of bounding boxes over
//! quantized reference vectors stored in blocks of eight lanes.

pub mod exactness;
pub mod format;
pub mod knn;
pub mod layout;
pub mod search;

pub use layout::{
    IndexError, IndexMetadata, IndexModel, Node, Partition, SearchMode, SearchStats,
    SpecialistIndex,
};
pub use search::compute_partition_key;
