//! A hash map of bounded size, laid out as plain bytes in one block of memory,
//! that gives up its least recently used entries when it runs out of room.
pub mod bucket;
pub mod clock;
pub mod codec;
pub mod contents;
pub mod error;
pub mod exact;
pub mod history;
pub mod laws;
pub mod map;
pub mod memory;
pub mod plain;
pub mod region;

pub use bucket::{Bucket, Timestamp};
pub use codec::{Encoded, Storable};
pub use contents::{SharedMemoryContents, SharedMemoryHashMapBucketIter};
pub use error::Error;
pub use map::{SharedMemoryHashMap, SharedMemoryHashMapIter};
