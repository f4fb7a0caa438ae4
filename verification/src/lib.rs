//! Read path of a block-compressed document store.
//!
//! A store file is a data segment of compressed blocks, followed by a
//! serialized skip index, followed by an eight-byte footer that says where the
//! index begins. A reader resolves a document id to the block that holds it,
//! decompresses that block at most once while it stays in a bounded
//! least-recently-used cache, and cuts the document out of the block.

pub mod error;
pub mod vint;
pub mod block;
pub mod footer;
pub mod index;
pub mod codec;
pub mod lru_cache;
pub mod cache;
pub mod space_usage;
pub mod reader;

pub use cache::BlockCache;
pub use codec::Codec;
pub use error::DocId;
pub use error::StoreError;
pub use index::Checkpoint;
pub use index::SkipIndex;
pub use reader::StoreReader;
pub use space_usage::StoreSpaceUsage;
