//! An embedded key-value store in the Bitcask style: an append-only log of
//! encoded commands, and an ordered index from each live key to the place of
//! its latest record.
//!
//! The directory that holds the logs is modelled by [`Disk`], a value that
//! the store owns. Every change to it is also recorded as a [`DiskOp`], so
//! that a program around the library can carry the same change out on a real
//! file system.

pub mod buffer_with_pos;
pub mod cache;
pub mod codec;
pub mod disk;
pub mod engine;
pub mod error;
pub mod server;
pub mod utils;

pub use crate::buffer_with_pos::reader::Reader;
pub use crate::cache::chunk::{Chunk, ChunkState, State};
pub use crate::cache::lru_cache::{LruCacheManager, LruHandle};
pub use crate::cache::no_cache::{NoCache, NoCacheManager};
pub use crate::cache::{Cache, CacheManager, CacheManagerEnum, SeekFrom, DEFAULT_CACHE_SIZE};
pub use crate::codec::Command;
pub use crate::disk::{Disk, DiskOp, LogFile};
pub use crate::engine::buffer::BufWriter;
pub use crate::engine::cykv::{CyStore, CyStoreWriter, DirEntry, COMPACT_THRESHOLD};
pub use crate::engine::keydir::{Keydir, LogIndex};
pub use crate::engine::KvEngine;
pub use crate::error::{CyKvError, Result};
pub use crate::server::{
    answer_done, answer_value, respond, serve, Incoming, Request, Response, Step,
};
pub use crate::utils::{log_path, parse_log_name};
