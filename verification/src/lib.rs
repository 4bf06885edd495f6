//! A log-structured key-value store in the Bitcask design.
//!
//! Every write appends a checksummed record to a segmented log; an in-memory
//! key directory maps each live key to the position of its latest record.
//! Compaction rewrites the live records into a fresh segment together with a
//! hint segment that lets the key directory be rebuilt without reading values.

pub mod bitcask;
pub mod codec;
pub mod error;
pub mod hint;
pub mod keydir;
pub mod memlog;
pub mod protocol;
pub mod record;
pub mod render;
pub mod segment;
pub mod storage;

pub use bitcask::{Bitcask, Options, Stats};
pub use error::Error;
pub use protocol::{Request, Response};
