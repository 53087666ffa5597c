//! A minimal log-structured key-value store in the Bitcask style.
//!
//! Every write is appended to a single log of length-prefixed entries; an
//! in-memory index maps each key to the position of its latest value, and a
//! merge rewrites only the live entries into a fresh log.  The modules here
//! hold the whole logic of the engine: the entry format, the index, the
//! recovery scan and the decisions of the store.  Moving bytes to and from
//! the file is left to the caller.
pub mod entry;
pub mod index;
pub mod log;
pub mod model;
pub mod store;
pub mod laws;
