//! A persistent first-in first-out queue of byte records, laid out as length-prefixed
//! frames over a growing row of fixed-size memory-mapped arenas.
//!
//! A record is an eight-byte little-endian length and the payload. Records follow one
//! another through the arenas; a payload may go on from one arena into the next, a
//! length word never does. Two cursors, kept in an index of 32 bytes, say where the next
//! record is read and where the next one is written.
//!
//! The library decides where every byte goes and proves that what was appended comes
//! back, record by record, in the order in which it was appended. It maps no file
//! itself: the caller hands it the maps, and is told by name which file to map next.

pub mod arena;
pub mod cache;
pub mod codec;
pub mod config;
pub mod cursor;
pub mod error;
pub mod fifo;
pub mod index;
pub mod names;
pub mod pages;
pub mod queue;
pub mod stream;

pub use arena::Arena;
pub use config::Config;
pub use error::Error;
pub use index::Index;
pub use pages::Page;
pub use queue::BigQueue;
