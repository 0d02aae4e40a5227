//! A key-value and vector storage engine.
//!
//! - [`engine`]: the engine itself.
//! - [`memtable`], [`wal`] and [`sstable`]: write buffer, log and tables.
//! - [`hnsw`] and [`quantize`]: the vector index, and an 8-bit quantizer.
//! - [`io`]: the storage abstraction.
//! - [`order`], [`assoc`], [`keymap`], [`codec`] and [`checksum`]: keys in
//!   order, maps by key, and bytes.

pub mod assoc;
pub mod checksum;
pub mod codec;
pub mod engine;
pub mod error;
pub mod hnsw;
pub mod io;
pub mod keymap;
pub mod memtable;
pub mod order;
pub mod quantize;
pub mod sstable;
pub mod wal;

pub use engine::{Engine, NearestResult, Options};
pub use error::{Error, Result};
pub use quantize::ScalarQuantizer;
