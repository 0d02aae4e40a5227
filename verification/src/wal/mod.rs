//! Write-ahead log.
//!
//! The log is an append-only sequence of records that captures every mutation
//! before it is acknowledged. After a crash it is replayed.
//!
//! - [`record`]: the format of a record.
//! - [`writer`]: append and sync.
//! - [`reader`]: replay that stops at a torn tail.
//! - [`log`]: the content of a whole log, and what replay makes of it.
//! - [`message`]: numbers in the messages of errors.

pub mod log;
pub mod message;
pub mod reader;
pub mod record;
pub mod writer;

pub use reader::{OwnedRecord, WalReader};
pub use record::RecordKind;
pub use writer::WalWriter;
