//! The write path of an embedded, ordered key-value storage engine: the
//! encoding of write batches, the block-structured write-ahead log, and the
//! multi-versioned in-memory table.
//!
//! A write is staged by the [`database`], framed for the log by the
//! [`log_writter`], and added to the [`mem_table`] once the log has it. After
//! a crash the [`log_reader`] gives back the batches that reached the log, and
//! the database is recovered from them. The library does no I/O: it hands out
//! the bytes to write and takes the bytes that were read.

pub mod checksum;
pub mod database;
pub mod internal_key;
pub mod log_reader;
pub mod log_writter;
pub mod mem_table;
pub mod skiplist;
pub mod slice;
pub mod utils;
pub mod write_batch;
