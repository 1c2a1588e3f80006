//! A single-table record store kept in fixed-size pages.
//!
//! Rows have a fixed binary layout and are packed into 4096-byte pages.
//!
//! - [`db`] holds the row codec and the table, which maps row numbers to
//!   pages.
//! - [`pager`] is the page cache. It decides which bytes have to be read
//!   from or written to the backing file; the caller owns the file and
//!   carries those transfers out.
//! - [`file`] models the backing file and shows what a close leaves in it.
//! - [`packing`] proves how rows lie in the pages and what follows from it,
//!   up to rows coming back after a close and a reopen.
//! - [`cli`] turns lines of text into statements and runs them against a
//!   table.
//! - [`text`] has the helpers for bytes and text that the others share.

pub mod cli;
pub mod db;
pub mod file;
pub mod packing;
pub mod pager;
pub mod text;
