//! Verified core of a ledger price-updating tool.
//!
//! The library turns freshly fetched daily closing prices into ledger price
//! directives, parses the price directives already present in a ledger file,
//! merges the two (fetched data wins on a shared date), and renders the new
//! file contents sorted by date, newest first.
//!
//! All text is handled as UTF-8 byte sequences (`Vec<u8>`); the surrounding
//! binary does the file and network I/O and hands plain values in and out.

pub mod bytes;
pub mod ledger;
pub mod output;
pub mod prices;
pub mod render;
pub mod update;
