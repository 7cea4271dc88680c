//! Reading the on-disk structures of an SQLite database file: the file
//! header, B-tree page headers, cell pointers, varints, serial types,
//! records and table-leaf cells.

pub mod error;
pub mod encoding;
pub mod cell;
pub mod page;
