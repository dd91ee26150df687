//! An embedded, single-file key-value storage engine built on copy-on-write
//! pages: the integer codecs, the page layout, the dual meta record, the
//! freelist, and the transaction and bucket model that tie them together.
//!
//! The library works on a byte image of the database file. Mapping that image
//! to a file on disk, and locking the file, is left to the program around it.

pub mod constants;
pub mod errors;
pub mod enc;
pub mod checksum;
pub mod db;
pub mod page;
pub mod node;
pub mod branch;
pub mod tree;
pub mod store;
pub mod freelist;
pub mod bucket;
pub mod transaction;
pub mod mmap_array;
