//! Fixed parameters of the file format and of the engine.

use vstd::prelude::*;

verus! {

/// Size of one page of the database file, in bytes.
pub const OS_PAGE_SIZE: usize = 4096;

/// The minimum number of keys a page must hold. Records so large that fewer
/// would fit are moved to overflow pages instead. It cannot be lower than 2,
/// or the tree would degenerate into a list.
pub const MIN_KEYS_PER_PAGE: u16 = 2;

/// The stamp that identifies a file as a database of this engine.
pub const MAGIC_KEY: u32 = 0xBADC0DE;

/// Width of the stamp's slot in a table header, in bytes.
pub const MAGIC_KEY_SIZE: u64 = 32;

/// The version of the file format.
pub const VERSION: u32 = 1;

/// Width of the version's slot in a table header, in bytes.
pub const VERSION_SIZE: u64 = 32;

/// The maximum length of a key, in bytes.
pub const MAX_KEY_SIZE: u32 = 255;

/// The maximum length of a value, in bytes.
pub const MAX_VALUE_SIZE: u32 = 0x7FFF_FFFE;

/// Default size of the mapped image, in bytes.
pub const DEFAULT_MAPSIZE: u32 = 1048576;

/// Lowest fill target for a page on split, in percent.
pub const MIN_FILL_PERCENTAGE: u32 = 10;

/// Highest fill target for a page on split, in percent.
pub const MAX_FILL_PERCENTAGE: u32 = 100;

/// The fill target used when none is set, in percent.
pub const DEF_FILL_PERCENTAGE: u32 = 50;

/// Number of slots in the reader table.
pub const DEFAULT_READERS: u8 = 126;

} // verus!
