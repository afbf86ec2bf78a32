//! Locates the field and record separators of a CSV document that lie outside
//! quoted regions, 64 bytes at a time.

use vstd::prelude::*;

pub mod io;
pub mod laws;
pub mod parser;
pub mod portability;

pub use parser::{parse_csv, ParsedCsv};

verus! {

/// Bytes of readable padding a buffer keeps after its data.
pub const CSV_PADDING: usize = 64;

} // verus!
