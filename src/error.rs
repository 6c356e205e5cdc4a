//! The errors of compression and decompression.

use vstd::prelude::*;

verus! {

/// Why an operation of this library failed.
#[derive(Debug, Clone, Copy, PartialEq, Eq, Structural)]
pub enum HuffmanError {
    /// The input held no bytes, so there is no tree to build.
    EmptyInput,
    /// Compressed data was truncated or malformed.
    Format,
}

} // verus!
