//! What can go wrong while a search reads its data.

use vstd::prelude::*;

verus! {

/// A failure met while reading the data of a search.
#[derive(Debug, Clone, Copy, PartialEq, Eq, Structural)]
pub enum SearchError {
    /// The store could not be read.
    Storage,
    /// A record of the store is malformed.
    Decode,
    /// A bitmap of the store is corrupt.
    Bitmap,
}

} // verus!
