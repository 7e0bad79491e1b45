//! Sizes of data before and after compression.

use vstd::prelude::*;

verus! {

/// The number of bytes of some data, as they are and as they are stored.
#[derive(Clone, Copy, Debug, Default, PartialEq, Eq, Structural)]
pub struct Sizes {
    pub uncompressed: u64,
    pub compressed: u64,
}

} // verus!
