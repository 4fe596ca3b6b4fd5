//! The failure type a backing store reports.
//!
//! Only genuine failures are errors: end-of-store when reading a page and
//! short reads in byte-stream mode are reported as absence or as a smaller
//! byte count, never through this type.

use vstd::prelude::*;

verus! {

/// A failure of the backing store.
#[derive(Clone, Copy, PartialEq, Eq, Structural, Debug)]
pub enum StoreError {
    /// The backing store failed to read or write.
    Io,
    /// Something that should have been present was not.
    NotFound,
}

} // verus!
