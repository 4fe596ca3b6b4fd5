//! The on-disk address type: a position in the store, encoded on disk in
//! 48 bits, decomposable into a page number and an in-page byte position.

use vstd::prelude::*;

use crate::page::PAGE_SIZE;

verus! {

/// One past the largest position an address can hold (2^48).
pub const OFFSET_LIMIT: u64 = 0x1_0000_0000_0000;

/// A position in a store, representable on disk in 48 bits.
///
/// The page number and the in-page position are always derived from the
/// position by arithmetic on `PAGE_SIZE`; no separate page-number field is
/// stored.
#[derive(Clone, Copy, PartialEq, Eq, Structural, Debug, Hash)]
pub struct Offset {
    value: u64,
}

impl Offset {
    /// The position this address stands for.
    pub closed spec fn spec_as_u64(&self) -> u64 {
        self.value
    }

    /// A well-formed address fits in the 48-bit on-disk encoding.
    pub open spec fn wf(&self) -> bool {
        self.spec_as_u64() < OFFSET_LIMIT
    }

    /// Construct an address from a raw position.
    pub fn from(value: u64) -> (r: Offset)
        requires
            value < OFFSET_LIMIT,
        ensures
            r.spec_as_u64() == value,
    {
        Offset { value }
    }

    /// The raw position.
    pub fn as_u64(&self) -> (r: u64)
        ensures
            r == self.spec_as_u64(),
    {
        self.value
    }

    /// The number of the page this address falls in.
    pub fn page_number(&self) -> (r: u64)
        ensures
            r == self.spec_as_u64() as int / PAGE_SIZE as int,
    {
        self.value / PAGE_SIZE as u64
    }

    /// The byte position within that page.
    pub fn in_page_pos(&self) -> (r: usize)
        ensures
            r == self.spec_as_u64() as int % PAGE_SIZE as int,
    {
        (self.value % PAGE_SIZE as u64) as usize
    }
}

} // verus!
