//! A page-oriented storage core: a fixed-size binary page format, a compact
//! 48-bit on-disk address, and the contracts a backing store must satisfy to
//! be read and written one page at a time.

pub mod error;
pub mod memfile;
pub mod offset;
pub mod page;
pub mod pagedfile;
