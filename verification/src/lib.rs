//! A paged memory access and remapping engine.
//!
//! The crate has two halves:
//!
//! - [`page`]: a paged buffer that owns `2^order` page frames and offers
//!   bounds-checked, page-granular read, write, zero and compare operations
//!   over any byte span of the buffer, including spans that cross page
//!   boundaries.
//! - [`pgtable`]: a model of a translation structure that resolves a virtual
//!   address to the leaf entry mapping it, and lets that entry be rewritten.
//!
//! Every operation either completes or fails synchronously with a result
//! value; no failure leaves a partial effect behind.

use vstd::prelude::*;

pub mod model;
pub mod page;
pub mod pgtable;
pub mod span;

verus! {

/// Errors returned by the buffer and translation operations.
#[derive(Clone, Copy, Debug, PartialEq, Eq, Structural)]
pub enum Error {
    /// The requested `(offset, len)` span falls outside the buffer, or a
    /// multi-page request needs more pages than the buffer owns. Detected
    /// before any byte is touched; no partial effect occurs.
    InvalidRange,
    /// A translation lookup found no entry for the address, or found one at
    /// an unrecognized granularity.
    NotMapped,
}

/// Error returned when an allocation cannot obtain the requested number of
/// contiguous page frames. No partial buffer is returned.
#[derive(Clone, Copy, Debug, PartialEq, Eq, Structural)]
pub struct AllocError;

} // verus!
