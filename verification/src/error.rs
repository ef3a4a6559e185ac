//! The errors the storage layer reports.

use vstd::prelude::*;

verus! {

/// Why an operation was refused.
#[derive(Debug, Clone, Copy, PartialEq, Eq, Structural)]
pub enum Error {
    /// The table-id allocator reached the reserved ceiling; fatal.
    ExceededLimitError { current: u32, max: u32 },
    /// The store was created in one TTL mode and opened in the other;
    /// fatal at open time.
    InconsistentTtlEnabled { current: bool, wanted: bool },
}

} // verus!
