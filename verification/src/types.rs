//! Shared value types of the storage layer.

use vstd::prelude::*;

verus! {

/// A four-byte big-endian buffer.
pub type U8a4 = [u8; 4];

/// A table id, as the four big-endian bytes that prefix every inner key.
pub type TableId = U8a4;

/// A write timestamp in unix seconds, as four big-endian bytes.
pub type Timestamp = U8a4;

/// An item id inside the reserved info table, as two big-endian bytes.
pub type ItemId = [u8; 2];

} // verus!
