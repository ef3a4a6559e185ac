//! Reserved table ids and layout widths of the key/value encoding.

use vstd::prelude::*;

verus! {

/// Width of the table-id prefix of an inner key, in bytes.
pub const TABLE_ID_LEN: usize = 4;

/// Width of the timestamp prefix of a timestamped value, in bytes.
pub const TIMESTAMP_LEN: usize = 4;

/// Sentinel byte of a head anchor: sorts before every regular key byte.
pub const HEAD_ANCHOR_SENTINEL: u8 = 0;

/// Sentinel byte of a regular inner key.
pub const REGULAR_KEY_SENTINEL: u8 = 1;

/// Sentinel byte of a tail anchor: sorts after every regular key byte.
pub const TAIL_ANCHOR_SENTINEL: u8 = 2;

/// The reserved info/system table.
pub const INFO_TABLE_ID: u32 = 0;

/// The reserved table holding the name-to-id registration records.
pub const NAME_TO_ID_TABLE_ID: u32 = 1;

/// The reserved table holding the id-to-name registration records.
pub const ID_TO_NAME_TABLE_ID: u32 = 2;

/// The reserved table holding per-table maximum-key records.
pub const ID_TO_MAX_KEY_TABLE_ID: u32 = 3;

/// The lowest table id handed out to user tables.
pub const MIN_USERLAND_TABLE_ID: u32 = 1024;

/// The lowest id that may never be handed out: the allocator fails here.
pub const MAX_USERLAND_TABLE_ID: u32 = 4294967294;

/// Item id of the placeholder record written once at open time, so the
/// engine's log replay never starts on an empty log.
pub const PLACEHOLDER_ITEM_ID: u16 = 0;

/// Item id of the record holding the persisted TTL-mode flag.
pub const TTL_ITEM_ID: u16 = 1;

} // verus!
