//! FIX Tag-Value codec: a zero-copy decoder for `tag=value` fields framed by
//! BeginString/BodyLength and CheckSum, and an allocation-free ASCII encoder
//! for synthetic order-book snapshots.

pub mod book;
pub mod decimal;
pub mod encode;
pub mod error;
pub mod field;
pub mod header;
pub mod message;
pub mod roundtrip;
pub mod writer;

use vstd::prelude::*;

verus! {

/// The byte between a tag and its value: `=`.
pub const TAG_DELIMETER: u8 = 0x3d;

/// The standard field separator (SOH).
pub const SOH: u8 = 0x01;

/// The human-readable field separator: `|`.
pub const PIPE: u8 = 0x7c;

} // verus!
