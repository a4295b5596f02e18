//! Sizes and offsets of typed device buffers.
//!
//! A typed buffer is addressed in records, the device in bytes.

use vstd::prelude::*;

verus! {

/// The number of bytes that `records` records of `record_size` bytes each take
/// up, which is also the byte offset of the record with that index. There is
/// none where the number does not fit a device address.
pub fn byte_size(records: u64, record_size: u64) -> (bytes: Option<u64>)
    ensures
        bytes == if records * record_size <= u64::MAX {
            Some((records * record_size) as u64)
        } else {
            None
        },
{
    records.checked_mul(record_size)
}

} // verus!
