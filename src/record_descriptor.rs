use vstd::prelude::*;

use crate::bit_util::SIZE_OF_INT;

verus! {

/// Length of a record header: a 32-bit length followed by a 32-bit type id.
pub const HEADER_LENGTH: i32 = SIZE_OF_INT * 2;

/// Alignment of every record.
pub const ALIGNMENT: i32 = HEADER_LENGTH;

/// Offset of a record's length field.
pub fn length_offset(record_offset: i32) -> (r: i32)
    ensures
        r == record_offset,
{
    record_offset
}

/// Offset of a record's type field.
pub fn type_offset(record_offset: i32) -> (r: i32)
    requires
        record_offset <= i32::MAX - SIZE_OF_INT,
    ensures
        r == record_offset + SIZE_OF_INT,
{
    record_offset + SIZE_OF_INT
}

/// Offset of a record's payload.
pub fn encoded_msg_offset(record_offset: i32) -> (r: i32)
    requires
        record_offset <= i32::MAX - HEADER_LENGTH,
    ensures
        r == record_offset + HEADER_LENGTH,
{
    record_offset + HEADER_LENGTH
}

/// Message type ids are at least one.
pub fn check_type_id(msg_type_id: i32)
    requires
        msg_type_id >= 1,
{
}

} // verus!
