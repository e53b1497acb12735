use vstd::prelude::*;

use crate::bit_util::{is_pow2, is_power_of_two_i32, CACHE_LINE_LENGTH};

verus! {

/// Offset within the trailer of the producer's tail position.
pub const TAIL_POSITION_OFFSET: i32 = 0;

/// Offset within the trailer of the producer's cached copy of the head position.
pub const HEAD_CACHE_POSITION_OFFSET: i32 = TAIL_POSITION_OFFSET + (CACHE_LINE_LENGTH * 2);

/// Offset within the trailer of the consumer's head position.
pub const HEAD_POSITION_OFFSET: i32 = HEAD_CACHE_POSITION_OFFSET + (CACHE_LINE_LENGTH * 2);

/// Offset within the trailer of the correlation counter.
pub const CORRELATION_COUNTER_OFFSET: i32 = HEAD_POSITION_OFFSET + (CACHE_LINE_LENGTH * 2);

/// Offset within the trailer of the consumer heartbeat time.
pub const CONSUMER_HEARTBEAT_OFFSET: i32 = CORRELATION_COUNTER_OFFSET + (CACHE_LINE_LENGTH * 2);

/// Total length of the trailer in bytes.
pub const TRAILER_LENGTH: i32 = CONSUMER_HEARTBEAT_OFFSET + (CACHE_LINE_LENGTH * 2);

/// Data capacity left in a region of `capacity` bytes once the trailer is taken off.
///
/// The data capacity must be a power of two and at least `min_capacity`.
pub fn check_capacity(capacity: i32, min_capacity: i32) -> (r: i32)
    requires
        capacity >= TRAILER_LENGTH,
        is_pow2(capacity - TRAILER_LENGTH),
        capacity - TRAILER_LENGTH >= min_capacity,
    ensures
        r == capacity - TRAILER_LENGTH,
{
    let data_capacity = capacity - TRAILER_LENGTH;
    let ok = is_power_of_two_i32(data_capacity);
    assert(ok);
    data_capacity
}

} // verus!
