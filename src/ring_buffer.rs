use vstd::prelude::*;

use crate::one_to_one_ring_buffer::is_claimed;
use crate::record_descriptor::HEADER_LENGTH;
use crate::unsafe_buffer::UnsafeBuffer;

verus! {

/// Type id of a padding record, which readers skip.
pub const PADDING_MSG_TYPE_ID: i32 = -1;

/// Returned by a claim when the buffer has no room for the record.
pub const INSUFFICIENT_CAPACITY: i32 = -2;

/// What a controlled handler asks the reader to do after a message.
#[derive(Debug, Clone, Copy, PartialEq, Eq, Structural)]
pub enum Action {
    /// Leave this message unconsumed, to be delivered again, and stop reading.
    ABORT,
    /// Consume this message and stop reading.
    BREAK,
    /// Consume this message, publish the consumer position now, and go on.
    COMMIT,
    /// Consume this message and go on.
    CONTINUE,
}

/// A ring buffer of framed messages, with one producer and one consumer.
pub trait RingBuffer {
    /// The buffer is well formed.
    spec fn ring_wf(&self) -> bool;

    /// The byte region, data and trailer.
    spec fn ring_bytes(&self) -> Seq<u8>;

    /// Size of the data region.
    spec fn ring_capacity(&self) -> int;

    /// Largest payload a single message may have.
    spec fn ring_max_msg_length(&self) -> int;

    fn capacity(&self) -> (r: i32)
        requires
            self.ring_wf(),
    ;

    fn max_msg_length(&self) -> (r: i32)
        requires
            self.ring_wf(),
    ;

    /// Writes a message of `length` bytes taken from `src_buffer` at `offset`; false when
    /// there is no room.
    fn write(&mut self, msg_type_id: i32, src_buffer: &UnsafeBuffer, offset: i32, length: i32) -> (r:
        bool)
        requires
            old(self).ring_wf(),
            msg_type_id >= 1,
            0 <= length <= old(self).ring_max_msg_length(),
            0 <= offset,
            offset + length <= src_buffer@.len(),
        ensures
            final(self).ring_wf(),
    ;

    /// Claims room for a message and returns the offset of its payload, or
    /// `INSUFFICIENT_CAPACITY`.
    fn try_claim(&mut self, msg_type_id: i32, length: i32) -> (r: i32)
        requires
            old(self).ring_wf(),
            msg_type_id >= 1,
            0 <= length <= old(self).ring_max_msg_length(),
        ensures
            final(self).ring_wf(),
    ;

    /// Publishes the claimed message whose payload starts at `index`.
    fn commit(&mut self, index: i32)
        requires
            old(self).ring_wf(),
            HEADER_LENGTH <= index <= old(self).ring_capacity(),
            is_claimed(old(self).ring_bytes(), index - HEADER_LENGTH),
        ensures
            final(self).ring_wf(),
    ;

    /// Publishes the claimed message whose payload starts at `index` as padding.
    fn abort(&mut self, index: i32)
        requires
            old(self).ring_wf(),
            HEADER_LENGTH <= index <= old(self).ring_capacity(),
            is_claimed(old(self).ring_bytes(), index - HEADER_LENGTH),
        ensures
            final(self).ring_wf(),
    ;

    /// Hands every available message to `func`; returns how many.
    fn read<F>(&mut self, func: F) -> (r: i32) where F: Fn(i32, &UnsafeBuffer, i32, i32)
        requires
            old(self).ring_wf(),
            forall|t: i32, b: &UnsafeBuffer, i: i32, l: i32| func.requires((t, b, i, l)),
        ensures
            final(self).ring_wf(),
    ;

    /// Hands at most `message_count_limit` available messages to `func`; returns how many.
    fn read0<F>(&mut self, func: F, message_count_limit: i32) -> (r: i32) where
        F: Fn(i32, &UnsafeBuffer, i32, i32),

        requires
            old(self).ring_wf(),
            forall|t: i32, b: &UnsafeBuffer, i: i32, l: i32| func.requires((t, b, i, l)),
        ensures
            final(self).ring_wf(),
    ;

    /// Hands available messages to `func`, which steers the read; returns how many were
    /// consumed.
    fn controlled_read<F>(&mut self, func: F) -> (r: i32) where
        F: Fn(i32, &UnsafeBuffer, i32, i32) -> Action,

        requires
            old(self).ring_wf(),
            forall|t: i32, b: &UnsafeBuffer, i: i32, l: i32| func.requires((t, b, i, l)),
        ensures
            final(self).ring_wf(),
    ;

    /// As `controlled_read`, with at most `message_count_limit` messages consumed.
    fn controlled_read0<F>(&mut self, func: F, message_count_limit: i32) -> (r: i32) where
        F: Fn(i32, &UnsafeBuffer, i32, i32) -> Action,

        requires
            old(self).ring_wf(),
            forall|t: i32, b: &UnsafeBuffer, i: i32, l: i32| func.requires((t, b, i, l)),
        ensures
            final(self).ring_wf(),
    ;

    /// Returns a fresh correlation id.
    fn next_correlation_id(&mut self) -> (r: i64)
        requires
            old(self).ring_wf(),
        ensures
            final(self).ring_wf(),
    ;

    /// Mutable access to the underlying region.
    fn buffer(&mut self) -> (r: &mut UnsafeBuffer);

    /// Publishes the consumer's heartbeat time.
    fn put_consumer_heartbeat_time(&mut self, time: i64)
        requires
            old(self).ring_wf(),
        ensures
            final(self).ring_wf(),
    ;

    /// The consumer's last published heartbeat time.
    fn consumer_heartbeat_time(&self) -> (r: i64)
        requires
            self.ring_wf(),
    ;

    /// The producer's position.
    fn producer_position(&self) -> (r: i64)
        requires
            self.ring_wf(),
    ;

    /// The consumer's position.
    fn consumer_position(&self) -> (r: i64)
        requires
            self.ring_wf(),
    ;

    /// Bytes between the consumer's and the producer's positions, within `0 ..= capacity`.
    fn size(&self) -> (r: i32)
        requires
            self.ring_wf(),
        ensures
            0 <= r <= self.ring_capacity(),
    ;

    /// Releases a claim another producer left stalled; false when there was none.
    fn unblock(&self) -> (r: bool);
}

} // verus!
