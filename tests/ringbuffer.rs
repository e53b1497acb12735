use std::cell::RefCell;
use std::sync::atomic::{AtomicI32, Ordering};
use std::sync::Arc;

use ringo::one_to_one_ring_buffer::OneToOneRingBuffer;
use ringo::ring_buffer::{Action, RingBuffer, INSUFFICIENT_CAPACITY, PADDING_MSG_TYPE_ID};
use ringo::ring_buffer_descriptor::TRAILER_LENGTH;
use ringo::unsafe_buffer::UnsafeBuffer;

fn ring(data_capacity: usize) -> OneToOneRingBuffer {
    OneToOneRingBuffer::new(UnsafeBuffer::new(data_capacity))
}

fn collect(rb: &mut OneToOneRingBuffer, limit: i32) -> Vec<(i32, i32, i32, Vec<u8>)> {
    let seen = RefCell::new(Vec::new());
    let n = rb.read0(
        |t, buf, index, length| {
            let bytes: Vec<u8> = (0..length).map(|k| buf.get_byte(index + k)).collect();
            seen.borrow_mut().push((t, index, length, bytes));
        },
        limit,
    );
    let seen = seen.into_inner();
    assert_eq!(n as usize, seen.len());
    seen
}

#[test]
fn test_try_claim() {
    let buffer = UnsafeBuffer::new(1024);
    let mut ring_buffer = OneToOneRingBuffer::new(buffer);
    let result = Arc::new(AtomicI32::new(0));
    let result_clone = Arc::clone(&result);

    for i in 0..10 {
        let index = ring_buffer.try_claim(888, 32);
        if index > 0 {
            let buf = ring_buffer.buffer();
            buf.put_int(index + 28, i + 1);
            ring_buffer.commit(index);
        }
    }
    for _ in 0..10 {
        ring_buffer.read0(
            |_msg_type, buffer, index, _length| {
                let x = buffer.get_int(index + 28);
                result_clone.store(x, Ordering::SeqCst);
            },
            1,
        );
    }
    assert_eq!(result.load(Ordering::SeqCst), 10);
}

#[test]
fn first_claim_commit_and_read() {
    let mut rb = ring(128);
    assert_eq!(rb.capacity(), 128);
    let index = rb.try_claim(5, 16);
    assert_eq!(index, 8);
    rb.commit(8);
    let seen = collect(&mut rb, i32::MAX);
    assert_eq!(seen.len(), 1);
    assert_eq!((seen[0].0, seen[0].1, seen[0].2), (5, 8, 16));
    assert_eq!(rb.consumer_position(), 24);
    assert_eq!(rb.producer_position(), 24);
    assert_eq!(rb.size(), 0);
}

#[test]
fn uncommitted_claim_is_not_delivered() {
    let mut rb = ring(128);
    let index = rb.try_claim(5, 16);
    assert_eq!(index, 8);
    assert_eq!(rb.buffer().get_int(0), -24);
    assert_eq!(rb.buffer().get_int(4), 5);
    assert_eq!(collect(&mut rb, i32::MAX).len(), 0);
    assert_eq!(rb.consumer_position(), 0);
    rb.commit(index);
    assert_eq!(rb.buffer().get_int(0), 24);
    assert_eq!(collect(&mut rb, i32::MAX).len(), 1);
}

#[test]
fn claim_wraps_behind_padding_record() {
    let mut rb = ring(128);
    for _ in 0..5 {
        let index = rb.try_claim(7, 16);
        assert!(index > 0);
        rb.commit(index);
    }
    assert_eq!(rb.producer_position(), 120);
    assert_eq!(collect(&mut rb, i32::MAX).len(), 5);
    assert_eq!(rb.consumer_position(), 120);

    let index = rb.try_claim(9, 16);
    assert_eq!(index, 8);
    assert_eq!(rb.buffer().get_int(120), 8);
    assert_eq!(rb.buffer().get_int(124), PADDING_MSG_TYPE_ID);
    assert_eq!(rb.producer_position(), 152);
    rb.commit(index);

    // The first read goes over the padding to the end of the region and delivers nothing.
    assert_eq!(collect(&mut rb, i32::MAX).len(), 0);
    assert_eq!(rb.consumer_position(), 128);
    let seen = collect(&mut rb, i32::MAX);
    assert_eq!(seen.len(), 1);
    assert_eq!((seen[0].0, seen[0].1, seen[0].2), (9, 8, 16));
    assert_eq!(rb.consumer_position(), 152);
}

#[test]
fn insufficient_capacity_changes_nothing() {
    let mut rb = ring(128);
    for _ in 0..5 {
        let index = rb.try_claim(1, 16);
        assert!(index > 0);
        rb.commit(index);
    }
    assert_eq!(rb.producer_position(), 120);
    let before = rb.buffer().byte_array().to_vec();
    assert_eq!(rb.try_claim(1, 16), INSUFFICIENT_CAPACITY);
    assert_eq!(rb.buffer().byte_array().to_vec(), before);
    let src = UnsafeBuffer::new(0);
    assert!(!rb.write(1, &src, 0, 16));
    assert_eq!(rb.buffer().byte_array().to_vec(), before);
    assert_eq!(rb.size(), 120);
}

#[test]
fn aborted_record_is_skipped() {
    let mut rb = ring(256);
    let first = rb.try_claim(3, 8);
    let second = rb.try_claim(4, 8);
    let third = rb.try_claim(5, 8);
    rb.commit(first);
    rb.abort(second);
    rb.commit(third);
    assert_eq!(rb.buffer().get_int(second - 4), PADDING_MSG_TYPE_ID);
    let seen = collect(&mut rb, i32::MAX);
    let types: Vec<i32> = seen.iter().map(|m| m.0).collect();
    assert_eq!(types, vec![3, 5]);
    assert_eq!(rb.consumer_position(), 48);
}

#[test]
fn write_copies_payload_and_type() {
    let mut rb = ring(256);
    let mut src = UnsafeBuffer::new(0);
    for k in 0..20 {
        src.put_byte(k, (k * 3) as u8);
    }
    assert!(rb.write(42, &src, 4, 10));
    assert!(rb.write(43, &src, 0, 0));
    let seen = collect(&mut rb, i32::MAX);
    assert_eq!(seen.len(), 2);
    assert_eq!(seen[0].0, 42);
    assert_eq!(seen[0].3, (4..14).map(|k| (k * 3) as u8).collect::<Vec<u8>>());
    assert_eq!((seen[1].0, seen[1].2), (43, 0));
}

#[test]
fn read_respects_message_limit() {
    let mut rb = ring(256);
    for t in 1..=4 {
        let index = rb.try_claim(t, 8);
        rb.commit(index);
    }
    let first = collect(&mut rb, 2);
    assert_eq!(first.iter().map(|m| m.0).collect::<Vec<i32>>(), vec![1, 2]);
    assert_eq!(rb.consumer_position(), 32);
    let rest = collect(&mut rb, 10);
    assert_eq!(rest.iter().map(|m| m.0).collect::<Vec<i32>>(), vec![3, 4]);
    assert_eq!(collect(&mut rb, 10).len(), 0);
}

#[test]
fn read_reports_every_message() {
    let mut rb = ring(256);
    for t in 1..=3 {
        let index = rb.try_claim(t, 4);
        rb.commit(index);
    }
    let count = AtomicI32::new(0);
    let n = rb.read(|_, _, _, _| {
        count.fetch_add(1, Ordering::SeqCst);
    });
    assert_eq!(n, 3);
    assert_eq!(count.load(Ordering::SeqCst), 3);
}

fn filled(types: &[i32]) -> OneToOneRingBuffer {
    let mut rb = ring(256);
    for &t in types {
        let index = rb.try_claim(t, 8);
        rb.commit(index);
    }
    rb
}

#[test]
fn controlled_read_abort_redelivers() {
    let mut rb = filled(&[1, 2, 3]);
    let n = rb.controlled_read(|t, _, _, _| if t == 2 { Action::ABORT } else { Action::CONTINUE });
    assert_eq!(n, 1);
    assert_eq!(rb.consumer_position(), 16);
    let seen = RefCell::new(Vec::new());
    let n = rb.controlled_read(|t, _, _, _| {
        seen.borrow_mut().push(t);
        Action::CONTINUE
    });
    assert_eq!(n, 2);
    assert_eq!(seen.into_inner(), vec![2, 3]);
    assert_eq!(rb.consumer_position(), 48);
}

#[test]
fn controlled_read_break_stops_after_message() {
    let mut rb = filled(&[1, 2, 3]);
    let n = rb.controlled_read0(|_, _, _, _| Action::BREAK, 10);
    assert_eq!(n, 1);
    assert_eq!(rb.consumer_position(), 16);
}

#[test]
fn controlled_read_commit_publishes_at_once() {
    let mut rb = filled(&[1, 2, 3]);
    let heads = RefCell::new(Vec::new());
    let n = rb.controlled_read(|t, buf, _, _| {
        heads.borrow_mut().push(buf.get_long(256 + 256));
        if t == 2 {
            Action::ABORT
        } else {
            Action::COMMIT
        }
    });
    assert_eq!(n, 1);
    assert_eq!(heads.into_inner(), vec![0, 16]);
    assert_eq!(rb.consumer_position(), 16);
}

#[test]
fn controlled_read_respects_limit() {
    let mut rb = filled(&[1, 2, 3]);
    assert_eq!(rb.controlled_read0(|_, _, _, _| Action::CONTINUE, 2), 2);
    assert_eq!(rb.consumer_position(), 32);
}

#[test]
fn size_stays_within_capacity() {
    let mut rb = ring(64);
    assert_eq!(rb.max_msg_length(), 8);
    let mut claimed = 0;
    while rb.try_claim(1, 8) != INSUFFICIENT_CAPACITY {
        claimed += 1;
        assert!(rb.size() >= 0 && rb.size() <= 64);
    }
    assert_eq!(claimed, 3);
    assert_eq!(rb.size(), 48);
}

#[test]
fn minimum_capacity_takes_empty_messages() {
    let mut rb = ring(16);
    assert_eq!(rb.max_msg_length(), 0);
    let index = rb.try_claim(1, 0);
    assert_eq!(index, 8);
    rb.commit(index);
    assert_eq!(rb.try_claim(1, 0), INSUFFICIENT_CAPACITY);
    assert_eq!(collect(&mut rb, 1).len(), 1);
}

#[test]
fn max_msg_length_is_an_eighth_of_capacity() {
    assert_eq!(ring(1024).max_msg_length(), 128);
    assert_eq!(ring(128).max_msg_length(), 16);
    assert_eq!(ring(32).max_msg_length(), 8);
}

#[test]
fn correlation_ids_count_up() {
    let mut rb = ring(64);
    assert_eq!(rb.next_correlation_id(), 0);
    assert_eq!(rb.next_correlation_id(), 1);
    assert_eq!(rb.next_correlation_id(), 2);
}

#[test]
fn heartbeat_round_trips() {
    let mut rb = ring(64);
    assert_eq!(rb.consumer_heartbeat_time(), 0);
    rb.put_consumer_heartbeat_time(-123456789012);
    assert_eq!(rb.consumer_heartbeat_time(), -123456789012);
    assert!(!rb.unblock());
}

#[test]
fn trailer_follows_data_region() {
    let rb = ring(512);
    assert_eq!(TRAILER_LENGTH, 640);
    assert_eq!(rb.capacity(), 512);
}
