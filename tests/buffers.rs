use ringo::bit_util::{
    align, calculate_shift_for_scale, find_next_positive_power_of_two_i32,
    find_next_positive_power_of_two_i64, from_hex, from_hex_byte_array, is_aligned, is_even,
    is_even0, is_power_of_two_i32, is_power_of_two_i320, next, prev, to_hex, to_hex0,
    to_hex_byte_array, to_hex_byte_array0, to_hex_byte_array1,
};
use ringo::record_descriptor::{check_type_id, encoded_msg_offset, length_offset, type_offset};
use ringo::ring_buffer_descriptor::check_capacity;
use ringo::atomic_buffer::AtomicBuffer;
use ringo::unsafe_buffer::{BufferError, UnsafeBuffer};

#[test]
fn align_rounds_up_to_multiple() {
    assert_eq!(align(0, 8), 0);
    assert_eq!(align(1, 8), 8);
    assert_eq!(align(24, 8), 24);
    assert_eq!(align(25, 8), 32);
    assert_eq!(align(5, 4), 8);
}

#[test]
fn powers_of_two() {
    assert!(is_power_of_two_i32(1));
    assert!(is_power_of_two_i32(1024));
    assert!(!is_power_of_two_i32(0));
    assert!(!is_power_of_two_i32(-8));
    assert!(!is_power_of_two_i32(96));
    assert!(is_power_of_two_i320(1 << 40));
    assert!(!is_power_of_two_i320((1 << 40) + 2));
    assert_eq!(find_next_positive_power_of_two_i32(100), 64);
    assert_eq!(find_next_positive_power_of_two_i32(64), 64);
    assert_eq!(find_next_positive_power_of_two_i64(1), 1);
    assert_eq!(find_next_positive_power_of_two_i64(3_000_000_000), 2_147_483_648);
}

#[test]
fn evenness() {
    assert!(is_even(4));
    assert!(!is_even(-3));
    assert!(is_even0(-10));
    assert!(!is_even0(7));
}

#[test]
fn cyclic_neighbours() {
    assert_eq!(next(3, 4), 0);
    assert_eq!(next(1, 4), 2);
    assert_eq!(prev(0, 4), 3);
    assert_eq!(prev(2, 4), 1);
}

#[test]
fn shifts_and_alignment() {
    assert_eq!(calculate_shift_for_scale(4), 2);
    assert_eq!(calculate_shift_for_scale(8), 3);
    assert!(is_aligned(64, 8));
    assert!(!is_aligned(65, 8));
    assert!(is_aligned(-16, 16));
    assert!(!is_aligned(-3, 4));
}

#[test]
fn hex_encoding() {
    assert_eq!(to_hex_byte_array(&[0x01, 0xab, 0xff]), b"01abff".to_vec());
    assert_eq!(to_hex_byte_array0(&[0x10, 0x20, 0x30], 1, 2), b"2030".to_vec());
    assert_eq!(to_hex_byte_array1("AZ", 0, 2), b"415a".to_vec());
    assert_eq!(to_hex(&[0xde, 0xad, 0xbe, 0xef], 1, 2), "adbe");
    assert_eq!(to_hex0(&[0x00, 0x7f]), "007f");
}

#[test]
fn hex_decoding() {
    assert_eq!(from_hex_byte_array(b"01abFF"), vec![0x01, 0xab, 0xff]);
    assert_eq!(from_hex("cafe"), vec![0xca, 0xfe]);
    assert_eq!(from_hex(""), Vec::<u8>::new());
}

#[test]
fn record_offsets() {
    assert_eq!(length_offset(40), 40);
    assert_eq!(type_offset(40), 44);
    assert_eq!(encoded_msg_offset(40), 48);
    check_type_id(1);
}

#[test]
fn capacity_check_removes_trailer() {
    assert_eq!(check_capacity(1024 + 640, 16), 1024);
    assert_eq!(check_capacity(16 + 640, 16), 16);
}

#[test]
fn integers_round_trip_little_endian() {
    let mut b = UnsafeBuffer::new(0);
    assert_eq!(b.capacity(), 640);
    b.put_int(3, -2);
    assert_eq!(b.get_int(3), -2);
    assert_eq!(b.get_byte(3), 0xfe);
    assert_eq!(b.get_byte(6), 0xff);
    b.put_long(16, 0x0102_0304_0506_0708);
    assert_eq!(b.get_long(16), 0x0102_0304_0506_0708);
    assert_eq!(b.get_byte(16), 0x08);
    assert_eq!(b.get_byte(23), 0x01);
    b.put_short(40, -300);
    assert_eq!(b.get_short(40), -300);
    assert_eq!(b.get_int_volatile(3), -2);
    assert_eq!(b.get_long_volatile(16), 0x0102_0304_0506_0708);
}

#[test]
fn atomic_style_operations() {
    let mut b = UnsafeBuffer::new(0);
    b.put_long_ordered(8, 5);
    assert_eq!(b.get_and_add_long(8, 3), 5);
    assert_eq!(b.get_long(8), 8);
    assert!(b.compare_and_set_long(8, 8, 20));
    assert!(!b.compare_and_set_long(8, 8, 30));
    assert_eq!(b.get_and_set_long(8, 1), 20);
    b.add_long_ordered(8, i64::MAX);
    assert_eq!(b.get_long(8), i64::MIN);
    b.put_int_ordered(0, 10);
    assert_eq!(b.get_and_add_int(0, -4), 10);
    assert!(b.compare_and_set_int(0, 6, 7));
    assert_eq!(b.get_and_set_int(0, 9), 7);
    b.add_int_ordered(0, 1);
    assert_eq!(b.get_int(0), 10);
    b.put_int_volatile(0, 11);
    b.put_long_volatile(8, 12);
    b.put_short_volatile(20, 13);
    b.put_byte_ordered(30, 14);
    assert_eq!((b.get_int(0), b.get_long(8), b.get_short_volatile(20), b.get_byte_volatile(30)), (11, 12, 13, 14));
}

#[test]
fn bulk_operations() {
    let mut b = UnsafeBuffer::new(0);
    b.set_memory(10, 5, 0xaa);
    assert_eq!(&b.byte_array()[9..16], &[0, 0xaa, 0xaa, 0xaa, 0xaa, 0xaa, 0]);
    let mut src = UnsafeBuffer::new(0);
    src.put_int(0, 0x04030201);
    b.put_bytes2(100, &src, 1, 2);
    assert_eq!(&b.byte_array()[100..102], &[2, 3]);
    b.put_bytes(0, &src);
    assert_eq!(b.get_int(0), 0x04030201);
}

#[test]
fn bounds_checks() {
    let mut b = UnsafeBuffer::new(0);
    assert_eq!(b.ensure_capacity(-1, 4), Ok(()));
    assert_eq!(b.bounds_check_wrap(-1, 4, 10), Err(BufferError::InvalidOffset { offset: -1 }));
    assert_eq!(b.bounds_check_wrap(1, -4, 10), Err(BufferError::InvalidLength { length: -4 }));
    assert_eq!(
        b.bounds_check_wrap(8, 4, 10),
        Err(BufferError::OffsetLengthNotValid { offset: 8, length: 4, capacity: 10 })
    );
    assert_eq!(b.bounds_check_wrap(6, 4, 10), Ok(()));
    assert_eq!(b.check_limit(640), Ok(()));
    assert_eq!(b.check_limit(641), Err(BufferError::LimitBeyondCapacity { limit: 641, capacity: 640 }));
    assert_eq!(b.address_offset(), 0);
    assert_eq!(b.wrap_adjustment(), 0);
    assert!(!b.is_expandable());
}
