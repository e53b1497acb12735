use vstd::prelude::*;

use crate::atomic_buffer::AtomicBuffer;
use crate::ring_buffer_descriptor::TRAILER_LENGTH;

verus! {

/// Whether `ensure_capacity` checks its arguments against the capacity.
pub const SHOULD_BOUNDS_CHECK: bool = false;

/// Why an index range was refused by a bounds check.
#[derive(Debug, Clone, Copy, PartialEq, Eq, Structural)]
pub enum BufferError {
    /// `index .. index + length` does not lie within `0 .. capacity`.
    OutOfBounds { index: i32, length: i32, capacity: i32 },
    /// A negative offset.
    InvalidOffset { offset: i32 },
    /// A negative length.
    InvalidLength { length: i32 },
    /// `offset .. offset + length` does not lie within `0 .. capacity`.
    OffsetLengthNotValid { offset: i32, length: i32, capacity: i32 },
    /// A limit past the end of the buffer.
    LimitBeyondCapacity { limit: i32, capacity: i32 },
}

/// `s` with the bytes from `at` on replaced by `t`.
pub open spec fn write_bytes(s: Seq<u8>, at: int, t: Seq<u8>) -> Seq<u8> {
    Seq::new(s.len(), |j: int| if at <= j < at + t.len() { t[j - at] } else { s[j] })
}

/// Little-endian bytes of a 16-bit value.
pub open spec fn i16_bytes(v: i16) -> Seq<u8> {
    let u = v as u16;
    seq![(u & 0xff) as u8, (u >> 8) as u8]
}

/// Little-endian bytes of a 32-bit value.
pub open spec fn i32_bytes(v: i32) -> Seq<u8> {
    let u = v as u32;
    seq![(u & 0xff) as u8, ((u >> 8) & 0xff) as u8, ((u >> 16) & 0xff) as u8, (u >> 24) as u8]
}

/// Little-endian bytes of a 64-bit value.
pub open spec fn i64_bytes(v: i64) -> Seq<u8> {
    let u = v as u64;
    seq![
        (u & 0xff) as u8,
        ((u >> 8) & 0xff) as u8,
        ((u >> 16) & 0xff) as u8,
        ((u >> 24) & 0xff) as u8,
        ((u >> 32) & 0xff) as u8,
        ((u >> 40) & 0xff) as u8,
        ((u >> 48) & 0xff) as u8,
        (u >> 56) as u8,
    ]
}

/// The 16-bit value stored little-endian at `i`.
#[verifier::opaque]
pub open spec fn i16_at(s: Seq<u8>, i: int) -> i16 {
    ((s[i] as u16) | ((s[i + 1] as u16) << 8)) as i16
}

/// The 32-bit value stored little-endian at `i`.
#[verifier::opaque]
pub open spec fn i32_at(s: Seq<u8>, i: int) -> i32 {
    ((s[i] as u32) | ((s[i + 1] as u32) << 8) | ((s[i + 2] as u32) << 16) | ((s[i + 3] as u32)
        << 24)) as i32
}

/// The 64-bit value stored little-endian at `i`.
#[verifier::opaque]
pub open spec fn i64_at(s: Seq<u8>, i: int) -> i64 {
    ((s[i] as u64) | ((s[i + 1] as u64) << 8) | ((s[i + 2] as u64) << 16) | ((s[i + 3] as u64)
        << 24) | ((s[i + 4] as u64) << 32) | ((s[i + 5] as u64) << 40) | ((s[i + 6] as u64) << 48)
        | ((s[i + 7] as u64) << 56)) as i64
}

/// `width` bytes from `index` lie inside a region of `len` bytes.
pub open spec fn in_bounds(len: int, index: int, width: int) -> bool {
    0 <= index && index + width <= len
}

/// A 32-bit value reads back as written.
pub proof fn lemma_i32_round_trip(s: Seq<u8>, i: int, v: i32)
    requires
        0 <= i,
        i + 4 <= s.len(),
    ensures
        i32_at(write_bytes(s, i, i32_bytes(v)), i) == v,
{
    reveal(i32_at);
    let w = write_bytes(s, i, i32_bytes(v));
    let u = v as u32;
    assert(w[i] == (u & 0xff) as u8);
    assert(w[i + 1] == ((u >> 8) & 0xff) as u8);
    assert(w[i + 2] == ((u >> 16) & 0xff) as u8);
    assert(w[i + 3] == (u >> 24) as u8);
    assert(((((u & 0xff) as u8) as u32) | (((((u >> 8) & 0xff) as u8) as u32) << 8) | (((((u
        >> 16) & 0xff) as u8) as u32) << 16) | ((((u >> 24) as u8) as u32) << 24)) == u)
        by (bit_vector);
    assert((u as i32) == v) by (bit_vector)
        requires
            u == v as u32,
    ;
}

/// Eight zero bytes read as zero.
pub proof fn lemma_zero_bytes_read_zero(s: Seq<u8>, i: int)
    requires
        0 <= i,
        i + 8 <= s.len(),
        forall|j: int| i <= j < i + 8 ==> s[j] == 0,
    ensures
        i64_at(s, i) == 0,
{
    reveal(i64_at);
    let z = 0u8;
    assert(((z as u64) | ((z as u64) << 8) | ((z as u64) << 16) | ((z as u64) << 24) | ((z as u64)
        << 32) | ((z as u64) << 40) | ((z as u64) << 48) | ((z as u64) << 56)) as i64 == 0)
        by (bit_vector)
        requires
            z == 0,
    ;
}

/// A 64-bit value reads back as written.
pub proof fn lemma_i64_round_trip(s: Seq<u8>, i: int, v: i64)
    requires
        0 <= i,
        i + 8 <= s.len(),
    ensures
        i64_at(write_bytes(s, i, i64_bytes(v)), i) == v,
{
    reveal(i64_at);
    let w = write_bytes(s, i, i64_bytes(v));
    let u = v as u64;
    assert(w[i] == (u & 0xff) as u8);
    assert(w[i + 1] == ((u >> 8) & 0xff) as u8);
    assert(w[i + 2] == ((u >> 16) & 0xff) as u8);
    assert(w[i + 3] == ((u >> 24) & 0xff) as u8);
    assert(w[i + 4] == ((u >> 32) & 0xff) as u8);
    assert(w[i + 5] == ((u >> 40) & 0xff) as u8);
    assert(w[i + 6] == ((u >> 48) & 0xff) as u8);
    assert(w[i + 7] == (u >> 56) as u8);
    assert(((((u & 0xff) as u8) as u64) | (((((u >> 8) & 0xff) as u8) as u64) << 8) | (((((u
        >> 16) & 0xff) as u8) as u64) << 16) | (((((u >> 24) & 0xff) as u8) as u64) << 24) | (((((u
        >> 32) & 0xff) as u8) as u64) << 32) | (((((u >> 40) & 0xff) as u8) as u64) << 40) | (((((u
        >> 48) & 0xff) as u8) as u64) << 48) | ((((u >> 56) as u8) as u64) << 56)) == u)
        by (bit_vector);
    assert((u as i64) == v) by (bit_vector)
        requires
            u == v as u64,
    ;
}

/// A 16-bit value reads back as written.
pub proof fn lemma_i16_round_trip(s: Seq<u8>, i: int, v: i16)
    requires
        0 <= i,
        i + 2 <= s.len(),
    ensures
        i16_at(write_bytes(s, i, i16_bytes(v)), i) == v,
{
    reveal(i16_at);
    let w = write_bytes(s, i, i16_bytes(v));
    let u = v as u16;
    assert(w[i] == (u & 0xff) as u8);
    assert(w[i + 1] == (u >> 8) as u8);
    assert(((((u & 0xff) as u8) as u16) | ((((u >> 8) as u8) as u16) << 8)) == u) by (bit_vector);
    assert((u as i16) == v) by (bit_vector)
        requires
            u == v as u16,
    ;
}

/// A fixed-capacity byte region with typed little-endian access.
///
/// The buffer is owned by one value at a time, so the volatile, ordered and atomic
/// operations act on it exactly as the plain ones do: nothing else can observe the
/// region between two of them.
pub struct UnsafeBuffer {
    wrap_adjustment: i32,
    byte_array: Vec<u8>,
    address_offset: i32,
    capacity: i32,
}

impl View for UnsafeBuffer {
    type V = Seq<u8>;

    closed spec fn view(&self) -> Seq<u8> {
        self.byte_array@
    }
}

impl UnsafeBuffer {
    #[verifier::type_invariant]
    spec fn inv(self) -> bool {
        &&& self.byte_array@.len() == self.capacity
        &&& 0 <= self.capacity
        &&& self.address_offset == 0
        &&& self.wrap_adjustment == 0
    }

    /// A zeroed buffer of `capacity` bytes followed by room for a ring-buffer trailer.
    pub fn new(capacity: usize) -> (r: Self)
        requires
            capacity + TRAILER_LENGTH <= i32::MAX,
        ensures
            r@ == Seq::new((capacity + TRAILER_LENGTH) as nat, |i: int| 0u8),
    {
        let actual_capacity = capacity + TRAILER_LENGTH as usize;
        let tmp: Vec<u8> = vec![0u8; actual_capacity];
        proof {
            assert(tmp@ =~= Seq::new((capacity + TRAILER_LENGTH) as nat, |i: int| 0u8));
        }
        UnsafeBuffer {
            wrap_adjustment: 0,
            byte_array: tmp,
            address_offset: 0,
            capacity: actual_capacity as i32,
        }
    }

    fn bounds_check0(&self, index: i32, length: i32) -> (r: Result<(), BufferError>)
        ensures
            r is Ok <==> (0 <= index && 0 <= length && index + length <= self@.len()),
            r is Err ==> r == Err::<(), BufferError>(
                BufferError::OutOfBounds { index, length, capacity: self@.len() as i32 },
            ),
    {
        proof {
            use_type_invariant(self);
        }
        if index < 0 || length < 0 || index as i64 + length as i64 > self.capacity as i64 {
            return Err(BufferError::OutOfBounds { index, length, capacity: self.capacity });
        }
        Ok(())
    }

    /// Checks an index range when bounds checking is switched on.
    pub fn ensure_capacity(&mut self, index: i32, length: i32) -> (r: Result<(), BufferError>)
        ensures
            final(self)@ == old(self)@,
            r is Ok <==> (!SHOULD_BOUNDS_CHECK || (0 <= index && 0 <= length && index + length
                <= old(self)@.len())),
            r is Err ==> r == Err::<(), BufferError>(
                BufferError::OutOfBounds { index, length, capacity: old(self)@.len() as i32 },
            ),
    {
        if SHOULD_BOUNDS_CHECK {
            self.bounds_check0(index, length)?;
        }
        Ok(())
    }

    /// Checks that `offset .. offset + length` lies within `0 .. capacity`.
    pub fn bounds_check_wrap(&self, offset: i32, length: i32, capacity: i32) -> (r: Result<
        (),
        BufferError,
    >)
        ensures
            offset < 0 ==> r == Err::<(), BufferError>(BufferError::InvalidOffset { offset }),
            offset >= 0 && length < 0 ==> r == Err::<(), BufferError>(
                BufferError::InvalidLength { length },
            ),
            offset >= 0 && length >= 0 ==> (r is Ok <==> offset + length <= capacity),
            offset >= 0 && length >= 0 && offset + length > capacity ==> r == Err::<
                (),
                BufferError,
            >(BufferError::OffsetLengthNotValid { offset, length, capacity }),
    {
        if offset < 0 {
            return Err(BufferError::InvalidOffset { offset });
        }
        if length < 0 {
            return Err(BufferError::InvalidLength { length });
        }
        if offset as i64 + length as i64 > capacity as i64 {
            return Err(BufferError::OffsetLengthNotValid { offset, length, capacity });
        }
        Ok(())
    }

    pub fn address_offset(&self) -> (r: i32)
        ensures
            r == 0,
    {
        proof {
            use_type_invariant(self);
        }
        self.address_offset
    }

    pub fn wrap_adjustment(&self) -> (r: i32)
        ensures
            r == 0,
    {
        proof {
            use_type_invariant(self);
        }
        self.wrap_adjustment
    }

    pub fn is_expandable(&self) -> (r: bool)
        ensures
            !r,
    {
        false
    }

    /// The bytes of the region.
    pub fn byte_array(&self) -> (r: &[u8])
        ensures
            r@ == self@,
    {
        self.byte_array.as_slice()
    }

    pub fn capacity(&self) -> (r: i32)
        ensures
            r == self@.len(),
    {
        proof {
            use_type_invariant(self);
        }
        self.capacity
    }

    /// Checks that `limit` does not pass the end of the region.
    pub fn check_limit(&self, limit: i32) -> (r: Result<(), BufferError>)
        ensures
            r is Ok <==> limit <= self@.len(),
            r is Err ==> r == Err::<(), BufferError>(
                BufferError::LimitBeyondCapacity { limit, capacity: self@.len() as i32 },
            ),
    {
        proof {
            use_type_invariant(self);
        }
        if limit > self.capacity {
            return Err(BufferError::LimitBeyondCapacity { limit, capacity: self.capacity });
        }
        Ok(())
    }

    pub fn get_byte(&self, index: i32) -> (r: u8)
        requires
            in_bounds(self@.len() as int, index as int, 1),
        ensures
            r == self@[index as int],
    {
        self.byte_array[index as usize]
    }

    pub fn get_short(&self, index: i32) -> (r: i16)
        requires
            in_bounds(self@.len() as int, index as int, 2),
        ensures
            r == i16_at(self@, index as int),
    {
        reveal(i16_at);
        let i = index as usize;
        let b0 = self.byte_array[i] as u16;
        let b1 = self.byte_array[i + 1] as u16;
        (b0 | (b1 << 8)) as i16
    }

    pub fn get_int(&self, index: i32) -> (r: i32)
        requires
            in_bounds(self@.len() as int, index as int, 4),
        ensures
            r == i32_at(self@, index as int),
    {
        reveal(i32_at);
        let i = index as usize;
        let b0 = self.byte_array[i] as u32;
        let b1 = self.byte_array[i + 1] as u32;
        let b2 = self.byte_array[i + 2] as u32;
        let b3 = self.byte_array[i + 3] as u32;
        (b0 | (b1 << 8) | (b2 << 16) | (b3 << 24)) as i32
    }

    pub fn get_long(&self, index: i32) -> (r: i64)
        requires
            in_bounds(self@.len() as int, index as int, 8),
        ensures
            r == i64_at(self@, index as int),
    {
        reveal(i64_at);
        let i = index as usize;
        let b0 = self.byte_array[i] as u64;
        let b1 = self.byte_array[i + 1] as u64;
        let b2 = self.byte_array[i + 2] as u64;
        let b3 = self.byte_array[i + 3] as u64;
        let b4 = self.byte_array[i + 4] as u64;
        let b5 = self.byte_array[i + 5] as u64;
        let b6 = self.byte_array[i + 6] as u64;
        let b7 = self.byte_array[i + 7] as u64;
        (b0 | (b1 << 8) | (b2 << 16) | (b3 << 24) | (b4 << 32) | (b5 << 40) | (b6 << 48) | (b7
            << 56)) as i64
    }

    pub fn put_byte(&mut self, index: i32, value: u8)
        requires
            in_bounds(old(self)@.len() as int, index as int, 1),
        ensures
            final(self)@ == write_bytes(old(self)@, index as int, seq![value]),
    {
        proof {
            use_type_invariant(&*self);
        }
        self.byte_array[index as usize] = value;
        assert(self.byte_array@ =~= write_bytes(old(self)@, index as int, seq![value]));
    }

    pub fn put_short(&mut self, index: i32, value: i16)
        requires
            in_bounds(old(self)@.len() as int, index as int, 2),
        ensures
            final(self)@ == write_bytes(old(self)@, index as int, i16_bytes(value)),
    {
        proof {
            use_type_invariant(&*self);
        }
        let i = index as usize;
        let u = #[verifier::truncate] (value as u16);
        self.byte_array[i] = #[verifier::truncate] ((u & 0xff) as u8);
        self.byte_array[i + 1] = #[verifier::truncate] ((u >> 8) as u8);
        assert(self.byte_array@ =~= write_bytes(old(self)@, index as int, i16_bytes(value)));
    }

    pub fn put_int(&mut self, index: i32, value: i32)
        requires
            in_bounds(old(self)@.len() as int, index as int, 4),
        ensures
            final(self)@ == write_bytes(old(self)@, index as int, i32_bytes(value)),
    {
        proof {
            use_type_invariant(&*self);
        }
        let i = index as usize;
        let u = #[verifier::truncate] (value as u32);
        self.byte_array[i] = #[verifier::truncate] ((u & 0xff) as u8);
        self.byte_array[i + 1] = #[verifier::truncate] (((u >> 8) & 0xff) as u8);
        self.byte_array[i + 2] = #[verifier::truncate] (((u >> 16) & 0xff) as u8);
        self.byte_array[i + 3] = #[verifier::truncate] ((u >> 24) as u8);
        assert(self.byte_array@ =~= write_bytes(old(self)@, index as int, i32_bytes(value)));
    }

    pub fn put_long(&mut self, index: i32, value: i64)
        requires
            in_bounds(old(self)@.len() as int, index as int, 8),
        ensures
            final(self)@ == write_bytes(old(self)@, index as int, i64_bytes(value)),
    {
        proof {
            use_type_invariant(&*self);
        }
        let i = index as usize;
        let u = #[verifier::truncate] (value as u64);
        self.byte_array[i] = #[verifier::truncate] ((u & 0xff) as u8);
        self.byte_array[i + 1] = #[verifier::truncate] (((u >> 8) & 0xff) as u8);
        self.byte_array[i + 2] = #[verifier::truncate] (((u >> 16) & 0xff) as u8);
        self.byte_array[i + 3] = #[verifier::truncate] (((u >> 24) & 0xff) as u8);
        self.byte_array[i + 4] = #[verifier::truncate] (((u >> 32) & 0xff) as u8);
        self.byte_array[i + 5] = #[verifier::truncate] (((u >> 40) & 0xff) as u8);
        self.byte_array[i + 6] = #[verifier::truncate] (((u >> 48) & 0xff) as u8);
        self.byte_array[i + 7] = #[verifier::truncate] ((u >> 56) as u8);
        assert(self.byte_array@ =~= write_bytes(old(self)@, index as int, i64_bytes(value)));
    }

    /// Sets `length` bytes from `index` to `value`.
    pub fn set_memory(&mut self, index: i32, length: i32, value: u8)
        requires
            0 <= length,
            in_bounds(old(self)@.len() as int, index as int, length as int),
        ensures
            final(self)@ == write_bytes(
                old(self)@,
                index as int,
                Seq::new(length as nat, |j: int| value),
            ),
    {
        let mut k: i32 = 0;
        while k < length
            invariant
                0 <= k <= length,
                in_bounds(old(self)@.len() as int, index as int, length as int),
                self@ == write_bytes(old(self)@, index as int, Seq::new(k as nat, |j: int| value)),
            decreases length - k,
        {
            proof {
                use_type_invariant(&*self);
            }
            self.byte_array[(index + k) as usize] = value;
            k = k + 1;
            assert(self@ =~= write_bytes(
                old(self)@,
                index as int,
                Seq::new(k as nat, |j: int| value),
            ));
        }
    }

    /// Copies all of `bytes` to the region from `index`.
    pub fn put_bytes(&mut self, index: i32, bytes: &UnsafeBuffer)
        requires
            in_bounds(old(self)@.len() as int, index as int, bytes@.len() as int),
        ensures
            final(self)@ == write_bytes(old(self)@, index as int, bytes@),
    {
        let n = bytes.capacity();
        self.put_bytes2(index, bytes, 0, n);
        assert(bytes@.subrange(0, n as int) =~= bytes@);
    }

    /// Copies `length` bytes of `src_buffer` from `offset` to the region from `index`.
    pub fn put_bytes2(&mut self, index: i32, src_buffer: &UnsafeBuffer, offset: i32, length: i32)
        requires
            0 <= length,
            in_bounds(old(self)@.len() as int, index as int, length as int),
            in_bounds(src_buffer@.len() as int, offset as int, length as int),
        ensures
            final(self)@ == write_bytes(
                old(self)@,
                index as int,
                src_buffer@.subrange(offset as int, offset + length),
            ),
    {
        let mut k: i32 = 0;
        while k < length
            invariant
                0 <= k <= length,
                in_bounds(old(self)@.len() as int, index as int, length as int),
                in_bounds(src_buffer@.len() as int, offset as int, length as int),
                self@ == write_bytes(
                    old(self)@,
                    index as int,
                    src_buffer@.subrange(offset as int, offset + k),
                ),
            decreases length - k,
        {
            proof {
                use_type_invariant(&*self);
                use_type_invariant(src_buffer);
            }
            let b = src_buffer.get_byte(offset + k);
            self.byte_array[(index + k) as usize] = b;
            k = k + 1;
            assert(self@ =~= write_bytes(
                old(self)@,
                index as int,
                src_buffer@.subrange(offset as int, offset + k),
            ));
        }
    }

}

impl AtomicBuffer for UnsafeBuffer {
    open spec fn contents(&self) -> Seq<u8> {
        self@
    }

    fn verify_alignment(&self) {
    }

    fn get_long_volatile(&self, index: i32) -> (r: i64) {
        self.get_long(index)
    }

    fn put_long_volatile(&mut self, index: i32, value: i64) {
        self.put_long(index, value)
    }

    fn put_long_ordered(&mut self, index: i32, value: i64) {
        self.put_long(index, value)
    }

    fn add_long_ordered(&mut self, index: i32, increment: i64) {
        let value = self.get_long(index);
        self.put_long(index, value.wrapping_add(increment))
    }

    fn compare_and_set_long(&mut self, index: i32, expected_value: i64, update_value: i64) -> (r:
        bool) {
        if self.get_long(index) == expected_value {
            self.put_long(index, update_value);
            true
        } else {
            false
        }
    }

    fn get_and_set_long(&mut self, index: i32, value: i64) -> (r: i64) {
        let previous = self.get_long(index);
        self.put_long(index, value);
        previous
    }

    fn get_and_add_long(&mut self, index: i32, delta: i64) -> (r: i64) {
        let previous = self.get_long(index);
        self.put_long(index, previous.wrapping_add(delta));
        previous
    }

    fn get_int_volatile(&self, index: i32) -> (r: i32) {
        self.get_int(index)
    }

    fn put_int_volatile(&mut self, index: i32, value: i32) {
        self.put_int(index, value)
    }

    fn put_int_ordered(&mut self, index: i32, value: i32) {
        self.put_int(index, value)
    }

    fn add_int_ordered(&mut self, index: i32, increment: i32) {
        let value = self.get_int(index);
        self.put_int(index, value.wrapping_add(increment))
    }

    fn compare_and_set_int(&mut self, index: i32, expected_value: i32, update_value: i32) -> (r:
        bool) {
        if self.get_int(index) == expected_value {
            self.put_int(index, update_value);
            true
        } else {
            false
        }
    }

    fn get_and_set_int(&mut self, index: i32, value: i32) -> (r: i32) {
        let previous = self.get_int(index);
        self.put_int(index, value);
        previous
    }

    fn get_and_add_int(&mut self, index: i32, delta: i32) -> (r: i32) {
        let previous = self.get_int(index);
        self.put_int(index, previous.wrapping_add(delta));
        previous
    }

    fn get_short_volatile(&self, index: i32) -> (r: i16) {
        self.get_short(index)
    }

    fn put_short_volatile(&mut self, index: i32, value: i16) {
        self.put_short(index, value)
    }

    fn get_byte_volatile(&self, index: i32) -> (r: u8) {
        self.get_byte(index)
    }

    fn put_byte_ordered(&mut self, index: i32, value: u8) {
        self.put_byte(index, value)
    }
}

} // verus!
