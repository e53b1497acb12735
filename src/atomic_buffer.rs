use vstd::prelude::*;

use crate::unsafe_buffer::{i16_at, i16_bytes, i32_at, i32_bytes, i64_at, i64_bytes, in_bounds, write_bytes};

verus! {

/// Accesses to a byte region that another party may observe: volatile loads and stores,
/// ordered (release) stores, and atomic read-modify-write operations.
pub trait AtomicBuffer {
    /// The bytes of the region.
    spec fn contents(&self) -> Seq<u8>;

    /// Checks that the region's address suits the access widths in use.
    fn verify_alignment(&self);

    fn get_long_volatile(&self, index: i32) -> (r: i64)
        requires
            in_bounds(self.contents().len() as int, index as int, 8),
        ensures
            r == i64_at(self.contents(), index as int),
    ;

    fn put_long_volatile(&mut self, index: i32, value: i64)
        requires
            in_bounds(old(self).contents().len() as int, index as int, 8),
        ensures
            final(self).contents() == write_bytes(old(self).contents(), index as int, i64_bytes(value)),
    ;

    fn put_long_ordered(&mut self, index: i32, value: i64)
        requires
            in_bounds(old(self).contents().len() as int, index as int, 8),
        ensures
            final(self).contents() == write_bytes(old(self).contents(), index as int, i64_bytes(value)),
    ;

    /// Adds `increment` (wrapping) to the 64-bit value at `index`.
    fn add_long_ordered(&mut self, index: i32, increment: i64)
        requires
            in_bounds(old(self).contents().len() as int, index as int, 8),
        ensures
            final(self).contents() == write_bytes(
                old(self).contents(),
                index as int,
                i64_bytes(i64_at(old(self).contents(), index as int).wrapping_add(increment)),
            ),
    ;

    /// Replaces the 64-bit value at `index` by `update_value` if it equals `expected_value`.
    fn compare_and_set_long(&mut self, index: i32, expected_value: i64, update_value: i64) -> (r:
        bool)
        requires
            in_bounds(old(self).contents().len() as int, index as int, 8),
        ensures
            r == (i64_at(old(self).contents(), index as int) == expected_value),
            r ==> final(self).contents() == write_bytes(old(self).contents(), index as int, i64_bytes(update_value)),
            !r ==> final(self).contents() == old(self).contents(),
    ;

    /// Stores `value` at `index` and returns what was there.
    fn get_and_set_long(&mut self, index: i32, value: i64) -> (r: i64)
        requires
            in_bounds(old(self).contents().len() as int, index as int, 8),
        ensures
            r == i64_at(old(self).contents(), index as int),
            final(self).contents() == write_bytes(old(self).contents(), index as int, i64_bytes(value)),
    ;

    /// Adds `delta` (wrapping) to the 64-bit value at `index` and returns what was there.
    fn get_and_add_long(&mut self, index: i32, delta: i64) -> (r: i64)
        requires
            in_bounds(old(self).contents().len() as int, index as int, 8),
        ensures
            r == i64_at(old(self).contents(), index as int),
            final(self).contents() == write_bytes(old(self).contents(), index as int, i64_bytes(r.wrapping_add(delta))),
    ;

    fn get_int_volatile(&self, index: i32) -> (r: i32)
        requires
            in_bounds(self.contents().len() as int, index as int, 4),
        ensures
            r == i32_at(self.contents(), index as int),
    ;

    fn put_int_volatile(&mut self, index: i32, value: i32)
        requires
            in_bounds(old(self).contents().len() as int, index as int, 4),
        ensures
            final(self).contents() == write_bytes(old(self).contents(), index as int, i32_bytes(value)),
    ;

    fn put_int_ordered(&mut self, index: i32, value: i32)
        requires
            in_bounds(old(self).contents().len() as int, index as int, 4),
        ensures
            final(self).contents() == write_bytes(old(self).contents(), index as int, i32_bytes(value)),
    ;

    /// Adds `increment` (wrapping) to the 32-bit value at `index`.
    fn add_int_ordered(&mut self, index: i32, increment: i32)
        requires
            in_bounds(old(self).contents().len() as int, index as int, 4),
        ensures
            final(self).contents() == write_bytes(
                old(self).contents(),
                index as int,
                i32_bytes(i32_at(old(self).contents(), index as int).wrapping_add(increment)),
            ),
    ;

    /// Replaces the 32-bit value at `index` by `update_value` if it equals `expected_value`.
    fn compare_and_set_int(&mut self, index: i32, expected_value: i32, update_value: i32) -> (r:
        bool)
        requires
            in_bounds(old(self).contents().len() as int, index as int, 4),
        ensures
            r == (i32_at(old(self).contents(), index as int) == expected_value),
            r ==> final(self).contents() == write_bytes(old(self).contents(), index as int, i32_bytes(update_value)),
            !r ==> final(self).contents() == old(self).contents(),
    ;

    /// Stores `value` at `index` and returns what was there.
    fn get_and_set_int(&mut self, index: i32, value: i32) -> (r: i32)
        requires
            in_bounds(old(self).contents().len() as int, index as int, 4),
        ensures
            r == i32_at(old(self).contents(), index as int),
            final(self).contents() == write_bytes(old(self).contents(), index as int, i32_bytes(value)),
    ;

    /// Adds `delta` (wrapping) to the 32-bit value at `index` and returns what was there.
    fn get_and_add_int(&mut self, index: i32, delta: i32) -> (r: i32)
        requires
            in_bounds(old(self).contents().len() as int, index as int, 4),
        ensures
            r == i32_at(old(self).contents(), index as int),
            final(self).contents() == write_bytes(old(self).contents(), index as int, i32_bytes(r.wrapping_add(delta))),
    ;

    fn get_short_volatile(&self, index: i32) -> (r: i16)
        requires
            in_bounds(self.contents().len() as int, index as int, 2),
        ensures
            r == i16_at(self.contents(), index as int),
    ;

    fn put_short_volatile(&mut self, index: i32, value: i16)
        requires
            in_bounds(old(self).contents().len() as int, index as int, 2),
        ensures
            final(self).contents() == write_bytes(old(self).contents(), index as int, i16_bytes(value)),
    ;

    fn get_byte_volatile(&self, index: i32) -> (r: u8)
        requires
            in_bounds(self.contents().len() as int, index as int, 1),
        ensures
            r == self.contents()[index as int],
    ;

    fn put_byte_ordered(&mut self, index: i32, value: u8)
        requires
            in_bounds(old(self).contents().len() as int, index as int, 1),
        ensures
            final(self).contents() == write_bytes(old(self).contents(), index as int, seq![value]),
    ;
}

} // verus!
