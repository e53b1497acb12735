use vstd::prelude::*;

pub mod art;
pub mod atomic_buffer;
pub mod bit_util;
pub mod one_to_one_ring_buffer;
pub mod record_descriptor;
pub mod ring_buffer;
pub mod ring_buffer_descriptor;
pub mod unsafe_buffer;

verus! {

} // verus!
