//! The `BitParse` trait: bit-level getters and setters for any type that
//! packs its fields into a byte buffer.
//!
//! A layout layer that knows each field's precomputed `(offset, width)` pair
//! can drive every accessor through these two methods alone.

use vstd::prelude::*;
use vstd::arithmetic::power2::pow2;
use crate::engine::OverflowError;
use crate::model::{read_spec, field_holds, outside_unchanged, min_width};

verus! {

/// Bit-level field access over a packed byte buffer.
///
/// `bits` is the implementor's packed bytes; every method contract speaks of
/// that sequence.  Field descriptors count bits MSB-first from byte 0 and the
/// caller keeps `offset + width` within the buffer.
pub trait BitParse: Sized {
    /// The packed bytes the implementor stores its fields in.
    spec fn bits(&self) -> Seq<u8>;

    /// The packed bytes, for reading.
    fn get_data(&self) -> (r: &Vec<u8>)
        ensures
            r@ == self.bits(),
    ;

    /// The packed bytes, for writing in place.
    fn get_mut_data(&mut self) -> (r: &mut Vec<u8>)
        ensures
            (*r)@ == old(self).bits(),
            final(self).bits() == (*final(r))@,
    ;

    /// Reads the `length_bits`-bit field at `offset_bits`, right-aligned.
    fn get_bits_value(&self, offset_bits: usize, length_bits: usize) -> (r: u64)
        requires
            1 <= length_bits <= 64,
            offset_bits + length_bits <= self.bits().len() * 8,
        ensures
            r as nat == read_spec(self.bits(), offset_bits as int, length_bits as nat),
            (r as nat) < pow2(length_bits as nat),
    ;

    /// Writes `value` into the `allowed_length_bits`-bit field at
    /// `offset_bits`; atomic, and rejects values over the field's width.
    fn set_bits_value(&mut self, offset_bits: usize, allowed_length_bits: usize, value: u64) -> (r:
        Result<(), OverflowError>)
        requires
            1 <= allowed_length_bits <= 64,
            offset_bits + allowed_length_bits <= old(self).bits().len() * 8,
        ensures
            final(self).bits().len() == old(self).bits().len(),
            r is Err <==> (value as nat) >= pow2(allowed_length_bits as nat),
            r matches Err(e) ==> final(self).bits() == old(self).bits() && e.value_bits
                == min_width(value as nat) && e.allowed_bits == allowed_length_bits,
            r is Ok ==> field_holds(
                final(self).bits(),
                offset_bits as int,
                allowed_length_bits as nat,
                value,
            ),
            r is Ok ==> outside_unchanged(
                old(self).bits(),
                final(self).bits(),
                offset_bits as int,
                allowed_length_bits as nat,
            ),
            r is Ok ==> read_spec(final(self).bits(), offset_bits as int, allowed_length_bits as nat)
                == value as nat,
    ;
}

} // verus!
