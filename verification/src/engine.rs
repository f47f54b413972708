//! The bit-packing engine: reads and writes integer fields of 1 to 64 bits
//! at arbitrary bit offsets in a byte buffer.
//!
//! Offsets count MSB-first: bit 0 of a buffer is the most significant bit of
//! byte 0.  A field's value is stored with its most significant used bit at
//! the field's first bit.  Callers must keep `offset + width` within the
//! buffer; that precondition is part of each function's contract.

use vstd::prelude::*;
use vstd::pervasive::VecAdditionalExecFns;
use vstd::arithmetic::power2::{
    pow2,
    lemma_pow2_pos,
    lemma_pow2_adds,
    lemma_pow2_strictly_increases,
    lemma2_to64,
    lemma2_to64_rest,
};
use vstd::arithmetic::div_mod::lemma_fundamental_div_mod;
use vstd::bits::lemma_u64_shl_is_mul;
use crate::model::{
    buf_bit,
    val_bit,
    read_spec,
    field_holds,
    outside_unchanged,
    min_width,
    mask8,
    lemma_byte_index,
    lemma_and_mask_le,
    lemma_mask8_value,
    lemma_extract_byte_bits,
    lemma_write_byte,
    lemma_value_chunk,
    lemma_read_of_bits,
    lemma_read_split,
    lemma_min_width_le,
    lemma_min_width_gt,
};

verus! {

/// Error returned when a written value needs more bits than its field allows.
#[derive(Debug, Clone, Copy, PartialEq, Eq, Structural)]
pub struct OverflowError {
    /// The least number of bits that could represent the rejected value.
    pub value_bits: usize,
    /// The width in bits of the field the write aimed at.
    pub allowed_bits: usize,
}

/// `2^k` as a machine word.
fn pow2_u64(k: u64) -> (r: u64)
    requires
        k < 64,
    ensures
        r as nat == pow2(k as nat),
{
    proof {
        lemma2_to64();
        lemma2_to64_rest();
        if k < 63 {
            lemma_pow2_strictly_increases(k as nat, 63);
        }
        lemma_u64_shl_is_mul(1u64, k);
    }
    1u64 << k
}

/// The least number of bits that can represent `value`; zero needs none.
pub fn min_width_u64(value: u64) -> (r: usize)
    ensures
        r == min_width(value as nat),
        r <= 64,
{
    proof {
        lemma2_to64();
        lemma2_to64_rest();
        lemma_min_width_le(value as nat, 64);
    }
    let mut v: u64 = value;
    let mut n: usize = 0;
    while v > 0
        invariant
            n + min_width(v as nat) == min_width(value as nat),
            min_width(value as nat) <= 64,
        decreases v,
    {
        v = v / 2;
        n = n + 1;
    }
    n
}

/// Reads the `width_bits`-bit field at `offset_bits`, MSB-first, returning it
/// right-aligned: the field's last bit lands in bit 0 of the result.
pub fn get_bits(data: &Vec<u8>, offset_bits: usize, width_bits: usize) -> (r: u64)
    requires
        1 <= width_bits <= 64,
        offset_bits + width_bits <= data@.len() * 8,
    ensures
        r as nat == read_spec(data@, offset_bits as int, width_bits as nat),
        (r as nat) < pow2(width_bits as nat),
{
    let mut result: u64 = 0;
    let mut outer: usize = offset_bits / 8;
    let mut inner: usize = offset_bits % 8;
    let mut remaining: usize = width_bits;
    proof {
        lemma_fundamental_div_mod(offset_bits as int, 8);
        lemma2_to64();
    }
    while remaining > 0
        invariant
            1 <= width_bits <= 64,
            remaining <= width_bits,
            offset_bits + width_bits <= data@.len() * 8,
            inner < 8,
            remaining > 0 ==> 8 * outer + inner == offset_bits + (width_bits - remaining),
            result as nat == read_spec(
                data@,
                offset_bits as int,
                (width_bits - remaining) as nat,
            ),
            (result as nat) < pow2((width_bits - remaining) as nat),
        decreases remaining,
    {
        let ghost consumed = (width_bits - remaining) as nat;
        let ghost o_prime = offset_bits + consumed;
        let avail: usize = 8 - inner;
        let chunk: usize = if remaining < avail {
            remaining
        } else {
            avail
        };
        let shift: usize = 8 - inner - chunk;
        let b: u8 = data[outer];
        let mask: u8 = 0xFFu8 >> ((8 - chunk) as u8);
        let cv: u8 = (b >> (shift as u8)) & mask;
        proof {
            assert(mask == mask8(chunk as u8));
            assert forall|i: int| o_prime <= i < o_prime + chunk implies buf_bit(data@, i)
                == val_bit(cv as u64, (o_prime + chunk - 1 - i) as u64) by {
                lemma_byte_index(i, outer as int);
                lemma_extract_byte_bits(b, inner as u8, chunk as u8, (i - 8 * outer) as u8);
            };
            lemma_and_mask_le(b, shift as u8, mask);
            lemma_mask8_value(chunk as u8);
            assert((cv as nat) < pow2(chunk as nat));
            assert(field_holds(data@, o_prime as int, chunk as nat, cv as u64));
            lemma_read_of_bits(data@, o_prime as int, chunk as nat, cv as u64);
            lemma_read_split(data@, offset_bits as int, consumed, chunk as nat);
        }
        let p: u64 = pow2_u64(chunk as u64);
        proof {
            lemma_pow2_adds(consumed, chunk as nat);
            lemma_pow2_pos(consumed);
            if consumed + chunk < 64 {
                lemma_pow2_strictly_increases((consumed + chunk) as nat, 64);
            }
            lemma2_to64_rest();
            assert((result as nat) * (p as nat) + (cv as nat) < pow2(consumed) * (p as nat))
                by (nonlinear_arith)
                requires
                    (result as nat) < pow2(consumed),
                    (cv as nat) < (p as nat),
                    0 < (p as nat),
            ;
        }
        result = result * p + (cv as u64);
        remaining = remaining - chunk;
        inner = 0;
        outer = outer + 1;
    }
    result
}

/// Writes `value` into the `width_bits`-bit field at `offset_bits`.
///
/// The write is atomic: if `value` does not fit in `width_bits` bits the
/// buffer is left byte-for-byte unchanged and the overflow is reported;
/// otherwise exactly the bits of the field change, and every bit outside
/// `[offset_bits, offset_bits + width_bits)` keeps its previous value.
pub fn set_bits(data: &mut Vec<u8>, offset_bits: usize, width_bits: usize, value: u64) -> (r:
    Result<(), OverflowError>)
    requires
        1 <= width_bits <= 64,
        offset_bits + width_bits <= old(data)@.len() * 8,
    ensures
        final(data)@.len() == old(data)@.len(),
        r is Err <==> (value as nat) >= pow2(width_bits as nat),
        r matches Err(e) ==> final(data)@ == old(data)@ && e.value_bits == min_width(value as nat)
            && e.allowed_bits == width_bits,
        r is Ok ==> field_holds(final(data)@, offset_bits as int, width_bits as nat, value),
        r is Ok ==> outside_unchanged(
            old(data)@,
            final(data)@,
            offset_bits as int,
            width_bits as nat,
        ),
        r is Ok ==> read_spec(final(data)@, offset_bits as int, width_bits as nat) == value as nat,
{
    let value_bits = min_width_u64(value);
    if value_bits > width_bits {
        proof {
            if (value as nat) < pow2(width_bits as nat) {
                lemma_min_width_le(value as nat, width_bits as nat);
            }
        }
        return Err(OverflowError { value_bits, allowed_bits: width_bits });
    }
    proof {
        if (value as nat) >= pow2(width_bits as nat) {
            lemma_min_width_gt(value as nat, width_bits as nat);
        }
    }
    let ghost orig = data@;
    let mut outer: usize = offset_bits / 8;
    let mut inner: usize = offset_bits % 8;
    let mut remaining: usize = width_bits;
    proof {
        lemma_fundamental_div_mod(offset_bits as int, 8);
    }
    while remaining > 0
        invariant
            1 <= width_bits <= 64,
            remaining <= width_bits,
            offset_bits + width_bits <= orig.len() * 8,
            data@.len() == orig.len(),
            (value as nat) < pow2(width_bits as nat),
            inner < 8,
            remaining > 0 ==> 8 * outer + inner == offset_bits + (width_bits - remaining),
            forall|i: int|
                offset_bits <= i < offset_bits + (width_bits - remaining) ==> buf_bit(data@, i)
                    == val_bit(value, (offset_bits + width_bits - 1 - i) as u64),
            forall|i: int|
                0 <= i < orig.len() * 8 && !(offset_bits <= i < offset_bits + (width_bits
                    - remaining)) ==> buf_bit(data@, i) == buf_bit(orig, i),
        decreases remaining,
    {
        let ghost consumed = (width_bits - remaining) as nat;
        let ghost o_prime = offset_bits + consumed;
        let ghost prev = data@;
        let avail: usize = 8 - inner;
        let chunk: usize = if remaining < avail {
            remaining
        } else {
            avail
        };
        let shift: usize = 8 - inner - chunk;
        let mask: u8 = 0xFFu8 >> ((8 - chunk) as u8);
        let cv: u8 = ((value >> ((remaining - chunk) as u64)) as u8) & mask;
        let b: u8 = data[outer];
        let nb: u8 = (b & !(mask << (shift as u8))) | (cv << (shift as u8));
        data.set(outer, nb);
        proof {
            assert(mask == mask8(chunk as u8));
            lemma_value_chunk(value, remaining as u64, chunk as u64, 0);
            assert(cv <= mask8(chunk as u8));
            assert forall|i: int| 0 <= i < orig.len() * 8 implies buf_bit(data@, i) == (if o_prime
                <= i < o_prime + chunk {
                val_bit(value, (offset_bits + width_bits - 1 - i) as u64)
            } else {
                buf_bit(prev, i)
            }) by {
                lemma_fundamental_div_mod(i, 8);
                if o_prime <= i < o_prime + chunk {
                    lemma_byte_index(i, outer as int);
                    lemma_write_byte(b, cv, inner as u8, chunk as u8, (i % 8) as u8);
                    lemma_value_chunk(
                        value,
                        remaining as u64,
                        chunk as u64,
                        (inner + chunk - 1 - (i % 8)) as u64,
                    );
                } else {
                    if i / 8 == outer {
                        lemma_write_byte(b, cv, inner as u8, chunk as u8, (i % 8) as u8);
                    }
                }
            };
        }
        remaining = remaining - chunk;
        inner = 0;
        outer = outer + 1;
    }
    proof {
        assert(field_holds(data@, offset_bits as int, width_bits as nat, value));
        assert(outside_unchanged(orig, data@, offset_bits as int, width_bits as nat));
        lemma_read_of_bits(data@, offset_bits as int, width_bits as nat, value);
    }
    Ok(())
}

/// A fixed-length byte buffer owning its bytes, with bit-level field access.
///
/// The length is set at construction, the bytes start zeroed, and the buffer
/// is never resized.  Its view is the byte sequence it holds.
pub struct BitBuffer {
    data: Vec<u8>,
}

impl View for BitBuffer {
    type V = Seq<u8>;

    closed spec fn view(&self) -> Seq<u8> {
        self.data@
    }
}

impl BitBuffer {
    /// A zero-filled buffer of `len_bytes` bytes.
    pub fn new(len_bytes: usize) -> (r: Self)
        ensures
            r@.len() == len_bytes,
            forall|i: int| 0 <= i < len_bytes ==> r@[i] == 0u8,
    {
        let mut data: Vec<u8> = Vec::new();
        while data.len() < len_bytes
            invariant
                data@.len() <= len_bytes,
                forall|i: int| 0 <= i < data@.len() ==> data@[i] == 0u8,
            decreases len_bytes - data@.len(),
        {
            data.push(0u8);
        }
        BitBuffer { data }
    }

    /// The buffer's length in bytes, fixed at construction.
    pub fn len(&self) -> (r: usize)
        ensures
            r == self@.len(),
    {
        self.data.len()
    }

    /// The buffer's bytes.
    pub fn as_bytes(&self) -> (r: &Vec<u8>)
        ensures
            r@ == self@,
    {
        &self.data
    }

    /// Reads the `width_bits`-bit field at `offset_bits`, right-aligned.
    pub fn read(&self, offset_bits: usize, width_bits: usize) -> (r: u64)
        requires
            1 <= width_bits <= 64,
            offset_bits + width_bits <= self@.len() * 8,
        ensures
            r as nat == read_spec(self@, offset_bits as int, width_bits as nat),
            (r as nat) < pow2(width_bits as nat),
    {
        get_bits(&self.data, offset_bits, width_bits)
    }

    /// Writes `value` into the `width_bits`-bit field at `offset_bits`.
    ///
    /// Atomic: on overflow the buffer is unchanged and the error reports the
    /// value's minimum width next to the field's width.
    pub fn write(&mut self, offset_bits: usize, width_bits: usize, value: u64) -> (r: Result<
        (),
        OverflowError,
    >)
        requires
            1 <= width_bits <= 64,
            offset_bits + width_bits <= old(self)@.len() * 8,
        ensures
            final(self)@.len() == old(self)@.len(),
            r is Err <==> (value as nat) >= pow2(width_bits as nat),
            r matches Err(e) ==> final(self)@ == old(self)@ && e.value_bits == min_width(
                value as nat,
            ) && e.allowed_bits == width_bits,
            r is Ok ==> field_holds(final(self)@, offset_bits as int, width_bits as nat, value),
            r is Ok ==> outside_unchanged(
                old(self)@,
                final(self)@,
                offset_bits as int,
                width_bits as nat,
            ),
            r is Ok ==> read_spec(final(self)@, offset_bits as int, width_bits as nat)
                == value as nat,
    {
        set_bits(&mut self.data, offset_bits, width_bits, value)
    }
}

impl crate::parse::BitParse for BitBuffer {
    open spec fn bits(&self) -> Seq<u8> {
        self@
    }

    fn get_data(&self) -> (r: &Vec<u8>) {
        &self.data
    }

    fn get_mut_data(&mut self) -> (r: &mut Vec<u8>) {
        &mut self.data
    }

    fn get_bits_value(&self, offset_bits: usize, length_bits: usize) -> (r: u64) {
        get_bits(&self.data, offset_bits, length_bits)
    }

    fn set_bits_value(&mut self, offset_bits: usize, allowed_length_bits: usize, value: u64) -> (r:
        Result<(), OverflowError>) {
        set_bits(&mut self.data, offset_bits, allowed_length_bits, value)
    }
}

} // verus!
