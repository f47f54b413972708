//! Mathematical model of a packed byte buffer.
//!
//! A buffer is a sequence of bytes; its bits are numbered MSB-first, so bit 0
//! is the most significant bit of byte 0 and bit `8 * len - 1` is the least
//! significant bit of the last byte.  A field is the bit range
//! `[offset, offset + width)`; its value is read MSB-first, so the bit at
//! `offset` is the most significant of the field.

use vstd::prelude::*;
use vstd::arithmetic::power2::{
    pow2,
    lemma_pow2_unfold,
    lemma_pow2_pos,
    lemma2_to64,
};
use vstd::arithmetic::div_mod::{
    lemma_fundamental_div_mod,
    lemma_fundamental_div_mod_converse,
    lemma_multiply_divide_lt,
};

verus! {

/// The byte mask whose low `chunk` bits are set, for `chunk` in `[1, 8]`.
pub open spec fn mask8(chunk: u8) -> u8
    recommends
        1 <= chunk <= 8,
{
    0xFFu8 >> ((8 - chunk) as u8)
}

/// Bit `k` of byte `b`, counting `k = 0` as the most significant bit.
pub open spec fn byte_bit(b: u8, k: u8) -> bool
    recommends
        k < 8,
{
    (b >> ((7 - k) as u8)) & 1 == 1
}

/// Bit `j` of value `v`, counting `j = 0` as the least significant bit.
pub open spec fn val_bit(v: u64, j: u64) -> bool
    recommends
        j < 64,
{
    (v >> j) & 1 == 1
}

/// Bit `i` of the buffer, MSB-first: bit 0 is the most significant bit of
/// byte 0.
pub open spec fn buf_bit(data: Seq<u8>, i: int) -> bool
    recommends
        0 <= i < data.len() * 8,
{
    byte_bit(data[i / 8], (i % 8) as u8)
}

/// The integer held by the field `[offset, offset + width)` of the buffer,
/// read MSB-first: the bit at `offset` is the field's most significant bit.
pub open spec fn read_spec(data: Seq<u8>, offset: int, width: nat) -> nat
    decreases width,
{
    if width == 0 {
        0
    } else {
        2 * read_spec(data, offset, (width - 1) as nat) + (if buf_bit(
            data,
            offset + width - 1,
        ) {
            1nat
        } else {
            0nat
        })
    }
}

/// The field `[offset, offset + width)` of the buffer holds exactly the
/// binary digits of `value`, MSB first: the bit at `offset` is bit
/// `width - 1` of `value` and the bit at `offset + width - 1` is bit 0.
pub open spec fn field_holds(data: Seq<u8>, offset: int, width: nat, value: u64) -> bool {
    forall|i: int|
        offset <= i < offset + width ==> buf_bit(data, i) == val_bit(
            value,
            (offset + width - 1 - i) as u64,
        )
}

/// Every bit outside the field `[offset, offset + width)` is the same in
/// `post` as it was in `pre`.
pub open spec fn outside_unchanged(pre: Seq<u8>, post: Seq<u8>, offset: int, width: nat) -> bool {
    forall|i: int|
        0 <= i < pre.len() * 8 && !(offset <= i < offset + width) ==> buf_bit(post, i) == buf_bit(
            pre,
            i,
        )
}

/// The minimum number of bits needed to represent `v`; zero needs no bits.
pub open spec fn min_width(v: nat) -> nat
    decreases v,
{
    if v == 0 {
        0
    } else {
        1 + min_width(v / 2)
    }
}

/// A value below `2^width` occupies at most `width` bits.
pub proof fn lemma_min_width_le(v: nat, w: nat)
    requires
        v < pow2(w),
    ensures
        min_width(v) <= w,
    decreases w,
{
    if w == 0 {
        assert(pow2(0) == 1) by {
            vstd::arithmetic::power2::lemma2_to64();
        }
    } else if v == 0 {
    } else {
        lemma_pow2_unfold(w);
        lemma_min_width_le(v / 2, (w - 1) as nat);
    }
}

/// A bit index inside byte `j` divides down to that byte.
pub proof fn lemma_byte_index(i: int, j: int)
    requires
        0 <= j,
        8 * j <= i < 8 * j + 8,
    ensures
        i / 8 == j,
        i % 8 == i - 8 * j,
{
    lemma_fundamental_div_mod_converse(i, 8, j, i - 8 * j);
}

/// Masking with `m` never exceeds `m`.
pub proof fn lemma_and_mask_le(b: u8, s: u8, m: u8)
    by (bit_vector)
    ensures
        (b >> s) & m <= m,
{
}

/// The low-bits byte mask is one less than the matching power of two.
pub proof fn lemma_mask8_value(chunk: u8)
    requires
        1 <= chunk <= 8,
    ensures
        mask8(chunk) as nat == pow2(chunk as nat) - 1,
{
    lemma2_to64();
    assert((chunk == 1 ==> mask8(chunk) == 0x01) && (chunk == 2 ==> mask8(chunk) == 0x03) && (
    chunk == 3 ==> mask8(chunk) == 0x07) && (chunk == 4 ==> mask8(chunk) == 0x0F) && (chunk == 5
        ==> mask8(chunk) == 0x1F) && (chunk == 6 ==> mask8(chunk) == 0x3F) && (chunk == 7
        ==> mask8(chunk) == 0x7F) && (chunk == 8 ==> mask8(chunk) == 0xFF)) by (bit_vector);
}

/// Shifting a value right by one drops its lowest bit and shifts the bit
/// indices down; the dropped bit is the value's parity.
pub proof fn lemma_val_shift_down(value: u64, j: u64)
    by (bit_vector)
    requires
        j < 63,
    ensures
        val_bit(value >> 1u64, j) == val_bit(value, (j + 1) as u64),
        value >> 1u64 == value / 2,
        val_bit(value, 0) <==> value % 2 == 1,
{
}

/// The bits of the chunk extracted from byte `b` at positions
/// `[inner, inner + chunk)` line up with the bits of the extracted value.
pub proof fn lemma_extract_byte_bits(b: u8, inner: u8, chunk: u8, k: u8)
    by (bit_vector)
    requires
        1 <= chunk,
        inner + chunk <= 8,
        inner <= k < inner + chunk,
    ensures
        byte_bit(b, k) == val_bit(
            (((b >> ((8 - inner - chunk) as u8)) & mask8(chunk)) as u64),
            (inner + chunk - 1 - k) as u64,
        ),
{
}

/// Writing chunk value `cv` into positions `[inner, inner + chunk)` of byte
/// `b` sets exactly those bits to the bits of `cv` and keeps every other bit.
pub proof fn lemma_write_byte(b: u8, cv: u8, inner: u8, chunk: u8, k: u8)
    by (bit_vector)
    requires
        1 <= chunk,
        inner + chunk <= 8,
        k < 8,
        cv <= mask8(chunk),
    ensures
        (inner <= k < inner + chunk) ==> byte_bit(
            (b & !(mask8(chunk) << ((8 - inner - chunk) as u8))) | (cv << ((8 - inner
                - chunk) as u8)),
            k,
        ) == val_bit(cv as u64, (inner + chunk - 1 - k) as u64),
        !(inner <= k < inner + chunk) ==> byte_bit(
            (b & !(mask8(chunk) << ((8 - inner - chunk) as u8))) | (cv << ((8 - inner
                - chunk) as u8)),
            k,
        ) == byte_bit(b, k),
{
}

/// The chunk of `value` that covers bit indices `[rem - chunk, rem)` carries
/// exactly those bits of `value`, and fits under the chunk mask.
pub proof fn lemma_value_chunk(value: u64, rem: u64, chunk: u64, t: u64)
    by (bit_vector)
    requires
        1 <= chunk <= 8,
        chunk <= rem <= 64,
        t < chunk,
    ensures
        val_bit(
            ((((value >> ((rem - chunk) as u64)) as u8) & mask8(chunk as u8)) as u64),
            t,
        ) == val_bit(value, (rem - chunk + t) as u64),
        (((value >> ((rem - chunk) as u64)) as u8) & mask8(chunk as u8)) <= mask8(chunk as u8),
{
}

/// Round trip: a buffer whose field holds the binary digits of `value`
/// reads back exactly `value`.
pub proof fn lemma_read_of_bits(data: Seq<u8>, offset: int, width: nat, value: u64)
    requires
        width <= 64,
        (value as nat) < pow2(width),
        field_holds(data, offset, width, value),
    ensures
        read_spec(data, offset, width) == value,
    decreases width,
{
    if width == 0 {
        lemma2_to64();
    } else {
        let half = value >> 1u64;
        lemma_val_shift_down(value, 0);
        lemma_pow2_unfold(width);
        lemma_multiply_divide_lt(value as int, 2, pow2((width - 1) as nat) as int);
        assert forall|i: int| offset <= i < offset + width - 1 implies buf_bit(data, i) == val_bit(
            half,
            (offset + width - 2 - i) as u64,
        ) by {
            lemma_val_shift_down(value, (offset + width - 2 - i) as u64);
            assert(buf_bit(data, i) == val_bit(value, (offset + width - 1 - i) as u64));
        };
        assert(field_holds(data, offset, (width - 1) as nat, half));
        lemma_read_of_bits(data, offset, (width - 1) as nat, half);
        lemma_fundamental_div_mod(value as int, 2);
    }
}

/// Reading a field sees only the field's own bits: two buffers that agree on
/// `[offset, offset + width)` read the same value there.
pub proof fn lemma_read_frame(a: Seq<u8>, b: Seq<u8>, offset: int, width: nat)
    requires
        forall|i: int| offset <= i < offset + width ==> buf_bit(a, i) == buf_bit(b, i),
    ensures
        read_spec(a, offset, width) == read_spec(b, offset, width),
    decreases width,
{
    if width > 0 {
        lemma_read_frame(a, b, offset, (width - 1) as nat);
    }
}

/// A field splits at any point: the whole value is the high part shifted up
/// by the width of the low part, plus the low part.
pub proof fn lemma_read_split(data: Seq<u8>, offset: int, w1: nat, w2: nat)
    ensures
        read_spec(data, offset, w1 + w2) == read_spec(data, offset, w1) * pow2(w2) + read_spec(
            data,
            offset + w1,
            w2,
        ),
    decreases w2,
{
    if w2 == 0 {
        lemma2_to64();
    } else {
        lemma_read_split(data, offset, w1, (w2 - 1) as nat);
        lemma_pow2_unfold(w2);
        let a = read_spec(data, offset, w1) as int;
        let p = pow2((w2 - 1) as nat) as int;
        assert(2 * (a * p) == a * (2 * p)) by (nonlinear_arith);
        assert(read_spec(data, offset, (w1 + w2 - 1) as nat) == a * p + read_spec(
            data,
            offset + w1,
            (w2 - 1) as nat,
        ));
    }
}

/// A value of `2^width` or more does not fit in `width` bits.
pub proof fn lemma_min_width_gt(v: nat, w: nat)
    requires
        v >= pow2(w),
    ensures
        min_width(v) > w,
    decreases w,
{
    lemma_pow2_pos(w);
    if w == 0 {
    } else {
        lemma_pow2_unfold(w);
        lemma_min_width_gt(v / 2, (w - 1) as nat);
    }
}

} // verus!
