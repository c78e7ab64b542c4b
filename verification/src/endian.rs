//! Big-endian 32-bit values as they are laid out in a flattened device tree.
use vstd::prelude::*;

use crate::text::{dec_digits, hex_digits, push_dec, push_hex};

verus! {

/// The value whose little-endian byte order is the big-endian byte order of `x`.
pub open spec fn spec_swap_bytes(x: u32) -> u32 {
    ((x >> 24u32) & 0xffu32) | ((x >> 8u32) & 0xff00u32) | ((x << 8u32) & 0xff_0000u32) | ((x
        << 24u32) & 0xff00_0000u32)
}

/// Reverses the byte order of `x`.
pub fn swap_bytes(x: u32) -> (r: u32)
    ensures
        r == spec_swap_bytes(x),
{
    ((x >> 24u32) & 0xffu32) | ((x >> 8u32) & 0xff00u32) | ((x << 8u32) & 0xff_0000u32) | ((x
        << 24u32) & 0xff00_0000u32)
}

/// Reversing the byte order twice gives back the value.
pub proof fn lemma_swap_bytes_involution(x: u32)
    ensures
        spec_swap_bytes(spec_swap_bytes(x)) == x,
{
    assert(spec_swap_bytes(spec_swap_bytes(x)) == x) by (bit_vector);
}


/// The value of four bytes read as a big-endian number, most significant byte first.
pub open spec fn be_value(b0: u8, b1: u8, b2: u8, b3: u8) -> u32 {
    ((b0 as u32) * 0x100_0000 + (b1 as u32) * 0x1_0000 + (b2 as u32) * 0x100 + (b3 as u32)) as u32
}

/// The big-endian `u32` stored in `s` at index `i`.
pub open spec fn be_u32_at(s: Seq<u8>, i: int) -> u32 {
    be_value(s[i], s[i + 1], s[i + 2], s[i + 3])
}

/// Reads the big-endian `u32` stored in `bytes` at index `i`.
pub fn read_be_u32(bytes: &[u8], i: usize) -> (r: u32)
    requires
        i + 4 <= bytes@.len(),
    ensures
        r == be_u32_at(bytes@, i as int),
{
    let b0 = bytes[i] as u32;
    let b1 = bytes[i + 1] as u32;
    let b2 = bytes[i + 2] as u32;
    let b3 = bytes[i + 3] as u32;
    b0 * 0x100_0000 + b1 * 0x1_0000 + b2 * 0x100 + b3
}

/// A `u32` kept in big-endian byte order, the order in which a device tree stores it.
///
/// `HEX` only says how the value is meant to be shown: in hexadecimal when it is `true`.
#[derive(Debug, Clone, Copy, PartialEq, Eq)]
pub struct BigEndianU32<const HEX: bool> {
    inner: u32,
}

impl<const HEX: bool> View for BigEndianU32<HEX> {
    type V = u32;

    /// The number that the stored bytes stand for.
    closed spec fn view(&self) -> u32 {
        spec_swap_bytes(self.inner)
    }
}

impl<const HEX: bool> BigEndianU32<HEX> {
    /// The value as it lies in memory: its bytes in big-endian order.
    pub closed spec fn raw(self) -> u32 {
        self.inner
    }

    /// Stores `value` in big-endian byte order.
    pub fn new(value: u32) -> (r: Self)
        ensures
            r@ == value,
            r.raw() == spec_swap_bytes(value),
    {
        proof {
            lemma_swap_bytes_involution(value);
        }
        Self { inner: swap_bytes(value) }
    }

    /// The number that the stored bytes stand for.
    pub fn get(self) -> (r: u32)
        ensures
            r == self@,
    {
        swap_bytes(self.inner)
    }

    /// The number as text: lowercase hexadecimal digits when `HEX` is set,
    /// decimal digits otherwise.
    pub fn to_string(&self) -> (r: String)
        ensures
            r@ == (if HEX {
                hex_digits(self@ as nat)
            } else {
                dec_digits(self@ as nat)
            }),
    {
        let mut out = String::new();
        let v = self.get() as u64;
        if HEX {
            push_hex(&mut out, v);
        } else {
            push_dec(&mut out, v);
        }
        out
    }

    /// The value whose memory bytes are `b0 b1 b2 b3`, most significant byte first.
    pub fn from_be_bytes(b0: u8, b1: u8, b2: u8, b3: u8) -> (r: Self)
        ensures
            r@ == be_value(b0, b1, b2, b3),
    {
        Self::new((b0 as u32) * 0x100_0000 + (b1 as u32) * 0x1_0000 + (b2 as u32) * 0x100 + (
        b3 as u32))
    }
}

/// Reading back a stored value gives the value that was stored.
pub proof fn law_get_after_new<const HEX: bool>(value: u32, x: BigEndianU32<HEX>)
    requires
        x.raw() == spec_swap_bytes(value),
    ensures
        x@ == value,
{
    lemma_swap_bytes_involution(value);
}

/// Two big-endian values are equal exactly when the numbers they stand for are equal.
pub proof fn law_eq_iff_values_eq<const HEX: bool>(a: BigEndianU32<HEX>, b: BigEndianU32<HEX>)
    ensures
        (a == b) <==> (a@ == b@),
{
    lemma_swap_bytes_involution(a.raw());
    lemma_swap_bytes_involution(b.raw());
}

/// The value of four bytes read as a little-endian number, least significant byte first.
pub open spec fn le_value(b0: u8, b1: u8, b2: u8, b3: u8) -> u32 {
    ((b3 as u32) * 0x100_0000 + (b2 as u32) * 0x1_0000 + (b1 as u32) * 0x100 + (b0 as u32)) as u32
}

/// A big-endian value lies in memory as its bytes in big-endian order: the
/// value whose big-endian bytes are `b0 b1 b2 b3` is stored as the `u32` that
/// a little-endian machine reads from the bytes `b0 b1 b2 b3`.
pub proof fn law_stored_in_big_endian_order<const HEX: bool>(
    x: BigEndianU32<HEX>,
    b0: u8,
    b1: u8,
    b2: u8,
    b3: u8,
)
    requires
        x@ == be_value(b0, b1, b2, b3),
    ensures
        x.raw() == le_value(b0, b1, b2, b3),
{
    lemma_swap_bytes_involution(x.raw());
    let v = be_value(b0, b1, b2, b3);
    assert(spec_swap_bytes(v) == le_value(b0, b1, b2, b3)) by (bit_vector)
        requires
            v == be_value(b0, b1, b2, b3),
    ;
}

} // verus!
