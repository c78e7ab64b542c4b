//! Sequential reading of the structure block of a flattened device tree.
//!
//! Every item of the block starts on a 4-byte boundary: a read moves the
//! position past the item and past the padding that follows it.
use vstd::prelude::*;
use vstd::string::StringSliceAdditionalSpecFns;
use vstd::utf8::valid_utf8;

use crate::endian::{be_u32_at, read_be_u32};

verus! {

/// `n` rounded up to the next multiple of 4.
pub open spec fn round_up4(n: int) -> int {
    (n + 3) / 4 * 4
}

/// The first index at or after `from` where `s` holds `byte`, if there is one.
pub open spec fn first_index_of(s: Seq<u8>, byte: u8, from: int) -> Option<int>
    decreases s.len() - from,
{
    if from < 0 || from >= s.len() {
        None
    } else if s[from] == byte {
        Some(from)
    } else {
        first_index_of(s, byte, from + 1)
    }
}

/// What `first_index_of` finds lies in range, holds the byte, and no earlier
/// index from `from` on holds it.
pub proof fn lemma_first_index_of(s: Seq<u8>, byte: u8, from: int)
    requires
        0 <= from,
    ensures
        first_index_of(s, byte, from) matches Some(k) ==> {
            &&& from <= k < s.len()
            &&& s[k] == byte
            &&& forall|j: int| from <= j < k ==> s[j] != byte
        },
        first_index_of(s, byte, from) is None ==> forall|j: int| from <= j < s.len() ==> s[j] != byte,
    decreases s.len() - from,
{
    if from < s.len() && s[from] != byte {
        lemma_first_index_of(s, byte, from + 1);
    }
}

/// Rounds `n` up to the next multiple of 4.
pub fn next_multiple_of_4(n: usize) -> (r: usize)
    requires
        round_up4(n as int) <= usize::MAX,
    ensures
        r == round_up4(n as int),
{
    let rem = n % 4;
    if rem == 0 {
        n
    } else {
        n + (4 - rem)
    }
}

/// Rounds `n` up to the next multiple of 4, or `None` where that overflows.
pub fn checked_next_multiple_of_4(n: usize) -> (r: Option<usize>)
    ensures
        r matches Some(m) ==> m == round_up4(n as int),
        r is None <==> round_up4(n as int) > usize::MAX,
{
    let rem = n % 4;
    if rem == 0 {
        Some(n)
    } else {
        n.checked_add(4 - rem)
    }
}

/// Finds the first index at or after `from` where `bytes` holds `byte`.
pub fn find_byte(bytes: &[u8], byte: u8, from: usize) -> (r: Option<usize>)
    ensures
        r matches Some(k) ==> first_index_of(bytes@, byte, from as int) == Some(k as int),
        r is None ==> first_index_of(bytes@, byte, from as int) is None,
{
    let mut i = from;
    while i < bytes.len()
        invariant
            from <= i,
            first_index_of(bytes@, byte, i as int) == first_index_of(bytes@, byte, from as int),
        decreases bytes.len() - i,
    {
        if bytes[i] == byte {
            return Some(i);
        }
        i = i + 1;
    }
    None
}

/// Interprets `bytes` as UTF-8 text, as `core::str::from_utf8` does.
///
/// Trusted: `core::str::from_utf8` returns the text exactly when the bytes are
/// valid UTF-8, and the text it returns is made of those same bytes.
#[verifier::external_body]
pub(crate) fn utf8_str<'b>(bytes: &'b [u8]) -> (r: Option<&'b str>)
    ensures
        r is Some <==> valid_utf8(bytes@),
        r matches Some(s) ==> s.spec_bytes() == bytes@,
{
    core::str::from_utf8(bytes).ok()
}

/// A cursor over the bytes of a structure block.
pub struct FdtNodeReader<'a> {
    inner: &'a [u8],
    position: usize,
}

impl<'a> FdtNodeReader<'a> {
    /// The bytes the reader walks over.
    pub closed spec fn bytes(&self) -> Seq<u8> {
        self.inner@
    }

    /// The index of the next byte to read.
    pub closed spec fn pos(&self) -> int {
        self.position as int
    }

    /// The bytes are those of a slice, so their count fits in a `usize`; the
    /// position is a `usize`.
    pub proof fn lemma_bytes_fit(&self)
        ensures
            self.bytes().len() <= usize::MAX,
            0 <= self.pos() <= usize::MAX,
    {
        assert(self.inner@.len() == self.inner.len());
    }

    /// A reader at the start of `buf`.
    pub fn new(buf: &'a [u8]) -> (r: Self)
        ensures
            r.bytes() == buf@,
            r.pos() == 0,
    {
        Self { inner: buf, position: 0 }
    }

    /// The index of the next byte to read.
    pub fn position(&self) -> (r: usize)
        ensures
            r == self.pos(),
            0 <= self.pos(),
    {
        self.position
    }

    /// The number of bytes the reader walks over.
    pub fn len(&self) -> (r: usize)
        ensures
            r == self.bytes().len(),
    {
        self.inner.len()
    }

    /// Where the nul that would end a string read now stands, if one follows
    /// the position.
    pub fn cstr_end(&self) -> (r: Option<usize>)
        ensures
            r matches Some(k) ==> first_index_of(self.bytes(), 0, self.pos()) == Some(k as int),
            r is None ==> first_index_of(self.bytes(), 0, self.pos()) is None,
    {
        find_byte(self.inner, 0, self.position)
    }

    /// Reads `size` bytes and moves past them and past the padding that brings
    /// the position to the next multiple of 4.
    pub fn read_slice(&mut self, size: usize) -> (r: &'a [u8])
        requires
            old(self).pos() + size <= old(self).bytes().len(),
            old(self).pos() + round_up4(size as int) <= usize::MAX,
        ensures
            0 <= old(self).pos(),
            r@.len() == size,
            r@ == old(self).bytes().subrange(old(self).pos(), old(self).pos() + size),
            final(self).bytes() == old(self).bytes(),
            final(self).pos() == old(self).pos() + round_up4(size as int),
    {
        let start = self.position;
        let end = start + size;
        let inner: &'a [u8] = self.inner;
        let slice = &inner[start..end];
        let padded_len = next_multiple_of_4(size);
        self.position = self.position + padded_len;
        slice
    }

    /// Reads a big-endian `u32` and moves past it.
    pub fn read_u32(&mut self) -> (r: u32)
        requires
            old(self).pos() + 4 <= old(self).bytes().len(),
        ensures
            0 <= old(self).pos(),
            r == be_u32_at(old(self).bytes(), old(self).pos()),
            final(self).bytes() == old(self).bytes(),
            final(self).pos() == old(self).pos() + 4,
    {
        let number = read_be_u32(self.inner, self.position);
        assert(self.position + 4 <= self.inner.len());
        self.position = self.position + 4;
        number
    }

    /// Reads a nul-terminated string and moves past it, its nul and its padding.
    /// The bytes before the nul are returned. Where no nul follows the
    /// position, nothing is read and `None` is returned.
    pub fn read_cstr(&mut self) -> (r: Option<&'a [u8]>)
        requires
            old(self).pos() <= old(self).bytes().len(),
            first_index_of(old(self).bytes(), 0, old(self).pos()) matches Some(k) ==> old(self).pos()
                + round_up4(k - old(self).pos() + 1) <= usize::MAX,
        ensures
            0 <= old(self).pos(),
            final(self).bytes() == old(self).bytes(),
            match first_index_of(old(self).bytes(), 0, old(self).pos()) {
                None => r is None && final(self).pos() == old(self).pos(),
                Some(k) => r matches Some(b) && b@ == old(self).bytes().subrange(old(self).pos(), k)
                    && final(self).pos() == old(self).pos() + round_up4(k - old(self).pos() + 1),
            },
    {
        let inner: &'a [u8] = self.inner;
        match find_byte(inner, 0, self.position) {
            None => None,
            Some(k) => {
                proof {
                    lemma_first_index_of(inner@, 0, self.position as int);
                }
                let string = &inner[self.position..k];
                let len = k - self.position + 1;
                let padded_len = next_multiple_of_4(len);
                self.position = self.position + padded_len;
                Some(string)
            },
        }
    }

    /// Reads a nul-terminated string as `read_cstr` does, then interprets its
    /// bytes as UTF-8 text. The position moves past the string even where the
    /// bytes turn out not to be valid UTF-8 and `None` is returned.
    pub fn read_cstr_as_str(&mut self) -> (r: Option<&'a str>)
        requires
            old(self).pos() <= old(self).bytes().len(),
            first_index_of(old(self).bytes(), 0, old(self).pos()) matches Some(k) ==> old(self).pos()
                + round_up4(k - old(self).pos() + 1) <= usize::MAX,
        ensures
            0 <= old(self).pos(),
            final(self).bytes() == old(self).bytes(),
            match first_index_of(old(self).bytes(), 0, old(self).pos()) {
                None => r is None && final(self).pos() == old(self).pos(),
                Some(k) => {
                    let name = old(self).bytes().subrange(old(self).pos(), k);
                    &&& final(self).pos() == old(self).pos() + round_up4(k - old(self).pos() + 1)
                    &&& (r is Some <==> valid_utf8(name))
                    &&& (r matches Some(s) ==> s.spec_bytes() == name)
                },
            },
    {
        let string = self.read_cstr();
        match string {
            None => None,
            Some(bytes) => utf8_str(bytes),
        }
    }
}

/// The sum of two multiples of 4 is a multiple of 4.
pub proof fn lemma_add_aligned4(a: int, b: int)
    requires
        a % 4 == 0,
        b % 4 == 0,
    ensures
        (a + b) % 4 == 0,
{
    assert((a + b) % 4 == 0) by (nonlinear_arith)
        requires
            a % 4 == 0,
            b % 4 == 0,
    ;
}

/// Rounding up to a multiple of 4 gives a multiple of 4 that is less than 4 above.
pub proof fn lemma_round_up4(n: int)
    requires
        0 <= n,
    ensures
        round_up4(n) % 4 == 0,
        n <= round_up4(n) < n + 4,
{
}

} // verus!
