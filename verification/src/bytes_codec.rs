//! Little-endian field codecs over byte vectors, built on vstd's
//! byte-order conversions.

use vstd::prelude::*;
use vstd::bytes::{spec_u64_to_le_bytes, spec_u64_from_le_bytes, u64_to_le_bytes, u64_from_le_bytes};
use vstd::bytes::{spec_u32_to_le_bytes, spec_u32_from_le_bytes, u32_to_le_bytes, u32_from_le_bytes};

verus! {

/// Read the `u64` encoded little-endian at `buf[off .. off + 8]`.
pub fn get_u64(buf: &Vec<u8>, off: usize) -> (r: u64)
    requires
        off + 8 <= buf@.len(),
    ensures
        r == spec_u64_from_le_bytes(buf@.subrange(off as int, off + 8)),
{
    let blen: usize = buf.len();
    assert(off + 8 <= blen);
    let s = vstd::slice::slice_subrange(buf.as_slice(), off, off + 8);
    u64_from_le_bytes(s)
}

/// Read the `u32` encoded little-endian at `buf[off .. off + 4]`.
pub fn get_u32(buf: &Vec<u8>, off: usize) -> (r: u32)
    requires
        off + 4 <= buf@.len(),
    ensures
        r == spec_u32_from_le_bytes(buf@.subrange(off as int, off + 4)),
{
    let blen: usize = buf.len();
    assert(off + 4 <= blen);
    let s = vstd::slice::slice_subrange(buf.as_slice(), off, off + 4);
    u32_from_le_bytes(s)
}

/// Overwrite `buf[off .. off + 8]` with the little-endian bytes of `v`.
pub fn set_u64(buf: &mut Vec<u8>, off: usize, v: u64)
    requires
        off + 8 <= old(buf)@.len(),
    ensures
        final(buf)@.len() == old(buf)@.len(),
        final(buf)@ == old(buf)@.update_subrange_with(off as int, spec_u64_to_le_bytes(v)),
{
    let bytes = u64_to_le_bytes(v);
    splice(buf, off, &bytes);
    proof {
        vstd::bytes::lemma_auto_spec_u64_to_from_le_bytes();
    }
}

/// Overwrite `buf[off .. off + 4]` with the little-endian bytes of `v`.
pub fn set_u32(buf: &mut Vec<u8>, off: usize, v: u32)
    requires
        off + 4 <= old(buf)@.len(),
    ensures
        final(buf)@.len() == old(buf)@.len(),
        final(buf)@ == old(buf)@.update_subrange_with(off as int, spec_u32_to_le_bytes(v)),
{
    let bytes = u32_to_le_bytes(v);
    splice(buf, off, &bytes);
    proof {
        vstd::bytes::lemma_auto_spec_u32_to_from_le_bytes();
    }
}

/// A window into a known subrange equals the matching window of the
/// equal sequence.
pub proof fn lemma_subrange_shift(b: Seq<u8>, o1: int, o2: int, s: Seq<u8>, a: int, c: int)
    requires
        0 <= o1 <= o2 <= b.len(),
        b.subrange(o1, o2) == s,
        0 <= a <= c <= s.len(),
    ensures
        b.subrange(o1 + a, o1 + c) == s.subrange(a, c),
{
    assert forall|j: int| 0 <= j < c - a implies b.subrange(o1 + a, o1 + c)[j] == s.subrange(
        a,
        c,
    )[j] by {
        assert(b.subrange(o1, o2)[a + j] == s[a + j]);
    }
    assert(b.subrange(o1 + a, o1 + c) =~= s.subrange(a, c));
}

/// Overwrite `buf[off .. off + src.len()]` with a copy of `src`.
pub fn splice(buf: &mut Vec<u8>, off: usize, src: &Vec<u8>)
    requires
        off + src@.len() <= old(buf)@.len(),
    ensures
        final(buf)@.len() == old(buf)@.len(),
        final(buf)@ == old(buf)@.update_subrange_with(off as int, src@),
{
    let n = src.len();
    let blen: usize = buf.len();
    let mut i: usize = 0;
    while i < n
        invariant
            n == src@.len(),
            off + n <= blen,
            buf@.len() == blen,
            buf@.len() == old(buf)@.len(),
            0 <= i <= n,
            forall|j: int| 0 <= j < i ==> buf@[off + j] == src@[j],
            forall|j: int| 0 <= j < buf@.len() && !(off <= j < off + i) ==> buf@[j] == old(buf)@[j],
        decreases n - i,
    {
        let b = src[i];
        buf.set(off + i, b);
        i = i + 1;
    }
    proof {
        assert(final(buf)@ =~= old(buf)@.update_subrange_with(off as int, src@));
    }
}

} // verus!
