//! Fixed-width integers as bytes.
use vstd::prelude::*;

verus! {

/// Big-endian bytes of a 32-bit integer.
pub open spec fn be32(v: u32) -> Seq<u8> {
    seq![(v >> 24u32) as u8, (v >> 16u32) as u8, (v >> 8u32) as u8, v as u8]
}

/// The 32-bit integer that four bytes spell, big-endian first.
pub open spec fn from_be(b0: u8, b1: u8, b2: u8, b3: u8) -> u32 {
    ((b0 as u32) << 24u32) | ((b1 as u32) << 16u32) | ((b2 as u32) << 8u32) | (b3 as u32)
}

/// The big-endian 32-bit integer at `off`.
pub open spec fn read_be32(s: Seq<u8>, off: int) -> u32 {
    from_be(s[off], s[off + 1], s[off + 2], s[off + 3])
}

/// The little-endian 32-bit integer at `off`.
pub open spec fn read_le32(s: Seq<u8>, off: int) -> u32 {
    from_be(s[off + 3], s[off + 2], s[off + 1], s[off])
}

/// Little-endian bytes of a 32-bit integer.
pub open spec fn le32(v: u32) -> Seq<u8> {
    seq![v as u8, (v >> 8u32) as u8, (v >> 16u32) as u8, (v >> 24u32) as u8]
}

/// Little-endian bytes of a 64-bit integer.
pub open spec fn le64(v: u64) -> Seq<u8> {
    le32(v as u32) + le32((v >> 32u64) as u32)
}

/// Big-endian bytes of a 64-bit integer.
pub open spec fn be64(v: u64) -> Seq<u8> {
    be32((v >> 32u64) as u32) + be32(v as u32)
}

/// Bytes of a 32-bit integer in the given byte order.
pub open spec fn bytes32(v: u32, little: bool) -> Seq<u8> {
    if little {
        le32(v)
    } else {
        be32(v)
    }
}

/// Bytes of a 64-bit integer in the given byte order.
pub open spec fn bytes64(v: u64, little: bool) -> Seq<u8> {
    if little {
        le64(v)
    } else {
        be64(v)
    }
}

pub open spec fn read32(s: Seq<u8>, off: int, little: bool) -> u32 {
    if little {
        read_le32(s, off)
    } else {
        read_be32(s, off)
    }
}

pub open spec fn read64(s: Seq<u8>, off: int, little: bool) -> u64 {
    if little {
        (read_le32(s, off) as u64) | ((read_le32(s, off + 4) as u64) << 32u64)
    } else {
        ((read_be32(s, off) as u64) << 32u64) | (read_be32(s, off + 4) as u64)
    }
}

pub proof fn lemma_from_be(v: u32)
    ensures
        from_be((v >> 24u32) as u8, (v >> 16u32) as u8, (v >> 8u32) as u8, v as u8) == v,
{
    assert(((((v >> 24u32) as u8) as u32) << 24u32) | ((((v >> 16u32) as u8) as u32) << 16u32)
        | ((((v >> 8u32) as u8) as u32) << 8u32) | (((v as u8) as u32)) == v) by (bit_vector);
}

/// Reading back the bytes of an integer gives the integer.
pub proof fn lemma_read_be32(s: Seq<u8>, off: int, v: u32)
    requires
        0 <= off,
        off + 4 <= s.len(),
        s.subrange(off, off + 4) == be32(v),
    ensures
        read_be32(s, off) == v,
{
    assert(s[off] == s.subrange(off, off + 4)[0]);
    assert(s[off + 1] == s.subrange(off, off + 4)[1]);
    assert(s[off + 2] == s.subrange(off, off + 4)[2]);
    assert(s[off + 3] == s.subrange(off, off + 4)[3]);
    lemma_from_be(v);
}

/// Appends the big-endian bytes of `v`.
pub fn push_be32(out: &mut Vec<u8>, v: u32)
    ensures
        final(out)@ == old(out)@ + be32(v),
{
    out.push((v >> 24) as u8);
    out.push((v >> 16) as u8);
    out.push((v >> 8) as u8);
    out.push(v as u8);
    assert(final(out)@ =~= old(out)@ + be32(v));
}

/// The big-endian 32-bit integer at `off`.
pub fn get_be32(s: &[u8], off: usize) -> (r: u32)
    requires
        off + 4 <= s@.len(),
    ensures
        r == read_be32(s@, off as int),
{
    let _n = s.len();
    ((s[off] as u32) << 24) | ((s[off + 1] as u32) << 16) | ((s[off + 2] as u32) << 8) | (s[off
        + 3] as u32)
}

/// The 32-bit integer at `off` in the given byte order.
pub fn get32(s: &[u8], off: usize, little: bool) -> (r: u32)
    requires
        off + 4 <= s@.len(),
    ensures
        r == read32(s@, off as int, little),
{
    let _n = s.len();
    if little {
        ((s[off + 3] as u32) << 24) | ((s[off + 2] as u32) << 16) | ((s[off + 1] as u32) << 8) | (
        s[off] as u32)
    } else {
        get_be32(s, off)
    }
}

/// The 64-bit integer at `off` in the given byte order.
pub fn get64(s: &[u8], off: usize, little: bool) -> (r: u64)
    requires
        off + 8 <= s@.len(),
    ensures
        r == read64(s@, off as int, little),
{
    let _n = s.len();
    let a = get32(s, off, little) as u64;
    let b = get32(s, off + 4, little) as u64;
    if little {
        a | (b << 32)
    } else {
        (a << 32) | b
    }
}

/// Overwrites four bytes at `off` with `v` in the given byte order.
pub fn set32(s: &mut Vec<u8>, off: usize, v: u32, little: bool)
    requires
        off + 4 <= old(s)@.len(),
    ensures
        final(s)@ == old(s)@.subrange(0, off as int) + bytes32(v, little) + old(s)@.subrange(
            off + 4,
            old(s)@.len() as int,
        ),
{
    let _n = s.len();
    if little {
        s.set(off, v as u8);
        s.set(off + 1, (v >> 8) as u8);
        s.set(off + 2, (v >> 16) as u8);
        s.set(off + 3, (v >> 24) as u8);
    } else {
        s.set(off, (v >> 24) as u8);
        s.set(off + 1, (v >> 16) as u8);
        s.set(off + 2, (v >> 8) as u8);
        s.set(off + 3, v as u8);
    }
    assert(final(s)@ =~= old(s)@.subrange(0, off as int) + bytes32(v, little) + old(s)@.subrange(
        off + 4,
        old(s)@.len() as int,
    ));
}

/// Overwrites eight bytes at `off` with `v` in the given byte order.
pub fn set64(s: &mut Vec<u8>, off: usize, v: u64, little: bool)
    requires
        off + 8 <= old(s)@.len(),
    ensures
        final(s)@ == old(s)@.subrange(0, off as int) + bytes64(v, little) + old(s)@.subrange(
            off + 8,
            old(s)@.len() as int,
        ),
{
    let _n = s.len();
    let lo = v as u32;
    let hi = (v >> 32) as u32;
    if little {
        set32(s, off, lo, true);
        set32(s, off + 4, hi, true);
    } else {
        set32(s, off, hi, false);
        set32(s, off + 4, lo, false);
    }
    assert(final(s)@ =~= old(s)@.subrange(0, off as int) + bytes64(v, little) + old(s)@.subrange(
        off + 8,
        old(s)@.len() as int,
    ));
}


/// Appends the big-endian bytes of `v`.
pub fn push_be64(out: &mut Vec<u8>, v: u64)
    ensures
        final(out)@ == old(out)@ + be64(v),
{
    push_be32(out, (v >> 32) as u32);
    push_be32(out, v as u32);
    assert(final(out)@ =~= old(out)@ + be64(v));
}

} // verus!
