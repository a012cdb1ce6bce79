//! Code-signing blobs and the SuperBlob container that indexes them.
//!
//! A blob is a big-endian magic, a big-endian total length (header
//! included) and a payload. A SuperBlob's payload is a count, an index of
//! `(slot, offset)` pairs, and the indexed blobs one after another; offsets
//! count from the start of the SuperBlob.
use crate::endian::{be32, get_be32, lemma_read_be32, push_be32, read_be32};
use crate::error::AppleCodesignError;
use vstd::prelude::*;

verus! {

pub const CSMAGIC_REQUIREMENT: u32 = 0xfade0c00;

pub const CSMAGIC_REQUIREMENT_SET: u32 = 0xfade0c01;

pub const CSMAGIC_CODEDIRECTORY: u32 = 0xfade0c02;

pub const CSMAGIC_EMBEDDED_SIGNATURE: u32 = 0xfade0cc0;

pub const CSMAGIC_EMBEDDED_ENTITLEMENTS: u32 = 0xfade7171;

pub const CSMAGIC_BLOBWRAPPER: u32 = 0xfade0b01;

pub const CSSLOT_CODEDIRECTORY: u32 = 0;

pub const CSSLOT_INFOSLOT: u32 = 1;

pub const CSSLOT_REQUIREMENTS: u32 = 2;

pub const CSSLOT_RESOURCEDIR: u32 = 3;

pub const CSSLOT_APPLICATION: u32 = 4;

pub const CSSLOT_ENTITLEMENTS: u32 = 5;

pub const CSSLOT_SIGNATURESLOT: u32 = 0x10000;

/// The serialized form of a blob.
pub open spec fn blob_bytes(magic: u32, payload: Seq<u8>) -> Seq<u8> {
    be32(magic) + be32((8 + payload.len()) as u32) + payload
}

/// Bytes that start with a blob header whose length field is their length.
pub open spec fn self_sized(b: Seq<u8>) -> bool {
    8 <= b.len() && read_be32(b, 4) as nat == b.len()
}

pub proof fn lemma_blob_self_sized(magic: u32, payload: Seq<u8>)
    requires
        8 + payload.len() <= u32::MAX,
    ensures
        self_sized(blob_bytes(magic, payload)),
        blob_bytes(magic, payload).len() == 8 + payload.len(),
        read_be32(blob_bytes(magic, payload), 0) == magic,
{
    let b = blob_bytes(magic, payload);
    assert(b.subrange(4, 8) =~= be32((8 + payload.len()) as u32));
    assert(b.subrange(0, 4) =~= be32(magic));
    lemma_read_be32(b, 4, (8 + payload.len()) as u32);
    lemma_read_be32(b, 0, magic);
}

/// Serializes a blob.
pub fn blob_to_bytes(magic: u32, payload: &[u8]) -> (r: Vec<u8>)
    requires
        8 + payload@.len() <= u32::MAX,
    ensures
        r@ == blob_bytes(magic, payload@),
{
    let mut out: Vec<u8> = Vec::new();
    push_be32(&mut out, magic);
    push_be32(&mut out, (8 + payload.len()) as u32);
    out.extend_from_slice(payload);
    assert(out@ =~= blob_bytes(magic, payload@));
    out
}

/// The indexed blobs, one after another.
pub open spec fn blobs_concat(e: Seq<(u32, Seq<u8>)>) -> Seq<u8>
    decreases e.len(),
{
    if e.len() == 0 {
        Seq::empty()
    } else {
        blobs_concat(e.drop_last()) + e.last().1
    }
}

/// The index entries, with offsets counted from `h`.
pub open spec fn index_bytes(e: Seq<(u32, Seq<u8>)>, h: nat) -> Seq<u8>
    decreases e.len(),
{
    if e.len() == 0 {
        Seq::empty()
    } else {
        index_bytes(e.drop_last(), h) + be32(e.last().0) + be32(
            (h + blobs_concat(e.drop_last()).len()) as u32,
        )
    }
}

/// Size of the SuperBlob header and index for `n` entries.
pub open spec fn superblob_header_len(n: nat) -> nat {
    12 + 8 * n
}

pub open spec fn superblob_len(e: Seq<(u32, Seq<u8>)>) -> nat {
    superblob_header_len(e.len()) + blobs_concat(e).len()
}

/// The serialized SuperBlob holding `e`, in order.
pub open spec fn superblob_bytes(magic: u32, e: Seq<(u32, Seq<u8>)>) -> Seq<u8> {
    be32(magic) + be32(superblob_len(e) as u32) + be32(e.len() as u32) + index_bytes(
        e,
        superblob_header_len(e.len()),
    ) + blobs_concat(e)
}

pub open spec fn entries_view(e: Seq<(u32, Vec<u8>)>) -> Seq<(u32, Seq<u8>)> {
    Seq::new(e.len(), |i: int| (e[i].0, e[i].1@))
}

proof fn lemma_index_len(e: Seq<(u32, Seq<u8>)>, h: nat)
    ensures
        index_bytes(e, h).len() == 8 * e.len(),
    decreases e.len(),
{
    if e.len() > 0 {
        lemma_index_len(e.drop_last(), h);
    }
}

/// Packs blobs into a SuperBlob, in the given order.
pub fn create_superblob(magic: u32, blobs: &Vec<(u32, Vec<u8>)>) -> (r: Vec<u8>)
    requires
        superblob_len(entries_view(blobs@)) <= u32::MAX,
    ensures
        r@ == superblob_bytes(magic, entries_view(blobs@)),
{
    let ghost e = entries_view(blobs@);
    let n = blobs.len();
    let ghost h = superblob_header_len(n as nat);
    proof {
        lemma_concat_prefix_len(e, n as int);
        assert(e.subrange(0, n as int) =~= e);
    }
    let header: u32 = (12 + 8 * n) as u32;
    let mut total: u32 = header;
    let mut i: usize = 0;
    while i < n
        invariant
            n == blobs@.len(),
            e == entries_view(blobs@),
            h == 12 + 8 * n,
            header as nat == h,
            i <= n,
            total as nat == h + blobs_concat(e.subrange(0, i as int)).len(),
            h + blobs_concat(e).len() <= u32::MAX,
            forall|k: int| 0 <= k <= n ==> blobs_concat(#[trigger] e.subrange(0, k)).len() <= blobs_concat(e).len(),
        decreases n - i,
    {
        proof {
            assert(e.subrange(0, i + 1).drop_last() =~= e.subrange(0, i as int));
        }
        total = total + blobs[i].1.len() as u32;
        i = i + 1;
    }
    let mut out: Vec<u8> = Vec::new();
    push_be32(&mut out, magic);
    push_be32(&mut out, total);
    push_be32(&mut out, n as u32);
    let mut offset: u32 = header;
    let mut i: usize = 0;
    assert(e.subrange(0, 0) =~= Seq::<(u32, Seq<u8>)>::empty());
    assert(out@ =~= be32(magic) + be32(superblob_len(e) as u32) + be32(e.len() as u32) + index_bytes(
        e.subrange(0, 0),
        h,
    ));
    while i < n
        invariant
            n == blobs@.len(),
            e == entries_view(blobs@),
            h == 12 + 8 * n,
            i <= n,
            offset as nat == h + blobs_concat(e.subrange(0, i as int)).len(),
            h + blobs_concat(e).len() <= u32::MAX,
            forall|k: int| 0 <= k <= n ==> blobs_concat(#[trigger] e.subrange(0, k)).len() <= blobs_concat(e).len(),
            out@ == be32(magic) + be32(superblob_len(e) as u32) + be32(e.len() as u32) + index_bytes(
                e.subrange(0, i as int),
                h,
            ),
        decreases n - i,
    {
        let ghost pre = e.subrange(0, i as int);
        let ghost next = e.subrange(0, i + 1);
        assert(next.drop_last() =~= pre);
        push_be32(&mut out, blobs[i].0);
        push_be32(&mut out, offset);
        offset = offset + blobs[i].1.len() as u32;
        i = i + 1;
        assert(out@ =~= be32(magic) + be32(superblob_len(e) as u32) + be32(e.len() as u32)
            + index_bytes(next, h));
    }
    let mut i: usize = 0;
    while i < n
        invariant
            n == blobs@.len(),
            e == entries_view(blobs@),
            h == 12 + 8 * n,
            i <= n,
            out@ == be32(magic) + be32(superblob_len(e) as u32) + be32(e.len() as u32) + index_bytes(
                e,
                h,
            ) + blobs_concat(e.subrange(0, i as int)),
        decreases n - i,
    {
        let ghost pre = e.subrange(0, i as int);
        let ghost next = e.subrange(0, i + 1);
        assert(next.drop_last() =~= pre);
        assert(next.last().1 == blobs@[i as int].1@);
        out.extend_from_slice(blobs[i].1.as_slice());
        i = i + 1;
        assert(out@ =~= be32(magic) + be32(superblob_len(e) as u32) + be32(e.len() as u32)
            + index_bytes(e, h) + blobs_concat(next));
    }
    out
}

proof fn lemma_concat_prefix_len(e: Seq<(u32, Seq<u8>)>, n: int)
    requires
        0 <= n <= e.len(),
    ensures
        forall|k: int|
            0 <= k <= n ==> blobs_concat(#[trigger] e.subrange(0, k)).len() <= blobs_concat(
                e.subrange(0, n),
            ).len(),
    decreases n,
{
    if n > 0 {
        lemma_concat_prefix_len(e, n - 1);
        assert(e.subrange(0, n).drop_last() =~= e.subrange(0, n - 1));
    }
}


/// The number of entries a SuperBlob declares.
pub open spec fn superblob_count(d: Seq<u8>) -> nat {
    read_be32(d, 8) as nat
}

/// The offset of the blob that index entry `i` points to.
pub open spec fn entry_offset(d: Seq<u8>, i: int) -> int {
    read_be32(d, 16 + 8 * i) as int
}

/// The declared length of the blob that index entry `i` points to.
pub open spec fn entry_len(d: Seq<u8>, i: int) -> int {
    read_be32(d, entry_offset(d, i) + 4) as int
}

/// A SuperBlob whose index and blob headers lie within the bytes.
pub open spec fn superblob_well_formed(d: Seq<u8>) -> bool {
    &&& 12 <= d.len()
    &&& read_be32(d, 0) == CSMAGIC_EMBEDDED_SIGNATURE
    &&& superblob_header_len(superblob_count(d)) <= d.len()
    &&& forall|i: int|
        0 <= i < superblob_count(d) ==> #[trigger] entry_offset(d, i) + 8 <= d.len()
            && entry_offset(d, i) + entry_len(d, i) <= d.len()
}

/// Index entry `i`: its slot and the bytes of the blob it points to.
pub open spec fn superblob_entry(d: Seq<u8>, i: int) -> (u32, Seq<u8>) {
    (read_be32(d, 12 + 8 * i), d.subrange(entry_offset(d, i), entry_offset(d, i) + entry_len(d, i)))
}

/// Reads the index of a SuperBlob and the blobs it points to.
pub fn parse_superblob(data: &[u8]) -> (r: Result<Vec<(u32, Vec<u8>)>, AppleCodesignError>)
    ensures
        r is Ok == superblob_well_formed(data@),
        r is Err ==> r == Err::<Vec<(u32, Vec<u8>)>, AppleCodesignError>(
            AppleCodesignError::MalformedSuperBlob,
        ),
        r is Ok ==> entries_view(r->Ok_0@) == Seq::new(
            superblob_count(data@),
            |i: int| superblob_entry(data@, i),
        ),
{
    let len = data.len();
    if len < 12 || get_be32(data, 0) != CSMAGIC_EMBEDDED_SIGNATURE {
        return Err(AppleCodesignError::MalformedSuperBlob);
    }
    let count = get_be32(data, 8) as usize;
    if count > (len - 12) / 8 {
        return Err(AppleCodesignError::MalformedSuperBlob);
    }
    let mut out: Vec<(u32, Vec<u8>)> = Vec::new();
    let mut i: usize = 0;
    while i < count
        invariant
            len == data@.len(),
            12 <= len,
            count == superblob_count(data@),
            12 + 8 * count <= len,
            i <= count,
            out@.len() == i,
            forall|j: int|
                0 <= j < i ==> #[trigger] entry_offset(data@, j) + 8 <= data@.len() && entry_offset(
                    data@,
                    j,
                ) + entry_len(data@, j) <= data@.len(),
            forall|j: int|
                0 <= j < i ==> (#[trigger] out@[j]).0 == superblob_entry(data@, j).0 && out@[j].1@
                    == superblob_entry(data@, j).1,
        decreases count - i,
    {
        let slot = get_be32(data, 12 + 8 * i);
        let offset = get_be32(data, 16 + 8 * i) as usize;
        assert(offset as int == entry_offset(data@, i as int));
        if offset > len || len - offset < 8 {
            assert(!(entry_offset(data@, i as int) + 8 <= data@.len()));
            return Err(AppleCodesignError::MalformedSuperBlob);
        }
        let blob_len = get_be32(data, offset + 4) as usize;
        assert(blob_len as int == entry_len(data@, i as int));
        if blob_len > len - offset {
            assert(!(entry_offset(data@, i as int) + entry_len(data@, i as int) <= data@.len()));
            return Err(AppleCodesignError::MalformedSuperBlob);
        }
        let mut blob: Vec<u8> = Vec::new();
        blob.extend_from_slice(&data[offset..offset + blob_len]);
        assert(blob@ =~= data@.subrange(offset as int, offset + blob_len));
        out.push((slot, blob));
        i = i + 1;
    }
    assert(entries_view(out@) =~= Seq::new(
        superblob_count(data@),
        |i: int| superblob_entry(data@, i),
    ));
    Ok(out)
}

proof fn lemma_index_entry(e: Seq<(u32, Seq<u8>)>, h: nat, i: int)
    requires
        0 <= i < e.len(),
    ensures
        index_bytes(e, h).subrange(8 * i, 8 * i + 4) == be32(e[i].0),
        index_bytes(e, h).subrange(8 * i + 4, 8 * i + 8) == be32(
            (h + blobs_concat(e.subrange(0, i)).len()) as u32,
        ),
    decreases e.len(),
{
    let ib = index_bytes(e, h);
    let pre = index_bytes(e.drop_last(), h);
    lemma_index_len(e.drop_last(), h);
    if i < e.len() - 1 {
        lemma_index_entry(e.drop_last(), h, i);
        assert(e.drop_last().subrange(0, i) =~= e.subrange(0, i));
        assert(ib.subrange(8 * i, 8 * i + 4) =~= pre.subrange(8 * i, 8 * i + 4));
        assert(ib.subrange(8 * i + 4, 8 * i + 8) =~= pre.subrange(8 * i + 4, 8 * i + 8));
    } else {
        assert(e.drop_last() =~= e.subrange(0, i));
        assert(ib.subrange(8 * i, 8 * i + 4) =~= be32(e[i].0));
        assert(ib.subrange(8 * i + 4, 8 * i + 8) =~= be32(
            (h + blobs_concat(e.subrange(0, i)).len()) as u32,
        ));
    }
}

proof fn lemma_concat_entry(e: Seq<(u32, Seq<u8>)>, i: int)
    requires
        0 <= i < e.len(),
    ensures
        blobs_concat(e.subrange(0, i)).len() + e[i].1.len() <= blobs_concat(e).len(),
        blobs_concat(e).subrange(
            blobs_concat(e.subrange(0, i)).len() as int,
            blobs_concat(e.subrange(0, i)).len() + e[i].1.len() as int,
        ) == e[i].1,
    decreases e.len(),
{
    let c = blobs_concat(e);
    let pre = blobs_concat(e.drop_last());
    let p = blobs_concat(e.subrange(0, i)).len() as int;
    if i < e.len() - 1 {
        lemma_concat_entry(e.drop_last(), i);
        assert(e.drop_last().subrange(0, i) =~= e.subrange(0, i));
        assert(c.subrange(p, p + e[i].1.len()) =~= pre.subrange(p, p + e[i].1.len()));
    } else {
        assert(e.drop_last() =~= e.subrange(0, i));
        assert(c.subrange(p, p + e[i].1.len()) =~= e[i].1);
    }
}

/// Reading a SuperBlob built from self-sized blobs gives back each blob
/// with its slot, in order.
pub proof fn lemma_superblob_round_trip(e: Seq<(u32, Seq<u8>)>)
    requires
        superblob_len(e) <= u32::MAX,
        forall|i: int| 0 <= i < e.len() ==> self_sized(#[trigger] e[i].1),
    ensures
        superblob_well_formed(superblob_bytes(CSMAGIC_EMBEDDED_SIGNATURE, e)),
        superblob_count(superblob_bytes(CSMAGIC_EMBEDDED_SIGNATURE, e)) == e.len(),
        forall|i: int|
            0 <= i < e.len() ==> #[trigger] superblob_entry(
                superblob_bytes(CSMAGIC_EMBEDDED_SIGNATURE, e),
                i,
            ) == e[i],
{
    let h = superblob_header_len(e.len());
    let d = superblob_bytes(CSMAGIC_EMBEDDED_SIGNATURE, e);
    let ib = index_bytes(e, h);
    let bc = blobs_concat(e);
    lemma_index_len(e, h);
    assert(d.subrange(0, 4) =~= be32(CSMAGIC_EMBEDDED_SIGNATURE));
    assert(d.subrange(8, 12) =~= be32(e.len() as u32));
    lemma_read_be32(d, 0, CSMAGIC_EMBEDDED_SIGNATURE);
    lemma_read_be32(d, 8, e.len() as u32);
    assert forall|i: int| 0 <= i < e.len() implies #[trigger] entry_offset(d, i) + 8 <= d.len()
        && entry_offset(d, i) + entry_len(d, i) <= d.len() && superblob_entry(d, i) == e[i] by {
        lemma_index_entry(e, h, i);
        lemma_concat_entry(e, i);
        let p = blobs_concat(e.subrange(0, i)).len() as int;
        let b = e[i].1;
        assert(d.subrange(12 + 8 * i, 16 + 8 * i) =~= ib.subrange(8 * i, 8 * i + 4));
        assert(d.subrange(16 + 8 * i, 20 + 8 * i) =~= ib.subrange(8 * i + 4, 8 * i + 8));
        lemma_read_be32(d, 12 + 8 * i, e[i].0);
        lemma_read_be32(d, 16 + 8 * i, (h + p) as u32);
        let off = h + p;
        let bl = b.len() as int;
        assert(entry_offset(d, i) == off);
        assert(d.subrange(off, off + bl) =~= bc.subrange(p, p + bl));
        assert(d[off + 4] == b[4] && d[off + 5] == b[5] && d[off + 6] == b[6] && d[off + 7] == b[7]) by {
            assert(d.subrange(off, off + bl)[4] == d[off + 4]);
            assert(d.subrange(off, off + bl)[5] == d[off + 5]);
            assert(d.subrange(off, off + bl)[6] == d[off + 6]);
            assert(d.subrange(off, off + bl)[7] == d[off + 7]);
        }
        assert(entry_len(d, i) == b.len());
    }
}

} // verus!
