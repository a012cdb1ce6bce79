//! The Mach-O rewriter: a binary with a new signature in place of the old.
//!
//! Only the tail of `__LINKEDIT` from the signature's start changes, along
//! with two size fields: the code signature command's `datasize` and the
//! `__LINKEDIT` segment command's `filesize`. Every other byte keeps its
//! offset and value.
use crate::endian::{bytes32, bytes64, set32, set64};
use crate::error::AppleCodesignError;
use crate::macho::{
    check_signing_capability, filesize_field, find_signature, first_linkedit, layout_of, signature_location,
    spec_signing_capability, MachOLayout, SegmentInfo,
};
use vstd::prelude::*;

verus! {

/// Where the rewriter writes: the positions of the two size fields and of
/// the signature.
#[derive(Clone, Copy, Debug, PartialEq, Eq, Structural)]
pub struct RewritePlan {
    pub little_endian: bool,
    /// File offset of the code signature load command.
    pub signature_command_offset: usize,
    /// File offset of the `__LINKEDIT` segment command.
    pub linkedit_command_offset: usize,
    /// The `__LINKEDIT` command is `LC_SEGMENT_64`.
    pub linkedit_is_64: bool,
    /// End of the header and load commands.
    pub commands_end: usize,
    /// File offset of the signature.
    pub signature_offset: usize,
    /// Offset of the signature within `__LINKEDIT` data.
    pub linkedit_signature_start: usize,
}

/// Offset of the `datasize` field.
pub open spec fn datasize_at(p: RewritePlan) -> int {
    p.signature_command_offset + 12
}

/// Offset of the `__LINKEDIT` `filesize` field.
pub open spec fn filesize_at(p: RewritePlan) -> int {
    p.linkedit_command_offset + if p.linkedit_is_64 {
        48int
    } else {
        36int
    }
}

pub open spec fn filesize_width(p: RewritePlan) -> int {
    if p.linkedit_is_64 {
        8
    } else {
        4
    }
}

/// Both size fields lie among the load commands, before the signature.
pub open spec fn plan_valid(p: RewritePlan) -> bool {
    &&& p.signature_command_offset + 16 <= p.commands_end
    &&& filesize_at(p) + filesize_width(p) <= p.commands_end
    &&& p.commands_end <= p.signature_offset
    &&& p.linkedit_signature_start <= p.signature_offset
}

/// `d` with the bytes at `off` replaced by `b`.
pub open spec fn splice(d: Seq<u8>, off: int, b: Seq<u8>) -> Seq<u8> {
    d.subrange(0, off) + b + d.subrange(off + b.len(), d.len() as int)
}

/// The new `__LINKEDIT` size field for a signature of `n` bytes.
pub open spec fn filesize_bytes(p: RewritePlan, n: nat) -> Seq<u8> {
    if p.linkedit_is_64 {
        bytes64((p.linkedit_signature_start + n) as u64, p.little_endian)
    } else {
        bytes32((p.linkedit_signature_start + n) as u32, p.little_endian)
    }
}

/// `d` with both size fields set for a signature of `n` bytes.
pub open spec fn patched(d: Seq<u8>, p: RewritePlan, n: nat) -> Seq<u8> {
    splice(
        splice(d, datasize_at(p), bytes32(n as u32, p.little_endian)),
        filesize_at(p),
        filesize_bytes(p, n),
    )
}

/// The rewritten binary: everything before the signature, with both size
/// fields set, followed by the new signature.
pub open spec fn rewritten(d: Seq<u8>, p: RewritePlan, sig: Seq<u8>) -> Seq<u8> {
    patched(d, p, sig.len()).subrange(0, p.signature_offset as int) + sig
}

/// Where the file cursor stands after writing segment `s` from `c`, as the
/// rewriter walks segments: `__PAGEZERO` adds nothing, a segment starting at
/// the cursor adds its data, a segment at offset 0 adds the part past the
/// cursor; any other placement is malformed.
pub open spec fn step(s: SegmentInfo, c: int) -> Option<int> {
    if s.is_pagezero {
        Some(c)
    } else if s.fileoff == c {
        Some(c + s.filesize)
    } else if s.fileoff == 0 && c <= s.filesize {
        Some(s.filesize as int)
    } else {
        None
    }
}

pub open spec fn walk(segs: Seq<SegmentInfo>, start: int) -> Option<int>
    decreases segs.len(),
{
    if segs.len() == 0 {
        Some(start)
    } else {
        match walk(segs.drop_last(), start) {
            None => None,
            Some(c) => step(segs.last(), c),
        }
    }
}

/// Segments before `__LINKEDIT` tile the file from the end of the load
/// commands up to the start of `__LINKEDIT`.
pub open spec fn segments_tile(l: &MachOLayout) -> bool {
    &&& l.segments@.len() > 0
    &&& walk(l.segments@.drop_last(), l.commands_end as int) == Some(
        l.segments@.last().fileoff as int,
    )
}

/// The plan for a layout that passed the capability check.
pub open spec fn plan_for(l: &MachOLayout, p: RewritePlan) -> bool {
    let c = l.code_signature->0;
    let seg = l.segments@.last();
    let loc = signature_location(l)->Ok_0->0;
    &&& p.little_endian == l.little_endian
    &&& p.signature_command_offset == c.command_offset
    &&& p.linkedit_command_offset == seg.command_offset
    &&& p.linkedit_is_64 == seg.is_64
    &&& p.commands_end == l.commands_end
    &&& p.signature_offset == loc.linkedit_signature_start_offset
    &&& p.linkedit_signature_start == loc.signature_start_offset
}

/// Checks that the binary can be rewritten and says where.
pub fn plan_rewrite(l: &MachOLayout, Ghost(d): Ghost<Seq<u8>>) -> (r: Result<
    RewritePlan,
    AppleCodesignError,
>)
    requires
        layout_of(l, d),
    ensures
        spec_signing_capability(l) is Err ==> r == Err::<RewritePlan, _>(
            spec_signing_capability(l)->Err_0,
        ),
        spec_signing_capability(l) is Ok ==> (r is Ok <==> segments_tile(l)),
        spec_signing_capability(l) is Ok && !segments_tile(l) ==> r == Err::<RewritePlan, _>(
            AppleCodesignError::MalformedMacho,
        ),
        r matches Ok(p) ==> plan_for(l, p) && plan_valid(p) && p.signature_offset <= d.len(),
{
    check_signing_capability(l, Ghost(d))?;
    let loc = match find_signature(l, Ghost(d))? {
        Some(loc) => loc,
        None => return Err(AppleCodesignError::BinaryNoCodeSignature),
    };
    let c = match l.code_signature {
        Some(c) => c,
        None => return Err(AppleCodesignError::BinaryNoCodeSignature),
    };
    let n = l.segments.len();
    let mut cursor: u64 = l.commands_end as u64;
    let mut i: usize = 0;
    assert(l.segments@.drop_last().subrange(0, 0) =~= Seq::<SegmentInfo>::empty());
    while i + 1 < n
        invariant
            n == l.segments@.len(),
            n > 0,
            i + 1 <= n,
            layout_of(l, d),
            spec_signing_capability(l) is Ok,
            signature_location(l) == Ok::<_, ()>(Some(loc)),
            l.code_signature == Some(c),
            l.commands_end <= cursor,
            cursor <= d.len(),
            walk(l.segments@.drop_last().subrange(0, i as int), l.commands_end as int) == Some(
                cursor as int,
            ),
        decreases n - i,
    {
        let s = l.segments[i];
        assert(segment_read_of(l, d, i as int));
        let ghost pre = l.segments@.drop_last().subrange(0, i as int);
        assert(l.segments@.drop_last().subrange(0, i + 1).drop_last() =~= pre);
        if s.is_pagezero {
        } else if s.fileoff == cursor {
            cursor = cursor + s.filesize;
        } else if s.fileoff == 0 && cursor <= s.filesize {
            cursor = s.filesize;
        } else {
            assert(l.segments@.drop_last().subrange(0, i + 1).last() == s);
            proof {
                lemma_walk_fails(l.segments@.drop_last(), i + 1, l.commands_end as int);
            }
            return Err(AppleCodesignError::MalformedMacho);
        }
        i = i + 1;
    }
    assert(l.segments@.drop_last().subrange(0, i as int) =~= l.segments@.drop_last());
    let last = l.segments[n - 1];
    if last.fileoff != cursor {
        return Err(AppleCodesignError::MalformedMacho);
    }
    assert(segment_read_of(l, d, n - 1));
    proof {
        crate::macho::lemma_first_linkedit_range(l.segments@);
    }
    assert(first_linkedit(l.segments@) == Some(n - 1));
    assert(loc.linkedit_segment_index == n - 1);
    assert(loc.linkedit_signature_start_offset == c.dataoff);
    assert(loc.signature_start_offset == c.dataoff - last.fileoff);
    Ok(
        RewritePlan {
            little_endian: l.little_endian,
            signature_command_offset: c.command_offset,
            linkedit_command_offset: last.command_offset,
            linkedit_is_64: last.is_64,
            commands_end: l.commands_end,
            signature_offset: loc.linkedit_signature_start_offset,
            linkedit_signature_start: loc.signature_start_offset,
        },
    )
}

spec fn segment_read_of(l: &MachOLayout, d: Seq<u8>, i: int) -> bool {
    crate::macho::segment_read(d, l.segments@[i], l.little_endian)
        && l.segments@[i].command_offset + filesize_field(l.segments@[i]) + 8 <= l.commands_end
}

proof fn lemma_walk_fails(segs: Seq<SegmentInfo>, k: int, start: int)
    requires
        0 < k <= segs.len(),
        step(segs.subrange(0, k).last(), walk(segs.subrange(0, k - 1), start)->0) is None,
    ensures
        walk(segs, start) is None,
    decreases segs.len(),
{
    assert(segs.subrange(0, k).drop_last() =~= segs.subrange(0, k - 1));
    if k < segs.len() {
        assert(segs.drop_last().subrange(0, k) =~= segs.subrange(0, k));
        assert(segs.drop_last().subrange(0, k - 1) =~= segs.subrange(0, k - 1));
        lemma_walk_fails(segs.drop_last(), k, start);
    } else {
        assert(segs.subrange(0, k) =~= segs);
    }
}


/// Whether a signature of `n` bytes fits the size fields.
pub open spec fn signature_fits(p: RewritePlan, n: nat) -> bool {
    &&& n <= u32::MAX
    &&& if p.linkedit_is_64 {
        p.linkedit_signature_start + n <= u64::MAX
    } else {
        p.linkedit_signature_start + n <= u32::MAX
    }
}

proof fn lemma_splice_prefix(d: Seq<u8>, m: int, off: int, b: Seq<u8>)
    requires
        0 <= off,
        off + b.len() <= m <= d.len(),
    ensures
        splice(d.subrange(0, m), off, b) == splice(d, off, b).subrange(0, m),
{
    assert(splice(d.subrange(0, m), off, b) =~= splice(d, off, b).subrange(0, m));
}

/// Writes the binary with `signature` in place of the old signature, at
/// the places that `p` gives.
pub fn rewrite_with_plan(data: &[u8], p: &RewritePlan, signature: &[u8]) -> (r: Result<
    Vec<u8>,
    AppleCodesignError,
>)
    requires
        plan_valid(*p),
    ensures
        r is Ok <==> p.signature_offset <= data@.len() && signature_fits(*p, signature@.len()),
        p.signature_offset > data@.len() ==> r == Err::<Vec<u8>, _>(
            AppleCodesignError::MalformedMacho,
        ),
        p.signature_offset <= data@.len() && !signature_fits(*p, signature@.len()) ==> r == Err::<
            Vec<u8>,
            _,
        >(AppleCodesignError::SignatureDataTooLarge),
        r matches Ok(v) ==> v@ == rewritten(data@, *p, signature@),
{
    if p.signature_offset > data.len() {
        return Err(AppleCodesignError::MalformedMacho);
    }
    let n = signature.len();
    if n > u32::MAX as usize {
        return Err(AppleCodesignError::SignatureDataTooLarge);
    }
    if p.linkedit_is_64 {
        if p.linkedit_signature_start as u64 > u64::MAX - n as u64 {
            return Err(AppleCodesignError::SignatureDataTooLarge);
        }
    } else if p.linkedit_signature_start > u32::MAX as usize || n > u32::MAX as usize
        - p.linkedit_signature_start {
        return Err(AppleCodesignError::SignatureDataTooLarge);
    }
    let m = p.signature_offset;
    let mut out: Vec<u8> = Vec::new();
    out.extend_from_slice(&data[0..m]);
    let ghost d = data@;
    assert(out@ =~= d.subrange(0, m as int));
    set32(&mut out, p.signature_command_offset + 12, n as u32, p.little_endian);
    proof {
        lemma_splice_prefix(d, m as int, datasize_at(*p), bytes32(n as u32, p.little_endian));
    }
    let ghost first = splice(d, datasize_at(*p), bytes32(n as u32, p.little_endian));
    assert(out@ =~= first.subrange(0, m as int));
    if p.linkedit_is_64 {
        set64(
            &mut out,
            p.linkedit_command_offset + 48,
            p.linkedit_signature_start as u64 + n as u64,
            p.little_endian,
        );
    } else {
        set32(
            &mut out,
            p.linkedit_command_offset + 36,
            (p.linkedit_signature_start + n) as u32,
            p.little_endian,
        );
    }
    proof {
        lemma_splice_prefix(first, m as int, filesize_at(*p), filesize_bytes(*p, n as nat));
    }
    assert(out@ =~= patched(d, *p, n as nat).subrange(0, m as int));
    out.extend_from_slice(signature);
    assert(out@ =~= rewritten(d, *p, signature@));
    Ok(out)
}

/// The rewritten binary keeps every byte before the signature except the
/// two size fields, and ends with the new signature.
pub proof fn lemma_layout_preserved(d: Seq<u8>, p: RewritePlan, sig: Seq<u8>)
    requires
        plan_valid(p),
        p.signature_offset <= d.len(),
    ensures
        rewritten(d, p, sig).len() == p.signature_offset + sig.len(),
        rewritten(d, p, sig).subrange(p.signature_offset as int, rewritten(d, p, sig).len() as int)
            == sig,
        forall|k: int|
            0 <= k < p.signature_offset && !(datasize_at(p) <= k < datasize_at(p) + 4) && !(
            filesize_at(p) <= k < filesize_at(p) + filesize_width(p)) ==> #[trigger] rewritten(
                d,
                p,
                sig,
            )[k] == d[k],
{
    let r = rewritten(d, p, sig);
    assert(r.subrange(p.signature_offset as int, r.len() as int) =~= sig);
    assert forall|k: int|
        0 <= k < p.signature_offset && !(datasize_at(p) <= k < datasize_at(p) + 4) && !(
        filesize_at(p) <= k < filesize_at(p) + filesize_width(p)) implies #[trigger] r[k]
        == d[k] by {
        let first = splice(d, datasize_at(p), bytes32(sig.len() as u32, p.little_endian));
        assert(first[k] == d[k]);
        assert(patched(d, p, sig.len())[k] == first[k]);
    }
}

/// Rewriting the rewritten binary with a signature of the same length gives
/// what rewriting the first binary would: the size fields are already right,
/// and only the signature changes.
pub proof fn lemma_rewrite_twice(d: Seq<u8>, p: RewritePlan, placeholder: Seq<u8>, sig: Seq<u8>)
    requires
        plan_valid(p),
        p.signature_offset <= d.len(),
        placeholder.len() == sig.len(),
    ensures
        rewritten(rewritten(d, p, placeholder), p, sig) == rewritten(d, p, sig),
{
    let n = sig.len();
    let a = datasize_at(p);
    let b = filesize_at(p);
    let x = bytes32(n as u32, p.little_endian);
    let y = filesize_bytes(p, n);
    let m = p.signature_offset as int;
    let inter = rewritten(d, p, placeholder);
    let pd = patched(d, p, n);
    let pi = patched(inter, p, n);
    assert(inter.subrange(0, m) =~= pd.subrange(0, m));
    assert forall|k: int| 0 <= k < m implies pi[k] == pd[k] by {
        let f1 = splice(inter, a, x);
        let g1 = splice(d, a, x);
        assert(f1[k] == g1[k] || !(a <= k < a + 4)) by {
            if !(a <= k < a + 4) {
            }
        }
        if b <= k < b + y.len() {
        } else if a <= k < a + 4 {
            assert(f1[k] == g1[k]);
        } else {
            assert(f1[k] == inter[k]);
            assert(g1[k] == d[k]);
            assert(inter[k] == pd[k]);
            assert(pd[k] == g1[k]);
        }
    }
    assert(pi.subrange(0, m) =~= pd.subrange(0, m));
    assert(rewritten(inter, p, sig) =~= rewritten(d, p, sig));
}


/// Writes the binary that `layout` describes with `signature` in place of
/// its old signature. A binary that the signer cannot rewrite (see
/// `plan_rewrite`) is refused, with the same error.
pub fn create_macho_with_signature(data: &[u8], layout: &MachOLayout, signature: &[u8]) -> (r:
    Result<Vec<u8>, AppleCodesignError>)
    requires
        layout_of(layout, data@),
    ensures
        spec_signing_capability(layout) is Err ==> r == Err::<Vec<u8>, _>(
            spec_signing_capability(layout)->Err_0,
        ),
        spec_signing_capability(layout) is Ok && !segments_tile(layout) ==> r == Err::<Vec<u8>, _>(
            AppleCodesignError::MalformedMacho,
        ),
        r is Ok ==> spec_signing_capability(layout) is Ok && segments_tile(layout),
        r matches Ok(out) ==> exists|p: RewritePlan|
            plan_for(layout, p) && plan_valid(p) && signature_fits(p, signature@.len())
                && out@ == #[trigger] rewritten(data@, p, signature@),
        spec_signing_capability(layout) is Ok && segments_tile(layout) ==> (r is Ok <==> exists|
            p: RewritePlan,
        | #[trigger] plan_for(layout, p) && signature_fits(p, signature@.len())),
{
    let p = plan_rewrite(layout, Ghost(data@))?;
    proof {
        assert forall|q: RewritePlan| #[trigger] plan_for(layout, q) implies q == p by {}
    }
    let out = rewrite_with_plan(data, &p, signature)?;
    assert(plan_for(layout, p) && plan_valid(p) && signature_fits(p, signature@.len()) && out@
        == rewritten(data@, p, signature@));
    Ok(out)
}

} // verus!
