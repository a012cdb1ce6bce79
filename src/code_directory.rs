//! The Code Directory: the record of per-page digests, special-slot
//! digests and signing attributes at the heart of an embedded signature.
use crate::blob::{blob_bytes, blob_to_bytes, CSMAGIC_CODEDIRECTORY};
use crate::digest::DigestType;
use crate::endian::{be32, be64, get_be32, push_be32, push_be64, read_be32};
use crate::error::AppleCodesignError;
use vstd::prelude::*;

verus! {

pub const CD_VERSION_INITIAL: u32 = 0x20001;

pub const CD_VERSION_SCATTER: u32 = 0x20100;

pub const CD_VERSION_TEAM: u32 = 0x20200;

pub const CD_VERSION_CODE_LIMIT_64: u32 = 0x20300;

pub const CD_VERSION_EXEC_SEGMENT: u32 = 0x20400;

pub const CD_VERSION_RUNTIME: u32 = 0x20500;

/// A Code Directory.
pub struct CodeDirectory {
    pub version: u32,
    pub flags: u32,
    /// Offset up to which code is digested, when it fits 32 bits; else 0.
    pub code_limit: u32,
    /// Offset up to which code is digested, when it does not fit 32 bits.
    pub code_limit_64: Option<u64>,
    pub hash_type: DigestType,
    pub hash_size: u8,
    pub platform: u8,
    /// Page size as a power of two.
    pub page_size_log2: u8,
    pub exec_seg_flags: Option<u64>,
    pub runtime: Option<u32>,
    /// Identifier, without its terminating NUL.
    pub ident: Vec<u8>,
    /// Team name, without its terminating NUL.
    pub team_name: Option<Vec<u8>>,
    /// Special-slot digests: slot `k + 1` at index `k`; all zero where empty.
    pub special_hashes: Vec<Vec<u8>>,
    /// One digest per page of code.
    pub code_hashes: Vec<Vec<u8>>,
}

pub open spec fn hashes_view(v: Seq<Vec<u8>>) -> Seq<Seq<u8>> {
    Seq::new(v.len(), |i: int| v[i]@)
}

/// The least version that carries every field that is set.
pub open spec fn minimum_version(cd: &CodeDirectory) -> u32 {
    if cd.runtime is Some {
        CD_VERSION_RUNTIME
    } else if cd.exec_seg_flags is Some {
        CD_VERSION_EXEC_SEGMENT
    } else if cd.code_limit_64 is Some {
        CD_VERSION_CODE_LIMIT_64
    } else if cd.team_name is Some {
        CD_VERSION_TEAM
    } else {
        CD_VERSION_INITIAL
    }
}

/// Length of the fixed header of a version, blob header included.
pub open spec fn header_len(v: u32) -> nat {
    if v >= CD_VERSION_RUNTIME {
        96
    } else if v >= CD_VERSION_EXEC_SEGMENT {
        88
    } else if v >= CD_VERSION_CODE_LIMIT_64 {
        64
    } else if v >= CD_VERSION_TEAM {
        52
    } else if v >= CD_VERSION_SCATTER {
        48
    } else {
        44
    }
}

pub open spec fn concat_all(v: Seq<Seq<u8>>) -> Seq<u8>
    decreases v.len(),
{
    if v.len() == 0 {
        Seq::empty()
    } else {
        concat_all(v.drop_last()) + v.last()
    }
}

pub open spec fn team_len(cd: &CodeDirectory) -> nat {
    match cd.team_name {
        Some(t) => t@.len() + 1,
        None => 0,
    }
}

pub open spec fn ident_offset(cd: &CodeDirectory) -> nat {
    header_len(cd.version)
}

pub open spec fn team_offset(cd: &CodeDirectory) -> nat {
    match cd.team_name {
        Some(t) => ident_offset(cd) + cd.ident@.len() + 1,
        None => 0,
    }
}

/// Offset of the first code digest; special digests precede it.
pub open spec fn hash_offset(cd: &CodeDirectory) -> nat {
    ident_offset(cd) + cd.ident@.len() + 1 + team_len(cd) + cd.special_hashes@.len() * (
    cd.hash_size as nat)
}

pub open spec fn total_len(cd: &CodeDirectory) -> nat {
    hash_offset(cd) + cd.code_hashes@.len() * (cd.hash_size as nat)
}

pub open spec fn opt32(v: Option<u32>) -> u32 {
    match v {
        Some(x) => x,
        None => 0,
    }
}

pub open spec fn opt64(v: Option<u64>) -> u64 {
    match v {
        Some(x) => x,
        None => 0,
    }
}

pub open spec fn header_fixed(cd: &CodeDirectory) -> Seq<u8> {
    be32(cd.version) + be32(cd.flags) + be32(hash_offset(cd) as u32) + be32(
        ident_offset(cd) as u32,
    ) + be32(cd.special_hashes@.len() as u32) + be32(cd.code_hashes@.len() as u32) + be32(
        cd.code_limit,
    ) + seq![cd.hash_size, cd.hash_type.spec_tag(), cd.platform, cd.page_size_log2] + be32(0)
}

pub open spec fn header_scatter(cd: &CodeDirectory) -> Seq<u8> {
    if cd.version >= CD_VERSION_SCATTER {
        be32(0)
    } else {
        Seq::empty()
    }
}

pub open spec fn header_team(cd: &CodeDirectory) -> Seq<u8> {
    if cd.version >= CD_VERSION_TEAM {
        be32(team_offset(cd) as u32)
    } else {
        Seq::empty()
    }
}

pub open spec fn header_limit64(cd: &CodeDirectory) -> Seq<u8> {
    if cd.version >= CD_VERSION_CODE_LIMIT_64 {
        be32(0) + be64(opt64(cd.code_limit_64))
    } else {
        Seq::empty()
    }
}

pub open spec fn header_exec_seg(cd: &CodeDirectory) -> Seq<u8> {
    if cd.version >= CD_VERSION_EXEC_SEGMENT {
        be64(0) + be64(0) + be64(opt64(cd.exec_seg_flags))
    } else {
        Seq::empty()
    }
}

pub open spec fn header_runtime(cd: &CodeDirectory) -> Seq<u8> {
    if cd.version >= CD_VERSION_RUNTIME {
        be32(opt32(cd.runtime)) + be32(0)
    } else {
        Seq::empty()
    }
}

/// The fixed header after the blob header, up to the version's end.
pub open spec fn header_fields(cd: &CodeDirectory) -> Seq<u8> {
    header_fixed(cd) + header_scatter(cd) + header_team(cd) + header_limit64(cd) + header_exec_seg(
        cd,
    ) + header_runtime(cd)
}

/// The serialized Code Directory: header, identifier, team name, special
/// digests from the highest slot down, then code digests.
pub open spec fn cd_bytes(cd: &CodeDirectory) -> Seq<u8> {
    blob_bytes(
        CSMAGIC_CODEDIRECTORY,
        header_fields(cd) + cd.ident@ + seq![0u8] + (match cd.team_name {
            Some(t) => t@ + seq![0u8],
            None => Seq::empty(),
        }) + concat_all(hashes_view(cd.special_hashes@).reverse()) + concat_all(
            hashes_view(cd.code_hashes@),
        ),
    )
}

/// Every digest has the declared width, and the whole fits 32-bit offsets.
pub open spec fn cd_well_formed(cd: &CodeDirectory) -> bool {
    &&& cd.version >= CD_VERSION_INITIAL
    &&& forall|i: int|
        0 <= i < cd.special_hashes@.len() ==> (#[trigger] cd.special_hashes@[i])@.len()
            == cd.hash_size
    &&& forall|i: int|
        0 <= i < cd.code_hashes@.len() ==> (#[trigger] cd.code_hashes@[i])@.len() == cd.hash_size
    &&& total_len(cd) <= u32::MAX
}


fn header_len_exec(v: u32) -> (r: u64)
    ensures
        r as nat == header_len(v),
{
    if v >= CD_VERSION_RUNTIME {
        96
    } else if v >= CD_VERSION_EXEC_SEGMENT {
        88
    } else if v >= CD_VERSION_CODE_LIMIT_64 {
        64
    } else if v >= CD_VERSION_TEAM {
        52
    } else if v >= CD_VERSION_SCATTER {
        48
    } else {
        44
    }
}

fn opt64_exec(v: Option<u64>) -> (r: u64)
    ensures
        r == opt64(v),
{
    match v {
        Some(x) => x,
        None => 0,
    }
}

proof fn lemma_concat_len(v: Seq<Seq<u8>>, w: nat)
    requires
        forall|i: int| 0 <= i < v.len() ==> (#[trigger] v[i]).len() == w,
    ensures
        concat_all(v).len() == v.len() * w,
    decreases v.len(),
{
    if v.len() > 0 {
        lemma_concat_len(v.drop_last(), w);
        assert(v.len() * w == (v.len() - 1) * w + w) by (nonlinear_arith);
    }
}

/// Appends every digest of `hashes`, last first when `reversed`.
fn push_hashes(out: &mut Vec<u8>, hashes: &Vec<Vec<u8>>, reversed: bool)
    ensures
        final(out)@ == old(out)@ + concat_all(
            if reversed {
                hashes_view(hashes@).reverse()
            } else {
                hashes_view(hashes@)
            },
        ),
{
    let ghost v = if reversed {
        hashes_view(hashes@).reverse()
    } else {
        hashes_view(hashes@)
    };
    let n = hashes.len();
    let mut i: usize = 0;
    assert(v.subrange(0, 0) =~= Seq::<Seq<u8>>::empty());
    while i < n
        invariant
            n == hashes@.len(),
            v == (if reversed {
                hashes_view(hashes@).reverse()
            } else {
                hashes_view(hashes@)
            }),
            i <= n,
            out@ == old(out)@ + concat_all(v.subrange(0, i as int)),
        decreases n - i,
    {
        let j = if reversed {
            n - 1 - i
        } else {
            i
        };
        assert(v.subrange(0, i + 1).drop_last() =~= v.subrange(0, i as int));
        assert(v[i as int] == hashes@[j as int]@);
        out.extend_from_slice(hashes[j].as_slice());
        i = i + 1;
        assert(out@ =~= old(out)@ + concat_all(v.subrange(0, i as int)));
    }
    assert(v.subrange(0, n as int) =~= v);
}

impl CodeDirectory {
    #[verifier::rlimit(60)]
    fn push_header(&self, out: &mut Vec<u8>, hash_off: u32, ident_off: u32, team_off: u32)
        requires
            hash_off as nat == hash_offset(self),
            ident_off as nat == ident_offset(self),
            team_off as nat == team_offset(self),
        ensures
            final(out)@ == old(out)@ + header_fields(self),
    {
        let v = self.version;
        push_be32(out, v);
        push_be32(out, self.flags);
        push_be32(out, hash_off);
        push_be32(out, ident_off);
        push_be32(out, self.special_hashes.len() as u32);
        push_be32(out, self.code_hashes.len() as u32);
        push_be32(out, self.code_limit);
        out.push(self.hash_size);
        out.push(self.hash_type.tag());
        out.push(self.platform);
        out.push(self.page_size_log2);
        push_be32(out, 0);
        assert(out@ =~= old(out)@ + header_fixed(self));
        let ghost s0 = out@;
        if v >= CD_VERSION_SCATTER {
            push_be32(out, 0);
        }
        assert(out@ =~= s0 + header_scatter(self));
        let ghost s1 = out@;
        if v >= CD_VERSION_TEAM {
            push_be32(out, team_off);
        }
        assert(out@ =~= s1 + header_team(self));
        let ghost s2 = out@;
        if v >= CD_VERSION_CODE_LIMIT_64 {
            push_be32(out, 0);
            push_be64(out, opt64_exec(self.code_limit_64));
        }
        assert(out@ =~= s2 + header_limit64(self));
        let ghost s3 = out@;
        if v >= CD_VERSION_EXEC_SEGMENT {
            push_be64(out, 0);
            push_be64(out, 0);
            push_be64(out, opt64_exec(self.exec_seg_flags));
        }
        assert(out@ =~= s3 + header_exec_seg(self));
        let ghost s4 = out@;
        if v >= CD_VERSION_RUNTIME {
            let rt = match self.runtime {
                Some(x) => x,
                None => 0,
            };
            push_be32(out, rt);
            push_be32(out, 0);
        }
        assert(out@ =~= s4 + header_runtime(self));
        assert(final(out)@ =~= old(out)@ + header_fields(self));
    }

    /// Serializes the Code Directory as a blob.
    pub fn to_blob_bytes(&self) -> (r: Result<Vec<u8>, AppleCodesignError>)
        ensures
            r is Ok == cd_well_formed(self),
            r is Err ==> r == Err::<Vec<u8>, _>(AppleCodesignError::MalformedCodeDirectory),
            r matches Ok(b) ==> b@ == cd_bytes(self) && crate::blob::self_sized(b@),
    {
        if self.version < CD_VERSION_INITIAL {
            return Err(AppleCodesignError::MalformedCodeDirectory);
        }
        let hs = self.hash_size as usize;
        let mut i: usize = 0;
        while i < self.special_hashes.len()
            invariant
                hs == self.hash_size,
                i <= self.special_hashes@.len(),
                forall|j: int| 0 <= j < i ==> (#[trigger] self.special_hashes@[j])@.len() == hs,
            decreases self.special_hashes.len() - i,
        {
            if self.special_hashes[i].len() != hs {
                assert(self.special_hashes@[i as int]@.len() != self.hash_size);
                return Err(AppleCodesignError::MalformedCodeDirectory);
            }
            i = i + 1;
        }
        let mut i: usize = 0;
        while i < self.code_hashes.len()
            invariant
                hs == self.hash_size,
                i <= self.code_hashes@.len(),
                forall|j: int| 0 <= j < i ==> (#[trigger] self.code_hashes@[j])@.len() == hs,
            decreases self.code_hashes.len() - i,
        {
            if self.code_hashes[i].len() != hs {
                assert(self.code_hashes@[i as int]@.len() != self.hash_size);
                return Err(AppleCodesignError::MalformedCodeDirectory);
            }
            i = i + 1;
        }
        let max: u128 = 0xffff_ffff;
        let hl = header_len_exec(self.version) as u128;
        let ident_len = self.ident.len() as u128;
        let team_l: u128 = match &self.team_name {
            Some(t) => t.len() as u128 + 1,
            None => 0,
        };
        let ns = self.special_hashes.len() as u128;
        let nc = self.code_hashes.len() as u128;
        let hs128 = hs as u128;
        assert(ns * hs128 <= 0xffff_ffff_ffff_ffff * 255) by (nonlinear_arith)
            requires
                ns <= 0xffff_ffff_ffff_ffff,
                hs128 <= 255,
        ;
        assert(nc * hs128 <= 0xffff_ffff_ffff_ffff * 255) by (nonlinear_arith)
            requires
                nc <= 0xffff_ffff_ffff_ffff,
                hs128 <= 255,
        ;
        let hash_off: u128 = hl + ident_len + 1 + team_l + ns * hs128;
        let total: u128 = hash_off + nc * hs128;
        if total > max {
            return Err(AppleCodesignError::MalformedCodeDirectory);
        }
        let team_off: u128 = match &self.team_name {
            Some(_) => hl + ident_len + 1,
            None => 0,
        };
        let mut payload: Vec<u8> = Vec::new();
        self.push_header(&mut payload, hash_off as u32, hl as u32, team_off as u32);
        payload.extend_from_slice(self.ident.as_slice());
        payload.push(0);
        let ghost after_ident = payload@;
        match &self.team_name {
            Some(t) => {
                payload.extend_from_slice(t.as_slice());
                payload.push(0);
            },
            None => {},
        }
        let ghost after_team = payload@;
        push_hashes(&mut payload, &self.special_hashes, true);
        push_hashes(&mut payload, &self.code_hashes, false);
        proof {
            lemma_header_len(self);
            lemma_concat_len(hashes_view(self.special_hashes@).reverse(), self.hash_size as nat);
            lemma_concat_len(hashes_view(self.code_hashes@), self.hash_size as nat);
        }
        assert(payload@ =~= header_fields(self) + self.ident@ + seq![0u8] + (match self.team_name {
            Some(t) => t@ + seq![0u8],
            None => Seq::empty(),
        }) + concat_all(hashes_view(self.special_hashes@).reverse()) + concat_all(
            hashes_view(self.code_hashes@),
        ));
        proof {
            crate::blob::lemma_blob_self_sized(CSMAGIC_CODEDIRECTORY, payload@);
        }
        Ok(blob_to_bytes(CSMAGIC_CODEDIRECTORY, payload.as_slice()))
    }
}

proof fn lemma_header_len(cd: &CodeDirectory)
    requires
        cd.version >= CD_VERSION_INITIAL,
    ensures
        header_fields(cd).len() + 8 == header_len(cd.version),
{
}


/// What a new Code Directory may inherit from the one it replaces.
pub struct PreviousCodeDirectory {
    pub flags: u32,
    pub ident: Vec<u8>,
    pub team_name: Option<Vec<u8>>,
    pub exec_seg_flags: Option<u64>,
    pub runtime: Option<u32>,
    /// The `Info.plist` slot digest, where present and not all zero.
    pub info_hash: Option<Vec<u8>>,
    /// The `CodeResources` slot digest, where present and not all zero.
    pub resources_hash: Option<Vec<u8>>,
}

pub open spec fn all_zero(s: Seq<u8>) -> bool {
    forall|i: int| 0 <= i < s.len() ==> #[trigger] s[i] == 0
}

/// The bytes hold a Code Directory whose inheritable fields can be read:
/// the header, an identifier ended by NUL, and the fields of its version.
pub open spec fn previous_readable(b: Seq<u8>) -> bool {
    let v = read_be32(b, 8);
    &&& b.len() >= 44
    &&& read_be32(b, 0) == CSMAGIC_CODEDIRECTORY
    &&& has_c_string_at(b, read_be32(b, 20) as int)
    &&& v >= CD_VERSION_EXEC_SEGMENT ==> b.len() >= 88
    &&& v >= CD_VERSION_RUNTIME ==> b.len() >= 96
}

/// The NUL-terminated string at `off`: the bytes before the first NUL.
pub open spec fn c_string_at(b: Seq<u8>, off: int, s: Seq<u8>) -> bool {
    &&& 0 <= off
    &&& off + s.len() < b.len()
    &&& b.subrange(off, off + s.len()) == s
    &&& b[off + s.len()] == 0
    &&& forall|i: int| 0 <= i < s.len() ==> #[trigger] s[i] != 0
}

/// The digest that special slot `k` holds in the Code Directory bytes `b`.
pub open spec fn special_slot(b: Seq<u8>, k: int) -> Seq<u8> {
    let hs = b[36] as int;
    let ho = read_be32(b, 16) as int;
    b.subrange(ho - k * hs, ho - k * hs + hs)
}

/// The inherited fields of `p` are those that the Code Directory bytes `b`
/// hold.
pub open spec fn previous_of(b: Seq<u8>, p: &PreviousCodeDirectory) -> bool {
    let v = read_be32(b, 8);
    &&& read_be32(b, 0) == CSMAGIC_CODEDIRECTORY
    &&& p.flags == read_be32(b, 12)
    &&& c_string_at(b, read_be32(b, 20) as int, p.ident@)
    &&& (p.team_name is Some ==> v >= CD_VERSION_TEAM && c_string_at(
        b,
        read_be32(b, 48) as int,
        p.team_name->0@,
    ))
    &&& (p.exec_seg_flags is Some <==> v >= CD_VERSION_EXEC_SEGMENT)
    &&& (p.exec_seg_flags is Some ==> p.exec_seg_flags->0 == crate::endian::read64(b, 80, false))
    &&& (p.runtime is Some <==> v >= CD_VERSION_RUNTIME)
    &&& (p.runtime is Some ==> p.runtime->0 == read_be32(b, 88))
    &&& (p.info_hash is Some ==> p.info_hash->0@ == special_slot(b, 1) && !all_zero(
        p.info_hash->0@,
    ))
    &&& (p.resources_hash is Some ==> p.resources_hash->0@ == special_slot(b, 3) && !all_zero(
        p.resources_hash->0@,
    ))
}

/// A NUL byte follows `off` in `b`.
pub open spec fn has_c_string_at(b: Seq<u8>, off: int) -> bool {
    exists|k: int| 0 <= off <= k < b.len() && #[trigger] b[k] == 0
}

fn read_c_string(b: &[u8], off: usize) -> (r: Option<Vec<u8>>)
    ensures
        r is Some == has_c_string_at(b@, off as int),
        r matches Some(s) ==> c_string_at(b@, off as int, s@),
{
    let n = b.len();
    if off >= n {
        return None;
    }
    let mut i: usize = off;
    while i < n && b[i] != 0
        invariant
            off <= i <= n,
            n == b@.len(),
            forall|j: int| off <= j < i ==> #[trigger] b@[j] != 0,
        decreases n - i,
    {
        i = i + 1;
    }
    if i == n {
        return None;
    }
    assert(b@[i as int] == 0);
    let mut s: Vec<u8> = Vec::new();
    s.extend_from_slice(&b[off..i]);
    assert(s@ =~= b@.subrange(off as int, i as int));
    assert forall|j: int| 0 <= j < s@.len() implies #[trigger] s@[j] != 0 by {
        assert(s@[j] == b@[off + j]);
    }
    Some(s)
}

/// The digest of special slot `k`, if the Code Directory has that slot and
/// it is not all zero.
fn read_special_slot(b: &[u8], k: u32) -> (r: Option<Vec<u8>>)
    requires
        40 <= b@.len(),
    ensures
        r matches Some(h) ==> h@ == special_slot(b@, k as int) && !all_zero(h@),
{
    let hs = b[36] as u64;
    let ho = get_be32(b, 16) as u64;
    let ns = get_be32(b, 24) as u64;
    if k as u64 > ns {
        return None;
    }
    assert((k as u64) * hs <= 0xffff_ffff * 255) by (nonlinear_arith)
        requires
            k as u64 <= 0xffff_ffff,
            hs <= 255,
    ;
    if (k as u64) * hs > ho || ho - (k as u64) * hs + hs > b.len() as u64 {
        return None;
    }
    let start = (ho - (k as u64) * hs) as usize;
    let end = start + hs as usize;
    let mut h: Vec<u8> = Vec::new();
    h.extend_from_slice(&b[start..end]);
    assert(h@ =~= special_slot(b@, k as int));
    let mut i: usize = 0;
    while i < h.len()
        invariant
            i <= h@.len(),
            h@ == special_slot(b@, k as int),
            forall|j: int| 0 <= j < i ==> #[trigger] h@[j] == 0,
        decreases h.len() - i,
    {
        if h[i] != 0 {
            assert(!all_zero(h@));
            return Some(h);
        }
        i = i + 1;
    }
    None
}

/// Reads the inheritable fields of a serialized Code Directory; `None` where
/// the bytes are not one.
pub fn parse_previous(b: &[u8]) -> (r: Option<PreviousCodeDirectory>)
    ensures
        r is Some == previous_readable(b@),
        r matches Some(p) ==> previous_of(b@, &p),
{
    if b.len() < 44 || get_be32(b, 0) != CSMAGIC_CODEDIRECTORY {
        return None;
    }
    let v = get_be32(b, 8);
    let flags = get_be32(b, 12);
    let ident = match read_c_string(b, get_be32(b, 20) as usize) {
        Some(s) => s,
        None => return None,
    };
    let team_name = if v >= CD_VERSION_TEAM && b.len() >= 52 {
        let off = get_be32(b, 48) as usize;
        if off == 0 {
            None
        } else {
            read_c_string(b, off)
        }
    } else {
        None
    };
    let exec_seg_flags = if v >= CD_VERSION_EXEC_SEGMENT {
        if b.len() < 88 {
            return None;
        }
        Some(crate::endian::get64(b, 80, false))
    } else {
        None
    };
    let runtime = if v >= CD_VERSION_RUNTIME {
        if b.len() < 96 {
            return None;
        }
        Some(get_be32(b, 88))
    } else {
        None
    };
    Some(
        PreviousCodeDirectory {
            flags,
            ident,
            team_name,
            exec_seg_flags,
            runtime,
            info_hash: read_special_slot(b, 1),
            resources_hash: read_special_slot(b, 3),
        },
    )
}

} // verus!
