//! Building the contents of an embedded signature: special blobs, the Code
//! Directory, and the SuperBlob that holds them.
use crate::blob::{
    lemma_blob_self_sized, lemma_superblob_round_trip, self_sized, superblob_entry,
    superblob_well_formed, blob_bytes, blob_to_bytes, create_superblob, entries_view, superblob_bytes, superblob_len,
    CSMAGIC_BLOBWRAPPER, CSMAGIC_EMBEDDED_ENTITLEMENTS, CSMAGIC_EMBEDDED_SIGNATURE,
    CSMAGIC_REQUIREMENT, CSMAGIC_REQUIREMENT_SET, CSSLOT_CODEDIRECTORY, CSSLOT_ENTITLEMENTS,
    CSSLOT_REQUIREMENTS, CSSLOT_SIGNATURESLOT,
};
use crate::code_directory::{
    concat_all, hashes_view, minimum_version, CodeDirectory, PreviousCodeDirectory,
};
use crate::digest::{compute_code_hashes, digest, page_hashes, spec_digest, DigestType};
use crate::endian::{be32, push_be32};
use crate::error::AppleCodesignError;
use crate::flags::{ADHOC, LINKER_SIGNED};
use crate::scope::{ScopeKey, SettingsScope};
use crate::settings::SigningSettings;
use vstd::prelude::*;
use vstd::utf8::encode_utf8;

verus! {

/// Requirement type of the designated requirement in a requirement set.
pub const REQUIREMENT_TYPE_DESIGNATED: u32 = 3;

/// Page size used for code digests.
pub const PAGE_SIZE: usize = 4096;

/// A requirement blob holding expressions: the expression form tag, then
/// the serialized expressions.
pub open spec fn requirement_blob(exprs: Seq<Seq<u8>>) -> Seq<u8> {
    blob_bytes(CSMAGIC_REQUIREMENT, be32(1) + concat_all(exprs))
}

/// A requirement set with one designated requirement.
pub open spec fn requirement_set_blob(exprs: Seq<Seq<u8>>) -> Seq<u8> {
    blob_bytes(
        CSMAGIC_REQUIREMENT_SET,
        be32(1) + be32(REQUIREMENT_TYPE_DESIGNATED) + be32(20) + requirement_blob(exprs),
    )
}

/// An entitlements blob holding the XML text.
pub open spec fn entitlements_blob(xml: Seq<char>) -> Seq<u8> {
    blob_bytes(CSMAGIC_EMBEDDED_ENTITLEMENTS, encode_utf8(xml))
}

/// The blobs other than the Code Directory and the signature, in slot
/// order: the requirement set if the main scope has a designated
/// requirement, then the entitlements if it has entitlements.
pub open spec fn special_blobs(s: &SigningSettings) -> Seq<(u32, Seq<u8>)> {
    (if s.spec_designated_requirement().contains_key(ScopeKey::Main) {
        seq![
            (
                CSSLOT_REQUIREMENTS,
                requirement_set_blob(s.spec_designated_requirement()[ScopeKey::Main]),
            ),
        ]
    } else {
        Seq::empty()
    }) + (if s.spec_entitlements().contains_key(ScopeKey::Main) {
        seq![(CSSLOT_ENTITLEMENTS, entitlements_blob(s.spec_entitlements()[ScopeKey::Main]))]
    } else {
        Seq::empty()
    })
}

/// The special blobs fit 32-bit blob lengths.
pub open spec fn special_blobs_fit(s: &SigningSettings) -> bool {
    &&& s.spec_designated_requirement().contains_key(ScopeKey::Main) ==> 32 + concat_all(
        s.spec_designated_requirement()[ScopeKey::Main],
    ).len() <= u32::MAX
    &&& s.spec_entitlements().contains_key(ScopeKey::Main) ==> 8 + encode_utf8(
        s.spec_entitlements()[ScopeKey::Main],
    ).len() <= u32::MAX
}

fn push_all(out: &mut Vec<u8>, parts: &Vec<Vec<u8>>)
    ensures
        final(out)@ == old(out)@ + concat_all(hashes_view(parts@)),
{
    let ghost v = hashes_view(parts@);
    let mut i: usize = 0;
    assert(v.subrange(0, 0) =~= Seq::<Seq<u8>>::empty());
    while i < parts.len()
        invariant
            v == hashes_view(parts@),
            i <= parts@.len(),
            out@ == old(out)@ + concat_all(v.subrange(0, i as int)),
        decreases parts.len() - i,
    {
        assert(v.subrange(0, i + 1).drop_last() =~= v.subrange(0, i as int));
        out.extend_from_slice(parts[i].as_slice());
        i = i + 1;
        assert(out@ =~= old(out)@ + concat_all(v.subrange(0, i as int)));
    }
    assert(v.subrange(0, parts@.len() as int) =~= v);
}

/// The requirement set blob for the main scope's designated requirement.
pub fn requirement_set_for(settings: &SigningSettings) -> (r: Result<
    Option<Vec<u8>>,
    AppleCodesignError,
>)
    ensures
        settings.spec_designated_requirement().contains_key(ScopeKey::Main) ==> (r is Ok <==> 32
            + concat_all(settings.spec_designated_requirement()[ScopeKey::Main]).len()
            <= u32::MAX),
        !settings.spec_designated_requirement().contains_key(ScopeKey::Main) ==> r == Ok::<
            Option<Vec<u8>>,
            AppleCodesignError,
        >(None),
        r is Err ==> r == Err::<Option<Vec<u8>>, _>(AppleCodesignError::SignatureDataTooLarge),
        r matches Ok(Some(b)) ==> settings.spec_designated_requirement().contains_key(ScopeKey::Main)
            && b@ == requirement_set_blob(settings.spec_designated_requirement()[ScopeKey::Main]),
        r matches Ok(None) ==> !settings.spec_designated_requirement().contains_key(ScopeKey::Main),
{
    match settings.designated_requirement(&SettingsScope::Main) {
        Some(exprs) => {
            let mut body: Vec<u8> = Vec::new();
            push_be32(&mut body, 1);
            push_all(&mut body, exprs);
            assert(hashes_view(exprs@) =~= settings.spec_designated_requirement()[ScopeKey::Main]);
            if body.len() > 0xffff_ffff - 28 {
                return Err(AppleCodesignError::SignatureDataTooLarge);
            }
            let req = blob_to_bytes(CSMAGIC_REQUIREMENT, body.as_slice());
            let mut set_body: Vec<u8> = Vec::new();
            push_be32(&mut set_body, 1);
            push_be32(&mut set_body, REQUIREMENT_TYPE_DESIGNATED);
            push_be32(&mut set_body, 20);
            set_body.extend_from_slice(req.as_slice());
            assert(set_body@ =~= be32(1) + be32(REQUIREMENT_TYPE_DESIGNATED) + be32(20) + req@);
            Ok(Some(blob_to_bytes(CSMAGIC_REQUIREMENT_SET, set_body.as_slice())))
        },
        None => Ok(None),
    }
}

/// The entitlements blob for the main scope's entitlements.
pub fn entitlements_blob_for(settings: &SigningSettings) -> (r: Result<
    Option<Vec<u8>>,
    AppleCodesignError,
>)
    ensures
        settings.spec_entitlements().contains_key(ScopeKey::Main) ==> (r is Ok <==> 8 + encode_utf8(
            settings.spec_entitlements()[ScopeKey::Main],
        ).len() <= u32::MAX),
        !settings.spec_entitlements().contains_key(ScopeKey::Main) ==> r == Ok::<
            Option<Vec<u8>>,
            AppleCodesignError,
        >(None),
        r is Err ==> r == Err::<Option<Vec<u8>>, _>(AppleCodesignError::SignatureDataTooLarge),
        r matches Ok(Some(b)) ==> settings.spec_entitlements().contains_key(ScopeKey::Main) && b@
            == entitlements_blob(settings.spec_entitlements()[ScopeKey::Main]),
        r matches Ok(None) ==> !settings.spec_entitlements().contains_key(ScopeKey::Main),
{
    match settings.entitlements_xml(&SettingsScope::Main) {
        Some(xml) => {
            let bytes = xml.as_str().as_bytes();
            if bytes.len() > 0xffff_ffff - 8 {
                return Err(AppleCodesignError::SignatureDataTooLarge);
            }
            Ok(Some(blob_to_bytes(CSMAGIC_EMBEDDED_ENTITLEMENTS, bytes)))
        },
        None => Ok(None),
    }
}

/// Creates the blobs that the Code Directory digests in its special slots.
pub fn create_special_blobs(settings: &SigningSettings) -> (r: Result<
    Vec<(u32, Vec<u8>)>,
    AppleCodesignError,
>)
    ensures
        r is Ok == special_blobs_fit(settings),
        r is Err ==> r == Err::<Vec<(u32, Vec<u8>)>, _>(AppleCodesignError::SignatureDataTooLarge),
        r matches Ok(v) ==> entries_view(v@) == special_blobs(settings),
        r matches Ok(v) ==> forall|i: int| 0 <= i < v@.len() ==> self_sized(#[trigger] v@[i].1@),
{
    let mut res: Vec<(u32, Vec<u8>)> = Vec::new();
    if let Some(set) = requirement_set_for(settings)? {
        proof {
            let exprs = settings.spec_designated_requirement()[ScopeKey::Main];
            lemma_blob_self_sized(CSMAGIC_REQUIREMENT, be32(1) + concat_all(exprs));
            lemma_blob_self_sized(
                CSMAGIC_REQUIREMENT_SET,
                be32(1) + be32(REQUIREMENT_TYPE_DESIGNATED) + be32(20) + requirement_blob(exprs),
            );
        }
        res.push((CSSLOT_REQUIREMENTS, set));
    }
    if let Some(blob) = entitlements_blob_for(settings)? {
        proof {
            lemma_blob_self_sized(
                CSMAGIC_EMBEDDED_ENTITLEMENTS,
                encode_utf8(settings.spec_entitlements()[ScopeKey::Main]),
            );
        }
        res.push((CSSLOT_ENTITLEMENTS, blob));
    }
    assert(entries_view(res@) =~= special_blobs(settings));
    Ok(res)
}

/// Flags of the new Code Directory: the main scope's flags, else the
/// previous Code Directory's, else none; `ADHOC` exactly when there is no
/// cryptographic signature; never `LINKER_SIGNED`.
pub open spec fn effective_flags(
    s: &SigningSettings,
    prev: &Option<PreviousCodeDirectory>,
    signed: bool,
) -> u32 {
    let base = if s.spec_code_signature_flags().contains_key(ScopeKey::Main) {
        s.spec_code_signature_flags()[ScopeKey::Main]
    } else {
        match prev {
            Some(p) => p.flags,
            None => 0,
        }
    };
    let f = if signed {
        base & !ADHOC
    } else {
        base | ADHOC
    };
    f & !LINKER_SIGNED
}

/// The identifier: the main scope's, else the previous one.
pub open spec fn effective_ident(s: &SigningSettings, prev: &Option<PreviousCodeDirectory>) -> Option<
    Seq<u8>,
> {
    if s.spec_identifiers().contains_key(ScopeKey::Main) {
        Some(encode_utf8(s.spec_identifiers()[ScopeKey::Main]))
    } else {
        match prev {
            Some(p) => Some(p.ident@),
            None => None,
        }
    }
}

/// The team name: the configured one, else the previous one.
pub open spec fn effective_team(s: &SigningSettings, prev: &Option<PreviousCodeDirectory>) -> Option<
    Seq<u8>,
> {
    match s.spec_team_name() {
        Some(t) => Some(encode_utf8(t)),
        None => match prev {
            Some(p) => match p.team_name {
                Some(t) => Some(t@),
                None => None,
            },
            None => None,
        },
    }
}

/// Executable segment flags: the main scope's, else the previous ones.
pub open spec fn effective_exec_seg_flags(
    s: &SigningSettings,
    prev: &Option<PreviousCodeDirectory>,
) -> Option<u64> {
    if s.spec_executable_segment_flags().contains_key(ScopeKey::Main) {
        Some(s.spec_executable_segment_flags()[ScopeKey::Main])
    } else {
        match prev {
            Some(p) => p.exec_seg_flags,
            None => None,
        }
    }
}

/// The digest that special slot `k` carries, if any.
pub open spec fn slot_digest(
    s: &SigningSettings,
    prev: &Option<PreviousCodeDirectory>,
    k: int,
) -> Option<Seq<u8>> {
    let t = s.spec_digest_type();
    if k == 1 {
        if s.spec_info_plist_data().contains_key(ScopeKey::Main) {
            spec_digest(t, s.spec_info_plist_data()[ScopeKey::Main])
        } else {
            match prev {
                Some(p) => match p.info_hash {
                    Some(h) => if h@.len() == t.spec_hash_len()->0 {
                        Some(h@)
                    } else {
                        None
                    },
                    None => None,
                },
                None => None,
            }
        }
    } else if k == 2 {
        if s.spec_designated_requirement().contains_key(ScopeKey::Main) {
            spec_digest(t, requirement_set_blob(s.spec_designated_requirement()[ScopeKey::Main]))
        } else {
            None
        }
    } else if k == 3 {
        if s.spec_code_resources_data().contains_key(ScopeKey::Main) {
            spec_digest(t, s.spec_code_resources_data()[ScopeKey::Main])
        } else {
            match prev {
                Some(p) => match p.resources_hash {
                    Some(h) => if h@.len() == t.spec_hash_len()->0 {
                        Some(h@)
                    } else {
                        None
                    },
                    None => None,
                },
                None => None,
            }
        }
    } else if k == 5 {
        if s.spec_entitlements().contains_key(ScopeKey::Main) {
            spec_digest(t, entitlements_blob(s.spec_entitlements()[ScopeKey::Main]))
        } else {
            None
        }
    } else {
        None
    }
}

/// The highest special slot that carries a digest.
pub open spec fn special_count(s: &SigningSettings, prev: &Option<PreviousCodeDirectory>) -> nat {
    if slot_digest(s, prev, 5) is Some {
        5
    } else if slot_digest(s, prev, 3) is Some {
        3
    } else if slot_digest(s, prev, 2) is Some {
        2
    } else if slot_digest(s, prev, 1) is Some {
        1
    } else {
        0
    }
}

/// `cd` is the Code Directory for the Mach-O bytes `d`, digested up to
/// `limit`, under settings `s`, after the previous Code Directory `prev`.
pub open spec fn cd_built(
    s: &SigningSettings,
    d: Seq<u8>,
    limit: nat,
    prev: &Option<PreviousCodeDirectory>,
    signed: bool,
    cd: &CodeDirectory,
) -> bool {
    let t = s.spec_digest_type();
    &&& cd.version == minimum_version(cd)
    &&& cd.flags == effective_flags(s, prev, signed)
    &&& (if limit > u32::MAX {
        cd.code_limit == 0 && cd.code_limit_64 == Some(limit as u64)
    } else {
        cd.code_limit == limit as u32 && cd.code_limit_64 is None
    })
    &&& cd.hash_type == t
    &&& t != DigestType::NoHash
    &&& cd.hash_size as nat == t.spec_hash_len()->0
    &&& cd.platform == 0
    &&& cd.page_size_log2 == 12
    &&& cd.exec_seg_flags == effective_exec_seg_flags(s, prev)
    &&& cd.runtime == (match prev {
        Some(p) => p.runtime,
        None => None,
    })
    &&& Some(cd.ident@) == effective_ident(s, prev)
    &&& (match cd.team_name {
        Some(n) => Some(n@),
        None => None,
    }) == effective_team(s, prev)
    &&& hashes_view(cd.code_hashes@) == page_hashes(t, d, limit, PAGE_SIZE as nat)
    &&& cd.special_hashes@.len() == special_count(s, prev)
    &&& forall|i: int|
        0 <= i < cd.special_hashes@.len() ==> (#[trigger] cd.special_hashes@[i])@.len()
            == cd.hash_size
    &&& forall|i: int|
        0 <= i < cd.code_hashes@.len() ==> (#[trigger] cd.code_hashes@[i])@.len() == cd.hash_size
    &&& forall|i: int|
        0 <= i < cd.special_hashes@.len() ==> (#[trigger] cd.special_hashes@[i])@ == match slot_digest(
            s,
            prev,
            i + 1,
        ) {
            Some(h) => h,
            None => Seq::new(t.spec_hash_len()->0, |j: int| 0u8),
        }
}

fn copy_bytes(b: &Vec<u8>) -> (r: Vec<u8>)
    ensures
        r@ == b@,
{
    let mut r: Vec<u8> = Vec::new();
    r.extend_from_slice(b.as_slice());
    assert(r@ =~= b@);
    r
}

/// A previous digest, where it has the width of the current algorithm.
fn inherited_hash(h: &Option<Vec<u8>>, width: usize) -> (r: Option<Vec<u8>>)
    ensures
        r is Some == (h is Some && h->0@.len() == width),
        r is Some ==> r->0@ == h->0@,
{
    match h {
        Some(v) => if v.len() == width {
            Some(copy_bytes(v))
        } else {
            None
        },
        None => None,
    }
}

/// Creates the Code Directory for the Mach-O bytes `data`, whose code is
/// digested up to `code_limit` (where the signature starts).
pub fn create_code_directory(
    settings: &SigningSettings,
    data: &[u8],
    code_limit: usize,
    previous: &Option<PreviousCodeDirectory>,
    signed: bool,
) -> (r: Result<CodeDirectory, AppleCodesignError>)
    requires
        code_limit <= data@.len(),
    ensures
        settings.spec_digest_type() == DigestType::NoHash ==> r == Err::<CodeDirectory, _>(
            AppleCodesignError::DigestUnsupported,
        ),
        settings.spec_digest_type() != DigestType::NoHash ==> (r is Ok <==> effective_ident(
            settings,
            previous,
        ) is Some && special_blobs_fit(settings)),
        settings.spec_digest_type() != DigestType::NoHash && effective_ident(settings, previous)
            is None ==> r == Err::<CodeDirectory, _>(AppleCodesignError::NoIdentifier),
        r matches Ok(cd) ==> cd_built(settings, data@, code_limit as nat, previous, signed, &cd),
{
    let t = settings.digest_type();
    let hash_size = match t.hash_len() {
        Some(n) => n,
        None => return Err(AppleCodesignError::DigestUnsupported),
    };
    let mut flags: u32 = match settings.code_signature_flags(&SettingsScope::Main) {
        Some(f) => f,
        None => match previous {
            Some(p) => p.flags,
            None => 0,
        },
    };
    if signed {
        flags = flags & !ADHOC;
    } else {
        flags = flags | ADHOC;
    }
    flags = flags & !LINKER_SIGNED;
    let (cl, cl64) = if code_limit as u64 > 0xffff_ffff {
        (0u32, Some(code_limit as u64))
    } else {
        (code_limit as u32, None)
    };
    let exec_seg_flags = match settings.executable_segment_flags(&SettingsScope::Main) {
        Some(f) => Some(f),
        None => match previous {
            Some(p) => p.exec_seg_flags,
            None => None,
        },
    };
    let runtime = match previous {
        Some(p) => p.runtime,
        None => None,
    };
    let ident: Vec<u8> = match settings.binary_identifier(&SettingsScope::Main) {
        Some(id) => copy_bytes_of(id.as_str().as_bytes()),
        None => match previous {
            Some(p) => copy_bytes(&p.ident),
            None => return Err(AppleCodesignError::NoIdentifier),
        },
    };
    let code_hashes = compute_code_hashes(data, code_limit, PAGE_SIZE, t)?;
    let requirements = requirement_set_for(settings)?;
    let entitlements = entitlements_blob_for(settings)?;
    let slot1: Option<Vec<u8>> = match settings.info_plist_data(&SettingsScope::Main) {
        Some(d) => Some(digest(t, d.as_slice())?),
        None => match previous {
            Some(p) => inherited_hash(&p.info_hash, hash_size),
            None => None,
        },
    };
    let slot2: Option<Vec<u8>> = match &requirements {
        Some(b) => Some(digest(t, b.as_slice())?),
        None => None,
    };
    let slot3: Option<Vec<u8>> = match settings.code_resources_data(&SettingsScope::Main) {
        Some(d) => Some(digest(t, d.as_slice())?),
        None => match previous {
            Some(p) => inherited_hash(&p.resources_hash, hash_size),
            None => None,
        },
    };
    let slot5: Option<Vec<u8>> = match &entitlements {
        Some(b) => Some(digest(t, b.as_slice())?),
        None => None,
    };
    let count: usize = if slot5.is_some() {
        5
    } else if slot3.is_some() {
        3
    } else if slot2.is_some() {
        2
    } else if slot1.is_some() {
        1
    } else {
        0
    };
    let slots: Vec<Option<Vec<u8>>> = vec![slot1, slot2, slot3, None, slot5];
    assert(slots@[0] is Some == slot_digest(settings, previous, 1) is Some);
    assert(slots@[1] is Some == slot_digest(settings, previous, 2) is Some);
    assert(slots@[2] is Some == slot_digest(settings, previous, 3) is Some);
    assert(slots@[3] is Some == slot_digest(settings, previous, 4) is Some);
    assert(slots@[4] is Some == slot_digest(settings, previous, 5) is Some);
    let mut special_hashes: Vec<Vec<u8>> = Vec::new();
    let mut k: usize = 0;
    while k < count
        invariant
            k <= count,
            count == special_count(settings, previous),
            count <= 5,
            slots@.len() == 5,
            hash_size as nat == t.spec_hash_len()->0,
            t == settings.spec_digest_type(),
            forall|m: int|
                0 <= m < 5 ==> (#[trigger] slots@[m]) is Some == slot_digest(settings, previous, m + 1)
                    is Some && (slots@[m] is Some ==> slots@[m]->0@ == slot_digest(
                    settings,
                    previous,
                    m + 1,
                )->0),
            special_hashes@.len() == k,
            forall|j: int|
                0 <= j < k ==> (#[trigger] special_hashes@[j])@ == match slot_digest(
                    settings,
                    previous,
                    j + 1,
                ) {
                    Some(h) => h,
                    None => Seq::new(t.spec_hash_len()->0, |m: int| 0u8),
                },
        decreases count - k,
    {
        let v = match &slots[k] {
            Some(h) => copy_bytes(h),
            None => {
                let z = vec![0u8; hash_size];
                assert(z@ =~= Seq::new(t.spec_hash_len()->0, |m: int| 0u8));
                z
            },
        };
        assert(slots@[k as int] is Some == slot_digest(settings, previous, k + 1) is Some);
        special_hashes.push(v);
        k = k + 1;
    }
    let team_name: Option<Vec<u8>> = match settings.team_name() {
        Some(n) => Some(copy_bytes_of(n.as_str().as_bytes())),
        None => match previous {
            Some(p) => match &p.team_name {
                Some(n) => Some(copy_bytes(n)),
                None => None,
            },
            None => None,
        },
    };
    let mut cd = CodeDirectory {
        version: 0,
        flags,
        code_limit: cl,
        code_limit_64: cl64,
        hash_type: t,
        hash_size: hash_size as u8,
        platform: 0,
        page_size_log2: 12,
        exec_seg_flags,
        runtime,
        ident,
        team_name,
        special_hashes,
        code_hashes,
    };
    cd.version = cd.minimum_version_exec();
    Ok(cd)
}

fn copy_bytes_of(b: &[u8]) -> (r: Vec<u8>)
    ensures
        r@ == b@,
{
    let mut r: Vec<u8> = Vec::new();
    r.extend_from_slice(b);
    assert(r@ =~= b@);
    r
}

impl CodeDirectory {
    /// The least version that carries every field that is set.
    pub fn minimum_version_exec(&self) -> (r: u32)
        ensures
            r == minimum_version(self),
    {
        if self.runtime.is_some() {
            crate::code_directory::CD_VERSION_RUNTIME
        } else if self.exec_seg_flags.is_some() {
            crate::code_directory::CD_VERSION_EXEC_SEGMENT
        } else if self.code_limit_64.is_some() {
            crate::code_directory::CD_VERSION_CODE_LIMIT_64
        } else if self.team_name.is_some() {
            crate::code_directory::CD_VERSION_TEAM
        } else {
            crate::code_directory::CD_VERSION_INITIAL
        }
    }
}


/// The blobs of an embedded signature in slot order: the Code Directory,
/// the special blobs, and the CMS signature wrapped in a blob if there is
/// one.
pub open spec fn signature_entries(
    cd: Seq<u8>,
    specials: Seq<(u32, Seq<u8>)>,
    cms: Option<Seq<u8>>,
) -> Seq<(u32, Seq<u8>)> {
    seq![(CSSLOT_CODEDIRECTORY, cd)] + specials + match cms {
        Some(der) => seq![(CSSLOT_SIGNATURESLOT, blob_bytes(CSMAGIC_BLOBWRAPPER, der))],
        None => Seq::empty(),
    }
}

/// The signature fits 32-bit lengths.
pub open spec fn signature_fits(
    cd: Seq<u8>,
    specials: Seq<(u32, Seq<u8>)>,
    cms: Option<Seq<u8>>,
) -> bool {
    &&& cms matches Some(der) ==> 8 + der.len() <= u32::MAX
    &&& superblob_len(signature_entries(cd, specials, cms)) <= u32::MAX
}

fn copy_entries(v: &Vec<(u32, Vec<u8>)>, out: &mut Vec<(u32, Vec<u8>)>)
    ensures
        entries_view(final(out)@) == entries_view(old(out)@) + entries_view(v@),
{
    let mut i: usize = 0;
    let ghost start = entries_view(out@);
    while i < v.len()
        invariant
            i <= v@.len(),
            entries_view(out@) == start + entries_view(v@).subrange(0, i as int),
        decreases v.len() - i,
    {
        let ghost prev = entries_view(out@);
        out.push((v[i].0, copy_bytes(&v[i].1)));
        assert(entries_view(out@) =~= prev.push((v@[i as int].0, v@[i as int].1@)));
        assert(entries_view(v@).subrange(0, i + 1) =~= entries_view(v@).subrange(0, i as int).push(
            (v@[i as int].0, v@[i as int].1@),
        ));
        i = i + 1;
        assert(entries_view(out@) =~= start + entries_view(v@).subrange(0, i as int));
    }
    assert(entries_view(v@).subrange(0, i as int) =~= entries_view(v@));
}

/// Packs the Code Directory, the special blobs and the CMS signature, if
/// any, into the SuperBlob of an embedded signature.
pub fn assemble_superblob(
    code_directory: &Vec<u8>,
    specials: &Vec<(u32, Vec<u8>)>,
    cms: &Option<Vec<u8>>,
) -> (r: Result<Vec<u8>, AppleCodesignError>)
    ensures
        r is Ok == signature_fits(
            code_directory@,
            entries_view(specials@),
            match cms {
                Some(d) => Some(d@),
                None => None,
            },
        ),
        r is Err ==> r == Err::<Vec<u8>, _>(AppleCodesignError::SignatureDataTooLarge),
        r matches Ok(b) ==> b@ == superblob_bytes(
            CSMAGIC_EMBEDDED_SIGNATURE,
            signature_entries(
                code_directory@,
                entries_view(specials@),
                match cms {
                    Some(d) => Some(d@),
                    None => None,
                },
            ),
        ),
{
    let ghost c = match cms {
        Some(d) => Some(d@),
        None => None::<Seq<u8>>,
    };
    let mut blobs: Vec<(u32, Vec<u8>)> = Vec::new();
    blobs.push((CSSLOT_CODEDIRECTORY, copy_bytes(code_directory)));
    assert(entries_view(blobs@) =~= seq![(CSSLOT_CODEDIRECTORY, code_directory@)]);
    copy_entries(specials, &mut blobs);
    let ghost head = entries_view(blobs@);
    match cms {
        Some(der) => {
            if der.len() > 0xffff_ffff - 8 {
                return Err(AppleCodesignError::SignatureDataTooLarge);
            }
            blobs.push((CSSLOT_SIGNATURESLOT, blob_to_bytes(CSMAGIC_BLOBWRAPPER, der.as_slice())));
            assert(entries_view(blobs@) =~= head + seq![
                (CSSLOT_SIGNATURESLOT, blob_bytes(CSMAGIC_BLOBWRAPPER, der@)),
            ]);
        },
        None => {
            assert(entries_view(blobs@) =~= head + Seq::<(u32, Seq<u8>)>::empty());
        },
    }
    assert(entries_view(blobs@) =~= signature_entries(code_directory@, entries_view(specials@), c));
    let ghost e = entries_view(blobs@);
    let mut total: u64 = 12;
    let mut i: usize = 0;
    while i < blobs.len()
        invariant
            e == entries_view(blobs@),
            e == signature_entries(code_directory@, entries_view(specials@), c),
            c == match cms {
                Some(d) => Some(d@),
                None => None::<Seq<u8>>,
            },
            i <= blobs@.len(),
            total as nat == 12 + 8 * i + crate::blob::blobs_concat(e.subrange(0, i as int)).len(),
            total <= 0xffff_ffff,
        decreases blobs.len() - i,
    {
        assert(e.subrange(0, i + 1).drop_last() =~= e.subrange(0, i as int));
        let add = blobs[i].1.len() as u64;
        if add > 0xffff_ffff || total + 8 + add > 0xffff_ffff {
            proof {
                lemma_total_grows(e, i as int + 1);
                assert(e[i as int].1 == blobs@[i as int].1@);
            }
            return Err(AppleCodesignError::SignatureDataTooLarge);
        }
        total = total + 8 + add;
        i = i + 1;
    }
    assert(e.subrange(0, i as int) =~= e);
    Ok(create_superblob(CSMAGIC_EMBEDDED_SIGNATURE, &blobs))
}

proof fn lemma_total_grows(e: Seq<(u32, Seq<u8>)>, k: int)
    requires
        0 <= k <= e.len(),
    ensures
        12 + 8 * k + crate::blob::blobs_concat(e.subrange(0, k)).len() <= superblob_len(e),
    decreases e.len() - k,
{
    if k < e.len() {
        lemma_total_grows(e, k + 1);
        assert(e.subrange(0, k + 1).drop_last() =~= e.subrange(0, k));
    } else {
        assert(e.subrange(0, k) =~= e);
    }
}

/// Reading back an embedded signature gives the Code Directory in slot 0,
/// the special blobs after it, and the wrapped CMS signature last.
pub proof fn lemma_signature_round_trip(
    cd: Seq<u8>,
    specials: Seq<(u32, Seq<u8>)>,
    cms: Option<Seq<u8>>,
)
    requires
        self_sized(cd),
        forall|i: int| 0 <= i < specials.len() ==> self_sized(#[trigger] specials[i].1),
        signature_fits(cd, specials, cms),
    ensures
        superblob_well_formed(superblob_bytes(CSMAGIC_EMBEDDED_SIGNATURE, signature_entries(cd, specials, cms))),
        superblob_entry(superblob_bytes(CSMAGIC_EMBEDDED_SIGNATURE, signature_entries(cd, specials, cms)), 0)
            == (CSSLOT_CODEDIRECTORY, cd),
        forall|i: int|
            0 <= i < signature_entries(cd, specials, cms).len() ==> #[trigger] superblob_entry(
                superblob_bytes(CSMAGIC_EMBEDDED_SIGNATURE, signature_entries(cd, specials, cms)),
                i,
            ) == signature_entries(cd, specials, cms)[i],
{
    let e = signature_entries(cd, specials, cms);
    if let Some(der) = cms {
        lemma_blob_self_sized(CSMAGIC_BLOBWRAPPER, der);
    }
    assert forall|i: int| 0 <= i < e.len() implies self_sized(#[trigger] e[i].1) by {
        if 1 <= i < 1 + specials.len() {
            assert(e[i] == specials[i - 1]);
        }
    }
    lemma_superblob_round_trip(e);
}


/// The standard base64 encoding (with padding) of a byte string.
pub uninterp spec fn base64_of(b: Seq<u8>) -> Seq<char>;

/// Relies on `base64::encode`: standard alphabet with padding, a function of
/// the bytes alone.
#[verifier::external_body]
fn base64_encode(b: &[u8]) -> (r: String)
    ensures
        r@ == base64_of(b@),
{
    base64::encode(b)
}

/// The XML plist of a dictionary that maps `key` to an array of the given
/// strings.
pub uninterp spec fn plist_string_array_xml(key: Seq<char>, values: Seq<Seq<char>>) -> Seq<u8>;

/// Relies on `plist::Value::to_writer_xml`: the XML document of a
/// dictionary with one key whose value is an array of strings; it depends
/// on the key and the strings alone. The XML writer fails only on UID
/// values, on misordered events, or when writing fails, none of which can
/// happen for strings written to a `Vec`.
#[verifier::external_body]
fn write_string_array_plist(key: &str, values: &Vec<String>) -> (r: Result<Vec<u8>, String>)
    ensures
        r is Ok,
        r matches Ok(x) ==> x@ == plist_string_array_xml(key@, Seq::new(values@.len(), |i: int| values@[i]@)),
{
    let mut dict = plist::Dictionary::new();
    dict.insert(key.to_string(), plist::Value::Array(values.iter().map(|v| plist::Value::String(v.clone())).collect()));
    let mut buffer = Vec::<u8>::new();
    plist::Value::from(dict).to_writer_xml(&mut buffer).map_err(|e| e.to_string())?;
    Ok(buffer)
}

pub open spec fn cdhashes_key() -> Seq<char> {
    seq!['c', 'd', 'h', 'a', 's', 'h', 'e', 's']
}

/// The base64 digest of each serialized Code Directory.
pub open spec fn cdhash_strings(cds: Seq<Seq<u8>>, t: DigestType) -> Seq<Seq<char>> {
    Seq::new(cds.len(), |i: int| base64_of(spec_digest(t, cds[i])->0))
}

/// Creates the XML plist of Code Directory digests that the CMS signature
/// carries as a signed attribute: key `cdhashes`, one base64 digest per
/// Code Directory.
pub fn create_code_directory_hashes_plist(code_directories: &Vec<Vec<u8>>, t: DigestType) -> (r:
    Result<Vec<u8>, AppleCodesignError>)
    ensures
        t == DigestType::NoHash && code_directories@.len() > 0 ==> r == Err::<Vec<u8>, _>(
            AppleCodesignError::DigestUnsupported,
        ),
        r matches Ok(x) ==> x@ == plist_string_array_xml(
            cdhashes_key(),
            cdhash_strings(hashes_view(code_directories@), t),
        ),
        t != DigestType::NoHash || code_directories@.len() == 0 ==> r is Ok,
        r matches Err(e) ==> e == AppleCodesignError::DigestUnsupported,
{
    let mut hashes: Vec<String> = Vec::new();
    let mut i: usize = 0;
    while i < code_directories.len()
        invariant
            i <= code_directories@.len(),
            hashes@.len() == i,
            t == DigestType::NoHash ==> i == 0,
            forall|j: int|
                0 <= j < i ==> (#[trigger] hashes@[j])@ == base64_of(
                    spec_digest(t, code_directories@[j]@)->0,
                ),
        decreases code_directories.len() - i,
    {
        let d = digest(t, code_directories[i].as_slice())?;
        hashes.push(base64_encode(d.as_slice()));
        i = i + 1;
    }
    let key = vec!['c', 'd', 'h', 'a', 's', 'h', 'e', 's'];
    assert(key@ =~= cdhashes_key());
    let key = crate::text::string_of(key.as_slice());
    match write_string_array_plist(key.as_str(), &hashes) {
        Ok(x) => {
            assert(Seq::new(hashes@.len(), |i: int| hashes@[i]@) =~= cdhash_strings(
                hashes_view(code_directories@),
                t,
            ));
            Ok(x)
        },
        Err(msg) => Err(AppleCodesignError::CodeDirectoryPlist(msg)),
    }
}


/// Two Code Directories built with the same settings, previous Code
/// Directory and code limit, over different bytes, have the same size.
pub proof fn lemma_cd_built_same_size(
    s: &SigningSettings,
    d1: Seq<u8>,
    d2: Seq<u8>,
    limit: nat,
    prev: &Option<PreviousCodeDirectory>,
    signed: bool,
    cd1: &CodeDirectory,
    cd2: &CodeDirectory,
)
    requires
        cd_built(s, d1, limit, prev, signed, cd1),
        cd_built(s, d2, limit, prev, signed, cd2),
        crate::code_directory::cd_well_formed(cd1),
    ensures
        crate::code_directory::cd_well_formed(cd2),
{
    assert(cd1.code_hashes@.len() == hashes_view(cd1.code_hashes@).len());
    assert(cd2.code_hashes@.len() == hashes_view(cd2.code_hashes@).len());
    assert(cd1.ident@.len() == cd2.ident@.len());
    assert(crate::code_directory::team_len(cd1) == crate::code_directory::team_len(cd2));
    assert(cd1.version == cd2.version);
}


/// A Code Directory for a binary of `n` bytes, with the main scope's
/// identifier and a team name of the settings or of at most `n` bytes,
/// fits 32-bit offsets.
pub open spec fn code_directory_fits(s: &SigningSettings, n: nat) -> bool {
    let ident = encode_utf8(s.spec_identifiers()[ScopeKey::Main]).len();
    let team: nat = match s.spec_team_name() {
        Some(t) => encode_utf8(t).len(),
        None => n,
    };
    96 + ident + 1 + team + 1 + 5 * 64 + 64 * (n / 4096 + 1) <= u32::MAX
}

/// Bounds the size of a Code Directory built over at most `n` bytes.
pub proof fn lemma_cd_size_bound(
    s: &SigningSettings,
    d: Seq<u8>,
    limit: nat,
    prev: &Option<PreviousCodeDirectory>,
    signed: bool,
    cd: &CodeDirectory,
    n: nat,
)
    requires
        cd_built(s, d, limit, prev, signed, cd),
        limit <= n,
        s.spec_identifiers().contains_key(ScopeKey::Main),
        s.spec_team_name() is None ==> (prev matches Some(p) ==> (p.team_name matches Some(t)
            ==> t@.len() <= n)),
        code_directory_fits(s, n),
    ensures
        cd.version >= crate::code_directory::CD_VERSION_INITIAL,
        crate::code_directory::total_len(cd) <= u32::MAX,
{
    let hs = cd.hash_size as nat;
    let ns = cd.special_hashes@.len();
    let nc = cd.code_hashes@.len();
    assert(hs <= 64);
    assert(ns <= 5);
    assert(nc == hashes_view(cd.code_hashes@).len());
    assert(nc == crate::digest::page_count(limit, PAGE_SIZE as nat));
    assert(nc <= n / 4096 + 1) by (nonlinear_arith)
        requires
            nc == (limit + 4096 - 1) / 4096,
            limit <= n,
    ;
    assert(ns * hs <= 5 * 64) by (nonlinear_arith)
        requires
            ns <= 5,
            hs <= 64,
    ;
    assert(nc * hs <= 64 * (n / 4096 + 1)) by (nonlinear_arith)
        requires
            nc <= n / 4096 + 1,
            hs <= 64,
    ;
    assert(crate::code_directory::header_len(cd.version) <= 96);
}

} // verus!
