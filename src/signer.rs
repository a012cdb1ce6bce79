//! The signer: the two-pass placeholder procedure for each Mach-O slice,
//! and the fat container around the signed slices.
//!
//! The Code Directory digests the binary up to the signature, but the load
//! commands it digests hold the signature's size. A first pass learns the
//! size of a signature over the input binary and reserves that much plus
//! slack; a second pass signs the binary with the reservation in place and
//! pads the signature to exactly the reserved size, so the digested bytes do
//! not change.
//!
//! Obtaining a CMS signature is work outside this library (it may contact a
//! time-stamp server). A [SliceSigner] therefore hands out the Code
//! Directory that needs signing and takes the CMS signature back.
use crate::blob::{
    entries_view, parse_superblob, superblob_bytes, CSMAGIC_EMBEDDED_SIGNATURE,
    CSSLOT_CODEDIRECTORY,
};
use crate::code_directory::{cd_bytes, cd_well_formed, hashes_view, parse_previous, CodeDirectory, PreviousCodeDirectory};
use crate::error::AppleCodesignError;
use crate::macho::{
    fat_header_ok, goblin_fat, goblin_parse_fat, layout_of, layout_readable, parse_layout,
    parsed_layout, signature_location, spec_signing_capability, MachOLayout, FAT_MAGIC,
};
use crate::rewrite::plan_for;
use crate::endian::{be32, get_be32, push_be32, read_be32};
use crate::rewrite::segments_tile;
use crate::rewrite::{
    rewrite_with_plan, lemma_layout_preserved, lemma_rewrite_twice, plan_rewrite,
    plan_valid, rewritten, RewritePlan,
};
use crate::settings::SigningSettings;
use crate::digest::DigestType;
use crate::signing::{
    assemble_superblob, cd_built, create_code_directory, create_special_blobs, effective_ident,
    signature_entries, special_blobs, special_blobs_fit,
};
use vstd::prelude::*;

verus! {

/// Bytes reserved beyond the first pass's signature, to absorb growth of
/// the second pass's signature (a time-stamp token, DER length fields).
pub const PLACEHOLDER_SLACK: usize = 1024;

/// Phases of a slice signing.
#[derive(Clone, Copy, Debug, PartialEq, Eq, Structural)]
pub enum SlicePhase {
    /// The Code Directory over the input binary awaits its signature.
    Nominal,
    /// The Code Directory over the binary with the placeholder awaits its
    /// signature.
    Final,
    /// The signed binary has been produced.
    Done,
}

/// `s` is `sig` followed by zeros up to `len` bytes.
pub open spec fn padded_to(s: Seq<u8>, sig: Seq<u8>, len: nat) -> bool {
    &&& s.len() == len
    &&& s.subrange(0, sig.len() as int) == sig
    &&& forall|i: int| sig.len() <= i < len ==> #[trigger] s[i] == 0
}

pub open spec fn cms_view(cms: &Option<Vec<u8>>) -> Option<Seq<u8>> {
    match cms {
        Some(d) => Some(d@),
        None => None,
    }
}

/// Starting to sign the binary `d` with settings `s` succeeds: the binary
/// can be signed, the digest algorithm is a real one, the main scope has an
/// identifier, and the special blobs and the Code Directory fit 32-bit
/// lengths.
pub open spec fn slice_start_owed(s: &SigningSettings, d: Seq<u8>) -> bool {
    &&& slice_signable(d)
    &&& s.spec_digest_type() != DigestType::NoHash
    &&& s.spec_identifiers().contains_key(crate::scope::ScopeKey::Main)
    &&& special_blobs_fit(s)
    &&& crate::signing::code_directory_fits(s, d.len())
}

/// The signing of one single-architecture binary.
pub struct SliceSigner {
    settings: SigningSettings,
    input: Vec<u8>,
    plan: RewritePlan,
    previous: Option<PreviousCodeDirectory>,
    signed: bool,
    specials: Vec<(u32, Vec<u8>)>,
    phase: SlicePhase,
    placeholder_len: usize,
    intermediate: Vec<u8>,
    code_directory: Vec<u8>,
}

impl SliceSigner {
    pub closed spec fn spec_settings(&self) -> &SigningSettings {
        &self.settings
    }

    pub closed spec fn spec_input(&self) -> Seq<u8> {
        self.input@
    }

    pub closed spec fn spec_plan(&self) -> RewritePlan {
        self.plan
    }

    pub closed spec fn spec_previous(&self) -> &Option<PreviousCodeDirectory> {
        &self.previous
    }

    pub closed spec fn spec_signed(&self) -> bool {
        self.signed
    }

    pub closed spec fn spec_specials(&self) -> Seq<(u32, Seq<u8>)> {
        entries_view(self.specials@)
    }

    pub closed spec fn spec_phase(&self) -> SlicePhase {
        self.phase
    }

    pub closed spec fn spec_placeholder_len(&self) -> nat {
        self.placeholder_len as nat
    }

    pub closed spec fn spec_intermediate(&self) -> Seq<u8> {
        self.intermediate@
    }

    pub closed spec fn spec_code_directory(&self) -> Seq<u8> {
        self.code_directory@
    }

    /// The state is consistent: the pending Code Directory is the one for
    /// the binary of the current phase, and the intermediate binary is the
    /// input with a zeroed placeholder.
    pub open spec fn wf(&self) -> bool {
        &&& plan_valid(self.spec_plan())
        &&& self.spec_plan().signature_offset <= self.spec_input().len()
        &&& exists|l: MachOLayout|
            #[trigger] parsed_layout(&l, self.spec_input()) && plan_for(&l, self.spec_plan())
                && spec_signing_capability(&l) is Ok
        &&& self.spec_settings().spec_digest_type() != DigestType::NoHash
        &&& effective_ident(self.spec_settings(), self.spec_previous()) is Some
        &&& special_blobs_fit(self.spec_settings())
        &&& self.spec_specials() == special_blobs(self.spec_settings())
        &&& forall|i: int|
            0 <= i < self.spec_specials().len() ==> crate::blob::self_sized(
                #[trigger] self.spec_specials()[i].1,
            )
        &&& match self.spec_phase() {
            SlicePhase::Nominal => exists|cd: CodeDirectory|
                cd_built(
                    self.spec_settings(),
                    self.spec_input(),
                    self.spec_plan().signature_offset as nat,
                    self.spec_previous(),
                    self.spec_signed(),
                    &cd,
                ) && cd_well_formed(&cd) && self.spec_code_directory() == #[trigger] cd_bytes(&cd),
            SlicePhase::Final => {
                &&& crate::rewrite::signature_fits(self.spec_plan(), self.spec_placeholder_len())
                &&& self.spec_intermediate() == rewritten(
                    self.spec_input(),
                    self.spec_plan(),
                    Seq::new(self.spec_placeholder_len(), |i: int| 0u8),
                )
                &&& exists|cd: CodeDirectory|
                    cd_built(
                        self.spec_settings(),
                        self.spec_intermediate(),
                        self.spec_plan().signature_offset as nat,
                        self.spec_previous(),
                        self.spec_signed(),
                        &cd,
                    ) && cd_well_formed(&cd) && self.spec_code_directory() == #[trigger] cd_bytes(
                        &cd,
                    )
            },
            SlicePhase::Done => true,
        }
    }

    /// The Code Directory that the CMS signature must cover now.
    pub fn code_directory(&self) -> (r: &Vec<u8>)
        ensures
            r@ == self.spec_code_directory(),
    {
        &self.code_directory
    }

    /// Whether a CMS signature is to be attached.
    pub fn signed(&self) -> (r: bool)
        ensures
            r == self.spec_signed(),
    {
        self.signed
    }

    /// The current phase.
    pub fn phase(&self) -> (r: SlicePhase)
        ensures
            r == self.spec_phase(),
    {
        self.phase
    }
}


/// The Code Directory of the signature now in `data` at `start`, of
/// `size` bytes, if it reads as one.
fn previous_code_directory(data: &[u8], start: usize, size: usize) -> (r: Option<
    PreviousCodeDirectory,
>)
    ensures
        r matches Some(p) ==> start + size <= data@.len() && exists|i: int|
            0 <= i < crate::blob::superblob_count(data@.subrange(start as int, start + size))
                && #[trigger] crate::blob::superblob_entry(
                data@.subrange(start as int, start + size),
                i,
            ).0 == CSSLOT_CODEDIRECTORY && crate::code_directory::previous_of(
                crate::blob::superblob_entry(data@.subrange(start as int, start + size), i).1,
                &p,
            ),
        r matches Some(p) ==> (p.team_name matches Some(t) ==> t@.len() <= data@.len()),
{
    if start > data.len() || size > data.len() - start {
        return None;
    }
    let region = &data[start..start + size];
    let entries = match parse_superblob(region) {
        Ok(e) => e,
        Err(_) => return None,
    };
    let ghost rv = data@.subrange(start as int, start + size);
    assert(region@ == rv);
    let mut i: usize = 0;
    while i < entries.len()
        invariant
            i <= entries@.len(),
            start + size <= data@.len(),
            rv == data@.subrange(start as int, start + size),
            crate::blob::superblob_well_formed(rv),
            entries_view(entries@) == Seq::new(
                crate::blob::superblob_count(rv),
                |i: int| crate::blob::superblob_entry(rv, i),
            ),
        decreases entries.len() - i,
    {
        if entries[i].0 == CSSLOT_CODEDIRECTORY {
            let found = parse_previous(entries[i].1.as_slice());
            proof {
                assert(entries_view(entries@)[i as int] == (entries@[i as int].0, entries@[i as int].1@));
                assert(entries_view(entries@).len() == entries@.len());
                assert((i as int) < crate::blob::superblob_count(rv));
                assert(entries_view(entries@)[i as int] == crate::blob::superblob_entry(rv, i as int));
                assert(crate::blob::superblob_entry(rv, i as int).1 == entries@[i as int].1@);
                assert(crate::blob::superblob_entry(rv, i as int).0 == CSSLOT_CODEDIRECTORY);
                assert(crate::blob::entry_offset(rv, i as int) + crate::blob::entry_len(rv, i as int)
                    <= rv.len());
                assert(entries@[i as int].1@.len() <= rv.len());
            }
            return found;
        }
        i = i + 1;
    }
    None
}

impl SliceSigner {
    /// Starts signing a single-architecture binary with settings already
    /// scoped to it; `signed` says whether a CMS signature will be attached.
    #[verifier::rlimit(50)]
    pub fn new(settings: SigningSettings, data: &[u8], signed: bool) -> (r: Result<
        SliceSigner,
        AppleCodesignError,
    >)
        ensures
            crate::macho::goblin_macho(data@) is None ==> r == Err::<SliceSigner, _>(
                AppleCodesignError::MalformedMacho,
            ),
            r matches Ok(s) ==> s.wf() && s.spec_phase() == SlicePhase::Nominal && s.spec_input()
                == data@ && s.spec_signed() == signed && s.spec_settings() == &settings,
            slice_start_owed(&settings, data@) ==> r is Ok,
    {
        let layout = parse_layout(data)?;
        proof {
            lemma_parsed_layout_same_checks(&layout, &layout_from(data@), data@);
        }
        let plan = plan_rewrite(&layout, Ghost(data@))?;
        let datasize = match layout.code_signature {
            Some(c) => c.datasize as usize,
            None => 0,
        };
        let previous = previous_code_directory(data, plan.signature_offset, datasize);
        let specials = create_special_blobs(&settings)?;
        let cd = create_code_directory(&settings, data, plan.signature_offset, &previous, signed)?;
        proof {
            if slice_start_owed(&settings, data@) {
                crate::signing::lemma_cd_size_bound(
                    &settings,
                    data@,
                    plan.signature_offset as nat,
                    &previous,
                    signed,
                    &cd,
                    data@.len(),
                );
            }
        }
        let code_directory = cd.to_blob_bytes()?;
        let mut input: Vec<u8> = Vec::new();
        input.extend_from_slice(data);
        assert(input@ =~= data@);
        let r = SliceSigner {
            settings,
            input,
            plan,
            previous,
            signed,
            specials,
            phase: SlicePhase::Nominal,
            placeholder_len: 0,
            intermediate: Vec::new(),
            code_directory,
        };
        assert(parsed_layout(&layout, r.spec_input()) && plan_for(&layout, r.spec_plan())
            && spec_signing_capability(&layout) is Ok);
        assert(cd_built(
            r.spec_settings(),
            r.spec_input(),
            r.spec_plan().signature_offset as nat,
            r.spec_previous(),
            r.spec_signed(),
            &cd,
        ) && cd_well_formed(&cd) && r.spec_code_directory() == cd_bytes(&cd));
        assert(r.wf());
        Ok(r        )
    }

    /// The signature that the pending Code Directory, the special blobs
    /// and `cms` make.
    pub open spec fn pending_signature(&self, cms: Option<Seq<u8>>) -> Seq<u8> {
        superblob_bytes(
            CSMAGIC_EMBEDDED_SIGNATURE,
            signature_entries(
                self.spec_code_directory(),
                self.spec_specials(),
                if self.spec_signed() {
                    cms
                } else {
                    None
                },
            ),
        )
    }

    /// `advance` succeeds: a CMS signature is there where one is attached,
    /// the signature fits 32-bit lengths, and the first pass's placeholder
    /// fits the size fields, or the second pass's signature fits the
    /// placeholder.
    pub open spec fn success_owed(&self, cms: Option<Seq<u8>>) -> bool {
        let attached = if self.spec_signed() {
            cms
        } else {
            None
        };
        &&& !self.spec_signed() || cms is Some
        &&& crate::signing::signature_fits(self.spec_code_directory(), self.spec_specials(), attached)
        &&& self.spec_phase() == SlicePhase::Nominal ==> crate::rewrite::signature_fits(
            self.spec_plan(),
            (self.pending_signature(cms).len() + PLACEHOLDER_SLACK) as nat,
        )
        &&& self.spec_phase() == SlicePhase::Final ==> self.pending_signature(cms).len()
            <= self.spec_placeholder_len()
    }

    /// The same signing with the phase, placeholder and pending Code
    /// Directory changed only.
    pub open spec fn same_job(&self, other: &SliceSigner) -> bool {
        &&& other.spec_input() == self.spec_input()
        &&& other.spec_plan() == self.spec_plan()
        &&& other.spec_signed() == self.spec_signed()
        &&& other.spec_settings() == self.spec_settings()
    }

    /// Takes the CMS signature of the pending Code Directory (`None` when no
    /// cryptographic signature is attached) and moves on. After the first
    /// pass it returns `None`, the placeholder is the first pass's signature
    /// length plus slack, and a Code Directory over the binary with the
    /// placeholder is pending; after the second it returns the signed binary:
    /// the input with the second pass's signature, zero padded to the
    /// placeholder length, in place of the old one.
    pub fn advance(&mut self, cms: Option<Vec<u8>>) -> (r: Result<
        Option<Vec<u8>>,
        AppleCodesignError,
    >)
        requires
            old(self).wf(),
            old(self).spec_phase() != SlicePhase::Done,
        ensures
            final(self).wf(),
            old(self).same_job(final(self)),
            old(self).spec_signed() && cms is None ==> r == Err::<Option<Vec<u8>>, _>(
                AppleCodesignError::NoSigningCertificate,
            ),
            old(self).spec_phase() == SlicePhase::Nominal && r is Ok ==> r == Ok::<
                Option<Vec<u8>>,
                AppleCodesignError,
            >(None) && final(self).spec_phase() == SlicePhase::Final
                && final(self).spec_placeholder_len() == old(self).pending_signature(cms_view(&cms)).len()
                + PLACEHOLDER_SLACK,
            old(self).spec_phase() == SlicePhase::Final && r is Ok ==> final(self).spec_phase()
                == SlicePhase::Done && r->Ok_0 is Some && exists|s: Seq<u8>|
                padded_to(s, old(self).pending_signature(cms_view(&cms)), old(self).spec_placeholder_len())
                    && r->Ok_0->0@ == rewritten(old(self).spec_intermediate(), old(self).spec_plan(), s)
                    && r->Ok_0->0@ == rewritten(old(self).spec_input(), old(self).spec_plan(), s),
            old(self).spec_phase() == SlicePhase::Final && old(self).pending_signature(cms_view(&cms)).len()
                > old(self).spec_placeholder_len() ==> r is Err,
            old(self).spec_phase() == SlicePhase::Final ==> (r matches Ok(Some(out)) ==> out@.subrange(
                0,
                old(self).spec_plan().signature_offset as int,
            ) == old(self).spec_intermediate().subrange(
                0,
                old(self).spec_plan().signature_offset as int,
            )),
            old(self).success_owed(cms_view(&cms)) ==> r is Ok,
    {
        if self.signed && cms.is_none() {
            return Err(AppleCodesignError::NoSigningCertificate);
        }
        let attached = if self.signed {
            cms
        } else {
            None
        };
        let sig = assemble_superblob(&self.code_directory, &self.specials, &attached)?;
        match self.phase {
            SlicePhase::Nominal => {
                self.first_pass(sig)?;
                Ok(None)
            },
            _ => {
                let out = self.second_pass(sig)?;
                Ok(Some(out))
            },
        }
    }

    fn first_pass(&mut self, sig: Vec<u8>) -> (r: Result<(), AppleCodesignError>)
        requires
            old(self).wf(),
            old(self).spec_phase() == SlicePhase::Nominal,
        ensures
            final(self).wf(),
            old(self).same_job(final(self)),
            r is Ok ==> final(self).spec_phase() == SlicePhase::Final
                && final(self).spec_placeholder_len() == sig@.len() + PLACEHOLDER_SLACK,
            crate::rewrite::signature_fits(old(self).spec_plan(), (sig@.len() + PLACEHOLDER_SLACK) as nat)
                ==> r is Ok,
    {
        if sig.len() > usize::MAX - PLACEHOLDER_SLACK {
            return Err(AppleCodesignError::SignatureDataTooLarge);
        }
        let placeholder_len = sig.len() + PLACEHOLDER_SLACK;
        let zeros = vec![0u8; placeholder_len];
        let intermediate = rewrite_with_plan(
            self.input.as_slice(),
            &self.plan,
            zeros.as_slice(),
        )?;
        proof {
            assert(zeros@ =~= Seq::new(placeholder_len as nat, |i: int| 0u8));
            lemma_layout_preserved(self.input@, self.plan, zeros@);
        }
        let cd = create_code_directory(
            &self.settings,
            intermediate.as_slice(),
            self.plan.signature_offset,
            &self.previous,
            self.signed,
        )?;
        proof {
            let cd1 = choose|cd1: CodeDirectory|
                cd_built(
                    &self.settings,
                    self.input@,
                    self.plan.signature_offset as nat,
                    &self.previous,
                    self.signed,
                    &cd1,
                ) && cd_well_formed(&cd1) && self.code_directory@ == #[trigger] cd_bytes(&cd1);
            crate::signing::lemma_cd_built_same_size(
                &self.settings,
                self.input@,
                intermediate@,
                self.plan.signature_offset as nat,
                &self.previous,
                self.signed,
                &cd1,
                &cd,
            );
        }
        let code_directory = cd.to_blob_bytes()?;
        self.placeholder_len = placeholder_len;
        self.intermediate = intermediate;
        self.code_directory = code_directory;
        self.phase = SlicePhase::Final;
        Ok(())
    }

    fn second_pass(&mut self, sig: Vec<u8>) -> (r: Result<Vec<u8>, AppleCodesignError>)
        requires
            old(self).wf(),
            old(self).spec_phase() == SlicePhase::Final,
        ensures
            final(self).wf(),
            old(self).same_job(final(self)),
            sig@.len() > old(self).spec_placeholder_len() ==> r is Err,
            sig@.len() <= old(self).spec_placeholder_len() ==> r is Ok,
            r matches Ok(out) ==> out@.subrange(0, old(self).spec_plan().signature_offset as int)
                == old(self).spec_intermediate().subrange(
                0,
                old(self).spec_plan().signature_offset as int,
            ),
            r is Ok ==> final(self).spec_phase() == SlicePhase::Done && exists|s: Seq<u8>|
                padded_to(s, sig@, old(self).spec_placeholder_len()) && r->Ok_0@ == rewritten(
                    old(self).spec_intermediate(),
                    old(self).spec_plan(),
                    s,
                ) && r->Ok_0@ == rewritten(old(self).spec_input(), old(self).spec_plan(), s),
    {
        let ghost l = choose|l: MachOLayout|
            #[trigger] parsed_layout(&l, self.input@) && plan_for(&l, self.plan)
                && spec_signing_capability(&l) is Ok;
        if sig.len() > self.placeholder_len {
            return Err(AppleCodesignError::SignatureDataTooLarge);
        }
        let mut padded = sig;
        let pad_len = self.placeholder_len - padded.len();
        let mut pad = vec![0u8; pad_len];
        padded.append(&mut pad);
        proof {
            assert(padded@.subrange(0, sig@.len() as int) =~= sig@);
            let z = Seq::new(self.placeholder_len as nat, |i: int| 0u8);
            lemma_rewrite_twice(self.input@, self.plan, z, padded@);
        }
        let out = rewrite_with_plan(
            self.intermediate.as_slice(),
            &self.plan,
            padded.as_slice(),
        )?;
        assert(padded_to(padded@, sig@, self.placeholder_len as nat));
        assert(out@ == rewritten(self.input@, self.plan, padded@));
        assert(padded_to(padded@, sig@, old(self).spec_placeholder_len()) && out@ == rewritten(
            old(self).spec_intermediate(),
            old(self).spec_plan(),
            padded@,
        ) && out@ == rewritten(old(self).spec_input(), old(self).spec_plan(), padded@));
        self.phase = SlicePhase::Done;
        assert(parsed_layout(&l, self.spec_input()) && plan_for(&l, self.spec_plan()));
        Ok(out)
    }
}


/// Alignment, as a power of two, that the fat records of the output
/// declare: slices are placed on 4 KiB boundaries.
pub const FAT_SLICE_ALIGN: u32 = 12;

/// One Mach-O binary within the input: the whole input, or a slice of a fat
/// binary.
#[derive(Clone, Copy, Debug, PartialEq, Eq, Structural)]
pub struct MachOSlice {
    pub cputype: u32,
    pub cpusubtype: u32,
    /// Start of the slice in the input.
    pub offset: usize,
    /// Length of the slice.
    pub size: usize,
    /// Alignment of the slice, as a power of two.
    pub align: u32,
}

/// The slice's bytes can be signed: they describe a Mach-O whose signature
/// the rewriter can replace.
pub open spec fn slice_signable(d: Seq<u8>) -> bool {
    slice_check(d) is Ok
}

/// The layout that `parse_layout` reads from `d`, where it reads one.
pub open spec fn layout_from(d: Seq<u8>) -> MachOLayout {
    choose|l: MachOLayout| parsed_layout(&l, d)
}

/// Whether the binary `d` can be signed, or the error that says why not:
/// it must read as a Mach-O, pass the capability check, and have segments
/// that tile the file up to `__LINKEDIT`.
pub open spec fn slice_check(d: Seq<u8>) -> Result<(), AppleCodesignError> {
    if !layout_readable(d) {
        Err(AppleCodesignError::MalformedMacho)
    } else {
        match spec_signing_capability(&layout_from(d)) {
            Err(e) => Err(e),
            Ok(()) => if segments_tile(&layout_from(d)) {
                Ok(())
            } else {
                Err(AppleCodesignError::MalformedMacho)
            },
        }
    }
}

/// Two layouts read from the same bytes give the same capability, tiling
/// and rewrite plan.
pub proof fn lemma_parsed_layout_same_checks(l1: &MachOLayout, l2: &MachOLayout, d: Seq<u8>)
    requires
        parsed_layout(l1, d),
        parsed_layout(l2, d),
    ensures
        spec_signing_capability(l1) == spec_signing_capability(l2),
        segments_tile(l1) == segments_tile(l2),
        forall|p: RewritePlan| plan_for(l1, p) == plan_for(l2, p),
{
    crate::macho::lemma_parsed_layout_unique(l1, l2, d);
    assert(signature_location(l1) == signature_location(l2));
}

/// The input starts with the fat magic.
pub open spec fn is_fat_input(d: Seq<u8>) -> bool {
    d.len() >= 4 && read_be32(d, 0) == FAT_MAGIC
}

/// The bytes of the slice that a fat arch record describes.
pub open spec fn arch_slice(d: Seq<u8>, a: (u32, u32, u32, u32, u32)) -> Seq<u8> {
    d.subrange(a.2 as int, a.2 + a.3)
}

/// The first error among the slices `a`, in order.
pub open spec fn arches_check(d: Seq<u8>, a: Seq<(u32, u32, u32, u32, u32)>) -> Result<
    (),
    AppleCodesignError,
>
    decreases a.len(),
{
    if a.len() == 0 {
        Ok(())
    } else {
        match arches_check(d, a.drop_last()) {
            Err(e) => Err(e),
            Ok(()) => if a.last().2 + a.last().3 > d.len() {
                Err(AppleCodesignError::MalformedMacho)
            } else {
                slice_check(arch_slice(d, a.last()))
            },
        }
    }
}

proof fn lemma_arches_check_prefix(d: Seq<u8>, a: Seq<(u32, u32, u32, u32, u32)>, k: int)
    requires
        0 <= k <= a.len(),
        arches_check(d, a.subrange(0, k)) is Err,
    ensures
        arches_check(d, a) == arches_check(d, a.subrange(0, k)),
    decreases a.len(),
{
    if k < a.len() {
        assert(a.drop_last().subrange(0, k) =~= a.subrange(0, k));
        lemma_arches_check_prefix(d, a.drop_last(), k);
    } else {
        assert(a.subrange(0, k) =~= a);
    }
}

/// Whether the input can be signed, or the error of the first binary in it
/// that cannot.
pub open spec fn input_check(d: Seq<u8>) -> Result<(), AppleCodesignError> {
    if is_fat_input(d) {
        if !fat_header_ok(d) {
            Err(AppleCodesignError::MalformedMacho)
        } else {
            match goblin_fat(d) {
                None => Err(AppleCodesignError::MalformedMacho),
                Some(a) => arches_check(d, a),
            }
        }
    } else {
        slice_check(d)
    }
}

/// `out` is `input` with its signature replaced: some signature in place
/// of the old one, with both size fields set for it, where the input's own
/// load commands place them.
pub open spec fn resigned(input: Seq<u8>, out: Seq<u8>) -> bool {
    exists|l: MachOLayout, p: RewritePlan, s: Seq<u8>|
        #![trigger parsed_layout(&l, input), rewritten(input, p, s)]
        parsed_layout(&l, input) && plan_for(&l, p) && spec_signing_capability(&l) is Ok
            && plan_valid(p) && p.signature_offset <= input.len() && out == rewritten(input, p, s)
}

/// Signs single-architecture and fat Mach-O binaries.
pub struct MachOSigner {
    macho_data: Vec<u8>,
    fat: bool,
    slices: Vec<MachOSlice>,
}

/// `c` rounded up to a multiple of 4 KiB.
pub open spec fn next_page(c: nat) -> nat {
    if c % 4096 == 0 {
        c
    } else {
        c + (4096 - c % 4096) as nat
    }
}

/// Offsets of fat slices of the given sizes after a header of `h` bytes:
/// each starts at the first 4 KiB boundary at or after the end of what
/// precedes it.
pub open spec fn fat_offsets(sizes: Seq<nat>, h: nat) -> Seq<nat>
    decreases sizes.len(),
{
    if sizes.len() == 0 {
        Seq::empty()
    } else {
        let prev = fat_offsets(sizes.drop_last(), h);
        let end = if sizes.len() == 1 {
            h
        } else {
            prev.last() + sizes[sizes.len() - 2]
        };
        prev.push(next_page(end))
    }
}

pub open spec fn slice_sizes(bins: Seq<Seq<u8>>) -> Seq<nat> {
    Seq::new(bins.len(), |i: int| bins[i].len())
}

pub open spec fn fat_header_len(n: nat) -> nat {
    8 + 20 * n
}

/// The fat arch records.
pub open spec fn fat_records(slices: Seq<MachOSlice>, bins: Seq<Seq<u8>>) -> Seq<u8>
    decreases slices.len(),
{
    if slices.len() == 0 {
        Seq::empty()
    } else {
        let i = slices.len() - 1;
        let offs = fat_offsets(slice_sizes(bins), fat_header_len(bins.len()));
        fat_records(slices.drop_last(), bins) + be32(slices[i].cputype) + be32(slices[i].cpusubtype)
            + be32(offs[i] as u32) + be32(bins[i].len() as u32) + be32(FAT_SLICE_ALIGN)
    }
}

/// The padded slices, after the header.
pub open spec fn fat_body(bins: Seq<Seq<u8>>, k: nat) -> Seq<u8>
    decreases k,
{
    if k == 0 {
        Seq::empty()
    } else {
        let i = k - 1;
        let offs = fat_offsets(slice_sizes(bins), fat_header_len(bins.len()));
        let end: nat = if i == 0 {
            fat_header_len(bins.len())
        } else {
            offs[i - 1] + bins[i - 1].len()
        };
        fat_body(bins, (k - 1) as nat) + Seq::new((offs[i] - end) as nat, |j: int| 0u8) + bins[i]
    }
}

/// A fat binary holding `bins`, described by `slices`.
pub open spec fn fat_bytes(slices: Seq<MachOSlice>, bins: Seq<Seq<u8>>) -> Seq<u8> {
    be32(FAT_MAGIC) + be32(bins.len() as u32) + fat_records(slices, bins) + fat_body(
        bins,
        bins.len(),
    )
}

proof fn lemma_fat_offsets_len(sizes: Seq<nat>, h: nat)
    ensures
        fat_offsets(sizes, h).len() == sizes.len(),
    decreases sizes.len(),
{
    if sizes.len() > 0 {
        lemma_fat_offsets_len(sizes.drop_last(), h);
    }
}

proof fn lemma_fat_offsets_prefix(sizes: Seq<nat>, h: nat, k: int)
    requires
        0 <= k <= sizes.len(),
    ensures
        fat_offsets(sizes.subrange(0, k), h) == fat_offsets(sizes, h).subrange(0, k),
    decreases sizes.len(),
{
    lemma_fat_offsets_len(sizes, h);
    lemma_fat_offsets_len(sizes.subrange(0, k), h);
    if k < sizes.len() {
        lemma_fat_offsets_prefix(sizes.drop_last(), h, k);
        assert(sizes.drop_last().subrange(0, k) =~= sizes.subrange(0, k));
        lemma_fat_offsets_len(sizes.drop_last(), h);
        assert(fat_offsets(sizes, h).subrange(0, k) =~= fat_offsets(sizes.drop_last(), h).subrange(
            0,
            k,
        ));
    } else {
        assert(sizes.subrange(0, k) =~= sizes);
        assert(fat_offsets(sizes, h).subrange(0, k) =~= fat_offsets(sizes, h));
    }
}

/// Writes a fat binary from its signed slices.
pub fn create_fat_binary(slices: &Vec<MachOSlice>, bins: &Vec<Vec<u8>>) -> (r: Result<
    Vec<u8>,
    AppleCodesignError,
>)
    requires
        slices@.len() == bins@.len(),
    ensures
        r matches Ok(b) ==> b@ == fat_bytes(slices@, hashes_view(bins@)),
        r matches Ok(_) ==> forall|i: int|
            0 <= i < bins@.len() ==> #[trigger] fat_offsets(
                slice_sizes(hashes_view(bins@)),
                fat_header_len(bins@.len()),
            )[i] + bins@[i]@.len() <= u32::MAX,
        r is Err ==> r == Err::<Vec<u8>, _>(AppleCodesignError::SignatureDataTooLarge),
        r is Ok <==> bins@.len() <= 0xff_ffff && forall|i: int|
            0 <= i < bins@.len() ==> #[trigger] fat_offsets(
                slice_sizes(hashes_view(bins@)),
                fat_header_len(bins@.len()),
            )[i] + bins@[i]@.len() <= u32::MAX,
{
    let ghost bv = hashes_view(bins@);
    let ghost sizes = slice_sizes(bv);
    let n = bins.len();
    if n > 0x00ff_ffff {
        return Err(AppleCodesignError::SignatureDataTooLarge);
    }
    let h: u64 = 8 + 20 * n as u64;
    let ghost hn = fat_header_len(n as nat);
    let mut offsets: Vec<u64> = Vec::new();
    let mut end: u64 = h;
    let mut i: usize = 0;
    proof {
        lemma_fat_offsets_len(sizes, hn);
        assert(sizes.subrange(0, 0) =~= Seq::<nat>::empty());
    }
    while i < n
        invariant
            n == bins@.len(),
            bv == hashes_view(bins@),
            sizes == slice_sizes(bv),
            hn == fat_header_len(n as nat),
            h as nat == hn,
            i <= n,
            offsets@.len() == i,
            end <= 0xffff_ffff,
            Seq::new(offsets@.len(), |j: int| offsets@[j] as nat) == fat_offsets(sizes.subrange(0, i as int), hn),
            end as int == (if i == 0 {
                hn as int
            } else {
                offsets@[i - 1] + sizes[i - 1]
            }),
            forall|j: int| 0 <= j < i ==> #[trigger] offsets@[j] + sizes[j] <= 0xffff_ffff,
        decreases n - i,
    {
        let offset = if end % 4096 == 0 {
            end
        } else {
            end + (4096 - end % 4096)
        };
        let size = bins[i].len() as u64;
        if offset > 0xffff_ffff || size > 0xffff_ffff - offset {
            proof {
                let sub = sizes.subrange(0, i + 1);
                assert(sub.drop_last() =~= sizes.subrange(0, i as int));
                lemma_fat_offsets_len(sizes.subrange(0, i as int), hn);
                if i > 0 {
                    assert(sub[i - 1] == sizes[i - 1]);
                    assert(fat_offsets(sizes.subrange(0, i as int), hn).last() == offsets@[i - 1] as nat);
                }
                assert(fat_offsets(sub, hn).last() == offset as nat);
                lemma_fat_offsets_len(sub, hn);
                lemma_fat_offsets_prefix(sizes, hn, i + 1);
                lemma_fat_offsets_len(sizes, hn);
                assert(fat_offsets(sizes, hn).subrange(0, i + 1)[i as int] == fat_offsets(
                    sizes,
                    hn,
                )[i as int]);
                assert(fat_offsets(sizes, hn)[i as int] == fat_offsets(sub, hn)[i as int]);
                assert(bins@[i as int]@.len() == sizes[i as int]);
            }
            return Err(AppleCodesignError::SignatureDataTooLarge);
        }
        proof {
            let sub = sizes.subrange(0, i + 1);
            assert(sub.drop_last() =~= sizes.subrange(0, i as int));
            if i > 0 {
                lemma_fat_offsets_len(sizes.subrange(0, i as int), hn);
                assert(sub[i - 1] == sizes[i - 1]);
                assert(fat_offsets(sizes.subrange(0, i as int), hn).last() == offsets@[i - 1] as nat);
            }
        }
        offsets.push(offset);
        end = offset + size;
        i = i + 1;
        assert(Seq::new(offsets@.len(), |j: int| offsets@[j] as nat) =~= fat_offsets(sizes.subrange(0, i as int), hn));
    }
    proof {
        assert(sizes.subrange(0, n as int) =~= sizes);
    }
    let ghost offs = fat_offsets(sizes, hn);
    let mut out: Vec<u8> = Vec::new();
    push_be32(&mut out, FAT_MAGIC);
    push_be32(&mut out, n as u32);
    let ghost head = out@;
    let mut i: usize = 0;
    assert(slices@.subrange(0, 0) =~= Seq::<MachOSlice>::empty());
    while i < n
        invariant
            n == bins@.len(),
            n == slices@.len(),
            bv == hashes_view(bins@),
            sizes == slice_sizes(bv),
            hn == fat_header_len(n as nat),
            offs == fat_offsets(sizes, hn),
            offsets@.len() == n,
            forall|j: int| 0 <= j < n ==> #[trigger] offsets@[j] as nat == offs[j],
            forall|j: int| 0 <= j < n ==> #[trigger] offsets@[j] + sizes[j] <= 0xffff_ffff,
            i <= n,
            out@ == head + fat_records(slices@.subrange(0, i as int), bv),
        decreases n - i,
    {
        let s = slices[i];
        proof {
            let sub = slices@.subrange(0, i + 1);
            assert(sub.drop_last() =~= slices@.subrange(0, i as int));
            assert(offsets@[i as int] as nat == offs[i as int]);
        }
        push_be32(&mut out, s.cputype);
        push_be32(&mut out, s.cpusubtype);
        push_be32(&mut out, offsets[i] as u32);
        push_be32(&mut out, bins[i].len() as u32);
        push_be32(&mut out, FAT_SLICE_ALIGN);
        i = i + 1;
        assert(out@ =~= head + fat_records(slices@.subrange(0, i as int), bv));
    }
    assert(slices@.subrange(0, n as int) =~= slices@);
    let ghost recs = out@;
    let mut i: usize = 0;
    let mut cursor: u64 = h;
    while i < n
        invariant
            n == bins@.len(),
            bv == hashes_view(bins@),
            sizes == slice_sizes(bv),
            hn == fat_header_len(n as nat),
            h as nat == hn,
            offs == fat_offsets(sizes, hn),
            offsets@.len() == n,
            forall|j: int| 0 <= j < n ==> #[trigger] offsets@[j] as nat == offs[j],
            forall|j: int| 0 <= j < n ==> #[trigger] offsets@[j] + sizes[j] <= 0xffff_ffff,
            i <= n,
            cursor as int == (if i == 0 {
                hn as int
            } else {
                (offs[i - 1] + sizes[i - 1]) as int
            }),
            out@ == recs + fat_body(bv, i as nat),
        decreases n - i,
    {
        proof {
            lemma_fat_offsets_len(sizes, hn);
            lemma_fat_offsets_prefix(sizes, hn, i + 1);
            let sub = sizes.subrange(0, i + 1);
            assert(sub.drop_last() =~= sizes.subrange(0, i as int));
            lemma_fat_offsets_prefix(sizes, hn, i as int);
            lemma_fat_offsets_len(sizes.subrange(0, i as int), hn);
            assert(fat_offsets(sub, hn).last() == offs[i as int]);
            if i > 0 {
                assert(fat_offsets(sizes.subrange(0, i as int), hn).last() == offs[i - 1]);
                assert(sub[i - 1] == sizes[i - 1]);
            }
            assert(offs[i as int] >= cursor);
        }
        let pad_len = (offsets[i] - cursor) as usize;
        let mut pad = vec![0u8; pad_len];
        out.append(&mut pad);
        out.extend_from_slice(bins[i].as_slice());
        cursor = offsets[i] + bins[i].len() as u64;
        i = i + 1;
        assert(out@ =~= recs + fat_body(bv, i as nat));
    }
    assert(out@ =~= fat_bytes(slices@, bv));
    Ok(out)
}


fn check_slice(data: &[u8]) -> (r: Result<u32, AppleCodesignError>)
    ensures
        match slice_check(data@) {
            Ok(()) => r is Ok && (crate::macho::goblin_macho(data@) matches Some(g) && r->Ok_0 == g.2),
            Err(e) => r == Err::<u32, _>(e),
        },
{
    let layout = parse_layout(data)?;
    proof {
        lemma_parsed_layout_same_checks(&layout, &layout_from(data@), data@);
    }
    let _plan = plan_rewrite(&layout, Ghost(data@))?;
    Ok(layout.cputype)
}

impl MachOSigner {
    pub closed spec fn spec_data(&self) -> Seq<u8> {
        self.macho_data@
    }

    pub closed spec fn spec_fat(&self) -> bool {
        self.fat
    }

    pub closed spec fn spec_slices(&self) -> Seq<MachOSlice> {
        self.slices@
    }

    /// Every slice lies within the input and can be signed; a binary that is
    /// not fat is one slice covering the whole input.
    pub open spec fn wf(&self) -> bool {
        &&& forall|i: int|
            0 <= i < self.spec_slices().len() ==> #[trigger] self.spec_slices()[i].offset
                + self.spec_slices()[i].size <= self.spec_data().len() && slice_signable(
                self.spec_data().subrange(
                    self.spec_slices()[i].offset as int,
                    self.spec_slices()[i].offset + self.spec_slices()[i].size,
                ),
            )
        &&& !self.spec_fat() ==> self.spec_slices().len() == 1 && self.spec_slices()[0].offset == 0
            && self.spec_slices()[0].size == self.spec_data().len()
    }

    /// For a fat input, the slices are the fat arch records' slices.
    pub open spec fn slices_from_arches(&self, d: Seq<u8>) -> bool {
        self.spec_fat() ==> (goblin_fat(d) matches Some(a) && self.spec_slices().len() == a.len()
            && forall|i: int|
            0 <= i < a.len() ==> #[trigger] self.spec_slices()[i].offset == a[i].2 as usize
                && self.spec_slices()[i].size == a[i].3 as usize && self.spec_slices()[i].cputype
                == a[i].0)
    }

    /// Reads a single-architecture or fat Mach-O binary and checks that every
    /// binary in it can be signed; on failure, the error of the first binary
    /// that cannot.
    pub fn new(macho_data: &[u8]) -> (r: Result<MachOSigner, AppleCodesignError>)
        ensures
            r is Ok == input_check(macho_data@) is Ok,
            r matches Err(e) ==> input_check(macho_data@) == Err::<(), _>(e),
            r matches Ok(s) ==> s.wf() && s.spec_data() == macho_data@ && s.spec_fat()
                == is_fat_input(macho_data@),
            r matches Ok(s) ==> s.slices_from_arches(macho_data@),
    {
        let len = macho_data.len();
        let mut data: Vec<u8> = Vec::new();
        data.extend_from_slice(macho_data);
        assert(data@ =~= macho_data@);
        let mut slices: Vec<MachOSlice> = Vec::new();
        if len < 4 || get_be32(macho_data, 0) != FAT_MAGIC {
            let cputype = check_slice(macho_data)?;
            slices.push(MachOSlice { cputype, cpusubtype: 0, offset: 0, size: len, align: 0 });
            assert(macho_data@.subrange(0, len as int) =~= macho_data@);
            return Ok(MachOSigner { macho_data: data, fat: false, slices });
        }
        if len < 8 || 8 + 20 * (get_be32(macho_data, 4) as u64) > len as u64 {
            return Err(AppleCodesignError::MalformedMacho);
        }
        let arches = match goblin_parse_fat(macho_data) {
            Some(a) => a,
            None => return Err(AppleCodesignError::MalformedMacho),
        };
        let mut i: usize = 0;
        assert(arches@.subrange(0, 0) =~= Seq::<(u32, u32, u32, u32, u32)>::empty());
        while i < arches.len()
            invariant
                len == macho_data@.len(),
                data@ == macho_data@,
                goblin_fat(macho_data@) == Some(arches@),
                is_fat_input(macho_data@),
                fat_header_ok(macho_data@),
                i <= arches@.len(),
                slices@.len() == i,
                arches_check(macho_data@, arches@.subrange(0, i as int)) is Ok,
                forall|j: int|
                    0 <= j < i ==> #[trigger] slices@[j].offset + slices@[j].size <= len
                        && slice_signable(
                        macho_data@.subrange(
                            slices@[j].offset as int,
                            slices@[j].offset + slices@[j].size,
                        ),
                    ) && slices@[j].offset == arches@[j].2 as usize && slices@[j].size
                        == arches@[j].3 as usize && slices@[j].cputype == arches@[j].0,
            decreases arches.len() - i,
        {
            let (cputype, cpusubtype, offset32, size32, align) = arches[i];
            let offset = offset32 as usize;
            let size = size32 as usize;
            let ghost next = arches@.subrange(0, i + 1);
            assert(next.drop_last() =~= arches@.subrange(0, i as int));
            assert(next.last() == arches@[i as int]);
            if offset > len || size > len - offset {
                proof {
                    assert(arches_check(macho_data@, next) == Err::<(), _>(
                        AppleCodesignError::MalformedMacho,
                    ));
                    lemma_arches_check_prefix(macho_data@, arches@, i + 1);
                }
                return Err(AppleCodesignError::MalformedMacho);
            }
            assert(macho_data@.subrange(offset as int, offset + size) == arch_slice(
                macho_data@,
                arches@[i as int],
            ));
            match check_slice(&macho_data[offset..offset + size]) {
                Ok(_) => {},
                Err(e) => {
                    proof {
                        lemma_arches_check_prefix(macho_data@, arches@, i + 1);
                    }
                    return Err(e);
                },
            }
            slices.push(MachOSlice { cputype, cpusubtype, offset, size, align });
            i = i + 1;
        }
        assert(arches@.subrange(0, i as int) =~= arches@);
        let r = MachOSigner { macho_data: data, fat: true, slices };
        assert forall|j: int| 0 <= j < arches@.len() implies #[trigger] r.spec_slices()[j].offset
            == arches@[j].2 as usize && r.spec_slices()[j].size == arches@[j].3 as usize
            && r.spec_slices()[j].cputype == arches@[j].0 by {
            assert(r.spec_slices()[j] == r.slices@[j]);
            assert(r.slices@[j].offset + r.slices@[j].size <= len);
        }
        assert(r.slices_from_arches(macho_data@));
        Ok(r)
    }

    /// Whether the input is a fat binary.
    pub fn is_fat(&self) -> (r: bool)
        ensures
            r == self.spec_fat(),
    {
        self.fat
    }

    /// The binaries in the input.
    pub fn slices(&self) -> (r: &Vec<MachOSlice>)
        ensures
            r@ == self.spec_slices(),
    {
        &self.slices
    }

    /// The bytes of one binary in the input.
    pub fn macho_data(&self, index: usize) -> (r: Vec<u8>)
        requires
            self.wf(),
            index < self.spec_slices().len(),
        ensures
            r@ == self.spec_data().subrange(
                self.spec_slices()[index as int].offset as int,
                self.spec_slices()[index as int].offset + self.spec_slices()[index as int].size,
            ),
    {
        let s = self.slices[index];
        let _n = self.macho_data.len();
        assert(self.spec_slices()[index as int].offset + self.spec_slices()[index as int].size
            <= self.spec_data().len());
        let mut r: Vec<u8> = Vec::new();
        r.extend_from_slice(&self.macho_data.as_slice()[s.offset..s.offset + s.size]);
        assert(r@ =~= self.spec_data().subrange(s.offset as int, s.offset + s.size));
        r
    }

    /// Starts signing binary `index` with settings derived for its slice
    /// index and CPU type.
    pub fn begin_slice(&self, settings: &SigningSettings, index: usize, signed: bool) -> (r: Result<
        SliceSigner,
        AppleCodesignError,
    >)
        requires
            self.wf(),
            index < self.spec_slices().len(),
        ensures
            r matches Ok(s) ==> s.wf() && s.spec_phase() == SlicePhase::Nominal && s.spec_signed()
                == signed && s.spec_input() == self.spec_data().subrange(
                self.spec_slices()[index as int].offset as int,
                self.spec_slices()[index as int].offset + self.spec_slices()[index as int].size,
            ) && settings.descends_from(
                s.spec_settings(),
                crate::settings::DescentKey::Slice(index, self.spec_slices()[index as int].cputype),
            ),
            forall|d: SigningSettings|
                settings.descends_from(
                    &d,
                    crate::settings::DescentKey::Slice(index, self.spec_slices()[index as int].cputype),
                ) && #[trigger] slice_start_owed(&d, self.slice_data(index as int)) ==> r is Ok,
    {
        let data = self.macho_data(index);
        let scoped = settings.as_nested_macho_settings(index, self.slices[index].cputype);
        SliceSigner::new(scoped, data.as_slice(), signed)
    }

    /// The output file from the signed binaries, in input order: the one
    /// binary, or a fat binary of them all.
    pub fn assemble(&self, binaries: &Vec<Vec<u8>>) -> (r: Result<Vec<u8>, AppleCodesignError>)
        requires
            self.wf(),
            binaries@.len() == self.spec_slices().len(),
        ensures
            !self.spec_fat() ==> r is Ok && r->Ok_0@ == binaries@[0]@,
            self.spec_fat() && r is Ok ==> r->Ok_0@ == fat_bytes(
                self.spec_slices(),
                hashes_view(binaries@),
            ),
    {
        if self.fat {
            create_fat_binary(&self.slices, binaries)
        } else {
            let mut out: Vec<u8> = Vec::new();
            out.extend_from_slice(binaries[0].as_slice());
            assert(out@ =~= binaries@[0]@);
            Ok(out)
        }
    }

    /// The output file holding the signed binaries `bins`.
    pub open spec fn output_of(&self, bins: Seq<Seq<u8>>) -> Seq<u8> {
        if self.spec_fat() {
            fat_bytes(self.spec_slices(), bins)
        } else {
            bins[0]
        }
    }

    /// The bytes of binary `i` of the input.
    pub open spec fn slice_data(&self, i: int) -> Seq<u8> {
        self.spec_data().subrange(
            self.spec_slices()[i].offset as int,
            self.spec_slices()[i].offset + self.spec_slices()[i].size,
        )
    }

    /// Signs every binary ad hoc (without a CMS signature) and returns the
    /// output file: each binary has its signature replaced, in the same
    /// container.
    pub fn sign_ad_hoc(&self, settings: &SigningSettings) -> (r: Result<Vec<u8>, AppleCodesignError>)
        requires
            self.wf(),
        ensures
            r matches Ok(out) ==> exists|bins: Seq<Seq<u8>>|
                bins.len() == self.spec_slices().len() && (forall|i: int|
                    0 <= i < bins.len() ==> resigned(self.slice_data(i), #[trigger] bins[i]))
                    && out@ == #[trigger] self.output_of(bins),
    {
        let mut binaries: Vec<Vec<u8>> = Vec::new();
        let mut i: usize = 0;
        while i < self.slices.len()
            invariant
                self.wf(),
                i <= self.spec_slices().len(),
                binaries@.len() == i,
                forall|j: int|
                    0 <= j < i ==> resigned(self.slice_data(j), #[trigger] binaries@[j]@),
            decreases self.slices.len() - i,
        {
            let mut job = self.begin_slice(settings, i, false)?;
            job.advance(None)?;
            let out = match job.advance(None)? {
                Some(out) => out,
                None => return Err(AppleCodesignError::SignatureDataTooLarge),
            };
            proof {
                let l = choose|l: MachOLayout|
                    #[trigger] parsed_layout(&l, job.spec_input()) && plan_for(&l, job.spec_plan())
                        && spec_signing_capability(&l) is Ok;
                let sg = choose|sg: Seq<u8>|
                    padded_to(sg, job.pending_signature(None), job.spec_placeholder_len())
                        && out@ == rewritten(job.spec_input(), job.spec_plan(), sg);
                assert(resigned(self.slice_data(i as int), out@));
            }
            binaries.push(out);
            i = i + 1;
        }
        let r = self.assemble(&binaries);
        proof {
            let bins = hashes_view(binaries@);
            assert forall|j: int| 0 <= j < bins.len() implies resigned(
                self.slice_data(j),
                #[trigger] bins[j],
            ) by {
                assert(bins[j] == binaries@[j]@);
            }
            if r is Ok {
                let out = r->Ok_0;
                assert(bins.len() == self.spec_slices().len() && (forall|i: int|
                    0 <= i < bins.len() ==> resigned(self.slice_data(i), #[trigger] bins[i]))
                    && out@ == self.output_of(bins));
            }
        }
        r
    }
}

} // verus!
