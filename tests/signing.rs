use tugger_apple_codesign::blob::parse_superblob;
use tugger_apple_codesign::digest::{digest, DigestType};
use tugger_apple_codesign::error::AppleCodesignError;
use tugger_apple_codesign::flags::ADHOC;
use tugger_apple_codesign::scope::{SettingsScope, CPU_TYPE_ARM64, CPU_TYPE_X86_64};
use tugger_apple_codesign::settings::SigningSettings;
use tugger_apple_codesign::signer::{MachOSigner, SlicePhase};

const LINKEDIT_PREFIX: usize = 16;

fn seg64(out: &mut Vec<u8>, name: &str, fileoff: u64, filesize: u64) {
    out.extend_from_slice(&0x19u32.to_le_bytes());
    out.extend_from_slice(&72u32.to_le_bytes());
    let mut n = [0u8; 16];
    n[..name.len()].copy_from_slice(name.as_bytes());
    out.extend_from_slice(&n);
    out.extend_from_slice(&0x1_0000_0000u64.wrapping_add(fileoff).to_le_bytes());
    out.extend_from_slice(&filesize.to_le_bytes());
    out.extend_from_slice(&fileoff.to_le_bytes());
    out.extend_from_slice(&filesize.to_le_bytes());
    out.extend_from_slice(&7u32.to_le_bytes());
    out.extend_from_slice(&5u32.to_le_bytes());
    out.extend_from_slice(&0u32.to_le_bytes());
    out.extend_from_slice(&0u32.to_le_bytes());
}

/// A minimal 64-bit Mach-O: `__PAGEZERO`, `__TEXT`, `__LINKEDIT` (optionally
/// followed by `__DATA`), and a zeroed code signature of `sig_size` bytes
/// that ends `trailing` bytes before the end of `__LINKEDIT`.
fn thin_macho(cputype: u32, sig_size: u32, trailing: u64, data_after_linkedit: bool) -> Vec<u8> {
    let ncmds: u32 = if data_after_linkedit { 5 } else { 4 };
    let sizeofcmds = 72 * (ncmds - 1) + 16;
    let linkedit_size = LINKEDIT_PREFIX as u64 + sig_size as u64 + trailing;
    let mut out = Vec::new();
    out.extend_from_slice(&0xfeedfacfu32.to_le_bytes());
    out.extend_from_slice(&cputype.to_le_bytes());
    out.extend_from_slice(&3u32.to_le_bytes());
    out.extend_from_slice(&2u32.to_le_bytes());
    out.extend_from_slice(&ncmds.to_le_bytes());
    out.extend_from_slice(&sizeofcmds.to_le_bytes());
    out.extend_from_slice(&0u32.to_le_bytes());
    out.extend_from_slice(&0u32.to_le_bytes());
    seg64(&mut out, "__PAGEZERO", 0, 0);
    seg64(&mut out, "__TEXT", 0, 4096);
    seg64(&mut out, "__LINKEDIT", 4096, linkedit_size);
    if data_after_linkedit {
        seg64(&mut out, "__DATA", 4096 + linkedit_size, 16);
    }
    out.extend_from_slice(&0x1du32.to_le_bytes());
    out.extend_from_slice(&16u32.to_le_bytes());
    out.extend_from_slice(&(4096 + LINKEDIT_PREFIX as u32).to_le_bytes());
    out.extend_from_slice(&sig_size.to_le_bytes());
    for i in out.len()..4096 {
        out.push((i % 251) as u8);
    }
    for i in 0..LINKEDIT_PREFIX {
        out.push(0xa0 + i as u8);
    }
    out.resize(out.len() + sig_size as usize + trailing as usize, 0);
    if data_after_linkedit {
        out.resize(out.len() + 16, 0x55);
    }
    out
}

fn be32(b: &[u8], off: usize) -> u32 {
    u32::from_be_bytes([b[off], b[off + 1], b[off + 2], b[off + 3]])
}

fn le32(b: &[u8], off: usize) -> u32 {
    u32::from_le_bytes([b[off], b[off + 1], b[off + 2], b[off + 3]])
}

const SIG_OFFSET: usize = 4096 + LINKEDIT_PREFIX;
/// Offset of the code signature command's `datasize`.
const DATASIZE_AT: usize = 32 + 3 * 72 + 12;
/// Offset of the `__LINKEDIT` command's `filesize`.
const FILESIZE_AT: usize = 32 + 2 * 72 + 48;

fn signature_of(out: &[u8]) -> Vec<(u32, Vec<u8>)> {
    let size = le32(out, DATASIZE_AT) as usize;
    parse_superblob(&out[SIG_OFFSET..SIG_OFFSET + size]).unwrap()
}

fn adhoc_settings() -> SigningSettings {
    let mut s = SigningSettings::default();
    s.set_binary_identifier(SettingsScope::Main, "a.out");
    s
}

#[test]
fn thin_ad_hoc_sign() {
    let input = thin_macho(CPU_TYPE_X86_64, 256, 0, false);
    let signer = MachOSigner::new(&input).unwrap();
    assert!(!signer.is_fat());
    let out = signer.sign_ad_hoc(&adhoc_settings()).unwrap();

    let datasize = le32(&out, DATASIZE_AT) as usize;
    assert!(datasize >= 256);
    assert_eq!(out.len(), SIG_OFFSET + datasize);
    assert_eq!(
        u64::from_le_bytes(out[FILESIZE_AT..FILESIZE_AT + 8].try_into().unwrap()),
        (LINKEDIT_PREFIX + datasize) as u64
    );
    // Every byte before the signature but the two size fields is unchanged.
    for i in 0..SIG_OFFSET {
        if (DATASIZE_AT..DATASIZE_AT + 4).contains(&i) || (FILESIZE_AT..FILESIZE_AT + 8).contains(&i) {
            continue;
        }
        assert_eq!(out[i], input[i], "byte {}", i);
    }

    let blobs = signature_of(&out);
    assert_eq!(blobs[0].0, 0);
    assert!(blobs.iter().all(|(slot, _)| *slot != 0x10000));
    let cd = &blobs[0].1;
    assert_eq!(be32(cd, 0), 0xfade0c02);
    assert_eq!(be32(cd, 12) & ADHOC, ADHOC);
    // Code limit is the signature's offset; one digest per started page.
    assert_eq!(be32(cd, 32), SIG_OFFSET as u32);
    assert_eq!(be32(cd, 28), ((SIG_OFFSET + 4095) / 4096) as u32);
    assert_eq!(cd[36], 32);
    assert_eq!(cd[37], 2);
    assert_eq!(cd[39], 12);
    let ident_off = be32(cd, 20) as usize;
    assert_eq!(&cd[ident_off..ident_off + 6], b"a.out\0");
    // The first page digest is the SHA-256 of the output's first page.
    let hash_off = be32(cd, 16) as usize;
    let first = digest(DigestType::Sha256, &out[0..4096]).unwrap();
    assert_eq!(&cd[hash_off..hash_off + 32], first.as_slice());
    let second = digest(DigestType::Sha256, &out[4096..SIG_OFFSET]).unwrap();
    assert_eq!(&cd[hash_off + 32..hash_off + 64], second.as_slice());

    // The output can be signed again.
    let again = MachOSigner::new(&out).unwrap().sign_ad_hoc(&adhoc_settings()).unwrap();
    assert_eq!(signature_of(&again)[0].0, 0);
    assert_eq!(&again[0..DATASIZE_AT], &out[0..DATASIZE_AT]);
}

#[test]
fn thin_signed_with_chain() {
    let input = thin_macho(CPU_TYPE_X86_64, 256, 0, false);
    let signer = MachOSigner::new(&input).unwrap();
    let mut settings = adhoc_settings();
    settings.set_team_name("ABCDE12345");
    let mut job = signer.begin_slice(&settings, 0, true).unwrap();
    assert_eq!(job.phase(), SlicePhase::Nominal);
    let cms = vec![0x30u8; 100];
    assert_eq!(job.advance(Some(cms.clone())).unwrap(), None);
    assert_eq!(job.phase(), SlicePhase::Final);
    let cd_signed = job.code_directory().clone();
    let out = job.advance(Some(cms.clone())).unwrap().unwrap();
    let out = signer.assemble(&vec![out]).unwrap();

    let blobs = signature_of(&out);
    assert_eq!(blobs[0].1, cd_signed);
    let last = blobs.last().unwrap();
    assert_eq!(last.0, 0x10000);
    assert_eq!(be32(&last.1, 0), 0xfade0b01);
    assert_eq!(&last.1[8..], cms.as_slice());
    let cd = &blobs[0].1;
    assert_eq!(be32(cd, 12) & ADHOC, 0);
    assert!(be32(cd, 8) >= 0x20200);
    let team_off = be32(cd, 48) as usize;
    assert_eq!(&cd[team_off..team_off + 11], b"ABCDE12345\0");
}

#[test]
fn signed_without_cms_is_refused() {
    let input = thin_macho(CPU_TYPE_X86_64, 256, 0, false);
    let signer = MachOSigner::new(&input).unwrap();
    let mut job = signer.begin_slice(&adhoc_settings(), 0, true).unwrap();
    assert_eq!(job.advance(None), Err(AppleCodesignError::NoSigningCertificate));
}

fn fat_of(slices: &[(u32, Vec<u8>)]) -> Vec<u8> {
    let mut out = Vec::new();
    out.extend_from_slice(&0xcafebabeu32.to_be_bytes());
    out.extend_from_slice(&(slices.len() as u32).to_be_bytes());
    let mut offset = 4096usize;
    let mut offsets = Vec::new();
    for (cpu, data) in slices {
        out.extend_from_slice(&cpu.to_be_bytes());
        out.extend_from_slice(&0u32.to_be_bytes());
        out.extend_from_slice(&(offset as u32).to_be_bytes());
        out.extend_from_slice(&(data.len() as u32).to_be_bytes());
        out.extend_from_slice(&12u32.to_be_bytes());
        offsets.push(offset);
        offset = (offset + data.len() + 4095) / 4096 * 4096;
    }
    for ((_, data), off) in slices.iter().zip(offsets) {
        out.resize(off, 0);
        out.extend_from_slice(data);
    }
    out
}

fn entitlements_blob(xml: &str) -> Vec<u8> {
    let mut b = Vec::new();
    b.extend_from_slice(&0xfade7171u32.to_be_bytes());
    b.extend_from_slice(&(8 + xml.len() as u32).to_be_bytes());
    b.extend_from_slice(xml.as_bytes());
    b
}

#[test]
fn fat_with_per_cpu_entitlements() {
    let input = fat_of(&[
        (CPU_TYPE_ARM64, thin_macho(CPU_TYPE_ARM64, 256, 0, false)),
        (CPU_TYPE_X86_64, thin_macho(CPU_TYPE_X86_64, 256, 0, false)),
    ]);
    let signer = MachOSigner::new(&input).unwrap();
    assert!(signer.is_fat());
    assert_eq!(signer.slices().len(), 2);
    let e1 = "<plist><dict><key>arm</key><true/></dict></plist>";
    let e2 = "<plist><dict><key>intel</key><true/></dict></plist>";
    let mut settings = adhoc_settings();
    settings.set_entitlements_xml(SettingsScope::try_from("@[cpu_type=arm64]").unwrap(), e1);
    settings.set_entitlements_xml(SettingsScope::try_from("@[cpu_type=x86_64]").unwrap(), e2);
    let out = signer.sign_ad_hoc(&settings).unwrap();

    assert_eq!(be32(&out, 0), 0xcafebabe);
    assert_eq!(be32(&out, 4), 2);
    for (i, xml) in [e1, e2].iter().enumerate() {
        let rec = 8 + 20 * i;
        let off = be32(&out, rec + 8) as usize;
        let size = be32(&out, rec + 12) as usize;
        assert_eq!(off % 4096, 0);
        assert_eq!(be32(&out, rec + 16), 12);
        let slice = &out[off..off + size];
        let blobs = signature_of(slice);
        let ent = blobs.iter().find(|(slot, _)| *slot == 5).unwrap();
        assert_eq!(ent.1, entitlements_blob(xml));
        let cd = &blobs[0].1;
        let hash_off = be32(cd, 16) as usize;
        assert_eq!(be32(cd, 24), 5);
        let expected = digest(DigestType::Sha256, &entitlements_blob(xml)).unwrap();
        assert_eq!(&cd[hash_off - 5 * 32..hash_off - 4 * 32], expected.as_slice());
    }
    assert_eq!(be32(&out, 8), CPU_TYPE_ARM64);
    assert_eq!(be32(&out, 28), CPU_TYPE_X86_64);
}

#[test]
fn reject_trailing_data() {
    let input = thin_macho(CPU_TYPE_X86_64, 256, 16, false);
    assert_eq!(MachOSigner::new(&input).err(), Some(AppleCodesignError::DataAfterSignature));
}

#[test]
fn reject_misplaced_linkedit() {
    let input = thin_macho(CPU_TYPE_X86_64, 256, 0, true);
    assert_eq!(MachOSigner::new(&input).err(), Some(AppleCodesignError::LinkeditNotLast));
}

#[test]
fn reject_missing_signature_command() {
    let mut input = thin_macho(CPU_TYPE_X86_64, 256, 0, false);
    // Turn the code signature command into an unknown command.
    input[32 + 3 * 72] = 0x7f;
    assert_eq!(MachOSigner::new(&input).err(), Some(AppleCodesignError::BinaryNoCodeSignature));
}

#[test]
fn reject_garbage() {
    assert_eq!(MachOSigner::new(&[1, 2, 3]).err(), Some(AppleCodesignError::MalformedMacho));
}

#[test]
fn placeholder_overflow() {
    let input = thin_macho(CPU_TYPE_X86_64, 256, 0, false);
    let signer = MachOSigner::new(&input).unwrap();
    let mut job = signer.begin_slice(&adhoc_settings(), 0, true).unwrap();
    job.advance(Some(vec![0x30; 100])).unwrap();
    assert_eq!(
        job.advance(Some(vec![0x30; 100 + 2048])),
        Err(AppleCodesignError::SignatureDataTooLarge)
    );
}

#[test]
fn missing_identifier() {
    let input = thin_macho(CPU_TYPE_X86_64, 256, 0, false);
    let signer = MachOSigner::new(&input).unwrap();
    assert_eq!(
        signer.sign_ad_hoc(&SigningSettings::default()).err(),
        Some(AppleCodesignError::NoIdentifier)
    );
}

#[test]
fn identifier_is_inherited() {
    let input = thin_macho(CPU_TYPE_X86_64, 256, 0, false);
    let once = MachOSigner::new(&input).unwrap().sign_ad_hoc(&adhoc_settings()).unwrap();
    let twice = MachOSigner::new(&once).unwrap().sign_ad_hoc(&SigningSettings::default()).unwrap();
    let cd = &signature_of(&twice)[0].1;
    let ident_off = be32(cd, 20) as usize;
    assert_eq!(&cd[ident_off..ident_off + 6], b"a.out\0");
}

#[test]
fn reject_dyld_info_overflow() {
    // A 64-bit header with one LC_DYLD_INFO_ONLY whose export range wraps
    // around 32 bits.
    let mut input = Vec::new();
    input.extend_from_slice(&0xfeedfacfu32.to_le_bytes());
    input.extend_from_slice(&CPU_TYPE_X86_64.to_le_bytes());
    input.extend_from_slice(&3u32.to_le_bytes());
    input.extend_from_slice(&2u32.to_le_bytes());
    input.extend_from_slice(&1u32.to_le_bytes());
    input.extend_from_slice(&48u32.to_le_bytes());
    input.extend_from_slice(&0u32.to_le_bytes());
    input.extend_from_slice(&0u32.to_le_bytes());
    input.extend_from_slice(&0x80000022u32.to_le_bytes());
    input.extend_from_slice(&48u32.to_le_bytes());
    for _ in 0..8 {
        input.extend_from_slice(&0u32.to_le_bytes());
    }
    input.extend_from_slice(&0xfffffff0u32.to_le_bytes());
    input.extend_from_slice(&0x20u32.to_le_bytes());
    input.resize(4096, 0);
    assert_eq!(MachOSigner::new(&input).err(), Some(AppleCodesignError::MalformedMacho));
}
