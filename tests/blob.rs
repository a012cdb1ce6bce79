use tugger_apple_codesign::blob::{blob_to_bytes, create_superblob, parse_superblob};
use tugger_apple_codesign::code_directory::{parse_previous, CodeDirectory};
use tugger_apple_codesign::digest::DigestType;
use tugger_apple_codesign::error::AppleCodesignError;
use tugger_apple_codesign::scope::SettingsScope;
use tugger_apple_codesign::settings::SigningSettings;
use tugger_apple_codesign::signing::create_special_blobs;
use tugger_apple_codesign::signer::{create_fat_binary, MachOSlice};

#[test]
fn blob_header() {
    assert_eq!(blob_to_bytes(0xfade7171, b"ab"), vec![0xfa, 0xde, 0x71, 0x71, 0, 0, 0, 10, b'a', b'b']);
}

#[test]
fn superblob_round_trip() {
    let a = blob_to_bytes(0xfade0c02, &[1, 2, 3]);
    let b = blob_to_bytes(0xfade7171, b"<xml/>");
    let blobs = vec![(0u32, a.clone()), (5u32, b.clone())];
    let sb = create_superblob(0xfade0cc0, &blobs);
    assert_eq!(&sb[0..4], &[0xfa, 0xde, 0x0c, 0xc0]);
    assert_eq!(u32::from_be_bytes(sb[4..8].try_into().unwrap()) as usize, sb.len());
    assert_eq!(u32::from_be_bytes(sb[8..12].try_into().unwrap()), 2);
    // Index: slot 0 at 28 (12 + 2 * 8), slot 5 right after the first blob.
    assert_eq!(u32::from_be_bytes(sb[16..20].try_into().unwrap()), 28);
    assert_eq!(u32::from_be_bytes(sb[24..28].try_into().unwrap()), 28 + a.len() as u32);
    assert_eq!(parse_superblob(&sb).unwrap(), blobs);
    assert_eq!(parse_superblob(&sb[0..20]), Err(AppleCodesignError::MalformedSuperBlob));
    assert_eq!(parse_superblob(&[0u8; 64]), Err(AppleCodesignError::MalformedSuperBlob));
}

fn code_directory(team: Option<&str>, runtime: Option<u32>) -> CodeDirectory {
    let mut cd = CodeDirectory {
        version: 0,
        flags: 0x2,
        code_limit: 5000,
        code_limit_64: None,
        hash_type: DigestType::Sha256,
        hash_size: 32,
        platform: 0,
        page_size_log2: 12,
        exec_seg_flags: None,
        runtime,
        ident: b"com.example".to_vec(),
        team_name: team.map(|t| t.as_bytes().to_vec()),
        special_hashes: vec![vec![7u8; 32], vec![0u8; 32], vec![9u8; 32]],
        code_hashes: vec![vec![1u8; 32], vec![2u8; 32]],
    };
    cd.version = cd.minimum_version_exec();
    cd
}

#[test]
fn code_directory_layout() {
    let cd = code_directory(None, None);
    assert_eq!(cd.version, 0x20001);
    let b = cd.to_blob_bytes().unwrap();
    let be = |o: usize| u32::from_be_bytes(b[o..o + 4].try_into().unwrap());
    assert_eq!(be(0), 0xfade0c02);
    assert_eq!(be(4) as usize, b.len());
    assert_eq!(be(8), 0x20001);
    assert_eq!(be(20), 44);
    assert_eq!(&b[44..56], b"com.example\0");
    assert_eq!(be(16), 56 + 3 * 32);
    assert_eq!(be(24), 3);
    assert_eq!(be(28), 2);
    assert_eq!(be(32), 5000);
    assert_eq!(&b[36..40], &[32, 2, 0, 12]);
    assert_eq!(b.len(), 56 + 5 * 32);
    // Slot 1 sits just before the code digests, slot 3 furthest away.
    assert_eq!(&b[56 + 64..56 + 96], &[7u8; 32]);
    assert_eq!(&b[56..56 + 32], &[9u8; 32]);

    let prev = parse_previous(&b).unwrap();
    assert_eq!(prev.flags, 0x2);
    assert_eq!(prev.ident, b"com.example".to_vec());
    assert_eq!(prev.info_hash, Some(vec![7u8; 32]));
    assert_eq!(prev.resources_hash, Some(vec![9u8; 32]));
    assert_eq!(prev.team_name, None);
    assert_eq!(prev.runtime, None);
}

#[test]
fn code_directory_versions() {
    let cd = code_directory(Some("TEAM"), None);
    assert_eq!(cd.version, 0x20200);
    let b = cd.to_blob_bytes().unwrap();
    let team = u32::from_be_bytes(b[48..52].try_into().unwrap()) as usize;
    assert_eq!(&b[team..team + 5], b"TEAM\0");
    assert_eq!(parse_previous(&b).unwrap().team_name, Some(b"TEAM".to_vec()));

    let cd = code_directory(None, Some(0x0b0000));
    assert_eq!(cd.version, 0x20500);
    let b = cd.to_blob_bytes().unwrap();
    assert_eq!(u32::from_be_bytes(b[20..24].try_into().unwrap()), 96);
    assert_eq!(parse_previous(&b).unwrap().runtime, Some(0x0b0000));

    let mut bad = code_directory(None, None);
    bad.code_hashes.push(vec![1u8; 20]);
    assert_eq!(bad.to_blob_bytes(), Err(AppleCodesignError::MalformedCodeDirectory));
}

#[test]
fn special_blobs_in_slot_order() {
    let mut s = SigningSettings::default();
    assert!(create_special_blobs(&s).unwrap().is_empty());
    s.set_entitlements_xml(SettingsScope::Main, "<x/>");
    let mut req = vec![0xfa, 0xde, 0x0c, 0x00, 0, 0, 0, 16, 0, 0, 0, 1];
    req.extend_from_slice(&[0, 0, 0, 1]);
    s.set_designated_requirement_bytes(SettingsScope::Main, &req).unwrap();
    assert_eq!(s.designated_requirement(&SettingsScope::Main), Some(&vec![vec![0u8, 0, 0, 1]]));
    let blobs = create_special_blobs(&s).unwrap();
    assert_eq!(blobs.len(), 2);
    assert_eq!(blobs[0].0, 2);
    assert_eq!(&blobs[0].1[0..4], &[0xfa, 0xde, 0x0c, 0x01]);
    assert_eq!(&blobs[0].1[12..20], &[0, 0, 0, 3, 0, 0, 0, 20]);
    assert_eq!(&blobs[0].1[20..], &req[..]);
    assert_eq!(blobs[1], (5, blob_to_bytes(0xfade7171, b"<x/>")));
    assert_eq!(
        s.set_designated_requirement_bytes(SettingsScope::Main, &req[0..8]),
        Err(AppleCodesignError::MalformedRequirement)
    );
}

#[test]
fn scope_descriptions() {
    assert_eq!(SettingsScope::Main.description(), "main signing target");
    assert_eq!(SettingsScope::Path("a/b".into()).description(), "path a/b");
    assert_eq!(
        SettingsScope::PathMultiArchIndex("a".into(), 2).description(),
        "fat/universal Mach-O binaries at index 2 under path a"
    );
    assert_eq!(
        SettingsScope::MultiArchCpuType(7).description(),
        "fat/universal Mach-O binaries for CPU 7"
    );
}

#[test]
fn fat_container_layout() {
    let slices = vec![
        MachOSlice { cputype: 7, cpusubtype: 3, offset: 0, size: 0, align: 12 },
        MachOSlice { cputype: 12, cpusubtype: 0, offset: 0, size: 0, align: 14 },
    ];
    let bins = vec![vec![0xaau8; 4096], vec![0xbbu8; 10]];
    let out = create_fat_binary(&slices, &bins).unwrap();
    let be = |o: usize| u32::from_be_bytes(out[o..o + 4].try_into().unwrap());
    assert_eq!(be(0), 0xcafebabe);
    assert_eq!(be(4), 2);
    assert_eq!((be(8), be(12), be(16), be(20), be(24)), (7, 3, 4096, 4096, 12));
    assert_eq!((be(28), be(32), be(36), be(40), be(44)), (12, 0, 8192, 10, 12));
    assert!(out[48..4096].iter().all(|b| *b == 0));
    assert!(out[4096..8192].iter().all(|b| *b == 0xaa));
    assert_eq!(&out[8192..], &[0xbbu8; 10]);
}
