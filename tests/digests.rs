use tugger_apple_codesign::digest::{compute_code_hashes, digest, DigestType};
use tugger_apple_codesign::error::AppleCodesignError;
use tugger_apple_codesign::signing::create_code_directory_hashes_plist;

fn hex(b: &[u8]) -> String {
    b.iter().map(|x| format!("{:02x}", x)).collect()
}

fn base64(b: &[u8]) -> String {
    const A: &[u8] = b"ABCDEFGHIJKLMNOPQRSTUVWXYZabcdefghijklmnopqrstuvwxyz0123456789+/";
    let mut out = String::new();
    for chunk in b.chunks(3) {
        let n = (chunk[0] as u32) << 16
            | (*chunk.get(1).unwrap_or(&0) as u32) << 8
            | *chunk.get(2).unwrap_or(&0) as u32;
        for k in 0..4 {
            if k <= chunk.len() {
                out.push(A[((n >> (18 - 6 * k)) & 63) as usize] as char);
            } else {
                out.push('=');
            }
        }
    }
    out
}

#[test]
fn digests_of_known_input() {
    assert_eq!(
        hex(&digest(DigestType::Sha256, b"abc").unwrap()),
        "ba7816bf8f01cfea414140de5dae2223b00361a396177a9cb410ff61f20015ad"
    );
    assert_eq!(
        hex(&digest(DigestType::Sha1, b"abc").unwrap()),
        "a9993e364706816aba3e25717850c26c9cd0d89d"
    );
    assert_eq!(
        hex(&digest(DigestType::Sha256Truncated, b"abc").unwrap()),
        "ba7816bf8f01cfea414140de5dae2223b00361a3"
    );
    assert_eq!(digest(DigestType::Sha384, b"abc").unwrap().len(), 48);
    assert_eq!(digest(DigestType::Sha512, b"abc").unwrap().len(), 64);
    assert_eq!(digest(DigestType::NoHash, b"abc"), Err(AppleCodesignError::DigestUnsupported));
}

#[test]
fn page_hashes_cover_the_range() {
    let data: Vec<u8> = (0..10000u32).map(|i| (i % 253) as u8).collect();
    let hashes = compute_code_hashes(&data, 9000, 4096, DigestType::Sha256).unwrap();
    assert_eq!(hashes.len(), 3);
    assert_eq!(hashes[0], digest(DigestType::Sha256, &data[0..4096]).unwrap());
    assert_eq!(hashes[1], digest(DigestType::Sha256, &data[4096..8192]).unwrap());
    assert_eq!(hashes[2], digest(DigestType::Sha256, &data[8192..9000]).unwrap());
    assert_eq!(compute_code_hashes(&data, 8192, 4096, DigestType::Sha256).unwrap().len(), 2);
    assert!(compute_code_hashes(&data, 0, 4096, DigestType::Sha256).unwrap().is_empty());
    // Changing one page changes exactly its digest.
    let mut changed = data.clone();
    changed[5000] ^= 1;
    let other = compute_code_hashes(&changed, 9000, 4096, DigestType::Sha256).unwrap();
    assert_eq!(other[0], hashes[0]);
    assert_ne!(other[1], hashes[1]);
    assert_eq!(other[2], hashes[2]);
}

#[test]
fn code_directory_hashes_plist() {
    let cd = vec![0xfa, 0xde, 0x0c, 0x02, 0, 0, 0, 8];
    let xml = create_code_directory_hashes_plist(&vec![cd.clone()], DigestType::Sha256).unwrap();
    let xml = String::from_utf8(xml).unwrap();
    let expected = base64(&digest(DigestType::Sha256, &cd).unwrap());
    assert!(xml.contains("<key>cdhashes</key>"), "{}", xml);
    assert!(xml.contains(&format!("<string>{}</string>", expected)), "{}", xml);
    assert!(xml.contains("<array>"));
}
