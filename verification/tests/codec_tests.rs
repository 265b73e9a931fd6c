use rpm::RPMError;
use rpm::header::{
    Entry, Header, TagDomain, RPMSIGTAG_MD5, RPMSIGTAG_PGP, RPMSIGTAG_RSA, RPMSIGTAG_SHA1,
    RPMSIGTAG_SIZE, RPMTAG_EPOCH, RPMTAG_NAME, TYPE_BIN, TYPE_INT32, TYPE_STRING,
};
use rpm::lead::Lead;
use rpm::package::{RPMPackage, RPMPackageMetadata};

fn fixture_main_header() -> Header {
    // A name entry at store offset 4 and an epoch entry at offset 0:
    // entries sorted by tag, offsets free.
    Header {
        domain: TagDomain::Main,
        entries: vec![
            Entry { tag: RPMTAG_NAME, typ: TYPE_STRING, offset: 4, count: 1 },
            Entry { tag: RPMTAG_EPOCH, typ: TYPE_INT32, offset: 0, count: 1 },
        ],
        store: vec![0, 0, 0, 1, b'f', b'o', b'o', 0],
    }
}

fn fixture_signature_header() -> Header {
    Header::new_signature_header(0, &[0u8; 16], b"0123456789abcdef0123", &[1, 2, 3], &[4, 5, 6])
}

fn fixture_metadata() -> RPMPackageMetadata {
    RPMPackageMetadata {
        lead: Lead::new(b"foo-1.0.0", 0, 1, 1, 5),
        signature: fixture_signature_header(),
        header: fixture_main_header(),
    }
}

#[test]
fn header_round_trip_main_domain() {
    let h = fixture_main_header();
    let mut out: Vec<u8> = Vec::new();
    h.write(&mut out);
    let (parsed, consumed) = Header::parse(&out, TagDomain::Main).expect("parse back");
    assert_eq!(consumed, out.len());
    assert_eq!(parsed, h);
}

#[test]
fn header_round_trip_signature_domain() {
    let h = fixture_signature_header();
    let mut out: Vec<u8> = Vec::new();
    h.write_signature(&mut out);
    assert_eq!(out.len() % 8, 0);
    let (parsed, consumed) = Header::parse_signature(&out).expect("parse back");
    assert_eq!(consumed, out.len());
    assert_eq!(parsed, h);
}

#[test]
fn size_field_recomputed_at_write() {
    let mut h = fixture_main_header();
    let mut out: Vec<u8> = Vec::new();
    h.write(&mut out);
    assert_eq!(&out[8..12], &[0, 0, 0, 2]);
    assert_eq!(&out[12..16], &[0, 0, 0, 8]);
    // Grow the store: the next write must reflect the new exact length.
    h.store.push(0xaa);
    h.store.push(0xbb);
    let mut out2: Vec<u8> = Vec::new();
    h.write(&mut out2);
    assert_eq!(&out2[12..16], &[0, 0, 0, 10]);
    assert_eq!(out2.len(), 16 + 2 * 16 + 10);
}

#[test]
fn truncated_header_is_format_error() {
    let pkg = RPMPackage { metadata: fixture_metadata(), content: vec![9, 9, 9] };
    let mut out: Vec<u8> = Vec::new();
    pkg.write(&mut out);
    // Cut in the middle of the main header: parse must fail with a format
    // error and hand back no partial metadata.
    let cut = out.len() - 10;
    let r = RPMPackageMetadata::parse(&out[..cut]);
    assert_eq!(r.unwrap_err(), RPMError::Format);
}

#[test]
fn bad_magic_is_format_error() {
    let pkg = RPMPackage { metadata: fixture_metadata(), content: vec![] };
    let mut out: Vec<u8> = Vec::new();
    pkg.write(&mut out);
    let mut broken = out.clone();
    broken[0] = 0x00;
    assert_eq!(RPMPackage::parse(&broken).unwrap_err(), RPMError::Format);
    let mut broken2 = out.clone();
    broken2[96] = 0x42;
    assert_eq!(RPMPackage::parse(&broken2).unwrap_err(), RPMError::Format);
}

#[test]
fn unsorted_entries_rejected() {
    let h = Header {
        domain: TagDomain::Main,
        entries: vec![
            Entry { tag: RPMTAG_EPOCH, typ: TYPE_INT32, offset: 0, count: 1 },
            Entry { tag: RPMTAG_NAME, typ: TYPE_STRING, offset: 4, count: 1 },
        ],
        store: vec![0, 0, 0, 1, b'f', 0, 0, 0],
    };
    let mut out: Vec<u8> = Vec::new();
    h.write(&mut out);
    assert_eq!(Header::parse(&out, TagDomain::Main).unwrap_err(), RPMError::Format);
}

#[test]
fn typed_access_and_errors() {
    let h = fixture_main_header();
    assert_eq!(h.get_entry_u32(RPMTAG_EPOCH).unwrap(), 1);
    assert_eq!(h.get_entry_string_data(RPMTAG_NAME).unwrap(), b"foo".to_vec());
    assert_eq!(h.get_entry_u32(9999).unwrap_err(), RPMError::TagNotFound);
    assert_eq!(h.get_entry_u32(RPMTAG_NAME).unwrap_err(), RPMError::TypeMismatch);
    assert_eq!(h.get_entry_binary_data(RPMTAG_EPOCH).unwrap_err(), RPMError::TypeMismatch);
}

#[test]
fn signature_header_constructor_values() {
    let md5 = [7u8; 16];
    let sha1 = b"aaaaaaaaaaaaaaaaaaaaaaaaaaaaaaaaaaaaaaaa";
    let rsa_h = [1u8, 2, 3, 4];
    let rsa_a = [5u8, 6];
    let h = Header::new_signature_header(1234, &md5, sha1, &rsa_h, &rsa_a);
    assert!(h.check_wf());
    assert_eq!(h.get_entry_u32(RPMSIGTAG_SIZE).unwrap(), 1234);
    assert_eq!(h.get_entry_binary_data(RPMSIGTAG_MD5).unwrap(), md5.to_vec());
    assert_eq!(h.get_entry_string_data(RPMSIGTAG_SHA1).unwrap(), sha1.to_vec());
    assert_eq!(h.get_entry_binary_data(RPMSIGTAG_RSA).unwrap(), rsa_h.to_vec());
    assert_eq!(h.get_entry_binary_data(RPMSIGTAG_PGP).unwrap(), rsa_a.to_vec());
}

#[test]
fn fixture_scenario_parse_and_reserialize() {
    let pkg = RPMPackage { metadata: fixture_metadata(), content: vec![0x1f, 0x8b, 0x08, 0x00] };
    let mut out: Vec<u8> = Vec::new();
    pkg.write(&mut out);
    // The preamble magic equals the fixed format constant.
    assert_eq!(&out[0..4], &[0xed, 0xab, 0xee, 0xdb]);
    let parsed = RPMPackage::parse(&out).expect("well-formed fixture parses");
    assert_eq!(parsed.metadata.header.get_entry_u32(RPMTAG_EPOCH).unwrap(), 1);
    assert_eq!(parsed.content, vec![0x1f, 0x8b, 0x08, 0x00]);
    assert!(parsed.metadata.check_wf());
    // Re-serializing reproduces byte-identical preamble and header regions.
    let mut out2: Vec<u8> = Vec::new();
    parsed.write(&mut out2);
    assert_eq!(out, out2);
}
