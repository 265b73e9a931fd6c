use sha2::Digest;

use rpm::RPMError;
use rpm::cursor::SeqCursor;
use rpm::header::{
    Entry, Header, TagDomain, RPMSIGTAG_MD5, RPMSIGTAG_SHA1, RPMSIGTAG_SIZE, RPMTAG_EPOCH,
    TYPE_INT32,
};
use rpm::lead::Lead;
use rpm::package::{RPMPackage, RPMPackageMetadata};
use rpm::signing::{Signing, Verifying};

fn fake_signature(key: &[u8], data: &[u8]) -> Vec<u8> {
    let mut h = md5::Md5::default();
    h.update(key);
    h.update(data);
    h.finalize().to_vec()
}

fn read_all(cur: &mut SeqCursor<'_>) -> Vec<u8> {
    let mut all: Vec<u8> = Vec::new();
    loop {
        let part = cur.read(256);
        if part.is_empty() {
            break;
        }
        all.extend_from_slice(&part);
    }
    all
}

struct TestSigner {
    key: Vec<u8>,
}

impl Signing for TestSigner {
    fn sign(&self, data: &[u8]) -> Result<Vec<u8>, RPMError> {
        Ok(fake_signature(&self.key, data))
    }

    fn sign_stream(&self, data: &mut SeqCursor<'_>) -> Result<Vec<u8>, RPMError> {
        let all = read_all(data);
        Ok(fake_signature(&self.key, &all))
    }
}

struct TestVerifier {
    key: Vec<u8>,
}

impl Verifying for TestVerifier {
    fn verify(&self, data: &[u8], signature: &[u8]) -> Result<(), RPMError> {
        if fake_signature(&self.key, data) == signature {
            Ok(())
        } else {
            Err(RPMError::Crypto)
        }
    }

    fn verify_stream(&self, data: &mut SeqCursor<'_>, signature: &[u8]) -> Result<(), RPMError> {
        let all = read_all(data);
        if fake_signature(&self.key, &all) == signature {
            Ok(())
        } else {
            Err(RPMError::Crypto)
        }
    }
}

fn fixture_package() -> RPMPackage {
    let header = Header {
        domain: TagDomain::Main,
        entries: vec![Entry { tag: RPMTAG_EPOCH, typ: TYPE_INT32, offset: 0, count: 1 }],
        store: vec![0, 0, 0, 3],
    };
    let signature = Header { domain: TagDomain::Signature, entries: vec![], store: vec![] };
    RPMPackage {
        metadata: RPMPackageMetadata {
            lead: Lead::new(b"fixture-3.0.0", 0, 1, 1, 5),
            signature,
            header,
        },
        content: vec![10, 20, 30, 40, 50],
    }
}

#[test]
fn sign_then_verify_succeeds() {
    let mut pkg = fixture_package();
    let signer = TestSigner { key: b"secret".to_vec() };
    pkg.sign(&signer).expect("signing succeeds");
    let verifier = TestVerifier { key: b"secret".to_vec() };
    pkg.verify_signature(&verifier).expect("verifies with the same key");
}

#[test]
fn sign_writes_exact_digest_entries() {
    let mut pkg = fixture_package();
    let mut header_bytes: Vec<u8> = Vec::new();
    pkg.metadata.header.write(&mut header_bytes);
    let signer = TestSigner { key: b"k".to_vec() };
    pkg.sign(&signer).expect("signing succeeds");

    let mut md5h = md5::Md5::default();
    md5h.update(&header_bytes);
    md5h.update(&pkg.content);
    let expected_md5 = md5h.finalize().to_vec();
    assert_eq!(
        pkg.metadata.signature.get_entry_binary_data(RPMSIGTAG_MD5).unwrap(),
        expected_md5
    );

    let expected_sha1 = sha1::Sha1::from(&header_bytes).digest().to_string().into_bytes();
    assert_eq!(
        pkg.metadata.signature.get_entry_string_data(RPMSIGTAG_SHA1).unwrap(),
        expected_sha1
    );

    let expected_size = (header_bytes.len() + pkg.content.len()) as u32;
    assert_eq!(
        pkg.metadata.signature.get_entry_u32(RPMSIGTAG_SIZE).unwrap(),
        expected_size
    );
}

#[test]
fn resigning_is_digest_idempotent() {
    let mut pkg = fixture_package();
    let signer = TestSigner { key: b"once".to_vec() };
    pkg.sign(&signer).expect("first signing");
    let md5_1 = pkg.metadata.signature.get_entry_binary_data(RPMSIGTAG_MD5).unwrap();
    let sha1_1 = pkg.metadata.signature.get_entry_string_data(RPMSIGTAG_SHA1).unwrap();
    let size_1 = pkg.metadata.signature.get_entry_u32(RPMSIGTAG_SIZE).unwrap();
    pkg.sign(&signer).expect("second signing");
    let md5_2 = pkg.metadata.signature.get_entry_binary_data(RPMSIGTAG_MD5).unwrap();
    let sha1_2 = pkg.metadata.signature.get_entry_string_data(RPMSIGTAG_SHA1).unwrap();
    let size_2 = pkg.metadata.signature.get_entry_u32(RPMSIGTAG_SIZE).unwrap();
    assert_eq!(md5_1, md5_2);
    assert_eq!(sha1_1, sha1_2);
    assert_eq!(size_1, size_2);
}

#[test]
fn verify_with_wrong_key_is_crypto_error() {
    let mut pkg = fixture_package();
    let signer = TestSigner { key: b"right".to_vec() };
    pkg.sign(&signer).expect("signing succeeds");
    let verifier = TestVerifier { key: b"wrong".to_vec() };
    let e = pkg.verify_signature(&verifier).unwrap_err();
    assert_eq!(e, RPMError::Crypto);
    assert_ne!(e, RPMError::Format);
}

#[test]
fn verify_without_signature_is_missing_signature_error() {
    let pkg = fixture_package();
    let verifier = TestVerifier { key: b"any".to_vec() };
    assert_eq!(pkg.verify_signature(&verifier).unwrap_err(), RPMError::MissingSignature);
}

#[test]
fn signed_package_round_trips_through_bytes() {
    let mut pkg = fixture_package();
    let signer = TestSigner { key: b"rt".to_vec() };
    pkg.sign(&signer).expect("signing succeeds");
    let mut out: Vec<u8> = Vec::new();
    pkg.write(&mut out);
    let parsed = RPMPackage::parse(&out).expect("parses back");
    assert_eq!(parsed, pkg);
    let verifier = TestVerifier { key: b"rt".to_vec() };
    parsed.verify_signature(&verifier).expect("still verifies after round trip");
}
