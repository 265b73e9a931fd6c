//! Package metadata — one lead, one signature header, one main header,
//! always in that order — and the complete package: metadata plus opaque
//! payload bytes.

use vstd::prelude::*;

use crate::RPMError;
use crate::cursor::SeqCursor;
use crate::header::{
    Header, HeaderV, TagDomain, RPMSIGTAG_PGP, RPMSIGTAG_RSA, TYPE_BIN, region_bytes,
    sig_region_bytes, spec_find, spec_parse, spec_parse_sig, spec_signature_header,
    lemma_header_round_trip, lemma_sig_header_round_trip, lemma_region_bytes_len,
};
use crate::lead::{Lead, LeadV, lead_bytes, spec_parse_lead, lemma_lead_round_trip};
use crate::signing::{
    Signing, Verifying, hex_bytes, lemma_hex_bytes_nonzero, md5_digest_parts, md5_of, sha1_digest,
    sha1_of, to_hex,
};

verus! {

/// The metadata of a package file: lead, signature header, main header.
#[derive(Debug, PartialEq)]
pub struct RPMPackageMetadata {
    pub lead: Lead,
    pub signature: Header,
    pub header: Header,
}

/// The mathematical model of package metadata.
#[verifier::ext_equal]
pub ghost struct MetadataV {
    pub lead: LeadV,
    pub signature: HeaderV,
    pub header: HeaderV,
}

impl View for RPMPackageMetadata {
    type V = MetadataV;

    open spec fn view(&self) -> MetadataV {
        MetadataV { lead: self.lead@, signature: self.signature@, header: self.header@ }
    }
}

impl MetadataV {
    pub open spec fn wf(self) -> bool {
        &&& self.lead.wf()
        &&& self.signature.wf()
        &&& self.signature.domain == TagDomain::Signature
        &&& self.header.wf()
        &&& self.header.domain == TagDomain::Main
    }
}

/// The serialized metadata: lead, padded signature header region, main
/// header region, in that fixed order, with nothing in between.
pub open spec fn metadata_bytes(m: MetadataV) -> Seq<u8> {
    lead_bytes(m.lead) + sig_region_bytes(m.signature) + region_bytes(m.header)
}

/// What parsing package metadata at the start of `data` yields: the three
/// blocks in order, or nothing as soon as any stage fails.
pub open spec fn spec_parse_metadata(data: Seq<u8>) -> Option<(MetadataV, int)> {
    match spec_parse_lead(data) {
        None => None,
        Some(lv) => match spec_parse_sig(data.skip(96)) {
            None => None,
            Some((sv, n1)) => match spec_parse(data.skip(96 + n1), TagDomain::Main) {
                None => None,
                Some((hv, n2)) => Some(
                    (MetadataV { lead: lv, signature: sv, header: hv }, 96 + n1 + n2),
                ),
            },
        },
    }
}

impl RPMPackageMetadata {
    pub open spec fn wf(self) -> bool {
        self@.wf()
    }

    /// Decides the metadata invariant at run time.
    pub fn check_wf(&self) -> (b: bool)
        ensures
            b == self.wf(),
    {
        self.lead.check_wf() && self.signature.check_wf() && self.signature.domain
            == TagDomain::Signature && self.header.check_wf() && self.header.domain
            == TagDomain::Main
    }

    /// Parses lead, signature header and main header in order, consuming
    /// their serialized bytes. Any stage failure aborts the whole parse
    /// with a format error: no partial metadata is ever returned.
    pub fn parse(data: &[u8]) -> (r: Result<(RPMPackageMetadata, usize), RPMError>)
        ensures
            match spec_parse_metadata(data@) {
                Some((mv, n)) => r matches Ok(p) && p.0@ == mv && p.0.wf() && p.1 == n,
                None => r matches Err(e) && e == RPMError::Format,
            },
    {
        let (lead, _n0) = match Lead::parse(data) {
            Ok(p) => p,
            Err(e) => {
                return Err(e);
            },
        };
        let rest1 = vstd::slice::slice_subrange(data, 96, data.len());
        proof {
            assert(rest1@ =~= data@.skip(96));
        }
        let (signature, n1) = match Header::parse_signature(rest1) {
            Ok(p) => p,
            Err(e) => {
                return Err(e);
            },
        };
        let at2 = 96 + n1;
        let rest2 = vstd::slice::slice_subrange(data, at2, data.len());
        proof {
            assert(rest2@ =~= data@.skip(96 + n1));
        }
        let (header, n2) = match Header::parse(rest2, TagDomain::Main) {
            Ok(p) => p,
            Err(e) => {
                return Err(e);
            },
        };
        let m = RPMPackageMetadata { lead, signature, header };
        proof {
            assert(m@ =~= spec_parse_metadata(data@)->Some_0.0);
        }
        Ok((m, at2 + n2))
    }

    /// Appends the serialized metadata to `out`: lead, padded signature
    /// header region, main header region.
    pub fn write(&self, out: &mut Vec<u8>)
        requires
            self.wf(),
        ensures
            final(out)@ == old(out)@ + metadata_bytes(self@),
    {
        self.lead.write(out);
        self.signature.write_signature(out);
        self.header.write(out);
        proof {
            assert(out@ =~= old(out)@ + metadata_bytes(self@));
        }
    }
}

/// Round trip: well-formed metadata, serialized and followed by anything,
/// parses back to itself, consuming exactly the serialized bytes.
#[verifier::rlimit(80)]
pub proof fn lemma_metadata_round_trip(m: MetadataV, rest: Seq<u8>)
    requires
        m.wf(),
    ensures
        spec_parse_metadata(metadata_bytes(m) + rest) == Some(
            (m, metadata_bytes(m).len() as int),
        ),
{
    let d = metadata_bytes(m) + rest;
    let sig_tail = sig_region_bytes(m.signature) + (region_bytes(m.header) + rest);
    assert(d =~= lead_bytes(m.lead) + sig_tail);
    lemma_lead_round_trip(m.lead, sig_tail);
    assert(lead_bytes(m.lead).len() == 96);
    assert(d.skip(96) =~= sig_tail);
    lemma_sig_header_round_trip(m.signature, region_bytes(m.header) + rest);
    let n1 = m.signature.region_len() + m.signature.pad_len();
    lemma_region_bytes_len(m.signature);
    assert(sig_region_bytes(m.signature).len() == n1);
    assert(d.skip(96 + n1) =~= region_bytes(m.header) + rest);
    lemma_header_round_trip(m.header, rest);
    lemma_region_bytes_len(m.header);
    assert(spec_parse_metadata(d) == Some((m, metadata_bytes(m).len() as int))) by {
        assert(spec_parse_metadata(d)->Some_0.0 =~= m);
    }
}

/// Truncation safety: no strict prefix of well-formed serialized
/// metadata parses — cutting the bytes anywhere, mid-lead, mid-signature
/// region or mid-header, makes the parse yield nothing, so the exec
/// parser reports a format error and never a partial result.
#[verifier::rlimit(80)]
pub proof fn lemma_metadata_prefix_none(m: MetadataV, k: int)
    requires
        m.wf(),
        0 <= k < metadata_bytes(m).len(),
    ensures
        spec_parse_metadata(metadata_bytes(m).take(k)) is None,
{
    let d = metadata_bytes(m);
    let p = d.take(k);
    let sig_len = m.signature.region_len() + m.signature.pad_len();
    crate::header::lemma_region_bytes_len(m.signature);
    crate::header::lemma_region_bytes_len(m.header);
    assert(lead_bytes(m.lead).len() == 96);
    assert(sig_region_bytes(m.signature).len() == sig_len);
    assert(d.len() == 96 + sig_len + m.header.region_len());
    if k < 96 {
        assert(p.len() < 96);
    } else {
        let tail = sig_region_bytes(m.signature) + region_bytes(m.header);
        let tk = k - 96;
        assert(p =~= lead_bytes(m.lead) + tail.take(tk));
        lemma_lead_round_trip(m.lead, tail.take(tk));
        assert(p.skip(96) =~= tail.take(tk));
        if tk < sig_len {
            assert(tail.take(tk) =~= sig_region_bytes(m.signature).take(tk));
            crate::header::lemma_sig_prefix_none(m.signature, tk);
        } else {
            let hk = tk - sig_len;
            assert(tail.take(tk) =~= sig_region_bytes(m.signature) + region_bytes(
                m.header,
            ).take(hk));
            lemma_sig_header_round_trip(m.signature, region_bytes(m.header).take(hk));
            assert(p.skip(96).skip(sig_len) =~= region_bytes(m.header).take(hk));
            assert(p.skip(96 + sig_len) =~= p.skip(96).skip(sig_len));
            assert(hk < m.header.region_len());
            crate::header::lemma_header_prefix_none(m.header, hk, TagDomain::Main);
        }
    }
}

/// Serializing parsed metadata reproduces the consumed bytes exactly,
/// provided the lead's reserved tail and the signature padding were
/// zero — the only bytes whose content parsing ignores. Every other
/// byte of the lead and both header regions is pinned by the parse.
#[verifier::rlimit(100)]
pub proof fn lemma_parse_metadata_then_serialize(data: Seq<u8>)
    requires
        spec_parse_metadata(data) is Some,
    ensures
        ({
            let (m, n) = spec_parse_metadata(data)->Some_0;
            ((forall|j: int| 80 <= j < 96 ==> data[j] == 0) && (forall|j: int|
                96 + m.signature.region_len() <= j < 96 + m.signature.region_len()
                    + m.signature.pad_len() ==> data[j] == 0)) ==> metadata_bytes(m)
                == data.take(n)
        }),
{
    let (m, n) = spec_parse_metadata(data)->Some_0;
    let lv = spec_parse_lead(data)->Some_0;
    let (sv, n1) = spec_parse_sig(data.skip(96))->Some_0;
    let (hv, n2) = spec_parse(data.skip(96 + n1), TagDomain::Main)->Some_0;
    assert(m.lead == lv && m.signature == sv && m.header == hv && n == 96 + n1 + n2);
    crate::lead::lemma_parse_lead_then_serialize(data);
    crate::header::lemma_parse_sig_then_serialize(data.skip(96));
    crate::header::lemma_parse_then_serialize(data.skip(96 + n1), TagDomain::Main);
    crate::header::lemma_region_bytes_len(sv);
    crate::header::lemma_region_bytes_len(hv);
    assert(n1 == sv.region_len() + sv.pad_len());
    assert(n2 == hv.region_len());
    if (forall|j: int| 80 <= j < 96 ==> data[j] == 0) && (forall|j: int|
        96 + sv.region_len() <= j < 96 + sv.region_len() + sv.pad_len() ==> data[j] == 0) {
        assert forall|j: int| sv.region_len() <= j < n1 implies data.skip(96)[j] == 0 by {
            assert(data.skip(96)[j] == data[96 + j]);
        }
        assert(lead_bytes(lv) == data.take(96));
        assert(sig_region_bytes(sv) == data.skip(96).take(n1));
        assert(region_bytes(hv) == data.skip(96 + n1).take(n2));
        assert(metadata_bytes(m) =~= data.take(n)) by {
            assert forall|j: int| 0 <= j < n implies metadata_bytes(m)[j] == data.take(n)[j] by {
                if j < 96 {
                    assert(metadata_bytes(m)[j] == lead_bytes(lv)[j]);
                    assert(data.take(96)[j] == data[j]);
                } else if j < 96 + n1 {
                    assert(metadata_bytes(m)[j] == sig_region_bytes(sv)[j - 96]);
                    assert(data.skip(96).take(n1)[j - 96] == data[j]);
                } else {
                    assert(metadata_bytes(m)[j] == region_bytes(hv)[j - 96 - n1]);
                    assert(data.skip(96 + n1).take(n2)[j - 96 - n1] == data[j]);
                }
            }
        }
    }
}

/// Round trip for a whole package: the serialized metadata followed by
/// any payload parses back to the same metadata, and everything after
/// the consumed metadata bytes is exactly the payload.
pub proof fn lemma_package_round_trip(m: MetadataV, content: Seq<u8>)
    requires
        m.wf(),
    ensures
        spec_parse_metadata(metadata_bytes(m) + content) == Some(
            (m, metadata_bytes(m).len() as int),
        ),
        (metadata_bytes(m) + content).skip(metadata_bytes(m).len() as int) == content,
{
    lemma_metadata_round_trip(m, content);
    assert((metadata_bytes(m) + content).skip(metadata_bytes(m).len() as int) =~= content);
}

/// A complete package file: metadata plus raw payload bytes, opaque to
/// this library.
#[derive(Debug, PartialEq)]
pub struct RPMPackage {
    pub metadata: RPMPackageMetadata,
    pub content: Vec<u8>,
}

impl RPMPackage {
    pub open spec fn wf(self) -> bool {
        self.metadata.wf()
    }

    /// Parses the metadata, then takes every remaining byte as the opaque
    /// payload.
    pub fn parse(data: &[u8]) -> (r: Result<RPMPackage, RPMError>)
        ensures
            match spec_parse_metadata(data@) {
                Some((mv, n)) => r matches Ok(p) && p.metadata@ == mv && p.wf() && p.content@
                    == data@.skip(n),
                None => r matches Err(e) && e == RPMError::Format,
            },
    {
        let (metadata, n) = match RPMPackageMetadata::parse(data) {
            Ok(p) => p,
            Err(e) => {
                return Err(e);
            },
        };
        let content = vstd::slice::slice_to_vec(
            vstd::slice::slice_subrange(data, n, data.len()),
        );
        proof {
            assert(content@ =~= data@.skip(n as int));
        }
        Ok(RPMPackage { metadata, content })
    }

    /// Appends the serialized package to `out`: metadata, then the
    /// payload bytes verbatim.
    pub fn write(&self, out: &mut Vec<u8>)
        requires
            self.wf(),
        ensures
            final(out)@ == old(out)@ + metadata_bytes(self.metadata@) + self.content@,
    {
        self.metadata.write(out);
        crate::bytes::append_slice(out, self.content.as_slice());
    }

    /// Signs the package: serializes the main header fresh, computes the
    /// MD5 digest over header plus payload and the hex SHA1 digest over
    /// the header alone, obtains two independent backend signatures —
    /// header only, then header plus payload as one logical stream — and
    /// replaces the signature header wholesale. On any failure the prior
    /// signature header is left untouched.
    pub fn sign<S: Signing>(&mut self, signer: &S) -> (r: Result<(), RPMError>)
        requires
            old(self).wf(),
        ensures
            final(self).wf(),
            final(self).metadata.lead@ == old(self).metadata.lead@,
            final(self).metadata.header@ == old(self).metadata.header@,
            final(self).content@ == old(self).content@,
            r matches Ok(()) ==> exists|s1: Seq<u8>, s2: Seq<u8>|
                final(self).metadata.signature@ == #[trigger] spec_signature_header(
                    (region_bytes(old(self).metadata.header@).len() + old(
                        self,
                    ).content@.len()) as u32,
                    md5_of(region_bytes(old(self).metadata.header@) + old(self).content@),
                    hex_bytes(sha1_of(region_bytes(old(self).metadata.header@))),
                    s1,
                    s2,
                ),
            r is Err ==> final(self).metadata.signature@ == old(self).metadata.signature@,
            region_bytes(old(self).metadata.header@).len() + old(self).content@.len()
                > 0xFFFF_FFFF ==> (r matches Err(e) && e == RPMError::Format),
            r matches Err(e) ==> (e == RPMError::Format <==> region_bytes(
                old(self).metadata.header@,
            ).len() + old(self).content@.len() > 0xFFFF_FFFF),
    {
        let mut header_bytes: Vec<u8> = Vec::new();
        self.metadata.header.write(&mut header_bytes);
        proof {
            assert(header_bytes@ =~= region_bytes(self.metadata.header@));
        }
        if header_bytes.len() as u64 > 0xFFFF_FFFF || self.content.len() as u64 > 0xFFFF_FFFF {
            return Err(RPMError::Format);
        }
        let total64: u64 = (header_bytes.len() as u64) + (self.content.len() as u64);
        if total64 > 0xFFFF_FFFF {
            return Err(RPMError::Format);
        }
        let size = total64 as u32;
        let digest_md5 = md5_digest_parts(header_bytes.as_slice(), self.content.as_slice());
        let sha1_raw = sha1_digest(header_bytes.as_slice());
        let sha1_hex = to_hex(sha1_raw.as_slice());
        let s1 = match signer.sign(header_bytes.as_slice()) {
            Ok(v) => v,
            Err(e) => {
                return Err(e);
            },
        };
        let mut segs: Vec<&[u8]> = Vec::new();
        segs.push(header_bytes.as_slice());
        segs.push(self.content.as_slice());
        proof {
            let vs = crate::cursor::seg_views(segs@);
            crate::bytes::lemma_concat_two(vs);
            assert(crate::bytes::concat_seqs(vs).len() == header_bytes@.len()
                + self.content@.len());
        }
        let mut cur = match SeqCursor::new(segs) {
            Ok(c) => c,
            Err(e) => {
                proof {
                    // The logical stream is at most the checked total, so
                    // cursor construction cannot overflow here.
                    assert(false);
                }
                return Err(e);
            },
        };
        let s2 = match signer.sign_stream(&mut cur) {
            Ok(v) => v,
            Err(e) => {
                return Err(e);
            },
        };
        if s1.len() as u64 > 0xFFFF_0000 || s2.len() as u64 > 0xFFFF_0000 {
            return Err(RPMError::Crypto);
        }
        let fits: u64 = (sha1_hex.len() as u64) + (s1.len() as u64) + (s2.len() as u64);
        if fits > 0xFFFF_0000 {
            return Err(RPMError::Crypto);
        }
        let sig = Header::new_signature_header(
            size,
            digest_md5.as_slice(),
            sha1_hex.as_slice(),
            s1.as_slice(),
            s2.as_slice(),
        );
        self.metadata.signature = sig;
        proof {
            assert(self.metadata.signature@ == spec_signature_header(
                (region_bytes(old(self).metadata.header@).len() + old(
                    self,
                ).content@.len()) as u32,
                md5_of(region_bytes(old(self).metadata.header@) + old(self).content@),
                hex_bytes(sha1_of(region_bytes(old(self).metadata.header@))),
                s1@,
                s2@,
            ));
        }
        Ok(())
    }

    /// Verifies the package's signatures: serializes the current main
    /// header fresh, fetches the header-only and header-plus-payload
    /// signatures from the signature header — an absent tag is a
    /// missing-signature error — and asks the backend to verify both
    /// independently, forwarding its first failure.
    pub fn verify_signature<V: Verifying>(&self, verifier: &V) -> (r: Result<(), RPMError>)
        requires
            self.wf(),
        ensures
            spec_find(self.metadata.signature@.entries, RPMSIGTAG_RSA) is None ==> (r matches
            Err(e) && e == RPMError::MissingSignature),
            match spec_find(self.metadata.signature@.entries, RPMSIGTAG_RSA) {
                Some(en) => en.typ != TYPE_BIN ==> (r matches Err(e) && e
                    == RPMError::TypeMismatch),
                None => true,
            },
            match spec_find(self.metadata.signature@.entries, RPMSIGTAG_RSA) {
                Some(en) => if en.typ == TYPE_BIN {
                    match spec_find(self.metadata.signature@.entries, RPMSIGTAG_PGP) {
                        None => (r matches Err(e) && e == RPMError::MissingSignature),
                        Some(en2) => en2.typ != TYPE_BIN ==> (r matches Err(e) && e
                            == RPMError::TypeMismatch),
                    }
                } else {
                    true
                },
                None => true,
            },
            r is Ok ==> (spec_find(self.metadata.signature@.entries, RPMSIGTAG_RSA) matches
                Some(en) && en.typ == TYPE_BIN) && (spec_find(
                self.metadata.signature@.entries,
                RPMSIGTAG_PGP,
            ) matches Some(en2) && en2.typ == TYPE_BIN),
            ((match spec_find(self.metadata.signature@.entries, RPMSIGTAG_RSA) {
                Some(en) => en.typ == TYPE_BIN,
                None => false,
            }) && (match spec_find(self.metadata.signature@.entries, RPMSIGTAG_PGP) {
                Some(en2) => en2.typ == TYPE_BIN,
                None => false,
            })) ==> (r is Ok || (r matches Err(e) && (e == RPMError::Crypto || e == RPMError::Io
                || (e == RPMError::Format && region_bytes(self.metadata.header@).len()
                    + self.content@.len() > usize::MAX)))),
    {
        let mut header_bytes: Vec<u8> = Vec::new();
        self.metadata.header.write(&mut header_bytes);
        let sig_header_only = match self.metadata.signature.get_entry_binary_data(
            RPMSIGTAG_RSA,
        ) {
            Ok(v) => v,
            Err(e) => {
                return Err(
                    match e {
                        RPMError::TagNotFound => RPMError::MissingSignature,
                        other => other,
                    },
                );
            },
        };
        let sig_header_and_content = match self.metadata.signature.get_entry_binary_data(
            RPMSIGTAG_PGP,
        ) {
            Ok(v) => v,
            Err(e) => {
                return Err(
                    match e {
                        RPMError::TagNotFound => RPMError::MissingSignature,
                        other => other,
                    },
                );
            },
        };
        match verifier.verify(header_bytes.as_slice(), sig_header_only.as_slice()) {
            Ok(()) => (),
            Err(e) => {
                return Err(e);
            },
        }
        let mut segs: Vec<&[u8]> = Vec::new();
        segs.push(header_bytes.as_slice());
        segs.push(self.content.as_slice());
        proof {
            let vs = crate::cursor::seg_views(segs@);
            crate::bytes::lemma_concat_two(vs);
            assert(crate::bytes::concat_seqs(vs).len() == header_bytes@.len()
                + self.content@.len());
        }
        let mut cur = match SeqCursor::new(segs) {
            Ok(c) => c,
            Err(e) => {
                return Err(e);
            },
        };
        match verifier.verify_stream(&mut cur, sig_header_and_content.as_slice()) {
            Ok(()) => Ok(()),
            Err(e) => Err(e),
        }
    }
}

/// The digest entries written by signing do not depend on the backend's
/// signature bytes; see `lemma_resign_digests_idempotent` for the general
/// statement over the signature header constructor.
pub proof fn lemma_sign_digests_deterministic(
    header: Seq<u8>,
    content: Seq<u8>,
    s1a: Seq<u8>,
    s2a: Seq<u8>,
    s1b: Seq<u8>,
    s2b: Seq<u8>,
    size: u32,
)
    requires
        md5_of(header + content).len() == 16,
        hex_bytes(sha1_of(header)).len() + s1a.len() + s2a.len() <= 0xFFFF_0000,
        hex_bytes(sha1_of(header)).len() + s1b.len() + s2b.len() <= 0xFFFF_0000,
    ensures
        crate::header::bin_value(
            spec_signature_header(
                size,
                md5_of(header + content),
                hex_bytes(sha1_of(header)),
                s1a,
                s2a,
            ),
            crate::header::RPMSIGTAG_MD5,
        ) == crate::header::bin_value(
            spec_signature_header(
                size,
                md5_of(header + content),
                hex_bytes(sha1_of(header)),
                s1b,
                s2b,
            ),
            crate::header::RPMSIGTAG_MD5,
        ),
        crate::header::string_value(
            spec_signature_header(
                size,
                md5_of(header + content),
                hex_bytes(sha1_of(header)),
                s1a,
                s2a,
            ),
            crate::header::RPMSIGTAG_SHA1,
        ) == crate::header::string_value(
            spec_signature_header(
                size,
                md5_of(header + content),
                hex_bytes(sha1_of(header)),
                s1b,
                s2b,
            ),
            crate::header::RPMSIGTAG_SHA1,
        ),
{
    lemma_hex_bytes_nonzero(sha1_of(header));
    crate::header::lemma_resign_digests_idempotent(
        size,
        md5_of(header + content),
        hex_bytes(sha1_of(header)),
        s1a,
        s2a,
        s1b,
        s2b,
    );
}

} // verus!
