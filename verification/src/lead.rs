//! The lead: the fixed 96-byte structural block that opens a package
//! file — magic, format version, package type, architecture, name, OS
//! and signature type, then reserved padding.

use vstd::prelude::*;

use crate::RPMError;
use crate::bytes::{
    append_slice, lemma_u16_be_round, push_u16_be, read_u16_be, u16_be_bytes, u16_from_be,
    zero_bytes,
};

verus! {

/// The serialized size of a lead.
pub const LEAD_SIZE: usize = 96;

/// The supported lead format major version.
pub const LEAD_MAJOR: u8 = 3;

/// The lead of a package file. Immutable once parsed or built.
#[derive(Debug, PartialEq)]
pub struct Lead {
    pub major: u8,
    pub minor: u8,
    pub package_type: u16,
    pub arch: u16,
    pub name: Vec<u8>,
    pub os: u16,
    pub signature_type: u16,
}

/// The mathematical model of a lead.
#[verifier::ext_equal]
pub ghost struct LeadV {
    pub major: u8,
    pub minor: u8,
    pub package_type: u16,
    pub arch: u16,
    pub name: Seq<u8>,
    pub os: u16,
    pub signature_type: u16,
}

impl View for Lead {
    type V = LeadV;

    open spec fn view(&self) -> LeadV {
        LeadV {
            major: self.major,
            minor: self.minor,
            package_type: self.package_type,
            arch: self.arch,
            name: self.name@,
            os: self.os,
            signature_type: self.signature_type,
        }
    }
}

impl LeadV {
    /// The lead invariant: the fixed-width name field and the supported
    /// format version.
    pub open spec fn wf(self) -> bool {
        &&& self.name.len() == 66
        &&& self.major == LEAD_MAJOR
    }
}

/// The four magic bytes that open every package file.
pub open spec fn lead_magic() -> Seq<u8> {
    seq![0xedu8, 0xabu8, 0xeeu8, 0xdbu8]
}

/// The 96 serialized bytes of a lead; the reserved tail is zero.
pub open spec fn lead_bytes(lv: LeadV) -> Seq<u8> {
    lead_magic() + seq![lv.major, lv.minor] + u16_be_bytes(lv.package_type) + u16_be_bytes(lv.arch)
        + lv.name + u16_be_bytes(lv.os) + u16_be_bytes(lv.signature_type) + zero_bytes(16)
}

/// What parsing a lead at the start of `data` yields. The magic and the
/// major version must match the known constants; the reserved tail is
/// ignored.
pub open spec fn spec_parse_lead(data: Seq<u8>) -> Option<LeadV> {
    if data.len() < 96 {
        None
    } else if data.subrange(0, 4) != lead_magic() || data[4] != LEAD_MAJOR {
        None
    } else {
        Some(
            LeadV {
                major: data[4],
                minor: data[5],
                package_type: u16_from_be(data.subrange(6, 8)),
                arch: u16_from_be(data.subrange(8, 10)),
                name: data.subrange(10, 76),
                os: u16_from_be(data.subrange(76, 78)),
                signature_type: u16_from_be(data.subrange(78, 80)),
            },
        )
    }
}

impl Lead {
    pub open spec fn wf(self) -> bool {
        self@.wf()
    }

    /// Decides the lead invariant at run time.
    pub fn check_wf(&self) -> (b: bool)
        ensures
            b == self.wf(),
    {
        self.name.len() == 66 && self.major == LEAD_MAJOR
    }

    /// Builds a lead for a package of the given name, NUL-padded into the
    /// fixed 66-byte field.
    pub fn new(name: &[u8], package_type: u16, arch: u16, os: u16, signature_type: u16) -> (l: Lead)
        requires
            name@.len() <= 65,
        ensures
            l.wf(),
            l@.name == name@ + zero_bytes((66 - name@.len()) as nat),
            l@.major == LEAD_MAJOR,
            l@.minor == 0,
            l@.package_type == package_type,
            l@.arch == arch,
            l@.os == os,
            l@.signature_type == signature_type,
    {
        let mut buf: Vec<u8> = Vec::new();
        append_slice(&mut buf, name);
        let mut k: usize = buf.len();
        while k < 66
            invariant
                name@.len() <= k <= 66,
                buf@ == name@ + zero_bytes((k - name@.len()) as nat),
            decreases 66 - k,
        {
            buf.push(0);
            proof {
                assert(buf@ =~= name@ + zero_bytes((k + 1 - name@.len()) as nat));
            }
            k += 1;
        }
        Lead {
            major: LEAD_MAJOR,
            minor: 0,
            package_type,
            arch,
            name: buf,
            os,
            signature_type,
        }
    }

    /// Appends the 96 serialized lead bytes to `out`.
    pub fn write(&self, out: &mut Vec<u8>)
        requires
            self.wf(),
        ensures
            final(out)@ == old(out)@ + lead_bytes(self@),
    {
        out.push(0xed);
        out.push(0xab);
        out.push(0xee);
        out.push(0xdb);
        out.push(self.major);
        out.push(self.minor);
        push_u16_be(out, self.package_type);
        push_u16_be(out, self.arch);
        append_slice(out, self.name.as_slice());
        push_u16_be(out, self.os);
        push_u16_be(out, self.signature_type);
        let mut k: usize = 0;
        let ghost before = out@;
        while k < 16
            invariant
                0 <= k <= 16,
                out@ == before + zero_bytes(k as nat),
            decreases 16 - k,
        {
            out.push(0);
            proof {
                assert(out@ =~= before + zero_bytes((k + 1) as nat));
            }
            k += 1;
        }
        proof {
            assert(out@ =~= old(out)@ + lead_bytes(self@));
        }
    }

    /// Parses the lead at the start of `data`, consuming exactly 96
    /// bytes. Fails with a format error exactly when `data` is shorter or
    /// its magic or version differs from the known constants.
    pub fn parse(data: &[u8]) -> (r: Result<(Lead, usize), RPMError>)
        ensures
            match spec_parse_lead(data@) {
                Some(lv) => r matches Ok(p) && p.0@ == lv && p.0.wf() && p.1 == 96,
                None => r matches Err(e) && e == RPMError::Format,
            },
    {
        if data.len() < 96 {
            return Err(RPMError::Format);
        }
        proof {
            if data@.subrange(0, 4) == lead_magic() {
                assert forall|i: int| 0 <= i < 4 implies data@[i] == lead_magic()[i] by {
                    assert(data@.subrange(0, 4)[i] == data@[i]);
                }
            }
        }
        let magic_ok = data[0] == 0xed && data[1] == 0xab && data[2] == 0xee && data[3] == 0xdb;
        if !magic_ok || data[4] != LEAD_MAJOR {
            return Err(RPMError::Format);
        }
        proof {
            assert(data@.subrange(0, 4) =~= lead_magic());
        }
        let name = vstd::slice::slice_to_vec(vstd::slice::slice_subrange(data, 10, 76));
        let l = Lead {
            major: data[4],
            minor: data[5],
            package_type: read_u16_be(data, 6),
            arch: read_u16_be(data, 8),
            name,
            os: read_u16_be(data, 76),
            signature_type: read_u16_be(data, 78),
        };
        Ok((l, 96))
    }
}

/// Round trip: a well-formed lead, serialized and followed by anything,
/// parses back to itself.
pub proof fn lemma_lead_round_trip(lv: LeadV, rest: Seq<u8>)
    requires
        lv.wf(),
    ensures
        spec_parse_lead(lead_bytes(lv) + rest) == Some(lv),
{
    let d = lead_bytes(lv) + rest;
    assert(lead_bytes(lv).len() == 96);
    assert(d.subrange(0, 4) =~= lead_magic());
    assert(d[4] == lv.major && d[5] == lv.minor);
    assert(d.subrange(6, 8) =~= u16_be_bytes(lv.package_type));
    assert(d.subrange(8, 10) =~= u16_be_bytes(lv.arch));
    assert(d.subrange(10, 76) =~= lv.name);
    assert(d.subrange(76, 78) =~= u16_be_bytes(lv.os));
    assert(d.subrange(78, 80) =~= u16_be_bytes(lv.signature_type));
    lemma_u16_be_round(lv.package_type);
    lemma_u16_be_round(lv.arch);
    lemma_u16_be_round(lv.os);
    lemma_u16_be_round(lv.signature_type);
    assert(spec_parse_lead(d) == Some(lv)) by {
        assert(spec_parse_lead(d)->Some_0 =~= lv);
    }
}

/// Serializing a parsed lead reproduces the consumed 96 bytes exactly,
/// provided the reserved tail bytes were zero — the one part of the
/// lead whose content parsing ignores.
pub proof fn lemma_parse_lead_then_serialize(data: Seq<u8>)
    requires
        spec_parse_lead(data) is Some,
    ensures
        (forall|j: int| 80 <= j < 96 ==> data[j] == 0) ==> lead_bytes(
            spec_parse_lead(data)->Some_0,
        ) == data.take(96),
{
    let lv = spec_parse_lead(data)->Some_0;
    crate::bytes::lemma_u16_be_inverse(data.subrange(6, 8));
    crate::bytes::lemma_u16_be_inverse(data.subrange(8, 10));
    crate::bytes::lemma_u16_be_inverse(data.subrange(76, 78));
    crate::bytes::lemma_u16_be_inverse(data.subrange(78, 80));
    if forall|j: int| 80 <= j < 96 ==> data[j] == 0 {
        assert(lead_bytes(lv) =~= data.take(96));
    }
}

} // verus!
