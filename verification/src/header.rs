//! The tag-indexed binary header codec shared by the signature header and
//! the main metadata header.
//!
//! A serialized header region is: an 8-byte preamble (magic and version),
//! a 4-byte index-entry count, a 4-byte store size, the index entries of
//! 16 bytes each in strictly ascending tag order, and the store bytes.
//! The signature header region is additionally padded with zeros to an
//! 8-byte boundary. Unknown tag ids are preserved opaquely: parsing
//! validates types, bounds, alignment and ordering, never the tag ids
//! themselves, so both recognized and vendor tags round-trip unchanged.

use vstd::prelude::*;

use crate::RPMError;
use crate::bytes::{
    concat_seqs, lemma_concat_fixed_index, lemma_concat_fixed_len, lemma_concat_push,
    lemma_u32_be_round, push_u32_be, read_u32_be, u32_be_bytes, u32_from_be, zero_bytes,
};

verus! {

/// Which closed tag enumeration a header's entries are drawn from.
#[derive(Debug, Clone, Copy, PartialEq, Eq, Structural)]
pub enum TagDomain {
    Signature,
    Main,
}

/// Signature-region tag: RSA signature over the serialized main header alone.
pub const RPMSIGTAG_RSA: u32 = 268;

/// Signature-region tag: hex SHA1 digest of the serialized main header.
pub const RPMSIGTAG_SHA1: u32 = 269;

/// Signature-region tag: byte size of main header plus payload.
pub const RPMSIGTAG_SIZE: u32 = 1000;

/// Signature-region tag: RSA signature over main header plus payload.
pub const RPMSIGTAG_PGP: u32 = 1002;

/// Signature-region tag: MD5 digest over main header plus payload.
pub const RPMSIGTAG_MD5: u32 = 1004;

/// Main-metadata tag: package name.
pub const RPMTAG_NAME: u32 = 1000;

/// Main-metadata tag: package version.
pub const RPMTAG_VERSION: u32 = 1001;

/// Main-metadata tag: package release.
pub const RPMTAG_RELEASE: u32 = 1002;

/// Main-metadata tag: package epoch.
pub const RPMTAG_EPOCH: u32 = 1003;

pub const TYPE_NULL: u32 = 0;

pub const TYPE_CHAR: u32 = 1;

pub const TYPE_INT8: u32 = 2;

pub const TYPE_INT16: u32 = 3;

pub const TYPE_INT32: u32 = 4;

pub const TYPE_INT64: u32 = 5;

pub const TYPE_STRING: u32 = 6;

pub const TYPE_BIN: u32 = 7;

pub const TYPE_STRING_ARRAY: u32 = 8;

pub const TYPE_I18NSTRING: u32 = 9;

/// One index entry: a tag id, a value type id, the offset of the value
/// bytes inside the store, and the element count.
#[derive(Debug, Clone, Copy, PartialEq, Eq, Structural)]
pub struct Entry {
    pub tag: u32,
    pub typ: u32,
    pub offset: u32,
    pub count: u32,
}

/// A tag-indexed header: an ordered index over a raw value store.
#[derive(Debug, PartialEq)]
pub struct Header {
    pub domain: TagDomain,
    pub entries: Vec<Entry>,
    pub store: Vec<u8>,
}

/// The mathematical model of a header.
#[verifier::ext_equal]
pub ghost struct HeaderV {
    pub domain: TagDomain,
    pub entries: Seq<Entry>,
    pub store: Seq<u8>,
}

impl View for Header {
    type V = HeaderV;

    open spec fn view(&self) -> HeaderV {
        HeaderV { domain: self.domain, entries: self.entries@, store: self.store@ }
    }
}

/// The byte width of one element of a value type.
pub open spec fn type_width(t: u32) -> nat {
    if t == TYPE_INT16 {
        2
    } else if t == TYPE_INT32 {
        4
    } else if t == TYPE_INT64 {
        8
    } else {
        1
    }
}

/// The types whose store footprint is exactly `count * width` bytes.
pub open spec fn fixed_width_type(t: u32) -> bool {
    t == TYPE_CHAR || t == TYPE_INT8 || t == TYPE_INT16 || t == TYPE_INT32 || t == TYPE_INT64 || t
        == TYPE_BIN
}

/// A single index entry is consistent with a store of `store_len` bytes:
/// recognized type id, offset in bounds, the whole fixed-width footprint in
/// bounds, offset aligned to the type width, and strings with count one.
pub open spec fn entry_wf(e: Entry, store_len: nat) -> bool {
    &&& e.typ <= 9
    &&& e.offset as nat <= store_len
    &&& (fixed_width_type(e.typ) ==> e.offset as nat + e.count as nat * type_width(e.typ)
        <= store_len)
    &&& e.offset as nat % type_width(e.typ) == 0
    &&& (e.typ == TYPE_STRING ==> e.count == 1)
}

/// Entries stand in strictly ascending tag order.
pub open spec fn entries_sorted(es: Seq<Entry>) -> bool {
    forall|i: int, j: int| 0 <= i < j < es.len() ==> #[trigger] es[i].tag < #[trigger] es[j].tag
}

impl HeaderV {
    /// The header invariant: counts fit their 32-bit serialized fields,
    /// entries are sorted, and every entry lies within the store.
    pub open spec fn wf(self) -> bool {
        &&& self.entries.len() <= 0xFFFF_FFFF
        &&& self.store.len() <= 0xFFFF_FFFF
        &&& entries_sorted(self.entries)
        &&& forall|i: int|
            0 <= i < self.entries.len() ==> entry_wf(#[trigger] self.entries[i], self.store.len())
    }

    /// The exact byte length of the serialized header region.
    pub open spec fn region_len(self) -> int {
        16 + 16 * self.entries.len() as int + self.store.len() as int
    }

    /// The zero padding that follows a signature header region.
    pub open spec fn pad_len(self) -> int {
        (8 - self.region_len() % 8) % 8
    }
}

/// The 8-byte header preamble: magic, version, reserved.
pub open spec fn header_magic() -> Seq<u8> {
    seq![0x8eu8, 0xadu8, 0xe8u8, 0x01u8, 0u8, 0u8, 0u8, 0u8]
}

/// The 16 serialized bytes of one index entry.
pub open spec fn entry_bytes(e: Entry) -> Seq<u8> {
    u32_be_bytes(e.tag) + u32_be_bytes(e.typ) + u32_be_bytes(e.offset) + u32_be_bytes(e.count)
}

/// The serialized index region: each entry in order, 16 bytes each.
pub open spec fn entries_bytes(es: Seq<Entry>) -> Seq<u8> {
    concat_seqs(Seq::new(es.len(), |i: int| entry_bytes(es[i])))
}

/// The serialized header region: preamble, counts, index, store.
pub open spec fn region_bytes(hv: HeaderV) -> Seq<u8> {
    header_magic() + u32_be_bytes(hv.entries.len() as u32) + u32_be_bytes(hv.store.len() as u32)
        + entries_bytes(hv.entries) + hv.store
}

/// The serialized signature header region: padded to an 8-byte boundary.
pub open spec fn sig_region_bytes(hv: HeaderV) -> Seq<u8> {
    region_bytes(hv) + zero_bytes(hv.pad_len() as nat)
}

/// The entry decoded from the 16 bytes at `at`.
pub open spec fn decode_entry(data: Seq<u8>, at: int) -> Entry {
    Entry {
        tag: u32_from_be(data.subrange(at, at + 4)),
        typ: u32_from_be(data.subrange(at + 4, at + 8)),
        offset: u32_from_be(data.subrange(at + 8, at + 12)),
        count: u32_from_be(data.subrange(at + 12, at + 16)),
    }
}

/// What parsing a header region at the start of `data` yields: the header
/// and the count of bytes consumed, or nothing when `data` does not begin
/// with a well-formed region.
pub open spec fn spec_parse(data: Seq<u8>, dom: TagDomain) -> Option<(HeaderV, int)> {
    if data.len() < 16 {
        None
    } else if data.subrange(0, 8) != header_magic() {
        None
    } else {
        let ec = u32_from_be(data.subrange(8, 12)) as int;
        let sl = u32_from_be(data.subrange(12, 16)) as int;
        let total = 16 + 16 * ec + sl;
        if data.len() < total {
            None
        } else {
            let es = Seq::new(ec as nat, |i: int| decode_entry(data, 16 + 16 * i));
            let hv = HeaderV { domain: dom, entries: es, store: data.subrange(16 + 16 * ec, total) };
            if entries_sorted(es) && (forall|i: int|
                0 <= i < ec ==> entry_wf(#[trigger] es[i], sl as nat)) {
                Some((hv, total))
            } else {
                None
            }
        }
    }
}

/// What parsing a signature header region yields: the padding after the
/// region is skipped, its content ignored.
pub open spec fn spec_parse_sig(data: Seq<u8>) -> Option<(HeaderV, int)> {
    match spec_parse(data, TagDomain::Signature) {
        Some((hv, n)) => {
            if data.len() >= n + hv.pad_len() {
                Some((hv, n + hv.pad_len()))
            } else {
                None
            }
        },
        None => None,
    }
}

/// The first entry carrying `tag`, in index order.
pub open spec fn spec_find(es: Seq<Entry>, tag: u32) -> Option<Entry>
    decreases es.len(),
{
    if es.len() == 0 {
        None
    } else if es[0].tag == tag {
        Some(es[0])
    } else {
        spec_find(es.skip(1), tag)
    }
}

/// The position of the first NUL byte at or after `off`.
pub open spec fn nul_pos(store: Seq<u8>, off: int) -> Option<int>
    decreases store.len() - off,
{
    if off < 0 || off >= store.len() {
        None
    } else if store[off] == 0 {
        Some(off)
    } else {
        nul_pos(store, off + 1)
    }
}

/// The decoded value of a binary-typed entry.
pub open spec fn bin_value(hv: HeaderV, tag: u32) -> Option<Seq<u8>> {
    match spec_find(hv.entries, tag) {
        Some(e) => if e.typ == TYPE_BIN {
            Some(hv.store.subrange(e.offset as int, e.offset + e.count))
        } else {
            None
        },
        None => None,
    }
}

/// The decoded value of a string-typed entry, NUL excluded.
pub open spec fn string_value(hv: HeaderV, tag: u32) -> Option<Seq<u8>> {
    match spec_find(hv.entries, tag) {
        Some(e) => if e.typ == TYPE_STRING {
            match nul_pos(hv.store, e.offset as int) {
                Some(p) => Some(hv.store.subrange(e.offset as int, p)),
                None => None,
            }
        } else {
            None
        },
        None => None,
    }
}

/// The decoded first element of a 32-bit integer entry.
pub open spec fn u32_value(hv: HeaderV, tag: u32) -> Option<u32> {
    match spec_find(hv.entries, tag) {
        Some(e) => if e.typ == TYPE_INT32 && e.count >= 1 {
            Some(u32_from_be(hv.store.subrange(e.offset as int, e.offset + 4)))
        } else {
            None
        },
        None => None,
    }
}

/// The signature header built from a total size, an MD5 digest, a hex
/// SHA1 digest and the two RSA signatures: exactly the five recognized
/// signature tags, in ascending tag order, over a freshly packed store.
pub open spec fn spec_signature_header(
    size: u32,
    md5: Seq<u8>,
    sha1: Seq<u8>,
    rh: Seq<u8>,
    ra: Seq<u8>,
) -> HeaderV {
    let a = rh.len() as int;
    let b = sha1.len() as int + 1;
    let c = ra.len() as int;
    HeaderV {
        domain: TagDomain::Signature,
        entries: seq![
            Entry { tag: RPMSIGTAG_RSA, typ: TYPE_BIN, offset: 4u32, count: a as u32 },
            Entry { tag: RPMSIGTAG_SHA1, typ: TYPE_STRING, offset: (4 + a) as u32, count: 1u32 },
            Entry { tag: RPMSIGTAG_SIZE, typ: TYPE_INT32, offset: 0u32, count: 1u32 },
            Entry { tag: RPMSIGTAG_PGP, typ: TYPE_BIN, offset: (4 + a + b) as u32, count: c as u32 },
            Entry {
                tag: RPMSIGTAG_MD5,
                typ: TYPE_BIN,
                offset: (4 + a + b + c) as u32,
                count: 16u32,
            },
        ],
        store: u32_be_bytes(size) + rh + sha1 + seq![0u8] + ra + md5,
    }
}

/// The first NUL at or after `off` is the one at `end` when everything
/// before it is non-NUL.
pub proof fn lemma_nul_pos_after(store: Seq<u8>, off: int, end: int)
    requires
        0 <= off <= end < store.len(),
        forall|q: int| off <= q < end ==> store[q] != 0,
        store[end] == 0,
    ensures
        nul_pos(store, off) == Some(end),
    decreases end - off,
{
    if off < end {
        lemma_nul_pos_after(store, off + 1, end);
    }
}

/// An entry found by tag satisfies the per-entry invariant of its header.
pub proof fn lemma_find_wf(es: Seq<Entry>, tag: u32, store_len: nat)
    requires
        forall|i: int| 0 <= i < es.len() ==> entry_wf(#[trigger] es[i], store_len),
    ensures
        match spec_find(es, tag) {
            Some(e) => entry_wf(e, store_len),
            None => true,
        },
    decreases es.len(),
{
    if es.len() > 0 && es[0].tag != tag {
        assert forall|i: int| 0 <= i < es.skip(1).len() implies entry_wf(
            #[trigger] es.skip(1)[i],
            store_len,
        ) by {
            assert(es.skip(1)[i] == es[i + 1]);
        }
        lemma_find_wf(es.skip(1), tag, store_len);
    }
}

/// The serialized region is exactly as long as `region_len` says.
pub proof fn lemma_region_bytes_len(hv: HeaderV)
    ensures
        region_bytes(hv).len() == hv.region_len(),
{
    let blocks = Seq::new(hv.entries.len(), |i: int| entry_bytes(hv.entries[i]));
    assert forall|i: int| 0 <= i < blocks.len() implies (#[trigger] blocks[i]).len() == 16 by {
        assert(entry_bytes(hv.entries[i]).len() == 16);
    }
    lemma_concat_fixed_len(blocks, 16);
    assert(16 * hv.entries.len() == hv.entries.len() * 16) by (nonlinear_arith);
}

impl Header {
    pub open spec fn wf(self) -> bool {
        self@.wf()
    }

    /// Appends the serialized header region to `out`. The entry count and
    /// store size fields are computed from the entries and store being
    /// written, never taken from any stored value.
    pub fn write(&self, out: &mut Vec<u8>)
        requires
            self.wf(),
        ensures
            final(out)@ == old(out)@ + region_bytes(self@),
    {
        out.push(0x8e);
        out.push(0xad);
        out.push(0xe8);
        out.push(0x01);
        out.push(0);
        out.push(0);
        out.push(0);
        out.push(0);
        assert(out@ =~= old(out)@ + header_magic());
        push_u32_be(out, self.entries.len() as u32);
        push_u32_be(out, self.store.len() as u32);
        let ghost pre = old(out)@ + header_magic() + u32_be_bytes(self.entries@.len() as u32)
            + u32_be_bytes(self.store@.len() as u32);
        assert(out@ =~= pre);
        let ghost blocks = Seq::new(self.entries@.len(), |i: int| entry_bytes(self.entries@[i]));
        let mut i: usize = 0;
        proof {
            assert(blocks.take(0) =~= Seq::<Seq<u8>>::empty());
        }
        while i < self.entries.len()
            invariant
                self.wf(),
                0 <= i <= self.entries@.len(),
                blocks == Seq::new(self.entries@.len(), |j: int| entry_bytes(self.entries@[j])),
                pre == old(out)@ + header_magic() + u32_be_bytes(self.entries@.len() as u32)
                    + u32_be_bytes(self.store@.len() as u32),
                out@ == pre + concat_seqs(blocks.take(i as int)),
            decreases self.entries@.len() - i,
        {
            let e = self.entries[i];
            push_u32_be(out, e.tag);
            push_u32_be(out, e.typ);
            push_u32_be(out, e.offset);
            push_u32_be(out, e.count);
            proof {
                lemma_concat_push(blocks.take(i as int), entry_bytes(self.entries@[i as int]));
                assert(blocks.take(i + 1) =~= blocks.take(i as int).push(
                    entry_bytes(self.entries@[i as int]),
                ));
                assert(out@ =~= pre + concat_seqs(blocks.take(i + 1)));
            }
            i += 1;
        }
        proof {
            assert(blocks.take(self.entries@.len() as int) =~= blocks);
        }
        let mut k: usize = 0;
        while k < self.store.len()
            invariant
                0 <= k <= self.store@.len(),
                out@ == pre + concat_seqs(blocks) + self.store@.take(k as int),
                pre == old(out)@ + header_magic() + u32_be_bytes(self.entries@.len() as u32)
                    + u32_be_bytes(self.store@.len() as u32),
                blocks == Seq::new(self.entries@.len(), |j: int| entry_bytes(self.entries@[j])),
            decreases self.store@.len() - k,
        {
            out.push(self.store[k]);
            proof {
                assert(out@ =~= pre + concat_seqs(blocks) + self.store@.take(k + 1));
            }
            k += 1;
        }
        proof {
            assert(self.store@.take(self.store@.len() as int) =~= self.store@);
            assert(out@ =~= old(out)@ + region_bytes(self@));
        }
    }

    /// Appends the serialized signature header region to `out`: the header
    /// region followed by zero padding to an 8-byte boundary.
    pub fn write_signature(&self, out: &mut Vec<u8>)
        requires
            self.wf(),
            self.domain == TagDomain::Signature,
        ensures
            final(out)@ == old(out)@ + sig_region_bytes(self@),
    {
        self.write(out);
        let rl: u64 = 16 + 16 * (self.entries.len() as u64) + (self.store.len() as u64);
        let pad: u64 = (8 - (rl % 8)) % 8;
        assert(pad == self@.pad_len());
        let mut p: u64 = 0;
        while p < pad
            invariant
                0 <= p <= pad,
                pad == self@.pad_len(),
                out@ == old(out)@ + region_bytes(self@) + zero_bytes(p as nat),
            decreases pad - p,
        {
            out.push(0);
            proof {
                assert(out@ =~= old(out)@ + region_bytes(self@) + zero_bytes((p + 1) as nat));
            }
            p += 1;
        }
        proof {
            assert(out@ =~= old(out)@ + sig_region_bytes(self@));
        }
    }

    /// Parses a header region at the start of `data` for the given tag
    /// domain, returning the header and the count of bytes consumed.
    /// Fails with a format error exactly when `data` does not begin with a
    /// well-formed region.
    pub fn parse(data: &[u8], dom: TagDomain) -> (r: Result<(Header, usize), RPMError>)
        ensures
            match spec_parse(data@, dom) {
                Some((hv, n)) => r matches Ok(p) && p.0@ == hv && p.0.wf() && p.1 == n,
                None => r matches Err(e) && e == RPMError::Format,
            },
    {
        if data.len() < 16 {
            return Err(RPMError::Format);
        }
        let magic_ok = data[0] == 0x8e && data[1] == 0xad && data[2] == 0xe8 && data[3] == 0x01
            && data[4] == 0 && data[5] == 0 && data[6] == 0 && data[7] == 0;
        proof {
            if data@.subrange(0, 8) == header_magic() {
                assert forall|i: int| 0 <= i < 8 implies data@[i] == header_magic()[i] by {
                    assert(data@.subrange(0, 8)[i] == data@[i]);
                }
            }
        }
        if !magic_ok {
            proof {
                if data@.subrange(0, 8) == header_magic() {
                    assert(false);
                }
            }
            return Err(RPMError::Format);
        }
        proof {
            assert(data@.subrange(0, 8) =~= header_magic());
        }
        let ec32 = read_u32_be(data, 8);
        let sl32 = read_u32_be(data, 12);
        let ec = ec32 as usize;
        let total64: u64 = 16u64 + 16u64 * (ec32 as u64) + (sl32 as u64);
        if (data.len() as u64) < total64 {
            return Err(RPMError::Format);
        }
        let total = total64 as usize;
        let ghost es = Seq::new(ec as nat, |i: int| decode_entry(data@, 16 + 16 * i));
        let mut entries: Vec<Entry> = Vec::new();
        let mut i: usize = 0;
        while i < ec
            invariant
                ec == ec32,
                total == total64,
                total64 == 16 + 16 * (ec32 as int) + sl32,
                total <= data@.len(),
                16 <= data@.len(),
                data@.subrange(0, 8) == header_magic(),
                ec32 == u32_from_be(data@.subrange(8, 12)),
                sl32 == u32_from_be(data@.subrange(12, 16)),
                es == Seq::new(ec as nat, |j: int| decode_entry(data@, 16 + 16 * j)),
                entries@.len() == i,
                0 <= i <= ec,
                forall|j: int| 0 <= j < i ==> entries@[j] == es[j],
            decreases ec - i,
        {
            let at = 16 + 16 * i;
            let tag = read_u32_be(data, at);
            let typ = read_u32_be(data, at + 4);
            let offset = read_u32_be(data, at + 8);
            let count = read_u32_be(data, at + 12);
            entries.push(Entry { tag, typ, offset, count });
            proof {
                assert(entries@[i as int] == decode_entry(data@, 16 + 16 * (i as int)));
            }
            i += 1;
        }
        let mut v: usize = 0;
        while v < ec
            invariant
                ec == ec32,
                total == total64,
                total64 == 16 + 16 * (ec32 as int) + sl32,
                total <= data@.len(),
                16 <= data@.len(),
                data@.subrange(0, 8) == header_magic(),
                ec32 == u32_from_be(data@.subrange(8, 12)),
                sl32 == u32_from_be(data@.subrange(12, 16)),
                es == Seq::new(ec as nat, |j: int| decode_entry(data@, 16 + 16 * j)),
                entries@.len() == ec,
                0 <= v <= ec,
                forall|j: int| 0 <= j < ec ==> entries@[j] == es[j],
                forall|a: int, b: int|
                    0 <= a < b < v ==> #[trigger] es[a].tag < #[trigger] es[b].tag,
                forall|j: int| 0 <= j < v ==> entry_wf(#[trigger] es[j], sl32 as nat),
            decreases ec - v,
        {
            let e = entries[v];
            if !check_entry(&e, sl32) {
                proof {
                    let spec_es = Seq::new(
                        (u32_from_be(data@.subrange(8, 12)) as int) as nat,
                        |q: int| decode_entry(data@, 16 + 16 * q),
                    );
                    assert(spec_es =~= es);
                    assert(!entry_wf(spec_es[v as int], (u32_from_be(
                        data@.subrange(12, 16),
                    ) as int) as nat));
                }
                return Err(RPMError::Format);
            }
            if v > 0 {
                let prev = entries[v - 1];
                if prev.tag >= e.tag {
                    proof {
                        let spec_es = Seq::new(
                            (u32_from_be(data@.subrange(8, 12)) as int) as nat,
                            |q: int| decode_entry(data@, 16 + 16 * q),
                        );
                        assert(spec_es =~= es);
                        assert(spec_es[v - 1].tag >= spec_es[v as int].tag);
                        assert(!entries_sorted(spec_es));
                    }
                    return Err(RPMError::Format);
                }
            }
            v += 1;
        }
        let idx_end = 16 + 16 * ec;
        let store = vstd::slice::slice_to_vec(vstd::slice::slice_subrange(data, idx_end, total));
        let h = Header { domain: dom, entries, store };
        proof {
            let spec_es = Seq::new(
                (u32_from_be(data@.subrange(8, 12)) as int) as nat,
                |q: int| decode_entry(data@, 16 + 16 * q),
            );
            assert(spec_es =~= es);
            assert(entries_sorted(es));
            assert(h@.entries =~= es);
            assert(h@ =~= HeaderV {
                domain: dom,
                entries: spec_es,
                store: data@.subrange(16 + 16 * (ec as int), total64 as int),
            });
        }
        Ok((h, total))
    }

    /// The first entry carrying `tag`, scanning in index order.
    pub fn find_entry(&self, tag: u32) -> (r: Option<Entry>)
        ensures
            r == spec_find(self.entries@, tag),
    {
        let mut i: usize = 0;
        proof {
            assert(self.entries@.skip(0) =~= self.entries@);
        }
        while i < self.entries.len()
            invariant
                0 <= i <= self.entries@.len(),
                spec_find(self.entries@, tag) == spec_find(self.entries@.skip(i as int), tag),
            decreases self.entries@.len() - i,
        {
            proof {
                assert(self.entries@.skip(i as int).skip(1) =~= self.entries@.skip(i + 1));
            }
            let e = self.entries[i];
            if e.tag == tag {
                return Some(e);
            }
            i += 1;
        }
        None
    }

    /// The raw bytes of the binary-typed entry carrying `tag`.
    pub fn get_entry_binary_data(&self, tag: u32) -> (r: Result<Vec<u8>, RPMError>)
        requires
            self.wf(),
        ensures
            match spec_find(self.entries@, tag) {
                None => r matches Err(e) && e == RPMError::TagNotFound,
                Some(en) => if en.typ == TYPE_BIN {
                    r matches Ok(v) && v@ == self.store@.subrange(
                        en.offset as int,
                        en.offset + en.count,
                    )
                } else {
                    r matches Err(e) && e == RPMError::TypeMismatch
                },
            },
    {
        match self.find_entry(tag) {
            None => Err(RPMError::TagNotFound),
            Some(en) => {
                if en.typ != TYPE_BIN {
                    return Err(RPMError::TypeMismatch);
                }
                proof {
                    lemma_find_wf(self.entries@, tag, self.store@.len());
                }
                let off = en.offset as usize;
                let end = off + (en.count as usize);
                Ok(
                    vstd::slice::slice_to_vec(
                        vstd::slice::slice_subrange(self.store.as_slice(), off, end),
                    ),
                )
            },
        }
    }

    /// The value bytes, NUL excluded, of the string-typed entry carrying
    /// `tag`: the store bytes from its offset up to the first NUL.
    pub fn get_entry_string_data(&self, tag: u32) -> (r: Result<Vec<u8>, RPMError>)
        requires
            self.wf(),
        ensures
            match spec_find(self.entries@, tag) {
                None => r matches Err(e) && e == RPMError::TagNotFound,
                Some(en) => if en.typ != TYPE_STRING {
                    r matches Err(e) && e == RPMError::TypeMismatch
                } else {
                    match nul_pos(self.store@, en.offset as int) {
                        Some(p) => r matches Ok(v) && v@ == self.store@.subrange(
                            en.offset as int,
                            p,
                        ),
                        None => r matches Err(e) && e == RPMError::Format,
                    }
                },
            },
    {
        match self.find_entry(tag) {
            None => Err(RPMError::TagNotFound),
            Some(en) => {
                if en.typ != TYPE_STRING {
                    return Err(RPMError::TypeMismatch);
                }
                proof {
                    lemma_find_wf(self.entries@, tag, self.store@.len());
                }
                let off = en.offset as usize;
                let mut j: usize = off;
                while j < self.store.len()
                    invariant
                        self.wf(),
                        spec_find(self.entries@, tag) == Some(en),
                        en.typ == TYPE_STRING,
                        off == en.offset,
                        off <= j <= self.store@.len(),
                        nul_pos(self.store@, off as int) == nul_pos(self.store@, j as int),
                    decreases self.store@.len() - j,
                {
                    if self.store[j] == 0 {
                        proof {
                            assert(nul_pos(self.store@, j as int) == Some(j as int));
                        }
                        return Ok(
                            vstd::slice::slice_to_vec(
                                vstd::slice::slice_subrange(self.store.as_slice(), off, j),
                            ),
                        );
                    }
                    j += 1;
                }
                Err(RPMError::Format)
            },
        }
    }

    /// The 32-bit value of the integer-typed entry carrying `tag` (its
    /// first element, big-endian). An integer entry with element count
    /// zero is reported as a type mismatch.
    pub fn get_entry_u32(&self, tag: u32) -> (r: Result<u32, RPMError>)
        requires
            self.wf(),
        ensures
            match spec_find(self.entries@, tag) {
                None => r matches Err(e) && e == RPMError::TagNotFound,
                Some(en) => if en.typ == TYPE_INT32 && en.count >= 1 {
                    r matches Ok(v) && v == u32_from_be(
                        self.store@.subrange(en.offset as int, en.offset + 4),
                    )
                } else {
                    r matches Err(e) && e == RPMError::TypeMismatch
                },
            },
    {
        match self.find_entry(tag) {
            None => Err(RPMError::TagNotFound),
            Some(en) => {
                if en.typ != TYPE_INT32 || en.count == 0 {
                    return Err(RPMError::TypeMismatch);
                }
                proof {
                    lemma_find_wf(self.entries@, tag, self.store@.len());
                    assert(en.offset + en.count as nat * 4 <= self.store@.len());
                    assert(en.count as nat * 4 >= 4) by (nonlinear_arith)
                        requires
                            en.count >= 1,
                    ;
                }
                Ok(read_u32_be(self.store.as_slice(), en.offset as usize))
            },
        }
    }

    /// Decides the header invariant at run time, for callers that hold a
    /// header Verus has not seen built.
    pub fn check_wf(&self) -> (b: bool)
        ensures
            b == self.wf(),
    {
        if self.entries.len() as u64 > 0xFFFF_FFFF || self.store.len() as u64 > 0xFFFF_FFFF {
            return false;
        }
        let sl32 = self.store.len() as u32;
        let mut v: usize = 0;
        while v < self.entries.len()
            invariant
                0 <= v <= self.entries@.len(),
                self.entries@.len() <= 0xFFFF_FFFF,
                self.store@.len() <= 0xFFFF_FFFF,
                sl32 == self.store@.len(),
                forall|a: int, b: int|
                    0 <= a < b < v ==> #[trigger] self.entries@[a].tag
                        < #[trigger] self.entries@[b].tag,
                forall|j: int|
                    0 <= j < v ==> entry_wf(#[trigger] self.entries@[j], self.store@.len()),
            decreases self.entries@.len() - v,
        {
            let e = self.entries[v];
            if !check_entry(&e, sl32) {
                return false;
            }
            if v > 0 {
                let prev = self.entries[v - 1];
                if prev.tag >= e.tag {
                    return false;
                }
            }
            v += 1;
        }
        true
    }

    /// Builds a fresh signature header from the total size of main header
    /// plus payload, the MD5 digest over both, the hex SHA1 digest of the
    /// header, and the header-only and header-plus-payload RSA signatures.
    /// The result holds exactly the five recognized signature tags and is
    /// meant to replace any prior signature header wholesale.
    pub fn new_signature_header(
        size: u32,
        digest_md5: &[u8],
        digest_sha1: &[u8],
        rsa_header: &[u8],
        rsa_all: &[u8],
    ) -> (h: Header)
        requires
            digest_md5@.len() == 16,
            digest_sha1@.len() + rsa_header@.len() + rsa_all@.len() <= 0xFFFF_0000,
        ensures
            h@ == spec_signature_header(
                size,
                digest_md5@,
                digest_sha1@,
                rsa_header@,
                rsa_all@,
            ),
            h.wf(),
            h.domain == TagDomain::Signature,
    {
        let ghost sv = spec_signature_header(size, digest_md5@, digest_sha1@, rsa_header@, rsa_all@);
        let mut store: Vec<u8> = Vec::new();
        push_u32_be(&mut store, size);
        crate::bytes::append_slice(&mut store, rsa_header);
        crate::bytes::append_slice(&mut store, digest_sha1);
        store.push(0);
        crate::bytes::append_slice(&mut store, rsa_all);
        crate::bytes::append_slice(&mut store, digest_md5);
        proof {
            assert(store@ =~= sv.store);
        }
        let a = rsa_header.len();
        let b = digest_sha1.len() + 1;
        let c = rsa_all.len();
        let mut entries: Vec<Entry> = Vec::new();
        entries.push(Entry { tag: RPMSIGTAG_RSA, typ: TYPE_BIN, offset: 4, count: a as u32 });
        entries.push(
            Entry { tag: RPMSIGTAG_SHA1, typ: TYPE_STRING, offset: (4 + a) as u32, count: 1 },
        );
        entries.push(Entry { tag: RPMSIGTAG_SIZE, typ: TYPE_INT32, offset: 0, count: 1 });
        entries.push(
            Entry { tag: RPMSIGTAG_PGP, typ: TYPE_BIN, offset: (4 + a + b) as u32, count: c as u32 },
        );
        entries.push(
            Entry { tag: RPMSIGTAG_MD5, typ: TYPE_BIN, offset: (4 + a + b + c) as u32, count: 16 },
        );
        let h = Header { domain: TagDomain::Signature, entries, store };
        proof {
            assert(h@.entries =~= sv.entries);
            assert(h@ =~= sv);
            let es = h@.entries;
            let sl = h@.store.len();
            assert(sl == 4 + a + b + c + 16);
            assert forall|i: int, j: int| 0 <= i < j < es.len() implies #[trigger] es[i].tag
                < #[trigger] es[j].tag by {
                assert(es[0].tag == 268 && es[1].tag == 269 && es[2].tag == 1000 && es[3].tag
                    == 1002 && es[4].tag == 1004);
            }
            assert forall|i: int| 0 <= i < es.len() implies entry_wf(#[trigger] es[i], sl) by {
                assert(es[0].count as nat * 1 == a && es[3].count as nat * 1 == c && es[4].count
                    as nat * 1 == 16) by (nonlinear_arith)
                    requires
                        es[0].count == a as u32,
                        es[3].count == c as u32,
                        es[4].count == 16,
                        a <= 0xFFFF_0000,
                        c <= 0xFFFF_0000,
                ;
                assert(entry_wf(es[0], sl));
                assert(entry_wf(es[1], sl));
                assert(entry_wf(es[2], sl));
                assert(entry_wf(es[3], sl));
                assert(entry_wf(es[4], sl));
            }
        }
        h
    }

    /// Parses a signature header region: a header region in the signature
    /// tag domain followed by padding to an 8-byte boundary, which is
    /// skipped without inspecting its content.
    pub fn parse_signature(data: &[u8]) -> (r: Result<(Header, usize), RPMError>)
        ensures
            match spec_parse_sig(data@) {
                Some((hv, n)) => r matches Ok(p) && p.0@ == hv && p.0.wf() && p.1 == n,
                None => r matches Err(e) && e == RPMError::Format,
            },
    {
        match Header::parse(data, TagDomain::Signature) {
            Err(e) => Err(e),
            Ok((h, n)) => {
                let pad: usize = (8 - (n % 8)) % 8;
                proof {
                    assert(vstd::slice::spec_slice_len(data) == data@.len());
                    assert(pad == h@.pad_len());
                }
                match n.checked_add(pad) {
                    None => Err(RPMError::Format),
                    Some(end) => {
                        if data.len() < end {
                            Err(RPMError::Format)
                        } else {
                            Ok((h, end))
                        }
                    },
                }
            },
        }
    }
}

/// Round trip: any well-formed header, serialized and followed by
/// anything at all, parses back to that same header, consuming exactly
/// the serialized region.
pub proof fn lemma_header_round_trip(hv: HeaderV, rest: Seq<u8>)
    requires
        hv.wf(),
    ensures
        spec_parse(region_bytes(hv) + rest, hv.domain) == Some((hv, hv.region_len())),
{
    let d = region_bytes(hv) + rest;
    let blocks = Seq::new(hv.entries.len(), |i: int| entry_bytes(hv.entries[i]));
    let eb = entries_bytes(hv.entries);
    let ec = hv.entries.len() as int;
    let sl = hv.store.len() as int;
    assert forall|i: int| 0 <= i < blocks.len() implies (#[trigger] blocks[i]).len() == 16 by {
        assert(entry_bytes(hv.entries[i]).len() == 16);
    }
    lemma_concat_fixed_len(blocks, 16);
    assert(16 * ec == ec * 16) by (nonlinear_arith);
    lemma_region_bytes_len(hv);
    assert(d.len() >= 16);
    assert(d.subrange(0, 8) =~= header_magic());
    assert(d.subrange(8, 12) =~= u32_be_bytes(hv.entries.len() as u32));
    assert(d.subrange(12, 16) =~= u32_be_bytes(hv.store.len() as u32));
    lemma_u32_be_round(hv.entries.len() as u32);
    lemma_u32_be_round(hv.store.len() as u32);
    assert(u32_from_be(d.subrange(8, 12)) as int == ec);
    assert(u32_from_be(d.subrange(12, 16)) as int == sl);
    let total = 16 + 16 * ec + sl;
    assert(total == hv.region_len());
    assert(d.len() >= total);
    assert(d.subrange(16, 16 + 16 * ec) =~= eb);
    assert forall|i: int| 0 <= i < ec implies decode_entry(d, 16 + 16 * i) == hv.entries[i] by {
        let e = hv.entries[i];
        lemma_concat_fixed_index(blocks, 16, i);
        assert(eb.subrange(16 * i, 16 * i + 16) == entry_bytes(e));
        let at = 16 + 16 * i;
        assert(d.subrange(at, at + 16) =~= eb.subrange(16 * i, 16 * i + 16));
        assert(entry_bytes(e).len() == 16);
        assert(d.subrange(at, at + 4) =~= entry_bytes(e).subrange(0, 4));
        assert(d.subrange(at + 4, at + 8) =~= entry_bytes(e).subrange(4, 8));
        assert(d.subrange(at + 8, at + 12) =~= entry_bytes(e).subrange(8, 12));
        assert(d.subrange(at + 12, at + 16) =~= entry_bytes(e).subrange(12, 16));
        assert(entry_bytes(e).subrange(0, 4) =~= u32_be_bytes(e.tag));
        assert(entry_bytes(e).subrange(4, 8) =~= u32_be_bytes(e.typ));
        assert(entry_bytes(e).subrange(8, 12) =~= u32_be_bytes(e.offset));
        assert(entry_bytes(e).subrange(12, 16) =~= u32_be_bytes(e.count));
        lemma_u32_be_round(e.tag);
        lemma_u32_be_round(e.typ);
        lemma_u32_be_round(e.offset);
        lemma_u32_be_round(e.count);
    }
    let es = Seq::new(ec as nat, |i: int| decode_entry(d, 16 + 16 * i));
    assert(es =~= hv.entries);
    assert(d.subrange(16 + 16 * ec, total) =~= hv.store);
    assert(entries_sorted(es));
    assert forall|i: int| 0 <= i < ec implies entry_wf(#[trigger] es[i], sl as nat) by {
        assert(es[i] == hv.entries[i]);
    }
    let hv2 = HeaderV { domain: hv.domain, entries: es, store: d.subrange(16 + 16 * ec, total) };
    assert(hv2 =~= hv);
    assert(spec_parse(d, hv.domain) == Some((hv, hv.region_len())));
}

/// Round trip for the padded signature header region.
pub proof fn lemma_sig_header_round_trip(hv: HeaderV, rest: Seq<u8>)
    requires
        hv.wf(),
        hv.domain == TagDomain::Signature,
    ensures
        spec_parse_sig(sig_region_bytes(hv) + rest) == Some(
            (hv, hv.region_len() + hv.pad_len()),
        ),
{
    let d = sig_region_bytes(hv) + rest;
    let pad = zero_bytes(hv.pad_len() as nat);
    assert(d =~= region_bytes(hv) + (pad + rest));
    lemma_header_round_trip(hv, pad + rest);
    lemma_region_bytes_len(hv);
    assert(d.len() >= hv.region_len() + hv.pad_len());
}

/// Truncation safety: no strict prefix of a serialized header region
/// parses — the region's own count and size fields rule it out — so a
/// parse never yields a partially populated header.
pub proof fn lemma_header_prefix_none(hv: HeaderV, k: int, dom: TagDomain)
    requires
        hv.wf(),
        0 <= k < hv.region_len(),
    ensures
        spec_parse(region_bytes(hv).take(k), dom) is None,
{
    lemma_region_bytes_len(hv);
    lemma_size_fields(hv);
    let p = region_bytes(hv).take(k);
    assert(p.len() == k);
    if k >= 16 {
        if p.subrange(0, 8) == header_magic() {
            assert(p.subrange(8, 12) =~= region_bytes(hv).subrange(8, 12));
            assert(p.subrange(12, 16) =~= region_bytes(hv).subrange(12, 16));
            let ec = u32_from_be(p.subrange(8, 12)) as int;
            let sl = u32_from_be(p.subrange(12, 16)) as int;
            assert(ec == hv.entries.len() && sl == hv.store.len());
            assert(p.len() < 16 + 16 * ec + sl);
        }
    }
}

/// Truncation safety for the padded signature region: no strict prefix
/// of it parses as a signature header.
pub proof fn lemma_sig_prefix_none(hv: HeaderV, k: int)
    requires
        hv.wf(),
        hv.domain == TagDomain::Signature,
        0 <= k < hv.region_len() + hv.pad_len(),
    ensures
        spec_parse_sig(sig_region_bytes(hv).take(k)) is None,
{
    lemma_region_bytes_len(hv);
    let p = sig_region_bytes(hv).take(k);
    if k < hv.region_len() {
        assert(p =~= region_bytes(hv).take(k));
        lemma_header_prefix_none(hv, k, TagDomain::Signature);
    } else {
        let partial = zero_bytes((k - hv.region_len()) as nat);
        assert(p =~= region_bytes(hv) + partial);
        lemma_header_round_trip(hv, partial);
        assert(p.len() == k < hv.region_len() + hv.pad_len());
    }
}

/// Serializing a parsed header reproduces the consumed bytes exactly:
/// every byte of a header region is determined by the parsed value.
#[verifier::rlimit(100)]
pub proof fn lemma_parse_then_serialize(data: Seq<u8>, dom: TagDomain)
    requires
        spec_parse(data, dom) is Some,
    ensures
        ({
            let (hv, n) = spec_parse(data, dom)->Some_0;
            region_bytes(hv) == data.take(n)
        }),
{
    let (hv, n) = spec_parse(data, dom)->Some_0;
    let ec = u32_from_be(data.subrange(8, 12)) as int;
    let sl = u32_from_be(data.subrange(12, 16)) as int;
    assert(hv.entries.len() == ec && hv.store.len() == sl);
    assert(n == 16 + 16 * ec + sl && n <= data.len());
    lemma_region_bytes_len(hv);
    let p = data.take(n);
    crate::bytes::lemma_u32_be_inverse(data.subrange(8, 12));
    crate::bytes::lemma_u32_be_inverse(data.subrange(12, 16));
    assert(u32_be_bytes(hv.entries.len() as u32) == data.subrange(8, 12));
    assert(u32_be_bytes(hv.store.len() as u32) == data.subrange(12, 16));
    let blocks = Seq::new(hv.entries.len(), |i: int| entry_bytes(hv.entries[i]));
    assert forall|i: int| 0 <= i < ec implies #[trigger] blocks[i] == data.subrange(
        16 + 16 * i,
        16 + 16 * i + 16,
    ) by {
        let at = 16 + 16 * i;
        assert(16 * i + 16 <= 16 * ec) by (nonlinear_arith)
            requires
                0 <= i < ec,
        ;
        let e = decode_entry(data, at);
        assert(hv.entries[i] == e);
        crate::bytes::lemma_u32_be_inverse(data.subrange(at, at + 4));
        crate::bytes::lemma_u32_be_inverse(data.subrange(at + 4, at + 8));
        crate::bytes::lemma_u32_be_inverse(data.subrange(at + 8, at + 12));
        crate::bytes::lemma_u32_be_inverse(data.subrange(at + 12, at + 16));
        assert(entry_bytes(e) =~= data.subrange(at, at + 16));
    }
    assert forall|i: int| 0 <= i < blocks.len() implies (#[trigger] blocks[i]).len() == 16 by {
        assert(entry_bytes(hv.entries[i]).len() == 16);
    }
    lemma_concat_fixed_len(blocks, 16);
    assert(16 * ec == ec * 16) by (nonlinear_arith);
    assert(entries_bytes(hv.entries) == concat_seqs(blocks)) by {
        assert(Seq::new(hv.entries.len(), |i: int| entry_bytes(hv.entries[i])) =~= blocks);
    }
    assert(concat_seqs(blocks) =~= data.subrange(16, 16 + 16 * ec)) by {
        assert forall|b: int| 0 <= b < 16 * ec implies concat_seqs(blocks)[b] == data.subrange(
            16,
            16 + 16 * ec,
        )[b] by {
            let i = b / 16;
            let o = b % 16;
            assert(b == 16 * i + o && 0 <= o < 16);
            assert(0 <= i < ec) by (nonlinear_arith)
                requires
                    0 <= b < 16 * ec,
                    i == b / 16,
            ;
            lemma_concat_fixed_index(blocks, 16, i);
            assert(concat_seqs(blocks).subrange(16 * i, 16 * i + 16)[o] == concat_seqs(
                blocks,
            )[b]);
            assert(blocks[i][o] == data[16 + b]);
        }
    }
    assert(hv.store == data.subrange(16 + 16 * ec, n));
    assert(region_bytes(hv) =~= p);
}

/// Serializing a parsed signature header reproduces the consumed bytes
/// exactly, provided the skipped padding bytes were zero — the one part
/// of the region whose content parsing ignores.
pub proof fn lemma_parse_sig_then_serialize(data: Seq<u8>)
    requires
        spec_parse_sig(data) is Some,
    ensures
        ({
            let (hv, n) = spec_parse_sig(data)->Some_0;
            (forall|j: int| hv.region_len() <= j < n ==> data[j] == 0) ==> sig_region_bytes(hv)
                == data.take(n)
        }),
{
    let (hv, n) = spec_parse_sig(data)->Some_0;
    let (hv0, rl) = spec_parse(data, TagDomain::Signature)->Some_0;
    assert(hv0 == hv && rl == hv.region_len() && n == rl + hv.pad_len());
    lemma_parse_then_serialize(data, TagDomain::Signature);
    lemma_region_bytes_len(hv);
    if forall|j: int| hv.region_len() <= j < n ==> data[j] == 0 {
        assert(sig_region_bytes(hv) =~= data.take(n)) by {
            assert forall|j: int| 0 <= j < n implies sig_region_bytes(hv)[j] == data[j] by {
                if j < rl {
                    assert(region_bytes(hv)[j] == data.take(rl)[j]);
                } else {
                    assert(sig_region_bytes(hv)[j] == 0);
                    assert(data[j] == 0);
                }
            }
        }
    }
}

/// The store-size field of a serialized header region always equals the
/// exact byte length of the store being written, and the region's total
/// length is exactly the preamble, the index entries and the store: both
/// are functions of the entries and store alone, never of a remembered
/// size.
#[verifier::rlimit(50)]
pub proof fn lemma_size_fields(hv: HeaderV)
    requires
        hv.wf(),
    ensures
        region_bytes(hv).subrange(12, 16) == u32_be_bytes(hv.store.len() as u32),
        u32_from_be(region_bytes(hv).subrange(12, 16)) == hv.store.len(),
        region_bytes(hv).subrange(8, 12) == u32_be_bytes(hv.entries.len() as u32),
        u32_from_be(region_bytes(hv).subrange(8, 12)) == hv.entries.len(),
        region_bytes(hv).len() == 16 + 16 * hv.entries.len() + hv.store.len(),
{
    let blocks = Seq::new(hv.entries.len(), |i: int| entry_bytes(hv.entries[i]));
    assert forall|i: int| 0 <= i < blocks.len() implies (#[trigger] blocks[i]).len() == 16 by {
        assert(entry_bytes(hv.entries[i]).len() == 16);
    }
    lemma_concat_fixed_len(blocks, 16);
    lemma_region_bytes_len(hv);
    assert(region_bytes(hv).subrange(12, 16) =~= u32_be_bytes(hv.store.len() as u32));
    assert(region_bytes(hv).subrange(8, 12) =~= u32_be_bytes(hv.entries.len() as u32));
    lemma_u32_be_round(hv.store.len() as u32);
    lemma_u32_be_round(hv.entries.len() as u32);
}

/// What the five entries of a freshly built signature header decode to:
/// the size, digests and signatures it was built from.
pub proof fn lemma_signature_header_values(
    size: u32,
    md5: Seq<u8>,
    sha1: Seq<u8>,
    rh: Seq<u8>,
    ra: Seq<u8>,
)
    requires
        md5.len() == 16,
        sha1.len() + rh.len() + ra.len() <= 0xFFFF_0000,
        forall|i: int| 0 <= i < sha1.len() ==> sha1[i] != 0,
    ensures
        u32_value(spec_signature_header(size, md5, sha1, rh, ra), RPMSIGTAG_SIZE) == Some(size),
        bin_value(spec_signature_header(size, md5, sha1, rh, ra), RPMSIGTAG_MD5) == Some(md5),
        string_value(spec_signature_header(size, md5, sha1, rh, ra), RPMSIGTAG_SHA1) == Some(sha1),
        bin_value(spec_signature_header(size, md5, sha1, rh, ra), RPMSIGTAG_RSA) == Some(rh),
        bin_value(spec_signature_header(size, md5, sha1, rh, ra), RPMSIGTAG_PGP) == Some(ra),
{
    let hv = spec_signature_header(size, md5, sha1, rh, ra);
    let a = rh.len() as int;
    let b = sha1.len() as int + 1;
    let c = ra.len() as int;
    reveal_with_fuel(spec_find, 6);
    assert(hv.entries.skip(1) =~= hv.entries.subrange(1, 5));
    assert(spec_find(hv.entries, RPMSIGTAG_RSA) == Some(hv.entries[0]));
    assert(spec_find(hv.entries, RPMSIGTAG_SHA1) == Some(hv.entries[1])) by {
        assert(hv.entries.skip(1)[0] == hv.entries[1]);
    }
    assert(spec_find(hv.entries, RPMSIGTAG_SIZE) == Some(hv.entries[2])) by {
        assert(hv.entries.skip(1).skip(1) =~= hv.entries.skip(2));
        assert(hv.entries.skip(1)[0] == hv.entries[1] && hv.entries.skip(2)[0] == hv.entries[2]);
    }
    assert(spec_find(hv.entries, RPMSIGTAG_PGP) == Some(hv.entries[3])) by {
        assert(hv.entries.skip(1).skip(1) =~= hv.entries.skip(2));
        assert(hv.entries.skip(2).skip(1) =~= hv.entries.skip(3));
        assert(hv.entries.skip(1)[0] == hv.entries[1] && hv.entries.skip(2)[0] == hv.entries[2]
            && hv.entries.skip(3)[0] == hv.entries[3]);
    }
    assert(spec_find(hv.entries, RPMSIGTAG_MD5) == Some(hv.entries[4])) by {
        assert(hv.entries.skip(1).skip(1) =~= hv.entries.skip(2));
        assert(hv.entries.skip(2).skip(1) =~= hv.entries.skip(3));
        assert(hv.entries.skip(3).skip(1) =~= hv.entries.skip(4));
        assert(hv.entries.skip(1)[0] == hv.entries[1] && hv.entries.skip(2)[0] == hv.entries[2]
            && hv.entries.skip(3)[0] == hv.entries[3] && hv.entries.skip(4)[0] == hv.entries[4]);
    }
    assert(hv.store.len() == 4 + a + b + c + 16);
    assert(hv.store.subrange(0, 4) =~= u32_be_bytes(size));
    lemma_u32_be_round(size);
    assert(hv.store.subrange(4, 4 + a) =~= rh);
    assert(hv.store.subrange(4 + a, 4 + a + sha1.len()) =~= sha1);
    assert(hv.store[4 + a + sha1.len()] == 0);
    assert forall|q: int| 4 + a <= q < 4 + a + sha1.len() implies hv.store[q] != 0 by {
        assert(hv.store[q] == sha1[q - 4 - a]);
    }
    lemma_nul_pos_after(hv.store, 4 + a, 4 + a + sha1.len() as int);
    assert(hv.store.subrange(4 + a + b, 4 + a + b + c) =~= ra);
    assert(hv.store.subrange(4 + a + b + c, 4 + a + b + c + 16) =~= md5);
}

/// Re-signing is digest-idempotent: two signature headers built over the
/// same size and digests carry identical size, MD5 and SHA1 entries,
/// whatever signature bytes the backend produced each time.
pub proof fn lemma_resign_digests_idempotent(
    size: u32,
    md5: Seq<u8>,
    sha1: Seq<u8>,
    rh1: Seq<u8>,
    ra1: Seq<u8>,
    rh2: Seq<u8>,
    ra2: Seq<u8>,
)
    requires
        md5.len() == 16,
        sha1.len() + rh1.len() + ra1.len() <= 0xFFFF_0000,
        sha1.len() + rh2.len() + ra2.len() <= 0xFFFF_0000,
        forall|i: int| 0 <= i < sha1.len() ==> sha1[i] != 0,
    ensures
        u32_value(spec_signature_header(size, md5, sha1, rh1, ra1), RPMSIGTAG_SIZE) == u32_value(
            spec_signature_header(size, md5, sha1, rh2, ra2),
            RPMSIGTAG_SIZE,
        ),
        bin_value(spec_signature_header(size, md5, sha1, rh1, ra1), RPMSIGTAG_MD5) == bin_value(
            spec_signature_header(size, md5, sha1, rh2, ra2),
            RPMSIGTAG_MD5,
        ),
        string_value(spec_signature_header(size, md5, sha1, rh1, ra1), RPMSIGTAG_SHA1)
            == string_value(spec_signature_header(size, md5, sha1, rh2, ra2), RPMSIGTAG_SHA1),
{
    lemma_signature_header_values(size, md5, sha1, rh1, ra1);
    lemma_signature_header_values(size, md5, sha1, rh2, ra2);
}

/// Whether one index entry is consistent with a store of `store_len` bytes.
fn check_entry(e: &Entry, store_len: u32) -> (b: bool)
    ensures
        b == entry_wf(*e, store_len as nat),
{
    let w: u32 = if e.typ == TYPE_INT16 {
        2
    } else if e.typ == TYPE_INT32 {
        4
    } else if e.typ == TYPE_INT64 {
        8
    } else {
        1
    };
    assert(w as nat == type_width(e.typ));
    let fixed = e.typ == TYPE_CHAR || e.typ == TYPE_INT8 || e.typ == TYPE_INT16 || e.typ
        == TYPE_INT32 || e.typ == TYPE_INT64 || e.typ == TYPE_BIN;
    proof {
        assert((e.count as u64) * (w as u64) <= 0xFFFF_FFFFu64 * 8) by (nonlinear_arith)
            requires
                e.count <= 0xFFFF_FFFFu64,
                w <= 8,
        ;
    }
    let fits = if fixed {
        (e.offset as u64) + (e.count as u64) * (w as u64) <= (store_len as u64)
    } else {
        true
    };
    e.typ <= 9 && e.offset <= store_len && fits && (e.offset % w == 0) && (e.typ != TYPE_STRING
        || e.count == 1)
}

} // verus!
