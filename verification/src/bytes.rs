//! Byte-level helpers shared by the codec: big-endian 32-bit fields and
//! concatenation of byte-sequence lists.

use vstd::prelude::*;

verus! {

/// The four big-endian bytes of a 32-bit value.
pub open spec fn u32_be_bytes(x: u32) -> Seq<u8> {
    seq![(x >> 24) as u8, (x >> 16) as u8, (x >> 8) as u8, x as u8]
}

/// The 32-bit value held by four big-endian bytes.
pub open spec fn u32_from_be(s: Seq<u8>) -> u32
    recommends
        s.len() == 4,
{
    (((s[0] as u32) << 24) | ((s[1] as u32) << 16) | ((s[2] as u32) << 8) | (s[3] as u32)) as u32
}

pub proof fn lemma_u32_be_round(x: u32)
    ensures
        u32_from_be(u32_be_bytes(x)) == x,
{
    assert(((((x >> 24) as u8) as u32) << 24 | (((x >> 16) as u8) as u32) << 16 | (((x >> 8)
        as u8) as u32) << 8 | ((x as u8) as u32)) == x) by (bit_vector);
}

/// Re-encoding the value held by four bytes reproduces those bytes.
pub proof fn lemma_u32_be_inverse(s: Seq<u8>)
    requires
        s.len() == 4,
    ensures
        u32_be_bytes(u32_from_be(s)) == s,
{
    let b0 = s[0];
    let b1 = s[1];
    let b2 = s[2];
    let b3 = s[3];
    let x = u32_from_be(s);
    assert(x == ((b0 as u32) << 24 | (b1 as u32) << 16 | (b2 as u32) << 8 | (b3 as u32)));
    assert((((b0 as u32) << 24 | (b1 as u32) << 16 | (b2 as u32) << 8 | (b3 as u32)) >> 24) as u8
        == b0) by (bit_vector);
    assert((((b0 as u32) << 24 | (b1 as u32) << 16 | (b2 as u32) << 8 | (b3 as u32)) >> 16) as u8
        == b1) by (bit_vector);
    assert((((b0 as u32) << 24 | (b1 as u32) << 16 | (b2 as u32) << 8 | (b3 as u32)) >> 8) as u8
        == b2) by (bit_vector);
    assert(((b0 as u32) << 24 | (b1 as u32) << 16 | (b2 as u32) << 8 | (b3 as u32)) as u8 == b3)
        by (bit_vector);
    assert(u32_be_bytes(x) =~= s);
}

/// Appends the four big-endian bytes of `x` to `out`.
pub fn push_u32_be(out: &mut Vec<u8>, x: u32)
    ensures
        final(out)@ == old(out)@ + u32_be_bytes(x),
{
    out.push((x >> 24) as u8);
    out.push((x >> 16) as u8);
    out.push((x >> 8) as u8);
    out.push(x as u8);
    assert(out@ =~= old(out)@ + u32_be_bytes(x));
}

/// Decodes the four big-endian bytes of `data` starting at `at`.
pub fn read_u32_be(data: &[u8], at: usize) -> (r: u32)
    requires
        at + 4 <= data@.len(),
    ensures
        r == u32_from_be(data@.subrange(at as int, at + 4)),
{
    let b0 = data[at];
    let b1 = data[at + 1];
    let b2 = data[at + 2];
    let b3 = data[at + 3];
    let r: u32 = ((b0 as u32) << 24) | ((b1 as u32) << 16) | ((b2 as u32) << 8) | (b3 as u32);
    proof {
        let s = data@.subrange(at as int, at + 4);
        assert(s[0] == b0 && s[1] == b1 && s[2] == b2 && s[3] == b3);
    }
    r
}

/// The two big-endian bytes of a 16-bit value.
pub open spec fn u16_be_bytes(x: u16) -> Seq<u8> {
    seq![(x >> 8) as u8, x as u8]
}

/// The 16-bit value held by two big-endian bytes.
pub open spec fn u16_from_be(s: Seq<u8>) -> u16
    recommends
        s.len() == 2,
{
    (((s[0] as u16) << 8) | (s[1] as u16)) as u16
}

pub proof fn lemma_u16_be_round(x: u16)
    ensures
        u16_from_be(u16_be_bytes(x)) == x,
{
    assert(((((x >> 8) as u8) as u16) << 8 | ((x as u8) as u16)) == x) by (bit_vector);
}

/// Re-encoding the value held by two bytes reproduces those bytes.
pub proof fn lemma_u16_be_inverse(s: Seq<u8>)
    requires
        s.len() == 2,
    ensures
        u16_be_bytes(u16_from_be(s)) == s,
{
    let b0 = s[0];
    let b1 = s[1];
    let x = u16_from_be(s);
    assert(x == ((b0 as u16) << 8 | (b1 as u16)));
    assert((((b0 as u16) << 8 | (b1 as u16)) >> 8) as u8 == b0) by (bit_vector);
    assert(((b0 as u16) << 8 | (b1 as u16)) as u8 == b1) by (bit_vector);
    assert(u16_be_bytes(x) =~= s);
}

/// Appends the two big-endian bytes of `x` to `out`.
pub fn push_u16_be(out: &mut Vec<u8>, x: u16)
    ensures
        final(out)@ == old(out)@ + u16_be_bytes(x),
{
    out.push((x >> 8) as u8);
    out.push(x as u8);
    assert(out@ =~= old(out)@ + u16_be_bytes(x));
}

/// Decodes the two big-endian bytes of `data` starting at `at`.
pub fn read_u16_be(data: &[u8], at: usize) -> (r: u16)
    requires
        at + 2 <= data@.len(),
    ensures
        r == u16_from_be(data@.subrange(at as int, at + 2)),
{
    let b0 = data[at];
    let b1 = data[at + 1];
    let r: u16 = ((b0 as u16) << 8) | (b1 as u16);
    proof {
        let s = data@.subrange(at as int, at + 2);
        assert(s[0] == b0 && s[1] == b1);
    }
    r
}

/// The concatenation, in order, of a list of byte sequences.
pub open spec fn concat_seqs(s: Seq<Seq<u8>>) -> Seq<u8>
    decreases s.len(),
{
    if s.len() == 0 {
        Seq::empty()
    } else {
        s[0] + concat_seqs(s.skip(1))
    }
}

pub proof fn lemma_concat_push(s: Seq<Seq<u8>>, x: Seq<u8>)
    ensures
        concat_seqs(s.push(x)) == concat_seqs(s) + x,
    decreases s.len(),
{
    if s.len() == 0 {
        reveal_with_fuel(concat_seqs, 3);
        assert(s.push(x).skip(1) =~= Seq::<Seq<u8>>::empty());
        assert(concat_seqs(s.push(x)) =~= concat_seqs(s) + x);
    } else {
        assert(s.push(x)[0] == s[0]);
        assert(s.push(x).skip(1) =~= s.skip(1).push(x));
        lemma_concat_push(s.skip(1), x);
        assert(concat_seqs(s.push(x)) == s[0] + (concat_seqs(s.skip(1)) + x));
        assert(s[0] + (concat_seqs(s.skip(1)) + x) =~= (s[0] + concat_seqs(s.skip(1))) + x);
        assert(concat_seqs(s.push(x)) =~= concat_seqs(s) + x);
    }
}

pub proof fn lemma_concat_fixed_len(s: Seq<Seq<u8>>, w: nat)
    requires
        forall|i: int| 0 <= i < s.len() ==> (#[trigger] s[i]).len() == w,
    ensures
        concat_seqs(s).len() == s.len() * w,
    decreases s.len(),
{
    if s.len() == 0 {
    } else {
        lemma_concat_fixed_len(s.skip(1), w);
        assert(concat_seqs(s).len() == w + (s.len() - 1) * w);
        assert(w + (s.len() - 1) * w == s.len() * w) by (nonlinear_arith);
    }
}

/// Within a concatenation of fixed-width blocks, block `i` sits at offset `w * i`.
pub proof fn lemma_concat_fixed_index(s: Seq<Seq<u8>>, w: nat, i: int)
    requires
        forall|j: int| 0 <= j < s.len() ==> (#[trigger] s[j]).len() == w,
        0 <= i < s.len(),
    ensures
        concat_seqs(s).subrange(w * i, w * i + w) == s[i],
    decreases s.len(),
{
    lemma_concat_fixed_len(s, w);
    assert(w * i + w == (i + 1) * w) by (nonlinear_arith);
    assert((i + 1) * w <= s.len() * w) by (nonlinear_arith)
        requires
            i + 1 <= s.len(),
            w >= 0,
    ;
    if i == 0 {
        assert(concat_seqs(s).subrange(0, w as int) =~= s[0]);
    } else {
        lemma_concat_fixed_index(s.skip(1), w, i - 1);
        assert(w * (i - 1) == w * i - w) by (nonlinear_arith);
        assert(w * (i - 1) + w == w * i) by (nonlinear_arith);
        lemma_concat_fixed_len(s.skip(1), w);
        assert(concat_seqs(s).subrange(w * i, w * i + w) =~= concat_seqs(s.skip(1)).subrange(
            w * i - w,
            w * i,
        ));
        assert(concat_seqs(s).subrange(w * i, w * i + w) =~= s[i]);
    }
}

/// A two-element concatenation is the sum of its parts.
pub proof fn lemma_concat_two(vs: Seq<Seq<u8>>)
    requires
        vs.len() == 2,
    ensures
        concat_seqs(vs) == vs[0] + vs[1],
{
    reveal_with_fuel(concat_seqs, 3);
    assert(vs.skip(1).skip(1) =~= Seq::<Seq<u8>>::empty());
    assert(vs.skip(1)[0] == vs[1]);
    assert(concat_seqs(vs) =~= vs[0] + vs[1]);
}

/// Appends a whole slice to `out`.
pub fn append_slice(out: &mut Vec<u8>, data: &[u8])
    ensures
        final(out)@ == old(out)@ + data@,
{
    let mut k: usize = 0;
    proof {
        assert(out@ =~= old(out)@ + data@.take(0));
    }
    while k < data.len()
        invariant
            0 <= k <= data@.len(),
            out@ == old(out)@ + data@.take(k as int),
        decreases data@.len() - k,
    {
        out.push(data[k]);
        proof {
            assert(out@ =~= old(out)@ + data@.take(k + 1));
        }
        k += 1;
    }
    proof {
        assert(data@.take(data@.len() as int) =~= data@);
    }
}

/// A run of `n` zero bytes.
pub open spec fn zero_bytes(n: nat) -> Seq<u8> {
    Seq::new(n, |i: int| 0u8)
}

} // verus!
