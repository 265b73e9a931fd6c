//! A read+seek view that presents an ordered list of byte slices as one
//! logical contiguous stream, without copying any of them.

use vstd::prelude::*;

use crate::RPMError;
use crate::bytes::concat_seqs;

verus! {

/// The views of a list of byte slices, in order.
pub open spec fn seg_views(s: Seq<&[u8]>) -> Seq<Seq<u8>> {
    Seq::new(s.len(), |i: int| s[i]@)
}

/// A cursor over the concatenation of borrowed byte slices.
///
/// It owns no byte data: it tracks a read position and the total logical
/// length of the concatenation, and reads cross segment boundaries
/// transparently, with no gap and no duplication.
pub struct SeqCursor<'a> {
    segments: Vec<&'a [u8]>,
    pos: usize,
    total: usize,
}

impl<'a> SeqCursor<'a> {
    /// The logical stream: the concatenation of the segments, in order.
    pub closed spec fn bytes(&self) -> Seq<u8> {
        concat_seqs(seg_views(self.segments@))
    }

    /// The current read position.
    pub closed spec fn position(&self) -> int {
        self.pos as int
    }

    pub closed spec fn wf(&self) -> bool {
        &&& self.total == self.bytes().len()
        &&& self.pos <= self.total
    }

    /// Builds a cursor positioned at the start. Fails only when the total
    /// logical length would not fit in `usize`.
    pub fn new(segments: Vec<&'a [u8]>) -> (r: Result<SeqCursor<'a>, RPMError>)
        ensures
            match r {
                Ok(c) => c.wf() && c.bytes() == concat_seqs(seg_views(segments@)) && c.position()
                    == 0,
                Err(e) => e == RPMError::Format && concat_seqs(seg_views(segments@)).len()
                    > usize::MAX,
            },
    {
        let mut total: usize = 0;
        let mut i: usize = 0;
        while i < segments.len()
            invariant
                0 <= i <= segments@.len(),
                total == concat_seqs(seg_views(segments@).take(i as int)).len(),
            decreases segments@.len() - i,
        {
            proof {
                let vs = seg_views(segments@);
                assert(vs.take(i + 1) =~= vs.take(i as int).push(segments@[i as int]@));
                crate::bytes::lemma_concat_push(vs.take(i as int), segments@[i as int]@);
            }
            let seg: &[u8] = segments[i];
            match total.checked_add(seg.len()) {
                Some(t) => {
                    total = t;
                },
                None => {
                    proof {
                        let vs = seg_views(segments@);
                        lemma_concat_prefix_len(vs, i + 1);
                    }
                    return Err(RPMError::Format);
                },
            }
            i += 1;
        }
        proof {
            assert(seg_views(segments@).take(segments@.len() as int) =~= seg_views(segments@));
        }
        Ok(SeqCursor { segments, pos: 0, total })
    }

    /// The total logical length of the stream.
    pub fn len(&self) -> (r: usize)
        requires
            self.wf(),
        ensures
            r == self.bytes().len(),
    {
        self.total
    }

    /// The byte at logical offset `j`.
    fn byte_at(&self, j: usize) -> (r: u8)
        requires
            self.wf(),
            j < self.bytes().len(),
        ensures
            r == self.bytes()[j as int],
    {
        let mut k: usize = j;
        let mut i: usize = 0;
        proof {
            assert(seg_views(self.segments@).skip(0) =~= seg_views(self.segments@));
        }
        while i < self.segments.len()
            invariant
                self.wf(),
                0 <= i <= self.segments@.len(),
                k < concat_seqs(seg_views(self.segments@).skip(i as int)).len(),
                concat_seqs(seg_views(self.segments@).skip(i as int))[k as int] == self.bytes()[
                    j as int],
            decreases self.segments@.len() - i,
        {
            proof {
                let vs = seg_views(self.segments@);
                assert(vs.skip(i as int).skip(1) =~= vs.skip(i + 1));
            }
            let seg: &[u8] = self.segments[i];
            if k < seg.len() {
                return seg[k];
            }
            k = k - seg.len();
            i += 1;
        }
        proof {
            assert(seg_views(self.segments@).skip(i as int) =~= Seq::<Seq<u8>>::empty());
            assert(false);
        }
        0
    }

    /// Reads up to `want` bytes from the current position, advancing it.
    /// Returns exactly the next bytes of the stream, in order; returns
    /// fewer than `want` only at the logical end, and none exactly there.
    pub fn read(&mut self, want: usize) -> (r: Vec<u8>)
        requires
            old(self).wf(),
        ensures
            final(self).wf(),
            final(self).bytes() == old(self).bytes(),
            final(self).position() == vstd::math::min(
                old(self).position() + want,
                old(self).bytes().len() as int,
            ),
            r@ == old(self).bytes().subrange(old(self).position(), final(self).position()),
    {
        let mut out: Vec<u8> = Vec::new();
        let mut p: usize = self.pos;
        while out.len() < want && p < self.total
            invariant
                self.wf(),
                self == old(self),
                old(self).position() <= p <= self.total,
                p == old(self).position() + out@.len(),
                out@.len() <= want,
                out@ == self.bytes().subrange(old(self).position(), p as int),
                out@.len() < want || p == vstd::math::min(
                    old(self).position() + want,
                    self.bytes().len() as int,
                ),
            decreases want - out@.len(),
        {
            let b = self.byte_at(p);
            out.push(b);
            p += 1;
            proof {
                assert(out@ =~= self.bytes().subrange(old(self).position(), p as int));
            }
        }
        self.pos = p;
        out
    }

    /// Absolute seek from the start. Fails, changing nothing, when the
    /// target exceeds the total logical length.
    pub fn seek(&mut self, to: usize) -> (r: Result<(), RPMError>)
        requires
            old(self).wf(),
        ensures
            final(self).wf(),
            final(self).bytes() == old(self).bytes(),
            match r {
                Ok(()) => to <= old(self).bytes().len() && final(self).position() == to,
                Err(e) => e == RPMError::Format && to > old(self).bytes().len()
                    && final(self).position() == old(self).position(),
            },
    {
        if to <= self.total {
            self.pos = to;
            Ok(())
        } else {
            Err(RPMError::Format)
        }
    }
}

/// The concatenation of a prefix of a list is never longer than that of
/// the whole list.
proof fn lemma_concat_prefix_len(s: Seq<Seq<u8>>, k: int)
    requires
        0 <= k <= s.len(),
    ensures
        concat_seqs(s.take(k)).len() <= concat_seqs(s).len(),
    decreases s.len(),
{
    if k == 0 {
        assert(s.take(0) =~= Seq::<Seq<u8>>::empty());
    } else {
        assert(s.take(k)[0] == s[0]);
        assert(s.take(k).skip(1) =~= s.skip(1).take(k - 1));
        lemma_concat_prefix_len(s.skip(1), k - 1);
    }
}

} // verus!
