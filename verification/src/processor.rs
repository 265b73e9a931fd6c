//! Stream processing of packages: one pass over the package bytes that
//! forwards every chunk, on the caller's own chunk boundaries, to every
//! verifier-writer first and then to every destination, and asks each
//! verifier for its judgement once the input is exhausted.

use vstd::prelude::*;

use crate::RPMError;
use crate::bytes::{concat_seqs, lemma_concat_push};
use crate::package::{RPMPackageMetadata, metadata_bytes};

verus! {

/// A plain output destination: accepts streamed bytes and reports how
/// many it accepted.
pub trait ProcessDestination: Sized {
    /// The bytes this sink has accepted so far, in order.
    spec fn accepted(&self) -> Seq<u8>;

    /// Accepts up to `buf.len()` bytes: exactly the reported count of
    /// leading bytes of `buf` is appended to the accepted stream.
    fn write_chunk(&mut self, buf: &[u8]) -> (r: Result<usize, RPMError>)
        ensures
            r matches Ok(n) ==> n <= buf@.len() && final(self).accepted() == old(self).accepted() + buf@.subrange(0, n as int),
    ;
}

/// A verifier-writer: accepts streamed bytes like a destination and,
/// once input is exhausted, judges its accumulated state against the
/// package metadata. Which states verify is the implementation's own
/// decision.
pub trait ProcessVerifier: ProcessDestination {
    /// Called when the input is completely consumed.
    fn verify(&self, metadata: &RPMPackageMetadata) -> Result<(), RPMError>;
}

/// The views of a list of chunks, in order.
pub open spec fn chunk_views(c: Seq<Vec<u8>>) -> Seq<Seq<u8>> {
    Seq::new(c.len(), |i: int| c[i]@)
}

fn vec_elem_mut<T>(v: &mut Vec<T>, i: usize) -> (e: &mut T)
    requires
        i < old(v)@.len(),
    ensures
        *e == old(v)@[i as int],
        final(v)@ == old(v)@.update(i as int, *final(e)),
{
    &mut v[i]
}

/// A fan-out processor over an ordered list of verifier-writers and an
/// ordered list of plain destinations.
pub struct RPMProcessor<V: ProcessVerifier, D: ProcessDestination> {
    verifiers: Vec<V>,
    destinations: Vec<D>,
}

impl<V: ProcessVerifier, D: ProcessDestination> RPMProcessor<V, D> {
    /// The registered verifier-writers, in registration order.
    pub closed spec fn verifiers(&self) -> Seq<V> {
        self.verifiers@
    }

    /// The registered destinations, in registration order.
    pub closed spec fn destinations(&self) -> Seq<D> {
        self.destinations@
    }

    /// An empty processor: no verifiers, no destinations.
    pub fn new() -> (r: Self)
        ensures
            r.verifiers().len() == 0,
            r.destinations().len() == 0,
    {
        RPMProcessor { verifiers: Vec::new(), destinations: Vec::new() }
    }

    /// Registers one more verifier-writer, after the existing ones.
    pub fn add_verifier(self, verifier: V) -> (r: Self)
        ensures
            r.verifiers() == self.verifiers().push(verifier),
            r.destinations() == self.destinations(),
    {
        let mut s = self;
        s.verifiers.push(verifier);
        s
    }

    /// Registers one more destination, after the existing ones.
    pub fn add_destination(self, destination: D) -> (r: Self)
        ensures
            r.destinations() == self.destinations().push(destination),
            r.verifiers() == self.verifiers(),
    {
        let mut s = self;
        s.destinations.push(destination);
        s
    }

    /// Fans one chunk out to every verifier-writer first, then to every
    /// destination, on the chunk's own boundary. A verifier that accepts
    /// less than the whole chunk is an I/O error. The reported count is
    /// the minimum accepted across the destinations — the number of
    /// bytes guaranteed accepted by all sinks, never merely the last
    /// destination's count — or the full length when there is none.
    #[verifier::rlimit(100)]
    pub fn write_chunk(&mut self, buf: &[u8]) -> (r: Result<usize, RPMError>)
        ensures
            final(self).verifiers().len() == old(self).verifiers().len(),
            final(self).destinations().len() == old(self).destinations().len(),
            r matches Ok(n) ==> n <= buf@.len(),
            r matches Ok(n) ==> forall|i: int|
                0 <= i < old(self).verifiers().len() ==> (#[trigger] final(self).verifiers()[i]).accepted() == old(self).verifiers()[i].accepted() + buf@,
            r matches Ok(n) ==> forall|i: int|
                0 <= i < old(self).destinations().len() ==> exists|m: int|
                    n <= m <= buf@.len() && (#[trigger] final(self).destinations()[i]).accepted()
                        == old(self).destinations()[i].accepted() + buf@.subrange(0, m),
            r matches Ok(n) ==> (old(self).destinations().len() == 0 ==> n == buf@.len()),
            r matches Ok(n) ==> (old(self).destinations().len() > 0 ==> exists|i: int|
                0 <= i < old(self).destinations().len() && (#[trigger] final(self).destinations()[i]).accepted() == old(self).destinations()[i].accepted()
                    + buf@.subrange(0, n as int)),
            old(self).verifiers().len() == 0 && old(self).destinations().len() == 0 ==> (r
                matches Ok(n) && n == buf@.len()),
    {
        let mut i: usize = 0;
        while i < self.verifiers.len()
            invariant
                0 <= i <= self.verifiers@.len(),
                self.verifiers@.len() == old(self).verifiers@.len(),
                self.destinations@ == old(self).destinations@,
                forall|j: int|
                    0 <= j < i ==> (#[trigger] self.verifiers@[j]).accepted() == old(self).verifiers@[j].accepted() + buf@,
                forall|j: int|
                    i <= j < self.verifiers@.len() ==> self.verifiers@[j] == old(self).verifiers@[j],
            decreases self.verifiers@.len() - i,
        {
            let e = vec_elem_mut(&mut self.verifiers, i);
            match e.write_chunk(buf) {
                Err(er) => {
                    return Err(er);
                },
                Ok(n) => {
                    if n < buf.len() {
                        return Err(RPMError::Io);
                    }
                    proof {
                        assert(buf@.subrange(0, buf@.len() as int) =~= buf@);
                    }
                },
            }
            i += 1;
        }
        let ghost vsnap = self.verifiers@;
        let mut mn: usize = buf.len();
        let ghost mut wit: int = 0;
        let mut d: usize = 0;
        while d < self.destinations.len()
            invariant
                0 <= d <= self.destinations@.len(),
                self.verifiers@ == vsnap,
                vsnap.len() == old(self).verifiers@.len(),
                self.destinations@.len() == old(self).destinations@.len(),
                mn <= buf@.len(),
                forall|j: int|
                    0 <= j < d ==> exists|m: int|
                        mn <= m <= buf@.len() && (#[trigger] self.destinations@[j]).accepted()
                            == old(self).destinations@[j].accepted() + buf@.subrange(0, m),
                forall|j: int|
                    d <= j < self.destinations@.len() ==> self.destinations@[j] == old(self).destinations@[j],
                d > 0 ==> 0 <= wit < d && self.destinations@[wit].accepted() == old(self).destinations@[wit].accepted() + buf@.subrange(0, mn as int),
                d == 0 ==> mn == buf@.len(),
            decreases self.destinations@.len() - d,
        {
            let e = vec_elem_mut(&mut self.destinations, d);
            match e.write_chunk(buf) {
                Err(er) => {
                    return Err(er);
                },
                Ok(n) => {
                    if n <= mn {
                        mn = n;
                        proof {
                            wit = d as int;
                        }
                    }
                },
            }
            d += 1;
        }
        proof {
            assert forall|j: int| 0 <= j < vsnap.len() implies (#[trigger] vsnap[j]).accepted()
                == old(self).verifiers@[j].accepted() + buf@ by {}
            if self.destinations@.len() > 0 {
                assert(0 <= wit < self.destinations().len() && self.destinations()[wit].accepted()
                    == old(self).destinations()[wit].accepted() + buf@.subrange(0, mn as int));
            }
        }
        Ok(mn)
    }

    /// Asks each verifier-writer, in order, to judge the accumulated
    /// stream against the metadata, stopping at the first failure. With
    /// no registered verifier there is nothing to judge, so it succeeds.
    pub fn verify_all(&self, metadata: &RPMPackageMetadata) -> (r: Result<(), RPMError>)
        ensures
            self.verifiers().len() == 0 ==> r is Ok,
    {
        let mut i: usize = 0;
        while i < self.verifiers.len()
            invariant
                0 <= i <= self.verifiers@.len(),
            decreases self.verifiers@.len() - i,
        {
            match self.verifiers[i].verify(metadata) {
                Ok(()) => (),
                Err(e) => {
                    return Err(e);
                },
            }
            i += 1;
        }
        Ok(())
    }

    /// One pass over a package: writes the serialized metadata, then
    /// every body chunk on its own boundary, through the fan-out — every
    /// verifier-writer before any destination — and finally asks each
    /// verifier for its judgement. On success every sink has accepted
    /// exactly the serialized metadata followed by the whole body, in
    /// order, once. Any sink that accepts less than a whole chunk aborts
    /// with an I/O error.
    pub fn process(&mut self, metadata: &RPMPackageMetadata, chunks: &Vec<Vec<u8>>) -> (r: Result<
        (),
        RPMError,
    >)
        requires
            metadata.wf(),
        ensures
            final(self).verifiers().len() == old(self).verifiers().len(),
            final(self).destinations().len() == old(self).destinations().len(),
            old(self).verifiers().len() == 0 && old(self).destinations().len() == 0 ==> r is Ok,
            r matches Ok(()) ==> {
                &&& forall|i: int|
                    0 <= i < old(self).verifiers().len() ==> (#[trigger] final(self).verifiers()[i]).accepted() == old(self).verifiers()[i].accepted()
                        + metadata_bytes(metadata@) + concat_seqs(chunk_views(chunks@))
                &&& forall|i: int|
                    0 <= i < old(self).destinations().len() ==> (#[trigger] final(self).destinations()[i]).accepted() == old(self).destinations()[i].accepted()
                        + metadata_bytes(metadata@) + concat_seqs(chunk_views(chunks@))
            },
    {
        let mut meta: Vec<u8> = Vec::new();
        metadata.write(&mut meta);
        proof {
            assert(meta@ =~= metadata_bytes(metadata@));
        }
        match self.write_chunk(meta.as_slice()) {
            Err(e) => {
                return Err(e);
            },
            Ok(n) => {
                if n < meta.len() {
                    return Err(RPMError::Io);
                }
                proof {
                    assert(meta@.subrange(0, n as int) =~= meta@);
                    lemma_chunk_step(
                        old(self).verifiers@,
                        old(self).destinations@,
                        self.verifiers@,
                        self.destinations@,
                        meta@,
                        n as int,
                    );
                }
            },
        }
        let ghost mid_v = self.verifiers@;
        let ghost mid_d = self.destinations@;
        let mut k: usize = 0;
        proof {
            assert(chunk_views(chunks@).take(0) =~= Seq::<Seq<u8>>::empty());
            assert forall|i: int| 0 <= i < mid_v.len() implies (#[trigger] mid_v[i]).accepted()
                == old(self).verifiers@[i].accepted() + metadata_bytes(metadata@) + concat_seqs(
                chunk_views(chunks@).take(0),
            ) by {
                assert(mid_v[i].accepted() == old(self).verifiers@[i].accepted() + meta@
                    + Seq::<u8>::empty());
                assert(old(self).verifiers@[i].accepted() + meta@ + Seq::<u8>::empty() =~= old(self).verifiers@[i].accepted() + metadata_bytes(metadata@) + concat_seqs(
                    chunk_views(chunks@).take(0),
                ));
            }
            assert forall|i: int| 0 <= i < mid_d.len() implies (#[trigger] mid_d[i]).accepted()
                == old(self).destinations@[i].accepted() + metadata_bytes(metadata@)
                + concat_seqs(chunk_views(chunks@).take(0)) by {
                assert(mid_d[i].accepted() == old(self).destinations@[i].accepted() + meta@
                    + Seq::<u8>::empty());
                assert(old(self).destinations@[i].accepted() + meta@ + Seq::<u8>::empty() =~= old(self).destinations@[i].accepted() + metadata_bytes(metadata@) + concat_seqs(
                    chunk_views(chunks@).take(0),
                ));
            }
        }
        while k < chunks.len()
            invariant
                0 <= k <= chunks@.len(),
                self.verifiers@.len() == old(self).verifiers@.len(),
                self.destinations@.len() == old(self).destinations@.len(),
                forall|i: int|
                    0 <= i < old(self).verifiers@.len() ==> (#[trigger] self.verifiers@[i]).accepted()
                        == old(self).verifiers@[i].accepted() + metadata_bytes(metadata@)
                        + concat_seqs(chunk_views(chunks@).take(k as int)),
                forall|i: int|
                    0 <= i < old(self).destinations@.len() ==> (#[trigger] self.destinations@[i]).accepted()
                        == old(self).destinations@[i].accepted() + metadata_bytes(metadata@)
                        + concat_seqs(chunk_views(chunks@).take(k as int)),
            decreases chunks@.len() - k,
        {
            let ghost pre_v = self.verifiers@;
            let ghost pre_d = self.destinations@;
            let ck: &Vec<u8> = &chunks[k];
            let r = self.write_chunk(ck.as_slice());
            match r {
                Err(e) => {
                    return Err(e);
                },
                Ok(n) => {
                    if n < ck.len() {
                        return Err(RPMError::Io);
                    }
                    proof {
                        lemma_chunk_step(
                            pre_v,
                            pre_d,
                            self.verifiers@,
                            self.destinations@,
                            ck@,
                            n as int,
                        );
                        lemma_concat_push(
                            chunk_views(chunks@).take(k as int),
                            chunk_views(chunks@)[k as int],
                        );
                        assert(chunk_views(chunks@).take(k + 1) =~= chunk_views(chunks@).take(
                            k as int,
                        ).push(chunk_views(chunks@)[k as int]));
                        assert forall|i: int| 0 <= i < old(self).verifiers@.len() implies (
                        #[trigger] self.verifiers@[i]).accepted() == old(self).verifiers@[i].accepted() + metadata_bytes(metadata@) + concat_seqs(
                            chunk_views(chunks@).take(k + 1),
                        ) by {
                            assert(self.verifiers@[i].accepted() =~= old(self).verifiers@[i].accepted() + metadata_bytes(metadata@) + (concat_seqs(
                                chunk_views(chunks@).take(k as int),
                            ) + ck@));
                            assert(old(self).verifiers@[i].accepted() + metadata_bytes(metadata@)
                                + (concat_seqs(chunk_views(chunks@).take(k as int)) + ck@) =~= old(self).verifiers@[i].accepted() + metadata_bytes(metadata@) + concat_seqs(
                                chunk_views(chunks@).take(k + 1),
                            ));
                        }
                        assert forall|i: int| 0 <= i < old(self).destinations@.len() implies (
                        #[trigger] self.destinations@[i]).accepted() == old(self).destinations@[i].accepted() + metadata_bytes(metadata@) + concat_seqs(
                            chunk_views(chunks@).take(k + 1),
                        ) by {
                            assert(self.destinations@[i].accepted() =~= old(self).destinations@[i].accepted() + metadata_bytes(metadata@) + (
                            concat_seqs(chunk_views(chunks@).take(k as int)) + ck@));
                            assert(old(self).destinations@[i].accepted() + metadata_bytes(
                                metadata@,
                            ) + (concat_seqs(chunk_views(chunks@).take(k as int)) + ck@) =~= old(self).destinations@[i].accepted() + metadata_bytes(metadata@)
                                + concat_seqs(chunk_views(chunks@).take(k + 1)));
                        }
                    }
                },
            }
            k += 1;
        }
        proof {
            assert(chunk_views(chunks@).take(chunks@.len() as int) =~= chunk_views(chunks@));
        }
        match self.verify_all(metadata) {
            Ok(()) => Ok(()),
            Err(e) => Err(e),
        }
    }
}

/// After a fan-out write whose reported minimum equals the whole chunk,
/// every sink has accepted exactly that chunk.
proof fn lemma_chunk_step<V: ProcessVerifier, D: ProcessDestination>(
    pre_v: Seq<V>,
    pre_d: Seq<D>,
    post_v: Seq<V>,
    post_d: Seq<D>,
    buf: Seq<u8>,
    n: int,
)
    requires
        post_v.len() == pre_v.len(),
        post_d.len() == pre_d.len(),
        n == buf.len(),
        forall|i: int|
            0 <= i < pre_v.len() ==> (#[trigger] post_v[i]).accepted() == pre_v[i].accepted()
                + buf,
        forall|i: int|
            0 <= i < pre_d.len() ==> exists|m: int|
                n <= m <= buf.len() && (#[trigger] post_d[i]).accepted() == pre_d[i].accepted()
                    + buf.subrange(0, m),
    ensures
        forall|i: int|
            0 <= i < pre_d.len() ==> (#[trigger] post_d[i]).accepted() == pre_d[i].accepted()
                + buf,
{
    assert forall|i: int| 0 <= i < pre_d.len() implies (#[trigger] post_d[i]).accepted()
        == pre_d[i].accepted() + buf by {
        let m = choose|m: int|
            n <= m <= buf.len() && post_d[i].accepted() == pre_d[i].accepted() + buf.subrange(
                0,
                m,
            );
        assert(buf.subrange(0, m) =~= buf);
    }
}

} // verus!
