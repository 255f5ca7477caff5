//! A chunked streaming byte sink.
//!
//! Accepts writes of arbitrary length, in order, and repackages them into an
//! ordered sequence of buffers of a fixed size, so the whole output never
//! needs one contiguous allocation. The chunk sequence becomes available only
//! through an explicit [`ChunkedStreamWriter::finalize`], which flushes any
//! partial buffer; consuming the writer makes further writes impossible.

use vstd::prelude::*;
use vstd::slice::slice_subrange;

verus! {

/// The concatenation of a sequence of byte buffers, first buffer first.
pub open spec fn concat_chunks(cs: Seq<Seq<u8>>) -> Seq<u8>
    decreases cs.len(),
{
    if cs.len() == 0 {
        Seq::empty()
    } else {
        cs.first() + concat_chunks(cs.drop_first())
    }
}

/// The canonical chunking of `b` into pieces of `size` bytes: every piece has
/// exactly `size` bytes except the last, which has between 1 and `size`; an
/// empty input has no pieces at all.
pub open spec fn chunks_of(b: Seq<u8>, size: nat) -> Seq<Seq<u8>>
    decreases b.len(),
    when size > 0
{
    if b.len() == 0 {
        Seq::empty()
    } else if b.len() <= size {
        seq![b]
    } else {
        seq![b.take(size as int)] + chunks_of(b.skip(size as int), size)
    }
}

proof fn lemma_concat_cons(c: Seq<u8>, rest: Seq<Seq<u8>>)
    ensures
        concat_chunks(seq![c] + rest) == c + concat_chunks(rest),
{
    let cs = seq![c] + rest;
    assert(cs.len() == 1 + rest.len());
    assert(cs.first() == c);
    assert(cs.drop_first() =~= rest);
    assert(concat_chunks(cs) == cs.first() + concat_chunks(cs.drop_first()));
}

proof fn lemma_concat_push(cs: Seq<Seq<u8>>, c: Seq<u8>)
    ensures
        concat_chunks(cs.push(c)) == concat_chunks(cs) + c,
    decreases cs.len(),
{
    if cs.len() == 0 {
        assert(cs.push(c) =~= seq![c] + Seq::<Seq<u8>>::empty());
        lemma_concat_cons(c, Seq::empty());
        assert(concat_chunks(Seq::<Seq<u8>>::empty()) == Seq::<u8>::empty());
        assert(concat_chunks(cs) == Seq::<u8>::empty());
        assert(c + Seq::<u8>::empty() =~= Seq::<u8>::empty() + c);
    } else {
        let h = cs.first();
        let t = cs.drop_first();
        lemma_concat_push(t, c);
        assert(cs.push(c) =~= seq![h] + t.push(c));
        lemma_concat_cons(h, t.push(c));
        assert(cs =~= seq![h] + t);
        lemma_concat_cons(h, t);
        assert(h + (concat_chunks(t) + c) =~= (h + concat_chunks(t)) + c);
    }
}

/// Concatenating the canonical chunking of any byte sequence gives back that
/// sequence exactly.
pub proof fn lemma_chunking_round_trip(b: Seq<u8>, size: nat)
    requires
        size > 0,
    ensures
        concat_chunks(chunks_of(b, size)) == b,
    decreases b.len(),
{
    if b.len() == 0 {
        assert(concat_chunks(chunks_of(b, size)) =~= b);
    } else if b.len() <= size {
        assert(chunks_of(b, size) =~= seq![b] + Seq::<Seq<u8>>::empty());
        lemma_concat_cons(b, Seq::empty());
        assert(b + concat_chunks(Seq::<Seq<u8>>::empty()) =~= b);
    } else {
        let head = b.take(size as int);
        let rest = b.skip(size as int);
        lemma_chunking_round_trip(rest, size);
        assert(chunks_of(b, size) == seq![head] + chunks_of(rest, size));
        lemma_concat_cons(head, chunks_of(rest, size));
        assert(head + rest =~= b);
    }
}

/// Every piece of the canonical chunking except the last has exactly `size`
/// bytes; the last has between 1 and `size`; an empty input yields no pieces.
pub proof fn lemma_chunk_size_bound(b: Seq<u8>, size: nat)
    requires
        size > 0,
    ensures
        b.len() == 0 <==> chunks_of(b, size).len() == 0,
        forall|i: int|
            0 <= i < chunks_of(b, size).len() - 1 ==> (#[trigger] chunks_of(b, size)[i]).len()
                == size,
        b.len() > 0 ==> 1 <= chunks_of(b, size).last().len() <= size,
    decreases b.len(),
{
    if b.len() == 0 {
    } else if b.len() <= size {
    } else {
        let rest = b.skip(size as int);
        lemma_chunk_size_bound(rest, size);
        let cs = chunks_of(b, size);
        assert(forall|i: int|
            1 <= i < cs.len() ==> cs[i] == #[trigger] chunks_of(rest, size)[i - 1]);
        assert(cs.last() == chunks_of(rest, size).last());
    }
}

proof fn lemma_chunks_of_full_prefix(c: Seq<u8>, rest: Seq<u8>, size: nat)
    requires
        size > 0,
        c.len() == size,
    ensures
        chunks_of(c + rest, size) == seq![c] + chunks_of(rest, size),
{
    let b = c + rest;
    if rest.len() == 0 {
        assert(b =~= c);
        assert(chunks_of(rest, size) =~= Seq::<Seq<u8>>::empty());
        assert(seq![c] + chunks_of(rest, size) =~= seq![c]);
    } else {
        assert(b.len() > size);
        assert(b.take(size as int) =~= c);
        assert(b.skip(size as int) =~= rest);
        assert(chunks_of(b, size) =~= seq![c] + chunks_of(rest, size));
    }
}

/// A byte sink that batches everything written to it into buffers of a fixed
/// size.
pub struct ChunkedStreamWriter {
    chunk_size: usize,
    pending: Vec<u8>,
    chunks: Vec<Vec<u8>>,
}

impl ChunkedStreamWriter {
    /// The fixed chunk size this writer was created with.
    pub closed spec fn spec_chunk_size(&self) -> nat {
        self.chunk_size as nat
    }

    /// The views of the full chunks emitted so far.
    pub closed spec fn chunk_views(&self) -> Seq<Seq<u8>> {
        self.chunks@.map_values(|c: Vec<u8>| c@)
    }

    /// All bytes accepted so far, in order.
    pub open spec fn written(&self) -> Seq<u8> {
        concat_chunks(self.chunk_views()) + self.pending_view()
    }

    /// The bytes still waiting for a full chunk.
    pub closed spec fn pending_view(&self) -> Seq<u8> {
        self.pending@
    }

    /// Well-formedness between calls: the pending buffer is strictly shorter
    /// than the chunk size and every emitted chunk is exactly full.
    pub open spec fn inv(&self) -> bool {
        &&& self.spec_chunk_size() > 0
        &&& self.pending_view().len() < self.spec_chunk_size()
        &&& forall|i: int|
            0 <= i < self.chunk_views().len() ==> (#[trigger] self.chunk_views()[i]).len()
                == self.spec_chunk_size()
    }

    /// A new writer that will emit chunks of exactly `chunk_size` bytes.
    pub fn new(chunk_size: usize) -> (w: ChunkedStreamWriter)
        requires
            chunk_size > 0,
        ensures
            w.inv(),
            w.spec_chunk_size() == chunk_size,
            w.written() == Seq::<u8>::empty(),
    {
        let w = ChunkedStreamWriter { chunk_size, pending: Vec::new(), chunks: Vec::new() };
        proof {
            assert(w.chunk_views() =~= Seq::<Seq<u8>>::empty());
            assert(w.written() =~= Seq::<u8>::empty());
        }
        w
    }

    /// Appends `data` to the stream. Whenever the pending buffer reaches the
    /// chunk size it is emitted as a chunk, so a single write larger than the
    /// remaining space is split across as many chunks as needed.
    pub fn write(&mut self, data: &[u8])
        requires
            old(self).inv(),
        ensures
            final(self).inv(),
            final(self).spec_chunk_size() == old(self).spec_chunk_size(),
            final(self).written() == old(self).written() + data@,
    {
        let ghost w0 = old(self).written();
        let mut j: usize = 0;
        while j < data.len()
            invariant
                self.inv(),
                self.spec_chunk_size() == old(self).spec_chunk_size(),
                j <= data.len(),
                self.written() == w0 + data@.take(j as int),
            decreases data.len() - j,
        {
            let space: usize = self.chunk_size - self.pending.len();
            let rem: usize = data.len() - j;
            let take_n: usize = if rem < space {
                rem
            } else {
                space
            };
            let ghost before = self.pending@;
            let piece = slice_subrange(data, j, j + take_n);
            self.pending.extend_from_slice(piece);
            proof {
                assert(self.pending@ =~= before + piece@);
                assert(w0 + data@.take(j as int) + piece@ =~= w0 + data@.take(j + take_n));
            }
            if self.pending.len() == self.chunk_size {
                let ghost cs0 = self.chunk_views();
                let ghost full_view = self.pending@;
                let mut full: Vec<u8> = Vec::new();
                core::mem::swap(&mut full, &mut self.pending);
                self.chunks.push(full);
                proof {
                    assert(self.chunk_views() =~= cs0.push(full_view));
                    lemma_concat_push(cs0, full_view);
                    assert(self.written() =~= concat_chunks(cs0) + full_view);
                }
            }
            j = j + take_n;
        }
        proof {
            assert(data@.take(data@.len() as int) =~= data@);
        }
    }

    /// Finalizes the stream: flushes any partial buffer as the final, possibly
    /// short, chunk and hands out the whole ordered chunk sequence. The result
    /// is exactly the canonical chunking of every byte written, so no chunk is
    /// empty, no chunk exceeds the chunk size, and writing nothing yields no
    /// chunks at all. Consuming the writer forbids any further write.
    pub fn finalize(self) -> (out: Vec<Vec<u8>>)
        requires
            self.inv(),
        ensures
            out@.map_values(|c: Vec<u8>| c@) == chunks_of(self.written(), self.spec_chunk_size()),
    {
        proof {
            lemma_finalize_shape(self.chunk_views(), self.pending_view(), self.spec_chunk_size());
        }
        let ChunkedStreamWriter { chunk_size: _, pending, mut chunks } = self;
        let ghost cs0 = chunks@.map_values(|c: Vec<u8>| c@);
        if pending.len() > 0 {
            let ghost p = pending@;
            chunks.push(pending);
            proof {
                assert(chunks@.map_values(|c: Vec<u8>| c@) =~= cs0.push(p));
            }
            chunks
        } else {
            chunks
        }
    }
}

proof fn lemma_finalize_shape(cs: Seq<Seq<u8>>, p: Seq<u8>, size: nat)
    requires
        size > 0,
        p.len() < size,
        forall|i: int| 0 <= i < cs.len() ==> (#[trigger] cs[i]).len() == size,
    ensures
        chunks_of(concat_chunks(cs) + p, size) == if p.len() == 0 {
            cs
        } else {
            cs.push(p)
        },
    decreases cs.len(),
{
    if cs.len() == 0 {
        assert(concat_chunks(cs) + p =~= p);
        if p.len() == 0 {
            assert(chunks_of(p, size) =~= cs);
        } else {
            assert(chunks_of(p, size) =~= cs.push(p));
        }
    } else {
        let c = cs.first();
        let rest = cs.drop_first();
        lemma_finalize_shape(rest, p, size);
        assert(concat_chunks(cs) + p =~= c + (concat_chunks(rest) + p));
        lemma_chunks_of_full_prefix(c, concat_chunks(rest) + p, size);
        if p.len() == 0 {
            assert(seq![c] + rest =~= cs);
        } else {
            assert(seq![c] + rest.push(p) =~= cs.push(p));
        }
    }
}

} // verus!
