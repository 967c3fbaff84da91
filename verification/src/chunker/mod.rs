use vstd::prelude::*;

use crate::error::ChunkStoreError;

pub mod cdc;
pub mod fixed;

pub use cdc::{chunk_cdc, CdcChunker, CdcConfig};
pub use fixed::FixedChunker;

verus! {

/// The byte contents of each chunk of a list.
pub open spec fn chunk_views(chunks: Seq<Vec<u8>>) -> Seq<Seq<u8>> {
    chunks.map_values(|c: Vec<u8>| c@)
}

/// All chunks of a list laid end to end.
pub open spec fn concat_chunks(chunks: Seq<Vec<u8>>) -> Seq<u8> {
    chunk_views(chunks).flatten()
}

/// No chunk of the list is empty.
pub open spec fn all_nonempty(chunks: Seq<Vec<u8>>) -> bool {
    forall|i: int| 0 <= i < chunks.len() ==> #[trigger] chunks[i]@.len() > 0
}

/// Appending one chunk appends its bytes to the concatenation.
pub proof fn lemma_concat_push(chunks: Seq<Vec<u8>>, c: Vec<u8>)
    ensures
        concat_chunks(chunks.push(c)) == concat_chunks(chunks) + c@,
{
    assert(chunk_views(chunks.push(c)) =~= chunk_views(chunks).push(c@));
    chunk_views(chunks).lemma_flatten_push(c@);
}

/// Concatenation distributes over joining two chunk lists.
pub proof fn lemma_concat_append(a: Seq<Vec<u8>>, b: Seq<Vec<u8>>)
    ensures
        concat_chunks(a + b) == concat_chunks(a) + concat_chunks(b),
{
    assert(chunk_views(a + b) =~= chunk_views(a) + chunk_views(b));
    vstd::seq_lib::lemma_flatten_concat(chunk_views(a), chunk_views(b));
}

/// Streaming chunker interface.
///
/// A chunker holds the bytes it has been fed but not yet emitted; what it emits,
/// followed by what it still holds, is always exactly what it was fed. How the
/// input is cut does not depend on how it was split into blocks for `feed`.
pub trait Chunker {
    /// Bytes fed but not yet emitted as chunks.
    spec fn pending(&self) -> Seq<u8>;

    /// The chunks this chunker emits from its current state when it is fed
    /// `data`, in blocks of any sizes, and then finished.
    spec fn chunks_for(&self, data: Seq<u8>) -> Seq<Seq<u8>>;

    /// The chunker can flush its pending bytes without a panic in the underlying
    /// chunking routine.
    spec fn ready(&self) -> bool;

    /// Feeding and finishing never fail.
    spec fn always_chunks(&self) -> bool;

    /// Feed the next block of input. Returns completed chunks.
    fn feed(&mut self, data: &[u8]) -> (r: Result<Vec<Vec<u8>>, ChunkStoreError>)
        ensures
            final(self).ready() == old(self).ready(),
            final(self).always_chunks() == old(self).always_chunks(),
            old(self).always_chunks() ==> r is Ok,
            r matches Ok(chunks) ==> {
                &&& concat_chunks(chunks@) + final(self).pending() == old(self).pending() + data@
                &&& all_nonempty(chunks@)
                &&& forall|rest: Seq<u8>| #[trigger]
                    old(self).chunks_for(data@ + rest) == chunk_views(chunks@) + final(self).chunks_for(rest)
            },
    ;

    /// Flush remaining buffered data as final chunks (if any).
    fn finish(&mut self) -> (r: Result<Vec<Vec<u8>>, ChunkStoreError>)
        requires
            old(self).ready(),
        ensures
            final(self).ready() == old(self).ready(),
            final(self).always_chunks() == old(self).always_chunks(),
            old(self).always_chunks() ==> r is Ok,
            final(self).pending().len() == 0,
            r matches Ok(chunks) ==> {
                &&& concat_chunks(chunks@) == old(self).pending()
                &&& all_nonempty(chunks@)
                &&& chunk_views(chunks@) == old(self).chunks_for(Seq::empty())
            },
    ;
}

/// A source of bytes read block by block (the role `std::io::Read` plays for
/// [`chunk_reader`]).
pub trait ByteSource {
    /// The bytes this source will still yield, in order. An implementation
    /// written outside Verus keeps this default: the contract of its
    /// `read_block` is then trusted, not checked, to hold of what it really yields.
    closed spec fn remaining(&self) -> Seq<u8> {
        vstd::pervasive::arbitrary()
    }

    /// Every read succeeds. An implementation written outside Verus keeps this
    /// default, which promises no success.
    closed spec fn always_reads(&self) -> bool {
        false
    }

    /// Read the next block of at most `max` bytes. An empty block means the
    /// source is exhausted.
    fn read_block(&mut self, max: usize) -> (r: Result<Vec<u8>, ChunkStoreError>)
        requires
            max > 0,
        ensures
            old(self).always_reads() ==> r is Ok && final(self).always_reads(),
            r matches Ok(block) ==> {
                &&& block@.len() <= max
                &&& old(self).remaining() == block@ + final(self).remaining()
                &&& block@.len() == 0 ==> old(self).remaining().len() == 0
            },
    ;
}

impl<'a> ByteSource for &'a [u8] {
    open spec fn remaining(&self) -> Seq<u8> {
        (*self)@
    }

    open spec fn always_reads(&self) -> bool {
        true
    }

    fn read_block(&mut self, max: usize) -> (r: Result<Vec<u8>, ChunkStoreError>)
        ensures
            r is Ok,
    {
        let src: &'a [u8] = *self;
        let n = if src.len() < max { src.len() } else { max };
        let block = vstd::slice::slice_to_vec(vstd::slice::slice_subrange(src, 0, n));
        *self = vstd::slice::slice_subrange(src, n, src.len());
        proof {
            assert(src@ =~= block@ + (*self)@);
        }
        Ok(block)
    }
}

/// The size of the blocks in which [`chunk_reader`] reads its source.
pub const READ_BLOCK_SIZE: usize = 65536;

/// Chunk all bytes from `reader` using the given chunker.
pub fn chunk_reader<R: ByteSource, C: Chunker>(reader: &mut R, chunker: &mut C) -> (r: Result<
    Vec<Vec<u8>>,
    ChunkStoreError,
>)
    requires
        old(chunker).ready(),
    ensures
        final(chunker).ready(),
        old(reader).always_reads() && old(chunker).always_chunks() ==> r is Ok,
        r matches Ok(chunks) ==> {
            &&& concat_chunks(chunks@) == old(chunker).pending() + old(reader).remaining()
            &&& chunk_views(chunks@) == old(chunker).chunks_for(old(reader).remaining())
            &&& all_nonempty(chunks@)
            &&& final(reader).remaining().len() == 0
            &&& final(chunker).pending().len() == 0
        },
{
    let mut chunks: Vec<Vec<u8>> = Vec::new();
    loop
        invariant_except_break
            chunker.ready(),
            old(reader).always_reads() && old(chunker).always_chunks() ==> reader.always_reads()
                && chunker.always_chunks(),
            concat_chunks(chunks@) + chunker.pending() + reader.remaining() == old(chunker).pending()
                + old(reader).remaining(),
            chunk_views(chunks@) + chunker.chunks_for(reader.remaining()) == old(chunker).chunks_for(
                old(reader).remaining(),
            ),
            all_nonempty(chunks@),
        ensures
            chunker.ready(),
            old(reader).always_reads() && old(chunker).always_chunks() ==> chunker.always_chunks(),
            concat_chunks(chunks@) + chunker.pending() == old(chunker).pending() + old(
                reader,
            ).remaining(),
            chunk_views(chunks@) + chunker.chunks_for(Seq::empty()) == old(chunker).chunks_for(
                old(reader).remaining(),
            ),
            all_nonempty(chunks@),
            reader.remaining().len() == 0,
        decreases reader.remaining().len(),
    {
        let ghost before = chunks@;
        let ghost pending_before = chunker.pending();
        let ghost remaining_before = reader.remaining();
        let block = reader.read_block(READ_BLOCK_SIZE)?;
        if block.len() == 0 {
            proof {
                assert(reader.remaining() =~= remaining_before);
                assert(concat_chunks(chunks@) + chunker.pending() =~= concat_chunks(chunks@)
                    + chunker.pending() + remaining_before);
                assert(reader.remaining() =~= Seq::<u8>::empty());
            }
            break;
        }
        let ghost chunker_before = *chunker;
        let mut fed = chunker.feed(block.as_slice())?;
        let ghost fed_chunks = fed@;
        chunks.append(&mut fed);
        proof {
            let rest = reader.remaining();
            assert(chunker_before.chunks_for(block@ + rest) == chunk_views(fed_chunks) + chunker.chunks_for(rest));
            assert(chunk_views(chunks@) =~= chunk_views(before) + chunk_views(fed_chunks));
            assert(chunk_views(chunks@) + chunker.chunks_for(rest) =~= chunk_views(before) + (chunk_views(fed_chunks)
                + chunker.chunks_for(rest)));
        }
        proof {
            lemma_concat_append(before, fed_chunks);
            assert(chunks@ == before + fed_chunks);
            assert forall|i: int| 0 <= i < chunks@.len() implies #[trigger] chunks@[i]@.len() > 0 by {
                if i >= before.len() {
                    assert(chunks@[i] == fed_chunks[i - before.len()]);
                }
            }
            let fc = concat_chunks(fed_chunks);
            let cb = concat_chunks(before);
            assert(fc + chunker.pending() == pending_before + block@);
            assert(remaining_before == block@ + reader.remaining());
            assert(concat_chunks(chunks@) == cb + fc);
            assert(cb + fc + chunker.pending() + reader.remaining() =~= cb + (fc + chunker.pending())
                + reader.remaining());
            assert(cb + (pending_before + block@) + reader.remaining() =~= cb + pending_before + (
            block@ + reader.remaining()));
        }
    }
    let ghost before = chunks@;
    let mut tail = chunker.finish()?;
    let ghost tail_chunks = tail@;
    chunks.append(&mut tail);
    proof {
        lemma_concat_append(before, tail_chunks);
        assert(chunks@ == before + tail_chunks);
        assert(chunk_views(chunks@) =~= chunk_views(before) + chunk_views(tail_chunks));
        assert forall|i: int| 0 <= i < chunks@.len() implies #[trigger] chunks@[i]@.len() > 0 by {
            if i >= before.len() {
                assert(chunks@[i] == tail_chunks[i - before.len()]);
            }
        }
    }
    Ok(chunks)
}

} // verus!
