use vstd::prelude::*;

use crate::chunker::{all_nonempty, chunk_views, concat_chunks, lemma_concat_push, Chunker};
use crate::error::ChunkStoreError;

verus! {

/// `data` cut from the front into pieces of `size` bytes; the last piece holds
/// what is left and may be shorter.
pub open spec fn fixed_split(data: Seq<u8>, size: nat) -> Seq<Seq<u8>>
    decreases data.len(),
{
    if data.len() == 0 || size == 0 {
        Seq::empty()
    } else if data.len() <= size {
        seq![data]
    } else {
        seq![data.take(size as int)] + fixed_split(data.skip(size as int), size)
    }
}

/// The pieces of a fixed split, laid end to end, are the data.
pub proof fn lemma_fixed_split_flatten(data: Seq<u8>, size: nat)
    requires
        size > 0,
    ensures
        fixed_split(data, size).flatten() == data,
    decreases data.len(),
{
    if data.len() == 0 {
        assert(Seq::<Seq<u8>>::empty().flatten() =~= data);
    } else if data.len() <= size {
        seq![data].lemma_flatten_singleton();
    } else {
        let head = data.take(size as int);
        let rest = data.skip(size as int);
        lemma_fixed_split_flatten(rest, size);
        vstd::seq_lib::lemma_flatten_concat(seq![head], fixed_split(rest, size));
        seq![head].lemma_flatten_singleton();
        assert(head + rest =~= data);
    }
}

/// Full pieces of `size` bytes in front of any data come out of the fixed split
/// unchanged, ahead of the split of that data.
pub proof fn lemma_fixed_split_prefix(cs: Seq<Seq<u8>>, x: Seq<u8>, size: nat)
    requires
        size > 0,
        forall|i: int| 0 <= i < cs.len() ==> #[trigger] cs[i].len() == size,
    ensures
        fixed_split(cs.flatten() + x, size) == cs + fixed_split(x, size),
    decreases cs.len(),
{
    if cs.len() == 0 {
        assert(cs.flatten() =~= Seq::<u8>::empty());
        assert(cs.flatten() + x =~= x);
        assert(cs + fixed_split(x, size) =~= fixed_split(x, size));
    } else {
        let tail = cs.drop_first();
        assert(cs.flatten() == cs[0] + tail.flatten());
        let data = cs.flatten() + x;
        let more = tail.flatten() + x;
        assert(data =~= cs[0] + more);
        assert(data.take(size as int) =~= cs[0]);
        assert(data.skip(size as int) =~= more);
        assert forall|i: int| 0 <= i < tail.len() implies #[trigger] tail[i].len() == size by {
            assert(tail[i] == cs[i + 1]);
        }
        lemma_fixed_split_prefix(tail, x, size);
        if data.len() <= size {
            assert(more.len() == 0);
            assert(more =~= Seq::<u8>::empty());
            if tail.len() > 0 {
                assert(tail.flatten() == tail[0] + tail.drop_first().flatten());
            }
            assert(tail.len() == 0);
            assert(x.len() == 0);
            assert(fixed_split(x, size) =~= Seq::<Seq<u8>>::empty());
            assert(cs + fixed_split(x, size) =~= seq![cs[0]]);
            assert(cs[0] =~= data);
        } else {
            assert(cs + fixed_split(x, size) =~= seq![cs[0]] + (tail + fixed_split(x, size)));
        }
    }
}

/// Full pieces of `size` bytes followed by a shorter remainder are the fixed split.
pub proof fn lemma_fixed_split(cs: Seq<Seq<u8>>, rest: Seq<u8>, data: Seq<u8>, size: nat)
    requires
        size > 0,
        forall|i: int| 0 <= i < cs.len() ==> #[trigger] cs[i].len() == size,
        rest.len() < size,
        cs.flatten() + rest == data,
    ensures
        fixed_split(data, size) == if rest.len() > 0 {
            cs.push(rest)
        } else {
            cs
        },
    decreases cs.len(),
{
    if cs.len() == 0 {
        assert(cs.flatten() =~= Seq::<u8>::empty());
        assert(data =~= rest);
        if rest.len() > 0 {
            assert(cs.push(rest) =~= seq![rest]);
        }
    } else {
        let tail = cs.drop_first();
        assert(cs.flatten() == cs[0] + tail.flatten());
        assert(data =~= cs[0] + (tail.flatten() + rest));
        let more = tail.flatten() + rest;
        assert(data.take(size as int) =~= cs[0]);
        assert(data.skip(size as int) =~= more);
        if data.len() <= size {
            assert(more.len() == 0);
            assert(rest.len() == 0);
            if tail.len() > 0 {
                assert(tail.flatten() == tail[0] + tail.drop_first().flatten());
                assert(tail[0].len() == size);
            }
            assert(tail.len() == 0);
            assert(cs =~= seq![cs[0]]);
            assert(cs[0] =~= data);
        } else {
            lemma_fixed_split(tail, rest, more, size);
            if rest.len() > 0 {
                assert(seq![cs[0]] + tail.push(rest) =~= cs.push(rest));
            } else {
                assert(seq![cs[0]] + tail =~= cs);
            }
        }
    }
}

/// Fixed-size chunker (default 4 MiB in production configs).
#[derive(Debug)]
pub struct FixedChunker {
    chunk_size: usize,
    buffer: Vec<u8>,
}

impl FixedChunker {
    #[verifier::type_invariant]
    spec fn inv(self) -> bool {
        self.chunk_size > 0 && self.buffer@.len() < self.chunk_size
    }

    /// The size of every chunk this chunker emits from `feed`.
    pub closed spec fn spec_chunk_size(&self) -> usize {
        self.chunk_size
    }

    pub fn new(chunk_size: usize) -> (c: Self)
        requires
            chunk_size > 0,
        ensures
            c.spec_chunk_size() == chunk_size,
            c.pending().len() == 0,
    {
        FixedChunker { chunk_size, buffer: Vec::new() }
    }

    pub fn default_chunk_size() -> (n: usize)
        ensures
            n == 4 * 1024 * 1024,
    {
        4 * 1024 * 1024
    }
}

impl Chunker for FixedChunker {
    closed spec fn pending(&self) -> Seq<u8> {
        self.buffer@
    }

    open spec fn chunks_for(&self, data: Seq<u8>) -> Seq<Seq<u8>> {
        fixed_split(self.pending() + data, self.spec_chunk_size() as nat)
    }

    open spec fn ready(&self) -> bool {
        true
    }

    open spec fn always_chunks(&self) -> bool {
        true
    }

    fn feed(&mut self, data: &[u8]) -> (r: Result<Vec<Vec<u8>>, ChunkStoreError>)
        ensures
            final(self).spec_chunk_size() == old(self).spec_chunk_size(),
            final(self).pending().len() < final(self).spec_chunk_size(),
            r matches Ok(chunks) ==> forall|i: int|
                0 <= i < chunks@.len() ==> #[trigger] chunks@[i]@.len() == old(self).spec_chunk_size(),
            r is Ok,
    {
        proof {
            use_type_invariant(&*self);
        }
        let mut buf: Vec<u8> = Vec::new();
        std::mem::swap(&mut buf, &mut self.buffer);
        let mut incoming = vstd::slice::slice_to_vec(data);
        buf.append(&mut incoming);
        let cs = self.chunk_size;
        let n = buf.len();
        let mut out: Vec<Vec<u8>> = Vec::new();
        let mut off: usize = 0;
        while n - off >= cs
            invariant
                cs > 0,
                n == buf@.len(),
                off <= n,
                concat_chunks(out@) == buf@.take(off as int),
                forall|i: int| 0 <= i < out@.len() ==> #[trigger] out@[i]@.len() == cs,
            decreases n - off,
        {
            let chunk = vstd::slice::slice_to_vec(
                vstd::slice::slice_subrange(buf.as_slice(), off, off + cs),
            );
            proof {
                lemma_concat_push(out@, chunk);
                assert(buf@.take(off + cs) =~= buf@.take(off as int) + chunk@);
            }
            out.push(chunk);
            off = off + cs;
        }
        let rest = vstd::slice::slice_to_vec(vstd::slice::slice_subrange(buf.as_slice(), off, n));
        self.buffer = rest;
        proof {
            assert(buf@ =~= buf@.take(off as int) + rest@);
            assert forall|more: Seq<u8>| #[trigger] old(self).chunks_for(data@ + more) == chunk_views(out@)
                + self.chunks_for(more) by {
                assert forall|i: int| 0 <= i < chunk_views(out@).len() implies #[trigger] chunk_views(out@)[i].len()
                    == cs by {
                    assert(chunk_views(out@)[i] == out@[i]@);
                }
                lemma_fixed_split_prefix(chunk_views(out@), rest@ + more, cs as nat);
                assert(old(self).pending() + (data@ + more) =~= chunk_views(out@).flatten() + (rest@ + more));
            }
        }
        Ok(out)
    }

    fn finish(&mut self) -> (r: Result<Vec<Vec<u8>>, ChunkStoreError>)
        ensures
            final(self).spec_chunk_size() == old(self).spec_chunk_size(),
            r matches Ok(chunks) ==> chunks@.len() <= 1,
            r is Ok,
    {
        proof {
            use_type_invariant(&*self);
        }
        if self.buffer.len() == 0 {
            proof {
                assert(concat_chunks(Seq::<Vec<u8>>::empty()) =~= Seq::<u8>::empty());
                assert(old(self).pending() + Seq::<u8>::empty() =~= Seq::<u8>::empty());
                assert(chunk_views(Seq::<Vec<u8>>::empty()) =~= Seq::<Seq<u8>>::empty());
            }
            return Ok(Vec::new());
        }
        let mut buf: Vec<u8> = Vec::new();
        std::mem::swap(&mut buf, &mut self.buffer);
        let mut out: Vec<Vec<u8>> = Vec::new();
        proof {
            lemma_concat_push(out@, buf);
        }
        out.push(buf);
        proof {
            assert(old(self).pending() + Seq::<u8>::empty() =~= buf@);
            assert(chunk_views(out@) =~= seq![buf@]);
        }
        Ok(out)
    }
}

} // verus!
