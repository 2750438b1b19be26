//! Block chunker: carves a byte buffer into fixed-size blocks.
//!
//! Blocks have length `block_size` except possibly the final one, are never
//! reordered or resized, and concatenating them reconstructs the input
//! exactly. Constructing a chunker with block size zero fails.

use vstd::prelude::*;

use crate::bytes::copy_range;

verus! {

/// Error returned when a chunker is asked for blocks of size zero.
#[derive(Debug, Clone, Copy, PartialEq, Eq, Structural)]
pub enum ChunkError {
    /// The requested block size was zero.
    ZeroBlockSize,
}

/// The blocks of `data` under block size `bs`, in order: each of length
/// `bs` except possibly the last, which holds the remainder.
pub open spec fn chunks_of(data: Seq<u8>, bs: int) -> Seq<Seq<u8>>
    decreases data.len(),
{
    if bs < 1 || data.len() == 0 {
        Seq::empty()
    } else if data.len() <= bs {
        seq![data]
    } else {
        seq![data.take(bs)] + chunks_of(data.skip(bs), bs)
    }
}

/// Concatenating the blocks of any byte sequence reconstructs it exactly.
pub proof fn lemma_chunks_concat(data: Seq<u8>, bs: int)
    requires
        bs >= 1,
    ensures
        chunks_of(data, bs).flatten() == data,
    decreases data.len(),
{
    if data.len() == 0 {
        assert(chunks_of(data, bs).flatten() =~= data);
    } else if data.len() <= bs {
        assert(chunks_of(data, bs) =~= seq![data]);
        assert(seq![data].flatten() =~= data) by {
            Seq::lemma_flatten_singleton(seq![data]);
        }
    } else {
        lemma_chunks_concat(data.skip(bs), bs);
        let cs = chunks_of(data, bs);
        assert(cs.drop_first() =~= chunks_of(data.skip(bs), bs));
        assert(cs.first() + data.skip(bs) =~= data);
    }
}

/// Turns a byte buffer into blocks for per-block checksums. Mirrors reading
/// a file block by block: `next` hands out the blocks in order.
#[derive(Debug)]
pub struct FileChunker {
    data: Vec<u8>,
    block_size: usize,
    pos: usize,
}

impl FileChunker {
    /// The bytes not yet handed out.
    pub closed spec fn remaining(self) -> Seq<u8> {
        self.data@.skip(self.pos as int)
    }

    /// The negotiated block size.
    pub closed spec fn spec_block_size(self) -> int {
        self.block_size as int
    }

    pub closed spec fn wf(self) -> bool {
        self.block_size >= 1 && self.pos <= self.data@.len()
    }

    /// Fails exactly when the block size is zero; otherwise the chunker is
    /// positioned at the start of `data`.
    pub fn new(data: Vec<u8>, block_size: usize) -> (r: Result<FileChunker, ChunkError>)
        ensures
            match r {
                Ok(c) => block_size >= 1 && c.wf() && c.remaining() == data@
                    && c.spec_block_size() == block_size,
                Err(e) => block_size == 0 && e == ChunkError::ZeroBlockSize,
            },
    {
        if block_size == 0 {
            return Err(ChunkError::ZeroBlockSize);
        }
        let c = FileChunker { data, block_size, pos: 0 };
        proof {
            assert(c.remaining() =~= c.data@);
        }
        Ok(c)
    }

    /// Hands out the next block: the first `block_size` remaining bytes, or
    /// all of them if fewer remain; `None` at the end of the data.
    pub fn next(&mut self) -> (r: Option<Vec<u8>>)
        requires
            old(self).wf(),
        ensures
            final(self).wf(),
            final(self).spec_block_size() == old(self).spec_block_size(),
            match r {
                None => old(self).remaining().len() == 0 && final(self).remaining()
                    == old(self).remaining(),
                Some(block) => {
                    &&& old(self).remaining().len() > 0
                    &&& chunks_of(old(self).remaining(), old(self).spec_block_size())
                        == seq![block@] + chunks_of(
                        final(self).remaining(),
                        final(self).spec_block_size(),
                    )
                    &&& block@.len() > 0
                    &&& final(self).remaining().len() < old(self).remaining().len()
                },
            },
    {
        let len = self.data.len();
        if self.pos == len {
            return None;
        }
        let n = len - self.pos;
        let take = if n < self.block_size {
            n
        } else {
            self.block_size
        };
        let block = copy_range(&self.data, self.pos, self.pos + take);
        let ghost pre = self.remaining();
        self.pos = self.pos + take;
        proof {
            let bs = self.block_size as int;
            if pre.len() <= bs {
                assert(block@ =~= pre);
                assert(self.remaining() =~= Seq::<u8>::empty());
                assert(chunks_of(pre, bs) =~= seq![block@] + chunks_of(self.remaining(), bs));
            } else {
                assert(block@ =~= pre.take(bs));
                assert(self.remaining() =~= pre.skip(bs));
            }
        }
        Some(block)
    }
}

/// Carves `data` into its blocks all at once.
///
/// Fails exactly when `block_size` is zero; otherwise the returned blocks
/// are `chunks_of(data, block_size)`.
pub fn chunk_bytes(data: &Vec<u8>, block_size: usize) -> (r: Result<Vec<Vec<u8>>, ChunkError>)
    ensures
        match r {
            Ok(blocks) => block_size >= 1 && blocks.deep_view() == chunks_of(
                data@,
                block_size as int,
            ),
            Err(e) => block_size == 0 && e == ChunkError::ZeroBlockSize,
        },
{
    let data_copy = crate::bytes::clone_bytes(data);
    let mut chunker = match FileChunker::new(data_copy, block_size) {
        Ok(c) => c,
        Err(e) => {
            return Err(e);
        },
    };
    let mut blocks: Vec<Vec<u8>> = Vec::new();
    proof {
        assert(blocks.deep_view() + chunks_of(chunker.remaining(), block_size as int)
            =~= chunks_of(data@, block_size as int));
    }
    loop
        invariant
            chunker.wf(),
            chunker.spec_block_size() == block_size as int,
            block_size >= 1,
            blocks.deep_view() + chunks_of(chunker.remaining(), block_size as int) == chunks_of(
                data@,
                block_size as int,
            ),
        ensures
            chunker.remaining().len() == 0,
            blocks.deep_view() + chunks_of(chunker.remaining(), block_size as int) == chunks_of(
                data@,
                block_size as int,
            ),
        decreases chunker.remaining().len(),
    {
        match chunker.next() {
            None => {
                break;
            },
            Some(block) => {
                blocks.push(block);
                proof {
                    assert(blocks.deep_view() + chunks_of(chunker.remaining(), block_size as int)
                        =~~= chunks_of(data@, block_size as int));
                }
            },
        }
    }
    proof {
        assert(chunks_of(chunker.remaining(), block_size as int) =~= Seq::<Seq<u8>>::empty());
        assert(blocks.deep_view() =~= blocks.deep_view() + Seq::<Seq<u8>>::empty());
    }
    Ok(blocks)
}

/// Concatenates blocks back into one byte buffer.
pub fn concat_blocks(blocks: &Vec<Vec<u8>>) -> (r: Vec<u8>)
    ensures
        r@ == blocks.deep_view().flatten(),
{
    let mut r: Vec<u8> = Vec::new();
    let mut i: usize = 0;
    proof {
        assert(blocks.deep_view().take(0) =~= Seq::<Seq<u8>>::empty());
        assert(r@ =~= blocks.deep_view().take(0).flatten());
    }
    while i < blocks.len()
        invariant
            i <= blocks@.len(),
            r@ == blocks.deep_view().take(i as int).flatten(),
        decreases blocks@.len() - i,
    {
        crate::bytes::extend_bytes(&mut r, &blocks[i]);
        proof {
            broadcast use Seq::lemma_flatten_push;

            crate::bytes::lemma_bytes_deep_view(blocks@[i as int]);
            assert(blocks.deep_view().take(i + 1) =~= blocks.deep_view().take(i as int).push(
                blocks.deep_view()[i as int],
            ));
        }
        i = i + 1;
    }
    proof {
        assert(blocks.deep_view().take(blocks.deep_view().len() as int) =~= blocks.deep_view());
    }
    r
}

} // verus!
