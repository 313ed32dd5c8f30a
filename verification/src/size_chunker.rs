//! The byte-bounded, word-safe policy: chunks of at most `max_bytes` bytes,
//! each ending just behind a whitespace byte.

use vstd::prelude::*;
use vstd::seq_lib::lemma_flatten_concat;
use vstd::slice::slice_subrange;
use crate::descriptor::{build_chunker_context, FileChunk};
use crate::error::ChunkError;
use crate::path::spec_chunk_path;
use crate::strategy::{contents, describe, Chunker, Piece};
use crate::text::{
    is_whitespace,
    last_whitespace_end,
    lemma_last_whitespace_end,
    lemma_last_whitespace_end_concat,
    lemma_last_whitespace_end_unique,
};
use crate::window::{CarryBuffer, Cut};

verus! {

/// A chunker that divides a source into chunks of at most `max_bytes` bytes
/// and never breaks a word: every chunk ends with a whitespace byte.
pub struct SizeBySpaceChunker {
    pub max_bytes: usize,
}

/// The window that the next cut is taken from: the first `max_bytes` bytes of
/// what is left of the source, or all of it if it is shorter.
pub open spec fn window_of(rest: Seq<u8>, max_bytes: nat) -> Seq<u8> {
    if rest.len() <= max_bytes {
        rest
    } else {
        rest.take(max_bytes as int)
    }
}

/// The chunks of `source` under a budget of `max_bytes` bytes.
///
/// Each chunk is the longest prefix of what is left that fits the budget and
/// ends with a whitespace byte. A window without whitespace cannot be cut
/// between words, and the run fails. When the window is shorter than the
/// budget the source has run dry: its chunk is the last one, and the bytes
/// behind the last whitespace byte of the source belong to no chunk.
pub open spec fn split_words(source: Seq<u8>, max_bytes: nat) -> Result<Seq<Seq<u8>>, ChunkError>
    decreases source.len(),
{
    if source.len() == 0 {
        Ok(Seq::empty())
    } else {
        let window = window_of(source, max_bytes);
        let cut = last_whitespace_end(window);
        if cut == 0 {
            Err(ChunkError::TokenExceedsMaxBytes)
        } else if window.len() < max_bytes {
            Ok(seq![source.take(cut as int)])
        } else {
            proof {
                lemma_last_whitespace_end(window);
            }
            match split_words(source.skip(cut as int), max_bytes) {
                Ok(rest) => Ok(seq![source.take(cut as int)] + rest),
                Err(e) => Err(e),
            }
        }
    }
}

/// `done` followed by what `rest` yields, if it yields anything.
pub open spec fn chunks_then(done: Seq<Seq<u8>>, rest: Result<Seq<Seq<u8>>, ChunkError>) -> Result<
    Seq<Seq<u8>>,
    ChunkError,
> {
    match rest {
        Ok(more) => Ok(done + more),
        Err(e) => Err(e),
    }
}

/// The chunks of a byte-bounded run as pieces without line ranges.
pub open spec fn byte_pieces(parts: Seq<Seq<u8>>) -> Seq<Piece> {
    Seq::new(parts.len(), |k: int| Piece { bytes: parts[k], lines: None })
}

impl Chunker for SizeBySpaceChunker {
    open spec fn plan(&self, source: Seq<u8>) -> Result<Seq<Piece>, ChunkError> {
        if self.max_bytes == 0 {
            Err(ChunkError::InvalidConfiguration)
        } else {
            match split_words(source, self.max_bytes as nat) {
                Ok(parts) => Ok(byte_pieces(parts)),
                Err(e) => Err(e),
            }
        }
    }

    fn chunk(&self, source: &[u8], path: &str, out: &str, chunks: &mut Vec<FileChunk>) -> (written:
        Result<Vec<Vec<u8>>, ChunkError>)
    {
        let mut window = match CarryBuffer::new(self.max_bytes) {
            Ok(window) => window,
            Err(e) => {
                return Err(e);
            },
        };
        let mut files: Vec<Vec<u8>> = Vec::new();
        let mut made: Vec<FileChunk> = Vec::new();
        let mut pos: usize = 0;
        let mut ctx = build_chunker_context(path, out, 0);
        let ghost max = self.max_bytes as nat;
        let ghost mut done: Seq<Seq<u8>> = Seq::empty();
        proof {
            assert(source@.skip(0) =~= source@);
            assert(done + split_words(source@, max)->Ok_0 =~= split_words(source@, max)->Ok_0);
        }
        loop
            invariant_except_break
                max == self.max_bytes,
                max >= 1,
                window.wf(),
                window.limit() == max,
                window@.len() <= pos <= source@.len(),
                window@ == source@.subrange(pos - window@.len(), pos as int),
                split_words(source@, max) == chunks_then(
                    done,
                    split_words(source@.skip(pos - window@.len()), max),
                ),
                done.len() == files@.len(),
                done.len() == made@.len(),
                done.len() <= pos - window@.len(),
                forall|k: int| 0 <= k < done.len() ==> (#[trigger] files@[k])@ == done[k],
                forall|k: int|
                    0 <= k < done.len() ==> (#[trigger] made@[k])@ == describe(
                        byte_pieces(done)[k],
                        path@,
                        out@,
                        k as nat,
                    ),
                ctx@.source == path@,
                ctx@.path == spec_chunk_path(out@, done.len()),
                ctx@.chunk_idx == done.len(),
            ensures
                split_words(source@, max) == Ok::<Seq<Seq<u8>>, ChunkError>(done),
                done.len() == files@.len(),
                done.len() == made@.len(),
                forall|k: int| 0 <= k < done.len() ==> (#[trigger] files@[k])@ == done[k],
                forall|k: int|
                    0 <= k < done.len() ==> (#[trigger] made@[k])@ == describe(
                        byte_pieces(done)[k],
                        path@,
                        out@,
                        k as nat,
                    ),
            decreases source@.len() - (pos - window@.len()),
        {
            let ghost start = pos - window@.len();
            let ghost rest = source@.skip(start);
            let room = window.room();
            let left = source.len() - pos;
            let take = if room < left {
                room
            } else {
                left
            };
            window.fill(slice_subrange(source, pos, pos + take));
            pos = pos + take;
            proof {
                assert(window@ =~= window_of(rest, max));
            }
            match window.take_chunk() {
                Err(e) => {
                    return Err(e);
                },
                Ok(Cut::Exhausted) => {
                    proof {
                        assert(done + Seq::<Seq<u8>>::empty() =~= done);
                    }
                    break ;
                },
                Ok(Cut::Chunk { bytes, last }) => {
                    let ghost cut = last_whitespace_end(window_of(rest, max));
                    proof {
                        lemma_last_whitespace_end(window_of(rest, max));
                        assert(bytes@ =~= rest.take(cut as int));
                        assert(rest.skip(cut as int) =~= source@.skip(start + cut));
                        assert(window@ =~= source@.subrange(start + cut, pos as int));
                        let grown = done.push(bytes@);
                        if last {
                            assert(done + seq![bytes@] =~= grown);
                        } else {
                            let tail = split_words(rest.skip(cut as int), max);
                            if tail is Ok {
                                assert(done + (seq![bytes@] + tail->Ok_0) =~= grown + tail->Ok_0);
                            }
                        }
                    }
                    files.push(bytes);
                    made.push(ctx.build_chunk());
                    proof {
                        done = done.push(bytes@);
                    }
                    if last {
                        break ;
                    }
                    ctx = build_chunker_context(path, out, ctx.chunk_idx() + 1);
                },
            }
        }
        chunks.append(&mut made);
        Ok(files)
    }
}

/// The chunks of a run, put together in sequence order, are the source up to
/// and including its last whitespace byte.
pub proof fn lemma_split_words_covers(source: Seq<u8>, max_bytes: nat)
    requires
        max_bytes >= 1,
        split_words(source, max_bytes) is Ok,
    ensures
        split_words(source, max_bytes)->Ok_0.flatten() == source.take(
            last_whitespace_end(source) as int,
        ),
    decreases source.len(),
{
    let parts = split_words(source, max_bytes)->Ok_0;
    if source.len() == 0 {
        assert(parts.flatten() =~= source.take(0));
    } else {
        let window = window_of(source, max_bytes);
        let cut = last_whitespace_end(window) as int;
        lemma_last_whitespace_end(window);
        let head = source.take(cut);
        let tail = source.skip(cut);
        assert(head =~= window.take(cut));
        assert(source =~= head + tail);
        assert(is_whitespace(head[cut - 1]));
        lemma_last_whitespace_end_unique(head, cut);
        seq![head].lemma_flatten_one_element();
        if window.len() < max_bytes {
            assert(window == source);
            assert(parts.flatten() == head);
        } else {
            lemma_split_words_covers(tail, max_bytes);
            let rest = split_words(tail, max_bytes)->Ok_0;
            lemma_flatten_concat(seq![head], rest);
            lemma_last_whitespace_end_concat(head, tail);
            lemma_last_whitespace_end(tail);
            assert(head + tail.take(last_whitespace_end(tail) as int) =~= source.take(
                last_whitespace_end(source) as int,
            ));
        }
    }
}

/// Chunk `k` of a run is the slice of the source that starts where the chunks
/// before it end; it is not empty, fits the budget, and its last byte is a
/// whitespace byte.
pub proof fn lemma_split_words_boundaries(source: Seq<u8>, max_bytes: nat, k: int)
    requires
        max_bytes >= 1,
        split_words(source, max_bytes) is Ok,
        0 <= k < split_words(source, max_bytes)->Ok_0.len(),
    ensures
        ({
            let parts = split_words(source, max_bytes)->Ok_0;
            let start = parts.take(k).flatten().len() as int;
            let end = start + parts[k].len();
            &&& 0 < parts[k].len() <= max_bytes
            &&& end <= source.len()
            &&& parts[k] == source.subrange(start, end)
            &&& is_whitespace(source[end - 1])
        }),
    decreases source.len(),
{
    let parts = split_words(source, max_bytes)->Ok_0;
    let window = window_of(source, max_bytes);
    let cut = last_whitespace_end(window) as int;
    lemma_last_whitespace_end(window);
    let head = source.take(cut);
    assert(head[cut - 1] == window[cut - 1]);
    if k == 0 {
        assert(parts.take(0) =~= Seq::<Seq<u8>>::empty());
        assert(parts[0] == head);
    } else {
        let tail = source.skip(cut);
        let rest = split_words(tail, max_bytes)->Ok_0;
        lemma_split_words_boundaries(tail, max_bytes, k - 1);
        assert(parts[k] == rest[k - 1]);
        assert(parts.take(k) =~= seq![head] + rest.take(k - 1));
        lemma_flatten_concat(seq![head], rest.take(k - 1));
        seq![head].lemma_flatten_one_element();
        let inner = rest.take(k - 1).flatten().len() as int;
        assert(tail.subrange(inner, inner + rest[k - 1].len()) =~= source.subrange(
            cut + inner,
            cut + inner + rest[k - 1].len(),
        ));
    }
}

/// A successful run loses nothing but a last unfinished word: its chunks, put
/// together in sequence order, are the source up to and including its last
/// whitespace byte.
pub proof fn lemma_chunks_cover(chunker: SizeBySpaceChunker, source: Seq<u8>)
    requires
        chunker.plan(source) is Ok,
    ensures
        contents(chunker.plan(source)->Ok_0).flatten() == source.take(
            last_whitespace_end(source) as int,
        ),
{
    let parts = split_words(source, chunker.max_bytes as nat)->Ok_0;
    lemma_split_words_covers(source, chunker.max_bytes as nat);
    assert(contents(byte_pieces(parts)) =~= parts);
}

/// Round trip: for a source that is empty or ends with a whitespace byte, the
/// chunks of a successful run, put together in sequence order, are the source,
/// byte for byte.
pub proof fn lemma_round_trip(chunker: SizeBySpaceChunker, source: Seq<u8>)
    requires
        chunker.plan(source) is Ok,
        source.len() == 0 || is_whitespace(source.last()),
    ensures
        contents(chunker.plan(source)->Ok_0).flatten() == source,
{
    lemma_chunks_cover(chunker, source);
    assert(source.take(source.len() as int) =~= source);
}

/// Whitespace safety: chunk `k` of a successful run is the slice of the
/// source from `start` to `end`, where `start` is the length of the chunks
/// before it. It is not empty and no longer than `max_bytes`, and the byte
/// before `end` is a whitespace byte. So every chunk boundary falls just
/// behind a whitespace byte of the source, and no chunk ends inside a word.
pub proof fn lemma_whitespace_safety(chunker: SizeBySpaceChunker, source: Seq<u8>, k: int)
    requires
        chunker.plan(source) is Ok,
        0 <= k < chunker.plan(source)->Ok_0.len(),
    ensures
        ({
            let parts = contents(chunker.plan(source)->Ok_0);
            let start = parts.take(k).flatten().len() as int;
            let end = start + parts[k].len();
            &&& 0 < parts[k].len() <= chunker.max_bytes
            &&& end <= source.len()
            &&& parts[k] == source.subrange(start, end)
            &&& is_whitespace(source[end - 1])
        }),
{
    let parts = split_words(source, chunker.max_bytes as nat)->Ok_0;
    lemma_split_words_boundaries(source, chunker.max_bytes as nat, k);
    assert(contents(byte_pieces(parts)) =~= parts);
}

} // verus!
