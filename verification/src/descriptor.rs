//! The record that describes one finished chunk, and the per-chunk state from
//! which it is made.

use vstd::prelude::*;
use crate::lines::{count_lines, lines_of};
use crate::path::{chunk_path, spec_chunk_path};

verus! {

/// What a `FileChunk` says, as mathematical values.
pub struct ChunkView {
    /// The source the chunk was cut from.
    pub source: Seq<char>,
    /// Where the chunk's bytes live.
    pub path: Seq<char>,
    /// The chunk's position among the chunks of its source, from zero.
    pub index: nat,
    /// For a line-bounded chunk, the half-open range of source lines it holds.
    pub lines: Option<(nat, nat)>,
}

impl ChunkView {
    /// The number of lines in the chunk's range, for a line-bounded chunk.
    pub open spec fn line_count(self) -> Option<nat> {
        match self.lines {
            Some((start, end)) => Some((end - start) as nat),
            None => None,
        }
    }
}

/// Describes one chunk: the source it came from, the file that holds it, its
/// sequence index and, in line-bounded mode, its range of source lines.
#[derive(Debug)]
pub struct FileChunk {
    source: String,
    path: String,
    index: usize,
    lines: Option<(usize, usize)>,
}

impl View for FileChunk {
    type V = ChunkView;

    closed spec fn view(&self) -> ChunkView {
        ChunkView {
            source: self.source@,
            path: self.path@,
            index: self.index as nat,
            lines: match self.lines {
                Some((start, end)) => Some((start as nat, end as nat)),
                None => None,
            },
        }
    }
}

impl FileChunk {
    #[verifier::type_invariant]
    spec fn ordered(&self) -> bool {
        match self.lines {
            Some((start, end)) => start <= end,
            None => true,
        }
    }

    /// The source this chunk was cut from.
    pub fn source(&self) -> (s: &str)
        ensures
            s@ == self@.source,
    {
        self.source.as_str()
    }

    /// The file that holds this chunk's bytes.
    pub fn path(&self) -> (s: &str)
        ensures
            s@ == self@.path,
    {
        self.path.as_str()
    }

    /// The chunk's sequence index.
    pub fn index(&self) -> (i: usize)
        ensures
            i == self@.index,
    {
        self.index
    }

    /// The first source line of a line-bounded chunk.
    pub fn line_start(&self) -> (start: Option<usize>)
        ensures
            match start {
                Some(s) => self@.lines is Some && s == self@.lines->Some_0.0,
                None => self@.lines is None,
            },
    {
        match self.lines {
            Some((start, _)) => Some(start),
            None => None,
        }
    }

    /// One past the last source line of a line-bounded chunk.
    pub fn line_end(&self) -> (end: Option<usize>)
        ensures
            match end {
                Some(e) => self@.lines is Some && e == self@.lines->Some_0.1,
                None => self@.lines is None,
            },
    {
        match self.lines {
            Some((_, end)) => Some(end),
            None => None,
        }
    }

    /// The number of lines a line-bounded chunk reports: the length of its
    /// line range.
    pub fn line_count(&self) -> (count: Option<usize>)
        ensures
            match count {
                Some(n) => self@.line_count() == Some(n as nat),
                None => self@.line_count() is None,
            },
            self@.lines matches Some((start, end)) ==> start <= end,
    {
        proof {
            use_type_invariant(self);
        }
        match self.lines {
            Some((start, end)) => Some(end - start),
            None => None,
        }
    }
}

impl FileChunk {
    /// Counts the lines that `content`, the bytes read back from this chunk's
    /// file, really holds. It serves to check `line_count` against the file.
    pub fn true_line_count(&self, content: &[u8]) -> (count: usize)
        ensures
            count == lines_of(content@).len(),
    {
        count_lines(content)
    }
}

/// What a `ChunkerContext` holds, as mathematical values.
pub struct ContextView {
    pub source: Seq<char>,
    pub path: Seq<char>,
    pub chunk_idx: nat,
    pub line_i: nat,
    pub byte_i: nat,
}

/// The state of the chunk under construction: its source, its file, its
/// sequence index, and how many lines and bytes have gone into it so far.
pub struct ChunkerContext {
    source: String,
    path: String,
    chunk_idx: usize,
    line_i: usize,
    byte_i: usize,
}

impl View for ChunkerContext {
    type V = ContextView;

    closed spec fn view(&self) -> ContextView {
        ContextView {
            source: self.source@,
            path: self.path@,
            chunk_idx: self.chunk_idx as nat,
            line_i: self.line_i as nat,
            byte_i: self.byte_i as nat,
        }
    }
}

/// Starts the context of the chunk with sequence index `chunk_idx`: its file
/// is named by that index under `out`, and its counters are zero.
pub fn build_chunker_context(source: &str, out: &str, chunk_idx: usize) -> (ctx: ChunkerContext)
    ensures
        ctx@ == (ContextView {
            source: source@,
            path: spec_chunk_path(out@, chunk_idx as nat),
            chunk_idx: chunk_idx as nat,
            line_i: 0,
            byte_i: 0,
        }),
{
    ChunkerContext {
        source: source.to_owned(),
        path: chunk_path(out, chunk_idx),
        chunk_idx,
        line_i: 0,
        byte_i: 0,
    }
}

impl ChunkerContext {
    /// The source that is being chunked.
    pub fn source(&self) -> (s: &str)
        ensures
            s@ == self@.source,
    {
        self.source.as_str()
    }

    /// The file of the chunk under construction.
    pub fn path(&self) -> (s: &str)
        ensures
            s@ == self@.path,
    {
        self.path.as_str()
    }

    /// The sequence index of the chunk under construction.
    pub fn chunk_idx(&self) -> (i: usize)
        ensures
            i == self@.chunk_idx,
    {
        self.chunk_idx
    }

    /// The number of lines written to the chunk so far.
    pub fn line_i(&self) -> (n: usize)
        ensures
            n == self@.line_i,
    {
        self.line_i
    }

    /// The number of bytes written to the chunk so far.
    pub fn byte_i(&self) -> (n: usize)
        ensures
            n == self@.byte_i,
    {
        self.byte_i
    }

    /// Counts one line of `len` bytes and its terminator as written.
    pub fn record_line(&mut self, len: usize)
        requires
            old(self)@.line_i < usize::MAX,
            old(self)@.byte_i + len + 1 <= usize::MAX,
        ensures
            final(self)@ == (ContextView {
                line_i: old(self)@.line_i + 1nat,
                byte_i: (old(self)@.byte_i + len + 1) as nat,
                ..old(self)@
            }),
    {
        self.line_i = self.line_i + 1;
        self.byte_i = self.byte_i + len + 1;
    }

    /// The descriptor of the chunk, without a line range.
    pub fn build_chunk(&self) -> (chunk: FileChunk)
        ensures
            chunk@ == (ChunkView {
                source: self@.source,
                path: self@.path,
                index: self@.chunk_idx,
                lines: None,
            }),
    {
        FileChunk { source: self.source.clone(), path: self.path.clone(), index: self.chunk_idx, lines: None }
    }

    /// The descriptor of a line-bounded chunk whose first line is line
    /// `line_start` of the source: its range ends `line_i` lines later.
    pub fn build_line_chunk(&self, line_start: usize) -> (chunk: FileChunk)
        requires
            line_start + self@.line_i <= usize::MAX,
        ensures
            chunk@ == (ChunkView {
                source: self@.source,
                path: self@.path,
                index: self@.chunk_idx,
                lines: Some((line_start as nat, (line_start + self@.line_i) as nat)),
            }),
    {
        FileChunk {
            source: self.source.clone(),
            path: self.path.clone(),
            index: self.chunk_idx,
            lines: Some((line_start, line_start + self.line_i)),
        }
    }
}

} // verus!
