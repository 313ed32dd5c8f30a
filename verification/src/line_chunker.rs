//! The line-bounded policy: chunks of `max_lines` lines each, the last one
//! holding what is left.

use vstd::prelude::*;
use vstd::arithmetic::div_mod::{lemma_fundamental_div_mod, lemma_fundamental_div_mod_converse};
use vstd::slice::slice_subrange;
use vstd::utf8::valid_utf8;
use crate::descriptor::{build_chunker_context, ChunkView, ChunkerContext, ContextView, FileChunk};
use crate::error::ChunkError;
use crate::lines::{
    is_utf8,
    lemma_lines_hold_no_newline,
    lemma_lines_of_len,
    lemma_render_lines_concat,
    lemma_render_lines_count,
    lines_of,
    render_lines,
    scan_line,
    LINE_FEED,
};
use crate::path::spec_chunk_path;
use crate::strategy::{contents, describe, Chunker, Piece};

verus! {

/// A chunker that divides a source into chunks of `max_lines` lines.
pub struct LineChunker {
    pub max_lines: usize,
}

/// The number of chunks that `total` lines make: `total / max_lines`, rounded up.
pub open spec fn chunk_count(total: nat, max_lines: nat) -> nat {
    if max_lines == 0 {
        0
    } else {
        ((total + max_lines - 1) / (max_lines as int)) as nat
    }
}

/// The half-open range of lines that chunk `k` holds: `max_lines` lines from
/// line `max_lines * k` on, or fewer where the source ends before.
pub open spec fn line_range(total: nat, max_lines: nat, k: nat) -> (nat, nat) {
    let start = max_lines * k;
    (
        start,
        if start + max_lines <= total {
            start + max_lines
        } else {
            total
        },
    )
}

/// Chunk `k` of `lines`: the lines of its range, each written with a line feed.
pub open spec fn line_piece(lines: Seq<Seq<u8>>, max_lines: nat, k: nat) -> Piece {
    let (start, end) = line_range(lines.len(), max_lines, k);
    Piece { bytes: render_lines(lines.subrange(start as int, end as int)), lines: Some((start, end)) }
}

/// The chunks of `lines` under a limit of `max_lines` lines per chunk.
pub open spec fn split_lines(lines: Seq<Seq<u8>>, max_lines: nat) -> Seq<Piece> {
    Seq::new(chunk_count(lines.len(), max_lines), |k: int| line_piece(lines, max_lines, k as nat))
}

/// Every line is valid UTF-8 text.
pub open spec fn all_utf8(lines: Seq<Seq<u8>>) -> bool {
    forall|i: int| 0 <= i < lines.len() ==> valid_utf8(#[trigger] lines[i])
}

/// `full` whole chunks and a started one with `part` lines make `full` chunks
/// if `part` is zero, and one more otherwise.
pub proof fn lemma_chunk_count(max_lines: nat, full: nat, part: nat)
    requires
        part < max_lines,
    ensures
        chunk_count(max_lines * full + part, max_lines) == if part == 0 {
            full
        } else {
            full + 1
        },
{
    let total = max_lines * full + part;
    assert(max_lines * full == full * max_lines) by (nonlinear_arith);
    if part == 0 {
        lemma_fundamental_div_mod_converse(
            total + max_lines - 1,
            max_lines as int,
            full as int,
            max_lines - 1,
        );
    } else {
        assert((full + 1) * max_lines == full * max_lines + max_lines) by (nonlinear_arith);
        lemma_fundamental_div_mod_converse(
            total + max_lines - 1,
            max_lines as int,
            full as int + 1,
            part - 1,
        );
    }
}

impl LineChunker {
    /// Starts a run over the source named `source`: refuses a limit of zero
    /// lines, and otherwise opens the context of chunk 0 under `out`.
    pub fn begin(&self, source: &str, out: &str) -> (r: Result<ChunkerContext, ChunkError>)
        ensures
            match r {
                Ok(ctx) => self.max_lines >= 1 && ctx@ == (ContextView {
                    source: source@,
                    path: spec_chunk_path(out@, 0),
                    chunk_idx: 0,
                    line_i: 0,
                    byte_i: 0,
                }),
                Err(e) => self.max_lines == 0 && e == ChunkError::InvalidConfiguration,
            },
    {
        if self.max_lines == 0 {
            Err(ChunkError::InvalidConfiguration)
        } else {
            Ok(build_chunker_context(source, out, 0))
        }
    }

    /// Counts a line of `len` bytes as written to the chunk of `ctx`. If the
    /// chunk thereby holds `max_lines` lines it is complete: its descriptor is
    /// returned and `ctx` becomes the fresh context of the next chunk under
    /// `out`.
    pub fn line_written(&self, ctx: &mut ChunkerContext, out: &str, len: usize) -> (full: Option<
        FileChunk,
    >)
        requires
            old(ctx)@.line_i < self.max_lines,
            self.max_lines * old(ctx)@.chunk_idx + old(ctx)@.line_i + 1 <= usize::MAX,
            old(ctx)@.byte_i + len + 1 <= usize::MAX,
        ensures
            match full {
                Some(chunk) => {
                    &&& old(ctx)@.line_i + 1 == self.max_lines
                    &&& chunk@ == (ChunkView {
                        source: old(ctx)@.source,
                        path: old(ctx)@.path,
                        index: old(ctx)@.chunk_idx,
                        lines: Some(
                            (
                                (self.max_lines * old(ctx)@.chunk_idx) as nat,
                                (self.max_lines * old(ctx)@.chunk_idx + self.max_lines) as nat,
                            ),
                        ),
                    })
                    &&& final(ctx)@ == (ContextView {
                        source: old(ctx)@.source,
                        path: spec_chunk_path(out@, old(ctx)@.chunk_idx + 1),
                        chunk_idx: old(ctx)@.chunk_idx + 1,
                        line_i: 0,
                        byte_i: 0,
                    })
                },
                None => {
                    &&& old(ctx)@.line_i + 1 < self.max_lines
                    &&& final(ctx)@ == (ContextView {
                        line_i: old(ctx)@.line_i + 1,
                        byte_i: (old(ctx)@.byte_i + len + 1) as nat,
                        ..old(ctx)@
                    })
                },
            },
    {
        ctx.record_line(len);
        if ctx.line_i() == self.max_lines {
            let idx = ctx.chunk_idx();
            let start = self.max_lines * idx;
            let chunk = ctx.build_line_chunk(start);
            assert(idx < self.max_lines * idx + self.max_lines) by (nonlinear_arith)
                requires
                    self.max_lines >= 1,
            ;
            let next = build_chunker_context(ctx.source(), out, idx + 1);
            *ctx = next;
            Some(chunk)
        } else {
            None
        }
    }

    /// Closes the run when the source has no more lines. A chunk that holds
    /// at least one line is described; an empty one is dropped.
    pub fn source_ended(&self, ctx: &ChunkerContext) -> (partial: Option<FileChunk>)
        requires
            self.max_lines * ctx@.chunk_idx + ctx@.line_i <= usize::MAX,
        ensures
            match partial {
                Some(chunk) => {
                    &&& ctx@.line_i > 0
                    &&& chunk@ == (ChunkView {
                        source: ctx@.source,
                        path: ctx@.path,
                        index: ctx@.chunk_idx,
                        lines: Some(
                            (
                                (self.max_lines * ctx@.chunk_idx) as nat,
                                (self.max_lines * ctx@.chunk_idx + ctx@.line_i) as nat,
                            ),
                        ),
                    })
                },
                None => ctx@.line_i == 0,
            },
    {
        if ctx.line_i() > 0 {
            let start = self.max_lines * ctx.chunk_idx();
            Some(ctx.build_line_chunk(start))
        } else {
            None
        }
    }
}

impl Chunker for LineChunker {
    open spec fn plan(&self, source: Seq<u8>) -> Result<Seq<Piece>, ChunkError> {
        if self.max_lines == 0 {
            Err(ChunkError::InvalidConfiguration)
        } else if !all_utf8(lines_of(source)) {
            Err(ChunkError::LineDecodeError)
        } else {
            Ok(split_lines(lines_of(source), self.max_lines as nat))
        }
    }

    fn chunk(&self, source: &[u8], path: &str, out: &str, chunks: &mut Vec<FileChunk>) -> (written:
        Result<Vec<Vec<u8>>, ChunkError>)
    {
        let mut ctx = match self.begin(path, out) {
            Ok(ctx) => ctx,
            Err(e) => {
                return Err(e);
            },
        };
        let ghost lines = lines_of(source@);
        let ghost m = self.max_lines as nat;
        let ghost mut n: nat = 0;
        let ghost mut base: nat = 0;
        let mut files: Vec<Vec<u8>> = Vec::new();
        let mut made: Vec<FileChunk> = Vec::new();
        let mut content: Vec<u8> = Vec::new();
        let mut pos: usize = 0;
        proof {
            lemma_lines_of_len(source@);
            assert(source@.skip(0) =~= source@);
            assert(lines.skip(0) =~= lines);
            assert(m * 0 == 0) by (nonlinear_arith);
            assert(lines.subrange(0, 0) =~= Seq::<Seq<u8>>::empty());
        }
        while pos < source.len()
            invariant
                pos <= source@.len(),
                m == self.max_lines,
                m >= 1,
                lines == lines_of(source@),
                lines.len() <= source@.len(),
                n <= lines.len(),
                lines.skip(n as int) == lines_of(source@.skip(pos as int)),
                forall|i: int| 0 <= i < n ==> valid_utf8(#[trigger] lines[i]),
                files@.len() == made@.len(),
                base == m * files@.len(),
                n == base + ctx@.line_i,
                ctx@.line_i < m,
                ctx@.byte_i == content@.len(),
                ctx@.source == path@,
                ctx@.path == spec_chunk_path(out@, files@.len() as nat),
                ctx@.chunk_idx == files@.len(),
                content@ == render_lines(lines.subrange(base as int, n as int)),
                forall|k: int|
                    0 <= k < files@.len() ==> (#[trigger] files@[k])@ == line_piece(lines, m, k as nat).bytes,
                forall|k: int|
                    0 <= k < files@.len() ==> (#[trigger] made@[k])@ == describe(
                        line_piece(lines, m, k as nat),
                        path@,
                        out@,
                        k as nat,
                    ),
            decreases source@.len() - pos,
        {
            let (stop, next) = scan_line(source, pos);
            let line = slice_subrange(source, pos, stop);
            proof {
                let rest = lines_of(source@.skip(next as int));
                assert(lines.skip(n as int)[0] == line@);
                assert(lines.skip(n as int).len() == 1 + rest.len());
                assert(lines.skip(n as int + 1) =~= rest) by {
                    assert(lines.skip(n as int + 1) =~= lines.skip(n as int).skip(1));
                    assert((seq![line@] + rest).skip(1) =~= rest);
                }
            }
            if !is_utf8(line) {
                return Err(ChunkError::LineDecodeError);
            }
            content.extend_from_slice(line);
            content.push(LINE_FEED);
            let size = content.len();
            proof {
                let held = lines.subrange(base as int, n as int);
                let grown = lines.subrange(base as int, n as int + 1);
                assert(grown.drop_last() =~= held);
                assert(grown.last() == line@);
                assert(content@ =~= render_lines(held) + line@ + seq![LINE_FEED]);
                assert(size == ctx@.byte_i + line@.len() + 1);
            }
            match self.line_written(&mut ctx, out, line.len()) {
                Some(desc) => {
                    proof {
                        assert(line_range(lines.len(), m, files@.len() as nat) == (base, (base + m) as nat));
                        assert(m * (files@.len() + 1) == base + m) by (nonlinear_arith)
                            requires
                                base == m * files@.len(),
                        ;
                    }
                    files.push(content);
                    made.push(desc);
                    content = Vec::new();
                    proof {
                        base = base + m;
                        assert(lines.subrange(base as int, base as int) =~= Seq::<Seq<u8>>::empty());
                    }
                },
                None => {},
            }
            pos = next;
            proof {
                n = n + 1;
            }
        }
        proof {
            assert(source@.skip(pos as int) =~= Seq::<u8>::empty());
            assert(lines.skip(n as int).len() == 0);
            assert(n == lines.len());
            lemma_chunk_count(m, files@.len() as nat, ctx@.line_i);
            assert(all_utf8(lines));
        }
        match self.source_ended(&ctx) {
            Some(desc) => {
                proof {
                    assert(line_range(lines.len(), m, files@.len() as nat) == (base, n));
                }
                files.push(content);
                made.push(desc);
            },
            None => {},
        }
        chunks.append(&mut made);
        Ok(files)
    }
}

/// `total` lines make `total / max_lines` chunks, rounded up. Every chunk but
/// the last holds `max_lines` lines; the last holds `total % max_lines`
/// lines, or `max_lines` if that is zero.
pub proof fn lemma_chunk_sizes(total: nat, max_lines: nat, k: nat)
    requires
        max_lines >= 1,
        k < chunk_count(total, max_lines),
    ensures
        total > 0,
        max_lines * (chunk_count(total, max_lines) - 1) < total <= max_lines * chunk_count(
            total,
            max_lines,
        ),
        line_range(total, max_lines, k).1 - line_range(total, max_lines, k).0 == if k + 1
            < chunk_count(total, max_lines) {
            max_lines
        } else if total % max_lines == 0 {
            max_lines
        } else {
            total % max_lines
        },
{
    let whole = total / max_lines;
    let part = total % max_lines;
    let count = chunk_count(total, max_lines);
    lemma_fundamental_div_mod(total as int, max_lines as int);
    assert(0 <= part < max_lines);
    assert(0 <= whole) by (nonlinear_arith)
        requires
            total == max_lines * whole + part,
            part < max_lines,
            max_lines >= 1,
            total >= 0,
    ;
    lemma_chunk_count(max_lines, whole, part);
    assert(max_lines * (count - 1) == max_lines * count - max_lines) by (nonlinear_arith);
    if part > 0 {
        assert(max_lines * (whole + 1) == max_lines * whole + max_lines) by (nonlinear_arith);
    }
    if k < whole {
        assert(max_lines * k + max_lines <= max_lines * whole) by (nonlinear_arith)
            requires
                k + 1 <= whole,
                max_lines >= 1,
        ;
    } else {
        assert(k == whole);
    }
}

/// Count invariant: a source of `total` lines is cut into `total / max_lines`
/// chunks, rounded up, and so into none if it has no lines; every chunk but
/// the last holds exactly `max_lines` lines; the last holds
/// `total % max_lines` lines, or `max_lines` if that is zero.
pub proof fn lemma_count_invariant(chunker: LineChunker, source: Seq<u8>)
    requires
        chunker.plan(source) is Ok,
    ensures
        ({
            let plan = chunker.plan(source)->Ok_0;
            let total = lines_of(source).len();
            let max = chunker.max_lines as nat;
            &&& plan.len() == chunk_count(total, max)
            &&& total == 0 <==> plan.len() == 0
            &&& total > 0 ==> max * (plan.len() - 1) < total <= max * plan.len()
            &&& forall|k: int|
                0 <= k < plan.len() ==> (#[trigger] plan[k]).lines is Some && ({
                    let (start, end) = plan[k].lines->Some_0;
                    end - start == if k + 1 < plan.len() {
                        max
                    } else if total % max == 0 {
                        max
                    } else {
                        total % max
                    }
                })
        }),
{
    let plan = chunker.plan(source)->Ok_0;
    let total = lines_of(source).len();
    let max = chunker.max_lines as nat;
    if total == 0 {
        lemma_chunk_count(max, 0, 0);
        assert(max * 0 == 0) by (nonlinear_arith);
    } else {
        if plan.len() == 0 {
            lemma_fundamental_div_mod(total as int, max as int);
            let whole = total / max;
            let part = total % max;
            assert(0 <= whole) by (nonlinear_arith)
                requires
                    total == max * whole + part,
                    part < max,
                    max >= 1,
                    total >= 0,
            ;
            lemma_chunk_count(max, whole, part);
            assert(max * 0 == 0) by (nonlinear_arith);
        }
        lemma_chunk_sizes(total, max, 0);
    }
    assert forall|k: int| 0 <= k < plan.len() implies (#[trigger] plan[k]).lines is Some && ({
        let (start, end) = plan[k].lines->Some_0;
        end - start == if k + 1 < plan.len() {
            max
        } else if total % max == 0 {
            max
        } else {
            total % max
        }
    }) by {
        lemma_chunk_sizes(total, max, k as nat);
    }
}

/// No empty chunk: a line-bounded run describes no chunk without lines.
pub proof fn lemma_no_empty_chunk(chunker: LineChunker, source: Seq<u8>, k: int)
    requires
        chunker.plan(source) is Ok,
        0 <= k < chunker.plan(source)->Ok_0.len(),
    ensures
        chunker.plan(source)->Ok_0[k].lines is Some,
        chunker.plan(source)->Ok_0[k].lines->Some_0.0 < chunker.plan(source)->Ok_0[k].lines->Some_0.1,
{
    lemma_chunk_sizes(lines_of(source).len(), chunker.max_lines as nat, k as nat);
}

/// The line ranges of the chunks lie end to end without gap or overlap: the
/// first starts at line 0, each one starts where the one before it ends, and
/// the last ends with the last line of the source.
pub proof fn lemma_line_ranges_tile(chunker: LineChunker, source: Seq<u8>, k: int)
    requires
        chunker.plan(source) is Ok,
        0 <= k < chunker.plan(source)->Ok_0.len(),
    ensures
        ({
            let plan = chunker.plan(source)->Ok_0;
            &&& k == 0 ==> plan[k].lines->Some_0.0 == 0
            &&& k + 1 < plan.len() ==> plan[k].lines->Some_0.1 == plan[k + 1].lines->Some_0.0
            &&& k + 1 == plan.len() ==> plan[k].lines->Some_0.1 == lines_of(source).len()
        }),
{
    let total = lines_of(source).len();
    let max = chunker.max_lines as nat;
    lemma_chunk_sizes(total, max, k as nat);
    assert(max * 0 == 0) by (nonlinear_arith);
    assert(max * (k + 1) == max * k + max) by (nonlinear_arith);
    if k + 1 == chunk_count(total, max) {
        let count = chunk_count(total, max);
        assert(max * (count - 1) == max * k);
        assert(max * count == max * k + max);
    }
}

/// Re-read consistency: the bytes of a chunk of a line-bounded run, read
/// again as lines, hold exactly as many lines as the chunk's range says.
pub proof fn lemma_reread_consistent(chunker: LineChunker, source: Seq<u8>, k: int)
    requires
        chunker.plan(source) is Ok,
        0 <= k < chunker.plan(source)->Ok_0.len(),
    ensures
        ({
            let piece = chunker.plan(source)->Ok_0[k];
            lines_of(piece.bytes).len() == piece.lines->Some_0.1 - piece.lines->Some_0.0
        }),
{
    let lines = lines_of(source);
    let max = chunker.max_lines as nat;
    let (start, end) = line_range(lines.len(), max, k as nat);
    lemma_chunk_sizes(lines.len(), max, k as nat);
    let held = lines.subrange(start as int, end as int);
    assert forall|i: int, j: int| 0 <= i < held.len() && 0 <= j < held[i].len() implies #[trigger] held[i][j]
        != LINE_FEED by {
        lemma_lines_hold_no_newline(source, start + i);
    }
    lemma_render_lines_count(held);
}

/// The first `j` chunks of a line-bounded run hold, put together, the lines
/// before the range of chunk `j`, each written with a line feed.
proof fn lemma_first_chunks_hold(lines: Seq<Seq<u8>>, max_lines: nat, j: nat)
    requires
        max_lines >= 1,
        j <= chunk_count(lines.len(), max_lines),
    ensures
        contents(split_lines(lines, max_lines)).take(j as int).flatten() == render_lines(
            lines.take(
                if max_lines * j <= lines.len() {
                    (max_lines * j) as int
                } else {
                    lines.len() as int
                },
            ),
        ),
    decreases j,
{
    let parts = contents(split_lines(lines, max_lines));
    if j == 0 {
        assert(max_lines * 0 == 0) by (nonlinear_arith);
        assert(parts.take(0) =~= Seq::<Seq<u8>>::empty());
        assert(lines.take(0) =~= Seq::<Seq<u8>>::empty());
    } else {
        let k = (j - 1) as nat;
        lemma_first_chunks_hold(lines, max_lines, k);
        lemma_chunk_sizes(lines.len(), max_lines, k);
        assert(max_lines * (k + 1) == max_lines * k + max_lines) by (nonlinear_arith);
        let (start, end) = line_range(lines.len(), max_lines, k);
        assert(start < lines.len()) by {
            let count = chunk_count(lines.len(), max_lines);
            assert(max_lines * k <= max_lines * (count - 1)) by (nonlinear_arith)
                requires
                    k <= count - 1,
                    max_lines >= 1,
            ;
        }
        assert(parts.take(j as int) =~= parts.take(k as int).push(parts[k as int]));
        parts.take(k as int).lemma_flatten_push(parts[k as int]);
        assert(parts[k as int] == render_lines(lines.subrange(start as int, end as int)));
        lemma_render_lines_concat(lines.take(start as int), lines.subrange(start as int, end as int));
        assert(lines.take(start as int) + lines.subrange(start as int, end as int) =~= lines.take(
            end as int,
        ));
    }
}

/// Nothing is lost and nothing is added: the chunks of a line-bounded run,
/// put together in sequence order, are the lines of the source in order,
/// each written with a line feed.
pub proof fn lemma_lines_kept(chunker: LineChunker, source: Seq<u8>)
    requires
        chunker.plan(source) is Ok,
    ensures
        contents(chunker.plan(source)->Ok_0).flatten() == render_lines(lines_of(source)),
{
    let lines = lines_of(source);
    let max = chunker.max_lines as nat;
    let parts = contents(split_lines(lines, max));
    let count = chunk_count(lines.len(), max);
    lemma_first_chunks_hold(lines, max, count);
    assert(parts.take(count as int) =~= parts);
    if count == 0 {
        lemma_chunk_count(max, 0, 0);
        lemma_fundamental_div_mod(lines.len() as int, max as int);
        let whole = lines.len() / max;
        let part = lines.len() % max;
        assert(0 <= whole) by (nonlinear_arith)
            requires
                lines.len() == max * whole + part,
                part < max,
                max >= 1,
        ;
        lemma_chunk_count(max, whole, part);
        assert(lines.len() == 0) by (nonlinear_arith)
            requires
                lines.len() == max * whole + part,
                whole == 0,
                part == 0,
        ;
    } else {
        lemma_chunk_sizes(lines.len(), max, (count - 1) as nat);
        if max * count <= lines.len() {
            assert(max * count == lines.len());
        }
    }
    assert(lines.take(lines.len() as int) =~= lines);
}

} // verus!
