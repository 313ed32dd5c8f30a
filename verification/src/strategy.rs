//! The interface that both boundary policies offer: from a source to its
//! chunks and their descriptors.

use vstd::prelude::*;
use crate::descriptor::{ChunkView, FileChunk};
use crate::error::ChunkError;
use crate::path::spec_chunk_path;

verus! {

/// One chunk as a policy prescribes it: its bytes and, in line-bounded mode,
/// the half-open range of source lines it holds.
pub struct Piece {
    pub bytes: Seq<u8>,
    pub lines: Option<(nat, nat)>,
}

/// The bytes of each chunk of `plan`, in sequence order.
pub open spec fn contents(plan: Seq<Piece>) -> Seq<Seq<u8>> {
    Seq::new(plan.len(), |k: int| plan[k].bytes)
}

/// The descriptor owed for the `k`-th chunk of the source named `source`,
/// written under the directory `out`.
pub open spec fn describe(piece: Piece, source: Seq<char>, out: Seq<char>, k: nat) -> ChunkView {
    ChunkView { source, path: spec_chunk_path(out, k), index: k, lines: piece.lines }
}

/// `files` holds the bytes of each chunk of `plan` in order, and `after` is
/// `before` followed by one descriptor for each of them.
pub open spec fn delivered(
    plan: Seq<Piece>,
    source: Seq<char>,
    out: Seq<char>,
    before: Seq<FileChunk>,
    after: Seq<FileChunk>,
    files: Seq<Vec<u8>>,
) -> bool {
    &&& files.len() == plan.len()
    &&& forall|k: int| 0 <= k < plan.len() ==> (#[trigger] files[k])@ == plan[k].bytes
    &&& after.len() == before.len() + plan.len()
    &&& forall|j: int| 0 <= j < before.len() ==> #[trigger] after[j] == before[j]
    &&& forall|j: int|
        before.len() <= j < after.len() ==> (#[trigger] after[j])@ == describe(
            plan[j - before.len()],
            source,
            out,
            (j - before.len()) as nat,
        )
}

/// A boundary policy: it decides where one chunk ends and the next begins.
pub trait Chunker {
    /// The chunks that this policy cuts `source` into, or the reason why it
    /// refuses to.
    spec fn plan(&self, source: Seq<u8>) -> Result<Seq<Piece>, ChunkError>;

    /// Cuts `source` into chunks. On success the result holds the bytes of
    /// each chunk in sequence order, and one descriptor per chunk has been
    /// appended to `chunks`: chunk `k` is described as chunk `k` of the source
    /// named `path`, stored in the file named by `k` under `out`. On failure
    /// `chunks` is left as it was.
    fn chunk(&self, source: &[u8], path: &str, out: &str, chunks: &mut Vec<FileChunk>) -> (written:
        Result<Vec<Vec<u8>>, ChunkError>)
        ensures
            match written {
                Ok(files) => self.plan(source@) is Ok && delivered(
                    self.plan(source@)->Ok_0,
                    path@,
                    out@,
                    old(chunks)@,
                    final(chunks)@,
                    files@,
                ),
                Err(e) => self.plan(source@) == Err::<Seq<Piece>, ChunkError>(e) && final(chunks)@
                    == old(chunks)@,
            },
    ;
}

} // verus!
