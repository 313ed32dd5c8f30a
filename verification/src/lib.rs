//! Splits a flat source into bounded chunks, either by a fixed number of
//! lines or by a byte budget that never cuts through a word.

pub mod descriptor;
pub mod error;
pub mod line_chunker;
pub mod lines;
pub mod path;
pub mod size_chunker;
pub mod strategy;
pub mod text;
pub mod window;

pub use descriptor::{build_chunker_context, ChunkerContext, FileChunk};
pub use error::ChunkError;
pub use line_chunker::LineChunker;
pub use size_chunker::SizeBySpaceChunker;
pub use strategy::Chunker;
pub use window::{CarryBuffer, Cut};
