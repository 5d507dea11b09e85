//! Splitting a markdown document into chunks: by the first header level the
//! document uses, then by size, with inline base64 images removed.
pub mod chunks;
pub mod images;
pub mod laws;
pub mod pieces;
pub mod sections;

pub use chunks::{embedded_tokens, Chunk, ChunkView, MarkdownParser};
