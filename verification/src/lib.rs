//! Markdown chunking and the pure logic of a local retrieval pipeline.
pub mod text;
pub mod markdown;
pub mod tables;
pub mod prompts;
pub mod ranking;
pub mod stats;
