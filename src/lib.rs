//! Text segmentation for extracted document text: an artifact filter that drops
//! page-number lines, a page segmenter that rebuilds per-page text from standalone
//! numeric lines, and a fixed-size overlapping chunker.
use vstd::prelude::*;

pub mod chunks;
pub mod filter;
pub mod pages;
pub mod text;

pub use chunks::{chunk_text, ChunkConfigError, TextChunk};
pub use filter::clean_text;
pub use pages::{split_text_into_pages, Page};

verus! {

} // verus!
