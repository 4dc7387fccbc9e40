//! A composite readable stream: concatenates a lazily-supplied sequence of
//! byte sources into one logical stream, read in source order.
//!
//! The heart of the crate is [`MultiReader`], which owns a single-pass
//! producer of sources and at most one currently active source, and exposes
//! one read operation that transparently advances past exhausted sources,
//! reports end-of-stream as a successful zero-byte read, and relays source
//! errors unchanged.

mod error;
mod reader;
mod source;
mod sources;

pub use error::ReadError;
pub use reader::MultiReader;
pub use reader::chunks_of;
pub use reader::concat_of;
pub use reader::lemma_reads_reassemble;
pub use reader::total_of;
pub use source::Source;
pub use source::SourceProducer;
pub use source::flat_remaining;
pub use source::skip_exhausted;
pub use sources::FlakySource;
pub use sources::RepeatSource;
pub use sources::VecProducer;
