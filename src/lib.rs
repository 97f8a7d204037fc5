//! An LZMA codec: the stream header, an adaptive binary range coder, a
//! literal-only encoder that terminates unknown-length streams with the
//! format's end-of-stream marker, and a decoder for literals and matches.
pub mod bytes;
pub mod lzma;
pub mod window;
pub mod rangecoder;
pub mod rangedecoder;
pub mod encoder;
pub mod decoder;

pub use decoder::{decode_stream, decompress};
pub use encoder::{CompressOptions, Encoder, WriteUnpackedSize};
pub use lzma::{header_size, DecompressOptions, LzmaError, LzmaParams, LzmaProperties, ReadUnpackedSize};
