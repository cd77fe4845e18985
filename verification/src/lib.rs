//! Streaming Huffman compression with optional AES-256-GCM encryption.
//!
//! The verified core of the library: flag bits, Adler-32 checksums, Huffman
//! trees and code tables, bit-level packing, the `.small` header format,
//! chunked authenticated encryption, the compress/decompress pipeline and
//! archives, over in-memory byte buffers.

pub mod archive;
pub mod checksum;
pub mod compress;
pub mod constants;
pub mod crypto;
pub mod decompress;
pub mod error;
pub mod errors;
pub mod flags;
pub mod headers;
pub mod huffman;
pub mod io;
pub mod progress;

pub use constants::{MAGIC_BYTES, VERSION};
pub use crypto::DEFAULT_CHUNK_SIZE;
pub use decompress::decompress_stream;
pub use error::{CompressionError, DecompressionError, MismallError};
