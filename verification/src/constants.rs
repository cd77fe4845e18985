use vstd::prelude::*;

verus! {

/// The four bytes every `.small` header starts with (`"SMAL"`).
pub const MAGIC_BYTES: [u8; 4] = [83u8, 77u8, 65u8, 76u8];

/// The header format version this library reads and writes.
pub const VERSION: u8 = 1;

/// Flag bit: the payload is encrypted.
pub const ENCRYPTED: u8 = 1;

/// Flag bit: the header carries a checksum.
pub const HAS_CHECKSUM: u8 = 2;

/// Flag bit: the payload is the original data, stored without Huffman coding.
pub const STORED_RAW: u8 = 4;

/// Flag bit: the body is a sequence of embedded `.small` files.
pub const IS_ARCHIVE: u8 = 8;

/// Length of the key-derivation salt in bytes.
pub const SALT_LENGTH: usize = 16;

/// Length of an initialisation vector in bytes.
pub const IV_LENGTH: usize = 16;

} // verus!
