use vstd::prelude::*;
use crate::error::{CompressionError, MismallError};

verus! {

/// Smallest accepted chunk size (64 KiB).
pub const MIN_CHUNK_SIZE: usize = 65536;

/// Largest accepted chunk size (1 GiB).
pub const MAX_CHUNK_SIZE: usize = 1073741824;

/// A chunk size is accepted from 64 KiB to 1 GiB.
pub open spec fn valid_chunk_size(chunk_size: usize) -> bool {
    MIN_CHUNK_SIZE <= chunk_size <= MAX_CHUNK_SIZE
}

/// Checks that `chunk_size` lies between 64 KiB and 1 GiB.
pub fn validate_chunk_size(chunk_size: usize) -> (r: Result<(), MismallError>)
    ensures
        valid_chunk_size(chunk_size) ==> r is Ok,
        !valid_chunk_size(chunk_size) ==> (r matches Err(
            MismallError::Compression { error: CompressionError::InvalidChunkSize(c), context: None, suggestion: None },
        ) && c == chunk_size),
{
    if chunk_size < MIN_CHUNK_SIZE || chunk_size > MAX_CHUNK_SIZE {
        Err(
            MismallError::Compression {
                error: CompressionError::InvalidChunkSize(chunk_size),
                context: None,
                suggestion: None,
            },
        )
    } else {
        Ok(())
    }
}

} // verus!
