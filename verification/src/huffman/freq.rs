use vstd::prelude::*;
use crate::checksum::{adler32_stream, spec_adler32};
use super::byte_count;
use super::tree::freq_sum;

verus! {

/// One pass over the input: the frequency of every byte value, the Adler-32
/// checksum and the size of the input.
pub fn compute_frequencies(reader: &[u8]) -> (r: ([u64; 256], u32, u64))
    ensures
        forall|b: u8| #[trigger] r.0@[b as int] == byte_count(reader@, b),
        freq_sum(r.0@, 256) == reader.len(),
        r.1 == spec_adler32(reader@),
        r.2 == reader.len(),
{
    let freq = super::compute_frequencies(reader);
    let (checksum, original_size) = adler32_stream(reader);
    (freq, checksum, original_size)
}

} // verus!
