use vstd::prelude::*;
use crate::constants::{ENCRYPTED, HAS_CHECKSUM, IS_ARCHIVE, STORED_RAW};

verus! {

/// Sets the `ENCRYPTED` bit.
pub fn flip_encrypted(flags: &mut u8)
    ensures
        *final(flags) == *old(flags) | ENCRYPTED,
{
    *flags = *flags | ENCRYPTED;
}

/// Whether the `ENCRYPTED` bit is set.
pub fn is_encrypted(flags: u8) -> (r: bool)
    ensures
        r == (flags & ENCRYPTED != 0),
{
    flags & ENCRYPTED != 0
}

/// Sets the `HAS_CHECKSUM` bit.
pub fn flip_has_checksum(flags: &mut u8)
    ensures
        *final(flags) == *old(flags) | HAS_CHECKSUM,
{
    *flags = *flags | HAS_CHECKSUM;
}

/// Whether the `HAS_CHECKSUM` bit is set.
pub fn has_checksum(flags: u8) -> (r: bool)
    ensures
        r == (flags & HAS_CHECKSUM != 0),
{
    flags & HAS_CHECKSUM != 0
}

/// Sets the `STORED_RAW` bit.
pub fn flip_stored_raw(flags: &mut u8)
    ensures
        *final(flags) == *old(flags) | STORED_RAW,
{
    *flags = *flags | STORED_RAW;
}

/// Whether the `STORED_RAW` bit is set.
pub fn is_stored_raw(flags: u8) -> (r: bool)
    ensures
        r == (flags & STORED_RAW != 0),
{
    flags & STORED_RAW != 0
}

/// Sets the `IS_ARCHIVE` bit.
pub fn flip_is_archive(flags: &mut u8)
    ensures
        *final(flags) == *old(flags) | IS_ARCHIVE,
{
    *flags = *flags | IS_ARCHIVE;
}

/// Whether the `IS_ARCHIVE` bit is set.
pub fn is_archive(flags: u8) -> (r: bool)
    ensures
        r == (flags & IS_ARCHIVE != 0),
{
    flags & IS_ARCHIVE != 0
}

/// Setting one flag bit makes it read as set and leaves every other flag bit
/// as it was: the four flags are independent.
pub proof fn lemma_flags_independent(f: u8)
    ensures
        (f | ENCRYPTED) & ENCRYPTED != 0,
        (f | HAS_CHECKSUM) & HAS_CHECKSUM != 0,
        (f | STORED_RAW) & STORED_RAW != 0,
        (f | IS_ARCHIVE) & IS_ARCHIVE != 0,
        ((f | ENCRYPTED) & HAS_CHECKSUM != 0) == (f & HAS_CHECKSUM != 0),
        ((f | ENCRYPTED) & STORED_RAW != 0) == (f & STORED_RAW != 0),
        ((f | ENCRYPTED) & IS_ARCHIVE != 0) == (f & IS_ARCHIVE != 0),
        ((f | HAS_CHECKSUM) & ENCRYPTED != 0) == (f & ENCRYPTED != 0),
        ((f | HAS_CHECKSUM) & STORED_RAW != 0) == (f & STORED_RAW != 0),
        ((f | HAS_CHECKSUM) & IS_ARCHIVE != 0) == (f & IS_ARCHIVE != 0),
        ((f | STORED_RAW) & ENCRYPTED != 0) == (f & ENCRYPTED != 0),
        ((f | STORED_RAW) & HAS_CHECKSUM != 0) == (f & HAS_CHECKSUM != 0),
        ((f | STORED_RAW) & IS_ARCHIVE != 0) == (f & IS_ARCHIVE != 0),
        ((f | IS_ARCHIVE) & ENCRYPTED != 0) == (f & ENCRYPTED != 0),
        ((f | IS_ARCHIVE) & HAS_CHECKSUM != 0) == (f & HAS_CHECKSUM != 0),
        ((f | IS_ARCHIVE) & STORED_RAW != 0) == (f & STORED_RAW != 0),
        (0u8 & ENCRYPTED == 0) && (0u8 & HAS_CHECKSUM == 0) && (0u8 & STORED_RAW == 0)
            && (0u8 & IS_ARCHIVE == 0),
{
    assert(
        (f | 1u8) & 1u8 != 0 && (f | 2u8) & 2u8 != 0 && (f | 4u8) & 4u8 != 0 && (f | 8u8) & 8u8 != 0
    ) by (bit_vector);
    assert(((f | 1u8) & 2u8 != 0) == (f & 2u8 != 0) && ((f | 1u8) & 4u8 != 0) == (f & 4u8 != 0)
        && ((f | 1u8) & 8u8 != 0) == (f & 8u8 != 0)) by (bit_vector);
    assert(((f | 2u8) & 1u8 != 0) == (f & 1u8 != 0) && ((f | 2u8) & 4u8 != 0) == (f & 4u8 != 0)
        && ((f | 2u8) & 8u8 != 0) == (f & 8u8 != 0)) by (bit_vector);
    assert(((f | 4u8) & 1u8 != 0) == (f & 1u8 != 0) && ((f | 4u8) & 2u8 != 0) == (f & 2u8 != 0)
        && ((f | 4u8) & 8u8 != 0) == (f & 8u8 != 0)) by (bit_vector);
    assert(((f | 8u8) & 1u8 != 0) == (f & 1u8 != 0) && ((f | 8u8) & 2u8 != 0) == (f & 2u8 != 0)
        && ((f | 8u8) & 4u8 != 0) == (f & 4u8 != 0)) by (bit_vector);
    assert(0u8 & 1u8 == 0 && 0u8 & 2u8 == 0 && 0u8 & 4u8 == 0 && 0u8 & 8u8 == 0) by (bit_vector);
}

} // verus!
