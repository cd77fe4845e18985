use vstd::prelude::*;
use vstd::arithmetic::div_mod::lemma_add_mod_noop;

verus! {

/// Modulus of the Adler-32 sums.
pub const MOD_ADLER: u64 = 65521;

/// The two running sums of Adler-32 without any reduction: `s1` is one plus the
/// sum of the bytes, `s2` is the sum of the successive values of `s1`.
pub open spec fn adler_sums(data: Seq<u8>) -> (int, int)
    decreases data.len(),
{
    if data.len() == 0 {
        (1, 0)
    } else {
        let (a, b) = adler_sums(data.drop_last());
        (a + data.last(), b + a + data.last())
    }
}

/// Packs the two reduced sums into the 32-bit checksum.
pub open spec fn adler_pack(s1: int, s2: int) -> u32 {
    (s2 * 65536 + s1) as u32
}

/// The Adler-32 checksum of `data`.
pub open spec fn spec_adler32(data: Seq<u8>) -> u32 {
    adler_pack(adler_sums(data).0 % 65521, adler_sums(data).1 % 65521)
}

/// The sums after feeding `data` to the incremental update, starting from `(s1, s2)`.
pub open spec fn adler_update(s1: int, s2: int, data: Seq<u8>) -> (int, int)
    decreases data.len(),
{
    if data.len() == 0 {
        (s1, s2)
    } else {
        let (a, b) = adler_update(s1, s2, data.drop_last());
        let a2 = (a + data.last()) % 65521;
        (a2, (b + a2) % 65521)
    }
}

/// The incremental update started from `(1, 0)` yields the reduced unreduced sums.
proof fn lemma_update_is_reduced_sums(data: Seq<u8>)
    ensures
        adler_update(1, 0, data) == (adler_sums(data).0 % 65521, adler_sums(data).1 % 65521),
    decreases data.len(),
{
    if data.len() > 0 {
        let d = data.drop_last();
        lemma_update_is_reduced_sums(d);
        let (a, b) = adler_sums(d);
        let x = data.last() as int;
        lemma_add_mod_noop(a, x, 65521);
        assert((a % 65521 + x % 65521) % 65521 == (a + x) % 65521);
        assert(x % 65521 == x);
        lemma_add_mod_noop(b, a + x, 65521);
        assert(((a + x) % 65521) % 65521 == (a + x) % 65521) by {
            vstd::arithmetic::div_mod::lemma_mod_twice(a + x, 65521);
        }
    }
}

proof fn lemma_pack_bits(s1: u64, s2: u64)
    requires
        s1 < 65536,
        s2 < 65536,
    ensures
        ((s2 << 16u64) | s1) as u32 == adler_pack(s1 as int, s2 as int),
        ((s2 << 16u64) | s1) == s2 * 65536 + s1,
{
    assert(((s2 << 16u64) | s1) == s2 * 65536 + s1) by (bit_vector)
        requires
            s1 < 65536,
            s2 < 65536,
    ;
}

/// Calculates the Adler-32 checksum of a byte slice. Both sums are reduced
/// modulo 65521 after every byte, which gives the same residues as reducing
/// once at the end and keeps them within 64 bits for any length.
pub fn adler32(data: &[u8]) -> (r: u32)
    ensures
        r == spec_adler32(data@),
{
    let mut s1: u64 = 1;
    let mut s2: u64 = 0;
    let mut i: usize = 0;
    while i < data.len()
        invariant
            0 <= i <= data.len(),
            (s1 as int, s2 as int) == adler_update(1, 0, data@.take(i as int)),
            s1 < 65521,
            s2 < 65521,
        decreases data.len() - i,
    {
        proof {
            assert(data@.take(i + 1).drop_last() =~= data@.take(i as int));
        }
        s1 = (s1 + data[i] as u64) % MOD_ADLER;
        s2 = (s2 + s1) % MOD_ADLER;
        i = i + 1;
    }
    proof {
        assert(data@.take(i as int) =~= data@);
        lemma_stream_matches_adler32(data@);
        lemma_pack_bits(s1, s2);
    }
    ((s2 << 16) | s1) as u32
}

/// Updates Adler-32 checksum components incrementally.
pub fn adler32_stream_update(s1: &mut u64, s2: &mut u64, data: &[u8])
    requires
        data.len() > 0 ==> *old(s1) + data[0] <= u64::MAX,
        data.len() > 0 ==> *old(s2) + (*old(s1) + data[0]) % 65521 <= u64::MAX,
    ensures
        (*final(s1) as int, *final(s2) as int) == adler_update(*old(s1) as int, *old(s2) as int, data@),
        data.len() > 0 ==> *final(s1) < 65521 && *final(s2) < 65521,
        data.len() == 0 ==> *final(s1) == *old(s1) && *final(s2) == *old(s2),
{
    let ghost s1_0 = *s1 as int;
    let ghost s2_0 = *s2 as int;
    let mut i: usize = 0;
    while i < data.len()
        invariant
            0 <= i <= data.len(),
            data.len() > 0 ==> s1_0 + data[0] <= u64::MAX,
            data.len() > 0 ==> s2_0 + (s1_0 + data[0]) % 65521 <= u64::MAX,
            (*s1 as int, *s2 as int) == adler_update(s1_0, s2_0, data@.take(i as int)),
            i > 0 ==> *s1 < 65521 && *s2 < 65521,
        decreases data.len() - i,
    {
        proof {
            assert(data@.take(i + 1).drop_last() =~= data@.take(i as int));
            assert(data@.take(0) =~= Seq::<u8>::empty());
        }
        *s1 = (*s1 + data[i] as u64) % MOD_ADLER;
        *s2 = (*s2 + *s1) % MOD_ADLER;
        i = i + 1;
    }
    proof {
        assert(data@.take(i as int) =~= data@);
    }
}

/// Finalizes Adler-32 checksum from components.
pub fn adler32_stream_finalize(s1: u64, s2: u64) -> (r: u32)
    ensures
        r == ((s2 << 16u64) | s1) as u32,
        s1 < 65536 && s2 < 65536 ==> r == adler_pack(s1 as int, s2 as int),
{
    proof {
        if s1 < 65536 && s2 < 65536 {
            lemma_pack_bits(s1, s2);
        }
    }
    ((s2 << 16) | s1) as u32
}

/// The incremental form agrees with the one-shot form: feeding `data` to the
/// update from `(1, 0)` and finalizing gives the Adler-32 checksum of `data`.
pub proof fn lemma_stream_matches_adler32(data: Seq<u8>)
    ensures
        adler_update(1, 0, data).0 < 65521,
        adler_update(1, 0, data).1 < 65521,
        adler_pack(adler_update(1, 0, data).0, adler_update(1, 0, data).1) == spec_adler32(data),
{
    lemma_update_is_reduced_sums(data);
}

/// Feeding two pieces one after the other is feeding their concatenation.
pub proof fn lemma_update_concat(s1: int, s2: int, a: Seq<u8>, b: Seq<u8>)
    ensures
        adler_update(s1, s2, a + b) == adler_update(
            adler_update(s1, s2, a).0,
            adler_update(s1, s2, a).1,
            b,
        ),
    decreases b.len(),
{
    if b.len() == 0 {
        assert(a + b =~= a);
    } else {
        lemma_update_concat(s1, s2, a, b.drop_last());
        assert((a + b).drop_last() =~= a + b.drop_last());
    }
}

/// Calculates the Adler-32 checksum and the size of a byte stream, consuming it
/// in 4 KiB pieces.
pub fn adler32_stream(data: &[u8]) -> (r: (u32, u64))
    requires
        data.len() <= u64::MAX,
    ensures
        r.0 == spec_adler32(data@),
        r.1 == data.len(),
{
    let mut s1: u64 = 1;
    let mut s2: u64 = 0;
    let mut original_size: u64 = 0;
    let mut start: usize = 0;
    while start < data.len()
        invariant
            0 <= start <= data.len(),
            data.len() <= u64::MAX,
            original_size == start,
            (s1 as int, s2 as int) == adler_update(1, 0, data@.take(start as int)),
            s1 < 65521,
            s2 < 65521,
        decreases data.len() - start,
    {
        let end = if data.len() - start > 4096 { start + 4096 } else { data.len() };
        let piece = slice_range(data, start, end);
        proof {
            lemma_update_concat(1, 0, data@.take(start as int), piece@);
            assert(data@.take(start as int) + piece@ =~= data@.take(end as int));
        }
        adler32_stream_update(&mut s1, &mut s2, piece);
        original_size = original_size + (end - start) as u64;
        start = end;
    }
    proof {
        assert(data@.take(start as int) =~= data@);
        lemma_stream_matches_adler32(data@);
    }
    (adler32_stream_finalize(s1, s2), original_size)
}

/// The subslice `data[start..end]`.
pub fn slice_range(data: &[u8], start: usize, end: usize) -> (r: &[u8])
    requires
        start <= end <= data.len(),
    ensures
        r@ == data@.subrange(start as int, end as int),
{
    let (head, _) = data.split_at(end);
    let (_, mid) = head.split_at(start);
    mid
}

} // verus!
