pub mod tree;
pub mod table;
pub mod freq;
pub mod codec;
pub mod decoder;
pub mod encoder;
pub mod optimal;

pub use self::tree::Node;

use vstd::prelude::*;
use self::tree::freq_sum;

verus! {

/// How many times `b` occurs in `s`.
pub open spec fn byte_count(s: Seq<u8>, b: u8) -> nat
    decreases s.len(),
{
    if s.len() == 0 {
        0
    } else {
        byte_count(s.drop_last(), b) + (if s.last() == b { 1nat } else { 0nat })
    }
}

/// A byte that occurs in a sequence has a positive count there.
pub proof fn lemma_byte_count_pos(s: Seq<u8>, i: int)
    requires
        0 <= i < s.len(),
    ensures
        byte_count(s, s[i]) > 0,
    decreases s.len(),
{
    if i < s.len() - 1 {
        lemma_byte_count_pos(s.drop_last(), i);
        assert(s.drop_last()[i] == s[i]);
    }
}

/// Raising one entry of a frequency table by one raises the sum of the
/// entries before `n` by one when the entry is among them.
proof fn lemma_freq_sum_bump(f: Seq<u64>, b: int, n: nat)
    requires
        0 <= b < f.len(),
        n <= f.len(),
        f[b] < u64::MAX,
    ensures
        freq_sum(f.update(b, (f[b] + 1) as u64), n) == freq_sum(f, n) + (if b < n { 1int } else { 0int }),
    decreases n,
{
    if n > 0 {
        lemma_freq_sum_bump(f, b, (n - 1) as nat);
    }
}

/// The byte counts of a sequence add up to its length.
pub proof fn lemma_counts_sum(s: Seq<u8>, f: Seq<u64>)
    requires
        f.len() == 256,
        forall|b: u8| #[trigger] f[b as int] == byte_count(s, b),
    ensures
        freq_sum(f, 256) == s.len(),
    decreases s.len(),
{
    if s.len() == 0 {
        lemma_freq_sum_zeros(f, 256);
    } else {
        let x = s.last();
        let g = f.update(x as int, (f[x as int] - 1) as u64);
        assert forall|b: u8| #[trigger] g[b as int] == byte_count(s.drop_last(), b) by {
            if b == x {
            } else {
                assert(g[b as int] == f[b as int]);
            }
        }
        lemma_counts_sum(s.drop_last(), g);
        assert(g.update(x as int, (g[x as int] + 1) as u64) =~= f);
        lemma_freq_sum_bump(g, x as int, 256);
    }
}

proof fn lemma_freq_sum_zeros(f: Seq<u64>, n: nat)
    requires
        n <= f.len(),
        forall|i: int| 0 <= i < n ==> f[i] == 0,
    ensures
        freq_sum(f, n) == 0,
    decreases n,
{
    if n > 0 {
        lemma_freq_sum_zeros(f, (n - 1) as nat);
    }
}

/// Counts how many times each byte value occurs in `buf`.
pub fn compute_frequencies(buf: &[u8]) -> (freq: [u64; 256])
    ensures
        forall|b: u8| #[trigger] freq@[b as int] == byte_count(buf@, b),
        freq_sum(freq@, 256) == buf.len(),
{
    let mut freq = [0u64; 256];
    let mut i: usize = 0;
    while i < buf.len()
        invariant
            0 <= i <= buf.len(),
            forall|b: u8| #[trigger] freq@[b as int] == byte_count(buf@.take(i as int), b),
            forall|b: u8| #[trigger] freq@[b as int] <= i,
        decreases buf.len() - i,
    {
        let x = buf[i];
        let ghost before = freq@;
        proof {
            assert(buf@.take(i + 1).drop_last() =~= buf@.take(i as int));
            assert(buf@.take(i + 1).last() == x);
        }
        freq[x as usize] = freq[x as usize] + 1;
        i = i + 1;
        proof {
            assert forall|b: u8| #[trigger] freq@[b as int] == byte_count(buf@.take(i as int), b) by {
                if b != x {
                    assert(freq@[b as int] == before[b as int]);
                }
            }
        }
    }
    proof {
        assert(buf@.take(i as int) =~= buf@);
        lemma_counts_sum(buf@, freq@);
    }
    freq
}

} // verus!
