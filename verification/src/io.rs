use vstd::prelude::*;

verus! {

/// The lowest `n` bits of `v`, most significant first.
pub open spec fn msb_bits(v: nat, n: nat) -> Seq<bool>
    decreases n,
{
    if n == 0 {
        Seq::empty()
    } else {
        msb_bits(v / 2, (n - 1) as nat).push(v % 2 == 1)
    }
}

/// The eight bits of a byte, most significant first.
pub open spec fn byte_bits(b: u8) -> Seq<bool> {
    msb_bits(b as nat, 8)
}

/// The bits of a byte sequence, byte after byte, each most significant bit first.
pub open spec fn bytes_bits(s: Seq<u8>) -> Seq<bool>
    decreases s.len(),
{
    if s.len() == 0 {
        Seq::empty()
    } else {
        bytes_bits(s.drop_last()) + byte_bits(s.last())
    }
}

/// `n` zero bits.
pub open spec fn zero_bits(n: nat) -> Seq<bool> {
    Seq::new(n, |i: int| false)
}

pub proof fn lemma_msb_bits_len(v: nat, n: nat)
    ensures
        msb_bits(v, n).len() == n,
    decreases n,
{
    if n > 0 {
        lemma_msb_bits_len(v / 2, (n - 1) as nat);
    }
}

/// Appending one bit to the number appends it to its bit string.
pub proof fn lemma_msb_bits_step(v: nat, n: nat, b: bool)
    ensures
        msb_bits(2 * v + (if b { 1nat } else { 0nat }), n + 1) == msb_bits(v, n).push(b),
{
    let w = 2 * v + (if b { 1nat } else { 0nat });
    assert(w / 2 == v);
    assert(w % 2 == (if b { 1nat } else { 0nat }));
}


/// Appending a zero bit doubles the number.
pub proof fn lemma_zero_bits_push(k: nat)
    ensures
        zero_bits(k).push(false) == zero_bits(k + 1),
{
    assert(zero_bits(k).push(false) =~= zero_bits(k + 1));
}

/// The bits of a byte sequence: eight per byte.
pub proof fn lemma_bytes_bits_len(s: Seq<u8>)
    ensures
        bytes_bits(s).len() == 8 * s.len(),
    decreases s.len(),
{
    if s.len() > 0 {
        lemma_bytes_bits_len(s.drop_last());
        lemma_msb_bits_len(s.last() as nat, 8);
    }
}

/// Bit `8 * k + j` of a byte sequence is bit `j` of byte `k`.
pub proof fn lemma_bytes_bits_index(s: Seq<u8>, k: int, j: int)
    requires
        0 <= k < s.len(),
        0 <= j < 8,
    ensures
        bytes_bits(s)[8 * k + j] == byte_bits(s[k])[j],
    decreases s.len(),
{
    lemma_bytes_bits_len(s.drop_last());
    lemma_msb_bits_len(s.last() as nat, 8);
    if k < s.len() - 1 {
        lemma_bytes_bits_index(s.drop_last(), k, j);
    }
}

/// Bit `k` of a byte sequence, counting from the most significant bit of the
/// first byte, is bit `7 - k % 8` (from the least significant) of byte `k / 8`.
pub proof fn lemma_bit_at(s: Seq<u8>, k: int)
    requires
        0 <= k < 8 * s.len(),
    ensures
        bytes_bits(s)[k] == (((s[k / 8] >> ((7 - k % 8) as u8)) & 1u8) == 1u8),
{
    lemma_bytes_bits_index(s, k / 8, k % 8);
    assert(8 * (k / 8) + k % 8 == k);
    lemma_byte_bits_index(s[k / 8], (k % 8) as u8);
}

/// Bit `j` of a byte, counting from the most significant one.
pub proof fn lemma_byte_bits_index(b: u8, j: u8)
    requires
        j < 8,
    ensures
        byte_bits(b)[j as int] == (((b >> (7 - j)) & 1u8) == 1u8),
{
    reveal_with_fuel(msb_bits, 9);
    let v = b as nat;
    assert(byte_bits(b) =~= seq![
        (v / 128) % 2 == 1, (v / 64) % 2 == 1, (v / 32) % 2 == 1, (v / 16) % 2 == 1,
        (v / 8) % 2 == 1, (v / 4) % 2 == 1, (v / 2) % 2 == 1, v % 2 == 1,
    ]);
    assert((((b >> 7u8) & 1u8) == 1u8) == ((b / 128) % 2 == 1)) by (bit_vector);
    assert((((b >> 6u8) & 1u8) == 1u8) == ((b / 64) % 2 == 1)) by (bit_vector);
    assert((((b >> 5u8) & 1u8) == 1u8) == ((b / 32) % 2 == 1)) by (bit_vector);
    assert((((b >> 4u8) & 1u8) == 1u8) == ((b / 16) % 2 == 1)) by (bit_vector);
    assert((((b >> 3u8) & 1u8) == 1u8) == ((b / 8) % 2 == 1)) by (bit_vector);
    assert((((b >> 2u8) & 1u8) == 1u8) == ((b / 4) % 2 == 1)) by (bit_vector);
    assert((((b >> 1u8) & 1u8) == 1u8) == ((b / 2) % 2 == 1)) by (bit_vector);
    assert((((b >> 0u8) & 1u8) == 1u8) == (b % 2 == 1)) by (bit_vector);
}

/// Appends all of `buf` to `writer`.
pub fn write_all(writer: &mut Vec<u8>, buf: &[u8])
    ensures
        final(writer)@ == old(writer)@ + buf@,
{
    let mut i: usize = 0;
    while i < buf.len()
        invariant
            0 <= i <= buf.len(),
            writer@ == old(writer)@ + buf@.take(i as int),
        decreases buf.len() - i,
    {
        writer.push(buf[i]);
        i = i + 1;
        assert(writer@ =~= old(writer)@ + buf@.take(i as int));
    }
    assert(buf@.take(i as int) =~= buf@);
}

/// Packs bits into bytes, most significant bit first, and appends each full
/// byte to `writer`.
pub struct BitWriter {
    pub buffer: u8,
    pub len: u8,
    pub writer: Vec<u8>,
    pub padding_bits: usize,
}

impl BitWriter {
    /// Fewer than eight bits are pending, and the buffer holds no more bits than that.
    pub open spec fn wf(&self) -> bool {
        &&& self.len < 8
        &&& (self.buffer as u32) < (1u32 << (self.len as u32))
    }

    /// Every bit written so far: those already in `writer`, then the pending ones.
    pub open spec fn bits(&self) -> Seq<bool> {
        bytes_bits(self.writer@) + msb_bits(self.buffer as nat, self.len as nat)
    }

    /// A writer with nothing pending that appends to `writer`.
    pub fn new(writer: Vec<u8>) -> (r: BitWriter)
        ensures
            r.wf(),
            r.writer == writer,
            r.buffer == 0,
            r.len == 0,
            r.padding_bits == 0,
            r.bits() == bytes_bits(writer@),
    {
        proof {
            assert((0u8 as u32) < (1u32 << (0u8 as u32))) by (bit_vector);
            assert(bytes_bits(writer@) + msb_bits(0, 0) =~= bytes_bits(writer@));
        }
        BitWriter { buffer: 0, len: 0, writer, padding_bits: 0 }
    }

    /// Appends one bit (the lowest bit of `bit`).
    fn push_bit(&mut self, bit: u8)
        requires
            old(self).wf(),
            bit <= 1,
        ensures
            final(self).wf(),
            final(self).bits() == old(self).bits().push(bit == 1),
            final(self).padding_bits == old(self).padding_bits,
            old(self).writer@.is_prefix_of(final(self).writer@),
    {
        let ghost old_bits = self.bits();
        let b0 = self.buffer;
        let l0 = self.len;
        proof {
            assert(((b0 << 1u8) | bit) as u32 == (b0 as u32) * 2 + (bit as u32) && ((b0 as u32) * 2
                + (bit as u32)) < (1u32 << ((l0 + 1) as u32))) by (bit_vector)
                requires
                    (b0 as u32) < (1u32 << (l0 as u32)),
                    l0 < 8,
                    bit <= 1,
            ;
            lemma_msb_bits_step(b0 as nat, l0 as nat, bit == 1);
        }
        self.buffer = (self.buffer << 1) | bit;
        self.len = self.len + 1;
        if self.len == 8 {
            let ghost w0 = self.writer@;
            self.writer.push(self.buffer);
            proof {
                assert(self.writer@.drop_last() =~= w0);
                assert(self.writer@.last() == self.buffer);
            }
            self.buffer = 0;
            self.len = 0;
            proof {
                assert((0u8 as u32) < (1u32 << (0u8 as u32))) by (bit_vector);
                assert(bytes_bits(self.writer@) + msb_bits(0, 0) =~= bytes_bits(self.writer@));
                assert(bytes_bits(w0) + msb_bits(b0 as nat, l0 as nat).push(bit == 1) =~= (bytes_bits(w0)
                    + msb_bits(b0 as nat, l0 as nat)).push(bit == 1));
            }
        } else {
            proof {
                assert(bytes_bits(self.writer@) + msb_bits(b0 as nat, l0 as nat).push(bit == 1) =~= (
                bytes_bits(self.writer@) + msb_bits(b0 as nat, l0 as nat)).push(bit == 1));
            }
        }
    }

    /// Writes the lowest `bit_count` bits of `value`, most significant first.
    pub fn write_bits(&mut self, value: u32, bit_count: u8)
        requires
            old(self).wf(),
            bit_count <= 32,
        ensures
            final(self).wf(),
            final(self).bits() == old(self).bits() + msb_bits(value as nat, bit_count as nat),
            final(self).padding_bits == old(self).padding_bits,
            old(self).writer@.is_prefix_of(final(self).writer@),
    {
        if bit_count == 0 {
            assert(old(self).bits() + msb_bits(value as nat, 0) =~= old(self).bits());
            return ;
        }
        let ghost start = self.bits();
        let ghost w_start = self.writer@;
        let mut i: u8 = bit_count;
        proof {
            assert(start + msb_bits(((value as u64) >> (i as u64)) as nat, 0) =~= start);
        }
        while i > 0
            invariant
                self.wf(),
                i <= bit_count <= 32,
                self.bits() == start + msb_bits(((value as u64) >> (i as u64)) as nat, (bit_count - i) as nat),
                self.padding_bits == old(self).padding_bits,
                w_start.is_prefix_of(self.writer@),
                start == old(self).bits(),
                w_start == old(self).writer@,
            decreases i,
        {
            i = i - 1;
            let bit = ((value >> i) & 1) as u8;
            let ghost v = (value as u64) >> (i as u64);
            proof {
                assert((((value >> i) & 1u32) as u8) as nat == v % 2 && v / 2 == (value as u64) >> ((i
                    + 1) as u64) && v == 2 * (v / 2) + v % 2) by (bit_vector)
                    requires
                        v == (value as u64) >> (i as u64),
                        i < 32,
                ;
                lemma_msb_bits_step((v / 2) as nat, (bit_count - i - 1) as nat, bit == 1);
            }
            let ghost w_before = self.writer@;
            self.push_bit(bit);
            proof {
                assert(start + msb_bits((v / 2) as nat, (bit_count - i - 1) as nat).push(bit == 1) =~= (
                start + msb_bits((v / 2) as nat, (bit_count - i - 1) as nat)).push(bit == 1));
                assert forall|k: int| 0 <= k < w_start.len() implies w_start[k] == self.writer@[k] by {
                    assert(w_start[k] == w_before.subrange(0, w_start.len() as int)[k]);
                    assert(w_before[k] == self.writer@.subrange(0, w_before.len() as int)[k]);
                }
                assert(w_start =~= self.writer@.subrange(0, w_start.len() as int));
            }
        }
        proof {
            assert(((value as u64) >> 0u64) == value as u64) by (bit_vector);
        }
    }

    /// Pads the pending bits with zeros to a full byte and writes it, even when
    /// nothing is pending; adds the padding to `padding_bits`.
    pub fn flush(&mut self)
        requires
            old(self).wf(),
            old(self).padding_bits + 8 <= usize::MAX,
        ensures
            final(self).wf(),
            final(self).len == 0,
            final(self).buffer == 0,
            final(self).padding_bits == old(self).padding_bits + (8 - old(self).len),
            bytes_bits(final(self).writer@) == old(self).bits() + zero_bits((8 - old(self).len) as nat),
            final(self).writer@.len() == old(self).writer@.len() + 1,
            final(self).writer@.drop_last() == old(self).writer@,
    {
        let ghost w0 = self.writer@;
        let ghost b0 = self.buffer;
        let ghost l0 = self.len;
        let k: u8 = 8 - self.len;
        let mut done: u8 = 0;
        proof {
            assert(msb_bits(b0 as nat, l0 as nat) + zero_bits(0) =~= msb_bits(b0 as nat, l0 as nat));
        }
        while done < k
            invariant
                done <= k,
                k == 8 - l0,
                l0 < 8,
                self.len == l0,
                self.writer@ == w0,
                (self.buffer as u32) < (1u32 << ((l0 + done) as u32)),
                msb_bits(self.buffer as nat, (l0 + done) as nat) == msb_bits(b0 as nat, l0 as nat)
                    + zero_bits(done as nat),
                self.padding_bits == old(self).padding_bits + done,
                old(self).padding_bits + 8 <= usize::MAX,
            decreases k - done,
        {
            let b = self.buffer;
            let ghost n: u8 = (l0 + done) as u8;
            proof {
                assert((b << 1u8) as u32 == (b as u32) * 2 && ((b as u32) * 2) < (1u32 << ((n + 1)
                    as u32))) by (bit_vector)
                    requires
                        (b as u32) < (1u32 << (n as u32)),
                        n < 8,
                ;
                lemma_msb_bits_step(b as nat, n as nat, false);
                lemma_zero_bits_push(done as nat);
                assert(msb_bits(b0 as nat, l0 as nat) + zero_bits(done as nat).push(false) =~= (
                msb_bits(b0 as nat, l0 as nat) + zero_bits(done as nat)).push(false));
            }
            self.buffer = self.buffer << 1;
            self.padding_bits = self.padding_bits + 1;
            done = done + 1;
        }
        let byte = self.buffer;
        self.writer.push(byte);
        proof {
            assert(self.writer@.drop_last() =~= w0);
            assert(self.writer@.last() == byte);
            assert(l0 + done == 8);
        }
        self.buffer = 0;
        self.len = 0;
        proof {
            assert((0u8 as u32) < (1u32 << (0u8 as u32))) by (bit_vector);
            assert(bytes_bits(w0) + (msb_bits(b0 as nat, l0 as nat) + zero_bits(k as nat)) =~= (
            bytes_bits(w0) + msb_bits(b0 as nat, l0 as nat)) + zero_bits(k as nat));
        }
    }

    /// Pads the pending bits with zeros to a full byte and writes it; nothing
    /// is written when nothing is pending. Records the padding in `padding_bits`.
    pub fn finalize(&mut self)
        requires
            old(self).wf(),
        ensures
            final(self).wf(),
            final(self).len == 0,
            final(self).buffer == 0,
            final(self).padding_bits == (if old(self).len == 0 { 0 } else { 8 - old(self).len }),
            bytes_bits(final(self).writer@) == old(self).bits() + zero_bits(final(self).padding_bits as nat),
            old(self).len == 0 ==> final(self).writer@ == old(self).writer@,
            old(self).len > 0 ==> final(self).writer@.len() == old(self).writer@.len() + 1
                && final(self).writer@.drop_last() == old(self).writer@,
    {
        if self.len == 0 {
            self.padding_bits = 0;
            proof {
                assert(msb_bits(self.buffer as nat, 0) =~= Seq::<bool>::empty());
                assert(bytes_bits(self.writer@) + Seq::<bool>::empty() + zero_bits(0) =~= bytes_bits(
                    self.writer@,
                ));
                let b = self.buffer;
                assert(b == 0) by (bit_vector)
                    requires
                        (b as u32) < (1u32 << 0u32),
                ;
            }
            return ;
        }
        self.padding_bits = 0;
        self.flush();
    }
}

/// Reads bits from a byte source, most significant bit first, through a 4 KiB
/// buffer.
pub struct BitReader {
    pub reader: Vec<u8>,
    reader_pos: usize,
    buffer: Vec<u8>,
    buffer_pos: usize,
    buffer_len: usize,
    current_byte: u8,
    bit_pos: u8,
}

impl BitReader {
    /// Internal consistency of the buffered state with the source.
    pub closed spec fn wf(&self) -> bool {
        &&& self.buffer@.len() == 4096
        &&& self.buffer_len <= 4096
        &&& self.buffer_pos <= self.buffer_len
        &&& self.buffer_len <= self.reader_pos <= self.reader@.len()
        &&& forall|i: int|
            0 <= i < self.buffer_len ==> #[trigger] self.buffer@[i] == self.reader@[self.reader_pos
                - self.buffer_len + i]
        &&& self.bit_pos <= 8
        &&& self.bit_pos < 8 ==> self.buffer_pos >= 1 && self.current_byte == self.reader@[self.reader_pos
            - self.buffer_len + self.buffer_pos - 1]
    }

    /// The bytes the bits are read from.
    pub closed spec fn source(&self) -> Seq<u8> {
        self.reader@
    }

    /// How many bits have been read so far.
    pub closed spec fn consumed(&self) -> nat {
        if self.bit_pos == 8 {
            (8 * (self.reader_pos - self.buffer_len + self.buffer_pos)) as nat
        } else {
            (8 * (self.reader_pos - self.buffer_len + self.buffer_pos - 1) + self.bit_pos) as nat
        }
    }

    /// A reader positioned at the first bit of `reader`.
    pub fn new(_padding_bits: usize, reader: Vec<u8>) -> (r: BitReader)
        ensures
            r.wf(),
            r.consumed() == 0,
            r.source() == reader@,
    {
        BitReader {
            reader,
            reader_pos: 0,
            buffer: vec![0u8; 4096],
            buffer_pos: 0,
            buffer_len: 0,
            current_byte: 0,
            bit_pos: 8,
        }
    }

    /// Loads the next piece of the source, at most 4 KiB, into the buffer;
    /// returns how many bytes were loaded.
    fn fill_buffer(&mut self) -> (n: usize)
        requires
            old(self).wf(),
            old(self).buffer_pos == old(self).buffer_len,
            old(self).bit_pos == 8,
        ensures
            final(self).wf(),
            final(self).reader == old(self).reader,
            final(self).consumed() == old(self).consumed(),
            final(self).bit_pos == 8,
            final(self).buffer_pos == 0,
            final(self).buffer_len == n,
            n == 0 ==> final(self).consumed() == 8 * final(self).reader@.len(),
            n > 0 ==> final(self).consumed() < 8 * final(self).reader@.len(),
    {
        let remaining = self.reader.len() - self.reader_pos;
        let n = if remaining > 4096 { 4096 } else { remaining };
        let mut i: usize = 0;
        while i < n
            invariant
                i <= n <= 4096,
                self.reader_pos + n <= self.reader.len(),
                self.buffer@.len() == 4096,
                self.reader == old(self).reader,
                self.reader_pos == old(self).reader_pos,
                self.buffer_pos == old(self).buffer_pos,
                self.buffer_len == old(self).buffer_len,
                self.bit_pos == old(self).bit_pos,
                self.current_byte == old(self).current_byte,
                forall|j: int| 0 <= j < i ==> #[trigger] self.buffer@[j] == self.reader@[self.reader_pos + j],
            decreases n - i,
        {
            let b = self.reader[self.reader_pos + i];
            self.buffer[i] = b;
            i = i + 1;
        }
        self.buffer_pos = 0;
        self.buffer_len = n;
        self.reader_pos = self.reader_pos + n;
        n
    }

    /// The next bit, or `None` when every bit of the source has been read.
    pub fn read_bit(&mut self) -> (r: Option<u8>)
        requires
            old(self).wf(),
        ensures
            final(self).wf(),
            final(self).source() == old(self).source(),
            old(self).consumed() < 8 * old(self).source().len() ==> r == Some(
                (if bytes_bits(old(self).source())[old(self).consumed() as int] {
                    1u8
                } else {
                    0u8
                }),
            ) && final(self).consumed() == old(self).consumed() + 1,
            old(self).consumed() < 8 * old(self).source().len() ==> r == Some(
                (old(self).source()[old(self).consumed() as int / 8] >> ((7 - old(self).consumed() as int % 8) as u8))
                    & 1u8,
            ),
            old(self).consumed() >= 8 * old(self).source().len() ==> r is None
                && final(self).consumed() == old(self).consumed(),
    {
        let ghost c0: int = self.consumed() as int;
        let ghost src = self.source();
        if self.bit_pos == 8 {
            if self.buffer_pos == self.buffer_len {
                let bytes_read = self.fill_buffer();
                if bytes_read == 0 {
                    return None;
                }
            }
            self.current_byte = self.buffer[self.buffer_pos];
            self.buffer_pos = self.buffer_pos + 1;
            self.bit_pos = 0;
        }
        let ghost idx = self.reader_pos - self.buffer_len + self.buffer_pos - 1;
        let ghost j = self.bit_pos;
        let cb = self.current_byte;
        let sh: u8 = 7 - self.bit_pos;
        let bit = (cb >> sh) & 1;
        self.bit_pos = self.bit_pos + 1;
        proof {
            lemma_bytes_bits_index(self.reader@, idx, j as int);
            lemma_byte_bits_index(cb, j);
            assert(bit == 0 || bit == 1) by (bit_vector)
                requires bit == (cb >> sh) & 1u8;
            if c0 < 8 * src.len() {
                lemma_bit_at(src, c0);
                let b0: u8 = src[c0 / 8];
                let s0: u8 = (7 - c0 % 8) as u8;
                let v: u8 = (b0 >> s0) & 1u8;
                assert(v == 0 || v == 1) by (bit_vector)
                    requires v == (b0 >> s0) & 1u8;
            }
        }
        Some(bit)
    }
}

} // verus!
