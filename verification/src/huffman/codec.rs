use vstd::prelude::*;
use super::tree::Node;
use super::table::{code_bits, symbol_code};
use crate::io::{BitReader, BitWriter, bytes_bits, msb_bits, zero_bits, lemma_bytes_bits_len};

verus! {

/// Why a Huffman payload could not be decoded.
#[derive(Debug, PartialEq, Eq, Structural)]
pub enum Corruption {
    /// A code needed a bit beyond the data bits announced by the header.
    PastPadding,
    /// A code needed a bit beyond the end of the payload.
    EndOfData,
    /// A `0` bit led to a node without a left child.
    MissingLeft,
    /// A `1` bit led to a node without a right child.
    MissingRight,
}

/// The codes of all bytes of `data`, one after the other.
pub open spec fn encode_bits(t: Node, data: Seq<u8>) -> Seq<bool>
    decreases data.len(),
{
    if data.len() == 0 {
        Seq::empty()
    } else {
        encode_bits(t, data.drop_last()) + symbol_code(t, data.last())
    }
}

/// Follows `bits` from position `pos` down from node `n` until a node with a
/// symbol: the symbol and the position after the last bit used. Bits at or
/// after `budget` may not be used.
pub open spec fn walk(n: Node, bits: Seq<bool>, pos: nat, budget: nat) -> Result<(u8, nat), Corruption>
    decreases n,
{
    match n.symbol {
        Some(s) => Ok((s, pos)),
        None => if pos >= budget {
            Err(Corruption::PastPadding)
        } else if pos >= bits.len() {
            Err(Corruption::EndOfData)
        } else if !bits[pos as int] {
            match n.left {
                Some(l) => walk(*l, bits, pos + 1, budget),
                None => Err(Corruption::MissingLeft),
            }
        } else {
            match n.right {
                Some(r) => walk(*r, bits, pos + 1, budget),
                None => Err(Corruption::MissingRight),
            }
        },
    }
}

/// Decodes `n` symbols from `bits`, starting at `pos`, each from the root
/// `t`: the symbols decoded, and the reason decoding stopped early if it did.
pub open spec fn decode_symbols(t: Node, bits: Seq<bool>, pos: nat, budget: nat, n: nat) -> (Seq<u8>, Option<Corruption>)
    decreases n,
{
    if n == 0 {
        (Seq::empty(), None)
    } else {
        match walk(t, bits, pos, budget) {
            Ok((s, p)) => {
                let (rest, e) = decode_symbols(t, bits, p, budget, (n - 1) as nat);
                (seq![s] + rest, e)
            },
            Err(c) => (Seq::empty(), Some(c)),
        }
    }
}

/// Decoding `n >= 1` symbols when the first one is being read from node `cur`.
pub open spec fn resume(t: Node, cur: Node, bits: Seq<bool>, pos: nat, budget: nat, n: nat) -> (Seq<u8>, Option<Corruption>) {
    match walk(cur, bits, pos, budget) {
        Ok((s, p)) => {
            let (rest, e) = decode_symbols(t, bits, p, budget, (n - 1) as nat);
            (seq![s] + rest, e)
        },
        Err(c) => (Seq::empty(), Some(c)),
    }
}

/// The encoding of a sequence starts with the code of its first byte.
pub proof fn lemma_encode_bits_cons(t: Node, data: Seq<u8>)
    requires
        data.len() > 0,
    ensures
        encode_bits(t, data) == symbol_code(t, data[0]) + encode_bits(t, data.skip(1)),
    decreases data.len(),
{
    if data.len() == 1 {
        assert(data.drop_last() =~= Seq::<u8>::empty());
        assert(data.skip(1) =~= Seq::<u8>::empty());
        assert(Seq::<bool>::empty() + symbol_code(t, data.last()) =~= symbol_code(t, data[0]));
        assert(symbol_code(t, data[0]) + Seq::<bool>::empty() =~= symbol_code(t, data[0]));
    } else {
        lemma_encode_bits_cons(t, data.drop_last());
        assert(data.skip(1).drop_last() =~= data.drop_last().skip(1));
        assert(data.skip(1).last() == data.last());
        assert(data.drop_last()[0] == data[0]);
        let a = symbol_code(t, data[0]);
        let b = encode_bits(t, data.drop_last().skip(1));
        let c = symbol_code(t, data.last());
        assert((a + b) + c =~= a + (b + c));
    }
}

/// Following the path of a symbol of the tree reaches that symbol.
pub proof fn lemma_walk_path(t: Node, s: u8, bits: Seq<bool>, pos: nat, budget: nat)
    requires
        t.wf(),
        t.leaves().contains(s),
        pos + t.path(s).len() <= budget,
        pos + t.path(s).len() <= bits.len(),
        forall|i: int| 0 <= i < t.path(s).len() ==> bits[pos + i] == #[trigger] t.path(s)[i],
    ensures
        walk(t, bits, pos, budget) == Ok::<(u8, nat), Corruption>((s, pos + t.path(s).len())),
    decreases t,
{
    match (t.left, t.right) {
        (Some(l), Some(r)) => {
            if l.leaves().contains(s) {
                let p = l.path(s);
                assert(t.path(s) == seq![false] + p);
                assert(bits[pos as int] == t.path(s)[0]);
                assert forall|i: int| 0 <= i < p.len() implies bits[(pos + 1) + i] == #[trigger] p[i] by {
                    assert(t.path(s)[i + 1] == p[i]);
                }
                lemma_walk_path(*l, s, bits, pos + 1, budget);
            } else {
                assert(r.leaves().contains(s)) by {
                    let k = choose|k: int| 0 <= k < t.leaves().len() && #[trigger] t.leaves()[k] == s;
                    if k >= l.leaves().len() {
                        assert(r.leaves()[k - l.leaves().len()] == s);
                    } else {
                        assert(l.leaves()[k] == s);
                    }
                }
                let p = r.path(s);
                assert(t.path(s) == seq![true] + p);
                assert(bits[pos as int] == t.path(s)[0]);
                assert forall|i: int| 0 <= i < p.len() implies bits[(pos + 1) + i] == #[trigger] p[i] by {
                    assert(t.path(s)[i + 1] == p[i]);
                }
                lemma_walk_path(*r, s, bits, pos + 1, budget);
            }
        },
        _ => {
            assert(t.leaves() == seq![t.symbol->0]);
            assert(t.leaves()[0] == s);
        },
    }
}

/// The length of the encoding is the sum of the code lengths; each code of an
/// internal root is its path.
proof fn lemma_internal_code(t: Node, s: u8)
    requires
        t.wf(),
        t.left is Some,
        t.leaves().contains(s),
    ensures
        symbol_code(t, s) == t.path(s),
        t.path(s).len() >= 1,
{
    let l = t.left->0;
    let r = t.right->0;
    if l.leaves().contains(s) {
        assert(t.path(s) == seq![false] + l.path(s));
    } else {
        assert(t.path(s) == seq![true] + r.path(s));
    }
}

/// Decoding what was encoded gives back the data, whatever follows the
/// encoding, provided the encoding lies within the usable bits.
pub proof fn lemma_decode_encoded(t: Node, data: Seq<u8>, bits: Seq<bool>, pos: nat, budget: nat)
    requires
        t.wf(),
        forall|i: int| 0 <= i < data.len() ==> t.leaves().contains(#[trigger] data[i]),
        pos + encode_bits(t, data).len() <= budget,
        pos + encode_bits(t, data).len() <= bits.len(),
        forall|i: int| 0 <= i < encode_bits(t, data).len() ==> bits[pos + i] == #[trigger] encode_bits(t, data)[i],
    ensures
        decode_symbols(t, bits, pos, budget, data.len()) == (data, Option::<Corruption>::None),
    decreases data.len(),
{
    if data.len() == 0 {
        assert(Seq::<u8>::empty() =~= data);
    } else {
        let d0 = data[0];
        let rest = data.skip(1);
        lemma_encode_bits_cons(t, data);
        let c = symbol_code(t, d0);
        let e = encode_bits(t, rest);
        assert(t.leaves().contains(d0));
        if t.left is Some {
            lemma_internal_code(t, d0);
            assert forall|i: int| 0 <= i < t.path(d0).len() implies bits[pos + i] == #[trigger] t.path(d0)[i] by {
                assert(encode_bits(t, data)[i] == c[i]);
            }
            lemma_walk_path(t, d0, bits, pos, budget);
            assert forall|i: int| 0 <= i < e.len() implies bits[(pos + c.len()) + i] == #[trigger] e[i] by {
                assert(encode_bits(t, data)[c.len() + i] == e[i]);
            }
            assert forall|i: int| 0 <= i < rest.len() implies t.leaves().contains(#[trigger] rest[i]) by {
                assert(rest[i] == data[i + 1]);
            }
            lemma_decode_encoded(t, rest, bits, pos + c.len(), budget);
        } else {
            assert(t.leaves() == seq![t.symbol->0]);
            assert(t.leaves()[0] == d0);
            assert(c.len() == 1);
            assert forall|i: int| 0 <= i < e.len() implies bits[(pos + 1) + i] == #[trigger] e[i] by {
                assert(encode_bits(t, data)[1 + i] == e[i]);
            }
            assert forall|i: int| 0 <= i < rest.len() implies t.leaves().contains(#[trigger] rest[i]) by {
                assert(rest[i] == data[i + 1]);
            }
            lemma_leaf_decode(t, rest, bits, pos, budget);
        }
        assert(seq![d0] + rest =~= data);
    }
}

/// A tree that is a single leaf decodes every symbol without reading a bit.
proof fn lemma_leaf_decode(t: Node, data: Seq<u8>, bits: Seq<bool>, pos: nat, budget: nat)
    requires
        t.wf(),
        t.left is None,
        forall|i: int| 0 <= i < data.len() ==> t.leaves().contains(#[trigger] data[i]),
    ensures
        decode_symbols(t, bits, pos, budget, data.len()) == (data, Option::<Corruption>::None),
    decreases data.len(),
{
    if data.len() == 0 {
        assert(Seq::<u8>::empty() =~= data);
    } else {
        assert(t.leaves() == seq![t.symbol->0]);
        assert(t.leaves().contains(data[0]));
        assert(t.leaves()[0] == data[0]);
        let rest = data.skip(1);
        assert forall|i: int| 0 <= i < rest.len() implies t.leaves().contains(#[trigger] rest[i]) by {
            assert(rest[i] == data[i + 1]);
        }
        lemma_leaf_decode(t, rest, bits, pos, budget);
        assert(seq![data[0]] + rest =~= data);
    }
}

/// Trees that give every symbol the same code encode alike.
proof fn lemma_encode_bits_same_codes(t: Node, u: Node, data: Seq<u8>)
    requires
        forall|s: u8| #[trigger] symbol_code(t, s) == symbol_code(u, s),
    ensures
        encode_bits(t, data) == encode_bits(u, data),
    decreases data.len(),
{
    if data.len() > 0 {
        lemma_encode_bits_same_codes(t, u, data.drop_last());
        assert(symbol_code(t, data.last()) == symbol_code(u, data.last()));
    }
}

/// A payload packed by [`encode_huffman`] decodes, with the tree as it is read
/// back from a header (weights zero), to the data it was packed from.
pub proof fn lemma_payload_decodes(t: Node, data: Seq<u8>, payload: Seq<u8>, pad: u8, budget: nat)
    requires
        t.wf(),
        forall|i: int| 0 <= i < data.len() ==> t.leaves().contains(#[trigger] data[i]),
        bytes_bits(payload) == encode_bits(t, data) + zero_bits(pad as nat),
        encode_bits(t, data).len() <= budget,
    ensures
        decode_symbols(t.zero_weights(), bytes_bits(payload), 0, budget, data.len()) == (
            data,
            Option::<Corruption>::None,
        ),
{
    let t0 = t.zero_weights();
    crate::huffman::tree::lemma_zero_weights(t);
    assert forall|s: u8| #[trigger] symbol_code(t, s) == symbol_code(t0, s) by {
        assert(t0.path(s) == t.path(s));
    }
    lemma_encode_bits_same_codes(t, t0, data);
    let e = encode_bits(t, data);
    let bits = bytes_bits(payload);
    assert forall|i: int| 0 <= i < e.len() implies bits[0 + i] == #[trigger] e[i] by {
        assert(bits[i] == (e + zero_bits(pad as nat))[i]);
    }
    assert forall|i: int| 0 <= i < data.len() implies t0.leaves().contains(#[trigger] data[i]) by {
        assert(t.leaves().contains(data[i]));
    }
    lemma_decode_encoded(t0, data, bits, 0, budget);
}

/// Packs the codes of all bytes of `data` into bytes, most significant bit
/// first, and pads the last byte with zeros: the payload and the number of
/// padding bits. Every byte of `data` must have a code in `codes`.
pub fn encode_huffman(data: &[u8], tree: &Node, codes: &[(u64, u8); 256]) -> (r: (Vec<u8>, u8))
    requires
        forall|s: u8|
            #[trigger] tree.leaves().contains(s) ==> 1 <= codes@[s as int].1 <= 64
                && code_bits(codes@[s as int]) == symbol_code(*tree, s),
        forall|i: int| 0 <= i < data.len() ==> tree.leaves().contains(#[trigger] data@[i]),
    ensures
        bytes_bits(r.0@) == encode_bits(*tree, data@) + zero_bits(r.1 as nat),
        r.1 < 8,
{
    let mut bw = BitWriter::new(Vec::new());
    proof {
        assert(bytes_bits(Seq::<u8>::empty()) =~= Seq::<bool>::empty());
        assert(data@.take(0) =~= Seq::<u8>::empty());
    }
    let mut i: usize = 0;
    while i < data.len()
        invariant
            0 <= i <= data.len(),
            bw.wf(),
            bw.bits() == encode_bits(*tree, data@.take(i as int)),
            forall|s: u8|
                #[trigger] tree.leaves().contains(s) ==> 1 <= codes@[s as int].1 <= 64
                    && code_bits(codes@[s as int]) == symbol_code(*tree, s),
            forall|k: int| 0 <= k < data.len() ==> tree.leaves().contains(#[trigger] data@[k]),
        decreases data.len() - i,
    {
        let byte = data[i];
        let (code, len) = codes[byte as usize];
        let ghost start = bw.bits();
        proof {
            assert(tree.leaves().contains(data@[i as int]));
        }
        if len > 0 {
            let v: u64 = code >> (64 - len as u64);
            let mut j: u8 = len;
            proof {
                assert(((v as u128) >> (len as u128)) == 0) by (bit_vector)
                    requires
                        v == code >> ((64 - len) as u64),
                        1 <= len <= 64,
                ;
                assert(start + msb_bits(0, 0) =~= start);
            }
            while j > 0
                invariant
                    j <= len <= 64,
                    bw.wf(),
                    bw.bits() == start + msb_bits(((v as u128) >> (j as u128)) as nat, (len - j) as nat),
                decreases j,
            {
                j = j - 1;
                let bit = ((v >> j) & 1) as u32;
                let ghost w: u128 = (v as u128) >> (j as u128);
                proof {
                    assert((bit as nat) == w % 2 && w / 2 == (v as u128) >> ((j + 1) as u128) && w == 2 * (w
                        / 2) + w % 2 && bit <= 1) by (bit_vector)
                        requires
                            w == (v as u128) >> (j as u128),
                            bit == ((v >> j) & 1u64) as u32,
                            j < 64,
                    ;
                    crate::io::lemma_msb_bits_step((w / 2) as nat, (len - j - 1) as nat, bit == 1);
                    reveal_with_fuel(msb_bits, 2);
                    assert(msb_bits(bit as nat, 1) =~= seq![bit == 1]);
                }
                bw.write_bits(bit, 1);
                proof {
                    assert(start + msb_bits((w / 2) as nat, (len - j - 1) as nat).push(bit == 1) =~= (start
                        + msb_bits((w / 2) as nat, (len - j - 1) as nat)).push(bit == 1));
                }
            }
            proof {
                assert(((v as u128) >> 0u128) as nat == v as nat) by (bit_vector);
                assert(code_bits((code, len)) == msb_bits(v as nat, len as nat));
            }
        }
        proof {
            assert(data@.take(i + 1).drop_last() =~= data@.take(i as int));
            assert(data@.take(i + 1).last() == byte);
        }
        i = i + 1;
    }
    proof {
        assert(data@.take(i as int) =~= data@);
    }
    bw.finalize();
    let padding = bw.padding_bits as u8;
    (bw.writer, padding)
}

/// Decodes `original_size` symbols from the bits of `payload` with `tree`,
/// using no bit at or beyond `total_data_bits`, and appends them to `writer`.
/// On a corrupted payload the symbols decoded before the fault stay appended.
pub fn decode_huffman(tree: &Node, payload: Vec<u8>, total_data_bits: u64, original_size: u64, writer: &mut Vec<u8>) -> (r: Result<(), Corruption>)
    ensures
        final(writer)@ == old(writer)@ + decode_symbols(
            *tree,
            bytes_bits(payload@),
            0,
            total_data_bits as nat,
            original_size as nat,
        ).0,
        r == match decode_symbols(*tree, bytes_bits(payload@), 0, total_data_bits as nat, original_size as nat).1 {
            None => Ok::<(), Corruption>(()),
            Some(c) => Err(c),
        },
{
    let ghost bits = bytes_bits(payload@);
    let ghost budget = total_data_bits as nat;
    let ghost n = original_size as nat;
    let ghost total = decode_symbols(*tree, bits, 0, budget, n);
    let ghost produced: Seq<u8> = Seq::empty();
    let mut reader = BitReader::new(0, payload);
    let mut current: &Node = tree;
    let mut decoded: u64 = 0;
    let mut bits_read: u64 = 0;
    proof {
        lemma_bytes_bits_len(payload@);
        assert(old(writer)@ + Seq::<u8>::empty() =~= old(writer)@);
        if n == 0 {
            assert(total == (Seq::<u8>::empty(), Option::<Corruption>::None));
        } else {
            assert(total == resume(*tree, *tree, bits, 0, budget, n));
            assert(Seq::<u8>::empty() + total.0 =~= total.0);
        }
    }
    while decoded < original_size
        invariant
            reader.wf(),
            reader.source() == payload@,
            bits == bytes_bits(payload@),
            bits.len() == 8 * payload@.len(),
            reader.consumed() == bits_read,
            bits_read <= total_data_bits,
            budget == total_data_bits as nat,
            n == original_size as nat,
            total == decode_symbols(*tree, bits, 0, budget, n),
            decoded <= original_size,
            writer@ == old(writer)@ + produced,
            decoded < original_size ==> total == (
                produced + resume(*tree, *current, bits, bits_read as nat, budget, (n - decoded) as nat).0,
                resume(*tree, *current, bits, bits_read as nat, budget, (n - decoded) as nat).1,
            ),
            decoded == original_size ==> total == (produced, Option::<Corruption>::None),
        decreases original_size - decoded, total_data_bits - bits_read,
    {
        let ghost m = (n - decoded) as nat;
        match current.symbol {
            Some(byte) => {
                let ghost rest = decode_symbols(*tree, bits, bits_read as nat, budget, (m - 1) as nat);
                writer.push(byte);
                proof {
                    assert(resume(*tree, *current, bits, bits_read as nat, budget, m) == (seq![byte] + rest.0, rest.1));
                    assert(produced + (seq![byte] + rest.0) =~= produced.push(byte) + rest.0);
                    produced = produced.push(byte);
                    if m - 1 > 0 {
                        assert(rest == resume(*tree, *tree, bits, bits_read as nat, budget, (m - 1) as nat));
                    } else {
                        assert(rest == (Seq::<u8>::empty(), Option::<Corruption>::None));
                        assert(produced + Seq::<u8>::empty() =~= produced);
                    }
                }
                decoded = decoded + 1;
                current = tree;
            },
            None => {
                if bits_read >= total_data_bits {
                    proof {
                        assert(produced + Seq::<u8>::empty() =~= produced);
                    }
                    return Err(Corruption::PastPadding);
                }
                let bit = reader.read_bit();
                match bit {
                    None => {
                        proof {
                            assert(produced + Seq::<u8>::empty() =~= produced);
                        }
                        return Err(Corruption::EndOfData);
                    },
                    Some(b) => {
                        proof {
                            assert(bits[bits_read as int] == (b == 1));
                        }
                        if b == 0 {
                            match &current.left {
                                Some(l) => {
                                    current = &**l;
                                },
                                None => {
                                    proof {
                                        assert(produced + Seq::<u8>::empty() =~= produced);
                                    }
                                    return Err(Corruption::MissingLeft);
                                },
                            }
                        } else {
                            match &current.right {
                                Some(r) => {
                                    current = &**r;
                                },
                                None => {
                                    proof {
                                        assert(produced + Seq::<u8>::empty() =~= produced);
                                    }
                                    return Err(Corruption::MissingRight);
                                },
                            }
                        }
                        bits_read = bits_read + 1;
                    },
                }
            },
        }
    }
    Ok(())
}

} // verus!
