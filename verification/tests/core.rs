use mismall::checksum::{adler32, adler32_stream, adler32_stream_finalize, adler32_stream_update};
use mismall::constants::{ENCRYPTED, HAS_CHECKSUM, IS_ARCHIVE, STORED_RAW};
use mismall::flags;
use mismall::huffman::codec::{decode_huffman, encode_huffman, Corruption};
use mismall::huffman::freq;
use mismall::huffman::table::generate_code_table;
use mismall::huffman::tree::{build_huffman_tree, deserialize_tree, deserialize_tree_checked, height_within, serialize_tree, Node};
use mismall::huffman::compute_frequencies;
use mismall::io::{write_all, BitReader, BitWriter};
use mismall::progress::ProcessingStage;

#[test]
fn adler32_known_value() {
    assert_eq!(adler32(b"Wikipedia"), 0x11E6_0398);
    assert_eq!(adler32(b""), 1);
}

#[test]
fn adler32_stream_matches_one_shot() {
    let data: Vec<u8> = (0..10_000u32).map(|i| (i % 251) as u8).collect();
    let (sum, size) = adler32_stream(&data);
    assert_eq!(sum, adler32(&data));
    assert_eq!(size, 10_000);
    let (mut s1, mut s2) = (1u64, 0u64);
    adler32_stream_update(&mut s1, &mut s2, &data[..3000]);
    adler32_stream_update(&mut s1, &mut s2, &data[3000..]);
    assert_eq!(adler32_stream_finalize(s1, s2), adler32(&data));
}

#[test]
fn flags_are_independent_bits() {
    let mut f = 0u8;
    flags::flip_encrypted(&mut f);
    flags::flip_is_archive(&mut f);
    assert!(flags::is_encrypted(f) && flags::is_archive(f));
    assert!(!flags::is_stored_raw(f) && !flags::has_checksum(f));
    flags::flip_stored_raw(&mut f);
    flags::flip_has_checksum(&mut f);
    assert_eq!(f, ENCRYPTED | HAS_CHECKSUM | STORED_RAW | IS_ARCHIVE);
}

#[test]
fn frequencies_count_bytes() {
    let freq = compute_frequencies(b"abracadabra");
    assert_eq!(freq[b'a' as usize], 5);
    assert_eq!(freq[b'b' as usize], 2);
    assert_eq!(freq[b'r' as usize], 2);
    assert_eq!(freq[b'c' as usize], 1);
    assert_eq!(freq[b'z' as usize], 0);
    let (f2, checksum, size) = freq::compute_frequencies(b"abracadabra");
    assert_eq!(f2, freq);
    assert_eq!(checksum, adler32(b"abracadabra"));
    assert_eq!(size, 11);
}

fn leaves(n: &Node, out: &mut Vec<u8>) {
    match (&n.left, &n.right) {
        (Some(l), Some(r)) => {
            leaves(l, out);
            leaves(r, out);
        }
        _ => out.push(n.symbol.unwrap()),
    }
}

#[test]
fn tree_has_one_leaf_per_used_symbol_and_total_weight() {
    let freq = compute_frequencies(b"abracadabra");
    let tree = build_huffman_tree(&freq).unwrap();
    assert_eq!(tree.weight, 11);
    let mut syms = Vec::new();
    leaves(&tree, &mut syms);
    syms.sort();
    assert_eq!(syms, vec![b'a', b'b', b'c', b'd', b'r']);
    assert!(build_huffman_tree(&[0u64; 256]).is_none());
}

#[test]
fn code_table_gives_prefix_codes_and_a_short_code_to_the_frequent_symbol() {
    let freq = compute_frequencies(b"abracadabra");
    let tree = build_huffman_tree(&freq).unwrap();
    let table = generate_code_table(&tree);
    assert_eq!(table[b'z' as usize], (0, 0));
    let len_a = table[b'a' as usize].1;
    for s in [b'b', b'c', b'd', b'r'] {
        assert!(table[s as usize].1 >= len_a);
        assert!(table[s as usize].1 >= 1);
    }
    let single = build_huffman_tree(&compute_frequencies(b"zzz")).unwrap();
    assert_eq!(generate_code_table(&single)[b'z' as usize], (0, 1));
}

#[test]
fn tree_serialization_round_trips_without_weights() {
    let tree = build_huffman_tree(&compute_frequencies(b"hello huffman")).unwrap();
    let mut out = vec![9u8];
    serialize_tree(&tree, &mut out);
    assert_eq!(out[0], 9);
    let mut pos = 1usize;
    let back = deserialize_tree(&out, &mut pos);
    assert_eq!(pos, out.len());
    let mut again = Vec::new();
    serialize_tree(&back, &mut again);
    assert_eq!(&again[..], &out[1..]);
    assert_eq!(back.weight, 0);
    let mut p = 0usize;
    assert!(deserialize_tree_checked(&[0u8, 1], &mut p).is_none());
    let mut p = 0usize;
    assert!(deserialize_tree_checked(&[7u8], &mut p).is_none());
    let mut p = 0usize;
    let empty = deserialize_tree_checked(&[], &mut p).unwrap();
    assert!(empty.symbol.is_none() && empty.left.is_none());
}

#[test]
fn nodes_compare_by_weight_reversed() {
    let light = Node { weight: 1, symbol: Some(1), left: None, right: None };
    let heavy = Node { weight: 5, symbol: Some(2), left: None, right: None };
    let same = Node { weight: 1, symbol: Some(3), left: None, right: None };
    assert!(light == same);
    assert!(heavy < light);
    assert_eq!(light.partial_cmp(&same), Some(std::cmp::Ordering::Equal));
    let copy = heavy.clone();
    assert_eq!(copy.symbol, Some(2));
}

#[test]
fn bits_written_are_read_back() {
    let mut w = BitWriter::new(vec![0xAA]);
    w.write_bits(0b101, 3);
    w.write_bits(0xFFFF_FFFF, 32);
    w.write_bits(0, 0);
    w.finalize();
    assert_eq!(w.padding_bits, 5);
    assert_eq!(w.writer.len(), 1 + 5);
    let mut r = BitReader::new(0, w.writer.clone());
    let mut bits = Vec::new();
    while let Some(b) = r.read_bit() {
        bits.push(b);
    }
    assert_eq!(bits.len(), 48);
    assert_eq!(&bits[..8], &[1, 0, 1, 0, 1, 0, 1, 0]);
    assert_eq!(&bits[8..11], &[1, 0, 1]);
    assert!(bits[11..43].iter().all(|b| *b == 1));
    assert!(bits[43..].iter().all(|b| *b == 0));
}

#[test]
fn flush_pads_a_full_byte_even_when_nothing_is_pending() {
    let mut w = BitWriter::new(Vec::new());
    w.flush();
    assert_eq!(w.writer, vec![0]);
    assert_eq!(w.padding_bits, 8);
    w.write_bits(1, 1);
    w.flush();
    assert_eq!(w.writer, vec![0, 0x80]);
    assert_eq!(w.padding_bits, 15);
}

#[test]
fn huffman_payload_decodes_and_reports_faults() {
    let data = b"abracadabra";
    let tree = build_huffman_tree(&compute_frequencies(data)).unwrap();
    let table = generate_code_table(&tree);
    let (payload, padding) = encode_huffman(data, &tree, &table);
    let bits = payload.len() as u64 * 8 - padding as u64;
    assert_eq!(bits, 23);
    let mut out = Vec::new();
    assert_eq!(decode_huffman(&tree, payload.clone(), bits, 11, &mut out), Ok(()));
    assert_eq!(out, data.to_vec());
    let mut out = Vec::new();
    assert_eq!(decode_huffman(&tree, payload.clone(), bits - 1, 11, &mut out), Err(Corruption::PastPadding));
    assert_eq!(out, b"abracadabr".to_vec());
    let mut out = Vec::new();
    assert_eq!(decode_huffman(&tree, payload, 1000, 20, &mut out), Err(Corruption::EndOfData));
    let half = Node { weight: 0, symbol: None, left: None, right: Some(Box::new(Node { weight: 0, symbol: Some(7), left: None, right: None })) };
    let mut out = Vec::new();
    assert_eq!(decode_huffman(&half, vec![0x00], 8, 1, &mut out), Err(Corruption::MissingLeft));
    let mut out = Vec::new();
    assert_eq!(decode_huffman(&half, vec![0x80], 8, 1, &mut out), Ok(()));
    assert_eq!(out, vec![7]);
}

#[test]
fn write_all_appends() {
    let mut v = vec![1u8, 2];
    write_all(&mut v, &[3, 4]);
    assert_eq!(v, vec![1, 2, 3, 4]);
}

#[test]
fn stage_names() {
    assert_eq!(ProcessingStage::Reading.to_string(), "Reading");
    assert_eq!(ProcessingStage::ComputingFrequencies.to_string(), "Computing frequencies");
    assert_eq!(ProcessingStage::BuildingTree.to_string(), "Building Huffman tree");
    assert_eq!(ProcessingStage::Finalizing.to_string(), "Finalizing");
    assert!(ProcessingStage::Encoding == ProcessingStage::Encoding);
}

#[test]
fn fibonacci_frequencies_give_the_deepest_tree() {
    // Weights 1, 1, 2, 3, 5, ... force one new level per join: twenty symbols
    // give a tree nineteen edges high, the most such weights allow.
    let mut freq = [0u64; 256];
    let (mut a, mut b) = (1u64, 1u64);
    for s in 0..20 {
        freq[s] = a;
        let next = a + b;
        a = b;
        b = next;
    }
    let tree = build_huffman_tree(&freq).unwrap();
    assert!(height_within(&tree, 19));
    assert!(!height_within(&tree, 18));
}

#[test]
fn huffman_codes_take_the_fewest_bits() {
    // a:5 b:2 r:2 c:1 d:1 — no prefix code spends fewer than 23 bits on
    // "abracadabra", and a fixed three-bit code would spend 33.
    let freq = compute_frequencies(b"abracadabra");
    let tree = build_huffman_tree(&freq).unwrap();
    let table = generate_code_table(&tree);
    let bits: u64 = (0..256).map(|s| freq[s] * table[s].1 as u64).sum();
    assert_eq!(bits, 23);
    // Weights 1, 1, 1, 1 give a balanced tree: two bits per symbol.
    let even = build_huffman_tree(&compute_frequencies(b"wxyz")).unwrap();
    let t = generate_code_table(&even);
    for s in [b'w', b'x', b'y', b'z'] {
        assert_eq!(t[s as usize].1, 2);
    }
}

#[test]
fn aaab_is_huffman_coded_into_one_byte() {
    let mut out = Vec::new();
    let info = mismall::huffman::encoder::encode(b"aaab", "t", None, &mut out, 65536).unwrap();
    assert_eq!((info.original_size, info.compressed_size, info.padding_bits), (4, 1, 4));
    assert_eq!(out.len(), 90);
    assert_eq!(&out[0..7], &[0x53, 0x4D, 0x41, 0x4C, 1, 0, 4]);
    assert_eq!(&out[14..18], &[1, 0, 0x74, 1]);
    assert_eq!(out[77], 4);
    assert_eq!(&out[82..89], &[5, 0, 0, 1, 0x62, 1, 0x61]);
    assert_eq!(out[89], 0xE0);
}

#[test]
fn code_table_packs_codes_into_the_top_bits() {
    let root = Node {
        weight: 4,
        symbol: None,
        left: Some(Box::new(Node { weight: 1, symbol: Some(0x62), left: None, right: None })),
        right: Some(Box::new(Node { weight: 3, symbol: Some(0x61), left: None, right: None })),
    };
    let t = generate_code_table(&root);
    assert_eq!(t[0x62], (0, 1));
    assert_eq!(t[0x61], (1u64 << 63, 1));
    for x in 0..256 {
        if x != 0x61 && x != 0x62 {
            assert_eq!(t[x], (0, 0));
        }
    }
}

#[test]
fn decode_after_the_header_ignores_what_follows() {
    let mut out = Vec::new();
    mismall::huffman::encoder::encode(b"hello hello", "h.txt", Some("pw"), &mut out, 1 << 16).unwrap();
    out.extend_from_slice(b"trailing bytes");
    let (header, len) = mismall::headers::Headers::from_reader(&out).unwrap();
    let mut data = Vec::new();
    let info = mismall::huffman::decoder::decode(header, &out[len..], Some("pw"), &mut data, 1 << 16).unwrap();
    assert_eq!(data, b"hello hello");
    assert_eq!(info.original_file_name, "h.txt");
}
