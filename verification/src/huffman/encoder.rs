use vstd::prelude::*;
use vstd::slice::slice_to_vec;
use super::byte_count;
use super::codec::{encode_huffman, encode_bits, lemma_payload_decodes};
use crate::headers::{after_name, tree_of};
use super::optimal::WeightTree;
use super::table::{lemma_children_distinct, symbol_code};
use super::freq::compute_frequencies;
use super::table::generate_code_table;
use super::tree::{Node, build_huffman_tree, greedy_tree, leaf_queue, height_within, lemma_light_tree_height, lemma_serialize_len, lemma_distinct_bytes_at_most_256,
    spec_serialize};
use crate::checksum::spec_adler32;
use crate::constants::{ENCRYPTED, MAGIC_BYTES, STORED_RAW, VERSION};
use crate::crypto::{CryptoError, IV_LEN, PBKDF2_ROUNDS, PIECE_MAX, SALT_LEN, derive_key, encrypt_stream,
    generate_random_bytes, lemma_sealed_len, open_chunks, pbkdf2_sha256_key, seal_chunks, sealed_ok};
use crate::decompress::{decompress_spec, stored_checksum, stored_compressed_size, stored_name, stored_size};
use crate::flags::{flip_encrypted, flip_stored_raw, lemma_flags_independent};
use crate::headers::{Headers, header_bytes, header_len_of, header_parse_error, lemma_header_roundtrip, storable, utf8_bytes,
    write_header};
use crate::huffman::decoder::{DecodeError, password_bytes, payload_of};
use crate::io::{bytes_bits, lemma_bytes_bits_len, write_all, zero_bits};

verus! {

/// Sizes of an encoded file.
#[derive(Debug)]
pub struct EncodeInfo {
    /// Size of the original data in bytes.
    pub original_size: u64,
    /// Size of the payload after the header, encryption overhead included.
    pub compressed_size: u64,
    /// Zero bits that complete the last payload byte (0 to 7).
    pub padding_bits: u8,
}

/// Why data could not be encoded.
#[derive(Debug, PartialEq, Eq, Structural)]
pub enum EncodeError {
    /// The Huffman tree is deeper than the 64 bits a code may have; this
    /// needs at least 2^45 bytes of data.
    CodeTooLong,
    /// The operating system's random source gave no salt or nonce.
    RandomSourceFailed,
}

/// The inputs for which an encoded file decodes back: the name fits the
/// 16-bit name length, the data is far from the 64-bit size limits, and an
/// encrypted payload is cut into chunks of at least one byte.
pub open spec fn roundtrip_premise(data_len: nat, name: Seq<char>, encrypted: bool, chunk_size: usize) -> bool {
    &&& utf8_bytes(name).len() <= 65535
    &&& data_len <= 0x0100_0000_0000_0000
    &&& encrypted ==> chunk_size > 0
}

/// How often each byte value occurs in `data`, by value.
pub open spec fn byte_counts(data: Seq<u8>) -> Seq<u64> {
    Seq::new(256, |i: int| byte_count(data, i as u8) as u64)
}

/// `t` is, without its weights, the tree [`build_huffman_tree`] builds for
/// the byte counts of `data`. That tree's leaves are the bytes that occur,
/// weighted by how often; no tree with those leaf weights has a shorter
/// weighted path; below every node the lighter child is on the left (`0`)
/// side. The codes of `data` take as many bits as that weighted path length,
/// or one bit per byte when the tree is a single leaf.
pub open spec fn huffman_tree_of(t: Node, data: Seq<u8>) -> bool {
    match greedy_tree(leaf_queue(byte_counts(data), 256)) {
        Some(b) => {
            &&& b.zero_weights() == t
            &&& b.wf()
            &&& b.leaves().no_duplicates()
            &&& forall|s: u8| b.leaves().contains(s) <==> byte_count(data, s) > 0
            &&& b.weights_ok(byte_counts(data))
            &&& b.children_ordered()
            &&& forall|o: Node| #[trigger] o.leaf_weights().to_multiset() == b.leaf_weights().to_multiset()
                ==> b.weighted_path_length() <= o.weighted_path_length()
            &&& encode_bits(t, data).len() == if b.left is Some {
                b.weighted_path_length()
            } else {
                data.len() as int
            }
        },
        None => false,
    }
}

/// The number of bytes the codes of `data` in tree `t` fill.
pub open spec fn huffman_len(t: Node, data: Seq<u8>) -> nat {
    (encode_bits(t, data).len() + 7) / 8
}

/// The flags byte of the header at the front of `s`.
pub open spec fn stored_flags(s: Seq<u8>) -> u8 {
    s[5]
}

/// The payload size before encryption, as stored in the header at the front
/// of `s`.
pub open spec fn stored_payload_size(s: Seq<u8>) -> u64 {
    vstd::bytes::spec_u64_from_le_bytes(s.subrange(after_name(s) + 8, after_name(s) + 16))
}

/// The padding count of the header at the front of `s`.
pub open spec fn stored_padding(s: Seq<u8>) -> u8 {
    s[after_name(s) + 60]
}

/// The payload after the header at the front of `s`, as long as the header
/// says.
pub open spec fn stored_payload(s: Seq<u8>) -> Seq<u8> {
    s.subrange(header_len_of(s) as int, header_len_of(s) + stored_compressed_size(s))
}

/// The layout of what [`encode_with`] writes for `data` (header at the
/// front): the data is stored raw exactly when its Huffman codes under the
/// stored tree fill at least as many bytes as the data itself; the stored
/// tree is a Huffman tree of the data; unencrypted, the payload is the data
/// when raw, and otherwise the codes of the data, most significant bit first,
/// padded with `padding` zero bits. The header's payload size is the size of
/// that payload before encryption, which unencrypted is the stored size.
pub open spec fn encoded_layout(out: Seq<u8>, data: Seq<u8>, encrypted: bool, padding: u8) -> bool {
    &&& (stored_flags(out) & STORED_RAW != 0) <==> huffman_len(tree_of(out), data) >= data.len()
    &&& stored_payload_size(out) == if stored_flags(out) & STORED_RAW != 0 {
        data.len()
    } else {
        huffman_len(tree_of(out), data)
    }
    &&& !encrypted ==> stored_payload_size(out) == stored_compressed_size(out)
    &&& (stored_flags(out) & ENCRYPTED != 0) == encrypted
    &&& data.len() > 0 ==> huffman_tree_of(tree_of(out), data)
    &&& stored_padding(out) == padding
    &&& padding < 8
    &&& !encrypted ==> if stored_flags(out) & STORED_RAW != 0 {
        stored_payload(out) == data && padding == 0
    } else {
        bytes_bits(stored_payload(out)) == encode_bits(tree_of(out), data) + zero_bits(padding as nat)
    }
}

/// The shape of `t` with each leaf weighing how often its symbol occurs in
/// `data`.
pub open spec fn count_shape(t: Node, data: Seq<u8>) -> WeightTree
    decreases t,
{
    match (t.left, t.right) {
        (Some(l), Some(r)) => WeightTree::Join(Box::new(count_shape(*l, data)), Box::new(count_shape(*r, data))),
        _ => WeightTree::Leaf(
            match t.symbol {
                Some(s) => byte_count(data, s) as int,
                None => 0,
            },
        ),
    }
}

/// A byte occurs no more often than the sequence is long.
proof fn lemma_byte_count_le(data: Seq<u8>, b: u8)
    ensures
        byte_count(data, b) <= data.len(),
    decreases data.len(),
{
    if data.len() > 0 {
        lemma_byte_count_le(data.drop_last(), b);
    }
}

/// A tree weighted by the byte counts has the counting shape.
proof fn lemma_count_shape(t: Node, data: Seq<u8>)
    requires
        t.wf(),
        t.weights_ok(byte_counts(data)),
        data.len() <= u64::MAX,
    ensures
        t.shape() == count_shape(t, data),
    decreases t,
{
    match (t.left, t.right) {
        (Some(l), Some(r)) => {
            lemma_count_shape(*l, data);
            lemma_count_shape(*r, data);
        },
        _ => {
            let s = t.symbol->0;
            lemma_byte_count_le(data, s);
            assert(byte_counts(data)[s as int] == byte_count(data, s));
        },
    }
}

/// With no data every leaf weighs nothing, and so does the tree.
proof fn lemma_count_shape_empty(t: Node)
    ensures
        count_shape(t, Seq::empty()).total() == 0,
        count_shape(t, Seq::empty()).cost() == 0,
    decreases t,
{
    match (t.left, t.right) {
        (Some(l), Some(r)) => {
            lemma_count_shape_empty(*l);
            lemma_count_shape_empty(*r);
        },
        _ => {},
    }
}

/// One more occurrence of `x` adds one to the weight of its leaf, and its
/// depth to the weighted path length.
#[verifier::spinoff_prover]
proof fn lemma_count_shape_push(t: Node, data: Seq<u8>, x: u8)
    requires
        t.wf(),
        t.leaves().no_duplicates(),
    ensures
        count_shape(t, data.push(x)).total() == count_shape(t, data).total() + (if t.leaves().contains(x) {
            1int
        } else {
            0int
        }),
        count_shape(t, data.push(x)).cost() == count_shape(t, data).cost() + (if t.leaves().contains(x) {
            t.path(x).len() as int
        } else {
            0int
        }),
    decreases t,
{
    assert(data.push(x).drop_last() =~= data);
    match (t.left, t.right) {
        (Some(l), Some(r)) => {
            lemma_children_distinct(t);
            lemma_count_shape_push(*l, data, x);
            lemma_count_shape_push(*r, data, x);
            assert(t.leaves().contains(x) <==> (l.leaves().contains(x) || r.leaves().contains(x)));
            assert(count_shape(t, data.push(x)).total() == count_shape(*l, data.push(x)).total() + count_shape(
                *r,
                data.push(x),
            ).total());
            assert(count_shape(t, data).total() == count_shape(*l, data).total() + count_shape(*r, data).total());
        },
        _ => {
            let sym = t.symbol->0;
            assert(t.leaves() =~= seq![sym]);
            assert(data.push(x).last() == x);
            assert(byte_count(data.push(x), sym) == byte_count(data, sym) + (if x == sym { 1nat } else { 0nat }));
            assert(t.leaves().contains(x) <==> x == sym) by {
                if x == sym {
                    assert(t.leaves()[0] == x);
                }
            }
        },
    }
}

/// For a tree of two leaves or more, the codes of `data` take as many bits
/// as the weighted path length of the tree weighted by the byte counts.
proof fn lemma_code_bits_are_path_length(t: Node, data: Seq<u8>)
    requires
        t.wf(),
        t.leaves().no_duplicates(),
        t.left is Some,
        forall|i: int| 0 <= i < data.len() ==> t.leaves().contains(#[trigger] data[i]),
    ensures
        encode_bits(t, data).len() == count_shape(t, data).cost(),
    decreases data.len(),
{
    if data.len() == 0 {
        lemma_count_shape_empty(t);
        assert(data =~= Seq::<u8>::empty());
    } else {
        let d = data.drop_last();
        let x = data.last();
        assert forall|i: int| 0 <= i < d.len() implies t.leaves().contains(#[trigger] d[i]) by {
            assert(d[i] == data[i]);
        }
        lemma_code_bits_are_path_length(t, d);
        assert(d.push(x) =~= data);
        lemma_count_shape_push(t, d, x);
        assert(t.leaves().contains(x)) by {
            assert(data[data.len() - 1] == x);
        }
        assert(t.path(x).len() >= 1);
        assert(symbol_code(t, x) == t.path(x));
        assert(encode_bits(t, data) == encode_bits(t, d) + symbol_code(t, x));
    }
}

/// With a single leaf every byte takes one bit.
proof fn lemma_one_bit_per_byte(t: Node, data: Seq<u8>)
    requires
        t.left is None,
    ensures
        encode_bits(t, data).len() == data.len(),
    decreases data.len(),
{
    if data.len() > 0 {
        lemma_one_bit_per_byte(t, data.drop_last());
        assert(symbol_code(t, data.last()).len() == 1);
    }
}

/// Encoding with a tree without weights gives the same bits.
proof fn lemma_encode_bits_zero_weights(t: Node, data: Seq<u8>)
    ensures
        encode_bits(t.zero_weights(), data) == encode_bits(t, data),
    decreases data.len(),
{
    crate::huffman::tree::lemma_zero_weights(t);
    if data.len() > 0 {
        lemma_encode_bits_zero_weights(t, data.drop_last());
    }
}

/// The bytes [`encode_with`] writes have the layout it promises.
proof fn lemma_encode_layout(
    h: Headers,
    body: Seq<u8>,
    data: Seq<u8>,
    unencrypted: Seq<u8>,
    code_tree: Node,
    hp: Seq<u8>,
    hpad: u8,
    built: bool,
    use_huffman: bool,
    encrypted: bool,
)
    requires
        utf8_bytes(h.original_file_name@).len() <= 65535,
        h.tree == code_tree,
        h.compressed_size == body.len(),
        h.payload_actual_size == unencrypted.len(),
        code_tree.wf() && code_tree.leaves().no_duplicates() || code_tree == Node::empty_node(),
        built ==> bytes_bits(hp) == encode_bits(code_tree, data) + zero_bits(hpad as nat) && hpad < 8
            && huffman_tree_of(code_tree.zero_weights(), data),
        !built ==> data.len() == 0 && code_tree == Node::empty_node(),
        use_huffman == (built && hp.len() < data.len()),
        use_huffman ==> unencrypted == hp && h.padding_bits == hpad,
        !use_huffman ==> unencrypted == data && h.padding_bits == 0,
        !encrypted ==> h.flags == (if use_huffman { 0u8 } else { 0u8 | STORED_RAW }),
        encrypted ==> h.flags == (if use_huffman { 0u8 } else { 0u8 | STORED_RAW }) | ENCRYPTED,
        !encrypted ==> body == unencrypted,
    ensures
        encoded_layout(header_bytes(h) + body, data, encrypted, h.padding_bits),
{
    let out = header_bytes(h) + body;
    if code_tree.wf() {
        lemma_serialize_len(code_tree);
        lemma_distinct_bytes_at_most_256(code_tree.leaves());
    }
    assert(storable(h));
    lemma_header_roundtrip(h, body);
    lemma_flags_independent(0u8);
    lemma_flags_independent(0u8 | STORED_RAW);
    assert(tree_of(out) == code_tree.zero_weights());
    assert(stored_payload(out) =~= body);
    lemma_encode_bits_zero_weights(code_tree, data);
    if built {
        lemma_bytes_bits_len(hp);
        let n = encode_bits(code_tree, data).len();
        let l = hp.len();
        assert(8 * l == n + hpad);
        assert((n + 7) / 8 == l) by (nonlinear_arith)
            requires
                8 * l == n + hpad,
                hpad < 8,
        ;
    } else {
        assert(encode_bits(code_tree, data) =~= Seq::<bool>::empty());
    }
}

/// The bytes [`encode_with`] writes decompress to the data: the header reads
/// back, the payload decrypts (when encrypted) to the unencrypted payload, and
/// that is the data itself or its Huffman coding.
proof fn lemma_encode_roundtrip(
    h: Headers,
    body: Seq<u8>,
    data: Seq<u8>,
    unencrypted: Seq<u8>,
    code_tree: Node,
    padding: u8,
    use_huffman: bool,
    password: Option<&str>,
    chunk_size: usize,
)
    requires
        roundtrip_premise(data.len(), h.original_file_name@, password is Some, chunk_size),
        h.magic_bytes == MAGIC_BYTES,
        h.version == VERSION,
        h.original_size == data.len(),
        h.tree == code_tree,
        code_tree.wf() && code_tree.leaves().no_duplicates() || code_tree == Node::empty_node(),
        use_huffman ==> {
            &&& code_tree.wf()
            &&& forall|i: int| 0 <= i < data.len() ==> code_tree.leaves().contains(#[trigger] data[i])
            &&& bytes_bits(unencrypted) == encode_bits(code_tree, data) + zero_bits(padding as nat)
            &&& unencrypted.len() < data.len()
            &&& h.padding_bits == padding
        },
        !use_huffman ==> unencrypted == data && h.padding_bits == 0,
        password is None ==> h.flags == (if use_huffman { 0u8 } else { 0u8 | STORED_RAW }),
        password is Some ==> h.flags == (if use_huffman { 0u8 } else { 0u8 | STORED_RAW }) | ENCRYPTED,
        h.compressed_size == body.len(),
        password is None ==> body == unencrypted,
        password matches Some(p) ==> {
            let key = pbkdf2_sha256_key(utf8_bytes(p@), h.salt@, PBKDF2_ROUNDS);
            &&& body == seal_chunks(key, h.iv@, Seq::empty(), unencrypted, chunk_size as nat, 0)
            &&& sealed_ok(key, h.iv@, Seq::empty(), unencrypted, chunk_size as nat, 0)
            &&& open_chunks(key, h.iv@, Seq::empty(), body, chunk_size as nat, 0) == (
                unencrypted,
                Option::<CryptoError>::None,
            )
        },
    ensures
        ({
            let out = header_bytes(h) + body;
            &&& header_parse_error(out) is None
            &&& out.len() == header_len_of(out) + h.compressed_size
            &&& stored_compressed_size(out) == h.compressed_size
            &&& decompress_spec(out, password_bytes(password), chunk_size as nat) == (
                data,
                Option::<DecodeError>::None,
            )
            &&& stored_name(out) == h.original_file_name@
            &&& stored_checksum(out) == h.checksum
            &&& stored_size(out) == h.original_size
        }),
{
    let out = header_bytes(h) + body;
    if code_tree.wf() {
        lemma_serialize_len(code_tree);
        lemma_distinct_bytes_at_most_256(code_tree.leaves());
    }
    assert(storable(h));
    lemma_header_roundtrip(h, body);
    lemma_flags_independent(0u8);
    lemma_flags_independent(0u8 | STORED_RAW);
    let pw = password_bytes(password);
    let payload = payload_of(h.flags, h.compressed_size, h.salt@, h.iv@, body, pw, chunk_size as nat);
    match password {
        Some(p) => {
            let key = pbkdf2_sha256_key(utf8_bytes(p@), h.salt@, PBKDF2_ROUNDS);
            assert(body.take(h.compressed_size as int) =~= body);
            lemma_sealed_len(key, h.iv@, Seq::empty(), unencrypted, chunk_size as nat, 0);
            assert(payload == Ok::<Seq<u8>, DecodeError>(unencrypted));
        },
        None => {
            assert(body.take(h.compressed_size as int) =~= body);
            assert(payload == Ok::<Seq<u8>, DecodeError>(unencrypted));
        },
    }
    assert(h.magic_bytes@ == MAGIC_BYTES@);
    if use_huffman {
        lemma_bytes_bits_len(unencrypted);
        let budget = (h.compressed_size * 8 - h.padding_bits) as nat;
        assert(encode_bits(code_tree, data).len() <= budget);
        lemma_payload_decodes(code_tree, data, unencrypted, padding, budget);
    } else {
        assert(data.take(h.original_size as int) =~= data);
    }
}

/// Encodes `reader` into a `.small` file appended to `writer`: a header naming
/// the file `name`, then the payload — Huffman-coded when that is smaller than
/// the data, the data itself otherwise — encrypted in chunks of `chunk_size`
/// with a key derived from `encrypt_password` and `salt` and nonces from `iv`
/// when a password is given. Decompressing the written bytes with the same
/// password and chunk size gives back `reader`, its name, size and checksum.
pub fn encode_with(
    reader: &[u8],
    name: &str,
    encrypt_password: Option<&str>,
    salt: [u8; 16],
    iv: [u8; 12],
    writer: &mut Vec<u8>,
    chunk_size: usize,
) -> (r: Result<EncodeInfo, EncodeError>)
    requires
        encrypt_password is Some ==> chunk_size <= PIECE_MAX,
    ensures
        r matches Err(e) ==> final(writer)@ == old(writer)@ && e == EncodeError::CodeTooLong && reader.len()
            >= 0x2000_0000_0000,
        r matches Ok(info) ==> {
            let out = final(writer)@.skip(old(writer)@.len() as int);
            &&& final(writer)@ == old(writer)@ + out
            &&& info.original_size == reader.len()
            &&& info.padding_bits < 8
            &&& encrypt_password is None ==> info.compressed_size <= reader.len()
            &&& roundtrip_premise(reader.len() as nat, name@, encrypt_password is Some, chunk_size) ==> {
                &&& header_parse_error(out) is None
                &&& out.len() == header_len_of(out) + info.compressed_size
                &&& stored_compressed_size(out) == info.compressed_size
                &&& decompress_spec(out, password_bytes(encrypt_password), chunk_size as nat) == (
                    reader@,
                    Option::<crate::huffman::decoder::DecodeError>::None,
                )
                &&& stored_name(out) == name@
                &&& stored_checksum(out) == spec_adler32(reader@)
                &&& stored_size(out) == reader.len()
                &&& encoded_layout(out, reader@, encrypt_password is Some, info.padding_bits)
            }
        },
{
    let ghost data = reader@;
    let (freq, checksum, original_size) = compute_frequencies(reader);
    let mut header = write_header(original_size, checksum, name);
    let mut payload: Vec<u8> = Vec::new();
    let mut padding: u8 = 0;
    let mut huffman_encoded = false;
    let ghost mut code_tree = header.tree;
    proof {
        assert(freq@ =~= byte_counts(data));
    }
    match build_huffman_tree(&freq) {
        Some(tree) => {
            if !height_within(&tree, 64) {
                proof {
                    if reader.len() < 0x2000_0000_0000 {
                        lemma_light_tree_height(tree);
                    }
                }
                return Err(EncodeError::CodeTooLong);
            }
            let codes = generate_code_table(&tree);
            proof {
                assert forall|i: int| 0 <= i < reader.len() implies tree.leaves().contains(#[trigger] reader@[i]) by {
                    super::lemma_byte_count_pos(reader@, i);
                }
            }
            let (p, pad) = encode_huffman(reader, &tree, &codes);
            payload = p;
            padding = pad;
            proof {
                code_tree = tree;
                assert(huffman_tree_of(tree.zero_weights(), data)) by {
                    assert(tree.weights_ok(byte_counts(data)));
                    lemma_encode_bits_zero_weights(tree, data);
                    lemma_count_shape(tree, data);
                    if tree.left is Some {
                        lemma_code_bits_are_path_length(tree, data);
                    } else {
                        lemma_one_bit_per_byte(tree, data);
                    }
                }
            }
            header.tree = tree;
            huffman_encoded = true;
        },
        None => {
            proof {
                if reader.len() > 0 {
                    super::lemma_byte_count_pos(reader@, 0);
                    assert(freq@[reader@[0] as int] > 0);
                }
            }
        },
    }
    let ghost hp = payload@;
    let ghost hpad = padding;
    let use_huffman = huffman_encoded && (payload.len() as u64) < original_size;
    let unencrypted: Vec<u8> = if use_huffman {
        header.padding_bits = padding;
        payload
    } else {
        flip_stored_raw(&mut header.flags);
        header.padding_bits = 0;
        slice_to_vec(reader)
    };
    header.payload_actual_size = unencrypted.len() as u64;
    let ghost flags_before_encryption = header.flags;
    let ghost old_len = old(writer)@.len();
    let body: Vec<u8> = match encrypt_password {
        None => {
            header.compressed_size = unencrypted.len() as u64;
            unencrypted
        },
        Some(password) => {
            flip_encrypted(&mut header.flags);
            header.salt = salt;
            header.iv = iv;
            let key = derive_key(password.as_bytes(), &salt);
            let aad: Vec<u8> = Vec::new();
            let mut encrypted: Vec<u8> = Vec::new();
            match encrypt_stream(unencrypted.as_slice(), &mut encrypted, &key, &iv, aad.as_slice(), chunk_size) {
                Ok(_) => {},
                Err(_) => {
                    return vstd::pervasive::unreached();
                },
            }
            header.compressed_size = encrypted.len() as u64;
            header.tag = [0u8; 16];
            encrypted
        },
    };
    let ghost h = header;
    let compressed_size = header.compressed_size;
    let padding_bits = header.padding_bits;
    let header_bytes_vec = header.to_bytes();
    write_all(writer, header_bytes_vec.as_slice());
    write_all(writer, body.as_slice());
    proof {
        let out = header_bytes(h) + body@;
        assert(writer@ =~= old(writer)@ + out);
        assert(writer@.skip(old_len as int) =~= out);
        if roundtrip_premise(reader.len() as nat, name@, encrypt_password is Some, chunk_size) {
            lemma_encode_roundtrip(h, body@, data, unencrypted@, code_tree, padding, use_huffman,
                encrypt_password, chunk_size);
            lemma_encode_layout(h, body@, data, unencrypted@, code_tree, hp, hpad, huffman_encoded, use_huffman,
                encrypt_password is Some);
        }
    }
    Ok(EncodeInfo { original_size, compressed_size, padding_bits })
}

/// Encodes `reader` as [`encode_with`] does, drawing a fresh random salt and
/// nonce when the file is encrypted; fails, writing nothing, when the random
/// source gives none.
pub fn encode(
    reader: &[u8],
    name: &str,
    encrypt_password: Option<&str>,
    writer: &mut Vec<u8>,
    chunk_size: usize,
) -> (r: Result<EncodeInfo, EncodeError>)
    requires
        encrypt_password is Some ==> chunk_size <= PIECE_MAX,
    ensures
        r matches Err(e) ==> final(writer)@ == old(writer)@ && (e == EncodeError::CodeTooLong && reader.len()
            >= 0x2000_0000_0000 || e == EncodeError::RandomSourceFailed && encrypt_password is Some),
        r matches Ok(info) ==> {
            let out = final(writer)@.skip(old(writer)@.len() as int);
            &&& final(writer)@ == old(writer)@ + out
            &&& info.original_size == reader.len()
            &&& info.padding_bits < 8
            &&& encrypt_password is None ==> info.compressed_size <= reader.len()
            &&& roundtrip_premise(reader.len() as nat, name@, encrypt_password is Some, chunk_size) ==> {
                &&& header_parse_error(out) is None
                &&& out.len() == header_len_of(out) + info.compressed_size
                &&& stored_compressed_size(out) == info.compressed_size
                &&& decompress_spec(out, password_bytes(encrypt_password), chunk_size as nat) == (
                    reader@,
                    Option::<crate::huffman::decoder::DecodeError>::None,
                )
                &&& stored_name(out) == name@
                &&& stored_checksum(out) == spec_adler32(reader@)
                &&& stored_size(out) == reader.len()
                &&& encoded_layout(out, reader@, encrypt_password is Some, info.padding_bits)
            }
        },
{
    let (salt, iv) = match encrypt_password {
        Some(_) => match (generate_random_bytes::<SALT_LEN>(), generate_random_bytes::<IV_LEN>()) {
            (Some(salt), Some(iv)) => (salt, iv),
            _ => {
                return Err(EncodeError::RandomSourceFailed);
            },
        },
        None => ([0u8; SALT_LEN], [0u8; IV_LEN]),
    };
    encode_with(reader, name, encrypt_password, salt, iv, writer, chunk_size)
}

} // verus!
