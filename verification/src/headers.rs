use vstd::prelude::*;
use vstd::bytes::*;
use vstd::slice::slice_to_vec;
use vstd::utf8::{valid_utf8, decode_utf8, encode_utf8, encode_utf8_decode_utf8, encode_utf8_valid_utf8};
use crate::constants::{MAGIC_BYTES, VERSION};
use crate::crypto::IV_LEN;
use crate::checksum::slice_range;
use crate::io::write_all;
use crate::huffman::tree::{Node, serialize_tree, deserialize_tree_checked, spec_serialize, spec_deserialize,
    lemma_serialize_roundtrip, lemma_serialize_roundtrip_empty};

verus! {

/// The fixed-size fields and the variable parts of a `.small` header.
#[derive(Debug, Clone)]
pub struct Headers {
    pub magic_bytes: [u8; 4],
    pub version: u8,
    pub flags: u8,
    pub original_size: u64,
    pub original_file_name: String,
    pub compressed_size: u64,
    pub payload_actual_size: u64,
    pub salt: [u8; 16],
    pub iv: [u8; IV_LEN],
    pub tag: [u8; 16],
    pub padding_bits: u8,
    pub checksum: u32,
    pub tree: Node,
}

/// Why a header could not be read.
#[derive(Debug, PartialEq, Eq, Structural)]
pub enum HeaderError {
    /// The input ended inside the header.
    UnexpectedEof,
    /// The stored file name is not valid UTF-8.
    InvalidFileName,
    /// The stored tree bytes do not form a tree.
    InvalidTree,
}

/// The UTF-8 bytes of a string.
pub open spec fn utf8_bytes(s: Seq<char>) -> Seq<u8> {
    encode_utf8(s)
}

/// The serialized header: magic, version, flags, original size, name length
/// and name, compressed size, payload size, salt, nonce, tag, padding,
/// checksum, tree length and tree, integers little-endian. The two lengths are
/// stored as 16-bit values.
pub open spec fn header_bytes(h: Headers) -> Seq<u8> {
    let name = utf8_bytes(h.original_file_name@);
    let tree = spec_serialize(h.tree);
    h.magic_bytes@ + seq![h.version, h.flags] + spec_u64_to_le_bytes(h.original_size)
        + spec_u16_to_le_bytes(name.len() as u16) + name + spec_u64_to_le_bytes(h.compressed_size)
        + spec_u64_to_le_bytes(h.payload_actual_size) + h.salt@ + h.iv@ + h.tag@ + seq![h.padding_bits]
        + spec_u32_to_le_bytes(h.checksum) + spec_u16_to_le_bytes(tree.len() as u16) + tree
}

/// The file-name length stored in `s`.
pub open spec fn name_len_of(s: Seq<u8>) -> nat {
    spec_u16_from_le_bytes(s.subrange(14, 16)) as nat
}

/// Where the fields after the file name start.
pub open spec fn after_name(s: Seq<u8>) -> int {
    16 + name_len_of(s) as int
}

/// The tree length stored in `s`.
pub open spec fn tree_len_of(s: Seq<u8>) -> nat {
    spec_u16_from_le_bytes(s.subrange(after_name(s) + 65, after_name(s) + 67)) as nat
}

/// The number of bytes the header at the front of `s` occupies.
pub open spec fn header_len_of(s: Seq<u8>) -> nat {
    (after_name(s) + 67 + tree_len_of(s)) as nat
}

/// The stored tree bytes.
pub open spec fn tree_bytes_of(s: Seq<u8>) -> Seq<u8> {
    s.subrange(after_name(s) + 67, header_len_of(s) as int)
}

/// Why the front of `s` is not a header, checked in reading order; `None`
/// when it is one.
pub open spec fn header_parse_error(s: Seq<u8>) -> Option<HeaderError> {
    if s.len() < 16 {
        Some(HeaderError::UnexpectedEof)
    } else if s.len() < after_name(s) {
        Some(HeaderError::UnexpectedEof)
    } else if !valid_utf8(s.subrange(16, after_name(s))) {
        Some(HeaderError::InvalidFileName)
    } else if s.len() < after_name(s) + 67 {
        Some(HeaderError::UnexpectedEof)
    } else if s.len() < header_len_of(s) {
        Some(HeaderError::UnexpectedEof)
    } else if spec_deserialize(tree_bytes_of(s)) is None {
        Some(HeaderError::InvalidTree)
    } else {
        None
    }
}

/// The text of each header error.
pub open spec fn header_error_text(e: HeaderError) -> Seq<char> {
    match e {
        HeaderError::UnexpectedEof => "failed to fill whole buffer"@,
        HeaderError::InvalidFileName => "invalid utf-8 sequence"@,
        HeaderError::InvalidTree => "Invalid or corrupted tree data"@,
    }
}

impl HeaderError {
    /// The text of the error.
    pub fn message(&self) -> (s: String)
        ensures
            s@ == header_error_text(*self),
    {
        match self {
            HeaderError::UnexpectedEof => String::from_str("failed to fill whole buffer"),
            HeaderError::InvalidFileName => String::from_str("invalid utf-8 sequence"),
            HeaderError::InvalidTree => String::from_str("Invalid or corrupted tree data"),
        }
    }
}

/// The tree stored in the header at the front of `s`.
pub open spec fn tree_of(s: Seq<u8>) -> Node {
    match spec_deserialize(tree_bytes_of(s)) {
        Some((t, _)) => t,
        None => Node::empty_node(),
    }
}

/// `h` holds the fields of the header at the front of `s`.
pub open spec fn parsed_from(s: Seq<u8>, h: Headers) -> bool {
    let b = after_name(s);
    &&& h.magic_bytes@ == s.subrange(0, 4)
    &&& h.version == s[4]
    &&& h.flags == s[5]
    &&& h.original_size == spec_u64_from_le_bytes(s.subrange(6, 14))
    &&& h.original_file_name@ == decode_utf8(s.subrange(16, b))
    &&& h.compressed_size == spec_u64_from_le_bytes(s.subrange(b, b + 8))
    &&& h.payload_actual_size == spec_u64_from_le_bytes(s.subrange(b + 8, b + 16))
    &&& h.salt@ == s.subrange(b + 16, b + 32)
    &&& h.iv@ == s.subrange(b + 32, b + 44)
    &&& h.tag@ == s.subrange(b + 44, b + 60)
    &&& h.padding_bits == s[b + 60]
    &&& h.checksum == spec_u32_from_le_bytes(s.subrange(b + 61, b + 65))
    &&& spec_deserialize(tree_bytes_of(s)) matches Some((t, _)) && h.tree == t
}

/// `a` has the fields of `b`, its tree without weights.
pub open spec fn same_fields(a: Headers, b: Headers) -> bool {
    &&& a.magic_bytes@ == b.magic_bytes@
    &&& a.version == b.version
    &&& a.flags == b.flags
    &&& a.original_size == b.original_size
    &&& a.original_file_name@ == b.original_file_name@
    &&& a.compressed_size == b.compressed_size
    &&& a.payload_actual_size == b.payload_actual_size
    &&& a.salt@ == b.salt@
    &&& a.iv@ == b.iv@
    &&& a.tag@ == b.tag@
    &&& a.padding_bits == b.padding_bits
    &&& a.checksum == b.checksum
    &&& a.tree == b.tree.zero_weights()
}

/// A header can be stored: its name and its tree each fit in a 16-bit
/// length, and the tree is well formed or empty.
pub open spec fn storable(h: Headers) -> bool {
    &&& utf8_bytes(h.original_file_name@).len() <= 65535
    &&& spec_serialize(h.tree).len() <= 65535
    &&& (h.tree.wf() || h.tree == Node::empty_node())
}

/// A fresh header for a file of `original_size` bytes with `checksum`, named
/// `name`: no flags, no tree, all other fields zero.
pub fn write_header(original_size: u64, checksum: u32, name: &str) -> (h: Headers)
    ensures
        h.magic_bytes == MAGIC_BYTES,
        h.version == VERSION,
        h.flags == 0,
        h.original_size == original_size,
        h.original_file_name@ == name@,
        h.compressed_size == 0,
        h.payload_actual_size == 0,
        h.salt@ == Seq::new(16, |i: int| 0u8),
        h.iv@ == Seq::new(12, |i: int| 0u8),
        h.tag@ == Seq::new(16, |i: int| 0u8),
        h.padding_bits == 0,
        h.checksum == checksum,
        h.tree == Node::empty_node(),
{
    let h = Headers {
        magic_bytes: MAGIC_BYTES,
        version: VERSION,
        flags: 0,
        original_size,
        original_file_name: name.to_owned(),
        compressed_size: 0,
        payload_actual_size: 0,
        salt: [0u8; 16],
        iv: [0u8; IV_LEN],
        tag: [0u8; 16],
        padding_bits: 0,
        checksum,
        tree: Node { weight: 0, symbol: None, left: None, right: None },
    };
    assert(h.salt@ =~= Seq::new(16, |i: int| 0u8));
    assert(h.iv@ =~= Seq::new(12, |i: int| 0u8));
    assert(h.tag@ =~= Seq::new(16, |i: int| 0u8));
    h
}

fn array4(s: &[u8], p: usize) -> (a: [u8; 4])
    requires
        p + 4 <= s.len(),
    ensures
        a@ == s@.subrange(p as int, p + 4),
{
    let a = [s[p], s[p + 1], s[p + 2], s[p + 3]];
    assert(a@ =~= s@.subrange(p as int, p + 4));
    a
}

fn array12(s: &[u8], p: usize) -> (a: [u8; 12])
    requires
        p + 12 <= s.len(),
    ensures
        a@ == s@.subrange(p as int, p + 12),
{
    let a = [
        s[p], s[p + 1], s[p + 2], s[p + 3], s[p + 4], s[p + 5], s[p + 6], s[p + 7], s[p + 8],
        s[p + 9], s[p + 10], s[p + 11],
    ];
    assert(a@ =~= s@.subrange(p as int, p + 12));
    a
}

fn array16(s: &[u8], p: usize) -> (a: [u8; 16])
    requires
        p + 16 <= s.len(),
    ensures
        a@ == s@.subrange(p as int, p + 16),
{
    let a = [
        s[p], s[p + 1], s[p + 2], s[p + 3], s[p + 4], s[p + 5], s[p + 6], s[p + 7], s[p + 8],
        s[p + 9], s[p + 10], s[p + 11], s[p + 12], s[p + 13], s[p + 14], s[p + 15],
    ];
    assert(a@ =~= s@.subrange(p as int, p + 16));
    a
}

/// `std::string::String::from_utf8`: the string whose UTF-8 encoding is
/// `bytes`, or `None` when `bytes` is not valid UTF-8.
#[verifier::external_body]
fn string_from_utf8(bytes: Vec<u8>) -> (r: Option<String>)
    ensures
        r is Some <==> valid_utf8(bytes@),
        r matches Some(s) ==> s@ == decode_utf8(bytes@),
{
    String::from_utf8(bytes).ok()
}

impl Headers {
    /// The `n` bytes of `reader` starting at `pos`, or `UnexpectedEof` when
    /// fewer remain.
    fn read_bytes(reader: &[u8], pos: usize, n: usize) -> (r: Result<Vec<u8>, HeaderError>)
        requires
            pos <= reader.len(),
        ensures
            pos + n <= reader.len() ==> r == Ok::<Vec<u8>, HeaderError>(
                r->Ok_0,
            ) && r->Ok_0@ == reader@.subrange(pos as int, pos + n),
            pos + n > reader.len() ==> r == Err::<Vec<u8>, HeaderError>(HeaderError::UnexpectedEof),
    {
        if reader.len() - pos < n {
            return Err(HeaderError::UnexpectedEof);
        }
        Ok(slice_to_vec(slice_range(reader, pos, pos + n)))
    }

    /// An empty header: current magic and version, everything else zero or empty.
    pub fn new() -> (h: Headers)
        ensures
            h.magic_bytes == MAGIC_BYTES,
            h.version == VERSION,
            h.flags == 0,
            h.original_size == 0,
            h.original_file_name@ == Seq::<char>::empty(),
            h.compressed_size == 0,
            h.payload_actual_size == 0,
            h.salt@ == Seq::new(16, |i: int| 0u8),
            h.iv@ == Seq::new(12, |i: int| 0u8),
            h.tag@ == Seq::new(16, |i: int| 0u8),
            h.padding_bits == 0,
            h.checksum == 0,
            h.tree == Node::empty_node(),
    {
        let h = Headers {
            magic_bytes: MAGIC_BYTES,
            version: VERSION,
            flags: 0,
            original_size: 0,
            original_file_name: String::new(),
            compressed_size: 0,
            payload_actual_size: 0,
            salt: [0u8; 16],
            iv: [0u8; IV_LEN],
            tag: [0u8; 16],
            padding_bits: 0,
            checksum: 0,
            tree: Node { weight: 0, symbol: None, left: None, right: None },
        };
        assert(h.salt@ =~= Seq::new(16, |i: int| 0u8));
        assert(h.iv@ =~= Seq::new(12, |i: int| 0u8));
        assert(h.tag@ =~= Seq::new(16, |i: int| 0u8));
        h
    }

    /// The serialized header.
    pub fn to_bytes(self) -> (bytes: Vec<u8>)
        ensures
            bytes@ == header_bytes(self),
    {
        let mut bytes: Vec<u8> = Vec::new();
        write_all(&mut bytes, &self.magic_bytes);
        bytes.push(self.version);
        bytes.push(self.flags);
        write_all(&mut bytes, u64_to_le_bytes(self.original_size).as_slice());
        let name = self.original_file_name.as_str().as_bytes();
        write_all(&mut bytes, u16_to_le_bytes(name.len() as u16).as_slice());
        write_all(&mut bytes, name);
        write_all(&mut bytes, u64_to_le_bytes(self.compressed_size).as_slice());
        write_all(&mut bytes, u64_to_le_bytes(self.payload_actual_size).as_slice());
        write_all(&mut bytes, &self.salt);
        write_all(&mut bytes, &self.iv);
        write_all(&mut bytes, &self.tag);
        bytes.push(self.padding_bits);
        write_all(&mut bytes, u32_to_le_bytes(self.checksum).as_slice());
        let mut out: Vec<u8> = Vec::new();
        serialize_tree(&self.tree, &mut out);
        write_all(&mut bytes, u16_to_le_bytes(out.len() as u16).as_slice());
        write_all(&mut bytes, out.as_slice());
        proof {
            assert(Seq::<u8>::empty() + spec_serialize(self.tree) =~= spec_serialize(self.tree));
            assert(bytes@ =~= header_bytes(self));
        }
        bytes
    }

    /// Reads the header at the front of `reader`: the header and the number
    /// of bytes it occupies.
    pub fn from_reader(reader: &[u8]) -> (r: Result<(Headers, usize), HeaderError>)
        ensures
            match header_parse_error(reader@) {
                Some(e) => r == Err::<(Headers, usize), HeaderError>(e),
                None => r matches Ok((h, n)) && n == header_len_of(reader@) && parsed_from(reader@, h),
            },
    {
        let ghost s = reader@;
        if reader.len() < 16 {
            return Err(HeaderError::UnexpectedEof);
        }
        let magic_bytes = array4(reader, 0);
        let version = reader[4];
        let flags = reader[5];
        let original_size = u64_from_le_bytes(slice_range(reader, 6, 14));
        let file_name_len = u16_from_le_bytes(slice_range(reader, 14, 16)) as usize;
        let name_bytes = Self::read_bytes(reader, 16, file_name_len)?;
        let original_file_name = match string_from_utf8(name_bytes) {
            Some(n) => n,
            None => {
                return Err(HeaderError::InvalidFileName);
            },
        };
        let b: usize = 16 + file_name_len;
        if reader.len() - b < 67 {
            return Err(HeaderError::UnexpectedEof);
        }
        let compressed_size = u64_from_le_bytes(slice_range(reader, b, b + 8));
        let payload_actual_size = u64_from_le_bytes(slice_range(reader, b + 8, b + 16));
        let salt = array16(reader, b + 16);
        let iv = array12(reader, b + 32);
        let tag = array16(reader, b + 44);
        let padding_bits = reader[b + 60];
        let checksum = u32_from_le_bytes(slice_range(reader, b + 61, b + 65));
        let tree_len = u16_from_le_bytes(slice_range(reader, b + 65, b + 67)) as usize;
        let tree_bytes = Self::read_bytes(reader, b + 67, tree_len)?;
        let mut pos: usize = 0;
        proof {
            assert(tree_bytes@.skip(0) =~= tree_bytes@);
        }
        let tree = match deserialize_tree_checked(tree_bytes.as_slice(), &mut pos) {
            Some(t) => t,
            None => {
                return Err(HeaderError::InvalidTree);
            },
        };
        let h = Headers {
            magic_bytes,
            version,
            flags,
            original_size,
            original_file_name,
            compressed_size,
            payload_actual_size,
            salt,
            iv,
            tag,
            padding_bits,
            checksum,
            tree,
        };
        Ok((h, b + 67 + tree_len))
    }
}

/// Reading back a stored header gives its fields, the tree without weights,
/// whatever follows it, and exactly its length.
pub proof fn lemma_header_roundtrip(h: Headers, rest: Seq<u8>)
    requires
        storable(h),
    ensures
        header_parse_error(header_bytes(h) + rest) is None,
        header_len_of(header_bytes(h) + rest) == header_bytes(h).len(),
        forall|g: Headers| parsed_from(header_bytes(h) + rest, g) ==> same_fields(g, h),
        ({
            let s = header_bytes(h) + rest;
            let b = after_name(s);
            &&& s.subrange(0, 4) == h.magic_bytes@
            &&& s[4] == h.version
            &&& s[5] == h.flags
            &&& spec_u64_from_le_bytes(s.subrange(6, 14)) == h.original_size
            &&& decode_utf8(s.subrange(16, b)) == h.original_file_name@
            &&& spec_u64_from_le_bytes(s.subrange(b, b + 8)) == h.compressed_size
            &&& spec_u64_from_le_bytes(s.subrange(b + 8, b + 16)) == h.payload_actual_size
            &&& s.subrange(b + 16, b + 32) == h.salt@
            &&& s.subrange(b + 32, b + 44) == h.iv@
            &&& s.subrange(b + 44, b + 60) == h.tag@
            &&& s[b + 60] == h.padding_bits
            &&& spec_u32_from_le_bytes(s.subrange(b + 61, b + 65)) == h.checksum
            &&& tree_of(s) == h.tree.zero_weights()
            &&& s.skip(header_len_of(s) as int) == rest
        }),
{
    let name = utf8_bytes(h.original_file_name@);
    let tree = spec_serialize(h.tree);
    let s = header_bytes(h) + rest;
    lemma_auto_spec_u16_to_from_le_bytes();
    lemma_auto_spec_u32_to_from_le_bytes();
    lemma_auto_spec_u64_to_from_le_bytes();
    encode_utf8_valid_utf8(h.original_file_name@);
    encode_utf8_decode_utf8(h.original_file_name@);
    let nl = name.len();
    let tl = tree.len();
    assert(s.subrange(0, 4) =~= h.magic_bytes@);
    assert(s.subrange(6, 14) =~= spec_u64_to_le_bytes(h.original_size));
    assert(s.subrange(14, 16) =~= spec_u16_to_le_bytes(nl as u16));
    assert(name_len_of(s) == nl);
    let b: int = 16 + nl as int;
    assert(s.subrange(16, b) =~= name);
    assert(s.subrange(b, b + 8) =~= spec_u64_to_le_bytes(h.compressed_size));
    assert(s.subrange(b + 8, b + 16) =~= spec_u64_to_le_bytes(h.payload_actual_size));
    assert(s.subrange(b + 16, b + 32) =~= h.salt@);
    assert(s.subrange(b + 32, b + 44) =~= h.iv@);
    assert(s.subrange(b + 44, b + 60) =~= h.tag@);
    assert(s.subrange(b + 61, b + 65) =~= spec_u32_to_le_bytes(h.checksum));
    assert(s.subrange(b + 65, b + 67) =~= spec_u16_to_le_bytes(tl as u16));
    assert(tree_len_of(s) == tl);
    assert(tree_bytes_of(s) =~= tree);
    if h.tree.wf() {
        lemma_serialize_roundtrip(h.tree, Seq::empty());
        assert(tree + Seq::<u8>::empty() =~= tree);
    } else {
        lemma_serialize_roundtrip_empty();
    }
    assert(s.len() >= b + 67 + tl);
    assert(s.skip(header_len_of(s) as int) =~= rest);
    assert(s[b + 60] == h.padding_bits);
}

} // verus!
