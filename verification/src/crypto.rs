use vstd::prelude::*;
use aes_gcm::aead::rand_core::RngCore;
use aes_gcm::aead::{AeadInPlace, KeyInit, Nonce, OsRng, Tag};
use aes_gcm::Aes256Gcm;
use crate::checksum::slice_range;
use crate::io::write_all;

verus! {

/// Length of an AES-256 key in bytes.
pub const KEY_LEN: usize = 32;

/// Length of the key-derivation salt in bytes.
pub const SALT_LEN: usize = 16;

/// Length of an AES-GCM nonce in bytes.
pub const IV_LEN: usize = 12;

/// Length of the authentication tag written after each encrypted chunk.
pub const TAG_LEN: usize = 16;

/// Default size of the pieces the payload is encrypted in (16 MiB).
pub const DEFAULT_CHUNK_SIZE: usize = 16777216;

/// Number of PBKDF2 rounds used to derive a key from a password.
pub const PBKDF2_ROUNDS: u32 = 100000;

/// Longest associated data AES-GCM accepts (`aes_gcm::A_MAX`).
pub const AAD_MAX: u64 = 68719476736;

/// Longest piece this library hands to AES-GCM at once (1 GiB, the largest
/// chunk size).
pub const PIECE_MAX: usize = 1073741824;

/// Why an encryption or decryption step failed.
#[derive(Debug, PartialEq, Eq, Structural)]
pub enum CryptoError {
    /// AES-GCM refused to encrypt a chunk.
    EncryptionFailed,
    /// The encrypted data ended with a piece too short to hold a tag.
    Truncated,
    /// A chunk did not authenticate under the key, nonce and associated data.
    DecryptionFailed,
}

#[verifier::external_type_specification]
#[verifier::external_body]
pub struct ExAeadError(aes_gcm::Error);

/// The 32-byte key that PBKDF2-HMAC-SHA256 derives from `password` and `salt`
/// in `rounds` rounds.
pub uninterp spec fn pbkdf2_sha256_key(password: Seq<u8>, salt: Seq<u8>, rounds: u32) -> Seq<u8>;

/// AES-256-GCM encryption of `plaintext` under `key` and `nonce`,
/// authenticating `aad`: the ciphertext followed by the 16-byte tag.
pub uninterp spec fn aes256gcm_seal(key: Seq<u8>, nonce: Seq<u8>, aad: Seq<u8>, plaintext: Seq<u8>) -> Seq<u8>;

/// AES-256-GCM decryption of `ciphertext` with `tag` under `key` and
/// `nonce`, authenticating `aad`: the plaintext, or `None` when the tag does
/// not verify or the associated data is too long.
pub uninterp spec fn aes256gcm_open(key: Seq<u8>, nonce: Seq<u8>, aad: Seq<u8>, ciphertext: Seq<u8>, tag: Seq<u8>) -> Option<Seq<u8>>;

/// `pbkdf2::pbkdf2_hmac::<sha2::Sha256>` filling a 32-byte key. Claimed: the
/// key is the named PBKDF2 result of the password, the salt and the rounds.
#[verifier::external_body]
fn pbkdf2_hmac_sha256(password: &[u8], salt: &[u8], rounds: u32) -> (key: [u8; 32])
    ensures
        key@ == pbkdf2_sha256_key(password@, salt@, rounds),
{
    let mut key = [0u8; KEY_LEN];
    pbkdf2::pbkdf2_hmac::<sha2::Sha256>(password, salt, rounds, &mut key);
    key
}

/// `aes_gcm::Aes256Gcm::encrypt_in_place_detached` on a copy of `plaintext`:
/// the ciphertext and the tag. Claimed, as the crate's source shows: it fails
/// exactly when the associated data is longer than `aes_gcm::A_MAX`; the
/// ciphertext is as long as the plaintext; ciphertext and tag are the named
/// encryption; decrypting them gives the plaintext back.
#[verifier::external_body]
fn aes256gcm_encrypt(key: &[u8; 32], nonce: &[u8; 12], aad: &[u8], plaintext: &[u8]) -> (r: Result<(Vec<u8>, [u8; 16]), aes_gcm::Error>)
    requires
        plaintext.len() <= PIECE_MAX,
    ensures
        r is Ok <==> aad.len() <= AAD_MAX,
        r matches Ok((ct, tag)) ==> {
            &&& ct@.len() == plaintext@.len()
            &&& ct@ + tag@ == aes256gcm_seal(key@, nonce@, aad@, plaintext@)
            &&& aes256gcm_open(key@, nonce@, aad@, ct@, tag@) == Some(plaintext@)
        },
{
    let cipher = Aes256Gcm::new(&(*key).into());
    let mut buffer = plaintext.to_vec();
    let tag = cipher.encrypt_in_place_detached(Nonce::<Aes256Gcm>::from_slice(nonce), aad, &mut buffer)?;
    let mut t = [0u8; 16];
    t.copy_from_slice(tag.as_slice());
    Ok((buffer, t))
}

/// `aes_gcm::Aes256Gcm::decrypt_in_place_detached` on a copy of `ciphertext`.
/// Claimed: the result is the named decryption of its arguments.
#[verifier::external_body]
fn aes256gcm_decrypt(key: &[u8; 32], nonce: &[u8; 12], aad: &[u8], ciphertext: &[u8], tag: &[u8; 16]) -> (r: Result<Vec<u8>, aes_gcm::Error>)
    requires
        ciphertext.len() <= PIECE_MAX,
    ensures
        r is Ok <==> aes256gcm_open(key@, nonce@, aad@, ciphertext@, tag@) is Some,
        r matches Ok(p) ==> aes256gcm_open(key@, nonce@, aad@, ciphertext@, tag@) == Some(p@),
{
    let cipher = Aes256Gcm::new(&(*key).into());
    let mut buffer = ciphertext.to_vec();
    cipher.decrypt_in_place_detached(Nonce::<Aes256Gcm>::from_slice(nonce), aad, &mut buffer, Tag::<Aes256Gcm>::from_slice(tag))?;
    Ok(buffer)
}

/// `N` bytes from the operating system's random source (`OsRng`, through
/// `RngCore::try_fill_bytes`); `None` when the source fails. Nothing is
/// claimed of the bytes, nor of when the source fails.
#[verifier::external_body]
pub fn generate_random_bytes<const N: usize>() -> Option<[u8; N]> {
    let mut bytes = [0u8; N];
    match OsRng.try_fill_bytes(&mut bytes) {
        Ok(()) => Some(bytes),
        Err(_) => None,
    }
}

/// Derives the AES-256 key for `password` and `salt`: PBKDF2-HMAC-SHA256 with
/// 100 000 rounds.
pub fn derive_key(password: &[u8], salt: &[u8]) -> (key: [u8; 32])
    ensures
        key@ == pbkdf2_sha256_key(password@, salt@, PBKDF2_ROUNDS),
{
    pbkdf2_hmac_sha256(password, salt, PBKDF2_ROUNDS)
}

/// The counter held big-endian in the last eight bytes of a nonce.
pub open spec fn counter_start(iv: Seq<u8>) -> u64 {
    ((iv[4] as u64) << 56u64) | ((iv[5] as u64) << 48u64) | ((iv[6] as u64) << 40u64) | ((iv[7] as u64) << 32u64)
        | ((iv[8] as u64) << 24u64) | ((iv[9] as u64) << 16u64) | ((iv[10] as u64) << 8u64) | (iv[11] as u64)
}

/// The eight big-endian bytes of `x`.
pub open spec fn be_bytes(x: u64) -> Seq<u8> {
    seq![
        (x >> 56u64) as u8, (x >> 48u64) as u8, (x >> 40u64) as u8, (x >> 32u64) as u8,
        (x >> 24u64) as u8, (x >> 16u64) as u8, (x >> 8u64) as u8, x as u8,
    ]
}

/// The nonce of chunk `i`: the first four bytes of the initial nonce, then
/// its counter advanced by `i`, wrapping around.
pub open spec fn chunk_nonce(iv: Seq<u8>, i: nat) -> Seq<u8> {
    iv.take(4) + be_bytes(((counter_start(iv) + i) % 0x1_0000_0000_0000_0000) as u64)
}

/// The length of the next chunk of `data` when chunks hold `chunk` bytes.
pub open spec fn piece_len(data: Seq<u8>, chunk: nat) -> nat {
    if data.len() <= chunk {
        data.len()
    } else {
        chunk
    }
}

/// The encrypted stream: `data` cut into chunks of `chunk` bytes, chunk `k`
/// (counted from `i`) encrypted under its own nonce, ciphertext and tag one
/// after the other. Nothing is written when `chunk` is zero.
pub open spec fn seal_chunks(key: Seq<u8>, iv: Seq<u8>, aad: Seq<u8>, data: Seq<u8>, chunk: nat, i: nat) -> Seq<u8>
    decreases data.len(),
{
    if chunk == 0 || data.len() == 0 {
        Seq::empty()
    } else {
        let n = piece_len(data, chunk);
        aes256gcm_seal(key, chunk_nonce(iv, i), aad, data.take(n as int)) + seal_chunks(
            key,
            iv,
            aad,
            data.skip(n as int),
            chunk,
            i + 1,
        )
    }
}

/// Every chunk's encryption is 16 bytes longer than the chunk and decrypts
/// back to it.
pub open spec fn sealed_ok(key: Seq<u8>, iv: Seq<u8>, aad: Seq<u8>, data: Seq<u8>, chunk: nat, i: nat) -> bool
    decreases data.len(),
{
    if chunk == 0 || data.len() == 0 {
        true
    } else {
        let n = piece_len(data, chunk);
        let sealed = aes256gcm_seal(key, chunk_nonce(iv, i), aad, data.take(n as int));
        &&& sealed.len() == n + 16
        &&& aes256gcm_open(key, chunk_nonce(iv, i), aad, sealed.take(n as int), sealed.skip(n as int))
            == Some(data.take(n as int))
        &&& sealed_ok(key, iv, aad, data.skip(n as int), chunk, i + 1)
    }
}

/// Decrypting a stream of chunks of `chunk` plaintext bytes, each followed by
/// its tag: the plaintext recovered, and the reason decryption stopped if it
/// did.
pub open spec fn open_chunks(key: Seq<u8>, iv: Seq<u8>, aad: Seq<u8>, data: Seq<u8>, chunk: nat, i: nat) -> (Seq<u8>, Option<CryptoError>)
    decreases data.len(),
{
    if data.len() == 0 {
        (Seq::empty(), None)
    } else {
        let n = piece_len(data, chunk + 16);
        if n < 16 {
            (Seq::empty(), Some(CryptoError::Truncated))
        } else {
            match aes256gcm_open(
                key,
                chunk_nonce(iv, i),
                aad,
                data.take(n - 16),
                data.subrange(n - 16, n as int),
            ) {
                None => (Seq::empty(), Some(CryptoError::DecryptionFailed)),
                Some(p) => {
                    let (rest, e) = open_chunks(key, iv, aad, data.skip(n as int), chunk, i + 1);
                    (p + rest, e)
                },
            }
        }
    }
}

/// Decrypting what was encrypted chunk by chunk gives the data back.
pub proof fn lemma_open_sealed(key: Seq<u8>, iv: Seq<u8>, aad: Seq<u8>, data: Seq<u8>, chunk: nat, i: nat)
    requires
        chunk > 0,
        sealed_ok(key, iv, aad, data, chunk, i),
    ensures
        open_chunks(key, iv, aad, seal_chunks(key, iv, aad, data, chunk, i), chunk, i) == (
            data,
            Option::<CryptoError>::None,
        ),
    decreases data.len(),
{
    if data.len() == 0 {
    } else {
        let n = piece_len(data, chunk);
        let p = data.take(n as int);
        let sealed = aes256gcm_seal(key, chunk_nonce(iv, i), aad, p);
        let rest = seal_chunks(key, iv, aad, data.skip(n as int), chunk, i + 1);
        let s = sealed + rest;
        lemma_open_sealed(key, iv, aad, data.skip(n as int), chunk, i + 1);
        if data.len() <= chunk {
            assert(data.skip(n as int).len() == 0);
            assert(rest =~= Seq::<u8>::empty());
        }
        assert(piece_len(s, chunk + 16) == n + 16);
        assert(s.take(n as int) =~= sealed.take(n as int));
        assert(s.subrange(n as int, n as int + 16) =~= sealed.skip(n as int));
        assert(s.skip(n as int + 16) =~= rest);
        assert(p + data.skip(n as int) =~= data);
    }
}

/// Each chunk of at least one byte grows by its 16-byte tag: the encrypted
/// stream is at most 17 times as long as the data.
pub proof fn lemma_sealed_len(key: Seq<u8>, iv: Seq<u8>, aad: Seq<u8>, data: Seq<u8>, chunk: nat, i: nat)
    requires
        chunk > 0,
        sealed_ok(key, iv, aad, data, chunk, i),
    ensures
        data.len() <= seal_chunks(key, iv, aad, data, chunk, i).len() <= 17 * data.len(),
    decreases data.len(),
{
    if data.len() > 0 {
        let n = piece_len(data, chunk);
        lemma_sealed_len(key, iv, aad, data.skip(n as int), chunk, i + 1);
    }
}

/// The nonce of the chunk whose counter is `counter`.
fn nonce_for(iv: &[u8; 12], counter: u64) -> (nonce: [u8; 12])
    ensures
        nonce@ == iv@.take(4) + be_bytes(counter),
{
    let nonce = [
        iv[0], iv[1], iv[2], iv[3],
        (counter >> 56u64) as u8, (counter >> 48u64) as u8, (counter >> 40u64) as u8, (counter >> 32u64) as u8,
        (counter >> 24u64) as u8, (counter >> 16u64) as u8, (counter >> 8u64) as u8, counter as u8,
    ];
    assert(nonce@ =~= iv@.take(4) + be_bytes(counter));
    nonce
}

/// Encrypts `reader` in chunks of `chunk_size` bytes with AES-256-GCM, each
/// chunk under its own nonce (the counter in the last eight bytes of
/// `initial_nonce` advanced by the chunk's index), and appends ciphertext and
/// tag of every chunk to `writer`. Returns the number of bytes written.
pub fn encrypt_stream(
    reader: &[u8],
    writer: &mut Vec<u8>,
    key: &[u8; 32],
    initial_nonce: &[u8; 12],
    aad: &[u8],
    chunk_size: usize,
) -> (r: Result<usize, CryptoError>)
    requires
        chunk_size <= PIECE_MAX,
    ensures
        (chunk_size == 0 || reader.len() == 0 || aad.len() <= AAD_MAX) ==> {
            let sealed = seal_chunks(key@, initial_nonce@, aad@, reader@, chunk_size as nat, 0);
            &&& r == Ok::<usize, CryptoError>(sealed.len() as usize)
            &&& final(writer)@ == old(writer)@ + sealed
            &&& sealed_ok(key@, initial_nonce@, aad@, reader@, chunk_size as nat, 0)
            &&& chunk_size > 0 ==> open_chunks(key@, initial_nonce@, aad@, sealed, chunk_size as nat, 0) == (
                reader@,
                Option::<CryptoError>::None,
            )
        },
        !(chunk_size == 0 || reader.len() == 0 || aad.len() <= AAD_MAX) ==> r == Err::<usize, CryptoError>(
            CryptoError::EncryptionFailed,
        ) && final(writer)@ == old(writer)@,
{
    let ghost k = key@;
    let ghost iv = initial_nonce@;
    let ghost a = aad@;
    let ghost data = reader@;
    let ghost chunk = chunk_size as nat;
    let start = writer.len();
    if chunk_size == 0 {
        assert(old(writer)@ + Seq::<u8>::empty() =~= old(writer)@);
        return Ok(0);
    }
    let mut counter: u64 = ((initial_nonce[4] as u64) << 56u64) | ((initial_nonce[5] as u64) << 48u64) | ((
    initial_nonce[6] as u64) << 40u64) | ((initial_nonce[7] as u64) << 32u64) | ((initial_nonce[8] as u64)
        << 24u64) | ((initial_nonce[9] as u64) << 16u64) | ((initial_nonce[10] as u64) << 8u64) | (
    initial_nonce[11] as u64);
    let mut pos: usize = 0;
    let ghost mut idx: nat = 0;
    let ghost mut produced: Seq<u8> = Seq::empty();
    proof {
        assert(data.skip(0) =~= data);
        assert(produced + seal_chunks(k, iv, a, data, chunk, 0) =~= seal_chunks(k, iv, a, data, chunk, 0));
    }
    while pos < reader.len()
        invariant
            0 <= pos <= reader.len(),
            chunk == chunk_size as nat,
            0 < chunk_size <= PIECE_MAX,
            k == key@,
            iv == initial_nonce@,
            a == aad@,
            data == reader@,
            start == old(writer)@.len(),
            writer@ == old(writer)@ + produced,
            seal_chunks(k, iv, a, data, chunk, 0) == produced + seal_chunks(k, iv, a, data.skip(pos as int), chunk, idx),
            sealed_ok(k, iv, a, data, chunk, 0) == sealed_ok(k, iv, a, data.skip(pos as int), chunk, idx),
            counter as int == (counter_start(iv) + idx) % 0x1_0000_0000_0000_0000,
            aad.len() > AAD_MAX ==> pos == 0 && produced.len() == 0,
        decreases reader.len() - pos,
    {
        let n = if reader.len() - pos <= chunk_size { reader.len() - pos } else { chunk_size };
        let piece = slice_range(reader, pos, pos + n);
        let nonce = nonce_for(initial_nonce, counter);
        let ghost rem = data.skip(pos as int);
        proof {
            assert(piece_len(rem, chunk) == n);
            assert(piece@ =~= rem.take(n as int));
            assert(nonce@ == chunk_nonce(iv, idx));
            assert(rem.skip(n as int) =~= data.skip(pos + n));
        }
        let (ct, tag) = match aes256gcm_encrypt(key, &nonce, aad, piece) {
            Ok(sealed) => sealed,
            Err(_) => {
                assert(old(writer)@ + Seq::<u8>::empty() =~= old(writer)@);
                return Err(CryptoError::EncryptionFailed);
            },
        };
        write_all(writer, ct.as_slice());
        write_all(writer, &tag);
        proof {
            let sealed = ct@ + tag@;
            assert(sealed.take(n as int) =~= ct@);
            assert(sealed.skip(n as int) =~= tag@);
            assert(writer@ =~= old(writer)@ + (produced + sealed));
            assert(produced + seal_chunks(k, iv, a, rem, chunk, idx) =~= (produced + sealed) + seal_chunks(
                k,
                iv,
                a,
                data.skip(pos + n),
                chunk,
                idx + 1,
            ));
            produced = produced + sealed;
            idx = idx + 1;
        }
        counter = counter.wrapping_add(1);
        pos = pos + n;
    }
    proof {
        assert(data.skip(pos as int) =~= Seq::<u8>::empty());
        assert(produced + Seq::<u8>::empty() =~= produced);
        lemma_open_sealed(k, iv, a, data, chunk, 0);
    }
    Ok(writer.len() - start)
}

/// Decrypts a stream written by [`encrypt_stream`] with the same key, nonce,
/// associated data and chunk size: reads pieces of `chunk_size` bytes plus a
/// tag, authenticates and decrypts each, and appends the plaintext to
/// `writer`. Returns the number of plaintext bytes written; fails on a final
/// piece too short for a tag or on a piece that does not authenticate, with
/// the plaintext of the pieces before it appended.
pub fn decrypt_stream(
    reader: &[u8],
    writer: &mut Vec<u8>,
    key: &[u8; 32],
    initial_nonce: &[u8; 12],
    aad: &[u8],
    chunk_size: usize,
) -> (r: Result<usize, CryptoError>)
    requires
        chunk_size <= PIECE_MAX,
    ensures
        final(writer)@ == old(writer)@ + open_chunks(key@, initial_nonce@, aad@, reader@, chunk_size as nat, 0).0,
        r == match open_chunks(key@, initial_nonce@, aad@, reader@, chunk_size as nat, 0).1 {
            None => Ok::<usize, CryptoError>(
                open_chunks(key@, initial_nonce@, aad@, reader@, chunk_size as nat, 0).0.len() as usize,
            ),
            Some(e) => Err(e),
        },
{
    let ghost k = key@;
    let ghost iv = initial_nonce@;
    let ghost a = aad@;
    let ghost data = reader@;
    let ghost chunk = chunk_size as nat;
    let ghost total = open_chunks(k, iv, a, data, chunk, 0);
    let start = writer.len();
    let mut counter: u64 = ((initial_nonce[4] as u64) << 56u64) | ((initial_nonce[5] as u64) << 48u64) | ((
    initial_nonce[6] as u64) << 40u64) | ((initial_nonce[7] as u64) << 32u64) | ((initial_nonce[8] as u64)
        << 24u64) | ((initial_nonce[9] as u64) << 16u64) | ((initial_nonce[10] as u64) << 8u64) | (
    initial_nonce[11] as u64);
    let piece_max = chunk_size + TAG_LEN;
    let mut pos: usize = 0;
    let ghost mut idx: nat = 0;
    let ghost mut produced: Seq<u8> = Seq::empty();
    proof {
        assert(data.skip(0) =~= data);
        assert(Seq::<u8>::empty() + total.0 =~= total.0);
    }
    while pos < reader.len()
        invariant
            0 <= pos <= reader.len(),
            chunk == chunk_size as nat,
            chunk_size <= PIECE_MAX,
            piece_max == chunk_size + 16,
            k == key@,
            iv == initial_nonce@,
            a == aad@,
            data == reader@,
            total == open_chunks(k, iv, a, data, chunk, 0),
            start == old(writer)@.len(),
            writer@ == old(writer)@ + produced,
            total == (
                produced + open_chunks(k, iv, a, data.skip(pos as int), chunk, idx).0,
                open_chunks(k, iv, a, data.skip(pos as int), chunk, idx).1,
            ),
            counter as int == (counter_start(iv) + idx) % 0x1_0000_0000_0000_0000,
        decreases reader.len() - pos,
    {
        let ghost rem = data.skip(pos as int);
        let n = if reader.len() - pos <= piece_max { reader.len() - pos } else { piece_max };
        proof {
            assert(piece_len(rem, chunk + 16) == n);
        }
        if n < TAG_LEN {
            assert(produced + Seq::<u8>::empty() =~= produced);
            return Err(CryptoError::Truncated);
        }
        let ct = slice_range(reader, pos, pos + n - TAG_LEN);
        let tag_slice = slice_range(reader, pos + n - TAG_LEN, pos + n);
        let tag: [u8; 16] = [
            tag_slice[0], tag_slice[1], tag_slice[2], tag_slice[3], tag_slice[4], tag_slice[5],
            tag_slice[6], tag_slice[7], tag_slice[8], tag_slice[9], tag_slice[10], tag_slice[11],
            tag_slice[12], tag_slice[13], tag_slice[14], tag_slice[15],
        ];
        let nonce = nonce_for(initial_nonce, counter);
        proof {
            assert(ct@ =~= rem.take(n - 16));
            assert(tag@ =~= rem.subrange(n - 16, n as int));
            assert(nonce@ == chunk_nonce(iv, idx));
            assert(rem.skip(n as int) =~= data.skip(pos + n));
        }
        let plain = match aes256gcm_decrypt(key, &nonce, aad, ct, &tag) {
            Ok(p) => p,
            Err(_) => {
                assert(produced + Seq::<u8>::empty() =~= produced);
                return Err(CryptoError::DecryptionFailed);
            },
        };
        write_all(writer, plain.as_slice());
        proof {
            let next = open_chunks(k, iv, a, data.skip(pos + n), chunk, idx + 1);
            assert(produced + (plain@ + next.0) =~= (produced + plain@) + next.0);
            produced = produced + plain@;
            idx = idx + 1;
        }
        counter = counter.wrapping_add(1);
        pos = pos + n;
    }
    proof {
        assert(data.skip(pos as int) =~= Seq::<u8>::empty());
        assert(produced + Seq::<u8>::empty() =~= produced);
    }
    Ok(writer.len() - start)
}

} // verus!
