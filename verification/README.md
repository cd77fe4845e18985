# mismall

A file compressor built on Huffman coding, with optional AES-256-GCM
encryption and multi-file archives, written in Verus.

`src/` is the verified library. It works on in-memory byte buffers:

- `checksum` — Adler-32, one-shot and incremental, proved equal.
- `flags`, `constants` — the flag bits and fixed values of the format.
- `huffman` — frequency counting, tree building, serialization of trees,
  code tables, packing codes into bits (`codec`), and the file-level
  `encoder` and `decoder`.
- `io` — the bit writer and bit reader.
- `headers` — the `.small` header: writing, reading, and reading back what
  was written.
- `crypto` — key derivation and chunked AES-256-GCM, calling the `pbkdf2`,
  `sha2` and `aes-gcm` crates through small trusted wrappers.
- `compress`, `decompress` — chunk-size validation and decompression of a
  whole file.
- `archive` — archives of several files: creating, listing, extracting one
  file, adding a file.
- `error`, `errors`, `progress` — error values, context and suggestions,
  processing stages.

The central property is stated on `huffman::encoder::encode`: decompressing
what it writes, with the same password and chunk size, gives back the data,
its name, size and checksum. `archive::create_archive` states the same for
every file of an archive.

`encode` also states how the file is laid out: the data is stored raw
exactly when its Huffman codes would not be shorter, and otherwise the
payload is those codes, packed most significant bit first; the codes take
as many bits as the tree's weighted path length.

`huffman::tree::build_huffman_tree` also states that its tree has the least
weighted path length of all trees with the same leaf weights (the proof is
in `huffman::optimal`), and that it is never more than 64 levels deep for
less than 2^45 bytes of data, so every code fits in 64 bits.

`app/` is the command-line tool and the parts that need the file system,
floating-point statistics or callbacks. `tests/` runs the library.

The chunk size an encrypted file was written with is not stored in the
file, so an encrypted file decrypts only when it is read with that same chunk
size; an unencrypted file reads with any valid chunk size.
