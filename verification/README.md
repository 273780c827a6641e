# s-crypt

Authenticated archival encryption for files and directories. An archive (`.senc`) holds a
Zstandard stream in chunks under AES-256-GCM, with a key that Argon2id derives from a
password, and ends in an authenticated count of its chunks.

- `src/` is the library, verified with Verus.
  - `layout` writes and reads the parts of an archive.
  - `crypto` derives keys and nonces, and encrypts and decrypts chunks.
  - `writer` writes an archive chunk by chunk; `reader` opens one.
  - `compression` undoes the compression of what an archive holds.
  - `metadata` and `password` say what an archive tells of itself, and where the password
    comes from.
  - `laws` proves what holds of archives as a whole: what is written reads back; what is cut
    short, rearranged or changed, or does not authenticate, is refused; and no two chunks
    share a nonce.
- `tests/` runs the library.
- `app/` is the command line tool around it: arguments, files, JSON, the compressor.

## Archive layout

```
Header   magic "SCRYPT07" (8), version 7 (1), salt (16), base nonce (12),
         chunk size (4), metadata length (4), metadata (JSON)
Chunk    counter (4), ciphertext length (4), ciphertext with its 16 byte tag
Final    0xFFFFFFFF (4), nonce (12), seal length (4), seal (encrypted chunk count)
```

Numbers are 32 bits, most significant byte first. The metadata is the associated data of
every chunk and of the seal. The counter of a chunk is its place, from 0 on. A chunk's nonce is
the base nonce, its last four bytes XORed with the counter. A chunk holds 1 to 4294967279 bytes
of the compressed stream, and no more than the chunk size. The seal is four encrypted bytes.
