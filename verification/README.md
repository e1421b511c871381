# ccproject

Three small web services, with their logic verified by Verus:

- a QR-code service that encodes a short message as a whitened 21x21 or
  25x25 code rendered as hex words, and decodes a code hidden, possibly
  turned, in a 32x32 bit matrix;
- a tweet ranking that counts phrase and hashtag occurrences with
  Knuth-Morris-Pratt matching and writes the ranked users;
- a toy blockchain validator that checks a chain, completes and signs new
  transactions, adds the reward, mines the next block and answers with the
  extended chain, zlib-compressed and base64-encoded.

Layout:

- `src/` — the verified library. `kmp` (pattern counting), `encode`,
  `matrix`, `keystream`, `hexfmt`, `decode`, `find`, `rotate`, `grid`
  (QR codes), `ranking`, `chain`, `precheck`, `reply`, `bigdec`, `rsa`,
  `numparse`, `decimal`, `text`, and `codec` (the calls into sha256,
  substring, base64 and flate2). `readback` holds the laws that the
  decoder reads back what the encoder writes, up to the whole round trip
  through a turned, whitened 32x32 matrix in hex, `signature` the proof that
  the signing key opens what it signs, `extension` the proof that a
  chain extended by the validator passes its checks again, and `outline`
  the proofs that `find_qr_code` undoes the quarter turn of a code placed
  in the matrix, and that a code drawn at any quarter turn is found and
  turned upright.
- `tests/` — tests of the library.
- `app/` — the servers (ntex, axum), JSON with serde, the MySQL query and
  the floating-point scores of the ranking.
