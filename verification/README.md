# solana_falcon512

Falcon-512 signature verification for Solana programs, written and proved in
Verus.

- `src/` is the library. Every function is verified against its contract; the
  public proof functions whose names begin with `law_` state what holds across
  functions (round trips of the layouts, uniqueness of the encodings, agreement
  of the two ways to verify, the transform against the product in the ring, the
  incremental sponge against SHAKE-256 of a whole message).
- `tests/` runs the library: known answers, edge cases of every format, and
  keys and signatures made by `pqcrypto-falcon`.
- `app/` is a Solana program around the library.

One function is trusted: `bytes::address_of`, which reads the address of a slice
to decide whether it is aligned.

The library is not audited.
