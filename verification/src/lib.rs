//! Falcon-512 signature verification.
//!
//! Signatures are in compressed format (header `0x39`), public keys in wire
//! form (header `0x09`). Key generation, signing, the padded format and
//! Falcon-1024 are not covered.
//!
//! `Falcon512Signature::verify` takes a public key in wire form. Where the same
//! key is used many times, `Falcon512Pubkey::try_prepare_pubkey` unpacks and
//! transforms it once, and `Falcon512Signature::verify_with_prepared` takes the
//! result, which can be stored in the layout of
//! `Falcon512PreparedPubkeyAccount`.
//!
//! What verification means is stated by `signature::verifies`: with `c` the hash
//! of nonce and message to a point of `Z_q[x] / (x^512 + 1)`, `h` the public key
//! and `s2` the polynomial that the signature holds, `(c - s2 * h, s2)` is
//! short. The modules build up to it:
//!
//! - `keccak`, `shake`: the permutation, the sponge, SHAKE-256
//! - `bits`, `bytes`: bit and byte strings
//! - `codec`: packed public keys, compressed signatures, hash to a point
//! - `field`, `poly`, `ntt`: arithmetic in the ring
//! - `norm`: the norm test
//! - `pubkey`, `prepared`, `signature`: the wire types
//! - `account`, `instruction`: layouts of stored keys and of payloads
//! - `program`: the decisions of a verifier program
//!
//! Verification works on public data and is not constant-time.
use vstd::prelude::*;

pub mod account;
pub mod bits;
pub mod bytes;
pub mod codec;
pub mod error;
pub mod field;
pub mod instruction;
pub mod keccak;
pub mod norm;
pub mod ntt;
pub mod poly;
pub mod prepared;
pub mod program;
pub mod pubkey;
pub mod shake;
pub mod signature;

pub use account::Falcon512PreparedPubkeyAccount;
pub use error::ProgramError;
pub use instruction::Falcon512VerifyInstruction;
pub use keccak::Shake256;
pub use prepared::Falcon512PreparedPubkey;
pub use pubkey::Falcon512Pubkey;
pub use signature::Falcon512Signature;

verus! {

/// Length of a public key in wire form, with its header byte.
pub const FALCON_512_PUBKEY_LEN: usize = 897;

/// Length of a compressed signature: header, 40-byte nonce, and 625 bytes of
/// compressed `s2`.
pub const FALCON_512_SIGNATURE_LEN: usize = 666;

/// Length of a serialised prepared public key.
pub const FALCON_512_PREPARED_PUBKEY_LEN: usize = N * 2;

/// `FALCPPK1`, the first bytes of a stored prepared public key.
pub const FALCON_512_PREPARED_PUBKEY_ACCOUNT_DISCRIMINATOR: [u8; 8] = [
    0x46, 0x41, 0x4c, 0x43, 0x50, 0x50, 0x4b, 0x31,
];

/// Version of the account layout.
pub const FALCON_512_PREPARED_PUBKEY_ACCOUNT_VERSION: u32 = 1;

/// Length of the account layout: discriminator, version, prepared public key.
pub const FALCON_512_PREPARED_PUBKEY_ACCOUNT_LEN: usize = 8 + 4 + FALCON_512_PREPARED_PUBKEY_LEN;

/// Least length of a verify instruction payload.
pub const FALCON_512_VERIFY_INSTRUCTION_MIN_LEN: usize = FALCON_512_SIGNATURE_LEN;

/// Degree of the ring `Z_q[x] / (x^512 + 1)`.
pub const N: usize = 512;

/// The modulus `q`.
pub const Q: u32 = 12289;

} // verus!
