//! Signatures and their verification.
use vstd::prelude::*;
use vstd::std_specs::cmp::PartialEqSpecImpl;
use vstd::std_specs::convert::{FromSpecImpl, TryFromSpecImpl};

use crate::bytes::{same_bytes, to_array};
use crate::codec::{
    decompress_signature, decompressed, hash_to_point, hashed_point, law_hashed_point,
    pubkey_coeffs, u16_ints, COMPRESSED_LEN,
};
use crate::error::ProgramError;
use crate::norm::{
    check_norm, is_short, law_prepared_product, norm_check_with_prepared, prepared_coeffs,
    scaled_product,
};
use crate::poly::product;
use crate::prepared::Falcon512PreparedPubkey;
use crate::pubkey::{is_pubkey, Falcon512Pubkey, PUBKEY_HEADER};
use crate::shake::shake256;
use crate::FALCON_512_SIGNATURE_LEN;

verus! {

/// First byte of a compressed signature.
pub const SIG_HEADER: u8 = 0x39;

/// Length of the nonce.
pub const NONCE_LEN: usize = 40;

/// The nonce of a signature.
pub open spec fn nonce_of(sig: Seq<u8>) -> Seq<u8> {
    sig.subrange(1, 1 + NONCE_LEN)
}

/// The polynomial `s2` of a signature, if it holds one.
pub open spec fn s2_of(sig: Seq<u8>) -> Option<Seq<int>> {
    decompressed(sig.skip(1 + NONCE_LEN))
}

/// The signature is one of the message under the public key: with `c` the hash
/// of nonce and message, and `h` the public key polynomial, the vector
/// `(c - s2 * h, s2)` is short.
pub open spec fn verifies(sig: Seq<u8>, message: Seq<u8>, pubkey: Seq<u8>) -> bool {
    &&& sig[0] == SIG_HEADER
    &&& is_pubkey(pubkey)
    &&& match (s2_of(sig), hashed_point(nonce_of(sig), message)) {
        (Some(s2), Some(c)) => is_short(c, product(s2, pubkey_coeffs(pubkey.skip(1))), s2),
        _ => false,
    }
}

/// The signature is one of the message under a prepared public key.
pub open spec fn verifies_prepared(sig: Seq<u8>, message: Seq<u8>, prepared: Seq<u16>) -> bool {
    &&& sig[0] == SIG_HEADER
    &&& match (s2_of(sig), hashed_point(nonce_of(sig), message)) {
        (Some(s2), Some(c)) => is_short(c, scaled_product(u16_ints(prepared), s2), s2),
        _ => false,
    }
}

/// The verdict on a signature is the norm test on the point that is read off
/// SHAKE-256 of its 40-byte nonce followed by the whole message, for a
/// well-formed public key and a signature that holds a polynomial.
pub proof fn law_verifies(
    sig: Seq<u8>,
    message: Seq<u8>,
    pubkey: Seq<u8>,
    n: nat,
)
    requires
        sig.len() == 666,
        n <= 68 * 0xffff_ffff_ffff_ffff,
    ensures
        ({
            let out = shake256(sig.subrange(1, 41) + message, 2 * n);
            let pairs = Seq::new(n, |i: int| out[2 * i] * 256 + out[2 * i + 1]);
            let low = pairs.filter(|w: int| w < 61445);
            let c = Seq::new(512, |j: int| low[j] % 12289);
            &&& low.len() >= 512 ==> (verifies(sig, message, pubkey) <==> {
                &&& sig[0] == 0x39
                &&& pubkey.len() == 897
                &&& pubkey[0] == 0x09
                &&& forall|i: int|
                    0 <= i < 512 ==> #[trigger] pubkey_coeffs(pubkey.skip(1))[i] < 12289
                &&& decompressed(sig.skip(41)) is Some
                &&& is_short(
                    c,
                    product(
                        decompressed(sig.skip(41))->Some_0,
                        pubkey_coeffs(pubkey.skip(1)),
                    ),
                    decompressed(sig.skip(41))->Some_0,
                )
            })
            &&& low.len() < 512 && n == 68 * 0xffff_ffff_ffff_ffff
                ==> !verifies(sig, message, pubkey)
        }),
{
    law_hashed_point(sig.subrange(1, 41), message, n);
}

/// The verdict on a signature against a prepared public key is the norm test on
/// the point that is read off SHAKE-256 of its 40-byte nonce followed by the
/// whole message.
pub proof fn law_verifies_prepared(
    sig: Seq<u8>,
    message: Seq<u8>,
    prepared: Seq<u16>,
    n: nat,
)
    requires
        sig.len() == 666,
        n <= 68 * 0xffff_ffff_ffff_ffff,
    ensures
        ({
            let out = shake256(sig.subrange(1, 41) + message, 2 * n);
            let pairs = Seq::new(n, |i: int| out[2 * i] * 256 + out[2 * i + 1]);
            let low = pairs.filter(|w: int| w < 61445);
            let c = Seq::new(512, |j: int| low[j] % 12289);
            &&& low.len() >= 512 ==> (verifies_prepared(sig, message, prepared) <==> {
                &&& sig[0] == 0x39
                &&& decompressed(sig.skip(41)) is Some
                &&& is_short(
                    c,
                    scaled_product(u16_ints(prepared), decompressed(sig.skip(41))->Some_0),
                    decompressed(sig.skip(41))->Some_0,
                )
            })
            &&& low.len() < 512 && n == 68 * 0xffff_ffff_ffff_ffff
                ==> !verifies_prepared(sig, message, prepared)
        }),
{
    law_hashed_point(sig.subrange(1, 41), message, n);
}

/// Only signatures with the compressed-format header verify.
pub proof fn law_header_required(
    sig: Seq<u8>,
    message: Seq<u8>,
    pubkey: Seq<u8>,
    prepared: Seq<u16>,
)
    requires
        sig[0] != SIG_HEADER,
    ensures
        !verifies(sig, message, pubkey),
        !verifies_prepared(sig, message, prepared),
{
}

/// Verifying against a public key, and against the same public key prepared,
/// come to the same.
pub proof fn law_prepared_agrees(
    sig: Seq<u8>,
    message: Seq<u8>,
    pubkey: Seq<u8>,
    prepared: Seq<u16>,
)
    requires
        is_pubkey(pubkey),
        u16_ints(prepared) == prepared_coeffs(pubkey_coeffs(pubkey.skip(1))),
    ensures
        verifies(sig, message, pubkey) == verifies_prepared(sig, message, prepared),
{
    if let Some(s2) = s2_of(sig) {
        assert(s2.len() == 512);
        law_prepared_product(pubkey_coeffs(pubkey.skip(1)), s2);
    }
}

/// Compressed Falcon-512 signature: header `0x39`, a 40-byte nonce, and the
/// compressed polynomial `s2`, padded with zeros.
#[derive(Clone, Copy)]
pub struct Falcon512Signature([u8; FALCON_512_SIGNATURE_LEN]);

impl View for Falcon512Signature {
    type V = Seq<u8>;

    closed spec fn view(&self) -> Seq<u8> {
        self.0@
    }
}

impl PartialEq for Falcon512Signature {
    fn eq(&self, other: &Self) -> (r: bool)
        ensures
            r == (self@ == other@),
    {
        same_bytes(&self.0, &other.0)
    }
}

impl PartialEqSpecImpl for Falcon512Signature {
    open spec fn obeys_eq_spec() -> bool {
        true
    }

    open spec fn eq_spec(&self, other: &Self) -> bool {
        self@ == other@
    }
}

impl Eq for Falcon512Signature {

}

impl Falcon512Signature {
    /// A signature has 666 bytes.
    pub proof fn lemma_len(&self)
        ensures
            self@.len() == FALCON_512_SIGNATURE_LEN,
    {
    }

    /// Wraps a buffer as a signature, without looking at it.
    pub fn from_bytes(value: [u8; FALCON_512_SIGNATURE_LEN]) -> (r: Self)
        ensures
            r@ == value@,
    {
        Self(value)
    }

    /// Copies a buffer into a signature, without looking at it.
    pub fn from_ref(bytes: &[u8; FALCON_512_SIGNATURE_LEN]) -> (r: Self)
        ensures
            r@ == bytes@,
    {
        Self(*bytes)
    }

    /// A signature from a slice of exactly 666 bytes.
    pub fn try_from_slice(bytes: &[u8]) -> (r: Result<Self, ProgramError>)
        ensures
            r is Ok <==> bytes@.len() == FALCON_512_SIGNATURE_LEN,
            r matches Ok(s) ==> s@ == bytes@,
            r matches Err(e) ==> e == ProgramError::InvalidArgument,
    {
        if bytes.len() != FALCON_512_SIGNATURE_LEN {
            return Err(ProgramError::InvalidArgument);
        }
        Ok(Self(to_array(bytes)))
    }

    /// The wire form.
    pub fn as_bytes(&self) -> (r: &[u8; FALCON_512_SIGNATURE_LEN])
        ensures
            r@ == self@,
    {
        &self.0
    }

    /// Verifies against a prepared public key. `false` covers every failure.
    pub fn verify_with_prepared(&self, message: &[u8], prepared: &Falcon512PreparedPubkey) -> (r:
        bool)
        ensures
            r == verifies_prepared(self@, message@, prepared@),
    {
        if self.0[0] != SIG_HEADER {
            return false;
        }
        let mut s2: [i16; 512] = [0; 512];
        if !decompress_signature(self.compressed(), &mut s2) {
            return false;
        }
        let mut c: [u16; 512] = [0; 512];
        if !hash_to_point(self.nonce(), message, &mut c) {
            return false;
        }
        norm_check_with_prepared(prepared.coeffs(), &s2, &c)
    }

    /// Verifies against a public key in wire form. `false` covers every failure.
    pub fn verify(&self, message: &[u8], pubkey: &Falcon512Pubkey) -> (r: bool)
        ensures
            r == verifies(self@, message@, pubkey@),
    {
        proof {
            pubkey.lemma_len();
        }
        if self.0[0] != SIG_HEADER || pubkey.as_bytes()[0] != PUBKEY_HEADER {
            return false;
        }
        let mut s2: [i16; 512] = [0; 512];
        if !decompress_signature(self.compressed(), &mut s2) {
            return false;
        }
        let mut c: [u16; 512] = [0; 512];
        if !hash_to_point(self.nonce(), message, &mut c) {
            return false;
        }
        check_norm(pubkey.body(), &s2, &c)
    }

    /// The nonce.
    fn nonce(&self) -> (r: &[u8])
        ensures
            r@ == nonce_of(self@),
    {
        vstd::slice::slice_subrange(vstd::array::array_as_slice(&self.0), 1, 1 + NONCE_LEN)
    }

    /// The compressed polynomial.
    fn compressed(&self) -> (r: &[u8])
        ensures
            r@ == self@.skip(1 + NONCE_LEN),
            r@.len() == COMPRESSED_LEN,
    {
        let r = vstd::slice::slice_subrange(
            vstd::array::array_as_slice(&self.0),
            1 + NONCE_LEN,
            FALCON_512_SIGNATURE_LEN,
        );
        assert(r@ =~= self@.skip(1 + NONCE_LEN));
        r
    }
}

/// The signature with a given wire form.
pub open spec fn signature_of(bytes: Seq<u8>) -> Falcon512Signature {
    choose|s: Falcon512Signature| s@ == bytes
}

/// A signature is its wire form.
proof fn lemma_signature_of(s: Falcon512Signature)
    ensures
        signature_of(s@) == s,
{
    let c = signature_of(s@);
    assert(c@ == s@);
    assert(c.0@ =~= s.0@);
    assert(c.0 =~= s.0);
}

impl From<[u8; FALCON_512_SIGNATURE_LEN]> for Falcon512Signature {
    fn from(value: [u8; FALCON_512_SIGNATURE_LEN]) -> (r: Self)
        ensures
            r@ == value@,
    {
        let r = Self(value);
        proof {
            lemma_signature_of(r);
        }
        r
    }
}

impl FromSpecImpl<[u8; FALCON_512_SIGNATURE_LEN]> for Falcon512Signature {
    open spec fn obeys_from_spec() -> bool {
        true
    }

    open spec fn from_spec(value: [u8; FALCON_512_SIGNATURE_LEN]) -> Self {
        signature_of(value@)
    }
}

impl TryFrom<&[u8]> for Falcon512Signature {
    type Error = ProgramError;

    fn try_from(value: &[u8]) -> (r: Result<Self, ProgramError>)
        ensures
            r is Ok <==> value@.len() == 666,
            r matches Ok(s) ==> s@ == value@,
            r matches Err(e) ==> e == ProgramError::InvalidArgument,
    {
        let r = Self::try_from_slice(value);
        proof {
            if r is Ok {
                lemma_signature_of(r->Ok_0);
            }
        }
        r
    }
}

impl TryFromSpecImpl<&[u8]> for Falcon512Signature {
    open spec fn obeys_try_from_spec() -> bool {
        true
    }

    open spec fn try_from_spec(value: &[u8]) -> Result<Self, ProgramError> {
        if value@.len() == FALCON_512_SIGNATURE_LEN {
            Ok(signature_of(value@))
        } else {
            Err(ProgramError::InvalidArgument)
        }
    }
}

} // verus!
