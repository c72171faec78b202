//! Public keys in wire form.
use vstd::prelude::*;
use vstd::std_specs::cmp::PartialEqSpecImpl;
use vstd::std_specs::convert::{FromSpecImpl, TryFromSpecImpl};

use crate::bytes::{same_bytes, to_array};
use crate::codec::{decode_pubkey_u32, is_pubkey_body, pubkey_coeffs, u16_ints};
use crate::error::ProgramError;
use crate::norm::{prepare_coeffs, prepared_coeffs};
use crate::prepared::Falcon512PreparedPubkey;
use crate::FALCON_512_PUBKEY_LEN;

verus! {

/// First byte of a public key.
pub const PUBKEY_HEADER: u8 = 0x09;

/// A well-formed public key in wire form: the header, then 512 packed
/// coefficients below `q`.
pub open spec fn is_pubkey(bytes: Seq<u8>) -> bool {
    &&& bytes.len() == FALCON_512_PUBKEY_LEN
    &&& bytes[0] == PUBKEY_HEADER
    &&& is_pubkey_body(bytes.skip(1))
}

/// A public key is well formed if and only if it has 897 bytes, starts with
/// `0x09`, and no coefficient reaches 12289.
pub proof fn law_pubkey(bytes: Seq<u8>)
    ensures
        is_pubkey(bytes) <==> bytes.len() == 897 && bytes[0] == 0x09 && forall|i: int|
            0 <= i < 512 ==> #[trigger] pubkey_coeffs(bytes.skip(1))[i] < 12289,
{
}

/// Falcon-512 public key in wire form: header byte `0x09` and the 14-bit packed
/// polynomial `h`.
pub struct Falcon512Pubkey([u8; FALCON_512_PUBKEY_LEN]);

impl Clone for Falcon512Pubkey {
    fn clone(&self) -> (r: Self)
        ensures
            r == *self,
    {
        Self(self.0)
    }
}

impl View for Falcon512Pubkey {
    type V = Seq<u8>;

    closed spec fn view(&self) -> Seq<u8> {
        self.0@
    }
}

impl PartialEq for Falcon512Pubkey {
    fn eq(&self, other: &Self) -> (r: bool)
        ensures
            r == (self@ == other@),
    {
        same_bytes(&self.0, &other.0)
    }
}

impl PartialEqSpecImpl for Falcon512Pubkey {
    open spec fn obeys_eq_spec() -> bool {
        true
    }

    open spec fn eq_spec(&self, other: &Self) -> bool {
        self@ == other@
    }
}

impl Eq for Falcon512Pubkey {

}

impl Falcon512Pubkey {
    /// Copies a buffer into a public key, without looking at it.
    pub fn from_ref(bytes: &[u8; FALCON_512_PUBKEY_LEN]) -> (r: Self)
        ensures
            r@ == bytes@,
    {
        Self(*bytes)
    }

    /// A public key from a slice of exactly 897 bytes.
    pub fn try_from_slice(bytes: &[u8]) -> (r: Result<Self, ProgramError>)
        ensures
            r is Ok <==> bytes@.len() == FALCON_512_PUBKEY_LEN,
            r matches Ok(k) ==> k@ == bytes@,
            r matches Err(e) ==> e == ProgramError::InvalidArgument,
    {
        if bytes.len() != FALCON_512_PUBKEY_LEN {
            return Err(ProgramError::InvalidArgument);
        }
        Ok(Self(to_array(bytes)))
    }

    /// Wraps a buffer as a public key, without looking at it.
    pub fn from_bytes(value: [u8; FALCON_512_PUBKEY_LEN]) -> (r: Self)
        ensures
            r@ == value@,
    {
        Self(value)
    }

    /// The wire form.
    pub fn as_bytes(&self) -> (r: &[u8; FALCON_512_PUBKEY_LEN])
        ensures
            r@ == self@,
    {
        &self.0
    }

    /// Unpacks and transforms a well-formed public key, so that verification
    /// against it can skip both.
    pub fn prepare_pubkey(&self) -> (r: Falcon512PreparedPubkey)
        requires
            is_pubkey(self@),
        ensures
            u16_ints(r@) == prepared_coeffs(pubkey_coeffs(self@.skip(1))),
    {
        let body: &[u8] = self.body();
        let mut h: [u32; 512] = [0; 512];
        let ok: bool = decode_pubkey_u32(body, &mut h);
        assert(ok);
        Falcon512PreparedPubkey::from_coeffs(prepare_coeffs(&mut h))
    }

    /// Like `prepare_pubkey`, but refuses a malformed public key.
    pub fn try_prepare_pubkey(&self) -> (r: Result<Falcon512PreparedPubkey, ProgramError>)
        ensures
            r is Ok <==> is_pubkey(self@),
            r matches Ok(p) ==> u16_ints(p@) == prepared_coeffs(pubkey_coeffs(self@.skip(1))),
            r matches Err(e) ==> e == ProgramError::InvalidArgument,
    {
        if self.0[0] != PUBKEY_HEADER {
            return Err(ProgramError::InvalidArgument);
        }
        let body: &[u8] = self.body();
        let mut h: [u32; 512] = [0; 512];
        if !decode_pubkey_u32(body, &mut h) {
            return Err(ProgramError::InvalidArgument);
        }
        Ok(Falcon512PreparedPubkey::from_coeffs(prepare_coeffs(&mut h)))
    }

    /// The packed coefficients, without the header.
    pub fn body(&self) -> (r: &[u8])
        ensures
            r@ == self@.skip(1),
            r@.len() == FALCON_512_PUBKEY_LEN - 1,
    {
        let r = vstd::slice::slice_subrange(
            vstd::array::array_as_slice(&self.0),
            1,
            FALCON_512_PUBKEY_LEN,
        );
        assert(r@ =~= self@.skip(1));
        r
    }

    /// A public key has 897 bytes.
    pub proof fn lemma_len(&self)
        ensures
            self@.len() == FALCON_512_PUBKEY_LEN,
    {
    }
}

/// The public key with a given wire form.
pub open spec fn pubkey_of(bytes: Seq<u8>) -> Falcon512Pubkey {
    choose|k: Falcon512Pubkey| k@ == bytes
}

/// A public key is its wire form.
proof fn lemma_pubkey_of(k: Falcon512Pubkey)
    ensures
        pubkey_of(k@) == k,
{
    let c = pubkey_of(k@);
    assert(c@ == k@);
    assert(c.0@ =~= k.0@);
    assert(c.0 =~= k.0);
}

impl From<[u8; FALCON_512_PUBKEY_LEN]> for Falcon512Pubkey {
    fn from(value: [u8; FALCON_512_PUBKEY_LEN]) -> (r: Self)
        ensures
            r@ == value@,
    {
        let r = Self(value);
        proof {
            lemma_pubkey_of(r);
        }
        r
    }
}

impl FromSpecImpl<[u8; FALCON_512_PUBKEY_LEN]> for Falcon512Pubkey {
    open spec fn obeys_from_spec() -> bool {
        true
    }

    open spec fn from_spec(value: [u8; FALCON_512_PUBKEY_LEN]) -> Self {
        pubkey_of(value@)
    }
}

impl TryFrom<&[u8]> for Falcon512Pubkey {
    type Error = ProgramError;

    fn try_from(value: &[u8]) -> (r: Result<Self, ProgramError>)
        ensures
            r is Ok <==> value@.len() == 897,
            r matches Ok(k) ==> k@ == value@,
            r matches Err(e) ==> e == ProgramError::InvalidArgument,
    {
        let r = Self::try_from_slice(value);
        proof {
            if r is Ok {
                lemma_pubkey_of(r->Ok_0);
            }
        }
        r
    }
}

impl TryFromSpecImpl<&[u8]> for Falcon512Pubkey {
    open spec fn obeys_try_from_spec() -> bool {
        true
    }

    open spec fn try_from_spec(value: &[u8]) -> Result<Self, ProgramError> {
        if value@.len() == FALCON_512_PUBKEY_LEN {
            Ok(pubkey_of(value@))
        } else {
            Err(ProgramError::InvalidArgument)
        }
    }
}

} // verus!
