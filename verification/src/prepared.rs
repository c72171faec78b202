//! Prepared public keys: transformed, scaled, ready for verification.
use vstd::prelude::*;
use vstd::std_specs::cmp::PartialEqSpecImpl;
use vstd::std_specs::convert::TryFromSpecImpl;

use crate::bits::{lemma_value_bound, to_bits};
use crate::bytes::{lies_at, locate, to_array};
use crate::codec::{law_packing_injective, pubkey_coeffs, u16_ints};
use crate::error::ProgramError;
use crate::norm::{law_preparation_injective, prepared_coeffs};
use crate::poly::is_reduced;
use crate::pubkey::{is_pubkey, Falcon512Pubkey};
use crate::{FALCON_512_PREPARED_PUBKEY_LEN, N};

verus! {

/// 16-bit numbers as bytes, the low byte first.
pub open spec fn le_bytes(coeffs: Seq<u16>) -> Seq<u8> {
    Seq::new(
        2 * coeffs.len(),
        |i: int|
            if i % 2 == 0 {
                (coeffs[i / 2] % 256) as u8
            } else {
                (coeffs[i / 2] / 256) as u8
            },
    )
}

/// Bytes as 16-bit numbers, the low byte first.
pub open spec fn le_coeffs(bytes: Seq<u8>) -> Seq<u16> {
    Seq::new(bytes.len() / 2, |i: int| (bytes[2 * i] + 256 * bytes[2 * i + 1]) as u16)
}

/// Number `i` takes up bytes `2i` and `2i + 1`: the remainder by 256, then the
/// quotient.
pub proof fn law_le_bytes_at(coeffs: Seq<u16>, i: int)
    requires
        0 <= i < coeffs.len(),
    ensures
        le_bytes(coeffs).len() == 2 * coeffs.len(),
        le_bytes(coeffs)[2 * i] == coeffs[i] as int % 256,
        le_bytes(coeffs)[2 * i + 1] == coeffs[i] as int / 256,
{
    assert((2 * i) / 2 == i && (2 * i) % 2 == 0);
    assert((2 * i + 1) / 2 == i && (2 * i + 1) % 2 == 1);
}

/// Bytes `2i` and `2i + 1` make up number `i`, the low byte first.
pub proof fn law_le_coeffs_at(bytes: Seq<u8>, i: int)
    requires
        0 <= i,
        2 * i + 1 < bytes.len(),
    ensures
        le_coeffs(bytes).len() == bytes.len() / 2,
        le_coeffs(bytes)[i] == bytes[2 * i] + 256 * bytes[2 * i + 1],
{
}

/// Numbers survive a round trip through bytes.
pub proof fn law_le_roundtrip_coeffs(coeffs: Seq<u16>)
    ensures
        le_coeffs(le_bytes(coeffs)) == coeffs,
{
    assert(le_coeffs(le_bytes(coeffs)) =~= coeffs) by {
        assert forall|i: int| 0 <= i < coeffs.len() implies le_coeffs(le_bytes(coeffs))[i]
            == coeffs[i] by {
            assert((2 * i) / 2 == i && (2 * i) % 2 == 0);
            assert((2 * i + 1) / 2 == i && (2 * i + 1) % 2 == 1);
        }
    }
}

/// An even number of bytes survives a round trip through numbers.
pub proof fn law_le_roundtrip_bytes(bytes: Seq<u8>)
    requires
        bytes.len() % 2 == 0,
    ensures
        le_bytes(le_coeffs(bytes)) == bytes,
{
    assert(le_bytes(le_coeffs(bytes)) =~= bytes);
}

/// Two well-formed public keys with the same prepared form are the same.
pub proof fn law_prepared_key_injective(a: Seq<u8>, b: Seq<u8>)
    requires
        is_pubkey(a),
        is_pubkey(b),
        prepared_coeffs(pubkey_coeffs(a.skip(1))) == prepared_coeffs(pubkey_coeffs(b.skip(1))),
    ensures
        a == b,
{
    lemma_pubkey_reduced(a);
    lemma_pubkey_reduced(b);
    law_preparation_injective(pubkey_coeffs(a.skip(1)), pubkey_coeffs(b.skip(1)));
    law_packing_injective(a.skip(1), b.skip(1));
    assert(a =~= seq![a[0]] + a.skip(1));
    assert(b =~= seq![b[0]] + b.skip(1));
}

proof fn lemma_pubkey_reduced(bytes: Seq<u8>)
    requires
        is_pubkey(bytes),
    ensures
        is_reduced(pubkey_coeffs(bytes.skip(1))),
{
    let body = bytes.skip(1);
    assert forall|i: int| 0 <= i < 512 implies 0 <= #[trigger] pubkey_coeffs(body)[i]
        < 12289 by {
        lemma_value_bound(to_bits(body).subrange(14 * i, 14 * i + 14));
    }
}

/// Public key polynomial in transformed form, times `1 / 512`.
pub struct Falcon512PreparedPubkey([u16; 512]);

impl Clone for Falcon512PreparedPubkey {
    fn clone(&self) -> (r: Self)
        ensures
            r == *self,
    {
        Self(self.0)
    }
}

impl View for Falcon512PreparedPubkey {
    type V = Seq<u16>;

    closed spec fn view(&self) -> Seq<u16> {
        self.0@
    }
}

impl PartialEq for Falcon512PreparedPubkey {
    fn eq(&self, other: &Self) -> (r: bool)
        ensures
            r == (self@ == other@),
    {
        let mut i: usize = 0;
        while i < N
            invariant
                i <= 512,
                forall|j: int| 0 <= j < i ==> #[trigger] self.0@[j] == other.0@[j],
            decreases 512 - i,
        {
            if self.0[i] != other.0[i] {
                assert(self@[i as int] != other@[i as int]);
                return false;
            }
            i += 1;
        }
        assert(self@ =~= other@);
        true
    }
}

impl PartialEqSpecImpl for Falcon512PreparedPubkey {
    open spec fn obeys_eq_spec() -> bool {
        true
    }

    open spec fn eq_spec(&self, other: &Self) -> bool {
        self@ == other@
    }
}

impl Eq for Falcon512PreparedPubkey {

}

impl Falcon512PreparedPubkey {
    /// A prepared public key has 512 coefficients.
    pub proof fn lemma_len(&self)
        ensures
            self@.len() == 512,
    {
    }

    /// Wraps prepared coefficients.
    pub fn from_coeffs(coeffs: [u16; 512]) -> (r: Self)
        ensures
            r@ == coeffs@,
    {
        Self(coeffs)
    }

    /// The prepared coefficients.
    pub fn coeffs(&self) -> (r: &[u16; 512])
        ensures
            r@ == self@,
    {
        &self.0
    }

    /// Reads a serialised prepared public key.
    pub fn from_ref(bytes: &[u8; FALCON_512_PREPARED_PUBKEY_LEN]) -> (r: Self)
        ensures
            r@ == le_coeffs(bytes@),
            forall|i: int|
                0 <= i < 512 ==> #[trigger] r@[i] == bytes@[2 * i] + 256 * bytes@[2 * i + 1],
    {
        let mut h: [u16; 512] = [0; 512];
        let mut i: usize = 0;
        while i < N
            invariant
                i <= 512,
                forall|j: int| 0 <= j < i ==> #[trigger] h@[j] == le_coeffs(bytes@)[j],
            decreases 512 - i,
        {
            h[i] = bytes[2 * i] as u16 + 256 * bytes[2 * i + 1] as u16;
            i += 1;
        }
        assert(h@ =~= le_coeffs(bytes@));
        Self(h)
    }

    /// Reads a serialised prepared public key. The coefficients are not
    /// checked.
    pub fn from_bytes(bytes: [u8; FALCON_512_PREPARED_PUBKEY_LEN]) -> (r: Self)
        ensures
            r@ == le_coeffs(bytes@),
            forall|i: int|
                0 <= i < 512 ==> #[trigger] r@[i] == bytes@[2 * i] + 256 * bytes@[2 * i + 1],
    {
        Self::from_ref(&bytes)
    }

    /// Reads a serialised prepared public key in place: the slice must have the
    /// right length, and lie at a multiple of two bytes.
    pub fn try_from_slice(bytes: &[u8]) -> (r: Result<Self, ProgramError>)
        ensures
            r is Ok ==> bytes@.len() == FALCON_512_PREPARED_PUBKEY_LEN,
            exists|address: usize| #[trigger]
                lies_at(bytes, address) && (r is Ok <==> bytes@.len() == 1024 && address % 2 == 0),
            r matches Ok(p) ==> p@ == le_coeffs(bytes@),
            r matches Ok(p) ==> forall|i: int|
                0 <= i < 512 ==> #[trigger] p@[i] == bytes@[2 * i] + 256 * bytes@[2 * i + 1],
            r matches Err(e) ==> e == ProgramError::InvalidArgument,
    {
        Self::try_from_slice_at(bytes, locate(bytes))
    }

    /// `try_from_slice` for a slice that lies at `address`.
    pub fn try_from_slice_at(bytes: &[u8], address: usize) -> (r: Result<Self, ProgramError>)
        ensures
            r is Ok <==> bytes@.len() == FALCON_512_PREPARED_PUBKEY_LEN && address % 2 == 0,
            r matches Ok(p) ==> p@ == le_coeffs(bytes@),
            r matches Ok(p) ==> forall|i: int|
                0 <= i < 512 ==> #[trigger] p@[i] == bytes@[2 * i] + 256 * bytes@[2 * i + 1],
            r matches Err(e) ==> e == ProgramError::InvalidArgument,
    {
        if bytes.len() != FALCON_512_PREPARED_PUBKEY_LEN || address % 2 != 0 {
            return Err(ProgramError::InvalidArgument);
        }
        Ok(Self::from_bytes(to_array(bytes)))
    }

    /// The serialised form: little-endian 16-bit coefficients.
    pub fn as_bytes(&self) -> (r: [u8; FALCON_512_PREPARED_PUBKEY_LEN])
        ensures
            r@ == le_bytes(self@),
            forall|i: int|
                0 <= i < 512 ==> r@[2 * i] == #[trigger] self@[i] as int % 256 && r@[2 * i + 1]
                    == self@[i] as int / 256,
    {
        let mut out: [u8; FALCON_512_PREPARED_PUBKEY_LEN] = [0; FALCON_512_PREPARED_PUBKEY_LEN];
        let mut i: usize = 0;
        while i < N
            invariant
                i <= 512,
                forall|j: int| 0 <= j < 2 * i ==> #[trigger] out@[j] == le_bytes(self@)[j],
            decreases 512 - i,
        {
            out[2 * i] = (self.0[i] % 256) as u8;
            out[2 * i + 1] = (self.0[i] / 256) as u8;
            i += 1;
        }
        assert(out@ =~= le_bytes(self@));
        proof {
            assert forall|i: int| 0 <= i < 512 implies out@[2 * i] == #[trigger] self@[i] as int
                % 256 && out@[2 * i + 1] == self@[i] as int / 256 by {
                law_le_bytes_at(self@, i);
            }
        }
        out
    }
}

/// The prepared public key with given coefficients.
pub open spec fn prepared_of(coeffs: Seq<u16>) -> Falcon512PreparedPubkey {
    choose|p: Falcon512PreparedPubkey| p@ == coeffs
}

/// A prepared public key is its coefficients.
proof fn lemma_prepared_of(p: Falcon512PreparedPubkey)
    ensures
        prepared_of(p@) == p,
{
    let c = prepared_of(p@);
    assert(c@ == p@);
    assert(c.0@ =~= p.0@);
    assert(c.0 =~= p.0);
}

/// Numbers below `2^16` as 16-bit coefficients.
pub open spec fn to_u16s(s: Seq<int>) -> Seq<u16> {
    Seq::new(s.len(), |i: int| s[i] as u16)
}

/// What preparing a public key in wire form gives.
pub open spec fn prepare_result(
    bytes: Seq<u8>,
) -> Result<Falcon512PreparedPubkey, ProgramError> {
    if is_pubkey(bytes) {
        Ok(prepared_of(to_u16s(prepared_coeffs(pubkey_coeffs(bytes.skip(1))))))
    } else {
        Err(ProgramError::InvalidArgument)
    }
}

proof fn lemma_prepare_result(bytes: Seq<u8>, p: Falcon512PreparedPubkey)
    requires
        u16_ints(p@) == prepared_coeffs(pubkey_coeffs(bytes.skip(1))),
    ensures
        prepared_of(to_u16s(prepared_coeffs(pubkey_coeffs(bytes.skip(1))))) == p,
{
    assert(to_u16s(u16_ints(p@)) =~= p@);
    lemma_prepared_of(p);
}

impl TryFrom<Falcon512Pubkey> for Falcon512PreparedPubkey {
    type Error = ProgramError;

    fn try_from(value: Falcon512Pubkey) -> (r: Result<Self, ProgramError>)
        ensures
            r is Ok <==> is_pubkey(value@),
            r matches Ok(p) ==> u16_ints(p@) == prepared_coeffs(pubkey_coeffs(value@.skip(1))),
            r matches Err(e) ==> e == ProgramError::InvalidArgument,
    {
        let r = value.try_prepare_pubkey();
        proof {
            if r is Ok {
                lemma_prepare_result(value@, r->Ok_0);
            }
        }
        r
    }
}

impl TryFromSpecImpl<Falcon512Pubkey> for Falcon512PreparedPubkey {
    open spec fn obeys_try_from_spec() -> bool {
        true
    }

    open spec fn try_from_spec(value: Falcon512Pubkey) -> Result<Self, ProgramError> {
        prepare_result(value@)
    }
}

impl TryFrom<&Falcon512Pubkey> for Falcon512PreparedPubkey {
    type Error = ProgramError;

    fn try_from(value: &Falcon512Pubkey) -> (r: Result<Self, ProgramError>)
        ensures
            r is Ok <==> is_pubkey(value@),
            r matches Ok(p) ==> u16_ints(p@) == prepared_coeffs(pubkey_coeffs(value@.skip(1))),
            r matches Err(e) ==> e == ProgramError::InvalidArgument,
    {
        let r = value.try_prepare_pubkey();
        proof {
            if r is Ok {
                lemma_prepare_result(value@, r->Ok_0);
            }
        }
        r
    }
}

impl TryFromSpecImpl<&Falcon512Pubkey> for Falcon512PreparedPubkey {
    open spec fn obeys_try_from_spec() -> bool {
        true
    }

    open spec fn try_from_spec(value: &Falcon512Pubkey) -> Result<Self, ProgramError> {
        prepare_result(value@)
    }
}

impl TryFrom<&[u8]> for Falcon512PreparedPubkey {
    type Error = ProgramError;

    fn try_from(value: &[u8]) -> (r: Result<Self, ProgramError>)
        ensures
            r is Ok <==> value@.len() == 1024,
            r matches Ok(p) ==> p@ == le_coeffs(value@),
            r matches Ok(p) ==> forall|i: int|
                0 <= i < 512 ==> #[trigger] p@[i] == value@[2 * i] + 256 * value@[2 * i + 1],
            r matches Err(e) ==> e == ProgramError::InvalidArgument,
    {
        if value.len() != FALCON_512_PREPARED_PUBKEY_LEN {
            return Err(ProgramError::InvalidArgument);
        }
        let p = Self::from_bytes(to_array(value));
        proof {
            lemma_prepared_of(p);
        }
        Ok(p)
    }
}

impl TryFromSpecImpl<&[u8]> for Falcon512PreparedPubkey {
    open spec fn obeys_try_from_spec() -> bool {
        true
    }

    open spec fn try_from_spec(value: &[u8]) -> Result<Self, ProgramError> {
        if value@.len() == FALCON_512_PREPARED_PUBKEY_LEN {
            Ok(prepared_of(le_coeffs(value@)))
        } else {
            Err(ProgramError::InvalidArgument)
        }
    }
}

} // verus!
