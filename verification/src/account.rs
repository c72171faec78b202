//! Account layout of a stored prepared public key.
use vstd::prelude::*;
use vstd::std_specs::cmp::PartialEqSpecImpl;

use crate::bytes::{lies_at, locate, same_bytes, to_array};
use crate::error::ProgramError;
use crate::prepared::{
    law_le_bytes_at, law_le_coeffs_at, law_le_roundtrip_bytes, law_le_roundtrip_coeffs, le_bytes,
    le_coeffs, Falcon512PreparedPubkey,
};
use crate::{
    FALCON_512_PREPARED_PUBKEY_ACCOUNT_DISCRIMINATOR, FALCON_512_PREPARED_PUBKEY_ACCOUNT_LEN,
    FALCON_512_PREPARED_PUBKEY_ACCOUNT_VERSION,
};

verus! {

/// Alignment that an account needs to be read in place.
pub const ACCOUNT_ALIGNMENT: usize = 4;

/// What an account holds.
#[verifier::ext_equal]
pub struct AccountFields {
    pub discriminator: Seq<u8>,
    pub version: u32,
    pub prepared: Seq<u16>,
}

/// A 32-bit number from four bytes, the low byte first.
pub open spec fn le_u32(b: Seq<u8>) -> u32 {
    (b[0] + 256 * b[1] + 65536 * b[2] + 16777216 * b[3]) as u32
}

/// A 32-bit number as four bytes, the low byte first.
pub open spec fn u32_le(x: u32) -> Seq<u8> {
    seq![
        (x % 256) as u8,
        (x / 256 % 256) as u8,
        (x / 65536 % 256) as u8,
        (x / 16777216) as u8,
    ]
}

/// The account layout: discriminator, version, prepared public key.
pub open spec fn account_bytes(f: AccountFields) -> Seq<u8> {
    f.discriminator + u32_le(f.version) + le_bytes(f.prepared)
}

/// The account that a byte string lays out.
pub open spec fn account_fields(bytes: Seq<u8>) -> AccountFields {
    AccountFields {
        discriminator: bytes.take(8),
        version: le_u32(bytes.subrange(8, 12)),
        prepared: le_coeffs(bytes.skip(12)),
    }
}

/// The discriminator and the version are the expected ones.
pub open spec fn is_canonical(f: AccountFields) -> bool {
    &&& f.discriminator == FALCON_512_PREPARED_PUBKEY_ACCOUNT_DISCRIMINATOR@
    &&& f.version == FALCON_512_PREPARED_PUBKEY_ACCOUNT_VERSION
}

proof fn lemma_u32_roundtrip(x: u32)
    ensures
        le_u32(u32_le(x)) == x,
{
    assert(x % 256 + 256 * (x / 256 % 256) + 65536 * (x / 65536 % 256) + 16777216 * (x / 16777216)
        == x) by (bit_vector);
    assert(x / 16777216 < 256) by (bit_vector);
}

proof fn lemma_u32_bytes_roundtrip(b: Seq<u8>)
    requires
        b.len() == 4,
    ensures
        u32_le(le_u32(b)) == b,
{
    let (b0, b1, b2, b3) = (b[0], b[1], b[2], b[3]);
    let x = le_u32(b);
    assert(x == b0 + 256 * b1 + 65536 * b2 + 16777216 * b3);
    assert(x / 256 == b1 + 256 * b2 + 65536 * b3);
    assert(x / 65536 == b2 + 256 * b3);
    assert(x / 16777216 == b3);
    assert(u32_le(x) =~= b);
}

/// Byte by byte, an account is laid out as the eight bytes of its discriminator,
/// the four bytes of its version with the low byte first, and then two bytes for
/// each prepared coefficient, again with the low byte first.
#[verifier::spinoff_prover]
pub proof fn law_account_bytes_at(f: AccountFields, i: int)
    requires
        f.discriminator.len() == 8,
        f.prepared.len() == 512,
        0 <= i < 512,
    ensures
        account_bytes(f).len() == 1036,
        forall|j: int| 0 <= j < 8 ==> #[trigger] account_bytes(f)[j] == f.discriminator[j],
        f.version == account_bytes(f)[8] + account_bytes(f)[9] * 0x100 + account_bytes(f)[10]
            * 0x1_0000 + account_bytes(f)[11] * 0x100_0000,
        account_bytes(f)[12 + 2 * i] == f.prepared[i] as int % 256,
        account_bytes(f)[13 + 2 * i] == f.prepared[i] as int / 256,
{
    law_le_bytes_at(f.prepared, i);
    lemma_u32_roundtrip(f.version);
    let v = u32_le(f.version);
    assert(account_bytes(f)[8] == v[0] && account_bytes(f)[9] == v[1]);
    assert(account_bytes(f)[10] == v[2] && account_bytes(f)[11] == v[3]);
    assert(account_bytes(f)[12 + 2 * i] == le_bytes(f.prepared)[2 * i]);
    assert(account_bytes(f)[13 + 2 * i] == le_bytes(f.prepared)[2 * i + 1]);
}

/// Byte by byte, what 1036 bytes hold as an account, and when its header is the
/// expected one: the letters `FALCPPK1` and the number one.
pub proof fn law_account_fields_at(bytes: Seq<u8>, i: int)
    requires
        bytes.len() == 1036,
        0 <= i < 512,
    ensures
        account_fields(bytes).discriminator.len() == 8,
        forall|j: int| 0 <= j < 8 ==> #[trigger] account_fields(bytes).discriminator[j] == bytes[j],
        account_fields(bytes).version == bytes[8] + bytes[9] * 0x100 + bytes[10] * 0x1_0000
            + bytes[11] * 0x100_0000,
        account_fields(bytes).prepared.len() == 512,
        account_fields(bytes).prepared[i] == bytes[12 + 2 * i] + 256 * bytes[13 + 2 * i],
        is_canonical(account_fields(bytes)) <==> {
            &&& bytes[0] == 0x46
            &&& bytes[1] == 0x41
            &&& bytes[2] == 0x4c
            &&& bytes[3] == 0x43
            &&& bytes[4] == 0x50
            &&& bytes[5] == 0x50
            &&& bytes[6] == 0x4b
            &&& bytes[7] == 0x31
            &&& bytes[8] == 1
            &&& bytes[9] == 0
            &&& bytes[10] == 0
            &&& bytes[11] == 0
        },
{
    law_le_coeffs_at(bytes.skip(12), i);
    let d = FALCON_512_PREPARED_PUBKEY_ACCOUNT_DISCRIMINATOR@;
    assert(d =~= seq![0x46u8, 0x41, 0x4c, 0x43, 0x50, 0x50, 0x4b, 0x31]);
    let v = bytes.subrange(8, 12);
    assert(v[0] == bytes[8] && v[1] == bytes[9] && v[2] == bytes[10] && v[3] == bytes[11]);
    if is_canonical(account_fields(bytes)) {
        assert forall|j: int| 0 <= j < 8 implies #[trigger] bytes[j] == d[j] by {
            assert(bytes.take(8)[j] == bytes[j]);
        }
    } else if bytes[0] == 0x46 && bytes[1] == 0x41 && bytes[2] == 0x4c && bytes[3] == 0x43
        && bytes[4] == 0x50 && bytes[5] == 0x50 && bytes[6] == 0x4b && bytes[7] == 0x31 {
        assert(bytes.take(8) =~= d);
    }
}

/// Every account survives a round trip through its layout.
pub proof fn law_account_roundtrip(f: AccountFields)
    requires
        f.discriminator.len() == 8,
        f.prepared.len() == 512,
    ensures
        account_bytes(f).len() == FALCON_512_PREPARED_PUBKEY_ACCOUNT_LEN,
        account_fields(account_bytes(f)) == f,
{
    let b = account_bytes(f);
    lemma_u32_roundtrip(f.version);
    law_le_roundtrip_coeffs(f.prepared);
    assert(b.take(8) =~= f.discriminator);
    assert(b.subrange(8, 12) =~= u32_le(f.version));
    assert(b.skip(12) =~= le_bytes(f.prepared));
}

/// Every byte string of the right length is the layout of what it holds.
pub proof fn law_account_bytes_roundtrip(bytes: Seq<u8>)
    requires
        bytes.len() == FALCON_512_PREPARED_PUBKEY_ACCOUNT_LEN,
    ensures
        account_bytes(account_fields(bytes)) == bytes,
{
    lemma_u32_bytes_roundtrip(bytes.subrange(8, 12));
    law_le_roundtrip_bytes(bytes.skip(12));
    assert(account_bytes(account_fields(bytes)) =~= bytes);
}

/// Every byte of the discriminator and of the version matters: two canonical
/// accounts agree on all twelve of them.
pub proof fn law_account_header_fixed(a: Seq<u8>, b: Seq<u8>)
    requires
        a.len() == FALCON_512_PREPARED_PUBKEY_ACCOUNT_LEN,
        b.len() == FALCON_512_PREPARED_PUBKEY_ACCOUNT_LEN,
        is_canonical(account_fields(a)),
        is_canonical(account_fields(b)),
    ensures
        a.take(12) == b.take(12),
{
    lemma_u32_bytes_roundtrip(a.subrange(8, 12));
    lemma_u32_bytes_roundtrip(b.subrange(8, 12));
    assert(a.take(12) =~= a.take(8) + a.subrange(8, 12));
    assert(b.take(12) =~= b.take(8) + b.subrange(8, 12));
}

/// Stored form of a prepared public key: an 8-byte discriminator, a 4-byte
/// version, and the serialised key.
pub struct Falcon512PreparedPubkeyAccount {
    discriminator: [u8; 8],
    version: u32,
    prepared: Falcon512PreparedPubkey,
}

impl Clone for Falcon512PreparedPubkeyAccount {
    fn clone(&self) -> (r: Self)
        ensures
            r == *self,
    {
        Self {
            discriminator: self.discriminator,
            version: self.version,
            prepared: self.prepared.clone(),
        }
    }
}

impl View for Falcon512PreparedPubkeyAccount {
    type V = AccountFields;

    closed spec fn view(&self) -> AccountFields {
        AccountFields {
            discriminator: self.discriminator@,
            version: self.version,
            prepared: self.prepared@,
        }
    }
}

impl PartialEq for Falcon512PreparedPubkeyAccount {
    fn eq(&self, other: &Self) -> (r: bool)
        ensures
            r == (self@ == other@),
    {
        same_bytes(&self.discriminator, &other.discriminator) && self.version == other.version
            && self.prepared == other.prepared
    }
}

impl PartialEqSpecImpl for Falcon512PreparedPubkeyAccount {
    open spec fn obeys_eq_spec() -> bool {
        true
    }

    open spec fn eq_spec(&self, other: &Self) -> bool {
        self@ == other@
    }
}

impl Eq for Falcon512PreparedPubkeyAccount {

}

impl Falcon512PreparedPubkeyAccount {
    /// Reading the layout of an account gives the account back.
    pub proof fn law_roundtrip(&self)
        ensures
            account_fields(account_bytes(self@)) == self@,
    {
        self.prepared.lemma_len();
        law_account_roundtrip(self@);
    }

    /// The canonical account of a prepared public key.
    pub fn new(prepared: Falcon512PreparedPubkey) -> (r: Self)
        ensures
            is_canonical(r@),
            r@.prepared == prepared@,
    {
        Self {
            discriminator: FALCON_512_PREPARED_PUBKEY_ACCOUNT_DISCRIMINATOR,
            version: FALCON_512_PREPARED_PUBKEY_ACCOUNT_VERSION,
            prepared,
        }
    }

    /// Reads an account, whatever its discriminator and version.
    pub fn from_ref(bytes: &[u8; FALCON_512_PREPARED_PUBKEY_ACCOUNT_LEN]) -> (r: Self)
        ensures
            r@ == account_fields(bytes@),
    {
        let all: &[u8] = vstd::array::array_as_slice(bytes);
        let discriminator: [u8; 8] = to_array(vstd::slice::slice_subrange(all, 0, 8));
        assert(bytes@[8] + 256 * bytes@[9] + 65536 * bytes@[10] + 16777216 * bytes@[11]
            <= 0xffff_ffff);
        let version: u32 = bytes[8] as u32 + 256 * bytes[9] as u32 + 65536 * bytes[10] as u32
            + 16777216 * bytes[11] as u32;
        let body: &[u8] = vstd::slice::slice_subrange(
            all,
            12,
            FALCON_512_PREPARED_PUBKEY_ACCOUNT_LEN,
        );
        let prepared = Falcon512PreparedPubkey::from_bytes(to_array(body));
        let r = Self { discriminator, version, prepared };
        proof {
            assert(discriminator@ =~= bytes@.take(8));
            assert(body@ =~= bytes@.skip(12));
        }
        r
    }

    /// Reads an account in place: the slice must have the right length, lie at
    /// a multiple of four bytes, and hold a canonical account.
    pub fn try_from_slice(value: &[u8]) -> (r: Result<Self, ProgramError>)
        ensures
            r is Ok ==> value@.len() == FALCON_512_PREPARED_PUBKEY_ACCOUNT_LEN && is_canonical(
                account_fields(value@),
            ),
            exists|address: usize| #[trigger]
                lies_at(value, address) && (r is Ok <==> value@.len() == 1036 && address % 4 == 0
                    && is_canonical(account_fields(value@))),
            r matches Ok(a) ==> a@ == account_fields(value@),
            r matches Err(e) ==> e == ProgramError::InvalidArgument,
    {
        Self::try_from_slice_at(value, locate(value))
    }

    /// `try_from_slice` for a slice that lies at `address`.
    pub fn try_from_slice_at(value: &[u8], address: usize) -> (r: Result<Self, ProgramError>)
        ensures
            r is Ok <==> value@.len() == FALCON_512_PREPARED_PUBKEY_ACCOUNT_LEN && address % 4 == 0
                && is_canonical(account_fields(value@)),
            r matches Ok(a) ==> a@ == account_fields(value@),
            r matches Err(e) ==> e == ProgramError::InvalidArgument,
    {
        if value.len() != FALCON_512_PREPARED_PUBKEY_ACCOUNT_LEN {
            return Err(ProgramError::InvalidArgument);
        }
        if address % ACCOUNT_ALIGNMENT != 0 {
            return Err(ProgramError::InvalidArgument);
        }
        Self::from_bytes(to_array(value))
    }

    /// Reads a canonical account.
    pub fn from_bytes(bytes: [u8; FALCON_512_PREPARED_PUBKEY_ACCOUNT_LEN]) -> (r: Result<
        Self,
        ProgramError,
    >)
        ensures
            r is Ok <==> is_canonical(account_fields(bytes@)),
            r matches Ok(a) ==> a@ == account_fields(bytes@),
            r matches Err(e) ==> e == ProgramError::InvalidArgument,
    {
        let account = Self::from_ref(&bytes);
        if !same_bytes(
            &account.discriminator,
            &FALCON_512_PREPARED_PUBKEY_ACCOUNT_DISCRIMINATOR,
        ) {
            return Err(ProgramError::InvalidArgument);
        }
        if account.version != FALCON_512_PREPARED_PUBKEY_ACCOUNT_VERSION {
            return Err(ProgramError::InvalidArgument);
        }
        Ok(account)
    }

    /// The prepared public key.
    pub fn prepared_pubkey(&self) -> (r: &Falcon512PreparedPubkey)
        ensures
            r@ == self@.prepared,
    {
        &self.prepared
    }

    /// The account layout.
    #[verifier::spinoff_prover]
    pub fn to_bytes(&self) -> (r: [u8; FALCON_512_PREPARED_PUBKEY_ACCOUNT_LEN])
        ensures
            r@ == account_bytes(self@),
    {
        let mut out: [u8; FALCON_512_PREPARED_PUBKEY_ACCOUNT_LEN] =
            [0; FALCON_512_PREPARED_PUBKEY_ACCOUNT_LEN];
        let body = self.prepared.as_bytes();
        let ghost want = account_bytes(self@);
        let mut i: usize = 0;
        while i < 8
            invariant
                i <= 8,
                want == account_bytes(self@),
                forall|j: int| 0 <= j < i ==> #[trigger] out@[j] == want[j],
            decreases 8 - i,
        {
            out[i] = self.discriminator[i];
            i += 1;
        }
        out[8] = (self.version % 256) as u8;
        out[9] = (self.version / 256 % 256) as u8;
        out[10] = (self.version / 65536 % 256) as u8;
        out[11] = (self.version / 16777216) as u8;
        let mut k: usize = 0;
        while k < 1024
            invariant
                k <= 1024,
                want == account_bytes(self@),
                body@ == le_bytes(self@.prepared),
                forall|j: int| 0 <= j < 12 + k ==> #[trigger] out@[j] == want[j],
            decreases 1024 - k,
        {
            out[12 + k] = body[k];
            k += 1;
        }
        assert(out@ =~= want);
        out
    }
}

} // verus!
