//! Verify instruction payload: a signature, then the message.
use vstd::prelude::*;

use crate::bytes::to_array;
use crate::error::ProgramError;
use crate::signature::Falcon512Signature;
use crate::FALCON_512_SIGNATURE_LEN;

verus! {

/// View of a verify instruction payload, `[signature][message]`.
#[derive(Clone, Copy)]
pub struct Falcon512VerifyInstruction<'a> {
    signature: Falcon512Signature,
    message: &'a [u8],
}

impl<'a> Falcon512VerifyInstruction<'a> {
    /// Bytes of the signature.
    pub closed spec fn signature_bytes(&self) -> Seq<u8> {
        self.signature@
    }

    /// Bytes of the message.
    pub closed spec fn message_bytes(&self) -> Seq<u8> {
        self.message@
    }

    /// The payload: the signature, then the message.
    pub open spec fn payload(&self) -> Seq<u8> {
        self.signature_bytes() + self.message_bytes()
    }

    /// Splitting a payload where `parse` splits it gives back the signature and
    /// the message, and its length only depends on that of the message.
    pub proof fn law_payload_roundtrip(&self)
        ensures
            self.payload().len() == FALCON_512_SIGNATURE_LEN + self.message_bytes().len(),
            self.payload().take(FALCON_512_SIGNATURE_LEN as int) == self.signature_bytes(),
            self.payload().skip(FALCON_512_SIGNATURE_LEN as int) == self.message_bytes(),
    {
        self.signature.lemma_len();
        assert(self.payload().take(FALCON_512_SIGNATURE_LEN as int) =~= self.signature_bytes());
        assert(self.payload().skip(FALCON_512_SIGNATURE_LEN as int) =~= self.message_bytes());
    }

    /// Splits a payload. It must be long enough to hold a signature.
    pub fn parse(bytes: &'a [u8]) -> (r: Result<Self, ProgramError>)
        ensures
            r is Ok <==> bytes@.len() >= FALCON_512_SIGNATURE_LEN,
            r matches Ok(i) ==> {
                &&& i.signature_bytes() == bytes@.take(FALCON_512_SIGNATURE_LEN as int)
                &&& i.message_bytes() == bytes@.skip(FALCON_512_SIGNATURE_LEN as int)
                &&& i.payload() == bytes@
            },
            r matches Err(e) ==> e == ProgramError::InvalidInstructionData,
    {
        let len: usize = bytes.len();
        if len < FALCON_512_SIGNATURE_LEN {
            return Err(ProgramError::InvalidInstructionData);
        }
        let head: &[u8] = vstd::slice::slice_subrange(bytes, 0, FALCON_512_SIGNATURE_LEN);
        let message: &'a [u8] = vstd::slice::slice_subrange(bytes, FALCON_512_SIGNATURE_LEN, len);
        let r = Self { signature: Falcon512Signature::from_bytes(to_array(head)), message };
        proof {
            assert(head@ =~= bytes@.take(FALCON_512_SIGNATURE_LEN as int));
            assert(message@ =~= bytes@.skip(FALCON_512_SIGNATURE_LEN as int));
            assert(r.payload() =~= bytes@);
        }
        Ok(r)
    }

    /// An instruction from its parts.
    pub fn new(signature: &Falcon512Signature, message: &'a [u8]) -> (r: Self)
        ensures
            r.signature_bytes() == signature@,
            r.message_bytes() == message@,
    {
        Self { signature: *signature, message }
    }

    /// The signature.
    pub fn signature(&self) -> (r: &Falcon512Signature)
        ensures
            r@ == self.signature_bytes(),
    {
        &self.signature
    }

    /// The message.
    pub fn message(&self) -> (r: &'a [u8])
        ensures
            r@ == self.message_bytes(),
    {
        self.message
    }

    /// Length of the payload.
    pub fn encoded_len(&self) -> (r: usize)
        requires
            self.payload().len() <= usize::MAX,
        ensures
            r == self.payload().len(),
    {
        proof {
            self.signature.lemma_len();
        }
        FALCON_512_SIGNATURE_LEN + self.message.len()
    }

    /// Writes the payload into a buffer of exactly its length.
    pub fn encode_into(&self, out: &mut [u8]) -> (r: Result<(), ProgramError>)
        ensures
            r is Ok <==> old(out)@.len() == self.payload().len(),
            r is Ok ==> final(out)@ == self.payload(),
            r matches Err(e) ==> e == ProgramError::InvalidInstructionData && final(out)@ == old(
                out,
            )@,
    {
        let len: usize = out.len();
        let ghost want = self.payload();
        proof {
            self.signature.lemma_len();
        }
        if len < FALCON_512_SIGNATURE_LEN || len - FALCON_512_SIGNATURE_LEN != self.message.len() {
            return Err(ProgramError::InvalidInstructionData);
        }
        let sig = self.signature.as_bytes();
        let mut i: usize = 0;
        while i < len
            invariant
                i <= len,
                out@.len() == len,
                len == want.len(),
                want == self.payload(),
                sig@ == self.signature_bytes(),
                forall|j: int| 0 <= j < i ==> #[trigger] out@[j] == want[j],
            decreases len - i,
        {
            out[i] = if i < FALCON_512_SIGNATURE_LEN {
                sig[i]
            } else {
                self.message[i - FALCON_512_SIGNATURE_LEN]
            };
            i += 1;
        }
        assert(out@ =~= want);
        Ok(())
    }
}

} // verus!
