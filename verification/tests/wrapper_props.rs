use pqcrypto_falcon::falcon512;
use pqcrypto_traits::sign::{DetachedSignature, PublicKey};
use solana_falcon512::{
    Falcon512PreparedPubkey, Falcon512PreparedPubkeyAccount, Falcon512Pubkey, Falcon512Signature,
    Falcon512VerifyInstruction, FALCON_512_PREPARED_PUBKEY_ACCOUNT_LEN,
    FALCON_512_PREPARED_PUBKEY_ACCOUNT_VERSION, FALCON_512_PUBKEY_LEN, FALCON_512_SIGNATURE_LEN,
};

fn fresh_prepared_pubkey() -> Falcon512PreparedPubkey {
    let (pk, _) = falcon512::keypair();
    let bytes: [u8; FALCON_512_PUBKEY_LEN] = pk.as_bytes().try_into().unwrap();
    Falcon512Pubkey::from_bytes(bytes).prepare_pubkey()
}

/// Reads account bytes from a multiple of four bytes.
fn read_aligned(bytes: &[u8]) -> Option<Falcon512PreparedPubkeyAccount> {
    let mut buf = vec![0u8; bytes.len() + 4];
    let start = (4 - buf.as_ptr() as usize % 4) % 4;
    buf[start..start + bytes.len()].copy_from_slice(bytes);
    Falcon512PreparedPubkeyAccount::try_from_slice(&buf[start..start + bytes.len()]).ok()
}

fn padded(signature: &[u8]) -> [u8; FALCON_512_SIGNATURE_LEN] {
    let mut out = [0u8; FALCON_512_SIGNATURE_LEN];
    out[..signature.len()].copy_from_slice(signature);
    out
}

// ---------------------------------------------------------------------------
// Stored accounts
// ---------------------------------------------------------------------------

#[test]
fn account_owned_roundtrip() {
    for _ in 0..8 {
        let prepared = fresh_prepared_pubkey();
        let built = Falcon512PreparedPubkeyAccount::new(prepared.clone());
        let serialised = built.to_bytes();
        let parsed = Falcon512PreparedPubkeyAccount::from_bytes(serialised).ok().unwrap();
        assert_eq!(parsed.prepared_pubkey().as_bytes(), prepared.as_bytes());
        assert_eq!(parsed.to_bytes(), serialised);
        assert!(parsed == built);
    }
}

#[test]
fn account_borrowed_roundtrip() {
    for _ in 0..8 {
        let prepared = fresh_prepared_pubkey();
        let owned = Falcon512PreparedPubkeyAccount::new(prepared.clone());
        let read = read_aligned(&owned.to_bytes()).unwrap();
        assert_eq!(read.prepared_pubkey().as_bytes(), prepared.as_bytes());
    }
}

#[test]
fn account_disc_byte_flip_rejects() {
    let prepared = fresh_prepared_pubkey();
    let clean = Falcon512PreparedPubkeyAccount::new(prepared).to_bytes();
    for byte_idx in 0..8 {
        for bit_idx in 0..8 {
            let mut bytes = clean;
            bytes[byte_idx] ^= 1u8 << bit_idx;
            assert!(
                Falcon512PreparedPubkeyAccount::from_bytes(bytes).is_err(),
                "disc bit-flip at byte {} bit {} must reject",
                byte_idx,
                bit_idx
            );
            assert!(
                read_aligned(&bytes).is_none(),
                "borrowed disc bit-flip at byte {} bit {} must reject",
                byte_idx,
                bit_idx
            );
        }
    }
}

#[test]
fn account_wrong_version_rejects() {
    let prepared = fresh_prepared_pubkey();
    let clean = Falcon512PreparedPubkeyAccount::new(prepared).to_bytes();
    for bad_version in [0u32, 2, 255, 256, 257, 0x0100_0000, 0x0100_0001, u32::MAX] {
        assert_ne!(bad_version, FALCON_512_PREPARED_PUBKEY_ACCOUNT_VERSION);
        let mut bytes = clean;
        bytes[8..12].copy_from_slice(&bad_version.to_le_bytes());
        assert!(Falcon512PreparedPubkeyAccount::from_bytes(bytes).is_err());
        assert!(read_aligned(&bytes).is_none());
    }
}

#[test]
fn account_wrong_length_rejects() {
    for len in 0..FALCON_512_PREPARED_PUBKEY_ACCOUNT_LEN * 2 {
        if len != FALCON_512_PREPARED_PUBKEY_ACCOUNT_LEN {
            let buf = vec![0u8; len];
            assert!(Falcon512PreparedPubkeyAccount::try_from_slice(&buf).is_err());
        }
    }
}

#[test]
fn account_misaligned_rejects() {
    let prepared = fresh_prepared_pubkey();
    let bytes = Falcon512PreparedPubkeyAccount::new(prepared).to_bytes();
    for offset in 1..4 {
        let mut shifted = vec![0u8; FALCON_512_PREPARED_PUBKEY_ACCOUNT_LEN + offset];
        shifted[offset..].copy_from_slice(&bytes);
        let slice = &shifted[offset..];
        if slice.as_ptr() as usize % 4 != 0 {
            assert!(Falcon512PreparedPubkeyAccount::try_from_slice(slice).is_err());
        }
    }
}

// ---------------------------------------------------------------------------
// Verify instructions
// ---------------------------------------------------------------------------

#[test]
fn verify_ix_roundtrip() {
    for len in [0usize, 1, 2, 31, 32, 255, 256, 665, 666, 667, 1023] {
        let mut sig_bytes = [0u8; FALCON_512_SIGNATURE_LEN];
        for (i, b) in sig_bytes.iter_mut().enumerate() {
            *b = (i * 31 + len) as u8;
        }
        let message: Vec<u8> = (0..len).map(|i| (i * 17 + 5) as u8).collect();
        let signature = Falcon512Signature::from(sig_bytes);
        let built = Falcon512VerifyInstruction::new(&signature, &message);
        let mut encoded = vec![0u8; built.encoded_len()];
        built.encode_into(&mut encoded).unwrap();

        let parsed = Falcon512VerifyInstruction::parse(&encoded).ok().unwrap();
        assert_eq!(parsed.signature().as_bytes(), &sig_bytes);
        assert_eq!(parsed.message(), message.as_slice());
        assert_eq!(parsed.encoded_len(), built.encoded_len());
        let mut again = vec![0u8; parsed.encoded_len()];
        parsed.encode_into(&mut again).unwrap();
        assert_eq!(again, encoded);
    }
}

#[test]
fn verify_ix_truncated_rejects() {
    for len in 0..FALCON_512_SIGNATURE_LEN {
        let buf = vec![0u8; len];
        assert!(Falcon512VerifyInstruction::parse(&buf).is_err());
    }
}

#[test]
fn verify_ix_encode_into_wrong_size_rejects() {
    for message_len in [0usize, 1, 16, 100, 511] {
        for delta in -16i32..=16 {
            if delta == 0 {
                continue;
            }
            let signature = Falcon512Signature::from([0u8; FALCON_512_SIGNATURE_LEN]);
            let message = vec![0u8; message_len];
            let ix = Falcon512VerifyInstruction::new(&signature, &message);
            let target_len = ix.encoded_len() as i32 + delta;
            let mut out = vec![0u8; target_len as usize];
            assert!(ix.encode_into(&mut out).is_err());
        }
    }
}

#[test]
fn verify_ix_encoded_len_stable() {
    for message_len in [0usize, 1, 7, 1000, 2047] {
        let signature = Falcon512Signature::from([0xA5u8; FALCON_512_SIGNATURE_LEN]);
        let message = vec![0xC3u8; message_len];
        let ix = Falcon512VerifyInstruction::new(&signature, &message);
        let mut encoded = vec![0u8; ix.encoded_len()];
        ix.encode_into(&mut encoded).unwrap();

        let parsed = Falcon512VerifyInstruction::parse(&encoded).ok().unwrap();
        assert_eq!(parsed.encoded_len(), ix.encoded_len());
        assert_eq!(parsed.encoded_len(), FALCON_512_SIGNATURE_LEN + message_len);
    }
}

// ---------------------------------------------------------------------------
// Fresh keys and signatures
// ---------------------------------------------------------------------------

#[test]
fn fresh_signatures_verify() {
    for k in 0..6u8 {
        let (pk, sk) = falcon512::keypair();
        let pubkey = Falcon512Pubkey::try_from(pk.as_bytes()).ok().unwrap();
        let prepared = pubkey.try_prepare_pubkey().ok().unwrap();
        for len in [0usize, 1, 40, 96, 97, 300] {
            let message = vec![k; len];
            let signed = falcon512::detached_sign(&message, &sk);
            let signature = Falcon512Signature::from(padded(signed.as_bytes()));
            assert!(signature.verify(&message, &pubkey));
            assert!(signature.verify_with_prepared(&message, &prepared));
        }
    }
}

#[test]
fn verdicts_agree_on_mutated_signatures() {
    let (pk, sk) = falcon512::keypair();
    let pubkey = Falcon512Pubkey::try_from(pk.as_bytes()).ok().unwrap();
    let prepared = pubkey.prepare_pubkey();
    let message = b"mutate me";
    let signed = falcon512::detached_sign(message, &sk);
    let bytes = signed.as_bytes();
    for i in 0..bytes.len() {
        let mut mutated = bytes.to_vec();
        mutated[i] ^= 1 << (i % 8);
        let theirs = match falcon512::DetachedSignature::from_bytes(&mutated) {
            Ok(sig) => falcon512::verify_detached_signature(&sig, message, &pk).is_ok(),
            Err(_) => false,
        };
        let signature = Falcon512Signature::from(padded(&mutated));
        assert_eq!(signature.verify(message, &pubkey), theirs, "byte {}", i);
        assert_eq!(signature.verify_with_prepared(message, &prepared), theirs);
    }
}

#[test]
fn other_keys_and_messages_do_not_verify() {
    let (pk, sk) = falcon512::keypair();
    let (other, _) = falcon512::keypair();
    let message = b"for one key only";
    let signed = falcon512::detached_sign(message, &sk);
    let signature = Falcon512Signature::from(padded(signed.as_bytes()));
    let right = Falcon512Pubkey::try_from(pk.as_bytes()).ok().unwrap();
    let wrong = Falcon512Pubkey::try_from(other.as_bytes()).ok().unwrap();
    assert!(signature.verify(message, &right));
    assert!(!signature.verify(message, &wrong));
    assert!(!signature.verify(b"for one key onlY", &right));
    for i in (0..FALCON_512_PUBKEY_LEN).step_by(13) {
        let mut bytes = *right.as_bytes();
        bytes[i] ^= 0x20;
        assert!(!signature.verify(message, &Falcon512Pubkey::from_bytes(bytes)), "byte {}", i);
    }
}
