//! Key encapsulation for task payloads, through the Kyber-512 KEM. All keys,
//! ciphertexts and shared secrets cross this boundary as plain byte strings.

use vstd::prelude::*;

use crate::LedgerError;
use pqcrypto_kyber::kyber512;
use pqcrypto_traits::kem::{
    Ciphertext as CiphertextT, PublicKey as PublicKeyT, SecretKey as SecretKeyT,
    SharedSecret as SharedSecretT,
};

verus! {

/// Byte length of a Kyber-512 public key.
pub const KYBER_PUBLIC_KEY_BYTES: usize = 800;

/// Byte length of a Kyber-512 secret key.
pub const KYBER_SECRET_KEY_BYTES: usize = 1632;

/// Byte length of a Kyber-512 ciphertext.
pub const KYBER_CIPHERTEXT_BYTES: usize = 768;

/// Byte length of a Kyber-512 shared secret.
pub const KYBER_SHARED_SECRET_BYTES: usize = 32;

/// Whether these bytes are the two halves of one KEM keypair, as
/// `generate_keypair` hands them out.
pub uninterp spec fn kem_paired(public_key: Seq<u8>, secret_key: Seq<u8>) -> bool;

/// What decapsulation returns for this ciphertext and secret key: a function
/// of the two byte strings alone.
pub uninterp spec fn decap_of(ciphertext: Seq<u8>, secret_key: Seq<u8>) -> Seq<u8>;

/// The KEM, exposed as stateless functions over byte strings.
pub struct KyberEncryption;

impl KyberEncryption {
    /// Relies on `kyber512::keypair`: a fresh KEM keypair; key generation
    /// itself cannot fail.
    #[verifier::external_body]
    pub fn generate_keypair() -> (r: (Vec<u8>, Vec<u8>))
        ensures
            kem_paired(r.0@, r.1@),
            r.0@.len() == KYBER_PUBLIC_KEY_BYTES,
            r.1@.len() == KYBER_SECRET_KEY_BYTES,
    {
        let (pk, sk) = kyber512::keypair();
        (PublicKeyT::as_bytes(&pk).to_vec(), SecretKeyT::as_bytes(&sk).to_vec())
    }

    /// Relies on `kyber512::encapsulate`: a shared secret and a ciphertext
    /// for the given public key; decapsulating that ciphertext under any
    /// secret key paired with the public key recovers the same shared
    /// secret. Fails exactly when the public key has the wrong length.
    #[verifier::external_body]
    pub fn encrypt(public_key: &[u8]) -> (r: Result<(Vec<u8>, Vec<u8>), LedgerError>)
        ensures
            r is Ok <==> public_key@.len() == KYBER_PUBLIC_KEY_BYTES,
            r is Ok ==> (r->Ok_0).0@.len() == KYBER_SHARED_SECRET_BYTES && (
            r->Ok_0).1@.len() == KYBER_CIPHERTEXT_BYTES,
            r is Ok ==> forall|sk: Seq<u8>|
                kem_paired(public_key@, sk) ==> decap_of((r->Ok_0).1@, sk) == (r->Ok_0).0@,
            r is Err ==> r->Err_0 == LedgerError::MalformedKeyMaterial,
    {
        match <kyber512::PublicKey as PublicKeyT>::from_bytes(public_key) {
            Ok(pk) => {
                let (ss, ct) = kyber512::encapsulate(&pk);
                Ok((SharedSecretT::as_bytes(&ss).to_vec(), CiphertextT::as_bytes(&ct).to_vec()))
            },
            Err(_) => Err(LedgerError::MalformedKeyMaterial),
        }
    }

    /// Relies on `kyber512::decapsulate`: the shared secret is a function of
    /// the ciphertext and secret key bytes alone; on byte strings of the
    /// right lengths it always produces one. Fails exactly when a length is
    /// wrong, and never panics on attacker-supplied bytes.
    #[verifier::external_body]
    pub fn decrypt(ciphertext: &[u8], secret_key: &[u8]) -> (r: Result<Vec<u8>, LedgerError>)
        ensures
            r is Ok <==> (ciphertext@.len() == KYBER_CIPHERTEXT_BYTES && secret_key@.len() == KYBER_SECRET_KEY_BYTES),
            r is Ok ==> (r->Ok_0)@ == decap_of(ciphertext@, secret_key@),
            r is Ok ==> (r->Ok_0)@.len() == KYBER_SHARED_SECRET_BYTES,
            r is Err ==> (r->Err_0 == LedgerError::DecapsulationError <==> ciphertext@.len() != KYBER_CIPHERTEXT_BYTES),
            r is Err ==> (r->Err_0 == LedgerError::MalformedKeyMaterial <==> (ciphertext@.len() == KYBER_CIPHERTEXT_BYTES && secret_key@.len() != KYBER_SECRET_KEY_BYTES)),
    {
        let ct = match <kyber512::Ciphertext as CiphertextT>::from_bytes(ciphertext) {
            Ok(c) => c,
            Err(_) => {
                return Err(LedgerError::DecapsulationError);
            },
        };
        let sk = match <kyber512::SecretKey as SecretKeyT>::from_bytes(secret_key) {
            Ok(s) => s,
            Err(_) => {
                return Err(LedgerError::MalformedKeyMaterial);
            },
        };
        Ok(SharedSecretT::as_bytes(&kyber512::decapsulate(&ct, &sk)).to_vec())
    }

    /// Relies on `Ciphertext::from_bytes`: it accepts exactly byte strings
    /// of the ciphertext length, unchanged.
    #[verifier::external_body]
    pub fn ciphertext_from_bytes(bytes: &[u8]) -> (r: Option<Vec<u8>>)
        ensures
            r is Some <==> bytes@.len() == KYBER_CIPHERTEXT_BYTES,
            r is Some ==> (r->0)@ == bytes@,
    {
        match <kyber512::Ciphertext as CiphertextT>::from_bytes(bytes) {
            Ok(ct) => Some(CiphertextT::as_bytes(&ct).to_vec()),
            Err(_) => None,
        }
    }

    /// Relies on `SecretKey::from_bytes`: it accepts exactly byte strings of
    /// the secret-key length, unchanged.
    #[verifier::external_body]
    pub fn secret_key_from_bytes(bytes: &[u8]) -> (r: Option<Vec<u8>>)
        ensures
            r is Some <==> bytes@.len() == KYBER_SECRET_KEY_BYTES,
            r is Some ==> (r->0)@ == bytes@,
    {
        match <kyber512::SecretKey as SecretKeyT>::from_bytes(bytes) {
            Ok(sk) => Some(SecretKeyT::as_bytes(&sk).to_vec()),
            Err(_) => None,
        }
    }
}

} // verus!
