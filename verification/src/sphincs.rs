//! Detached signatures over task metadata, through the SPHINCS+
//! sha2-128f-simple scheme. All keys and signatures cross this boundary as
//! plain byte strings.

use vstd::prelude::*;

use crate::LedgerError;
use pqcrypto_sphincsplus::sphincssha2128fsimple;
use pqcrypto_traits::sign::{
    DetachedSignature as DetachedSignatureT, PublicKey as PublicKeyT, SecretKey as SecretKeyT,
};

verus! {

/// Byte length of a SPHINCS+ sha2-128f-simple public key.
pub const SPHINCS_PUBLIC_KEY_BYTES: usize = 32;

/// Byte length of a SPHINCS+ sha2-128f-simple secret key.
pub const SPHINCS_SECRET_KEY_BYTES: usize = 64;

/// Byte length of a SPHINCS+ sha2-128f-simple detached signature.
pub const SPHINCS_SIGNATURE_BYTES: usize = 17088;

/// Whether these bytes are the two halves of one signing keypair, as
/// `generate_keypair` hands them out.
pub uninterp spec fn sig_paired(public_key: Seq<u8>, secret_key: Seq<u8>) -> bool;

/// What detached verification returns for these bytes: a function of the
/// message, signature and public key alone.
pub uninterp spec fn sig_verifies(message: Seq<u8>, signature: Seq<u8>, public_key: Seq<u8>) -> bool;

/// The signature scheme, exposed as stateless functions over byte strings.
pub struct Sphincs;

impl Sphincs {
    /// Relies on `sphincssha2128fsimple::keypair`: a fresh signing keypair;
    /// key generation itself cannot fail.
    #[verifier::external_body]
    pub fn generate_keypair() -> (r: Result<(Vec<u8>, Vec<u8>), LedgerError>)
        ensures
            r is Ok,
            sig_paired((r->Ok_0).0@, (r->Ok_0).1@),
            (r->Ok_0).0@.len() == SPHINCS_PUBLIC_KEY_BYTES,
            (r->Ok_0).1@.len() == SPHINCS_SECRET_KEY_BYTES,
    {
        let (pk, sk) = sphincssha2128fsimple::keypair();
        Ok((PublicKeyT::as_bytes(&pk).to_vec(), SecretKeyT::as_bytes(&sk).to_vec()))
    }

    /// Relies on `sphincssha2128fsimple::detached_sign`: the produced
    /// signature verifies under any public key paired with `secret_key`.
    /// Fails exactly when the secret key has the wrong length.
    #[verifier::external_body]
    pub fn sign(message: &[u8], secret_key: &[u8]) -> (r: Result<Vec<u8>, LedgerError>)
        ensures
            r is Ok <==> secret_key@.len() == SPHINCS_SECRET_KEY_BYTES,
            r is Ok ==> (r->Ok_0)@.len() == SPHINCS_SIGNATURE_BYTES,
            r is Ok ==> forall|pk: Seq<u8>|
                sig_paired(pk, secret_key@) ==> sig_verifies(message@, (r->Ok_0)@, pk),
            r is Err ==> r->Err_0 == LedgerError::MalformedKeyMaterial,
    {
        match <sphincssha2128fsimple::SecretKey as SecretKeyT>::from_bytes(secret_key) {
            Ok(sk) => {
                let sig = sphincssha2128fsimple::detached_sign(message, &sk);
                Ok(DetachedSignatureT::as_bytes(&sig).to_vec())
            },
            Err(_) => Err(LedgerError::MalformedKeyMaterial),
        }
    }

    /// Relies on `sphincssha2128fsimple::verify_detached_signature`: the
    /// outcome depends on the three byte strings alone; bytes that do not
    /// parse as a signature or key verify as false. Never panics and never
    /// raises: absence of validity is reported as `false`.
    #[verifier::external_body]
    pub fn verify(message: &[u8], signature_bytes: &[u8], public_key: &[u8]) -> (r: bool)
        ensures
            r == sig_verifies(message@, signature_bytes@, public_key@),
    {
        let sig = match <sphincssha2128fsimple::DetachedSignature as DetachedSignatureT>::from_bytes(
            signature_bytes,
        ) {
            Ok(s) => s,
            Err(_) => {
                return false;
            },
        };
        let pk = match <sphincssha2128fsimple::PublicKey as PublicKeyT>::from_bytes(public_key) {
            Ok(p) => p,
            Err(_) => {
                return false;
            },
        };
        sphincssha2128fsimple::verify_detached_signature(&sig, message, &pk).is_ok()
    }
}

} // verus!
