//! A minimal ledger node: a hash-linked block chain with a durable-store
//! codec, a stake-weighted validator registry, and a task marketplace whose
//! metadata is authenticated with a post-quantum signature scheme and whose
//! results are exchanged through a post-quantum key-encapsulation mechanism.

use vstd::prelude::*;

pub mod block;
pub mod chain;
pub mod codec;
pub mod digest;
pub mod kyber;
pub mod market;
pub mod pool;
pub mod sphincs;
pub mod stake;

verus! {

/// Failures surfaced by the ledger core. Cryptographic and lookup failures
/// are recoverable and returned to the caller; decode failures at load time
/// abort the load.
#[derive(Clone, Copy, Debug, PartialEq, Eq, Structural)]
pub enum LedgerError {
    /// The durable store cannot be opened or written.
    StoreUnavailable,
    /// A persisted block failed to decode.
    ChainCorrupt,
    /// An unstake request exceeded the staked balance.
    InsufficientStake,
    /// A task lookup or completion named an unknown task id.
    TaskNotFound,
    /// A task completion's authenticity check failed.
    SignatureInvalid,
    /// A key, signature or ciphertext had an invalid length or structure.
    MalformedKeyMaterial,
    /// A key-encapsulation decapsulation failed on the supplied bytes.
    DecapsulationError,
}

} // verus!
