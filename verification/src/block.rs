//! Blocks and transactions: the data carried by the hash-linked chain.

use vstd::prelude::*;
use vstd::slice::slice_to_vec;

verus! {

/// A transfer recorded inside a block. The signature bytes are carried
/// opaquely; their authenticity is not enforced by the chain itself.
#[derive(Debug)]
pub struct Transaction {
    pub sender: String,
    pub receiver: String,
    pub amount: u64,
    pub signature: Vec<u8>,
}

/// Mathematical image of a [`Transaction`].
#[verifier::ext_equal]
pub struct TransactionV {
    pub sender: Seq<char>,
    pub receiver: Seq<char>,
    pub amount: u64,
    pub signature: Seq<u8>,
}

impl View for Transaction {
    type V = TransactionV;

    open spec fn view(&self) -> TransactionV {
        TransactionV {
            sender: self.sender@,
            receiver: self.receiver@,
            amount: self.amount,
            signature: self.signature@,
        }
    }
}

impl DeepView for Transaction {
    type V = TransactionV;

    open spec fn deep_view(&self) -> TransactionV {
        self.view()
    }
}

impl Clone for Transaction {
    fn clone(&self) -> (r: Self)
        ensures
            r@ == self@,
    {
        let r = Transaction {
            sender: self.sender.clone(),
            receiver: self.receiver.clone(),
            amount: self.amount,
            signature: slice_to_vec(self.signature.as_slice()),
        };
        assert(r@ =~= self@);
        r
    }
}

/// One link of the chain. `hash` is a hex digest over the encoding of
/// `(index, timestamp, transactions)`; `previous_hash` names the digest of
/// the preceding block. The genesis block carries sentinel strings instead.
#[derive(Debug)]
pub struct Block {
    pub index: u64,
    pub timestamp: u128,
    pub previous_hash: String,
    pub hash: String,
    pub transactions: Vec<Transaction>,
}

/// Mathematical image of a [`Block`].
#[verifier::ext_equal]
pub struct BlockV {
    pub index: u64,
    pub timestamp: u128,
    pub previous_hash: Seq<char>,
    pub hash: Seq<char>,
    pub transactions: Seq<TransactionV>,
}

impl View for Block {
    type V = BlockV;

    open spec fn view(&self) -> BlockV {
        BlockV {
            index: self.index,
            timestamp: self.timestamp,
            previous_hash: self.previous_hash@,
            hash: self.hash@,
            transactions: self.transactions.deep_view(),
        }
    }
}

impl DeepView for Block {
    type V = BlockV;

    open spec fn deep_view(&self) -> BlockV {
        self.view()
    }
}

impl Clone for Block {
    fn clone(&self) -> (r: Self)
        ensures
            r@ == self@,
    {
        let r = Block {
            index: self.index,
            timestamp: self.timestamp,
            previous_hash: self.previous_hash.clone(),
            hash: self.hash.clone(),
            transactions: self.transactions.clone(),
        };
        proof {
            vstd::std_specs::vec::vec_clone_deep_view_proof(self.transactions, r.transactions);
            assert(r.transactions.deep_view() =~= self.transactions.deep_view());
            assert(r@ =~= self@);
        }
        r
    }
}

/// The sentinel first block: fixed contents, hash not derived from a digest.
pub open spec fn genesis_v() -> BlockV {
    BlockV {
        index: 0,
        timestamp: 0,
        previous_hash: "0"@,
        hash: "genesis"@,
        transactions: Seq::empty(),
    }
}

/// The chain is hash-linked: each block after the first names the digest of
/// its predecessor.
pub open spec fn linked(c: Seq<BlockV>) -> bool {
    forall|i: int| 0 < i < c.len() ==> c[i].previous_hash == c[i - 1].hash
}

/// The hash field of a non-genesis block: the hex digest of the canonical
/// encoding of its index, timestamp and transactions.
pub open spec fn block_hash(index: u64, timestamp: u128, ts: Seq<TransactionV>) -> Seq<char> {
    crate::digest::hex_chars_of(
        crate::digest::sha3_of(crate::codec::enc_hash_input(index, timestamp, ts)),
    )
}

/// Relies on `std::time::SystemTime::now`: milliseconds since the epoch, or
/// zero when the clock reads earlier than the epoch. Nothing is specified of
/// the value.
#[verifier::external_body]
fn now_millis() -> u128 {
    std::time::SystemTime::now()
        .duration_since(std::time::UNIX_EPOCH)
        .map(|d| d.as_millis())
        .unwrap_or(0)
}

impl Block {
    /// Builds a block at `index` over `transactions`, stamped with the
    /// current time and hashed over its own contents. Linking it to the
    /// chain's tail is the caller's task: `previous_hash` is stored as given.
    pub fn new(index: u64, previous_hash: String, transactions: Vec<Transaction>) -> (r: Block)
        ensures
            r@.index == index,
            r@.previous_hash == previous_hash@,
            r@.transactions == transactions.deep_view(),
            r@.hash == block_hash(index, r@.timestamp, transactions.deep_view()),
    {
        let timestamp = now_millis();
        let input = crate::codec::encode_hash_input(index, timestamp, &transactions);
        let digest = crate::digest::sha3_256(input.as_slice());
        let hash = crate::digest::hex_encode(digest.as_slice());
        Block { index, timestamp, previous_hash, hash, transactions }
    }

    /// The fixed first block of every chain.
    pub fn genesis() -> (r: Block)
        ensures
            r@ == genesis_v(),
    {
        let r = Block {
            index: 0,
            timestamp: 0,
            previous_hash: "0".to_owned(),
            hash: "genesis".to_owned(),
            transactions: Vec::new(),
        };
        assert(r@ =~= genesis_v());
        r
    }
}

} // verus!
