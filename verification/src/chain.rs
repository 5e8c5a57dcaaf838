//! The ledger aggregate: the hash-linked chain, the staking ledger and the
//! task marketplace behind one surface. Mutations that touch the chain hand
//! the caller everything needed to persist them; reloading replays the
//! persisted records in the order given.

use vstd::prelude::*;

use crate::block::{genesis_v, linked, Block, BlockV, Transaction};
use crate::codec::s_dec_block;
use crate::market::{pending_of, task_authentic, Task, TaskQueue, TaskV};
use crate::stake::StakingState;
use crate::LedgerError;

verus! {

/// The encoded block values of a sequence of store records.
pub open spec fn record_values(entries: Seq<(Vec<u8>, Vec<u8>)>) -> Seq<Seq<u8>> {
    entries.map_values(|e: (Vec<u8>, Vec<u8>)| e.1@)
}

/// Every value decodes as a block.
pub open spec fn all_decode(vals: Seq<Seq<u8>>) -> bool {
    forall|k: int| 0 <= k < vals.len() ==> s_dec_block(#[trigger] vals[k]) is Some
}

/// The blocks the values decode to, in order.
pub open spec fn decoded_chain(vals: Seq<Seq<u8>>) -> Seq<BlockV> {
    vals.map_values(|v: Seq<u8>| s_dec_block(v)->0)
}

/// The store records of a chain: each block keyed by its index as eight
/// big-endian bytes, valued as its canonical encoding.
pub open spec fn chain_records_v(c: Seq<BlockV>) -> Seq<(Seq<u8>, Seq<u8>)> {
    c.map_values(|b: BlockV| (crate::codec::be8(b.index), crate::codec::enc_block(b)))
}

/// Block indices strictly ascend along the chain, as appending maintains.
pub open spec fn ascending_indices(c: Seq<BlockV>) -> bool {
    forall|i: int, j: int| 0 <= i < j < c.len() ==> c[i].index < c[j].index
}

/// Every block sits at the position its index names — true of a chain grown
/// from genesis by appending, and enough for indices to strictly ascend.
pub open spec fn indexed(c: Seq<BlockV>) -> bool {
    forall|i: int| 0 <= i < c.len() ==> c[i].index == i
}

/// A chain with each block at its own index has strictly ascending indices.
pub proof fn lemma_indexed_ascending(c: Seq<BlockV>)
    requires
        indexed(c),
    ensures
        ascending_indices(c),
{
}

/// Record keys strictly ascend in bytewise order — the order a
/// bytewise-ordered store iterates them in.
pub open spec fn strictly_sorted_records(entries: Seq<(Seq<u8>, Seq<u8>)>) -> bool {
    forall|i: int, j: int|
        0 <= i < j < entries.len() ==> crate::codec::lex_lt(entries[i].0, entries[j].0)
}

/// Reloading reproduces the chain. The records of a chain with ascending
/// indices are already in strict bytewise key order, so a bytewise-ordered
/// store iterates them exactly as they were appended; and each value decodes
/// back to its block, so replaying the iteration yields the identical
/// ordered block sequence.
pub proof fn lemma_reload_round_trip(c: Seq<BlockV>)
    requires
        forall|i: int| 0 <= i < c.len() ==> crate::codec::block_fits(#[trigger] c[i]),
        ascending_indices(c),
    ensures
        strictly_sorted_records(chain_records_v(c)),
        all_decode(chain_records_v(c).map_values(|e: (Seq<u8>, Seq<u8>)| e.1)),
        decoded_chain(chain_records_v(c).map_values(|e: (Seq<u8>, Seq<u8>)| e.1)) == c,
{
    let records = chain_records_v(c);
    let vals = records.map_values(|e: (Seq<u8>, Seq<u8>)| e.1);
    assert forall|i: int, j: int|
        0 <= i < j < records.len() implies crate::codec::lex_lt(records[i].0, records[j].0) by {
        crate::codec::lemma_be8_order(c[i].index, c[j].index);
    }
    assert forall|k: int| 0 <= k < vals.len() implies s_dec_block(#[trigger] vals[k]) is Some by {
        assert(vals[k] == crate::codec::enc_block(c[k]));
        crate::codec::lemma_block_round_trip(c[k]);
    }
    assert forall|k: int|
        0 <= k < vals.len() implies s_dec_block(#[trigger] vals[k])->0 == c[k] by {
        assert(vals[k] == crate::codec::enc_block(c[k]));
        crate::codec::lemma_block_round_trip(c[k]);
    }
    assert(decoded_chain(vals) =~= c);
}

/// Two runs of records in strict bytewise key order that hold the same
/// records hold them in the same positions: a bytewise-ordered store has
/// exactly one iteration order for a given content.
pub proof fn lemma_sorted_records_agree(a: Seq<(Seq<u8>, Seq<u8>)>, b: Seq<(Seq<u8>, Seq<u8>)>)
    requires
        strictly_sorted_records(a),
        strictly_sorted_records(b),
        a.to_multiset() == b.to_multiset(),
    ensures
        a == b,
    decreases a.len(),
{
    broadcast use vstd::seq_lib::group_to_multiset_ensures;

    if a.len() == 0 {
        assert(b.len() == b.to_multiset().len());
        assert(a =~= b);
    } else {
        assert(a.len() == a.to_multiset().len());
        assert(b.len() == b.to_multiset().len());
        assert(a.contains(a[0]));
        assert(b.to_multiset().count(a[0]) > 0);
        assert(b.contains(a[0]));
        let j = choose|j: int| 0 <= j < b.len() && b[j] == a[0];
        if j > 0 {
            assert(crate::codec::lex_lt(b[0].0, b[j].0));
            assert(b.contains(b[0]));
            assert(a.to_multiset().count(b[0]) > 0);
            assert(a.contains(b[0]));
            let k = choose|k: int| 0 <= k < a.len() && a[k] == b[0];
            if k > 0 {
                assert(crate::codec::lex_lt(a[0].0, a[k].0));
                crate::codec::lemma_lex_asymmetric(a[0].0, b[0].0);
            } else {
                crate::codec::lemma_lex_asymmetric(b[0].0, b[j].0);
            }
            assert(false);
        }
        assert(a[0] == b[0]);
        let at = a.remove(0);
        let bt = b.remove(0);
        assert(at.to_multiset() =~= a.to_multiset().remove(a[0]));
        assert(bt.to_multiset() =~= b.to_multiset().remove(b[0]));
        assert forall|i: int, j2: int|
            0 <= i < j2 < at.len() implies crate::codec::lex_lt(at[i].0, at[j2].0) by {
            assert(at[i] == a[i + 1]);
            assert(at[j2] == a[j2 + 1]);
        }
        assert forall|i: int, j2: int|
            0 <= i < j2 < bt.len() implies crate::codec::lex_lt(bt[i].0, bt[j2].0) by {
            assert(bt[i] == b[i + 1]);
            assert(bt[j2] == b[j2 + 1]);
        }
        lemma_sorted_records_agree(at, bt);
        assert forall|i: int| 0 <= i < a.len() implies a[i] == b[i] by {
            if i > 0 {
                assert(a[i] == at[i - 1]);
                assert(b[i] == bt[i - 1]);
            }
        }
        assert(a =~= b);
    }
}

/// Any bytewise-ordered iteration of exactly a chain's persisted records
/// replays to that chain, block for block and in order: the store's one
/// iteration order is the chain's own, and every value decodes back to its
/// block.
pub proof fn lemma_store_iteration_replays_chain(
    c: Seq<BlockV>,
    entries: Seq<(Seq<u8>, Seq<u8>)>,
)
    requires
        forall|i: int| 0 <= i < c.len() ==> crate::codec::block_fits(#[trigger] c[i]),
        ascending_indices(c),
        strictly_sorted_records(entries),
        entries.to_multiset() == chain_records_v(c).to_multiset(),
    ensures
        entries == chain_records_v(c),
        all_decode(entries.map_values(|e: (Seq<u8>, Seq<u8>)| e.1)),
        decoded_chain(entries.map_values(|e: (Seq<u8>, Seq<u8>)| e.1)) == c,
{
    lemma_reload_round_trip(c);
    lemma_sorted_records_agree(entries, chain_records_v(c));
}

/// The chain, the staking ledger and the task registry, composed.
#[derive(Debug)]
pub struct Blockchain {
    pub chain: Vec<Block>,
    pub staking_state: StakingState,
    pub task_queue: TaskQueue,
}

impl Blockchain {
    /// The chain as a mathematical sequence of block images.
    pub open spec fn chain_v(&self) -> Seq<BlockV> {
        self.chain.deep_view()
    }

    /// Well-formed: both sub-ledgers hold their invariants.
    pub open spec fn wf(&self) -> bool {
        &&& self.staking_state.wf()
        &&& self.task_queue.wf()
    }

    /// A ledger with nothing in it yet; replay persisted records through
    /// [`Blockchain::load_chain`] before using the chain.
    pub fn new() -> (r: Self)
        ensures
            r.wf(),
            r.chain_v() == Seq::<BlockV>::empty(),
            r.staking_state.entries() == Seq::<(Seq<char>, u64)>::empty(),
            r.staking_state.total_staked == 0,
            r.task_queue.entries() == Seq::<TaskV>::empty(),
    {
        let r = Blockchain {
            chain: Vec::new(),
            staking_state: StakingState::new(),
            task_queue: TaskQueue::new(),
        };
        assert(r.chain_v() =~= Seq::<BlockV>::empty());
        r
    }

    /// Replays persisted store records, in the order given, onto the chain:
    /// each value must decode as a block. When nothing is persisted and the
    /// chain is empty, the genesis block starts it. A value that fails to
    /// decode aborts the load with `ChainCorrupt` and changes nothing: the
    /// ledger never proceeds with a partially loaded chain.
    #[verifier::loop_isolation(false)]
    pub fn load_chain(&mut self, entries: &Vec<(Vec<u8>, Vec<u8>)>) -> (r: Result<
        (),
        LedgerError,
    >)
        ensures
            final(self).staking_state == old(self).staking_state,
            final(self).task_queue == old(self).task_queue,
            r is Ok <==> all_decode(record_values(entries@)),
            r is Err ==> *final(self) == *old(self) && r->Err_0 == LedgerError::ChainCorrupt,
            r is Ok ==> final(self).chain_v() == {
                let loaded = old(self).chain_v() + decoded_chain(record_values(entries@));
                if loaded.len() == 0 {
                    seq![genesis_v()]
                } else {
                    loaded
                }
            },
    {
        let ghost vals = record_values(entries@);
        let mut decoded: Vec<Block> = Vec::new();
        let n = entries.len();
        let mut i: usize = 0;
        assert(decoded.deep_view() =~= decoded_chain(vals.take(0)));
        while i < n
            invariant
                i <= n,
                decoded.deep_view() == decoded_chain(vals.take(i as int)),
                forall|k: int| 0 <= k < i ==> s_dec_block(#[trigger] vals[k]) is Some,
            decreases n - i,
        {
            let ghost d0 = decoded.deep_view();
            match crate::codec::decode_block(entries[i].1.as_slice()) {
                Some(b) => {
                    decoded.push(b);
                    proof {
                        assert(decoded.deep_view() =~= d0.push(b@));
                        assert(decoded_chain(vals.take(i + 1)) =~= d0.push(
                            s_dec_block(vals[i as int])->0,
                        ));
                    }
                },
                None => {
                    proof {
                        assert(s_dec_block(vals[i as int]) is None);
                    }
                    return Err(LedgerError::ChainCorrupt);
                },
            }
            i = i + 1;
        }
        proof {
            assert(vals.take(n as int) =~= vals);
        }
        let ghost chain0 = self.chain.deep_view();
        self.chain.append(&mut decoded);
        proof {
            assert(self.chain.deep_view() =~= chain0 + decoded_chain(vals));
        }
        if self.chain.len() == 0 {
            self.chain.push(Block::genesis());
            proof {
                assert(self.chain.deep_view() =~= seq![genesis_v()]);
            }
        }
        Ok(())
    }

    /// Appends a block built by the caller. No linkage check happens here —
    /// the caller owns the block's `previous_hash`; [`Blockchain::append_block`]
    /// builds a correctly linked block. Persisting the record is the
    /// caller's next step, through [`crate::codec::block_record`].
    pub fn add_block(&mut self, block: Block)
        ensures
            final(self).chain_v() == old(self).chain_v() + seq![block@],
            final(self).staking_state == old(self).staking_state,
            final(self).task_queue == old(self).task_queue,
    {
        let ghost chain0 = self.chain.deep_view();
        let ghost bv = block@;
        self.chain.push(block);
        proof {
            assert(self.chain.deep_view() =~= chain0 + seq![bv]);
        }
    }

    /// Builds the next block over the chain's tail — its index one past the
    /// tail's, its `previous_hash` the tail's hash — appends it, and returns
    /// a copy. A chain whose links all held before still has them all after.
    pub fn append_block(&mut self, transactions: Vec<Transaction>) -> (r: Block)
        requires
            old(self).chain@.len() > 0,
        ensures
            final(self).chain_v() == old(self).chain_v() + seq![r@],
            r@.index == old(self).chain@.len(),
            r@.previous_hash == old(self).chain_v().last().hash,
            r@.transactions == transactions.deep_view(),
            r@.hash == crate::block::block_hash(r@.index, r@.timestamp, r@.transactions),
            linked(old(self).chain_v()) ==> linked(final(self).chain_v()),
            indexed(old(self).chain_v()) ==> indexed(final(self).chain_v()),
            final(self).staking_state == old(self).staking_state,
            final(self).task_queue == old(self).task_queue,
    {
        let tail_hash = self.chain[self.chain.len() - 1].hash.clone();
        let block = Block::new(self.chain.len() as u64, tail_hash, transactions);
        let r = block.clone();
        let ghost chain0 = self.chain.deep_view();
        let ghost bv = block@;
        self.chain.push(block);
        proof {
            assert(self.chain.deep_view() =~= chain0 + seq![bv]);
            if linked(chain0) {
                let c = self.chain.deep_view();
                assert forall|i: int| 0 < i < c.len() implies c[i].previous_hash == c[i
                    - 1].hash by {
                    if i < c.len() - 1 {
                        assert(c[i] == chain0[i]);
                        assert(c[i - 1] == chain0[i - 1]);
                    } else {
                        assert(c[i] == bv);
                        assert(c[i - 1] == chain0.last());
                    }
                }
            }
            if indexed(chain0) {
                let c = self.chain.deep_view();
                assert forall|i: int| 0 <= i < c.len() implies c[i].index == i by {
                    if i < c.len() - 1 {
                        assert(c[i] == chain0[i]);
                    } else {
                        assert(c[i] == bv);
                    }
                }
            }
        }
        r
    }

    /// The acceptance predicate for a block offered to this chain: its
    /// `previous_hash` must name the digest of the current tail.
    pub fn validate_block(&self, block: &Block) -> (r: bool)
        ensures
            r == (self.chain@.len() > 0 && block@.previous_hash == self.chain_v().last().hash),
    {
        if self.chain.len() == 0 {
            return false;
        }
        let tail = self.chain.len() - 1;
        block.previous_hash == self.chain[tail].hash
    }

    /// The most recently appended block.
    pub fn latest_block(&self) -> (r: &Block)
        requires
            self.chain@.len() > 0,
        ensures
            r@ == self.chain_v().last(),
    {
        &self.chain[self.chain.len() - 1]
    }

    /// Adds to an identity's staked balance; see [`StakingState::stake`].
    pub fn stake(&mut self, wallet: String, amount: u64)
        requires
            old(self).wf(),
            old(self).staking_state.total_staked + amount <= u64::MAX,
        ensures
            final(self).wf(),
            final(self).chain == old(self).chain,
            final(self).task_queue == old(self).task_queue,
            final(self).staking_state.total_staked == old(self).staking_state.total_staked
                + amount,
            final(self).staking_state.bal(wallet@) == old(self).staking_state.bal(wallet@)
                + amount,
            final(self).staking_state.has(wallet@),
            forall|id: Seq<char>|
                id != wallet@ ==> final(self).staking_state.bal(id) == old(self).staking_state.bal(
                    id,
                ) && (final(self).staking_state.has(id) <==> old(self).staking_state.has(id)),
    {
        self.staking_state.stake(wallet, amount);
    }

    /// Removes from an identity's staked balance when covered; see
    /// [`StakingState::unstake`].
    pub fn unstake(&mut self, wallet: String, amount: u64) -> (r: bool)
        requires
            old(self).wf(),
        ensures
            final(self).wf(),
            final(self).chain == old(self).chain,
            final(self).task_queue == old(self).task_queue,
            r == (old(self).staking_state.has(wallet@) && old(self).staking_state.bal(wallet@)
                >= amount),
            r ==> final(self).staking_state.total_staked == old(self).staking_state.total_staked
                - amount && final(self).staking_state.bal(wallet@) == old(self).staking_state.bal(
                wallet@,
            ) - amount,
            r ==> forall|id: Seq<char>|
                id != wallet@ ==> final(self).staking_state.bal(id) == old(self).staking_state.bal(
                    id,
                ) && (final(self).staking_state.has(id) <==> old(self).staking_state.has(id)),
            !r ==> *final(self) == *old(self),
    {
        self.staking_state.unstake(wallet, amount)
    }

    /// The reward owed to an identity right now; see
    /// [`StakingState::get_rewards`].
    pub fn get_rewards(&self, wallet: &String) -> (r: u64)
        requires
            self.wf(),
        ensures
            r == self.staking_state.bal(wallet@) / 20,
    {
        self.staking_state.get_rewards(wallet)
    }

    /// Registers a pending task, replacing any task stored under the same
    /// id; see [`TaskQueue::add_task`].
    pub fn add_task(
        &mut self,
        id: String,
        description: String,
        encrypted_data: Vec<u8>,
        reward: u64,
        sphincs_public_key: Vec<u8>,
        signature: Vec<u8>,
    )
        requires
            old(self).wf(),
        ensures
            final(self).wf(),
            final(self).chain == old(self).chain,
            final(self).staking_state == old(self).staking_state,
            final(self).task_queue.has(id@),
            final(self).task_queue.task(id@) == (TaskV {
                id: id@,
                description: description@,
                data: encrypted_data@,
                reward,
                is_complete: false,
                sphincs_public_key: sphincs_public_key@,
                signature: signature@,
            }),
            forall|id2: Seq<char>|
                id2 != id@ ==> (final(self).task_queue.has(id2) <==> old(self).task_queue.has(id2))
                    && (old(self).task_queue.has(id2) ==> final(self).task_queue.task(id2) == old(
                    self,
                ).task_queue.task(id2)),
    {
        self.task_queue.add_task(id, description, encrypted_data, reward, sphincs_public_key, signature);
    }

    /// Verifies and completes the task stored under `id`; see
    /// [`TaskQueue::complete_task`]. A failed verification or an unknown id
    /// changes nothing.
    pub fn complete_task(&mut self, id: &str) -> (r: Result<Task, LedgerError>)
        requires
            old(self).wf(),
        ensures
            final(self).wf(),
            final(self).chain == old(self).chain,
            final(self).staking_state == old(self).staking_state,
            r is Ok <==> old(self).task_queue.has(id@) && task_authentic(
                old(self).task_queue.task(id@),
            ),
            r is Ok ==> r->Ok_0@ == (TaskV { is_complete: true, ..old(self).task_queue.task(id@) }),
            r is Ok ==> final(self).task_queue.has(id@) && final(self).task_queue.task(id@)
                == r->Ok_0@,
            r is Ok ==> forall|id2: Seq<char>|
                id2 != id@ ==> (final(self).task_queue.has(id2) <==> old(self).task_queue.has(id2))
                    && (old(self).task_queue.has(id2) ==> final(self).task_queue.task(id2) == old(
                    self,
                ).task_queue.task(id2)),
            r is Err ==> *final(self) == *old(self),
            r is Err ==> (r->Err_0 == LedgerError::TaskNotFound <==> !old(self).task_queue.has(
                id@,
            )),
            r is Err ==> (r->Err_0 == LedgerError::SignatureInvalid <==> old(self).task_queue.has(
                id@,
            ) && !task_authentic(old(self).task_queue.task(id@))),
    {
        self.task_queue.complete_task(id)
    }

    /// Copies of all tasks not yet complete; see
    /// [`TaskQueue::get_pending_tasks`].
    pub fn get_pending_tasks(&self) -> (r: Vec<Task>)
        ensures
            r.deep_view() == pending_of(self.task_queue.entries()),
    {
        self.task_queue.get_pending_tasks()
    }

    /// A copy of the task stored under `id`, when there is one; see
    /// [`TaskQueue::get_task`].
    pub fn get_task(&self, id: &str) -> (r: Option<Task>)
        requires
            self.wf(),
        ensures
            r is Some <==> self.task_queue.has(id@),
            r is Some ==> r->0@ == self.task_queue.task(id@),
    {
        self.task_queue.get_task(id)
    }
}

} // verus!
