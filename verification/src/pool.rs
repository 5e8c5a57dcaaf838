//! A holding area for transactions not yet folded into a block.

use vstd::prelude::*;

use crate::block::{Transaction, TransactionV};

verus! {

/// Transactions waiting to be appended in the next block.
#[derive(Debug)]
pub struct TransactionPool {
    pub transactions: Vec<Transaction>,
}

impl TransactionPool {
    /// An empty pool.
    pub fn new() -> (r: Self)
        ensures
            r.transactions.deep_view() == Seq::<TransactionV>::empty(),
    {
        let r = TransactionPool { transactions: Vec::new() };
        assert(r.transactions.deep_view() =~= Seq::<TransactionV>::empty());
        r
    }

    /// Queues one transaction at the end of the pool.
    pub fn add_transaction(&mut self, transaction: Transaction)
        ensures
            final(self).transactions.deep_view() == old(self).transactions.deep_view().push(
                transaction@,
            ),
    {
        let ghost t0 = self.transactions.deep_view();
        let ghost tv = transaction@;
        self.transactions.push(transaction);
        proof {
            assert(self.transactions.deep_view() =~= t0.push(tv));
        }
    }

    /// Empties the pool, once its transactions have been appended.
    pub fn clear(&mut self)
        ensures
            final(self).transactions.deep_view() == Seq::<TransactionV>::empty(),
    {
        self.transactions.clear();
        assert(self.transactions.deep_view() =~= Seq::<TransactionV>::empty());
    }
}

} // verus!
