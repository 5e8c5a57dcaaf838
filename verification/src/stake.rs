//! The staking ledger: per-identity staked balances, a running total that
//! always equals their sum, and the derived validator set (the identities
//! whose balance is strictly positive).

use vstd::prelude::*;

verus! {

/// One entry per identity; an entry may reach balance zero and stays listed.
#[derive(Debug)]
pub struct StakingState {
    /// Wallet identity and its staked amount.
    pub staked_balances: Vec<(String, u64)>,
    /// Total staked amount in the network.
    pub total_staked: u64,
}

/// The sum of all balances in the table.
pub open spec fn sum_balances(s: Seq<(Seq<char>, u64)>) -> int
    decreases s.len(),
{
    if s.len() == 0 {
        0
    } else {
        sum_balances(s.drop_last()) + s.last().1
    }
}

/// Whether the table holds an entry for `id`.
pub open spec fn has_entry(s: Seq<(Seq<char>, u64)>, id: Seq<char>) -> bool
    decreases s.len(),
{
    if s.len() == 0 {
        false
    } else if s.last().0 == id {
        true
    } else {
        has_entry(s.drop_last(), id)
    }
}

/// The balance recorded for `id`, zero when it has no entry.
pub open spec fn bal_of(s: Seq<(Seq<char>, u64)>, id: Seq<char>) -> u64
    decreases s.len(),
{
    if s.len() == 0 {
        0
    } else if s.last().0 == id {
        s.last().1
    } else {
        bal_of(s.drop_last(), id)
    }
}

/// No identity appears twice.
pub open spec fn unique_ids(s: Seq<(Seq<char>, u64)>) -> bool {
    forall|i: int, j: int| 0 <= i < j < s.len() ==> s[i].0 != s[j].0
}

/// A validator is an identity whose staked balance is strictly positive.
pub open spec fn is_validator(s: Seq<(Seq<char>, u64)>, id: Seq<char>) -> bool {
    bal_of(s, id) > 0
}

proof fn lemma_has_entry_index(s: Seq<(Seq<char>, u64)>, id: Seq<char>)
    ensures
        has_entry(s, id) <==> exists|k: int| 0 <= k < s.len() && s[k].0 == id,
    decreases s.len(),
{
    if s.len() > 0 {
        lemma_has_entry_index(s.drop_last(), id);
        if s.last().0 == id {
            assert(s[s.len() - 1].0 == id);
        } else if exists|k: int| 0 <= k < s.len() && s[k].0 == id {
            let k = choose|k: int| 0 <= k < s.len() && s[k].0 == id;
            assert(s.drop_last()[k].0 == id);
        }
    }
}

proof fn lemma_bal_at_index(s: Seq<(Seq<char>, u64)>, i: int)
    requires
        unique_ids(s),
        0 <= i < s.len(),
    ensures
        bal_of(s, s[i].0) == s[i].1,
        has_entry(s, s[i].0),
    decreases s.len(),
{
    if i == s.len() - 1 {
    } else {
        assert(s.drop_last()[i] == s[i]);
        lemma_bal_at_index(s.drop_last(), i);
    }
}

proof fn lemma_bal_absent(s: Seq<(Seq<char>, u64)>, id: Seq<char>)
    requires
        !has_entry(s, id),
    ensures
        bal_of(s, id) == 0,
    decreases s.len(),
{
    if s.len() > 0 {
        lemma_bal_absent(s.drop_last(), id);
    }
}

proof fn lemma_entry_le_sum(s: Seq<(Seq<char>, u64)>, i: int)
    requires
        0 <= i < s.len(),
        forall|k: int, j: int| 0 <= k < j < s.len() ==> s[k].0 != s[j].0,
    ensures
        s[i].1 <= sum_balances(s),
        sum_balances(s) >= 0,
    decreases s.len(),
{
    lemma_sum_nonneg(s);
    if i == s.len() - 1 {
        lemma_sum_nonneg(s.drop_last());
    } else {
        assert(s.drop_last()[i] == s[i]);
        lemma_entry_le_sum(s.drop_last(), i);
    }
}

proof fn lemma_sum_nonneg(s: Seq<(Seq<char>, u64)>)
    ensures
        sum_balances(s) >= 0,
    decreases s.len(),
{
    if s.len() > 0 {
        lemma_sum_nonneg(s.drop_last());
    }
}

proof fn lemma_update(s: Seq<(Seq<char>, u64)>, i: int, v: u64)
    requires
        unique_ids(s),
        0 <= i < s.len(),
    ensures
        sum_balances(s.update(i, (s[i].0, v))) == sum_balances(s) - s[i].1 + v,
        unique_ids(s.update(i, (s[i].0, v))),
        forall|id: Seq<char>| id != s[i].0 ==> bal_of(s.update(i, (s[i].0, v)), id) == bal_of(
            s,
            id,
        ) && (has_entry(s.update(i, (s[i].0, v)), id) <==> has_entry(s, id)),
    decreases s.len(),
{
    let t = s.update(i, (s[i].0, v));
    assert(forall|k: int| 0 <= k < s.len() && k != i ==> t[k] == s[k]);
    assert(t[i] == (s[i].0, v));
    assert forall|k: int, j: int| 0 <= k < j < t.len() implies t[k].0 != t[j].0 by {
        assert(t[k].0 == s[k].0);
        assert(t[j].0 == s[j].0);
    }
    if i == s.len() - 1 {
        assert(t.drop_last() =~= s.drop_last());
        assert(t.last() == (s[i].0, v));
        assert forall|id: Seq<char>| id != s[i].0 implies bal_of(t, id) == bal_of(s, id) && (
        has_entry(t, id) <==> has_entry(s, id)) by {
            assert(bal_of(t, id) == bal_of(t.drop_last(), id));
            assert(bal_of(s, id) == bal_of(s.drop_last(), id));
            assert(has_entry(t, id) == has_entry(t.drop_last(), id));
            assert(has_entry(s, id) == has_entry(s.drop_last(), id));
        }
    } else {
        let sd = s.drop_last();
        assert(sd[i] == s[i]);
        assert forall|k: int, j: int| 0 <= k < j < sd.len() implies sd[k].0 != sd[j].0 by {
            assert(sd[k].0 == s[k].0);
            assert(sd[j].0 == s[j].0);
        }
        lemma_update(sd, i, v);
        assert(t.drop_last() =~= sd.update(i, (sd[i].0, v)));
        assert(t.last() == s.last());
        assert forall|id: Seq<char>| id != s[i].0 implies bal_of(t, id) == bal_of(s, id) && (
        has_entry(t, id) <==> has_entry(s, id)) by {
            if s.last().0 != id {
                assert(bal_of(t, id) == bal_of(t.drop_last(), id));
                assert(bal_of(s, id) == bal_of(sd, id));
                assert(has_entry(t, id) == has_entry(t.drop_last(), id));
                assert(has_entry(s, id) == has_entry(sd, id));
            }
        }
    }
}

proof fn lemma_push(s: Seq<(Seq<char>, u64)>, id: Seq<char>, v: u64)
    requires
        unique_ids(s),
        !has_entry(s, id),
    ensures
        sum_balances(s.push((id, v))) == sum_balances(s) + v,
        unique_ids(s.push((id, v))),
        bal_of(s.push((id, v)), id) == v,
        has_entry(s.push((id, v)), id),
        forall|id2: Seq<char>| id2 != id ==> bal_of(s.push((id, v)), id2) == bal_of(s, id2) && (
        has_entry(s.push((id, v)), id2) <==> has_entry(s, id2)),
{
    let t = s.push((id, v));
    assert(t.drop_last() =~= s);
    assert(t.last() == (id, v));
    lemma_has_entry_index(s, id);
}

impl StakingState {
    /// The table as a mathematical sequence of identity/amount pairs.
    pub open spec fn entries(&self) -> Seq<(Seq<char>, u64)> {
        Seq::new(
            self.staked_balances@.len(),
            |i: int| (self.staked_balances@[i].0@, self.staked_balances@[i].1),
        )
    }

    /// The balance recorded for `id`, zero when it has no entry.
    pub open spec fn bal(&self, id: Seq<char>) -> u64 {
        bal_of(self.entries(), id)
    }

    /// Whether the table holds an entry for `id`.
    pub open spec fn has(&self, id: Seq<char>) -> bool {
        has_entry(self.entries(), id)
    }

    /// Well-formed: one entry per identity, and the running total equals the
    /// sum of all balances.
    pub open spec fn wf(&self) -> bool {
        &&& unique_ids(self.entries())
        &&& sum_balances(self.entries()) == self.total_staked
    }

    /// An empty ledger: no balances, nothing staked.
    pub fn new() -> (r: Self)
        ensures
            r.wf(),
            r.entries() == Seq::<(Seq<char>, u64)>::empty(),
            r.total_staked == 0,
    {
        let r = StakingState { staked_balances: Vec::new(), total_staked: 0 };
        assert(r.entries() =~= Seq::<(Seq<char>, u64)>::empty());
        r
    }

    /// Adds `amount` to the identity's balance, creating the entry when
    /// absent, and raises the total by the same amount.
    #[verifier::loop_isolation(false)]
    pub fn stake(&mut self, wallet: String, amount: u64)
        requires
            old(self).wf(),
            old(self).total_staked + amount <= u64::MAX,
        ensures
            final(self).wf(),
            final(self).total_staked == old(self).total_staked + amount,
            final(self).bal(wallet@) == old(self).bal(wallet@) + amount,
            final(self).has(wallet@),
            forall|id: Seq<char>|
                id != wallet@ ==> final(self).bal(id) == old(self).bal(id) && (final(self).has(id)
                    <==> old(self).has(id)),
    {
        let ghost s = self.entries();
        let n = self.staked_balances.len();
        let mut i: usize = 0;
        while i < n
            invariant
                n == self.staked_balances.len(),
                i <= n,
                forall|k: int| 0 <= k < i ==> self.entries()[k].0 != wallet@,
                *self == *old(self),
            decreases n - i,
        {
            if self.staked_balances[i].0 == wallet {
                proof {
                    lemma_bal_at_index(s, i as int);
                    lemma_entry_le_sum(s, i as int);
                }
                let b = self.staked_balances[i].1;
                let updated = (wallet, b + amount);
                self.staked_balances.set(i, updated);
                self.total_staked = self.total_staked + amount;
                proof {
                    lemma_update(s, i as int, (b + amount) as u64);
                    assert(self.entries() =~= s.update(i as int, (s[i as int].0, (b
                        + amount) as u64)));
                    lemma_bal_at_index(self.entries(), i as int);
                }
                return ;
            }
            i = i + 1;
        }
        proof {
            lemma_has_entry_index(s, wallet@);
            lemma_bal_absent(s, wallet@);
            lemma_sum_nonneg(s);
            lemma_push(s, wallet@, amount);
        }
        self.staked_balances.push((wallet, amount));
        self.total_staked = self.total_staked + amount;
        proof {
            assert(self.entries() =~= s.push((wallet@, amount)));
        }
    }

    /// Removes `amount` from the identity's balance when it is covered;
    /// returns `false` and changes nothing when the identity is unknown or
    /// its balance is too small. The entry stays listed even at balance
    /// zero; the validator set, being derived, drops it.
    #[verifier::loop_isolation(false)]
    pub fn unstake(&mut self, wallet: String, amount: u64) -> (r: bool)
        requires
            old(self).wf(),
        ensures
            final(self).wf(),
            r == (old(self).has(wallet@) && old(self).bal(wallet@) >= amount),
            r ==> final(self).total_staked == old(self).total_staked - amount && final(self).bal(
                wallet@,
            ) == old(self).bal(wallet@) - amount && final(self).has(wallet@),
            r ==> forall|id: Seq<char>|
                id != wallet@ ==> final(self).bal(id) == old(self).bal(id) && (final(self).has(id)
                    <==> old(self).has(id)),
            !r ==> *final(self) == *old(self),
    {
        let ghost s = self.entries();
        let n = self.staked_balances.len();
        let mut i: usize = 0;
        while i < n
            invariant
                n == self.staked_balances.len(),
                i <= n,
                forall|k: int| 0 <= k < i ==> self.entries()[k].0 != wallet@,
                *self == *old(self),
            decreases n - i,
        {
            if self.staked_balances[i].0 == wallet {
                proof {
                    lemma_bal_at_index(s, i as int);
                    lemma_entry_le_sum(s, i as int);
                }
                let b = self.staked_balances[i].1;
                if b >= amount {
                    let updated = (wallet, b - amount);
                    self.staked_balances.set(i, updated);
                    self.total_staked = self.total_staked - amount;
                    proof {
                        lemma_update(s, i as int, (b - amount) as u64);
                        assert(self.entries() =~= s.update(i as int, (s[i as int].0, (b
                            - amount) as u64)));
                        lemma_bal_at_index(self.entries(), i as int);
                    }
                    return true;
                } else {
                    return false;
                }
            }
            i = i + 1;
        }
        proof {
            lemma_has_entry_index(s, wallet@);
        }
        false
    }

    /// The reward owed right now: a twentieth of the staked balance — the
    /// five-percent rate, truncated to a whole amount. A point-in-time
    /// function of the balance; no time dimension is tracked.
    #[verifier::loop_isolation(false)]
    pub fn get_rewards(&self, wallet: &String) -> (r: u64)
        requires
            self.wf(),
        ensures
            r == self.bal(wallet@) / 20,
    {
        let ghost s = self.entries();
        let n = self.staked_balances.len();
        let mut i: usize = 0;
        while i < n
            invariant
                n == self.staked_balances.len(),
                i <= n,
                forall|k: int| 0 <= k < i ==> self.entries()[k].0 != wallet@,
            decreases n - i,
        {
            if self.staked_balances[i].0 == *wallet {
                proof {
                    lemma_bal_at_index(s, i as int);
                }
                return self.staked_balances[i].1 / 20;
            }
            i = i + 1;
        }
        proof {
            lemma_has_entry_index(s, wallet@);
            lemma_bal_absent(s, wallet@);
        }
        0
    }

    /// The validator set, derived from the balances: exactly the identities
    /// staking a strictly positive amount, each once.
    #[verifier::loop_isolation(false)]
    #[verifier::rlimit(100)]
    pub fn validators(&self) -> (r: Vec<String>)
        requires
            self.wf(),
        ensures
            forall|m: int| 0 <= m < r@.len() ==> is_validator(self.entries(), #[trigger] r@[m]@),
            forall|id: Seq<char>|
                is_validator(self.entries(), id) ==> exists|m: int|
                    0 <= m < r@.len() && r@[m]@ == id,
            forall|m1: int, m2: int| 0 <= m1 < m2 < r@.len() ==> r@[m1]@ != r@[m2]@,
    {
        let ghost s = self.entries();
        let mut r: Vec<String> = Vec::new();
        let n = self.staked_balances.len();
        let mut i: usize = 0;
        while i < n
            invariant
                n == self.staked_balances.len(),
                s == self.entries(),
                self.wf(),
                i <= n,
                forall|m: int| 0 <= m < r@.len() ==> exists|k: int|
                    0 <= k < i && s[k].0 == #[trigger] r@[m]@ && s[k].1 > 0,
                forall|k: int| 0 <= k < i && s[k].1 > 0 ==> exists|m: int|
                    0 <= m < r@.len() && r@[m]@ == #[trigger] s[k].0,
                forall|m1: int, m2: int| 0 <= m1 < m2 < r@.len() ==> r@[m1]@ != r@[m2]@,
            decreases n - i,
        {
            if self.staked_balances[i].1 > 0 {
                let id = self.staked_balances[i].0.clone();
                let ghost r0 = r@;
                proof {
                    assert(id@ == s[i as int].0);
                    assert forall|m: int| 0 <= m < r@.len() implies r@[m]@ != id@ by {
                        let k = choose|k: int|
                            0 <= k < i && s[k].0 == r@[m]@ && s[k].1 > 0;
                        assert(s[k].0 != s[i as int].0);
                    }
                }
                r.push(id);
                proof {
                    assert(r@ == r0.push(id));
                    assert forall|k: int| 0 <= k < i + 1 && s[k].1 > 0 implies exists|m: int|
                        0 <= m < r@.len() && r@[m]@ == #[trigger] s[k].0 by {
                        if k == i {
                            assert(r@[r@.len() - 1]@ == s[k].0);
                        } else {
                            let m = choose|m: int| 0 <= m < r0.len() && r0[m]@ == s[k].0;
                            assert(r@[m]@ == s[k].0);
                        }
                    }
                    assert forall|m: int| 0 <= m < r@.len() implies exists|k: int|
                        0 <= k < i + 1 && s[k].0 == #[trigger] r@[m]@ && s[k].1 > 0 by {
                        if m == r@.len() - 1 {
                            assert(s[i as int].0 == r@[m]@ && s[i as int].1 > 0);
                        } else {
                            assert(r@[m]@ == r0[m]@);
                            let k = choose|k: int|
                                0 <= k < i && s[k].0 == r0[m]@ && s[k].1 > 0;
                            assert(s[k].0 == r@[m]@ && s[k].1 > 0);
                        }
                    }
                }
            } else {
                proof {
                    assert forall|m: int| 0 <= m < r@.len() implies exists|k: int|
                        0 <= k < i + 1 && s[k].0 == #[trigger] r@[m]@ && s[k].1 > 0 by {
                        let k = choose|k: int| 0 <= k < i && s[k].0 == r@[m]@ && s[k].1 > 0;
                        assert(0 <= k < i + 1 && s[k].0 == r@[m]@ && s[k].1 > 0);
                    }
                }
            }
            i = i + 1;
        }
        proof {
            assert forall|m: int| 0 <= m < r@.len() implies is_validator(s, r@[m]@) by {
                let k = choose|k: int| 0 <= k < n && s[k].0 == r@[m]@ && s[k].1 > 0;
                lemma_bal_at_index(s, k);
            }
            assert forall|id: Seq<char>| is_validator(s, id) implies exists|m: int|
                0 <= m < r@.len() && r@[m]@ == id by {
                lemma_has_entry_index(s, id);
                if !has_entry(s, id) {
                    lemma_bal_absent(s, id);
                }
                let k = choose|k: int| 0 <= k < s.len() && s[k].0 == id;
                lemma_bal_at_index(s, k);
            }
        }
        r
    }
}

} // verus!
