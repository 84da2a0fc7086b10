//! The currency ledger the marketplace settles against: per-account
//! balances and an existential minimum every payer must retain.

use vstd::prelude::*;
use crate::errors::Error;
use crate::kvlist::{
    keys_unique, lemma_map_of_absent, lemma_map_of_index, lemma_map_of_push, lemma_map_of_update,
    map_of,
};

verus! {

/// Per-account balances, with the minimum balance an account must retain
/// to stay active. Accounts never named hold zero.
pub struct CurrencyLedger {
    balances: Vec<(u64, u64)>,
    min_balance: u64,
}

impl CurrencyLedger {
    /// The ledger's bookkeeping is sound: one entry per account.
    pub closed spec fn wf(self) -> bool {
        keys_unique(self.balances@)
    }

    /// What an account holds; zero for accounts never credited.
    pub closed spec fn balance(self, a: u64) -> u64 {
        if map_of(self.balances@).contains_key(a) {
            map_of(self.balances@)[a]
        } else {
            0
        }
    }

    /// The smallest balance a payer must retain to remain active.
    pub closed spec fn min_balance_spec(self) -> u64 {
        self.min_balance
    }

    /// An empty ledger with the given existential minimum.
    pub fn new(min_balance: u64) -> (c: CurrencyLedger)
        ensures
            c.wf(),
            c.min_balance_spec() == min_balance,
            forall|a: u64| c.balance(a) == 0,
    {
        let c = CurrencyLedger { balances: Vec::new(), min_balance };
        proof {
            assert forall|a: u64| c.balance(a) == 0 by {
                lemma_map_of_absent(c.balances@, a);
            }
        }
        c
    }

    /// The configured existential minimum.
    pub fn min_balance(&self) -> (r: u64)
        ensures
            r == self.min_balance_spec(),
    {
        self.min_balance
    }

    /// What an account holds.
    pub fn balance_of(&self, a: u64) -> (r: u64)
        requires
            self.wf(),
        ensures
            r == self.balance(a),
    {
        let n = self.balances.len();
        let mut i: usize = 0;
        while i < n
            invariant
                self.wf(),
                i <= n,
                n == self.balances@.len(),
                forall|j: int| 0 <= j < i ==> (#[trigger] self.balances@[j]).0 != a,
            decreases n - i,
        {
            if self.balances[i].0 == a {
                proof {
                    lemma_map_of_index(self.balances@, i as int);
                }
                return self.balances[i].1;
            }
            i = i + 1;
        }
        proof {
            lemma_map_of_absent(self.balances@, a);
        }
        0
    }

    /// Index of the entry for `a`, appending a zero entry when none exists.
    /// No balance changes.
    fn ensure_entry(&mut self, a: u64) -> (i: usize)
        requires
            old(self).wf(),
        ensures
            final(self).wf(),
            final(self).min_balance_spec() == old(self).min_balance_spec(),
            i < final(self).balances@.len(),
            final(self).balances@[i as int].0 == a,
            final(self).balances@[i as int].1 == old(self).balance(a),
            forall|x: u64| final(self).balance(x) == old(self).balance(x),
    {
        let n = self.balances.len();
        let mut i: usize = 0;
        while i < n
            invariant
                self.wf(),
                i <= n,
                n == self.balances@.len(),
                *self == *old(self),
                forall|j: int| 0 <= j < i ==> (#[trigger] self.balances@[j]).0 != a,
            decreases n - i,
        {
            if self.balances[i].0 == a {
                proof {
                    lemma_map_of_index(self.balances@, i as int);
                }
                return i;
            }
            i = i + 1;
        }
        proof {
            lemma_map_of_absent(self.balances@, a);
        }
        let ghost pre = *self;
        self.balances.push((a, 0));
        proof {
            lemma_map_of_push(pre.balances@, a, 0u64);
            assert(keys_unique(self.balances@)) by {
                assert(forall|j: int|
                    0 <= j < pre.balances@.len() ==> self.balances@[j] == pre.balances@[j]);
            }
            assert forall|x: u64| self.balance(x) == pre.balance(x) by {
                if x != a {
                } else {
                }
            }
        }
        n
    }

    /// Sets the entry at `i` to `v`, so that account's balance becomes `v`
    /// and no other account moves.
    fn write_entry(&mut self, i: usize, v: u64)
        requires
            old(self).wf(),
            i < old(self).balances@.len(),
        ensures
            final(self).wf(),
            final(self).min_balance_spec() == old(self).min_balance_spec(),
            final(self).balance(old(self).balances@[i as int].0) == v,
            forall|x: u64|
                x != old(self).balances@[i as int].0 ==> final(self).balance(x) == old(
                    self,
                ).balance(x),
    {
        let ghost pre = *self;
        let ghost a = pre.balances@[i as int].0;
        let entry = &mut self.balances[i];
        entry.1 = v;
        proof {
            assert(self.balances@ == pre.balances@.update(i as int, (a, v)));
            lemma_map_of_update(pre.balances@, i as int, v);
            assert(keys_unique(self.balances@)) by {
                assert(forall|j: int|
                    0 <= j < pre.balances@.len() ==> (#[trigger] self.balances@[j]).0
                        == pre.balances@[j].0);
            }
            lemma_map_of_index(self.balances@, i as int);
        }
    }

    /// Credits an account, rejecting a credit that would leave the
    /// representable range. No other account moves.
    pub fn deposit(&mut self, a: u64, amount: u64) -> (r: Result<(), Error>)
        requires
            old(self).wf(),
        ensures
            final(self).wf(),
            final(self).min_balance_spec() == old(self).min_balance_spec(),
            match r {
                Ok(()) => old(self).balance(a) + amount <= u64::MAX && final(self).balance(a)
                    == old(self).balance(a) + amount && forall|x: u64|
                    x != a ==> final(self).balance(x) == old(self).balance(x),
                Err(e) => *final(self) == *old(self) && e == Error::Overflow && old(self).balance(
                    a,
                ) + amount > u64::MAX,
            },
    {
        let b = self.balance_of(a);
        if b > u64::MAX - amount {
            return Err(Error::Overflow);
        }
        let i = self.ensure_entry(a);
        self.write_entry(i, b + amount);
        Ok(())
    }

    /// Moves `amount` from `from` to `to`, failing unless the payer can
    /// cover it while retaining the existential minimum, and failing when
    /// the credit would leave the representable range. All-or-nothing: a
    /// rejected transfer moves no money at all.
    pub fn transfer(&mut self, from: u64, to: u64, amount: u64) -> (r: Result<(), Error>)
        requires
            old(self).wf(),
        ensures
            final(self).wf(),
            final(self).min_balance_spec() == old(self).min_balance_spec(),
            match r {
                Ok(()) => old(self).balance(from) >= amount + old(self).min_balance_spec() && (from
                    != to ==> old(self).balance(to) + amount <= u64::MAX && final(self).balance(
                    from,
                ) == old(self).balance(from) - amount && final(self).balance(to) == old(
                    self,
                ).balance(to) + amount) && (from == to ==> *final(self) == *old(self)) && (forall|
                    x: u64,
                |
                    x != from && x != to ==> final(self).balance(x) == old(self).balance(x)),
                Err(e) => *final(self) == *old(self) && (e == Error::InsufficientFunds || e
                    == Error::Overflow) && (e == Error::InsufficientFunds <==> old(self).balance(
                    from,
                ) < amount + old(self).min_balance_spec()) && (e == Error::Overflow <==> old(
                    self,
                ).balance(from) >= amount + old(self).min_balance_spec() && from != to && old(
                    self,
                ).balance(to) + amount > u64::MAX),
            },
    {
        let bf = self.balance_of(from);
        if bf < self.min_balance || bf - self.min_balance < amount {
            return Err(Error::InsufficientFunds);
        }
        if from == to {
            return Ok(());
        }
        let bt = self.balance_of(to);
        if bt > u64::MAX - amount {
            return Err(Error::Overflow);
        }
        let ti = self.ensure_entry(to);
        self.write_entry(ti, bt + amount);
        let fi = self.ensure_entry(from);
        self.write_entry(fi, bf - amount);
        Ok(())
    }
}

} // verus!
