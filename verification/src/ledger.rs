//! The asset ledger: the store of kitties, the per-account ownership
//! index and the asset counter, with every operation an atomic
//! validate-then-commit transaction.
//!
//! The invariant `wf` ties the three structures together: asset ids are
//! unique and never reused, an asset's `owner` field and the ownership
//! index agree, no account holds more than the configured maximum, and
//! the counter equals both the number of stored assets and the total
//! length of all owned lists.

use vstd::prelude::*;
use vstd::seq_lib::group_seq_properties;
use crate::dna::{
    gen_dna, gen_gender, gender_of_byte, mint_id, mint_payload, dna_payload, recombine_dna,
    recombined, Gender,
};
use crate::errors::Error;
use crate::hash::blake2_128_of;
use crate::currency::CurrencyLedger;
use crate::kvlist::{
    keys_unique, lemma_map_of_absent, lemma_map_of_contains, lemma_map_of_index, lemma_map_of_len,
    lemma_map_of_push, lemma_map_of_update, map_of,
};

verus! {

/// One unique digital asset.
#[derive(Clone, Copy, Debug)]
pub struct Kitty {
    /// Genetic material; immutable after creation.
    pub dna: u128,
    /// Listed sale price; `None` means not for sale.
    pub price: Option<u64>,
    /// Sex; immutable after creation.
    pub gender: Gender,
    /// Current owner; changed only by a transfer.
    pub owner: u64,
}

/// Total number of ids across all owned lists.
pub open spec fn sum_lens(s: Seq<(u64, Vec<u128>)>) -> nat
    decreases s.len(),
{
    if s.len() == 0 {
        0
    } else {
        sum_lens(s.drop_last()) + s.last().1@.len()
    }
}

proof fn lemma_sum_push(s: Seq<(u64, Vec<u128>)>, p: (u64, Vec<u128>))
    ensures
        sum_lens(s.push(p)) == sum_lens(s) + p.1@.len(),
{
    assert(s.push(p).drop_last() =~= s);
}

proof fn lemma_sum_update(s: Seq<(u64, Vec<u128>)>, i: int, p: (u64, Vec<u128>))
    requires
        0 <= i < s.len(),
    ensures
        sum_lens(s.update(i, p)) + s[i].1@.len() == sum_lens(s) + p.1@.len(),
    decreases s.len(),
{
    let s2 = s.update(i, p);
    if i == s.len() - 1 {
        assert(s2.drop_last() =~= s.drop_last());
        assert(s2.last() == p);
    } else {
        lemma_sum_update(s.drop_last(), i, p);
        assert(s2.drop_last() =~= s.drop_last().update(i, p));
        assert(s2.last() == s.last());
    }
}

/// The asset ledger: counter, asset store and ownership index, plus the
/// deployment's fixed bound on assets per account.
pub struct Ledger {
    count: u64,
    assets: Vec<(u128, Kitty)>,
    owned: Vec<(u64, Vec<u128>)>,
    max_owned: u32,
}

impl Ledger {
    /// The asset store as a map from id to asset.
    pub closed spec fn asset_map(self) -> Map<u128, Kitty> {
        map_of(self.assets@)
    }

    /// The ownership index as a map from account to its list.
    pub closed spec fn owned_map(self) -> Map<u64, Vec<u128>> {
        map_of(self.owned@)
    }

    /// The ids an account owns, in insertion order; empty for an account
    /// that owns nothing.
    pub closed spec fn owned_ids(self, a: u64) -> Seq<u128> {
        if self.owned_map().contains_key(a) {
            self.owned_map()[a]@
        } else {
            Seq::empty()
        }
    }

    /// The asset counter.
    pub closed spec fn total(self) -> u64 {
        self.count
    }

    /// The configured maximum of assets per account.
    pub closed spec fn cap(self) -> u32 {
        self.max_owned
    }

    /// Total length of all owned lists.
    pub closed spec fn owned_total(self) -> nat {
        sum_lens(self.owned@)
    }

    /// `a` is the current owner of asset `id`.
    pub open spec fn owns(self, a: u64, id: u128) -> bool {
        self.asset_map().contains_key(id) && self.asset_map()[id].owner == a
    }

    spec fn list_ok(self, k: int) -> bool
        recommends
            0 <= k < self.owned@.len(),
    {
        let a = self.owned@[k].0;
        let l = self.owned@[k].1@;
        &&& l.len() <= self.max_owned
        &&& (forall|x: int, y: int| 0 <= x < y < l.len() ==> l[x] != l[y])
        &&& (forall|j: int|
            0 <= j < l.len() ==> self.asset_map().contains_key(#[trigger] l[j]) && self.asset_map()[l[j]].owner
                == a)
    }

    spec fn asset_ok(self, i: int) -> bool
        recommends
            0 <= i < self.assets@.len(),
    {
        self.owned_ids(self.assets@[i].1.owner).contains(self.assets@[i].0)
    }

    /// The ledger's invariant, preserved by every operation.
    pub closed spec fn wf(self) -> bool {
        &&& keys_unique(self.assets@)
        &&& keys_unique(self.owned@)
        &&& self.count == self.assets@.len()
        &&& sum_lens(self.owned@) == self.count
        &&& (forall|k: int| 0 <= k < self.owned@.len() ==> #[trigger] self.list_ok(k))
        &&& (forall|i: int| 0 <= i < self.assets@.len() ==> #[trigger] self.asset_ok(i))
    }

    /// An empty ledger with the given per-account bound.
    pub fn new(max_owned: u32) -> (l: Ledger)
        ensures
            l.wf(),
            l.total() == 0,
            l.cap() == max_owned,
            l.asset_map() == Map::<u128, Kitty>::empty(),
            forall|a: u64| l.owned_ids(a) == Seq::<u128>::empty(),
    {
        let l = Ledger { count: 0, assets: Vec::new(), owned: Vec::new(), max_owned };
        proof {
            assert(l.asset_map() =~= Map::<u128, Kitty>::empty());
        }
        l
    }

    /// How many assets exist.
    pub fn all_kitties_count(&self) -> (r: u64)
        ensures
            r == self.total(),
    {
        self.count
    }

    /// The configured per-account bound.
    pub fn max_kitty_owned(&self) -> (r: u32)
        ensures
            r == self.cap(),
    {
        self.max_owned
    }

    fn find_asset(&self, id: u128) -> (r: Option<usize>)
        ensures
            match r {
                Some(i) => i < self.assets@.len() && self.assets@[i as int].0 == id,
                None => forall|j: int|
                    0 <= j < self.assets@.len() ==> (#[trigger] self.assets@[j]).0 != id,
            },
    {
        let n = self.assets.len();
        let mut i: usize = 0;
        while i < n
            invariant
                i <= n,
                n == self.assets@.len(),
                forall|j: int| 0 <= j < i ==> (#[trigger] self.assets@[j]).0 != id,
            decreases n - i,
        {
            if self.assets[i].0 == id {
                return Some(i);
            }
            i = i + 1;
        }
        None
    }

    fn find_owner(&self, a: u64) -> (r: Option<usize>)
        ensures
            match r {
                Some(k) => k < self.owned@.len() && self.owned@[k as int].0 == a,
                None => forall|j: int|
                    0 <= j < self.owned@.len() ==> (#[trigger] self.owned@[j]).0 != a,
            },
    {
        let n = self.owned.len();
        let mut i: usize = 0;
        while i < n
            invariant
                i <= n,
                n == self.owned@.len(),
                forall|j: int| 0 <= j < i ==> (#[trigger] self.owned@[j]).0 != a,
            decreases n - i,
        {
            if self.owned[i].0 == a {
                return Some(i);
            }
            i = i + 1;
        }
        None
    }

    /// The asset under `id`, if any.
    pub fn kitties(&self, id: u128) -> (r: Option<Kitty>)
        requires
            self.wf(),
        ensures
            match r {
                Some(k) => self.asset_map().contains_key(id) && k == self.asset_map()[id],
                None => !self.asset_map().contains_key(id),
            },
    {
        match self.find_asset(id) {
            Some(i) => {
                proof {
                    lemma_map_of_index(self.assets@, i as int);
                }
                Some(self.assets[i].1)
            },
            None => {
                proof {
                    lemma_map_of_absent(self.assets@, id);
                }
                None
            },
        }
    }

    /// The ids an account owns, in insertion order.
    pub fn kitties_owned(&self, a: u64) -> (r: Vec<u128>)
        requires
            self.wf(),
        ensures
            r@ == self.owned_ids(a),
    {
        match self.find_owner(a) {
            Some(k) => {
                proof {
                    lemma_map_of_index(self.owned@, k as int);
                }
                let n = self.owned[k].1.len();
                let mut out: Vec<u128> = Vec::new();
                let mut j: usize = 0;
                while j < n
                    invariant
                        j <= n,
                        k < self.owned@.len(),
                        n == self.owned@[k as int].1@.len(),
                        out@ == self.owned@[k as int].1@.subrange(0, j as int),
                    decreases n - j,
                {
                    out.push(self.owned[k].1[j]);
                    j = j + 1;
                    proof {
                        assert(out@ =~= self.owned@[k as int].1@.subrange(0, j as int));
                    }
                }
                proof {
                    assert(out@ =~= self.owned@[k as int].1@);
                }
                out
            },
            None => {
                proof {
                    lemma_map_of_absent(self.owned@, a);
                }
                Vec::new()
            },
        }
    }

    /// What a committed or rejected mint leaves behind. On success the
    /// returned id is the hash of the new asset's payload, was not in the
    /// store before, and the asset enters the store, the owner's list and
    /// the counter together; on rejection nothing changes and the error
    /// tells exactly which validation failed.
    pub open spec fn mint_ensures(
        pre: Ledger,
        owner: u64,
        dna: u128,
        gender: Gender,
        seq: u64,
        post: Ledger,
        r: Result<u128, Error>,
    ) -> bool {
        let id = blake2_128_of(mint_payload(gender, dna, owner, seq));
        let kit = Kitty { dna, price: None, gender, owner };
        match r {
            Ok(out) => out == id && !pre.asset_map().contains_key(id) && pre.owned_ids(owner).len()
                < pre.cap() && pre.total() < u64::MAX && post.asset_map() == pre.asset_map().insert(
                id,
                kit,
            ) && post.owned_ids(owner) == pre.owned_ids(owner).push(id) && (forall|a: u64|
                a != owner ==> post.owned_ids(a) == pre.owned_ids(a)) && post.total() == pre.total()
                + 1,
            Err(e) => post == pre && (e == Error::AssetIdExists || e == Error::ExceedMaxOwned || e
                == Error::Overflow) && (e == Error::AssetIdExists <==> pre.asset_map().contains_key(
                id,
            )) && (e == Error::ExceedMaxOwned <==> !pre.asset_map().contains_key(id)
                && pre.owned_ids(owner).len() >= pre.cap()) && (e == Error::Overflow
                <==> !pre.asset_map().contains_key(id) && pre.owned_ids(owner).len() < pre.cap()
                && pre.total() == u64::MAX),
        }
    }

    /// Mints a new asset for `owner`: computes the id from gender, dna,
    /// owner and the current sequence number, and commits the store
    /// insertion, the index registration and the counter increment
    /// together or not at all.
    pub fn mint(&mut self, owner: u64, dna: u128, gender: Gender, seq: u64) -> (r: Result<
        u128,
        Error,
    >)
        requires
            old(self).wf(),
        ensures
            final(self).wf(),
            final(self).cap() == old(self).cap(),
            Ledger::mint_ensures(*old(self), owner, dna, gender, seq, *final(self), r),
    {
        broadcast use group_seq_properties;

        let id = mint_id(gender, dna, owner, seq);
        match self.find_asset(id) {
            Some(i) => {
                proof {
                    lemma_map_of_index(self.assets@, i as int);
                }
                return Err(Error::AssetIdExists);
            },
            None => {},
        }
        proof {
            lemma_map_of_absent(self.assets@, id);
        }
        let ko = self.find_owner(owner);
        let cur_len: usize = match ko {
            Some(k) => {
                proof {
                    lemma_map_of_index(self.owned@, k as int);
                }
                self.owned[k].1.len()
            },
            None => {
                proof {
                    lemma_map_of_absent(self.owned@, owner);
                }
                0
            },
        };
        proof {
            assert(cur_len == self.owned_ids(owner).len());
        }
        if cur_len >= self.max_owned as usize {
            return Err(Error::ExceedMaxOwned);
        }
        if self.count == u64::MAX {
            return Err(Error::Overflow);
        }
        let ghost pre = *self;
        let kit = Kitty { dna, price: None, gender, owner };
        self.assets.push((id, kit));
        proof {
            lemma_map_of_push(pre.assets@, id, kit);
            assert(forall|j: int|
                0 <= j < pre.assets@.len() ==> self.assets@[j] == pre.assets@[j]);
            assert(keys_unique(self.assets@));
            // No old list mentions the fresh id.
            assert forall|k2: int, j: int|
                0 <= k2 < pre.owned@.len() && 0 <= j < pre.owned@[k2].1@.len() implies pre.owned@[k2].1@[j]
                != id by {
                assert(pre.list_ok(k2));
            }
        }
        match ko {
            Some(k) => {
                let entry = &mut self.owned[k];
                entry.1.push(id);
                proof {
                    assert(self.owned@[k as int].0 == owner);
                    assert(self.owned@[k as int].1@ == pre.owned@[k as int].1@.push(id));
                    assert(self.owned@ == pre.owned@.update(k as int, self.owned@[k as int]));
                    lemma_map_of_index(pre.owned@, k as int);
                    lemma_map_of_update(pre.owned@, k as int, self.owned@[k as int].1);
                    lemma_sum_update(pre.owned@, k as int, self.owned@[k as int]);
                    assert(forall|j: int|
                        0 <= j < pre.owned@.len() ==> (#[trigger] self.owned@[j]).0
                            == pre.owned@[j].0);
                    assert(keys_unique(self.owned@));
                    assert(self.owned_ids(owner) == pre.owned_ids(owner).push(id));
                    assert(forall|a: u64|
                        a != owner ==> #[trigger] self.owned_ids(a) == pre.owned_ids(a));
                }
            },
            None => {
                let mut nl: Vec<u128> = Vec::new();
                nl.push(id);
                self.owned.push((owner, nl));
                proof {
                    let ghost np = self.owned@[pre.owned@.len() as int];
                    assert(np.0 == owner && np.1@ =~= seq![id]);
                    assert(self.owned@ == pre.owned@.push(np));
                    lemma_map_of_push(pre.owned@, owner, np.1);
                    lemma_sum_push(pre.owned@, np);
                    assert(forall|j: int|
                        0 <= j < pre.owned@.len() ==> self.owned@[j] == pre.owned@[j]);
                    assert(keys_unique(self.owned@));
                    assert(self.owned_ids(owner) =~= pre.owned_ids(owner).push(id));
                    assert(forall|a: u64|
                        a != owner ==> #[trigger] self.owned_ids(a) == pre.owned_ids(a));
                }
            },
        }
        self.count = self.count + 1;
        proof {
            self.lemma_mint_commit_wf(pre, owner, id, kit);
        }
        Ok(id)
    }

    /// After a mint commit the invariant holds again.
    proof fn lemma_mint_commit_wf(self, pre: Ledger, owner: u64, id: u128, kit: Kitty)
        requires
            pre.wf(),
            kit.owner == owner,
            !pre.asset_map().contains_key(id),
            pre.owned_ids(owner).len() < pre.cap(),
            self.count == pre.count + 1,
            self.max_owned == pre.max_owned,
            self.assets@ == pre.assets@.push((id, kit)),
            keys_unique(self.assets@),
            keys_unique(self.owned@),
            self.asset_map() == pre.asset_map().insert(id, kit),
            sum_lens(self.owned@) == sum_lens(pre.owned@) + 1,
            self.owned_ids(owner) == pre.owned_ids(owner).push(id),
            forall|a: u64| a != owner ==> #[trigger] self.owned_ids(a) == pre.owned_ids(a),
        ensures
            self.wf(),
    {
        broadcast use group_seq_properties;

        pre.lemma_owned_lists_facts();
        // The new index agrees with `owned_ids` entry by entry.
        assert forall|k: int| 0 <= k < self.owned@.len() implies #[trigger] self.list_ok(k) by {
            lemma_map_of_index(self.owned@, k);
            let a = self.owned@[k].0;
            let l = self.owned@[k].1@;
            assert(l == self.owned_ids(a));
            if a == owner {
                assert(l == pre.owned_ids(owner).push(id));
                if pre.owned_ids(owner).len() > 0 {
                    assert(pre.owned_list_facts(owner));
                }
                assert forall|j: int| 0 <= j < l.len() implies self.asset_map().contains_key(
                    #[trigger] l[j],
                ) && self.asset_map()[l[j]].owner == a by {
                    if j < l.len() - 1 {
                        assert(l[j] == pre.owned_ids(owner)[j]);
                        assert(pre.asset_map().contains_key(l[j]));
                        assert(l[j] != id);
                    } else {
                        assert(l[j] == id);
                    }
                }
                assert(forall|x: int, y: int| 0 <= x < y < l.len() ==> l[x] != l[y]);
                assert(l.len() <= self.max_owned);
            } else {
                assert(l == pre.owned_ids(a));
                if pre.owned_ids(a).len() > 0 {
                    assert(pre.owned_list_facts(a));
                    assert forall|j: int| 0 <= j < l.len() implies self.asset_map().contains_key(
                        #[trigger] l[j],
                    ) && self.asset_map()[l[j]].owner == a by {
                        assert(pre.asset_map().contains_key(l[j]));
                        assert(l[j] != id);
                    }
                }
                assert(l.len() <= self.max_owned);
            }
        }
        // Every asset, old or new, is in its owner's list.
        assert forall|i: int| 0 <= i < self.assets@.len() implies #[trigger] self.asset_ok(i) by {
            if i < pre.assets@.len() {
                assert(pre.asset_ok(i));
                let b = pre.assets@[i].1.owner;
                if b == owner {
                    assert(self.owned_ids(owner) == pre.owned_ids(owner).push(id));
                    assert(self.owned_ids(b).contains(pre.assets@[i].0));
                }
            } else {
                assert(self.assets@[i] == (id, kit));
                assert(self.owned_ids(owner)[self.owned_ids(owner).len() - 1] == id);
                assert(self.owned_ids(owner).contains(id));
            }
        }
    }

    /// What the invariant gives for one account's non-empty list: its ids
    /// are distinct, within the bound, and owned by that account.
    spec fn owned_list_facts(self, a: u64) -> bool {
        let l = self.owned_ids(a);
        &&& l.len() <= self.max_owned
        &&& (forall|x: int, y: int| 0 <= x < y < l.len() ==> l[x] != l[y])
        &&& (forall|j: int|
            0 <= j < l.len() ==> self.asset_map().contains_key(#[trigger] l[j]) && self.asset_map()[l[j]].owner
                == a)
    }

    proof fn lemma_owned_lists_facts(self)
        requires
            self.wf(),
        ensures
            forall|a: u64| #[trigger] self.owned_ids(a).len() > 0 ==> self.owned_list_facts(a),
    {
        assert forall|a: u64| #[trigger]
            self.owned_ids(a).len() > 0 implies self.owned_list_facts(a) by {
            lemma_map_of_contains(self.owned@, a);
            let k = choose|k: int| 0 <= k < self.owned@.len() && (#[trigger] self.owned@[k]).0 == a;
            lemma_map_of_index(self.owned@, k);
            assert(self.list_ok(k));
        }
    }

    /// What a committed or rejected price change leaves behind: on success
    /// only the asset's `price` field moves; a caller who does not own the
    /// asset is rejected with `NotOwner` and nothing changes.
    pub open spec fn set_price_ensures(
        pre: Ledger,
        caller: u64,
        id: u128,
        price: Option<u64>,
        post: Ledger,
        r: Result<(), Error>,
    ) -> bool {
        match r {
            Ok(()) => pre.owns(caller, id) && post.asset_map() == pre.asset_map().insert(
                id,
                Kitty {
                    dna: pre.asset_map()[id].dna,
                    price,
                    gender: pre.asset_map()[id].gender,
                    owner: pre.asset_map()[id].owner,
                },
            ) && (forall|a: u64| #[trigger] post.owned_ids(a) == pre.owned_ids(a)) && post.total()
                == pre.total(),
            Err(e) => post == pre && e == Error::NotOwner && !pre.owns(caller, id),
        }
    }

    /// Lists or delists the asset: a `Some` price offers it for sale, a
    /// `None` price delists it. Only the current owner may do either.
    pub fn set_price(&mut self, caller: u64, id: u128, price: Option<u64>) -> (r: Result<
        (),
        Error,
    >)
        requires
            old(self).wf(),
        ensures
            final(self).wf(),
            final(self).cap() == old(self).cap(),
            Ledger::set_price_ensures(*old(self), caller, id, price, *final(self), r),
    {
        let i = match self.find_asset(id) {
            Some(i) => i,
            None => {
                proof {
                    lemma_map_of_absent(self.assets@, id);
                }
                return Err(Error::NotOwner);
            },
        };
        proof {
            lemma_map_of_index(self.assets@, i as int);
        }
        if self.assets[i].1.owner != caller {
            return Err(Error::NotOwner);
        }
        let ghost pre = *self;
        let entry = &mut self.assets[i];
        let kit2 = Kitty { dna: entry.1.dna, price, gender: entry.1.gender, owner: entry.1.owner };
        entry.1 = kit2;
        proof {
            assert(self.assets@ == pre.assets@.update(i as int, (id, kit2)));
            self.lemma_asset_value_update_wf(pre, i as int, id, kit2);
        }
        Ok(())
    }

    /// An update of one asset record that keeps its owner preserves the
    /// invariant and moves only that id's binding.
    proof fn lemma_asset_value_update_wf(self, pre: Ledger, i: int, id: u128, kit2: Kitty)
        requires
            pre.wf(),
            0 <= i < pre.assets@.len(),
            pre.assets@[i].0 == id,
            kit2.owner == pre.assets@[i].1.owner,
            self.count == pre.count,
            self.max_owned == pre.max_owned,
            self.owned@ == pre.owned@,
            self.assets@ == pre.assets@.update(i, (id, kit2)),
        ensures
            self.wf(),
            self.asset_map() == pre.asset_map().insert(id, kit2),
            forall|a: u64| #[trigger] self.owned_ids(a) == pre.owned_ids(a),
    {
        lemma_map_of_index(pre.assets@, i);
        lemma_map_of_update(pre.assets@, i, (pre.assets@[i].0, kit2).1);
        assert(forall|j: int|
            0 <= j < pre.assets@.len() ==> (#[trigger] self.assets@[j]).0 == pre.assets@[j].0);
        assert(keys_unique(self.assets@));
        assert(forall|a: u64| #[trigger] self.owned_ids(a) == pre.owned_ids(a));
        assert forall|k: int| 0 <= k < self.owned@.len() implies #[trigger] self.list_ok(k) by {
            assert(pre.list_ok(k));
            let a = self.owned@[k].0;
            let l = self.owned@[k].1@;
            assert forall|j: int| 0 <= j < l.len() implies self.asset_map().contains_key(
                #[trigger] l[j],
            ) && self.asset_map()[l[j]].owner == a by {
                assert(pre.asset_map().contains_key(l[j]) && pre.asset_map()[l[j]].owner == a);
            }
        }
        assert forall|i2: int| 0 <= i2 < self.assets@.len() implies #[trigger] self.asset_ok(
            i2,
        ) by {
            assert(pre.asset_ok(i2));
            if i2 != i {
                assert(self.assets@[i2] == pre.assets@[i2]);
            }
        }
    }

    /// What a committed or rejected transfer leaves behind. On success the
    /// id leaves the source's list (order of the rest preserved), joins
    /// the end of the destination's list, the record's owner becomes the
    /// destination and its price is cleared; on rejection nothing changes
    /// and the error tells exactly which validation failed.
    pub open spec fn transfer_ensures(
        pre: Ledger,
        from: u64,
        to: u64,
        id: u128,
        post: Ledger,
        r: Result<(), Error>,
    ) -> bool {
        match r {
            Ok(()) => pre.owns(from, id) && from != to && pre.owned_ids(to).len() < pre.cap()
                && post.asset_map() == pre.asset_map().insert(
                id,
                Kitty {
                    dna: pre.asset_map()[id].dna,
                    price: None,
                    gender: pre.asset_map()[id].gender,
                    owner: to,
                },
            ) && (exists|p: int|
                0 <= p < pre.owned_ids(from).len() && pre.owned_ids(from)[p] == id
                    && post.owned_ids(from) == pre.owned_ids(from).remove(p)) && post.owned_ids(to)
                == pre.owned_ids(to).push(id) && (forall|a: u64|
                a != from && a != to ==> #[trigger] post.owned_ids(a) == pre.owned_ids(a))
                && post.total() == pre.total(),
            Err(e) => post == pre && (e == Error::NotOwner || e == Error::TransferToSelf || e
                == Error::ExceedMaxOwned) && (e == Error::NotOwner <==> !pre.owns(from, id)) && (e
                == Error::TransferToSelf <==> pre.owns(from, id) && from == to) && (e
                == Error::ExceedMaxOwned <==> pre.owns(from, id) && from != to && pre.owned_ids(
                to,
            ).len() >= pre.cap()),
        }
    }

    /// Moves an asset between two distinct accounts, updating the record's
    /// owner, both index lists and clearing the listing price, all together
    /// or not at all.
    pub fn transfer(&mut self, from: u64, to: u64, id: u128) -> (r: Result<(), Error>)
        requires
            old(self).wf(),
        ensures
            final(self).wf(),
            final(self).cap() == old(self).cap(),
            Ledger::transfer_ensures(*old(self), from, to, id, *final(self), r),
    {
        broadcast use group_seq_properties;

        let i = match self.find_asset(id) {
            Some(i) => i,
            None => {
                proof {
                    lemma_map_of_absent(self.assets@, id);
                }
                return Err(Error::NotOwner);
            },
        };
        proof {
            lemma_map_of_index(self.assets@, i as int);
        }
        if self.assets[i].1.owner != from {
            return Err(Error::NotOwner);
        }
        if from == to {
            return Err(Error::TransferToSelf);
        }
        let kt_opt = self.find_owner(to);
        let to_len: usize = match kt_opt {
            Some(k) => {
                proof {
                    lemma_map_of_index(self.owned@, k as int);
                }
                self.owned[k].1.len()
            },
            None => {
                proof {
                    lemma_map_of_absent(self.owned@, to);
                }
                0
            },
        };
        proof {
            assert(to_len == self.owned_ids(to).len());
        }
        if to_len >= self.max_owned as usize {
            return Err(Error::ExceedMaxOwned);
        }
        let kf = match self.find_owner(from) {
            Some(k) => k,
            None => {
                proof {
                    assert(self.asset_ok(i as int));
                    lemma_map_of_absent(self.owned@, from);
                    assert(false);
                }
                return Err(Error::NotOwner);
            },
        };
        proof {
            lemma_map_of_index(self.owned@, kf as int);
        }
        let p = match find_in(&self.owned[kf].1, id) {
            Some(p) => p,
            None => {
                proof {
                    assert(self.asset_ok(i as int));
                    assert(false);
                }
                return Err(Error::NotOwner);
            },
        };
        let ghost pre = *self;
        // Asset record: new owner, listing cleared.
        let entry = &mut self.assets[i];
        let kit2 = Kitty { dna: entry.1.dna, price: None, gender: entry.1.gender, owner: to };
        entry.1 = kit2;
        proof {
            assert(self.assets@ == pre.assets@.update(i as int, (id, kit2)));
            lemma_map_of_update(pre.assets@, i as int, kit2);
            assert(forall|j: int|
                0 <= j < pre.assets@.len() ==> (#[trigger] self.assets@[j]).0
                    == pre.assets@[j].0);
            assert(keys_unique(self.assets@));
        }
        // Out of the source's list.
        let ef = &mut self.owned[kf];
        let _ = ef.1.remove(p);
        let ghost s2 = *self;
        proof {
            assert(s2.owned@[kf as int].0 == from);
            assert(s2.owned@[kf as int].1@ == pre.owned@[kf as int].1@.remove(p as int));
            assert(s2.owned@ == pre.owned@.update(kf as int, s2.owned@[kf as int]));
            lemma_map_of_update(pre.owned@, kf as int, s2.owned@[kf as int].1);
            lemma_sum_update(pre.owned@, kf as int, s2.owned@[kf as int]);
            assert(forall|j: int|
                0 <= j < pre.owned@.len() ==> (#[trigger] s2.owned@[j]).0 == pre.owned@[j].0);
            assert(keys_unique(s2.owned@));
            assert(s2.owned_ids(from) == pre.owned_ids(from).remove(p as int));
            assert(forall|a: u64|
                a != from ==> #[trigger] s2.owned_ids(a) == pre.owned_ids(a));
            assert(sum_lens(s2.owned@) + 1 == sum_lens(pre.owned@));
        }
        // Into the destination's list.
        match kt_opt {
            Some(kt) => {
                proof {
                    assert(s2.owned@[kt as int].0 == to);
                    assert(kt != kf);
                    assert(s2.owned@[kt as int] == pre.owned@[kt as int]);
                }
                let et = &mut self.owned[kt];
                et.1.push(id);
                proof {
                    assert(self.owned@[kt as int].0 == to);
                    assert(self.owned@[kt as int].1@ == s2.owned@[kt as int].1@.push(id));
                    assert(self.owned@ == s2.owned@.update(kt as int, self.owned@[kt as int]));
                    lemma_map_of_index(s2.owned@, kt as int);
                    lemma_map_of_update(s2.owned@, kt as int, self.owned@[kt as int].1);
                    lemma_sum_update(s2.owned@, kt as int, self.owned@[kt as int]);
                    assert(forall|j: int|
                        0 <= j < s2.owned@.len() ==> (#[trigger] self.owned@[j]).0
                            == s2.owned@[j].0);
                    assert(keys_unique(self.owned@));
                    assert(self.owned_ids(to) == pre.owned_ids(to).push(id));
                }
            },
            None => {
                let mut nl: Vec<u128> = Vec::new();
                nl.push(id);
                self.owned.push((to, nl));
                proof {
                    let ghost np = self.owned@[s2.owned@.len() as int];
                    assert(np.0 == to && np.1@ =~= seq![id]);
                    assert(self.owned@ == s2.owned@.push(np));
                    lemma_map_of_push(s2.owned@, to, np.1);
                    lemma_sum_push(s2.owned@, np);
                    assert(forall|j: int|
                        0 <= j < s2.owned@.len() ==> self.owned@[j] == s2.owned@[j]);
                    assert(forall|j: int|
                        0 <= j < s2.owned@.len() ==> (#[trigger] s2.owned@[j]).0 != to);
                    assert(keys_unique(self.owned@));
                    lemma_map_of_absent(s2.owned@, to);
                    assert(self.owned_ids(to) =~= pre.owned_ids(to).push(id));
                }
            },
        }
        proof {
            assert(self.owned_ids(from) == pre.owned_ids(from).remove(p as int));
            assert(forall|a: u64|
                a != from && a != to ==> #[trigger] self.owned_ids(a) == pre.owned_ids(a));
            assert(sum_lens(self.owned@) == sum_lens(pre.owned@));
            self.lemma_transfer_commit_wf(pre, from, to, id, kit2, i as int, p as int);
        }
        Ok(())
    }

    /// After a transfer commit the invariant holds again.
    proof fn lemma_transfer_commit_wf(
        self,
        pre: Ledger,
        from: u64,
        to: u64,
        id: u128,
        kit2: Kitty,
        i: int,
        p: int,
    )
        requires
            pre.wf(),
            pre.owns(from, id),
            from != to,
            pre.owned_ids(to).len() < pre.cap(),
            kit2.owner == to,
            0 <= i < pre.assets@.len(),
            pre.assets@[i].0 == id,
            self.count == pre.count,
            self.max_owned == pre.max_owned,
            self.assets@ == pre.assets@.update(i, (id, kit2)),
            keys_unique(self.assets@),
            keys_unique(self.owned@),
            self.asset_map() == pre.asset_map().insert(id, kit2),
            sum_lens(self.owned@) == sum_lens(pre.owned@),
            0 <= p < pre.owned_ids(from).len(),
            pre.owned_ids(from)[p] == id,
            self.owned_ids(from) == pre.owned_ids(from).remove(p),
            self.owned_ids(to) == pre.owned_ids(to).push(id),
            forall|a: u64| a != from && a != to ==> #[trigger] self.owned_ids(a) == pre.owned_ids(a),
        ensures
            self.wf(),
    {
        broadcast use group_seq_properties;

        pre.lemma_owned_lists_facts();
        assert(pre.owned_list_facts(from));
        let pf = pre.owned_ids(from);
        let pt = pre.owned_ids(to);
        pf.remove_ensures(p);
        // Ids in the destination's old list belong to `to`, so none is `id`.
        assert forall|j: int| 0 <= j < pt.len() implies pt[j] != id by {
            assert(pre.owned_list_facts(to));
            assert(pre.asset_map()[pt[j]].owner == to);
        }
        assert forall|k: int| 0 <= k < self.owned@.len() implies #[trigger] self.list_ok(k) by {
            lemma_map_of_index(self.owned@, k);
            let a = self.owned@[k].0;
            let l = self.owned@[k].1@;
            assert(l == self.owned_ids(a));
            if a == from {
                assert(l == pf.remove(p));
                assert forall|x: int, y: int| 0 <= x < y < l.len() implies l[x] != l[y] by {
                    let x0: int = if x < p { x } else { x + 1 };
                    let y0: int = if y < p { y } else { y + 1 };
                    assert(l[x] == pf[x0] && l[y] == pf[y0]);
                }
                assert forall|j: int| 0 <= j < l.len() implies self.asset_map().contains_key(
                    #[trigger] l[j],
                ) && self.asset_map()[l[j]].owner == a by {
                    let j0: int = if j < p { j } else { j + 1 };
                    assert(l[j] == pf[j0]);
                    assert(pf[j0] != pf[p]);
                    assert(pre.asset_map().contains_key(l[j]) && pre.asset_map()[l[j]].owner
                        == from);
                }
                assert(l.len() <= self.max_owned);
            } else if a == to {
                assert(l == pt.push(id));
                assert(pre.owned_list_facts(to) || pt.len() == 0);
                assert forall|j: int| 0 <= j < l.len() implies self.asset_map().contains_key(
                    #[trigger] l[j],
                ) && self.asset_map()[l[j]].owner == a by {
                    if j < l.len() - 1 {
                        assert(l[j] == pt[j]);
                        assert(pre.asset_map().contains_key(l[j]) && pre.asset_map()[l[j]].owner
                            == to);
                        assert(l[j] != id);
                    } else {
                        assert(l[j] == id);
                    }
                }
                assert(forall|x: int, y: int| 0 <= x < y < l.len() ==> l[x] != l[y]);
                assert(l.len() <= self.max_owned);
            } else {
                assert(l == pre.owned_ids(a));
                if l.len() > 0 {
                    assert(pre.owned_list_facts(a));
                    assert forall|j: int| 0 <= j < l.len() implies self.asset_map().contains_key(
                        #[trigger] l[j],
                    ) && self.asset_map()[l[j]].owner == a by {
                        assert(pre.asset_map().contains_key(l[j]) && pre.asset_map()[l[j]].owner
                            == a);
                        assert(l[j] != id);
                    }
                }
                assert(l.len() <= self.max_owned);
            }
        }
        assert forall|i2: int| 0 <= i2 < self.assets@.len() implies #[trigger] self.asset_ok(
            i2,
        ) by {
            if i2 == i {
                assert(self.assets@[i2] == (id, kit2));
                assert(self.owned_ids(to)[self.owned_ids(to).len() - 1] == id);
                assert(self.owned_ids(to).contains(id));
            } else {
                assert(self.assets@[i2] == pre.assets@[i2]);
                assert(pre.asset_ok(i2));
                let x = pre.assets@[i2].0;
                let b = pre.assets@[i2].1.owner;
                assert(x != id);
                if b == from {
                    let q = choose|q: int| 0 <= q < pf.len() && pf[q] == x;
                    assert(pf[q] != pf[p]);
                    assert(q != p);
                    if q < p {
                        assert(self.owned_ids(from)[q] == x);
                    } else {
                        assert(self.owned_ids(from)[q - 1] == x);
                    }
                    assert(self.owned_ids(from).contains(x));
                } else if b == to {
                    assert(pt.contains(x));
                    assert(self.owned_ids(to).contains(x));
                } else {
                    assert(self.owned_ids(b) == pre.owned_ids(b));
                }
            }
        }
    }
}

impl Ledger {
    fn owned_len(&self, a: u64) -> (r: usize)
        requires
            self.wf(),
        ensures
            r == self.owned_ids(a).len(),
    {
        match self.find_owner(a) {
            Some(k) => {
                proof {
                    lemma_map_of_index(self.owned@, k as int);
                }
                self.owned[k].1.len()
            },
            None => {
                proof {
                    lemma_map_of_absent(self.owned@, a);
                }
                0
            },
        }
    }

    /// Mints one asset for the caller with gender and genetic material
    /// derived from the entropy the runtime's beacon supplied and the
    /// current ledger height.
    pub fn create_kitty(
        &mut self,
        caller: u64,
        gender_entropy: u8,
        dna_entropy: u128,
        block_number: u64,
    ) -> (r: Result<u128, Error>)
        requires
            old(self).wf(),
        ensures
            final(self).wf(),
            final(self).cap() == old(self).cap(),
            Ledger::mint_ensures(
                *old(self),
                caller,
                blake2_128_of(dna_payload(dna_entropy, block_number)),
                gender_of_byte(gender_entropy),
                block_number,
                *final(self),
                r,
            ),
    {
        let gender = gen_gender(gender_entropy);
        let dna = gen_dna(dna_entropy, block_number);
        self.mint(caller, dna, gender, block_number)
    }

    /// What a committed or rejected breeding leaves behind: a caller who
    /// does not own both parents is rejected with `NotOwner`, parents of
    /// one gender with `SameGender`, and otherwise the child — its genetic
    /// material the per-bit recombination of the parents', its gender a
    /// fresh draw — is minted exactly as `mint_ensures` says. The parents
    /// themselves are untouched.
    pub open spec fn breed_ensures(
        pre: Ledger,
        caller: u64,
        id1: u128,
        id2: u128,
        selector: u128,
        gender_entropy: u8,
        seq: u64,
        post: Ledger,
        r: Result<u128, Error>,
    ) -> bool {
        if !(pre.owns(caller, id1) && pre.owns(caller, id2)) {
            post == pre && r == Result::<u128, Error>::Err(Error::NotOwner)
        } else if pre.asset_map()[id1].gender == pre.asset_map()[id2].gender {
            post == pre && r == Result::<u128, Error>::Err(Error::SameGender)
        } else {
            Ledger::mint_ensures(
                pre,
                caller,
                recombined(pre.asset_map()[id1].dna, pre.asset_map()[id2].dna, selector),
                gender_of_byte(gender_entropy),
                seq,
                post,
                r,
            )
        }
    }

    /// Breeds a child from two assets the caller owns, one of each gender.
    pub fn breed_kitty(
        &mut self,
        caller: u64,
        id1: u128,
        id2: u128,
        selector: u128,
        gender_entropy: u8,
        seq: u64,
    ) -> (r: Result<u128, Error>)
        requires
            old(self).wf(),
        ensures
            final(self).wf(),
            final(self).cap() == old(self).cap(),
            Ledger::breed_ensures(
                *old(self),
                caller,
                id1,
                id2,
                selector,
                gender_entropy,
                seq,
                *final(self),
                r,
            ),
    {
        let k1 = match self.kitties(id1) {
            Some(k) => k,
            None => {
                return Err(Error::NotOwner);
            },
        };
        if k1.owner != caller {
            return Err(Error::NotOwner);
        }
        let k2 = match self.kitties(id2) {
            Some(k) => k,
            None => {
                return Err(Error::NotOwner);
            },
        };
        if k2.owner != caller {
            return Err(Error::NotOwner);
        }
        if k1.gender == k2.gender {
            return Err(Error::SameGender);
        }
        let child_dna = recombine_dna(k1.dna, k2.dna, selector);
        let child_gender = gen_gender(gender_entropy);
        self.mint(caller, child_dna, child_gender, seq)
    }

    /// What a committed or rejected purchase leaves behind. On success the
    /// price moves from buyer to seller in the currency ledger and the
    /// asset moves the other way exactly as `transfer_ensures` says; on
    /// rejection — for any reason — neither the asset ledger nor the
    /// currency ledger changes at all, and the error tells exactly which
    /// validation failed.
    pub open spec fn buy_ensures(
        pre: Ledger,
        bank_pre: CurrencyLedger,
        buyer: u64,
        id: u128,
        max_price: u64,
        post: Ledger,
        bank_post: CurrencyLedger,
        r: Result<(), Error>,
    ) -> bool {
        let m = pre.asset_map();
        let has = m.contains_key(id);
        let listed = has && m[id].price is Some;
        let price = m[id].price->Some_0;
        let seller = m[id].owner;
        let affordable = bank_pre.balance(buyer) >= price + bank_pre.min_balance_spec();
        let fits = bank_pre.balance(seller) + price <= u64::MAX;
        match r {
            Ok(()) => listed && price <= max_price && buyer != seller && affordable && fits
                && pre.owned_ids(buyer).len() < pre.cap() && bank_post.balance(buyer)
                == bank_pre.balance(buyer) - price && bank_post.balance(seller) == bank_pre.balance(
                seller,
            ) + price && (forall|a: u64|
                a != buyer && a != seller ==> bank_post.balance(a) == bank_pre.balance(a))
                && Ledger::transfer_ensures(pre, seller, buyer, id, post, Ok(())),
            Err(e) => post == pre && bank_post == bank_pre && (e == Error::NotFound <==> !has) && (e
                == Error::NotForSale <==> has && m[id].price is None) && (e == Error::PriceTooHigh
                <==> listed && price > max_price) && (e == Error::TransferToSelf <==> listed
                && price <= max_price && buyer == seller) && (e == Error::InsufficientFunds
                <==> listed && price <= max_price && buyer != seller && !affordable) && (e
                == Error::Overflow <==> listed && price <= max_price && buyer != seller
                && affordable && !fits) && (e == Error::ExceedMaxOwned <==> listed && price
                <= max_price && buyer != seller && affordable && fits && pre.owned_ids(buyer).len()
                >= pre.cap()) && (e == Error::NotFound || e == Error::NotForSale || e
                == Error::PriceTooHigh || e == Error::TransferToSelf || e
                == Error::InsufficientFunds || e == Error::Overflow || e == Error::ExceedMaxOwned),
        }
    }

    /// Buys a listed asset at or under the buyer's stated ceiling: pays
    /// the seller through the currency ledger, keeping the buyer above the
    /// existential minimum, and takes ownership — one atomic unit across
    /// the two ledgers.
    pub fn buy_kitty(
        &mut self,
        bank: &mut CurrencyLedger,
        buyer: u64,
        id: u128,
        max_price: u64,
    ) -> (r: Result<(), Error>)
        requires
            old(self).wf(),
            old(bank).wf(),
        ensures
            final(self).wf(),
            final(bank).wf(),
            final(self).cap() == old(self).cap(),
            final(bank).min_balance_spec() == old(bank).min_balance_spec(),
            Ledger::buy_ensures(
                *old(self),
                *old(bank),
                buyer,
                id,
                max_price,
                *final(self),
                *final(bank),
                r,
            ),
    {
        let kit = match self.kitties(id) {
            Some(k) => k,
            None => {
                return Err(Error::NotFound);
            },
        };
        let price = match kit.price {
            Some(p) => p,
            None => {
                return Err(Error::NotForSale);
            },
        };
        if price > max_price {
            return Err(Error::PriceTooHigh);
        }
        let seller = kit.owner;
        if buyer == seller {
            return Err(Error::TransferToSelf);
        }
        let bal = bank.balance_of(buyer);
        let minb = bank.min_balance();
        if bal < minb || bal - minb < price {
            return Err(Error::InsufficientFunds);
        }
        let sbal = bank.balance_of(seller);
        if sbal > u64::MAX - price {
            return Err(Error::Overflow);
        }
        if self.owned_len(buyer) >= self.max_owned as usize {
            return Err(Error::ExceedMaxOwned);
        }
        // All validations passed; both commits below are bound to succeed.
        match bank.transfer(buyer, seller, price) {
            Ok(()) => {},
            Err(_) => {
                proof {
                    assert(false);
                }
                return Err(Error::InsufficientFunds);
            },
        }
        match self.transfer(seller, buyer, id) {
            Ok(()) => Ok(()),
            Err(_) => {
                proof {
                    assert(false);
                }
                Err(Error::NotOwner)
            },
        }
    }
}

/// Law: conservation — under the invariant the counter equals the total
/// length of all owned lists, and also the number of stored assets.
pub proof fn lemma_conservation(l: Ledger)
    requires
        l.wf(),
    ensures
        l.total() == l.owned_total(),
        l.asset_map().dom().finite(),
        l.total() == l.asset_map().dom().len(),
{
    lemma_map_of_len(l.assets@);
}

/// Law: the bound is respected — under the invariant no account's list
/// exceeds the configured maximum.
pub proof fn lemma_bound_respected(l: Ledger, a: u64)
    requires
        l.wf(),
    ensures
        l.owned_ids(a).len() <= l.cap(),
{
    l.lemma_owned_lists_facts();
    if l.owned_ids(a).len() > 0 {
        assert(l.owned_list_facts(a));
    }
}

/// Law: the ownership index and the owner fields agree — an id stands in
/// an account's list exactly when the store holds that asset with that
/// account as its owner. In particular every stored asset is indexed
/// under exactly one account.
pub proof fn lemma_owner_index_agree(l: Ledger, a: u64, id: u128)
    requires
        l.wf(),
    ensures
        l.owned_ids(a).contains(id) <==> l.owns(a, id),
{
    broadcast use group_seq_properties;

    l.lemma_owned_lists_facts();
    if l.owned_ids(a).contains(id) {
        assert(l.owned_list_facts(a));
        let j = choose|j: int| 0 <= j < l.owned_ids(a).len() && l.owned_ids(a)[j] == id;
        assert(l.asset_map().contains_key(id) && l.asset_map()[id].owner == a);
    }
    if l.owns(a, id) {
        lemma_map_of_contains(l.assets@, id);
        let i = choose|i: int| 0 <= i < l.assets@.len() && (#[trigger] l.assets@[i]).0 == id;
        lemma_map_of_index(l.assets@, i);
        assert(l.asset_ok(i));
    }
}

/// Law: a mint never shrinks the set of ids — on success it adds exactly
/// the returned id, on rejection it changes nothing.
pub proof fn lemma_mint_grows_ids(
    pre: Ledger,
    owner: u64,
    dna: u128,
    gender: Gender,
    seq: u64,
    post: Ledger,
    r: Result<u128, Error>,
)
    requires
        Ledger::mint_ensures(pre, owner, dna, gender, seq, post, r),
    ensures
        pre.asset_map().dom().subset_of(post.asset_map().dom()),
        r matches Ok(id) ==> !pre.asset_map().contains_key(id) && post.asset_map().contains_key(id),
{
}

/// Law: a transfer never changes the set of ids.
pub proof fn lemma_transfer_preserves_ids(
    pre: Ledger,
    from: u64,
    to: u64,
    id: u128,
    post: Ledger,
    r: Result<(), Error>,
)
    requires
        Ledger::transfer_ensures(pre, from, to, id, post, r),
    ensures
        post.asset_map().dom() == pre.asset_map().dom(),
{
    if r is Ok {
        assert(post.asset_map().dom() =~= pre.asset_map().dom());
    }
}

/// Law: a price change never changes the set of ids.
pub proof fn lemma_set_price_preserves_ids(
    pre: Ledger,
    caller: u64,
    id: u128,
    price: Option<u64>,
    post: Ledger,
    r: Result<(), Error>,
)
    requires
        Ledger::set_price_ensures(pre, caller, id, price, post, r),
    ensures
        post.asset_map().dom() == pre.asset_map().dom(),
{
    if r is Ok {
        assert(post.asset_map().dom() =~= pre.asset_map().dom());
    }
}

/// Law: uniqueness of ids — a mint only succeeds with an id absent from
/// the store and ids are never removed, so the ids of two successful
/// mints are distinct whenever the ledger evolved from the end of the
/// first to the start of the second.
pub proof fn lemma_minted_ids_distinct(
    pre1: Ledger,
    owner1: u64,
    dna1: u128,
    gender1: Gender,
    seq1: u64,
    post1: Ledger,
    id1: u128,
    pre2: Ledger,
    owner2: u64,
    dna2: u128,
    gender2: Gender,
    seq2: u64,
    post2: Ledger,
    id2: u128,
)
    requires
        Ledger::mint_ensures(pre1, owner1, dna1, gender1, seq1, post1, Ok(id1)),
        Ledger::mint_ensures(pre2, owner2, dna2, gender2, seq2, post2, Ok(id2)),
        post1.asset_map().dom().subset_of(pre2.asset_map().dom()),
    ensures
        id1 != id2,
{
    assert(post1.asset_map().contains_key(id1));
    assert(!pre2.asset_map().contains_key(id2));
}

fn find_in(l: &Vec<u128>, id: u128) -> (r: Option<usize>)
    ensures
        match r {
            Some(p) => p < l@.len() && l@[p as int] == id,
            None => forall|j: int| 0 <= j < l@.len() ==> l@[j] != id,
        },
{
    let n = l.len();
    let mut i: usize = 0;
    while i < n
        invariant
            i <= n,
            n == l@.len(),
            forall|j: int| 0 <= j < i ==> l@[j] != id,
        decreases n - i,
    {
        if l[i] == id {
            return Some(i);
        }
        i = i + 1;
    }
    None
}

} // verus!
