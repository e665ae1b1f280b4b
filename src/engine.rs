//! The reward engine: a registry of pools keyed by asset, the issuance of
//! beneficiary ids, and the deposit, assign and withdraw operations.
use std::collections::HashMap;
use vstd::prelude::*;
use crate::amount::{lemma_truncated_below_step, lemma_truncated_bounds};
use crate::pool::{
    Pool, PoolView, sum_over, lemma_after_withdraw_wf, lemma_outstanding_within_total,
};

verus! {

/// Most distinct assets the registry will hold.
pub const MAX_REWARDS: usize = 100;

#[derive(Clone, Copy, Debug, PartialEq, Eq, Structural)]
pub enum RewardsError {
    /// Assignment against an asset that was never deposited.
    PoolNotFound,
    /// A beneficiary id that is zero or was not issued yet.
    BeneficiaryOutOfRange,
    /// An assigned amount that is zero or negative.
    NonPositiveAmount,
    /// The batch would assign more than the pool holds.
    InsufficientPoolFunds,
    /// A deposit of a new asset when the registry is full.
    CapacityExceeded,
    /// A withdrawal by an id that was never issued.
    InvalidCredential,
}

/// The abstract state of the engine.
pub struct LedgerView {
    /// The last beneficiary id issued; ids run from one up to it.
    pub last_id: u64,
    /// Assets with a pool, in the order their pools were created.
    pub assets: Seq<u64>,
    /// The pool of each asset.
    pub pools: Map<u64, PoolView>,
}

impl LedgerView {
    pub open spec fn wf(self) -> bool {
        &&& self.assets.no_duplicates()
        &&& self.assets.len() <= MAX_REWARDS
        &&& forall|a: u64| self.pools.contains_key(a) <==> self.assets.contains(a)
        &&& forall|a: u64| #[trigger] self.pools.contains_key(a) ==> self.pools[a].wf()
        &&& forall|a: u64, b: u64|
            self.pools.contains_key(a) && #[trigger] self.pools[a].assigned.contains_key(b)
                ==> 1 <= b <= self.last_id
    }
}

/// A fresh pool for an asset of this divisibility.
pub open spec fn empty_pool(divisibility: u8) -> PoolView {
    PoolView {
        divisibility,
        custody: 0,
        total: 0,
        assigned: Map::empty(),
        holders: Seq::empty(),
    }
}

/// Why a single entry of an assignment batch is refused, if it is.
pub open spec fn entry_error(e: (u64, i128), last_id: u64) -> Option<RewardsError> {
    if e.0 == 0 || e.0 > last_id {
        Some(RewardsError::BeneficiaryOutOfRange)
    } else if e.1 <= 0 {
        Some(RewardsError::NonPositiveAmount)
    } else {
        None
    }
}

/// The error of the first refused entry of a batch, in input order.
pub open spec fn batch_error(entries: Seq<(u64, i128)>, last_id: u64) -> Option<RewardsError>
    decreases entries.len(),
{
    if entries.len() == 0 {
        None
    } else {
        match batch_error(entries.drop_last(), last_id) {
            Some(e) => Some(e),
            None => entry_error(entries.last(), last_id),
        }
    }
}

/// Sum of the amounts of a batch.
pub open spec fn batch_total(entries: Seq<(u64, i128)>) -> int
    decreases entries.len(),
{
    if entries.len() == 0 {
        0
    } else {
        batch_total(entries.drop_last()) + entries.last().1
    }
}

/// The pool after every entry of a batch is credited, in input order.
pub open spec fn credit_all(p: PoolView, entries: Seq<(u64, i128)>) -> PoolView
    decreases entries.len(),
{
    if entries.len() == 0 {
        p
    } else {
        credit_all(p, entries.drop_last()).after_credit(entries.last().0, entries.last().1 as nat)
    }
}

/// The outcome of assigning a batch against the pool of `coin`.
pub open spec fn assign_result(v: LedgerView, entries: Seq<(u64, i128)>, coin: u64) -> Result<
    (),
    RewardsError,
> {
    if !v.pools.contains_key(coin) {
        Err(RewardsError::PoolNotFound)
    } else {
        match batch_error(entries, v.last_id) {
            Some(e) => Err(e),
            None => if v.pools[coin].total + batch_total(entries) > v.pools[coin].custody {
                Err(RewardsError::InsufficientPoolFunds)
            } else {
                Ok(())
            },
        }
    }
}

/// The settlements of a withdrawal by `b` over the pools of `order`: one
/// (asset, amount) per pool whose payout is positive, in that order.
pub open spec fn settlements(pools: Map<u64, PoolView>, order: Seq<u64>, b: u64) -> Seq<(u64, u128)>
    decreases order.len(),
{
    if order.len() == 0 {
        Seq::empty()
    } else {
        let before = settlements(pools, order.drop_last(), b);
        let a = order.last();
        if pools[a].payout(b) > 0 {
            before.push((a, pools[a].payout(b) as u128))
        } else {
            before
        }
    }
}

/// Every pool after a withdrawal by `b`.
pub open spec fn withdrawn(pools: Map<u64, PoolView>, b: u64) -> Map<u64, PoolView> {
    Map::new(|a: u64| pools.contains_key(a), |a: u64| pools[a].after_withdraw(b))
}

/// A batch with no refused entry has only valid ids and positive amounts.
proof fn lemma_batch_entries_valid(entries: Seq<(u64, i128)>, last_id: u64)
    requires
        batch_error(entries, last_id) is None,
    ensures
        forall|j: int| 0 <= j < entries.len() ==> entry_error(#[trigger] entries[j], last_id) is None,
    decreases entries.len(),
{
    if entries.len() > 0 {
        let rest = entries.drop_last();
        lemma_batch_entries_valid(rest, last_id);
        assert forall|j: int| 0 <= j < entries.len() implies entry_error(#[trigger] entries[j], last_id) is None by {
            if j < rest.len() {
                assert(rest[j] == entries[j]);
            }
        }
    }
}

/// Once a prefix of a batch has a refused entry, the whole batch reports it.
proof fn lemma_batch_error_sticks(entries: Seq<(u64, i128)>, i: int, last_id: u64)
    requires
        0 <= i <= entries.len(),
        batch_error(entries.take(i), last_id) is Some,
    ensures
        batch_error(entries, last_id) == batch_error(entries.take(i), last_id),
    decreases entries.len() - i,
{
    if i < entries.len() {
        let longer = entries.take(i + 1);
        assert(longer.drop_last() =~= entries.take(i));
        lemma_batch_error_sticks(entries, i + 1, last_id);
    } else {
        assert(entries.take(i) =~= entries);
    }
}

/// The partial sums of a batch of positive amounts grow up to its total.
proof fn lemma_batch_prefix_within_total(entries: Seq<(u64, i128)>, i: int, last_id: u64)
    requires
        0 <= i <= entries.len(),
        batch_error(entries, last_id) is None,
    ensures
        batch_total(entries.take(i)) <= batch_total(entries),
    decreases entries.len() - i,
{
    lemma_batch_entries_valid(entries, last_id);
    if i < entries.len() {
        let longer = entries.take(i + 1);
        assert(longer.drop_last() =~= entries.take(i));
        assert(entry_error(entries[i], last_id) is None);
        lemma_batch_prefix_within_total(entries, i + 1, last_id);
    } else {
        assert(entries.take(i) =~= entries);
    }
}

/// Crediting a batch of valid entries adds only ids in range to the ledger.
proof fn lemma_credit_all_ids(p: PoolView, entries: Seq<(u64, i128)>, last_id: u64)
    requires
        forall|b: u64| #[trigger] p.assigned.contains_key(b) ==> 1 <= b <= last_id,
        forall|j: int| 0 <= j < entries.len() ==> entry_error(#[trigger] entries[j], last_id) is None,
    ensures
        forall|b: u64| #[trigger] credit_all(p, entries).assigned.contains_key(b) ==> 1 <= b <= last_id,
        credit_all(p, entries).custody == p.custody,
        credit_all(p, entries).divisibility == p.divisibility,
    decreases entries.len(),
{
    if entries.len() > 0 {
        let rest = entries.drop_last();
        assert forall|j: int| 0 <= j < rest.len() implies entry_error(#[trigger] rest[j], last_id) is None by {
            assert(rest[j] == entries[j]);
        }
        lemma_credit_all_ids(p, rest, last_id);
        assert(entry_error(entries[entries.len() - 1], last_id) is None);
    }
}

/// Conservation: in every pool custody covers the total assigned, the total
/// is the sum of the beneficiaries' entries (one per beneficiary that ever
/// got an assignment), and no entry is negative or above the total. Every
/// operation of the engine keeps `wf`, so this holds at all times.
pub proof fn lemma_conservation(v: LedgerView, a: u64, b: u64)
    requires
        v.wf(),
        v.pools.contains_key(a),
    ensures
        v.pools[a].custody >= v.pools[a].total,
        v.pools[a].total == sum_over(v.pools[a].holders, v.pools[a].assigned),
        v.pools[a].holders.no_duplicates(),
        forall|c: u64| v.pools[a].assigned.contains_key(c) <==> v.pools[a].holders.contains(c),
        0 <= v.pools[a].outstanding(b) <= v.pools[a].total,
        v.pools[a].assigned.contains_key(b) ==> 1 <= b <= v.last_id,
{
    lemma_outstanding_within_total(v.pools[a], b);
}

/// The settlements over `order` are positive amounts, and there is one as
/// soon as some pool of `order` has something to pay.
pub proof fn lemma_settlements_shape(pools: Map<u64, PoolView>, order: Seq<u64>, b: u64)
    requires
        forall|j: int| 0 <= j < order.len() ==> #[trigger] pools.contains_key(order[j]) && pools[order[j]].wf(),
    ensures
        forall|i: int| 0 <= i < settlements(pools, order, b).len() ==> #[trigger] settlements(pools, order, b)[i].1 > 0,
        settlements(pools, order, b).len() == 0 <==> forall|j: int| 0 <= j < order.len() ==> #[trigger] pools[order[j]].payout(b) == 0,
    decreases order.len(),
{
    if order.len() > 0 {
        let rest = order.drop_last();
        assert forall|j: int| 0 <= j < rest.len() implies #[trigger] pools.contains_key(rest[j]) && pools[rest[j]].wf() by {
            assert(rest[j] == order[j]);
        }
        lemma_settlements_shape(pools, rest, b);
        let a = order.last();
        assert(pools.contains_key(order[order.len() - 1]));
        lemma_after_withdraw_wf(pools[a], b);
        lemma_outstanding_within_total(pools[a], b);
        if settlements(pools, order, b).len() == 0 {
            assert forall|j: int| 0 <= j < order.len() implies #[trigger] pools[order[j]].payout(b) == 0 by {
                if j < rest.len() {
                    assert(rest[j] == order[j]);
                }
            }
        }
        if forall|j: int| 0 <= j < order.len() ==> #[trigger] pools[order[j]].payout(b) == 0 {
            assert forall|j: int| 0 <= j < rest.len() implies #[trigger] pools[rest[j]].payout(b) == 0 by {
                assert(rest[j] == order[j]);
            }
            assert(pools[order[order.len() - 1]].payout(b) == 0);
        }
    }
}

/// Withdrawing twice: the first withdrawal pays something when some pool
/// owes the beneficiary at least one step of its asset, every settlement is
/// positive, and a second withdrawal with nothing assigned in between pays
/// nothing at all.
pub proof fn lemma_withdraw_twice(v: LedgerView, b: u64)
    requires
        v.wf(),
    ensures
        (exists|j: int| 0 <= j < v.assets.len() && #[trigger] v.pools[v.assets[j]].payout(b) > 0)
            ==> settlements(v.pools, v.assets, b).len() > 0,
        forall|i: int| 0 <= i < settlements(v.pools, v.assets, b).len() ==> #[trigger] settlements(v.pools, v.assets, b)[i].1 > 0,
        settlements(withdrawn(v.pools, b), v.assets, b).len() == 0,
{
    let w = withdrawn(v.pools, b);
    assert forall|j: int| 0 <= j < v.assets.len() implies #[trigger] v.pools.contains_key(v.assets[j]) && v.pools[v.assets[j]].wf() by {
        assert(v.assets.contains(v.assets[j]));
    }
    lemma_settlements_shape(v.pools, v.assets, b);
    assert forall|j: int| 0 <= j < v.assets.len() implies #[trigger] w.contains_key(v.assets[j]) && w[v.assets[j]].wf() by {
        let a = v.assets[j];
        assert(v.pools.contains_key(a));
        lemma_after_withdraw_wf(v.pools[a], b);
    }
    assert forall|j: int| 0 <= j < v.assets.len() implies #[trigger] w[v.assets[j]].payout(b) == 0 by {
        let p = v.pools[v.assets[j]];
        assert(v.pools.contains_key(v.assets[j]));
        lemma_after_withdraw_wf(p, b);
        lemma_truncated_bounds(p.outstanding(b), p.divisibility);
        lemma_truncated_below_step(p.after_withdraw(b).outstanding(b), p.divisibility);
    }
    lemma_settlements_shape(w, v.assets, b);
}

/// The reward ledger: pools of deposited assets and the beneficiaries' shares
/// of them.
pub struct AddixFomoRewards {
    last_user_nft_id: u64,
    assets: Vec<u64>,
    rewards: HashMap<u64, Pool>,
}

impl View for AddixFomoRewards {
    type V = LedgerView;

    closed spec fn view(&self) -> LedgerView {
        LedgerView {
            last_id: self.last_user_nft_id,
            assets: self.assets@,
            pools: Map::new(|a: u64| self.rewards@.contains_key(a), |a: u64| self.rewards@[a]@),
        }
    }
}

impl AddixFomoRewards {
    /// An empty ledger: no pools, no beneficiary issued.
    pub fn new() -> (r: Self)
        ensures
            r@.wf(),
            r@.last_id == 0,
            r@.assets == Seq::<u64>::empty(),
            r@.pools == Map::<u64, PoolView>::empty(),
    {
        let r = AddixFomoRewards { last_user_nft_id: 0, assets: Vec::new(), rewards: HashMap::new() };
        assert(r@.pools =~= Map::<u64, PoolView>::empty());
        r
    }

    /// The last beneficiary id issued.
    pub fn last_user_nft_id(&self) -> (r: u64)
        ensures
            r == self@.last_id,
    {
        self.last_user_nft_id
    }

    /// The pool of `asset`, if one was created.
    pub fn pool(&self, asset: u64) -> (r: Option<&Pool>)
        ensures
            r is Some <==> self@.pools.contains_key(asset),
            r is Some ==> r->Some_0@ == self@.pools[asset],
    {
        proof {
            broadcast use vstd::std_specs::hash::group_hash_axioms;
        }
        self.rewards.get(&asset)
    }

    /// What `user` may still claim from the pool of `asset`: zero when there
    /// is no such pool or nothing was assigned.
    pub fn outstanding(&self, asset: u64, user: u64) -> (r: u128)
        ensures
            r == (if self@.pools.contains_key(asset) {
                self@.pools[asset].outstanding(user)
            } else {
                0
            }),
    {
        match self.pool(asset) {
            Some(p) => p.outstanding(user),
            None => 0,
        }
    }

    /// Assets with a pool, in the order their pools were created.
    pub fn assets(&self) -> (r: &Vec<u64>)
        ensures
            r@ == self@.assets,
    {
        &self.assets
    }

    /// Issues the next beneficiary id.
    pub fn mint_user_nft(&mut self) -> (id: u64)
        requires
            old(self)@.wf(),
            old(self)@.last_id < u64::MAX,
        ensures
            id == old(self)@.last_id + 1,
            final(self)@ == (LedgerView { last_id: id, ..old(self)@ }),
            final(self)@.wf(),
    {
        self.last_user_nft_id = self.last_user_nft_id + 1;
        assert(self@.pools =~= old(self)@.pools);
        self.last_user_nft_id
    }

    /// Pays beneficiary `user` from every pool what the asset's precision
    /// lets custody deliver of its outstanding amount, leaving the truncated
    /// remainder assigned. Returns one (asset, amount) settlement per pool
    /// that paid something, in the order the pools were created; an id that
    /// was never issued is refused.
    pub fn withdraw_rewards(&mut self, user: u64) -> (r: Result<Vec<(u64, u128)>, RewardsError>)
        requires
            old(self)@.wf(),
        ensures
            final(self)@.wf(),
            user == 0 || user > old(self)@.last_id ==> {
                &&& r == Err::<Vec<(u64, u128)>, RewardsError>(RewardsError::InvalidCredential)
                &&& final(self)@ == old(self)@
            },
            1 <= user <= old(self)@.last_id ==> {
                &&& r is Ok
                &&& r->Ok_0@ == settlements(old(self)@.pools, old(self)@.assets, user)
                &&& final(self)@ == (LedgerView {
                    pools: withdrawn(old(self)@.pools, user),
                    ..old(self)@
                })
            },
    {
        proof {
            broadcast use vstd::std_specs::hash::group_hash_axioms;
        }
        if user == 0 || user > self.last_user_nft_id {
            return Err(RewardsError::InvalidCredential);
        }
        let ghost before = self@;
        let mut paid: Vec<(u64, u128)> = Vec::new();
        let mut i: usize = 0;
        while i < self.assets.len()
            invariant
                i <= self.assets.len(),
                before.wf(),
                self.assets@ == before.assets,
                self@.assets == before.assets,
                self@.last_id == before.last_id,
                forall|a: u64| self@.pools.contains_key(a) <==> before.pools.contains_key(a),
                forall|j: int| 0 <= j < i ==> #[trigger] self@.pools[before.assets[j]]
                    == before.pools[before.assets[j]].after_withdraw(user),
                forall|j: int| i <= j < before.assets.len() ==> #[trigger] self@.pools[before.assets[j]]
                    == before.pools[before.assets[j]],
                paid@ == settlements(before.pools, before.assets.take(i as int), user),
            decreases self.assets.len() - i,
        {
            let a = self.assets[i];
            let ghost prev = self@;
            proof {
                assert(before.assets.contains(a));
                assert(self@.pools[a] == before.pools[a]);
            }
            let mut pool = self.rewards.remove(&a).unwrap();
            let got = pool.withdraw_for(user);
            self.rewards.insert(a, pool);
            proof {
                assert(self@.pools =~= prev.pools.insert(a, prev.pools[a].after_withdraw(user)));
            }
            if got > 0 {
                paid.push((a, got));
            }
            proof {
                assert(before.assets.take(i + 1).drop_last() =~= before.assets.take(i as int));
                assert(before.assets.take(i + 1).last() == a);
                assert forall|j: int| 0 <= j < before.assets.len() && j != i implies before.assets[j] != a by {
                    assert(before.assets.no_duplicates());
                }
                assert forall|j: int| 0 <= j < i + 1 implies #[trigger] self@.pools[before.assets[j]]
                    == before.pools[before.assets[j]].after_withdraw(user) by {
                    if j != i {
                        assert(before.assets[j] != a);
                    }
                }
                assert forall|j: int| i + 1 <= j < before.assets.len() implies #[trigger] self@.pools[before.assets[j]]
                    == before.pools[before.assets[j]] by {
                    assert(before.assets[j] != a);
                }
            }
            i = i + 1;
        }
        proof {
            assert(before.assets.take(before.assets.len() as int) =~= before.assets);
            assert forall|a: u64| #[trigger] self@.pools.contains_key(a) implies self@.pools[a]
                == before.pools[a].after_withdraw(user) by {
                assert(before.assets.contains(a));
                let j = choose|j: int| 0 <= j < before.assets.len() && before.assets[j] == a;
                assert(self@.pools[before.assets[j]] == before.pools[before.assets[j]].after_withdraw(user));
            }
            assert(self@.pools =~= withdrawn(before.pools, user));
            assert forall|a: u64| #[trigger] self@.pools.contains_key(a) implies self@.pools[a].wf() by {
                lemma_after_withdraw_wf(before.pools[a], user);
            }
            assert forall|a: u64, b: u64|
                self@.pools.contains_key(a) && #[trigger] self@.pools[a].assigned.contains_key(b)
                implies 1 <= b <= self@.last_id by {
                lemma_after_withdraw_wf(before.pools[a], user);
                assert(before.pools[a].assigned.contains_key(b));
            }
        }
        Ok(paid)
    }

    /// Puts `amount` into the pool of `asset`, creating the pool on the first
    /// deposit of that asset. `divisibility` is the asset's number of decimal
    /// places, taken when the pool is created.
    pub fn deposit_future_rewards(&mut self, asset: u64, divisibility: u8, amount: u128) -> (r:
        Result<(), RewardsError>)
        requires
            old(self)@.wf(),
            divisibility <= 18,
            old(self)@.pools.contains_key(asset) ==> old(self)@.pools[asset].custody + amount
                <= u128::MAX,
        ensures
            final(self)@.wf(),
            old(self)@.pools.contains_key(asset) ==> {
                &&& r == Ok::<(), RewardsError>(())
                &&& final(self)@ == (LedgerView {
                    pools: old(self)@.pools.insert(
                        asset,
                        old(self)@.pools[asset].after_put(amount as nat),
                    ),
                    ..old(self)@
                })
            },
            !old(self)@.pools.contains_key(asset) && old(self)@.assets.len() >= MAX_REWARDS ==> {
                &&& r == Err::<(), RewardsError>(RewardsError::CapacityExceeded)
                &&& final(self)@ == old(self)@
            },
            !old(self)@.pools.contains_key(asset) && old(self)@.assets.len() < MAX_REWARDS ==> {
                &&& r == Ok::<(), RewardsError>(())
                &&& final(self)@ == (LedgerView {
                    assets: old(self)@.assets.push(asset),
                    pools: old(self)@.pools.insert(
                        asset,
                        empty_pool(divisibility).after_put(amount as nat),
                    ),
                    ..old(self)@
                })
            },
    {
        proof {
            broadcast use vstd::std_specs::hash::group_hash_axioms;
        }
        let ghost before = self@;
        match self.rewards.remove(&asset) {
            Some(pool) => {
                let mut pool = pool;
                assert(pool@ == before.pools[asset]);
                pool.put(amount);
                self.rewards.insert(asset, pool);
                assert(self@.pools =~= before.pools.insert(asset, before.pools[asset].after_put(amount as nat)));
                Ok(())
            },
            None => {
                assert(self.rewards@ == old(self).rewards@);
                assert(self@.pools =~= before.pools);
                if self.assets.len() >= MAX_REWARDS {
                    return Err(RewardsError::CapacityExceeded);
                }
                let mut pool = Pool::new(divisibility);
                pool.put(amount);
                self.rewards.insert(asset, pool);
                self.assets.push(asset);
                assert(self@.pools =~= before.pools.insert(asset, empty_pool(divisibility).after_put(amount as nat)));
                assert(!before.assets.contains(asset));
                assert forall|a: u64| self@.pools.contains_key(a) <==> self@.assets.contains(a) by {
                    if self@.assets.contains(a) && a != asset {
                        let j = choose|j: int| 0 <= j < self@.assets.len() && self@.assets[j] == a;
                        assert(before.assets[j] == a);
                    }
                    if before.assets.contains(a) {
                        let j = choose|j: int| 0 <= j < before.assets.len() && before.assets[j] == a;
                        assert(self@.assets[j] == a);
                    }
                    if a == asset {
                        assert(self@.assets[before.assets.len() as int] == a);
                    }
                }
                Ok(())
            },
        }
    }

    /// Assigns each (beneficiary, amount) entry of `rewards`, in order, to the
    /// pool of `coin`. The whole batch is refused, and nothing changes, when
    /// the pool does not exist, an entry names an id that is zero or not yet
    /// issued, an amount is not positive, or the pool's custody would not
    /// cover every outstanding assignment afterwards.
    pub fn assign_rewards(&mut self, rewards: &Vec<(u64, i128)>, coin: u64) -> (r: Result<
        (),
        RewardsError,
    >)
        requires
            old(self)@.wf(),
        ensures
            final(self)@.wf(),
            r == assign_result(old(self)@, rewards@, coin),
            r is Ok ==> final(self)@ == (LedgerView {
                pools: old(self)@.pools.insert(coin, credit_all(old(self)@.pools[coin], rewards@)),
                ..old(self)@
            }),
            r is Err ==> final(self)@ == old(self)@,
    {
        proof {
            broadcast use vstd::std_specs::hash::group_hash_axioms;
        }
        let ghost before = self@;
        let ghost entries = rewards@;
        if !self.rewards.contains_key(&coin) {
            return Err(RewardsError::PoolNotFound);
        }
        let mut demand: u128 = 0;
        let mut overflow: bool = false;
        let mut i: usize = 0;
        while i < rewards.len()
            invariant
                i <= rewards.len(),
                entries == rewards@,
                self@ == before,
                before.wf(),
                before.pools.contains_key(coin),
                batch_error(entries.take(i as int), before.last_id) is None,
                !overflow ==> demand == batch_total(entries.take(i as int)),
                overflow ==> batch_total(entries.take(i as int)) > u128::MAX,
            decreases rewards.len() - i,
        {
            let (user, amount) = rewards[i];
            proof {
                assert(entries.take(i + 1).drop_last() =~= entries.take(i as int));
                assert(entries.take(i + 1).last() == (user, amount));
            }
            if user == 0 || user > self.last_user_nft_id {
                proof {
                    lemma_batch_error_sticks(entries, i + 1, before.last_id);
                }
                return Err(RewardsError::BeneficiaryOutOfRange);
            }
            if amount <= 0 {
                proof {
                    lemma_batch_error_sticks(entries, i + 1, before.last_id);
                }
                return Err(RewardsError::NonPositiveAmount);
            }
            if !overflow {
                match demand.checked_add(amount as u128) {
                    Some(d) => {
                        demand = d;
                    },
                    None => {
                        overflow = true;
                    },
                }
            }
            i = i + 1;
        }
        proof {
            assert(entries.take(rewards.len() as int) =~= entries);
        }
        let p0 = self.rewards.get(&coin).unwrap();
        let custody = p0.amount();
        let total = p0.total_assigned();
        if overflow || demand > custody - total {
            return Err(RewardsError::InsufficientPoolFunds);
        }
        let mut pool = self.rewards.remove(&coin).unwrap();
        let ghost start = pool@;
        proof {
            lemma_batch_entries_valid(entries, before.last_id);
        }
        let mut i: usize = 0;
        while i < rewards.len()
            invariant
                i <= rewards.len(),
                entries == rewards@,
                start == before.pools[coin],
                start.wf(),
                start.custody == custody,
                batch_error(entries, before.last_id) is None,
                start.total + batch_total(entries) <= start.custody,
                forall|j: int| 0 <= j < entries.len() ==> entry_error(#[trigger] entries[j], before.last_id) is None,
                pool@ == credit_all(start, entries.take(i as int)),
                pool@.ledger_ok(),
                pool@.custody == start.custody,
                pool@.total == start.total + batch_total(entries.take(i as int)),
            decreases rewards.len() - i,
        {
            let (user, amount) = rewards[i];
            proof {
                assert(entries.take(i + 1).drop_last() =~= entries.take(i as int));
                assert(entries.take(i + 1).last() == (user, amount));
                assert(entry_error(entries[i as int], before.last_id) is None);
                lemma_batch_prefix_within_total(entries, i + 1, before.last_id);
                lemma_outstanding_within_total(pool@, user);
                assert(batch_total(entries.take(i + 1)) == batch_total(entries.take(i as int)) + amount);
            }
            pool.credit(user, amount as u128);
            i = i + 1;
        }
        proof {
            assert(entries.take(rewards.len() as int) =~= entries);
        }
        self.rewards.insert(coin, pool);
        proof {
            let fin = credit_all(start, entries);
            assert(self@.pools =~= before.pools.insert(coin, fin));
            assert(self@.assets == before.assets);
            lemma_credit_all_ids(start, entries, before.last_id);
        }
        Ok(())
    }
}

} // verus!
