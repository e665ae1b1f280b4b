//! One reward pool: the custody balance of one asset, and the ledger of what
//! is assigned to each beneficiary but not yet withdrawn.
use std::collections::HashMap;
use vstd::prelude::*;
use vstd::arithmetic::div_mod::lemma_mod_multiples_vanish;
use crate::amount::{
    payable_part, step, truncated, lemma_pow10_positive, lemma_truncated_below_step,
    lemma_truncated_bounds,
};

verus! {

/// What a beneficiary may still claim from a ledger: zero when absent.
pub open spec fn outstanding_of(assigned: Map<u64, u128>, b: u64) -> nat {
    if assigned.contains_key(b) {
        assigned[b] as nat
    } else {
        0
    }
}

/// Sum of the ledger entries of the listed beneficiaries.
pub open spec fn sum_over(holders: Seq<u64>, assigned: Map<u64, u128>) -> int
    decreases holders.len(),
{
    if holders.len() == 0 {
        0
    } else {
        sum_over(holders.drop_last(), assigned) + assigned[holders.last()]
    }
}

/// The abstract state of a pool.
pub struct PoolView {
    /// Decimal places of the pooled asset.
    pub divisibility: u8,
    /// Amount held in custody, in attos.
    pub custody: nat,
    /// Sum of all outstanding assignments, in attos.
    pub total: nat,
    /// Outstanding amount of each beneficiary that was ever assigned something.
    pub assigned: Map<u64, u128>,
    /// Beneficiaries with a ledger entry, in the order of their first assignment.
    pub holders: Seq<u64>,
}

impl PoolView {
    /// The ledger is consistent: one entry per holder, and the running total
    /// is the sum of the entries.
    pub open spec fn ledger_ok(self) -> bool {
        &&& self.divisibility <= 18
        &&& self.holders.no_duplicates()
        &&& forall|k: u64| self.assigned.contains_key(k) <==> self.holders.contains(k)
        &&& self.total == sum_over(self.holders, self.assigned)
    }

    /// A consistent ledger that custody fully covers.
    pub open spec fn wf(self) -> bool {
        &&& self.ledger_ok()
        &&& self.total <= self.custody
    }

    pub open spec fn outstanding(self, b: u64) -> nat {
        outstanding_of(self.assigned, b)
    }

    /// What a withdrawal by `b` pays out of this pool.
    pub open spec fn payout(self, b: u64) -> nat {
        truncated(self.outstanding(b), self.divisibility)
    }

    /// The pool after `value` more is put into custody.
    pub open spec fn after_put(self, value: nat) -> PoolView {
        PoolView { custody: self.custody + value, ..self }
    }

    /// The pool after `amount` more is assigned to `b`.
    pub open spec fn after_credit(self, b: u64, amount: nat) -> PoolView {
        PoolView {
            divisibility: self.divisibility,
            custody: self.custody,
            total: self.total + amount,
            assigned: self.assigned.insert(b, (self.outstanding(b) + amount) as u128),
            holders: if self.assigned.contains_key(b) {
                self.holders
            } else {
                self.holders.push(b)
            },
        }
    }

    /// The pool after `b` withdraws: the payout leaves custody and the ledger,
    /// the truncated remainder stays assigned.
    pub open spec fn after_withdraw(self, b: u64) -> PoolView {
        let got = self.payout(b);
        if got > 0 {
            PoolView {
                divisibility: self.divisibility,
                custody: (self.custody - got) as nat,
                total: (self.total - got) as nat,
                assigned: self.assigned.insert(b, (self.outstanding(b) - got) as u128),
                holders: self.holders,
            }
        } else {
            self
        }
    }
}

proof fn lemma_sum_update_absent(holders: Seq<u64>, m: Map<u64, u128>, k: u64, v: u128)
    requires
        !holders.contains(k),
    ensures
        sum_over(holders, m.insert(k, v)) == sum_over(holders, m),
    decreases holders.len(),
{
    if holders.len() > 0 {
        let rest = holders.drop_last();
        assert(forall|i: int| 0 <= i < rest.len() ==> rest[i] == holders[i]);
        assert(!rest.contains(k));
        lemma_sum_update_absent(rest, m, k, v);
        assert(holders.last() != k) by {
            assert(holders[holders.len() - 1] == holders.last());
        }
    }
}

proof fn lemma_sum_update_present(holders: Seq<u64>, m: Map<u64, u128>, k: u64, v: u128)
    requires
        holders.no_duplicates(),
        holders.contains(k),
    ensures
        sum_over(holders, m.insert(k, v)) == sum_over(holders, m) - m[k] + v,
    decreases holders.len(),
{
    let rest = holders.drop_last();
    assert(forall|i: int| 0 <= i < rest.len() ==> rest[i] == holders[i]);
    assert(rest.no_duplicates());
    if holders.last() == k {
        assert(!rest.contains(k)) by {
            if rest.contains(k) {
                let i = choose|i: int| 0 <= i < rest.len() && rest[i] == k;
                assert(holders[i] == holders[holders.len() - 1]);
            }
        }
        lemma_sum_update_absent(rest, m, k, v);
    } else {
        assert(rest.contains(k)) by {
            let i = choose|i: int| 0 <= i < holders.len() && holders[i] == k;
            assert(i != holders.len() - 1);
            assert(rest[i] == k);
        }
        lemma_sum_update_present(rest, m, k, v);
    }
}

proof fn lemma_entry_within_sum(holders: Seq<u64>, m: Map<u64, u128>, k: u64)
    requires
        holders.contains(k),
    ensures
        m[k] <= sum_over(holders, m),
        0 <= sum_over(holders, m),
    decreases holders.len(),
{
    lemma_sum_nonnegative(holders.drop_last(), m);
    if holders.last() != k {
        let rest = holders.drop_last();
        assert(rest.contains(k)) by {
            let i = choose|i: int| 0 <= i < holders.len() && holders[i] == k;
            assert(i != holders.len() - 1);
            assert(rest[i] == k);
        }
        lemma_entry_within_sum(rest, m, k);
    }
}

proof fn lemma_sum_nonnegative(holders: Seq<u64>, m: Map<u64, u128>)
    ensures
        0 <= sum_over(holders, m),
    decreases holders.len(),
{
    if holders.len() > 0 {
        lemma_sum_nonnegative(holders.drop_last(), m);
    }
}

/// In a consistent ledger no single entry exceeds the running total.
pub proof fn lemma_outstanding_within_total(p: PoolView, b: u64)
    requires
        p.ledger_ok(),
    ensures
        p.outstanding(b) <= p.total,
{
    if p.assigned.contains_key(b) {
        lemma_entry_within_sum(p.holders, p.assigned, b);
    }
}

/// Crediting keeps the ledger consistent.
pub proof fn lemma_after_credit_ok(p: PoolView, b: u64, amount: nat)
    requires
        p.ledger_ok(),
        p.outstanding(b) + amount <= u128::MAX,
    ensures
        p.after_credit(b, amount).ledger_ok(),
{
    let q = p.after_credit(b, amount);
    let v = (p.outstanding(b) + amount) as u128;
    if p.assigned.contains_key(b) {
        lemma_sum_update_present(p.holders, p.assigned, b, v);
    } else {
        assert(!p.holders.contains(b));
        lemma_sum_update_absent(p.holders, p.assigned, b, v);
        assert(q.holders.drop_last() =~= p.holders);
        assert(forall|k: u64| q.holders.contains(k) <==> (p.holders.contains(k) || k == b)) by {
            assert forall|k: u64| q.holders.contains(k) implies (p.holders.contains(k) || k == b) by {
                let i = choose|i: int| 0 <= i < q.holders.len() && q.holders[i] == k;
                if i < p.holders.len() {
                    assert(p.holders[i] == k);
                }
            }
            assert forall|k: u64| (p.holders.contains(k) || k == b) implies q.holders.contains(k) by {
                if k == b {
                    assert(q.holders[p.holders.len() as int] == k);
                } else {
                    let i = choose|i: int| 0 <= i < p.holders.len() && p.holders[i] == k;
                    assert(q.holders[i] == k);
                }
            }
        }
    }
}

/// A withdrawal keeps the pool well formed, and pays no more than was owed.
pub proof fn lemma_after_withdraw_wf(p: PoolView, b: u64)
    requires
        p.wf(),
    ensures
        p.after_withdraw(b).wf(),
        p.payout(b) <= p.outstanding(b),
        p.after_withdraw(b).outstanding(b) == p.outstanding(b) - p.payout(b),
{
    lemma_truncated_bounds(p.outstanding(b), p.divisibility);
    lemma_outstanding_within_total(p, b);
    if p.payout(b) > 0 {
        let v = (p.outstanding(b) - p.payout(b)) as u128;
        lemma_sum_update_present(p.holders, p.assigned, b, v);
    }
}

/// Truncate and carry: a withdrawal leaves assigned exactly the part of the
/// outstanding amount below one step of the asset, so that a second
/// withdrawal right after pays nothing; and when `k` whole steps are assigned
/// on top of any outstanding amount, the next withdrawal pays those `k` steps
/// on top of what it would have paid, leaving the same remainder behind.
pub proof fn lemma_truncate_then_carry(p: PoolView, b: u64, k: nat)
    requires
        p.wf(),
        p.outstanding(b) + k * step(p.divisibility) <= u128::MAX,
    ensures
        p.after_withdraw(b).outstanding(b) == p.outstanding(b) % step(p.divisibility),
        p.after_withdraw(b).outstanding(b) < step(p.divisibility),
        p.payout(b) + p.after_withdraw(b).outstanding(b) == p.outstanding(b),
        p.after_withdraw(b).payout(b) == 0,
        p.after_credit(b, k * step(p.divisibility)).payout(b) == p.payout(b) + k * step(
            p.divisibility,
        ),
        p.after_credit(b, k * step(p.divisibility)).after_withdraw(b).outstanding(b)
            == p.after_withdraw(b).outstanding(b),
{
    let s = step(p.divisibility);
    let x = p.outstanding(b);
    lemma_after_withdraw_wf(p, b);
    lemma_truncated_bounds(x, p.divisibility);
    lemma_truncated_below_step(p.after_withdraw(b).outstanding(b), p.divisibility);
    let q = p.after_credit(b, k * s);
    assert(q.outstanding(b) == x + k * s);
    lemma_pow10_positive((18 - p.divisibility) as nat);
    lemma_mod_multiples_vanish(k as int, x as int, s as int);
    assert(s * k + x == x + k * s) by (nonlinear_arith);
    lemma_truncated_bounds(x + k * s, p.divisibility);
    assert(k * s >= 0) by (nonlinear_arith)
        requires
            s > 0,
    ;
}

/// One pool: custody of one asset, and its assignment ledger.
pub struct Pool {
    divisibility: u8,
    custody: u128,
    total_assigned: u128,
    assigned: HashMap<u64, u128>,
    holders: Ghost<Seq<u64>>,
}

impl View for Pool {
    type V = PoolView;

    closed spec fn view(&self) -> PoolView {
        PoolView {
            divisibility: self.divisibility,
            custody: self.custody as nat,
            total: self.total_assigned as nat,
            assigned: self.assigned@,
            holders: self.holders@,
        }
    }
}

impl Pool {
    /// An empty pool for an asset with this many decimal places.
    pub fn new(divisibility: u8) -> (p: Pool)
        requires
            divisibility <= 18,
        ensures
            p@.wf(),
            p@.divisibility == divisibility,
            p@.custody == 0,
            p@.total == 0,
            p@.assigned == Map::<u64, u128>::empty(),
            p@.holders == Seq::<u64>::empty(),
    {
        let p = Pool {
            divisibility,
            custody: 0,
            total_assigned: 0,
            assigned: HashMap::new(),
            holders: Ghost(Seq::empty()),
        };
        assert(p@.assigned =~= Map::<u64, u128>::empty());
        p
    }

    pub fn divisibility(&self) -> (r: u8)
        ensures
            r == self@.divisibility,
    {
        self.divisibility
    }

    /// The amount held in custody.
    pub fn amount(&self) -> (r: u128)
        ensures
            r == self@.custody,
    {
        self.custody
    }

    pub fn total_assigned(&self) -> (r: u128)
        ensures
            r == self@.total,
    {
        self.total_assigned
    }

    /// What `b` may still claim: zero when `b` was never assigned anything.
    pub fn outstanding(&self, b: u64) -> (r: u128)
        ensures
            r == self@.outstanding(b),
    {
        proof {
            broadcast use vstd::std_specs::hash::group_hash_axioms;
        }
        match self.assigned.get(&b) {
            Some(v) => *v,
            None => 0,
        }
    }

    /// Adds `value` to custody.
    pub fn put(&mut self, value: u128)
        requires
            old(self)@.custody + value <= u128::MAX,
        ensures
            final(self)@ == old(self)@.after_put(value as nat),
    {
        self.custody = self.custody + value;
    }

    /// Adds a positive `amount` to what `b` may claim and to the running
    /// total, without looking at custody.
    pub fn credit(&mut self, b: u64, amount: u128)
        requires
            old(self)@.ledger_ok(),
            amount > 0,
            old(self)@.total + amount <= u128::MAX,
        ensures
            final(self)@ == old(self)@.after_credit(b, amount as nat),
            final(self)@.ledger_ok(),
    {
        proof {
            broadcast use vstd::std_specs::hash::group_hash_axioms;
            lemma_outstanding_within_total(self@, b);
            lemma_after_credit_ok(self@, b, amount as nat);
        }
        let current = self.outstanding(b);
        self.assigned.insert(b, current + amount);
        self.total_assigned = self.total_assigned + amount;
        proof {
            if !old(self)@.assigned.contains_key(b) {
                self.holders@ = self.holders@.push(b);
            }
        }
        assert(self@.assigned =~= old(self)@.after_credit(b, amount as nat).assigned);
    }

    /// Pays `b` what custody can deliver of its outstanding amount: custody
    /// and the ledger both lose exactly the payout, the truncated rest stays
    /// assigned.
    pub fn withdraw_for(&mut self, b: u64) -> (got: u128)
        requires
            old(self)@.wf(),
        ensures
            got == old(self)@.payout(b),
            final(self)@ == old(self)@.after_withdraw(b),
            final(self)@.wf(),
    {
        proof {
            broadcast use vstd::std_specs::hash::group_hash_axioms;
            lemma_after_withdraw_wf(self@, b);
            lemma_outstanding_within_total(self@, b);
        }
        let want = self.outstanding(b);
        let got = payable_part(want, self.divisibility);
        if got > 0 {
            self.custody = self.custody - got;
            self.assigned.insert(b, want - got);
            self.total_assigned = self.total_assigned - got;
            assert(self@.assigned =~= old(self)@.after_withdraw(b).assigned);
        }
        got
    }
}

} // verus!
