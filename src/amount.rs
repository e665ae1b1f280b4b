//! Amounts are counted in attos, the `10^-18` subunits of a scrypto `Decimal`.
//! An asset of divisibility `d` can only be moved in whole multiples of
//! `10^(18 - d)` attos.
use vstd::prelude::*;
use vstd::arithmetic::div_mod::{lemma_mod_decreases, lemma_mod_pos_bound, lemma_small_mod};
use scrypto::prelude::{Decimal, ForWithdrawal, RoundingMode, WithdrawStrategy, I192};

verus! {

pub open spec fn pow10(n: nat) -> nat
    decreases n,
{
    if n == 0 {
        1
    } else {
        10 * pow10((n - 1) as nat)
    }
}

/// The smallest amount, in attos, that an asset of this divisibility can move.
pub open spec fn step(divisibility: u8) -> nat {
    pow10((18 - divisibility) as nat)
}

/// `x` cut down toward zero to a whole multiple of the asset's step.
pub open spec fn truncated(x: nat, divisibility: u8) -> nat {
    (x - x % step(divisibility)) as nat
}

pub proof fn lemma_pow10_positive(n: nat)
    ensures
        pow10(n) > 0,
    decreases n,
{
    if n > 0 {
        lemma_pow10_positive((n - 1) as nat);
    }
}

/// The part cut off by truncation is below one step, and never more than `x`.
pub proof fn lemma_truncated_bounds(x: nat, divisibility: u8)
    requires
        divisibility <= 18,
    ensures
        step(divisibility) > 0,
        truncated(x, divisibility) <= x,
        x - truncated(x, divisibility) < step(divisibility),
        x - truncated(x, divisibility) == x % step(divisibility),
{
    lemma_pow10_positive((18 - divisibility) as nat);
    lemma_mod_pos_bound(x as int, step(divisibility) as int);
    lemma_mod_decreases(x, step(divisibility));
}

/// Truncating a remainder that is already below one step gives nothing.
pub proof fn lemma_truncated_below_step(x: nat, divisibility: u8)
    requires
        divisibility <= 18,
        x < step(divisibility),
    ensures
        truncated(x, divisibility) == 0,
{
    lemma_pow10_positive((18 - divisibility) as nat);
    lemma_small_mod(x, step(divisibility));
}

/// Relies on scrypto's `Decimal::for_withdrawal` with a `ToZero` rounded
/// strategy, the rounding a vault applies when asked for more precision than
/// its resource has: a non-negative amount of attos is cut down to a whole
/// multiple of `10^(18 - divisibility)`.
#[verifier::external_body]
fn round_for_withdrawal(attos: u128, divisibility: u8) -> (r: u128)
    requires
        divisibility <= 18,
    ensures
        r == truncated(attos as nat, divisibility),
{
    let requested = Decimal::from_attos(I192::from(attos));
    let rounded = requested.for_withdrawal(
        divisibility,
        WithdrawStrategy::Rounded(RoundingMode::ToZero),
    ).unwrap();
    u128::try_from(rounded.attos()).unwrap()
}

/// The part of `attos` that an asset of this divisibility can pay out.
pub fn payable_part(attos: u128, divisibility: u8) -> (r: u128)
    requires
        divisibility <= 18,
    ensures
        r == truncated(attos as nat, divisibility),
        r <= attos,
        attos - r < step(divisibility),
{
    proof {
        lemma_truncated_bounds(attos as nat, divisibility);
    }
    round_for_withdrawal(attos, divisibility)
}

} // verus!
