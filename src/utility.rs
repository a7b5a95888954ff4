use crate::selection::GRT;
use crate::uint256::{div_mod, le, low_word, max256, Uint256};
use vstd::prelude::*;

verus! {

/// One whole, in parts per million.
pub const PPM_ONE: u64 = 1_000_000;

/// Number of blocks behind at which data freshness reaches zero.
pub const FRESHNESS_HORIZON: u64 = 50_000;

/// `1 - fee / budget` in parts per million, rounded down and clamped to
/// `[0, 1]`; a zero fee scores one.
pub open spec fn price_efficiency_spec(fee: nat, budget: nat) -> nat {
    if fee == 0 {
        PPM_ONE as nat
    } else if fee >= budget {
        0
    } else {
        (((budget - fee) * PPM_ONE) / (budget as int)) as nat
    }
}

/// Freshness in parts per million: zero when the latest block is required
/// and the indexer is behind at all, else falling linearly to zero at the
/// horizon.
pub open spec fn data_freshness_spec(blocks_behind: nat, has_latest: bool) -> nat {
    if has_latest && blocks_behind > 0 {
        0
    } else if blocks_behind >= FRESHNESS_HORIZON {
        0
    } else {
        ((FRESHNESS_HORIZON - blocks_behind) * PPM_ONE / (FRESHNESS_HORIZON as int)) as nat
    }
}

/// How much of the budget a fee leaves, in parts per million.
pub fn price_efficiency(fee: &GRT, budget: &GRT) -> (r: u64)
    requires
        budget.value() * PPM_ONE <= max256(),
    ensures
        r as nat == price_efficiency_spec(fee.value(), budget.value()),
        r <= PPM_ONE,
{
    if fee.internal.is_zero() {
        PPM_ONE
    } else if le(budget.internal, fee.internal) {
        0
    } else {
        let left = crate::uint256::sub(budget.internal, fee.internal);
        let ghost b = budget.value();
        let ghost l = left.value();
        assert(l * PPM_ONE <= b * PPM_ONE) by (nonlinear_arith)
            requires
                l <= b,
        ;
        let scaled = crate::uint256::mul(left, Uint256::from_u128(PPM_ONE as u128));
        let q = div_mod(scaled, budget.internal).0;
        assert(q.value() <= PPM_ONE) by (nonlinear_arith)
            requires
                q.value() == (l * PPM_ONE) / (b as int),
                l < b,
                b > 0,
        ;
        low_word(&q)
    }
}

/// How fresh an indexer's data is, in parts per million.
pub fn data_freshness(blocks_behind: u64, has_latest: bool) -> (r: u64)
    ensures
        r as nat == data_freshness_spec(blocks_behind as nat, has_latest),
        r <= PPM_ONE,
{
    if has_latest && blocks_behind > 0 {
        0
    } else if blocks_behind >= FRESHNESS_HORIZON {
        0
    } else {
        (FRESHNESS_HORIZON - blocks_behind) * PPM_ONE / FRESHNESS_HORIZON
    }
}

} // verus!
