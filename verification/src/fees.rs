use vstd::prelude::*;
use crate::errors::ContractError;
use crate::math::{checked_mul_ratio, lemma_div_sum_le, lemma_payout_le_pool};
use crate::types::{Transfer, WalletInfo, FEE_PRECISION, RATIO_PRECISION};
use vstd::arithmetic::div_mod::lemma_div_pos_is_pos;
use vstd::arithmetic::mul::{lemma_mul_is_distributive_add, lemma_mul_nonnegative};

verus! {

/// The protocol fee owed on a commissionable total: the configured rate is a
/// numerator over `FEE_PRECISION * 100`, and the product is rounded down.
pub open spec fn spec_gaming_fee(gaming_fee: u128, gross: int) -> int {
    gaming_fee * gross / ((FEE_PRECISION * 100) as int)
}

/// One recipient's share of a fee: the fee scaled by the recipient's ratio,
/// rounded down.
pub open spec fn spec_fee_share(fee: u128, ratio: u128) -> int {
    fee * ratio / (RATIO_PRECISION as int)
}

/// The declared ratios of a recipient list, added up.
pub open spec fn sum_ratios(ws: Seq<WalletInfo>) -> int
    decreases ws.len(),
{
    if ws.len() == 0 {
        0
    } else {
        ws[0].ratio + sum_ratios(ws.drop_first())
    }
}

/// The floored shares of a recipient list, added up.
pub open spec fn sum_shares(fee: u128, ws: Seq<WalletInfo>) -> int
    decreases ws.len(),
{
    if ws.len() == 0 {
        0
    } else {
        spec_fee_share(fee, ws[0].ratio) + sum_shares(fee, ws.drop_first())
    }
}

/// Compute the protocol fee on a commissionable payout total.
///
/// The only failure is arithmetic: a rate so large that the fee itself
/// leaves the 128-bit range.
pub fn compute_gaming_fee(gaming_fee: u128, gross: u128) -> (r: Result<u128, ContractError>)
    ensures
        r is Ok <==> spec_gaming_fee(gaming_fee, gross as int) <= u128::MAX,
        r matches Ok(f) ==> f == spec_gaming_fee(gaming_fee, gross as int),
        r is Err ==> (r matches Err(e) && e is Overflow),
{
    match checked_mul_ratio(gaming_fee, gross, FEE_PRECISION * 100) {
        Some(f) => Ok(f),
        None => Err(ContractError::Overflow),
    }
}

pub proof fn lemma_sum_ratios_nonneg(ws: Seq<WalletInfo>)
    ensures
        0 <= sum_ratios(ws),
    decreases ws.len(),
{
    if ws.len() > 0 {
        lemma_sum_ratios_nonneg(ws.drop_first());
    }
}

/// Appending a recipient adds exactly its ratio to the sum.
pub proof fn lemma_sum_ratios_push(ws: Seq<WalletInfo>, w: WalletInfo)
    ensures
        sum_ratios(ws.push(w)) == sum_ratios(ws) + w.ratio,
    decreases ws.len(),
{
    if ws.len() == 0 {
        assert(ws.push(w).drop_first() =~= ws);
    } else {
        assert(ws.push(w).drop_first() =~= ws.drop_first().push(w));
        lemma_sum_ratios_push(ws.drop_first(), w);
    }
}

/// One more element extends a prefix sum by exactly that element's ratio.
pub proof fn lemma_sum_ratios_take_succ(ws: Seq<WalletInfo>, i: int)
    requires
        0 <= i < ws.len(),
    ensures
        sum_ratios(ws.take(i + 1)) == sum_ratios(ws.take(i)) + ws[i].ratio,
{
    assert(ws.take(i + 1) =~= ws.take(i).push(ws[i]));
    lemma_sum_ratios_push(ws.take(i), ws[i]);
}

/// A prefix of the recipient list never out-sums the whole list.
pub proof fn lemma_sum_ratios_prefix_le(ws: Seq<WalletInfo>, k: int)
    requires
        0 <= k <= ws.len(),
    ensures
        sum_ratios(ws.take(k)) <= sum_ratios(ws),
    decreases ws.len() - k,
{
    if k == ws.len() {
        assert(ws.take(k) =~= ws);
    } else {
        lemma_sum_ratios_take_succ(ws, k);
        lemma_sum_ratios_prefix_le(ws, k + 1);
    }
}

/// Each declared ratio is covered by the sum of all of them.
proof fn lemma_ratio_le_sum(ws: Seq<WalletInfo>, i: int)
    requires
        0 <= i < ws.len(),
    ensures
        ws[i].ratio <= sum_ratios(ws),
    decreases ws.len(),
{
    lemma_sum_ratios_nonneg(ws.drop_first());
    if i > 0 {
        lemma_ratio_le_sum(ws.drop_first(), i - 1);
    }
}

/// Split a fee among the configured recipients, one transfer per recipient,
/// each the floor of the fee scaled by that recipient's ratio.
pub fn split_fee(fee: u128, wallets: &Vec<WalletInfo>) -> (r: Vec<Transfer>)
    requires
        sum_ratios(wallets@) <= RATIO_PRECISION,
    ensures
        r.len() == wallets.len(),
        forall|i: int|
            0 <= i < r.len() ==> #[trigger] r[i].amount == spec_fee_share(fee, wallets@[i].ratio),
        forall|i: int| 0 <= i < r.len() ==> #[trigger] r[i].to_address@ == wallets@[i].address@,
{
    let mut out: Vec<Transfer> = Vec::new();
    let n = wallets.len();
    for idx in 0..n
        invariant
            n == wallets.len(),
            sum_ratios(wallets@) <= RATIO_PRECISION,
            out.len() == idx,
            forall|i: int|
                0 <= i < idx ==> #[trigger] out[i].amount == spec_fee_share(
                    fee,
                    wallets@[i].ratio,
                ),
            forall|i: int| 0 <= i < idx ==> #[trigger] out[i].to_address@ == wallets@[i].address@,
    {
        let w = &wallets[idx];
        proof {
            lemma_ratio_le_sum(wallets@, idx as int);
            lemma_payout_le_pool(fee as int, w.ratio as int, RATIO_PRECISION as int);
        }
        let share = match checked_mul_ratio(fee, w.ratio, RATIO_PRECISION) {
            Some(v) => v,
            None => 0,
        };
        out.push(Transfer { to_address: w.address.clone(), amount: share });
    }
    out
}

/// The total handed to recipients is at most the pool scaled by their
/// combined ratio, rounded down.
proof fn lemma_sum_shares_bound(fee: u128, ws: Seq<WalletInfo>)
    ensures
        sum_shares(fee, ws) <= fee * sum_ratios(ws) / (RATIO_PRECISION as int),
    decreases ws.len(),
{
    let rp = RATIO_PRECISION as int;
    if ws.len() == 0 {
        lemma_div_pos_is_pos(0, rp);
    } else {
        let rest = ws.drop_first();
        let r0 = ws[0].ratio as int;
        lemma_sum_shares_bound(fee, rest);
        lemma_sum_ratios_nonneg(rest);
        lemma_mul_nonnegative(fee as int, r0);
        lemma_mul_nonnegative(fee as int, sum_ratios(rest));
        lemma_div_sum_le(fee * r0, fee * sum_ratios(rest), rp);
        lemma_mul_is_distributive_add(fee as int, r0, sum_ratios(rest));
    }
}

/// Fee accounting: when the recipients' ratios sum to at most one, the
/// floored shares handed out sum to at most the fee itself; whatever the
/// flooring loses stays with the protocol.
pub proof fn lemma_fee_split_conservation(fee: u128, ws: Seq<WalletInfo>)
    requires
        sum_ratios(ws) <= RATIO_PRECISION,
    ensures
        sum_shares(fee, ws) <= fee,
{
    lemma_sum_shares_bound(fee, ws);
    lemma_sum_ratios_nonneg(ws);
    lemma_payout_le_pool(fee as int, sum_ratios(ws), RATIO_PRECISION as int);
}

} // verus!
