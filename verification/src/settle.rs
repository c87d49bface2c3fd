use vstd::prelude::*;
use crate::errors::ContractError;
use crate::math::{checked_mul_ratio, lemma_div_sum_le, lemma_payout_le_pool};
use crate::types::{Direction, FinishedRound};
use vstd::arithmetic::div_mod::lemma_div_pos_is_pos;
use vstd::arithmetic::mul::{lemma_mul_is_distributive_add, lemma_mul_nonnegative};

verus! {

/// The whole pool of a finished round: everything staked on either side.
pub open spec fn spec_pool(r: FinishedRound) -> int {
    r.bull_amount + r.bear_amount
}

/// A round whose positions are all refunded at their own stake: one side
/// never attracted any stake (the pool could not be matched), or the two
/// price observations were equal (a tie, nobody was right).
pub open spec fn spec_refund_round(r: FinishedRound) -> bool {
    r.bull_amount == 0 || r.bear_amount == 0 || r.winner is None
}

/// Everything staked on the resolved winning side.
pub open spec fn spec_winning_total(r: FinishedRound) -> int {
    match r.winner {
        Some(Direction::Bull) => r.bull_amount as int,
        Some(Direction::Bear) => r.bear_amount as int,
        None => 0,
    }
}

/// What one position is owed once its round has finished: its own stake back
/// in a refund round, a proportional (rounded-down) share of the whole pool
/// when it sits on the winning side, and nothing otherwise.
pub open spec fn spec_payout(r: FinishedRound, amount: u128, dir: Direction) -> int {
    if spec_refund_round(r) {
        amount as int
    } else if r.winner == Some(dir) {
        spec_pool(r) * amount / spec_winning_total(r)
    } else {
        0
    }
}

/// Whether payouts of this round count toward the protocol fee: refunds and
/// ties are never commissionable.
pub open spec fn spec_commissionable(r: FinishedRound) -> bool {
    !spec_refund_round(r)
}

/// The winner a pair of observations resolves to: strictly above the opening
/// price the bulls win, strictly below the bears win, equality is a tie.
pub open spec fn spec_winner_of(open_price: i128, close_price: i128) -> Option<Direction> {
    if close_price > open_price {
        Some(Direction::Bull)
    } else if close_price < open_price {
        Some(Direction::Bear)
    } else {
        None
    }
}

/// Settle one position against its finished round: the payout it is owed and
/// whether that payout counts toward the protocol fee.
///
/// The only failure is arithmetic: a pool too large for 128 bits.
pub fn settle(round: &FinishedRound, bet_amount: u128, bet_direction: Direction) -> (r: Result<
    (u128, bool),
    ContractError,
>)
    requires
        (!spec_refund_round(*round) && round.winner == Some(bet_direction)) ==> bet_amount
            <= spec_winning_total(*round),
    ensures
        r is Ok <==> spec_pool(*round) <= u128::MAX,
        r matches Ok(p) ==> p.0 == spec_payout(*round, bet_amount, bet_direction),
        r matches Ok(p) ==> p.1 == spec_commissionable(*round),
        r is Err ==> (r matches Err(e) && e is Overflow),
{
    if round.bull_amount > u128::MAX - round.bear_amount {
        return Err(ContractError::Overflow);
    }
    let pool: u128 = round.bull_amount + round.bear_amount;
    if round.bull_amount == 0 || round.bear_amount == 0 {
        return Ok((bet_amount, false));
    }
    match round.winner {
        None => Ok((bet_amount, false)),
        Some(winner_dir) => {
            if winner_dir == bet_direction {
                let winning_total: u128 = match winner_dir {
                    Direction::Bull => round.bull_amount,
                    Direction::Bear => round.bear_amount,
                };
                proof {
                    lemma_payout_le_pool(pool as int, bet_amount as int, winning_total as int);
                }
                match checked_mul_ratio(pool, bet_amount, winning_total) {
                    Some(v) => Ok((v, true)),
                    None => Err(ContractError::Overflow),
                }
            } else {
                Ok((0, true))
            }
        },
    }
}

/// A payout is never negative.
pub proof fn lemma_payout_nonneg(r: FinishedRound, amount: u128, dir: Direction)
    ensures
        0 <= spec_payout(r, amount, dir),
{
    if !spec_refund_round(r) && r.winner == Some(dir) {
        lemma_div_pos_is_pos(spec_pool(r) * amount, spec_winning_total(r));
        lemma_mul_nonnegative(spec_pool(r), amount as int);
    }
}

/// Sum of the payouts owed to a sequence of positions, each given as its
/// staked amount and chosen side, against one finished round.
pub open spec fn sum_payouts(r: FinishedRound, s: Seq<(u128, Direction)>) -> int
    decreases s.len(),
{
    if s.len() == 0 {
        0
    } else {
        spec_payout(r, s[0].0, s[0].1) + sum_payouts(r, s.drop_first())
    }
}

/// Sum of the amounts a sequence of positions staked on one side.
pub open spec fn sum_side(s: Seq<(u128, Direction)>, dir: Direction) -> int
    decreases s.len(),
{
    if s.len() == 0 {
        0
    } else {
        (if s[0].1 == dir {
            s[0].0 as int
        } else {
            0
        }) + sum_side(s.drop_first(), dir)
    }
}

proof fn lemma_sum_side_nonneg(s: Seq<(u128, Direction)>, dir: Direction)
    ensures
        0 <= sum_side(s, dir),
    decreases s.len(),
{
    if s.len() > 0 {
        lemma_sum_side_nonneg(s.drop_first(), dir);
    }
}

/// In a refund round every position is owed exactly its stake, so the owed
/// total is exactly everything staked.
proof fn lemma_sum_payouts_refund(r: FinishedRound, s: Seq<(u128, Direction)>)
    requires
        spec_refund_round(r),
    ensures
        sum_payouts(r, s) == sum_side(s, Direction::Bull) + sum_side(s, Direction::Bear),
    decreases s.len(),
{
    if s.len() > 0 {
        lemma_sum_payouts_refund(r, s.drop_first());
    }
}

/// In a decided round the owed total is at most the pool scaled by the
/// positions' share of the winning side, rounded down.
proof fn lemma_sum_payouts_decided(r: FinishedRound, s: Seq<(u128, Direction)>, windir: Direction)
    requires
        !spec_refund_round(r),
        r.winner == Some(windir),
    ensures
        sum_payouts(r, s) <= spec_pool(r) * sum_side(s, windir) / spec_winning_total(r),
    decreases s.len(),
{
    let pool = spec_pool(r);
    let w = spec_winning_total(r);
    if s.len() == 0 {
        lemma_div_pos_is_pos(0, w);
    } else {
        let rest = s.drop_first();
        let a0 = s[0].0 as int;
        let srest = sum_side(rest, windir);
        lemma_sum_payouts_decided(r, rest, windir);
        lemma_sum_side_nonneg(rest, windir);
        lemma_mul_nonnegative(pool, srest);
        lemma_mul_nonnegative(pool, a0);
        if s[0].1 == windir {
            lemma_div_sum_le(pool * a0, pool * srest, w);
            lemma_mul_is_distributive_add(pool, a0, srest);
            assert(sum_side(s, windir) == a0 + srest);
        } else {
            assert(spec_payout(r, s[0].0, s[0].1) == 0);
            assert(sum_side(s, windir) == srest);
        }
    }
}

/// Pool conservation: in any finished round with stakes on both sides, the
/// payouts owed to positions whose per-side stakes are covered by the
/// round's recorded totals never exceed the round's whole pool; the
/// difference is the rounding-down loss.
pub proof fn lemma_pool_conservation(r: FinishedRound, s: Seq<(u128, Direction)>)
    requires
        r.bull_amount > 0,
        r.bear_amount > 0,
        sum_side(s, Direction::Bull) <= r.bull_amount,
        sum_side(s, Direction::Bear) <= r.bear_amount,
    ensures
        sum_payouts(r, s) <= spec_pool(r),
{
    match r.winner {
        None => {
            lemma_sum_payouts_refund(r, s);
        },
        Some(windir) => {
            lemma_sum_payouts_decided(r, s, windir);
            lemma_sum_side_nonneg(s, windir);
            lemma_payout_le_pool(spec_pool(r), sum_side(s, windir), spec_winning_total(r));
        },
    }
}

/// Refund correctness: when one side of a finished round holds no stake at
/// all, every position is owed exactly its own stake back, and nothing of it
/// is commissionable, so no fee is taken.
pub proof fn lemma_refund_exact(r: FinishedRound, amount: u128, dir: Direction)
    requires
        r.bull_amount == 0 || r.bear_amount == 0,
    ensures
        spec_payout(r, amount, dir) == amount,
        !spec_commissionable(r),
{
}

/// Tie correctness: when the closing observation equals the opening one, the
/// resolved winner is nobody, every position is owed exactly its own stake
/// back, and nothing of it is commissionable, so no fee is taken.
pub proof fn lemma_tie_refunds(r: FinishedRound, amount: u128, dir: Direction)
    requires
        r.close_price == r.open_price,
        r.winner == spec_winner_of(r.open_price, r.close_price),
    ensures
        spec_payout(r, amount, dir) == amount,
        !spec_commissionable(r),
{
}

} // verus!
