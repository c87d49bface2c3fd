use vstd::prelude::*;
use vstd::arithmetic::div_mod::{
    lemma_basic_div, lemma_div_nonincreasing, lemma_fundamental_div_mod,
    lemma_fundamental_div_mod_converse_div, lemma_mod_bound, lemma_multiply_divide_le,
};
use vstd::arithmetic::mul::{
    lemma_mul_inequality, lemma_mul_is_commutative, lemma_mul_is_distributive_add,
    lemma_mul_unary_negation,
};
use crate::errors::ContractError;
use crate::types::PRICE_DECIMALS;

verus! {

/// Relies on `cosmwasm_std::Uint128::checked_multiply_ratio`: the result is
/// the full 256-bit product `a * b` divided by `denominator`, rounded down;
/// the call reports an error exactly when the denominator is zero or the
/// quotient exceeds `u128::MAX`.
#[verifier::external_body]
pub(crate) fn checked_mul_ratio(a: u128, b: u128, denominator: u128) -> (r: Option<u128>)
    ensures
        r is Some <==> (denominator != 0 && (a * b) / (denominator as int) <= u128::MAX),
        r is Some ==> r->0 == (a * b) / (denominator as int),
{
    match cosmwasm_std::Uint128::new(a).checked_multiply_ratio(b, denominator) {
        Ok(v) => Some(v.u128()),
        Err(_) => None,
    }
}

/// Rounding down distributes over a sum no worse than it applies to the sum
/// itself: `x / d + y / d <= (x + y) / d`.
pub proof fn lemma_div_sum_le(x: int, y: int, d: int)
    requires
        0 <= x,
        0 <= y,
        0 < d,
    ensures
        x / d + y / d <= (x + y) / d,
{
    let qx = x / d;
    let rx = x % d;
    let qy = y / d;
    let ry = y % d;
    lemma_fundamental_div_mod(x, d);
    lemma_fundamental_div_mod(y, d);
    lemma_mod_bound(x, d);
    lemma_mod_bound(y, d);
    lemma_mul_is_distributive_add(d, qx, qy);
    assert(x + y == d * (qx + qy) + (rx + ry));
    if rx + ry < d {
        assert((qx + qy) * d == d * (qx + qy)) by {
            lemma_mul_is_commutative(qx + qy, d);
        }
        lemma_fundamental_div_mod_converse_div(x + y, d, qx + qy, rx + ry);
    } else {
        assert((qx + qy + 1) * d == d * (qx + qy) + d) by {
            lemma_mul_is_commutative(qx + qy + 1, d);
            lemma_mul_is_distributive_add(d, qx + qy, 1);
        }
        lemma_fundamental_div_mod_converse_div(x + y, d, qx + qy + 1, rx + ry - d);
    }
}

/// A pari-mutuel payout never exceeds the pool: when one stake `amount` is
/// at most the whole winning side `winning_total`, its proportional share
/// `pool * amount / winning_total` is at most `pool`.
pub proof fn lemma_payout_le_pool(pool: int, amount: int, winning_total: int)
    requires
        0 <= pool,
        0 <= amount <= winning_total,
        0 < winning_total,
    ensures
        pool * amount / winning_total <= pool,
{
    lemma_mul_inequality(amount, winning_total, pool);
    lemma_multiply_divide_le(pool * amount, winning_total, pool);
}

/// Ten to the `n`th power.
pub open spec fn spec_pow10(n: nat) -> int
    decreases n,
{
    if n == 0 {
        1
    } else {
        10 * spec_pow10((n - 1) as nat)
    }
}

proof fn lemma_pow10_pos(n: nat)
    ensures
        spec_pow10(n) >= 1,
    decreases n,
{
    if n > 0 {
        lemma_pow10_pos((n - 1) as nat);
    }
}

proof fn lemma_pow10_increases(a: nat, b: nat)
    requires
        a <= b,
    ensures
        spec_pow10(a) <= spec_pow10(b),
    decreases b,
{
    if a < b {
        lemma_pow10_increases(a, (b - 1) as nat);
        lemma_pow10_pos((b - 1) as nat);
    }
}

/// Compute ten to the `n`th power, reporting when it leaves the 128-bit
/// range.
fn pow10_u128(n: u64) -> (r: Option<u128>)
    ensures
        r matches Some(v) ==> v == spec_pow10(n as nat),
        r is None ==> spec_pow10(n as nat) > u128::MAX,
{
    let mut acc: u128 = 1;
    let mut i: u64 = 0;
    while i < n
        invariant
            i <= n,
            acc == spec_pow10(i as nat),
        decreases n - i,
    {
        if acc > u128::MAX / 10 {
            proof {
                lemma_pow10_increases((i + 1) as nat, n as nat);
            }
            return None;
        }
        acc = acc * 10;
        i = i + 1;
    }
    Some(acc)
}

/// Division that rounds toward zero, as machine division of signed values
/// does.
pub open spec fn spec_trunc_div(a: int, d: int) -> int {
    if a >= 0 {
        a / d
    } else {
        -((-a) / d)
    }
}

/// A raw oracle price carried at `decimals` decimal places, rescaled to the
/// engine's fixed `PRICE_DECIMALS` places: scaled up exactly when the feed
/// is coarser, scaled down rounding toward zero when it is finer.
pub open spec fn spec_normalized_price(price: int, decimals: u64) -> int {
    if decimals > PRICE_DECIMALS {
        spec_trunc_div(price, spec_pow10((decimals - PRICE_DECIMALS) as nat))
    } else {
        price * spec_pow10((PRICE_DECIMALS - decimals) as nat)
    }
}

/// Rescale a signed oracle price from `decimals` decimal places to the
/// engine's fixed precision.  The only failure is arithmetic: a scaled-up
/// price that leaves the signed 128-bit range.
pub fn normalize_price(price: i128, decimals: u64) -> (r: Result<i128, ContractError>)
    ensures
        r is Ok <==> i128::MIN <= spec_normalized_price(price as int, decimals) <= i128::MAX,
        r matches Ok(v) ==> v == spec_normalized_price(price as int, decimals),
        r is Err ==> (r matches Err(e) && e is Overflow),
{
    let neg = price < 0;
    let mag: u128 = if price == i128::MIN {
        170141183460469231731687303715884105728u128
    } else if price < 0 {
        (-price) as u128
    } else {
        price as u128
    };
    proof {
        assert(mag == (if price >= 0 {
            price as int
        } else {
            -(price as int)
        }));
    }
    if decimals > PRICE_DECIMALS {
        let diff = decimals - PRICE_DECIMALS;
        match pow10_u128(diff) {
            None => {
                // The divisor exceeds every 128-bit magnitude, so any price
                // scales down to zero.
                proof {
                    lemma_basic_div(mag as int, spec_pow10(diff as nat));
                }
                Ok(0)
            },
            Some(factor) => {
                proof {
                    lemma_pow10_pos(diff as nat);
                    lemma_div_nonincreasing(mag as int, factor as int);
                }
                let q = mag / factor;
                if neg {
                    if q == 170141183460469231731687303715884105728u128 {
                        Ok(i128::MIN)
                    } else {
                        Ok(-(q as i128))
                    }
                } else {
                    Ok(q as i128)
                }
            },
        }
    } else {
        let diff = PRICE_DECIMALS - decimals;
        match pow10_u128(diff) {
            None => {
                // The factor alone exceeds the range: only a zero price
                // survives the scaling.
                if price == 0 {
                    Ok(0)
                } else {
                    proof {
                        lemma_mul_inequality(1, mag as int, spec_pow10(diff as nat));
                        if neg {
                            lemma_mul_unary_negation(mag as int, spec_pow10(diff as nat));
                        }
                    }
                    Err(ContractError::Overflow)
                }
            },
            Some(factor) => {
                proof {
                    lemma_pow10_pos(diff as nat);
                    if neg {
                        lemma_mul_unary_negation(mag as int, factor as int);
                    }
                }
                match mag.checked_mul(factor) {
                    None => Err(ContractError::Overflow),
                    Some(prod) => {
                        if neg {
                            if prod > 170141183460469231731687303715884105728u128 {
                                Err(ContractError::Overflow)
                            } else if prod == 170141183460469231731687303715884105728u128 {
                                Ok(i128::MIN)
                            } else {
                                Ok(-(prod as i128))
                            }
                        } else {
                            if prod > i128::MAX as u128 {
                                Err(ContractError::Overflow)
                            } else {
                                Ok(prod as i128)
                            }
                        }
                    },
                }
            },
        }
    }
}

/// Multiply two 64-bit values, reporting an overflow instead of wrapping.
pub fn checked_mul_u64(a: u64, b: u64) -> (r: Option<u64>)
    ensures
        r is Some <==> a * b <= u64::MAX,
        r matches Some(v) ==> v == a * b,
{
    if b == 0 {
        Some(0)
    } else if a <= u64::MAX / b {
        proof {
            lemma_mul_inequality(a as int, (u64::MAX / b) as int, b as int);
            lemma_fundamental_div_mod(u64::MAX as int, b as int);
            lemma_mod_bound(u64::MAX as int, b as int);
            lemma_mul_is_commutative((u64::MAX / b) as int, b as int);
        }
        Some(a * b)
    } else {
        proof {
            lemma_mul_inequality((u64::MAX / b + 1) as int, a as int, b as int);
            lemma_fundamental_div_mod(u64::MAX as int, b as int);
            lemma_mod_bound(u64::MAX as int, b as int);
            lemma_mul_is_commutative((u64::MAX / b + 1) as int, b as int);
            lemma_mul_is_distributive_add(b as int, (u64::MAX / b) as int, 1);
            lemma_mul_is_commutative((u64::MAX / b) as int, b as int);
        }
        None
    }
}

} // verus!
