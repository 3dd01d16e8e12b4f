//! The pricing engine and the fee splitter.
use vstd::prelude::*;
use vstd::arithmetic::div_mod::{
    lemma_div_is_ordered, lemma_div_multiples_vanish, lemma_fundamental_div_mod, lemma_mod_bound,
};

use crate::error::GGError;

verus! {

/// Base value units (lamports) per whole unit.
pub const UNIT_SCALE: u64 = 1_000_000_000;

/// Divisor that sets the steepness of the price curve.
pub const CURVE_FACTOR: u64 = 1600;

/// Protocol fee rate, in base units per whole unit (5%).
pub const PROTOCOL_FEE_PERCENT: u64 = 50_000_000;

/// Fee for minting a subject (half a whole unit).
pub const MINT_FEE: u64 = 500_000_000;

/// Subject fee rate, in base units per whole unit (5%).
pub const SUBJECT_FEE_PERCENT: u64 = 50_000_000;

/// The product whose sixth is the series `S(n)`.
pub open spec fn series_product(n: int) -> int {
    (n - 1) * n * (2 * (n - 1) + 1)
}

/// `S(n) = (n-1) * n * (2(n-1)+1) / 6` for `n > 0`, and `S(0) = 0`:
/// the sum of the squares below `n`.
pub open spec fn series(n: int) -> int {
    if n <= 0 {
        0
    } else {
        series_product(n) / 6
    }
}

/// The product behind `S(n)` fits in 128 bits.
pub open spec fn series_fits(n: int) -> bool {
    n <= 0 || series_product(n) <= u128::MAX
}

/// The sum of the squares `0^2 + 1^2 + ... + (n-1)^2`.
pub open spec fn sum_squares(n: nat) -> nat
    decreases n,
{
    if n == 0 {
        0
    } else {
        sum_squares((n - 1) as nat) + ((n - 1) * (n - 1)) as nat
    }
}

/// The curve's price, in base units, to move `amount` units of supply
/// starting at `supply`; `None` where a checked step fails.
pub open spec fn curve_price(supply: int, amount: int) -> Option<int> {
    if supply == 0 {
        if amount == 1 {
            Some(0)
        } else {
            None
        }
    } else {
        let raw = series(supply - 1 + amount) - series(supply - 1);
        let p = raw * (UNIT_SCALE as int) / (CURVE_FACTOR as int);
        if series_fits(supply - 1 + amount) && p <= u64::MAX {
            Some(p)
        } else {
            None
        }
    }
}

/// `curve_price` as the result that `get_price` returns.
pub open spec fn price_result(supply: int, amount: int) -> Result<u64, GGError> {
    match curve_price(supply, amount) {
        Some(p) => Ok(p as u64),
        None => Err(GGError::MathOverflow),
    }
}

/// The price of selling `amount` units when the supply is `supply`.
pub open spec fn sell_price_result(supply: int, amount: int) -> Result<u64, GGError> {
    if amount > supply {
        Err(GGError::MathUnderflow)
    } else {
        price_result(supply - amount, amount)
    }
}

/// A fee at `rate` base units per whole unit, rounded down.
pub open spec fn fee_of(price: int, rate: int) -> int {
    price * rate / (UNIT_SCALE as int)
}

/// `S(n)` is the sum of the squares below `n`.
pub proof fn lemma_series_is_sum_squares(n: nat)
    ensures
        series(n as int) == sum_squares(n),
        n >= 1 ==> series_product(n as int) == 6 * sum_squares(n),
    decreases n,
{
    if n == 1 {
        assert(series_product(1) == 0);
        assert(sum_squares(1) == 0) by {
            assert(sum_squares(1) == sum_squares(0) + 0);
        }
    } else if n >= 2 {
        let m = (n - 1) as nat;
        lemma_series_is_sum_squares(m);
        assert(sum_squares(n) == sum_squares(m) + m * m);
        let pm = series_product(m as int);
        let pn = series_product(n as int);
        assert(pn == pm + 6 * (m * m)) by (nonlinear_arith)
            requires
                m == n - 1,
                pm == (m - 1) * m * (2 * (m - 1) + 1),
                pn == (n - 1) * n * (2 * (n - 1) + 1),
        ;
        assert(pn == 6 * sum_squares(n));
    }
    if n >= 1 {
        lemma_div_multiples_vanish(sum_squares(n) as int, 6);
        assert(series(n as int) == series_product(n as int) / 6);
    }
}

/// The sum of squares grows with its bound.
pub proof fn lemma_sum_squares_monotonic(lo: nat, hi: nat)
    requires
        lo <= hi,
    ensures
        sum_squares(lo) <= sum_squares(hi),
    decreases hi,
{
    if lo < hi {
        lemma_sum_squares_monotonic(lo, (hi - 1) as nat);
    }
}

/// A product larger than the 128-bit range, scaled and divided by the curve
/// factor, is larger than the 64-bit range.
proof fn lemma_scaled_out_of_range(x: int)
    requires
        x > u128::MAX,
    ensures
        x / (CURVE_FACTOR as int) > u64::MAX,
{
    let bound = (u64::MAX + 1) as int;
    lemma_div_is_ordered(1600 * bound, x, CURVE_FACTOR as int);
    lemma_div_multiples_vanish(bound, 1600);
}

/// `S(n)` computed with every step checked.
fn checked_series(n: u128) -> (r: Option<u128>)
    requires
        n <= u64::MAX as u128 * 2,
    ensures
        r == (if series_fits(n as int) {
            Some(series(n as int) as u128)
        } else {
            None
        }),
{
    if n == 0 {
        return Some(0);
    }
    let lower = n - 1;
    let odd = 2 * lower + 1;
    let first = match lower.checked_mul(n) {
        Some(v) => v,
        None => {
            assert(series_product(n as int) > u128::MAX) by (nonlinear_arith)
                requires
                    lower as int * n as int > u128::MAX,
                    odd >= 1,
                    series_product(n as int) == (lower as int * n as int) * odd as int,
            ;
            return None;
        },
    };
    let product = match first.checked_mul(odd) {
        Some(v) => v,
        None => return None,
    };
    proof {
        lemma_series_is_sum_squares(n as nat);
    }
    Some(product / 6)
}

/// The curve's price to move `amount` units of supply starting at `supply`.
/// Every step is checked; any overflow, or a supply of zero with an amount
/// other than one, is `MathOverflow`.
pub fn get_price(supply: u64, amount: u64) -> (r: Result<u64, GGError>)
    ensures
        r == price_result(supply as int, amount as int),
{
    if supply == 0 {
        if amount == 1 {
            return Ok(0);
        } else {
            return Err(GGError::MathOverflow);
        }
    }
    let lo_n = (supply - 1) as u128;
    let hi_n = lo_n + amount as u128;
    let hi = match checked_series(hi_n) {
        Some(v) => v,
        None => return Err(GGError::MathOverflow),
    };
    proof {
        lemma_series_is_sum_squares(lo_n as nat);
        lemma_series_is_sum_squares(hi_n as nat);
        lemma_sum_squares_monotonic(lo_n as nat, hi_n as nat);
        if lo_n >= 1 {
            assert(series_product(lo_n as int) <= series_product(hi_n as int));
        }
    }
    let lo = match checked_series(lo_n) {
        Some(v) => v,
        None => return Err(GGError::MathOverflow),
    };
    let summation = hi - lo;
    let scaled = match summation.checked_mul(UNIT_SCALE as u128) {
        Some(v) => v,
        None => {
            proof {
                lemma_scaled_out_of_range(summation as int * UNIT_SCALE as int);
            }
            return Err(GGError::MathOverflow);
        },
    };
    let p = scaled / CURVE_FACTOR as u128;
    if p > u64::MAX as u128 {
        Err(GGError::MathOverflow)
    } else {
        Ok(p as u64)
    }
}

/// The price of buying `amount` units at supply `shares_supply`.
pub fn get_buy_price(shares_supply: u64, amount: u64) -> (r: Result<u64, GGError>)
    ensures
        r == price_result(shares_supply as int, amount as int),
{
    get_price(shares_supply, amount)
}

/// The price of selling `amount` units at supply `shares_supply`: the buy
/// price of the same units at the supply left after the sale.
pub fn get_sell_price(shares_supply: u64, amount: u64) -> (r: Result<u64, GGError>)
    ensures
        r == sell_price_result(shares_supply as int, amount as int),
{
    if amount > shares_supply {
        return Err(GGError::MathUnderflow);
    }
    get_price(shares_supply - amount, amount)
}

/// Both fees of a price: `Ok((protocol_fee, subject_fee))`, each the price
/// times its rate over the unit scale, rounded down. The product is taken in
/// 128 bits, so the split never fails.
pub fn split_fees(price: u64) -> (r: Result<(u64, u64), GGError>)
    ensures
        r == Ok::<(u64, u64), GGError>(
            (
                fee_of(price as int, PROTOCOL_FEE_PERCENT as int) as u64,
                fee_of(price as int, SUBJECT_FEE_PERCENT as int) as u64,
            ),
        ),
{
    proof {
        lemma_fees_within_price(price as int);
    }
    let protocol_fee = (price as u128 * PROTOCOL_FEE_PERCENT as u128) / UNIT_SCALE as u128;
    let subject_fee = (price as u128 * SUBJECT_FEE_PERCENT as u128) / UNIT_SCALE as u128;
    Ok((protocol_fee as u64, subject_fee as u64))
}

/// A fee at a rate of at most one whole unit is a non-negative share of the
/// price, rounded down.
pub proof fn lemma_fee_bound(price: int, rate: int)
    requires
        0 <= price,
        0 <= rate <= UNIT_SCALE,
    ensures
        0 <= fee_of(price, rate),
        fee_of(price, rate) * UNIT_SCALE <= price * rate,
{
    let x = price * rate;
    assert(0 <= x) by (nonlinear_arith)
        requires
            0 <= price,
            0 <= rate,
            x == price * rate,
    ;
    lemma_fundamental_div_mod(x, UNIT_SCALE as int);
    lemma_mod_bound(x, UNIT_SCALE as int);
}

/// The two fees together never exceed the price, so the net amount of a
/// trade is never negative.
pub proof fn lemma_fees_within_price(price: int)
    requires
        0 <= price,
    ensures
        0 <= fee_of(price, PROTOCOL_FEE_PERCENT as int),
        0 <= fee_of(price, SUBJECT_FEE_PERCENT as int),
        fee_of(price, PROTOCOL_FEE_PERCENT as int) + fee_of(price, SUBJECT_FEE_PERCENT as int)
            <= price,
{
    lemma_fee_bound(price, PROTOCOL_FEE_PERCENT as int);
    lemma_fee_bound(price, SUBJECT_FEE_PERCENT as int);
}

/// For a positive supply, the curve's price is the sum of the squares between
/// the two bounds times the whole-unit price of one square, `UNIT_SCALE /
/// CURVE_FACTOR`.
pub proof fn lemma_curve_price_value(supply: int, amount: int)
    requires
        supply >= 1,
        amount >= 0,
    ensures
        ({
            let raw = sum_squares((supply - 1 + amount) as nat) - sum_squares((supply - 1) as nat);
            &&& raw >= 0
            &&& curve_price(supply, amount) == (if series_fits(supply - 1 + amount) && raw
                * 625000 <= u64::MAX {
                Some(raw * 625000)
            } else {
                None
            })
        }),
{
    let lo = (supply - 1) as nat;
    let hi = (supply - 1 + amount) as nat;
    lemma_series_is_sum_squares(lo);
    lemma_series_is_sum_squares(hi);
    lemma_sum_squares_monotonic(lo, hi);
    let raw = sum_squares(hi) - sum_squares(lo);
    assert(raw * (UNIT_SCALE as int) == 1600 * (raw * 625000));
    lemma_div_multiples_vanish(raw * 625000, 1600);
}

/// Where every product behind the series fits, it fits for every smaller
/// bound too.
proof fn lemma_series_fits_monotonic(lo: int, hi: int)
    requires
        lo <= hi,
        series_fits(hi),
    ensures
        series_fits(lo),
{
    if lo >= 1 {
        lemma_series_is_sum_squares(lo as nat);
        lemma_series_is_sum_squares(hi as nat);
        lemma_sum_squares_monotonic(lo as nat, hi as nat);
    }
}

/// Buying `amount` units at `supply` costs exactly what selling them back at
/// `supply + amount` returns: both prices agree, or both fail with the same
/// error.
pub proof fn lemma_round_trip(supply: u64, amount: u64)
    requires
        1 <= supply < u64::MAX,
        amount <= u64::MAX - supply,
    ensures
        price_result(supply as int, amount as int) == sell_price_result(
            supply + amount,
            amount as int,
        ),
{
}

/// At a fixed supply, one unit more costs strictly more, wherever the larger
/// purchase has a price; the sole pair on which both prices are equal, zero,
/// is a supply of one and an amount of zero.
pub proof fn lemma_price_increases_with_amount(supply: u64, amount: u64)
    requires
        supply >= 1,
        supply + amount >= 2,
        amount < u64::MAX,
        price_result(supply as int, amount + 1) is Ok,
    ensures
        price_result(supply as int, amount as int) is Ok,
        price_result(supply as int, amount as int)->Ok_0 < price_result(
            supply as int,
            amount + 1,
        )->Ok_0,
{
    let s = supply as int;
    let a = amount as int;
    lemma_curve_price_value(s, a);
    lemma_curve_price_value(s, a + 1);
    lemma_series_fits_monotonic(s - 1 + a, s + a);
    let k = s + a - 1;
    assert(sum_squares((k + 1) as nat) == sum_squares(k as nat) + k * k);
    assert(k * k > 0) by (nonlinear_arith)
        requires
            k >= 1,
    ;
}

/// For a fixed positive amount, the same purchase costs strictly more at a
/// larger supply, wherever the dearer purchase has a price.
pub proof fn lemma_price_increases_with_supply(supply: u64, amount: u64)
    requires
        supply >= 1,
        supply < u64::MAX,
        amount >= 1,
        price_result(supply + 1, amount as int) is Ok,
    ensures
        price_result(supply as int, amount as int) is Ok,
        price_result(supply as int, amount as int)->Ok_0 < price_result(
            supply + 1,
            amount as int,
        )->Ok_0,
{
    let s = supply as int;
    let a = amount as int;
    lemma_curve_price_value(s, a);
    lemma_curve_price_value(s + 1, a);
    lemma_series_fits_monotonic(s - 1 + a, s + a);
    let k = s + a - 1;
    let j = s - 1;
    assert(sum_squares((k + 1) as nat) == sum_squares(k as nat) + k * k);
    assert(sum_squares((j + 1) as nat) == sum_squares(j as nat) + j * j);
    assert(k * k > j * j) by (nonlinear_arith)
        requires
            j >= 0,
            k > j,
    ;
}

} // verus!
