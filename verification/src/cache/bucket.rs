//! Buckets of amounts.
//!
//! Amounts that agree in their first two decimal digits and in their number
//! of digits fall into one bucket, so that a cached result serves all of them.

use vstd::prelude::*;
use crate::utils::uint::{decimal_text, lemma_floor_bounds, lemma_view_bound, U256};

verus! {

/// The power of ten that stands for the digits of `amount` after its first
/// two: 1 for an amount of one or two digits.
pub open spec fn bucket_scale(amount: nat) -> nat
    decreases amount,
{
    if amount < 100 {
        1
    } else {
        10 * bucket_scale(amount / 10)
    }
}

/// The first two decimal digits of `amount` as a number; the amount itself
/// where it has fewer than three digits.
pub open spec fn leading_digits(amount: nat) -> nat {
    amount / bucket_scale(amount)
}

/// The number of decimal digits of `amount`; one for zero.
pub open spec fn digit_count(amount: nat) -> nat
    decreases amount,
{
    if amount < 10 {
        1
    } else {
        1 + digit_count(amount / 10)
    }
}

/// The bucket of `amount`: the amount with all digits but the first two
/// replaced by zeros.
pub open spec fn bucket_of(amount: nat) -> nat {
    leading_digits(amount) * bucket_scale(amount)
}

/// The scale of an amount is not zero and not above the amount, but for the
/// amount zero.
pub proof fn lemma_bucket_scale_bounds(amount: nat)
    ensures
        bucket_scale(amount) >= 1,
        amount >= 1 ==> bucket_scale(amount) <= amount,
    decreases amount,
{
    if amount >= 100 {
        lemma_bucket_scale_bounds(amount / 10);
    }
}

/// Amounts with the same number of digits have the same scale.
pub proof fn lemma_scale_by_digit_count(a: nat, b: nat)
    requires
        digit_count(a) == digit_count(b),
    ensures
        bucket_scale(a) == bucket_scale(b),
    decreases a,
{
    reveal_with_fuel(digit_count, 3);
    if a >= 100 && b >= 100 {
        lemma_scale_by_digit_count(a / 10, b / 10);
    }
}

/// Two amounts with the same first two digits and the same number of digits
/// share a bucket.
pub proof fn lemma_same_digits_same_bucket(a: nat, b: nat)
    requires
        digit_count(a) == digit_count(b),
        leading_digits(a) == leading_digits(b),
    ensures
        bucket_of(a) == bucket_of(b),
{
    lemma_scale_by_digit_count(a, b);
}

/// The bucket of `amount` as a number, see [`bucket_of`].
pub fn bucket_value(amount: U256) -> (r: U256)
    ensures
        r@ == bucket_of(amount@),
{
    let ten = U256::from_u64(10);
    let hundred = U256::from_u64(100);
    let mut scale = U256::one();
    let mut rest = amount;
    proof {
        assert(1 * amount@ == amount@) by (nonlinear_arith);
        assert(1 * bucket_scale(amount@) == bucket_scale(amount@)) by (nonlinear_arith);
    }
    while !rest.lt(&hundred)
        invariant
            ten@ == 10,
            hundred@ == 100,
            scale@ >= 1,
            scale@ * rest@ <= amount@,
            bucket_scale(amount@) == scale@ * bucket_scale(rest@),
        decreases rest@,
    {
        proof {
            lemma_view_bound(amount);
            let next = rest@ / 10;
            assert(scale@ * 10 * next <= scale@ * rest@) by (nonlinear_arith)
                requires
                    next * 10 <= rest@,
            ;
            assert(scale@ * 10 <= scale@ * 10 * next) by (nonlinear_arith)
                requires
                    next >= 1,
            ;
            assert(scale@ * bucket_scale(rest@) == scale@ * 10 * bucket_scale(next))
                by (nonlinear_arith)
                requires
                    bucket_scale(rest@) == 10 * bucket_scale(next),
            ;
        }
        rest = rest.div(ten);
        scale = scale.wrapping_mul(ten);
    }
    proof {
        lemma_view_bound(amount);
        assert(scale@ * 1 == scale@) by (nonlinear_arith);
        let lead = amount@ / scale@;
        lemma_floor_bounds(amount@, scale@);
    }
    amount.div(scale).wrapping_mul(scale)
}

/// The bucket of `amount` as a decimal numeral: the numeral of the amount
/// with all digits but the first two replaced by `0`.
pub fn bucket_amount(amount: U256) -> (r: String)
    ensures
        r@ == decimal_text(bucket_of(amount@)),
{
    bucket_value(amount).to_decimal_string()
}

} // verus!
