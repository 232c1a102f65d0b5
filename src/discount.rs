use vstd::prelude::*;

use crate::decimal::{lemma_pow10_18, lemma_pow10_le, pow10, pow10_exec, Decimal, MAX_SCALE};

verus! {

/// An exact percentage: `numerator / denominator` percent.
#[derive(Clone, Copy, Debug, PartialEq, Eq, Structural)]
pub struct Percentage {
    pub numerator: i128,
    pub denominator: i128,
}

impl Percentage {
    pub open spec fn wf(self) -> bool {
        self.denominator > 0
    }

    /// The percentage `n / 1`.
    pub open spec fn whole(n: int) -> Percentage {
        Percentage { numerator: n as i128, denominator: 1 }
    }
}

/// A decimal written as a whole number of `10^-18` units.
pub open spec fn amount(d: Decimal) -> int {
    d.units * pow10((MAX_SCALE - d.scale) as nat)
}

/// The discount that takes `original` down to `target`:
/// `100 * (original - target) / original`, clamped to `[0, 100]`, and `0`
/// where `original` is not positive.
pub open spec fn discount_of(original: Decimal, target: Decimal) -> Percentage {
    let o = amount(original);
    let t = amount(target);
    if o <= 0 || t >= o {
        Percentage::whole(0)
    } else if t <= 0 {
        Percentage::whole(100)
    } else {
        Percentage { numerator: (100 * (o - t)) as i128, denominator: o as i128 }
    }
}

/// The bound on the magnitude of a valid decimal's amount: `10^36`.
pub const AMOUNT_LIMIT: i128 = 1_000_000_000_000_000_000_000_000_000_000_000_000;

/// A valid decimal's amount has magnitude below `10^36`.
pub proof fn lemma_amount_bound(d: Decimal)
    requires
        d.wf(),
    ensures
        -AMOUNT_LIMIT < amount(d) < AMOUNT_LIMIT,
        (amount(d) > 0) == (d.units > 0),
        (amount(d) == 0) == (d.units == 0),
{
    let k = pow10((MAX_SCALE - d.scale) as nat);
    lemma_pow10_le((MAX_SCALE - d.scale) as nat, 18);
    let b = pow10(18);
    let u = d.units as int;
    lemma_pow10_18();
    assert(-b * b < u * k < b * b) by (nonlinear_arith)
        requires
            1 <= k <= b,
            -b < u < b,
    ;
    assert((u * k > 0) == (u > 0)) by (nonlinear_arith)
        requires
            k >= 1,
    ;
    assert((u * k == 0) == (u == 0)) by (nonlinear_arith)
        requires
            k >= 1,
    ;
}

/// The amount of a valid decimal, computed.
fn amount_exec(d: Decimal) -> (r: i128)
    requires
        d.wf(),
    ensures
        r == amount(d),
{
    proof {
        lemma_amount_bound(d);
        lemma_pow10_18();
    }
    let k = pow10_exec(MAX_SCALE - d.scale);
    d.units as i128 * k
}

/// The percentage by which `original_price` must decrease to reach
/// `target_price`, clamped to `[0, 100]`; no discount from a base price that is
/// not positive.
pub fn calculate_discount_percentage(original_price: Decimal, target_price: Decimal) -> (r:
    Percentage)
    requires
        original_price.wf(),
        target_price.wf(),
    ensures
        r == discount_of(original_price, target_price),
        r.wf(),
{
    let o = amount_exec(original_price);
    let t = amount_exec(target_price);
    proof {
        lemma_amount_bound(original_price);
        lemma_amount_bound(target_price);
        lemma_pow10_18();
    }
    if o <= 0 || t >= o {
        Percentage { numerator: 0, denominator: 1 }
    } else if t <= 0 {
        Percentage { numerator: 100, denominator: 1 }
    } else {
        Percentage { numerator: 100 * (o - t), denominator: o }
    }
}

/// For a positive original price, the discount lies between 0 and 100 percent,
/// whatever the target price.
pub proof fn lemma_discount_in_range(original: Decimal, target: Decimal)
    requires
        original.wf(),
        target.wf(),
        original.units > 0,
    ensures
        discount_of(original, target).wf(),
        0 <= discount_of(original, target).numerator <= 100 * discount_of(
            original,
            target,
        ).denominator,
{
    lemma_amount_bound(original);
    lemma_amount_bound(target);
    lemma_pow10_18();
}

/// An original price that is zero or negative gives no discount, whatever the
/// target price.
pub proof fn lemma_no_discount_from_nonpositive(original: Decimal, target: Decimal)
    requires
        original.wf(),
        target.wf(),
        original.units <= 0,
    ensures
        discount_of(original, target) == Percentage::whole(0),
{
    lemma_amount_bound(original);
}

/// A target price equal to the original price gives no discount.
pub proof fn lemma_same_price_no_discount(price: Decimal)
    requires
        price.wf(),
    ensures
        discount_of(price, price) == Percentage::whole(0),
{
}

/// A target price of zero takes a positive original price down by the full
/// hundred percent.
pub proof fn lemma_zero_target_full_discount(original: Decimal, target: Decimal)
    requires
        original.wf(),
        target.wf(),
        original.units > 0,
        target.units == 0,
    ensures
        discount_of(original, target) == Percentage::whole(100),
{
    lemma_amount_bound(original);
    lemma_amount_bound(target);
}

/// For a positive original price, a lower target price never gives a smaller
/// discount: the percentages compare as fractions.
pub proof fn lemma_discount_monotone(original: Decimal, lower: Decimal, higher: Decimal)
    requires
        original.wf(),
        lower.wf(),
        higher.wf(),
        original.units > 0,
        amount(lower) <= amount(higher),
    ensures
        discount_of(original, lower).numerator * discount_of(original, higher).denominator
            >= discount_of(original, higher).numerator * discount_of(original, lower).denominator,
{
    lemma_amount_bound(original);
    lemma_amount_bound(lower);
    lemma_amount_bound(higher);
    lemma_pow10_18();
    let o = amount(original);
    let a = amount(lower);
    let b = amount(higher);
    let p = discount_of(original, lower);
    let q = discount_of(original, higher);
    if 0 < a && a < o && 0 < b && b < o {
        assert(p.numerator == 100 * (o - a) && p.denominator == o);
        assert(q.numerator == 100 * (o - b) && q.denominator == o);
        assert(p.numerator * q.denominator >= q.numerator * p.denominator) by (nonlinear_arith)
            requires
                p.numerator == 100 * (o - a),
                p.denominator == o,
                q.numerator == 100 * (o - b),
                q.denominator == o,
                a <= b,
                o > 0,
        ;
    } else if 0 < a && a < o {
        assert(b >= o);
        assert(q == Percentage::whole(0));
        assert(p.numerator * q.denominator >= q.numerator * p.denominator) by (nonlinear_arith)
            requires
                p.numerator >= 0,
                q.numerator == 0,
                q.denominator == 1,
        ;
    } else if 0 < b && b < o {
        assert(a <= 0);
        assert(p == Percentage::whole(100));
        assert(q.numerator == 100 * (o - b) && q.denominator == o);
        assert(p.numerator * q.denominator >= q.numerator * p.denominator) by (nonlinear_arith)
            requires
                p.numerator == 100,
                p.denominator == 1,
                q.numerator == 100 * (o - b),
                q.denominator == o,
                b > 0,
        ;
    }
}

} // verus!
