//! What rounding leaves of the laws of arithmetic.

use super::rounding::{
    lemma_increasing, lemma_rounded_exact, lemma_rounded_is, lemma_rounded_monotone, lemma_steps_at,
    rounded, rounds_to, steps, BINADE, INFINITE, UNIT_SHIFT,
};
use super::{fraction, lemma_steps_zero, lemma_whole, packed, Double};
use vstd::arithmetic::power2::{lemma_pow2_adds, lemma_pow2_pos, pow2};
use vstd::prelude::*;

verus! {

/// Whether this is a number without a minus sign.
pub open spec fn ordinary(x: Double) -> bool {
    !x.negative() && !x.not_a_number()
}

/// Whether this is an amount: a finite number without a minus sign.
pub open spec fn is_amount(x: Double) -> bool {
    ordinary(x) && x.finite()
}

/// Numbers without a minus sign are ordered as their bit patterns are.
pub proof fn lemma_order(a: Double, b: Double)
    requires
        ordinary(a),
        ordinary(b),
    ensures
        a.at_most(b) <==> a.magnitude() <= b.magnitude(),
        a.below(b) <==> a.magnitude() < b.magnitude(),
{
    if a.magnitude() < b.magnitude() {
        lemma_increasing(a.magnitude(), b.magnitude());
    }
    if b.magnitude() < a.magnitude() {
        lemma_increasing(b.magnitude(), a.magnitude());
    }
}

/// A magnitude that is a number keeps its order under a sign.
pub proof fn lemma_packed(m: nat)
    requires
        m <= INFINITE,
    ensures
        packed(false, m).magnitude() == m,
        !packed(false, m).negative(),
        packed(true, m).magnitude() == m,
        packed(true, m).negative(),
{
}

/// A positive number is one above zero without a minus sign.
pub proof fn lemma_positive(x: Double)
    ensures
        fraction(0, 1) == (Double { bits: 0 }),
        fraction(0, 1).below(x) <==> ordinary(x) && x.magnitude() > 0,
        fraction(0, 1).at_most(x) <==> !x.not_a_number() && (!x.negative() || x.magnitude() == 0),
{
    lemma_zero();
    lemma_steps_zero();
    if x.magnitude() > 0 {
        lemma_increasing(0, x.magnitude());
    }
}

/// Zero is the bit pattern zero.
pub proof fn lemma_zero()
    ensures
        fraction(0, 1) == (Double { bits: 0 }),
{
    lemma_steps_zero();
    assert(0 * pow2(UNIT_SHIFT as nat) == 0) by (nonlinear_arith);
    lemma_rounded_exact(0, 1, 0);
}

/// A fraction is a number without a minus sign.
pub proof fn lemma_fraction(num: nat, den: nat)
    requires
        den > 0,
    ensures
        ordinary(fraction(num, den)),
{
    let n = (num * pow2(UNIT_SHIFT as nat)) as nat;
    lemma_rounded_monotone(n, den, n, den);
    lemma_packed(rounded(n, den));
}

/// A small whole number is worth that many times what one is.
pub proof fn lemma_number(n: nat)
    requires
        n < 0x20_0000_0000_0000,
    ensures
        is_amount(fraction(n, 1)),
        fraction(n, 1).value() == n * pow2(UNIT_SHIFT as nat),
{
    lemma_whole(n);
    lemma_packed(rounded(n * pow2(UNIT_SHIFT as nat), 1));
}

/// One is a whole unit of steps.
pub proof fn lemma_one()
    ensures
        ordinary(fraction(1, 1)),
        fraction(1, 1).finite(),
        steps(fraction(1, 1).magnitude()) == pow2(UNIT_SHIFT as nat),
{
    super::lemma_whole(1);
    assert(1 * pow2(UNIT_SHIFT as nat) == pow2(UNIT_SHIFT as nat)) by (nonlinear_arith);
}

/// The product of two numbers without a minus sign is such a number, unless an
/// infinity meets a zero.
pub proof fn lemma_product_sign(a: Double, b: Double)
    requires
        ordinary(a),
        ordinary(b),
        a.infinite() ==> b.magnitude() > 0,
        b.infinite() ==> a.magnitude() > 0,
    ensures
        ordinary(a.times(b)),
{
    if a.finite() && b.finite() {
        let n = steps(a.magnitude()) * steps(b.magnitude());
        lemma_pow2_pos(UNIT_SHIFT as nat);
        lemma_rounded_monotone(n, pow2(UNIT_SHIFT as nat), n, pow2(UNIT_SHIFT as nat));
    }
}

/// A number without a minus sign times the greater of two such numbers is at
/// least what it is times the lesser.
pub proof fn product_is_monotone(a: Double, b: Double, c: Double)
    requires
        ordinary(a),
        ordinary(b),
        b.at_most(c),
        !c.negative(),
        !a.times(b).not_a_number(),
        !a.times(c).not_a_number(),
    ensures
        a.times(b).at_most(a.times(c)),
{
    lemma_order(b, c);
    lemma_product_sign(a, b);
    lemma_product_sign(a, c);
    lemma_order(a.times(b), a.times(c));
    let unit = pow2(UNIT_SHIFT as nat);
    lemma_pow2_pos(UNIT_SHIFT as nat);
    if a.finite() && c.finite() {
        let x = steps(a.magnitude());
        let y = steps(b.magnitude());
        let z = steps(c.magnitude());
        if b.magnitude() < c.magnitude() {
            lemma_increasing(b.magnitude(), c.magnitude());
        }
        assert((x * y) * unit <= (x * z) * unit) by (nonlinear_arith)
            requires
                y <= z,
        ;
        lemma_rounded_monotone(x * y, unit, x * z, unit);
    } else if a.finite() && b.finite() {
        let n = steps(a.magnitude()) * steps(b.magnitude());
        lemma_rounded_monotone(n, unit, n, unit);
    }
}

/// A product does not depend on the order of its factors.
pub proof fn product_commutes(a: Double, b: Double)
    ensures
        a.times(b) == b.times(a),
{
    let x = steps(a.magnitude());
    let y = steps(b.magnitude());
    assert(x * y == y * x) by (nonlinear_arith);
}

/// A number times one is the number.
pub proof fn product_with_one(a: Double)
    requires
        ordinary(a),
    ensures
        a.times(fraction(1, 1)) == a,
{
    lemma_one();
    if a.finite() {
        lemma_pow2_pos(UNIT_SHIFT as nat);
        lemma_rounded_exact(
            steps(a.magnitude()) * pow2(UNIT_SHIFT as nat),
            pow2(UNIT_SHIFT as nat),
            a.magnitude(),
        );
    } else {
        lemma_steps_zero();
        lemma_pow2_pos(UNIT_SHIFT as nat);
    }
}

/// A difference is below zero only if the lesser number stood first.
pub proof fn difference_sign(a: Double, b: Double)
    requires
        a.finite(),
        b.finite(),
    ensures
        b.at_most(a) ==> fraction(0, 1).at_most(a.minus(b)),
        a.at_most(b) ==> a.minus(b).at_most(fraction(0, 1)),
{
    let sum = a.value() - b.value();
    lemma_zero();
    lemma_steps_zero();
    lemma_packed(b.magnitude());
    assert(b.opposite().value() == -b.value());
    let n: nat = if sum >= 0 {
        sum as nat
    } else {
        (-sum) as nat
    };
    lemma_rounded_monotone(n, 1, n, 1);
    lemma_packed(rounded(n, 1));
    let r = a.minus(b);
    lemma_positive(r);
    if r.magnitude() > 0 {
        lemma_increasing(0, r.magnitude());
    }
}

/// The sum of two finite numbers without a minus sign has none.
pub proof fn lemma_sum_sign(a: Double, b: Double)
    requires
        ordinary(a),
        ordinary(b),
    ensures
        ordinary(a.plus(b)),
{
    if a.finite() && b.finite() {
        let sum = (a.value() + b.value()) as nat;
        lemma_rounded_monotone(sum, 1, sum, 1);
        lemma_packed(rounded(sum, 1));
        lemma_packed(0);
    }
}

/// Nothing added to a number changes nothing.
pub proof fn sum_with_zero(x: Double)
    requires
        ordinary(x),
    ensures
        x.plus(fraction(0, 1)) == x,
        fraction(0, 1).plus(x) == x,
{
    lemma_zero();
    lemma_steps_zero();
    if x.finite() && x.magnitude() > 0 {
        lemma_increasing(0, x.magnitude());
        lemma_rounded_exact(steps(x.magnitude()), 1, x.magnitude());
    }
}

/// A sum of greater numbers is not less: where no number has a minus sign, the
/// sum of two is at most the sum of two that are not less.
pub proof fn sum_is_monotone(a: Double, b: Double, c: Double, d: Double)
    requires
        ordinary(a),
        ordinary(b),
        ordinary(c),
        ordinary(d),
        a.at_most(c),
        b.at_most(d),
    ensures
        a.plus(b).at_most(c.plus(d)),
{
    lemma_sum_sign(a, b);
    lemma_sum_sign(c, d);
    lemma_order(a, c);
    lemma_order(b, d);
    lemma_order(a.plus(b), c.plus(d));
    if c.finite() && d.finite() {
        let small = (a.value() + b.value()) as nat;
        let large = (c.value() + d.value()) as nat;
        lemma_rounded_monotone(small, 1, large, 1);
        lemma_packed(rounded(small, 1));
        lemma_packed(rounded(large, 1));
        if small == 0 {
            lemma_steps_zero();
            lemma_rounded_exact(0, 1, 0);
        }
        if large == 0 {
            lemma_steps_zero();
            lemma_rounded_exact(0, 1, 0);
        }
    } else {
        lemma_packed(INFINITE as nat);
        if a.finite() && b.finite() {
            let small = (a.value() + b.value()) as nat;
            lemma_rounded_monotone(small, 1, small, 1);
            lemma_packed(rounded(small, 1));
        }
    }
}

/// A quotient by a greater number is not greater: where no number has a minus
/// sign and the divisors are not zero, what a finite number gives by the
/// greater divisor is at most what it gives by the lesser.
pub proof fn quotient_is_antitone(a: Double, x: Double, y: Double)
    requires
        ordinary(a),
        a.finite(),
        ordinary(x),
        ordinary(y),
        x.magnitude() > 0,
        x.at_most(y),
    ensures
        ordinary(a.over(y)),
        ordinary(a.over(x)),
        a.over(y).at_most(a.over(x)),
{
    lemma_order(x, y);
    lemma_steps_zero();
    lemma_increasing(0, x.magnitude());
    let n = steps(a.magnitude()) * pow2(UNIT_SHIFT as nat);
    let dx = steps(x.magnitude());
    let dy = steps(y.magnitude());
    lemma_packed(0);
    if x.magnitude() < y.magnitude() {
        lemma_increasing(x.magnitude(), y.magnitude());
    }
    assert(n * dx <= n * dy) by (nonlinear_arith)
        requires
            dx <= dy,
    ;
    if x.finite() {
        lemma_rounded_monotone(n, dx, n, dx);
        lemma_packed(rounded(n, dx));
    }
    if y.finite() {
        lemma_rounded_monotone(n, dy, n, dx);
        lemma_packed(rounded(n, dy));
    }
    lemma_order(a.over(y), a.over(x));
}

/// A finite number that is not zero, divided by itself, is one.
pub proof fn quotient_by_itself(a: Double)
    requires
        ordinary(a),
        a.finite(),
        a.magnitude() > 0,
    ensures
        a.over(a) == fraction(1, 1),
{
    lemma_one();
    lemma_steps_zero();
    lemma_increasing(0, a.magnitude());
    let s = steps(a.magnitude());
    let u = pow2(UNIT_SHIFT as nat);
    let m = fraction(1, 1).magnitude();
    assert(s * u == u * s) by (nonlinear_arith);
    lemma_rounded_exact(s * u, s, m);
    lemma_packed(m);
    assert(fraction(1, 1) == packed(false, rounded((1 * u) as nat, 1)));
    lemma_rounded_monotone((1 * u) as nat, 1, (1 * u) as nat, 1);
    lemma_packed(rounded((1 * u) as nat, 1));
}

/// The double nearest to a fraction, by the count of its last binary place:
/// `q` of `2^-k`, where the fraction is less than half a place away.
pub proof fn lemma_fraction_is(num: nat, den: nat, q: nat, k: nat)
    requires
        den > 0,
        BINADE < q < 2 * BINADE,
        k <= UNIT_SHIFT,
        (2 * q - 1) * den < 2 * num * pow2(k) < (2 * q + 1) * den,
    ensures
        ordinary(fraction(num, den)),
        fraction(num, den).finite(),
        steps(fraction(num, den).magnitude()) == q * pow2((UNIT_SHIFT - k) as nat),
{
    let e = (UNIT_SHIFT - k) as nat;
    let m = (e * BINADE + q) as nat;
    let p = pow2(e);
    let u = pow2(UNIT_SHIFT as nat);
    let n = num * u;
    lemma_pow2_adds(e, k);
    lemma_pow2_pos(e);
    lemma_steps_at(e, q);
    lemma_steps_at(e, (q - 1) as nat);
    lemma_steps_at(e, (q + 1) as nat);
    assert(m - 1 == e * BINADE + (q - 1));
    assert(m + 1 == e * BINADE + (q + 1));
    assert(m < INFINITE) by (nonlinear_arith)
        requires
            m == e * BINADE + q,
            q < 2 * BINADE,
            e <= 1074,
            BINADE == 0x0010_0000_0000_0000,
            INFINITE == 0x7ff0_0000_0000_0000,
    ;
    let pk = pow2(k);
    assert(2 * n > (((q - 1) * p) + (q * p)) * den && 2 * n < ((q * p) + ((q + 1) * p)) * den)
        by (nonlinear_arith)
        requires
            n == num * u,
            u == p * pk,
            p > 0,
            (2 * q - 1) * den < 2 * num * pk,
            2 * num * pk < (2 * q + 1) * den,
    {
        assert(((q - 1) * p) + (q * p) == (2 * q - 1) * p);
        assert((q * p) + ((q + 1) * p) == (2 * q + 1) * p);
        assert(2 * n == (2 * num * pk) * p);
        assert(((2 * q - 1) * p) * den == ((2 * q - 1) * den) * p);
        assert(((2 * q + 1) * p) * den == ((2 * q + 1) * den) * p);
    }
    assert(rounds_to(n, den, m));
    lemma_rounded_is(n, den, m);
    lemma_packed(m);
}

} // verus!
