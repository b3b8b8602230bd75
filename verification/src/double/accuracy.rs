//! How far rounding leads away from exact results.

use super::laws::{lemma_fraction, lemma_number, lemma_one, lemma_order, lemma_packed, ordinary};
use super::rounding::{
    doublings, lemma_increasing, lemma_machine_powers, lemma_next, lemma_rounded,
    lemma_rounded_exact, lemma_rounded_is, lemma_rounded_monotone, lemma_split, lemma_steps_at,
    rounded, steps, BINADE, INFINITE, UNIT_SHIFT,
};
use super::{fraction, lemma_steps_zero, Double};
use vstd::arithmetic::power2::{
    lemma_pow2_adds, lemma_pow2_pos, lemma_pow2_strictly_increases, lemma_pow2_unfold, pow2,
};
use vstd::prelude::*;

verus! {

/// The distance of two whole numbers.
pub open spec fn distance(a: int, b: int) -> int {
    if a >= b {
        a - b
    } else {
        b - a
    }
}

/// Rounding errs by at most half of the last of 53 binary places, and by at most
/// half of the smallest step where there are fewer places.
pub proof fn lemma_rounding_error(n: nat, d: nat)
    requires
        d > 0,
        rounded(n, d) < INFINITE,
    ensures
        2 * BINADE * distance((steps(rounded(n, d)) * d) as int, n as int) <= n + BINADE * d,
        2 * BINADE * distance((steps(rounded(n, d)) * d) as int, n as int) <= n || 2 * BINADE * distance(
            (steps(rounded(n, d)) * d) as int,
            n as int,
        ) <= BINADE * d,
{
    let m = rounded(n, d);
    let s = steps(m);
    let base = BINADE as int;
    lemma_rounded(n, d);
    lemma_next(m);
    lemma_split(m);
    let gap = pow2(doublings(m));
    lemma_pow2_pos(doublings(m));
    if n >= s * d {
        if doublings(m) == 0 {
            vstd::arithmetic::power2::lemma2_to64();
            assert(2 * base * (n - s * d) <= base * d) by (nonlinear_arith)
                requires
                    2 * n <= (s + (s + 1)) * d,
                    base > 0,
            ;
        } else {
            let q = m - doublings(m) * BINADE;
            assert(s >= base * gap) by (nonlinear_arith)
                requires
                    s == q * gap,
                    q >= base,
                    gap > 0,
            ;
            assert(2 * base * (n - s * d) <= n) by (nonlinear_arith)
                requires
                    2 * n <= (s + (s + gap)) * d,
                    s >= base * gap,
                    n >= s * d,
                    base > 0,
                    d > 0,
            {
                assert(2 * (n - s * d) <= gap * d);
                assert(base * (2 * (n - s * d)) <= base * (gap * d));
                assert(base * (gap * d) == (base * gap) * d);
                assert((base * gap) * d <= s * d);
            }
        }
    } else {
        if m == 0 {
            lemma_steps_zero();
            assert(s * d == 0) by (nonlinear_arith)
                requires
                    s == 0,
            ;
        }
        let p = (m - 1) as nat;
        let below = steps(p);
        lemma_next(p);
        lemma_split(p);
        let less = pow2(doublings(p));
        lemma_pow2_pos(doublings(p));
        if doublings(p) == 0 {
            vstd::arithmetic::power2::lemma2_to64();
            assert(2 * base * (s * d - n) <= base * d) by (nonlinear_arith)
                requires
                    2 * n >= (below + s) * d,
                    s == below + 1,
                    base > 0,
            ;
        } else {
            let q = p - doublings(p) * BINADE;
            assert(below >= base * less) by (nonlinear_arith)
                requires
                    below == q * less,
                    q >= base,
                    less > 0,
            ;
            assert(2 * base * (s * d - n) <= n) by (nonlinear_arith)
                requires
                    2 * n >= (below + s) * d,
                    s == below + less,
                    below >= base * less,
                    less > 0,
                    base > 0,
                    d > 0,
            {
                assert(2 * (s * d - n) <= less * d);
                assert(base * (2 * (s * d - n)) <= base * (less * d));
                assert(base * (less * d) == (base * less) * d);
                assert((base * less) * d <= below * d);
                assert(n >= below * d);
            }
        }
    }
    assert(BINADE * d >= 0) by (nonlinear_arith);
}

/// A price is no small magnitude.
pub proof fn lemma_price(num: nat, den: nat)
    requires
        0 < num <= den <= 10_000,
    ensures
        ordinary(fraction(num, den)),
        2 * BINADE <= fraction(num, den).magnitude(),
        fraction(num, den).at_most(fraction(1, 1)),
        fraction(num, den).finite(),
{
    let u = pow2(UNIT_SHIFT as nat);
    let two = 2 * BINADE as nat;
    lemma_fraction(num, den);
    lemma_one();
    lemma_machine_powers();
    lemma_pow2_adds(53, 14);
    vstd::arithmetic::power2::lemma2_to64();
    lemma_pow2_strictly_increases(67, UNIT_SHIFT as nat);
    lemma_steps_at(0, two);
    lemma_rounded_exact(two, 1, two);
    assert(two * den <= (num * u) * 1) by (nonlinear_arith)
        requires
            num >= 1,
            den <= 10_000,
            two * 16384 < u,
            two >= 0,
    ;
    lemma_rounded_monotone(two, 1, num * u, den);
    assert((num * u) * 1 <= (1 * u) * den) by (nonlinear_arith)
        requires
            num <= den,
    ;
    lemma_rounded_monotone(num * u, den, 1 * u, 1);
    lemma_packed(rounded(num * u, den));
    lemma_order(fraction(num, den), fraction(1, 1));
}

/// A number divided by another, and the quotient multiplied by it again, is the
/// number or one of its two neighbours, unless the quotient is very small.
pub proof fn product_undoes_quotient(c: Double, s: Double)
    requires
        ordinary(c),
        c.finite(),
        ordinary(s),
        s.finite(),
        s.magnitude() > 0,
        c.over(s).finite(),
        c.over(s).magnitude() > BINADE,
    ensures
        ordinary(s.times(c.over(s))),
        c.magnitude() - 1 <= s.times(c.over(s)).magnitude() <= c.magnitude() + 1,
{
    let u = pow2(UNIT_SHIFT as nat);
    let base = BINADE as int;
    let (k, x, y) = (c.magnitude(), steps(c.magnitude()), steps(s.magnitude()));
    let n = x * u;
    lemma_pow2_pos(UNIT_SHIFT as nat);
    lemma_steps_zero();
    lemma_increasing(0, s.magnitude());
    lemma_rounded_monotone(n, y, n, y);
    lemma_packed(rounded(n, y));
    let q = steps(c.over(s).magnitude());
    lemma_rounding_error(n, y);
    if n < base * y {
        vstd::arithmetic::power2::lemma2_to64();
        lemma_steps_at(0, BINADE as nat);
        lemma_rounded_exact(BINADE as nat, 1, BINADE as nat);
        lemma_rounded_monotone(n, y, BINADE as nat, 1);
    }
    let error = distance((q * y) as int, n as int);
    assert(2 * base * error <= n);
    let m = rounded(y * q, u);
    lemma_next(k);
    lemma_split(k);
    let gap = pow2(doublings(k));
    lemma_pow2_pos(doublings(k));
    let rest = k - doublings(k) * BINADE;
    assert((y * q) * 1 <= steps(k + 1) * u) by (nonlinear_arith)
        requires
            2 * base * (q * y - n) <= n,
            n == x * u,
            x == rest * gap,
            rest < 2 * base,
            gap > 0,
            u > 0,
            base > 0,
            steps(k + 1) == x + gap,
    {
        assert(n == rest * (gap * u));
        assert(rest * (gap * u) <= (2 * base) * (gap * u));
        assert((2 * base) * (q * y - n) <= (2 * base) * (gap * u));
        assert(q * y - n <= gap * u);
    }
    lemma_rounded_exact(steps(k + 1), 1, k + 1);
    lemma_rounded_monotone(y * q, u, steps(k + 1), 1);
    if k > 0 {
        let p = (k - 1) as nat;
        lemma_next(p);
        lemma_split(p);
        let less = pow2(doublings(p));
        lemma_pow2_pos(doublings(p));
        let part = p - doublings(p) * BINADE;
        assert(steps(p) * u <= (y * q) * 1) by (nonlinear_arith)
            requires
                2 * base * (n - q * y) <= n,
                n == x * u,
                x == steps(p) + less,
                steps(p) == part * less,
                part + 1 <= 2 * base,
                less > 0,
                u > 0,
                base > 0,
        {
            assert(n == (part + 1) * (less * u));
            assert((part + 1) * (less * u) <= (2 * base) * (less * u));
            assert((2 * base) * (n - q * y) <= (2 * base) * (less * u));
            assert(n - q * y <= less * u);
        }
        lemma_rounded_exact(steps(p), 1, p);
        lemma_rounded_monotone(steps(p), 1, y * q, u);
    }
    lemma_packed(m);
}

/// A magnitude of full precision that is one binade lower stands for half.
pub proof fn lemma_half(m: nat)
    requires
        m >= 2 * BINADE,
    ensures
        steps(m) == 2 * steps((m - BINADE) as nat),
{
    let e = doublings(m);
    lemma_split(m);
    let q = (m - e * BINADE) as nat;
    assert(m / BINADE as nat >= 2) by (nonlinear_arith)
        requires
            m >= 2 * BINADE,
            BINADE > 0,
    ;
    let less = (e - 1) as nat;
    assert(m - BINADE == less * BINADE + q) by (nonlinear_arith)
        requires
            q == m - e * BINADE,
            less == e - 1,
    ;
    lemma_steps_at(less, q);
    lemma_pow2_unfold(e);
    assert(q * (2 * pow2(less)) == 2 * (q * pow2(less))) by (nonlinear_arith);
}

/// Half of what rounds to a magnitude of full precision rounds to half of it.
pub proof fn lemma_rounded_half(n: nat, d: nat)
    requires
        d > 0,
        2 * BINADE <= rounded(2 * n, d) < INFINITE,
    ensures
        rounded(n, d) == rounded(2 * n, d) - BINADE,
        steps(rounded(2 * n, d)) == 2 * steps(rounded(n, d)),
{
    let m = rounded(2 * n, d);
    let k = (m - BINADE) as nat;
    lemma_rounded(2 * n, d);
    lemma_half(m);
    lemma_half(m + 1);
    assert(m + 1 - BINADE == k + 1);
    let (s, t) = (steps(k), steps(k + 1));
    assert((steps(m) + steps(m + 1)) * d == 2 * ((s + t) * d)) by (nonlinear_arith)
        requires
            steps(m) == 2 * s,
            steps(m + 1) == 2 * t,
    ;
    let below = steps((m - 1) as nat);
    let r = steps((k - 1) as nat);
    if m > 2 * BINADE {
        lemma_half((m - 1) as nat);
        assert(m - 1 - BINADE == k - 1);
        assert((below + steps(m)) * d == 2 * ((r + s) * d)) by (nonlinear_arith)
            requires
                below == 2 * r,
                steps(m) == 2 * s,
        ;
    } else {
        vstd::arithmetic::power2::lemma2_to64();
        lemma_steps_at(0, (2 * BINADE - 1) as nat);
        lemma_steps_at(0, (BINADE - 1) as nat);
        assert((below + steps(m)) * d > 2 * ((r + s) * d)) by (nonlinear_arith)
            requires
                below > 2 * r,
                steps(m) == 2 * s,
                d > 0,
        ;
    }
    assert(k % 2 == m % 2);
    lemma_rounded_is(n, d, k);
}

/// A quotient of a greater number is not less.
pub proof fn quotient_is_monotone(x: Double, y: Double, d: Double)
    requires
        ordinary(x),
        ordinary(y),
        y.finite(),
        x.at_most(y),
        ordinary(d),
        d.finite(),
        d.magnitude() > 0,
    ensures
        ordinary(x.over(d)),
        ordinary(y.over(d)),
        x.over(d).at_most(y.over(d)),
{
    lemma_order(x, y);
    lemma_steps_zero();
    lemma_increasing(0, d.magnitude());
    if x.magnitude() < y.magnitude() {
        lemma_increasing(x.magnitude(), y.magnitude());
    }
    let u = pow2(UNIT_SHIFT as nat);
    let (nx, ny) = (steps(x.magnitude()) * u, steps(y.magnitude()) * u);
    let s = steps(d.magnitude());
    assert(nx * s <= ny * s) by (nonlinear_arith)
        requires
            nx == steps(x.magnitude()) * u,
            ny == steps(y.magnitude()) * u,
            steps(x.magnitude()) <= steps(y.magnitude()),
    ;
    lemma_rounded_monotone(nx, s, ny, s);
    lemma_packed(rounded(nx, s));
    lemma_packed(rounded(ny, s));
    lemma_order(x.over(d), y.over(d));
}

/// What is left of a number after another was taken away is not more than the
/// number, where neither has a minus sign.
pub proof fn difference_is_not_greater(a: Double, b: Double)
    requires
        ordinary(a),
        a.finite(),
        ordinary(b),
        b.finite(),
    ensures
        a.minus(b).at_most(a),
        b.at_most(a) ==> a.minus(b).value() >= 0,
{
    let sum = a.value() - b.value();
    lemma_packed(b.magnitude());
    lemma_steps_zero();
    assert(b.opposite().value() == -b.value());
    if sum > 0 {
        lemma_rounded_exact(steps(a.magnitude()), 1, a.magnitude());
        lemma_rounded_monotone(sum as nat, 1, steps(a.magnitude()), 1);
        lemma_packed(rounded(sum as nat, 1));
        lemma_order(a.minus(b), a);
    } else if sum < 0 {
        lemma_rounded_monotone((-sum) as nat, 1, (-sum) as nat, 1);
        lemma_packed(rounded((-sum) as nat, 1));
    }
}

/// The difference of a number and a lesser one is positive, where neither has a
/// minus sign.
pub proof fn lemma_positive_difference(a: Double, b: Double)
    requires
        ordinary(a),
        a.finite(),
        ordinary(b),
        b.finite(),
        b.below(a),
    ensures
        ordinary(a.minus(b)),
        a.minus(b).magnitude() > 0,
        a.minus(b).at_most(a),
        a.minus(b).magnitude() == rounded((a.value() - b.value()) as nat, 1),
{
    let sum = (a.value() - b.value()) as nat;
    difference_is_not_greater(a, b);
    lemma_packed(b.magnitude());
    lemma_one_step();
    lemma_rounded_exact(1, 1, 1);
    lemma_rounded_monotone(1, 1, sum, 1);
    lemma_packed(rounded(sum, 1));
}

/// The least positive magnitude stands for one step.
pub proof fn lemma_one_step()
    ensures
        steps(1) == 1,
{
    vstd::arithmetic::power2::lemma2_to64();
    assert(doublings(1) == 0);
    assert(1 * pow2(0) == 1);
}

/// A number above zero, divided by a lesser one that is at most one, is above
/// zero and no less than it was.
pub proof fn lemma_quotient_by_share(a: Double, b: Double)
    requires
        ordinary(a),
        a.finite(),
        a.magnitude() > 0,
        ordinary(b),
        b.magnitude() > 0,
        b.at_most(fraction(1, 1)),
    ensures
        ordinary(a.over(b)),
        a.at_most(a.over(b)),
        a.over(b).magnitude() > 0,
        a.over(b).magnitude() == rounded(steps(a.magnitude()) * pow2(UNIT_SHIFT as nat), steps(b.magnitude())),
{
    let u = pow2(UNIT_SHIFT as nat);
    let (x, y) = (steps(a.magnitude()), steps(b.magnitude()));
    lemma_one();
    lemma_steps_zero();
    lemma_increasing(0, b.magnitude());
    lemma_order(b, fraction(1, 1));
    lemma_rounded_exact(x, 1, a.magnitude());
    assert(x * y <= (x * u) * 1) by (nonlinear_arith)
        requires
            y <= u,
    ;
    lemma_rounded_monotone(x, 1, x * u, y);
    lemma_packed(rounded(x * u, y));
    lemma_order(a, a.over(b));
}

/// The difference of two finite numbers is a number, with a minus sign if the
/// lesser stood first.
pub proof fn lemma_difference(a: Double, b: Double)
    requires
        a.finite(),
        b.finite(),
    ensures
        !a.minus(b).not_a_number(),
        a.value() < b.value() ==> a.minus(b).negative(),
{
    let sum = a.value() - b.value();
    let n: nat = if sum >= 0 {
        sum as nat
    } else {
        (-sum) as nat
    };
    lemma_packed(b.magnitude());
    assert(b.opposite().value() == -b.value());
    lemma_rounded_monotone(n, 1, n, 1);
    lemma_packed(rounded(n, 1));
    lemma_packed(0);
}

/// A finite sum errs by at most half of the last of 53 binary places.
pub proof fn lemma_sum_error(a: Double, b: Double)
    requires
        a.finite(),
        b.finite(),
        a.plus(b).finite(),
    ensures
        2 * BINADE * distance(a.plus(b).value(), a.value() + b.value()) <= distance(a.value() + b.value(), 0),
{
    let sum = a.value() + b.value();
    let n: nat = if sum >= 0 {
        sum as nat
    } else {
        (-sum) as nat
    };
    lemma_steps_zero();
    lemma_packed(0);
    if sum != 0 {
        lemma_rounded_monotone(n, 1, n, 1);
        lemma_packed(rounded(n, 1));
        lemma_rounding_error(n, 1);
        let error = distance(steps(rounded(n, 1)) as int, n as int);
        assert(error == distance(a.plus(b).value(), sum));
        assert(2 * BINADE * error <= n) by (nonlinear_arith)
            requires
                2 * BINADE * error <= n || 2 * BINADE * error <= BINADE * 1,
                error >= 0,
                BINADE > 0,
        {
            if 2 * BINADE * error <= BINADE * 1 {
                assert(error == 0) by (nonlinear_arith)
                    requires
                        2 * BINADE * error <= BINADE * 1,
                        error >= 0,
                        BINADE > 0,
                ;
            }
        }
    } else {
        assert(2 * BINADE * 0 == 0);
    }
}

/// A finite difference errs by at most half of the last of 53 binary places.
pub proof fn lemma_difference_error(a: Double, b: Double)
    requires
        a.finite(),
        b.finite(),
        a.minus(b).finite(),
    ensures
        2 * BINADE * distance(a.minus(b).value(), a.value() - b.value()) <= distance(
            a.value() - b.value(),
            0,
        ),
{
    lemma_packed(b.magnitude());
    assert(b.opposite().value() == -b.value());
    lemma_sum_error(a, b.opposite());
}

/// A number with a minus sign, divided by one without, keeps it.
pub proof fn lemma_negative_quotient(a: Double, b: Double)
    requires
        a.negative(),
        !a.not_a_number(),
        ordinary(b),
        b.finite(),
        b.magnitude() > 0,
    ensures
        a.over(b).negative(),
{
    let n = steps(a.magnitude()) * pow2(UNIT_SHIFT as nat);
    let d = steps(b.magnitude());
    lemma_steps_zero();
    lemma_increasing(0, b.magnitude());
    lemma_rounded_monotone(n, d, n, d);
    lemma_packed(rounded(n, d));
    lemma_packed(INFINITE as nat);
}

/// What is used of a limit, and at most what is left of it, come to no more than
/// the next number above the limit: rounding may pass a limit by one last place,
/// and by no more.
pub proof fn refilled_is_within_limit(limit: Double, used: Double, part: Double)
    requires
        ordinary(limit),
        limit.finite(),
        ordinary(used),
        used.finite(),
        ordinary(part),
        part.magnitude() > 0,
        part.at_most(limit.minus(used)),
    ensures
        ordinary(used.plus(part)),
        used.plus(part).magnitude() <= limit.magnitude() + 1,
{
    let left = limit.minus(used);
    let x = limit.value() - used.value();
    let base = BINADE as int;
    lemma_steps_zero();
    lemma_increasing(0, part.magnitude());
    lemma_difference(limit, used);
    lemma_packed(used.magnitude());
    lemma_packed(0);
    assert(used.opposite().value() == -used.value());
    assert(x > 0);
    lemma_order(used, limit);
    lemma_positive_difference(limit, used);
    lemma_order(left, limit);
    lemma_order(part, left);
    lemma_rounding_error(x as nat, 1);
    let d = left.value();
    let l = limit.value();
    lemma_split(limit.magnitude());
    lemma_next(limit.magnitude());
    let gap = pow2(doublings(limit.magnitude()));
    lemma_pow2_pos(doublings(limit.magnitude()));
    let q = limit.magnitude() - doublings(limit.magnitude()) * BINADE;
    assert(l <= (2 * base - 1) * gap) by (nonlinear_arith)
        requires
            l == q * gap,
            q <= 2 * base - 1,
            gap > 0,
    ;
    assert(d - x <= gap) by (nonlinear_arith)
        requires
            2 * base * distance(d, x) <= x + base * 1,
            distance(d, x) >= d - x,
            x <= l,
            l <= (2 * base - 1) * gap,
            gap >= 1,
            base >= 2,
    {
        if d - x >= gap + 1 {
            assert(2 * base * distance(d, x) >= 2 * base * (gap + 1));
            assert((2 * base - 1) * gap == 2 * base * gap - gap);
            assert(2 * base * (gap + 1) == 2 * base * gap + 2 * base);
        }
    }
    if part.magnitude() < left.magnitude() {
        lemma_increasing(part.magnitude(), left.magnitude());
    }
    let sum = (used.value() + part.value()) as nat;
    let next = (limit.magnitude() + 1) as nat;
    lemma_rounded_exact(steps(next), 1, next);
    lemma_rounded_monotone(sum, 1, steps(next), 1);
    lemma_packed(rounded(sum, 1));
}

/// A number over a whole number is that part of it, up to rounding.
pub proof fn lemma_over_number(x: Double, c: nat)
    requires
        x.finite(),
        1 <= c < 0x20_0000_0000_0000,
    ensures
        ({
            let q = x.over(fraction(c, 1));
            &&& q.finite()
            &&& q.negative() == x.negative()
            &&& q.magnitude() <= x.magnitude()
            &&& 2 * BINADE * distance(c * q.value(), x.value()) <= distance(x.value(), 0) + BINADE * c
        }),
{
    let u = pow2(UNIT_SHIFT as nat);
    let y = fraction(c, 1);
    let s = steps(x.magnitude());
    let d = steps(y.magnitude());
    let n = s * u;
    lemma_one();
    lemma_pow2_pos(UNIT_SHIFT as nat);
    lemma_steps_zero();
    lemma_number(c);
    assert(d == c * u && d > 0) by (nonlinear_arith)
        requires
            d == c * u,
            c >= 1,
            u > 0,
    ;
    assert(n * 1 <= s * d) by (nonlinear_arith)
        requires
            n == s * u,
            d == c * u,
            c >= 1,
    {
        assert(s * u <= s * (c * u));
    }
    lemma_rounded_exact(s, 1, x.magnitude());
    lemma_rounded_monotone(n, d, s, 1);
    let m = rounded(n, d);
    lemma_packed(m);
    lemma_rounding_error(n, d);
    let e = distance((steps(m) * d) as int, n as int);
    let f = distance((c * steps(m)) as int, s as int);
    assert(e == u * f) by (nonlinear_arith)
        requires
            d == c * u,
            n == s * u,
            u > 0,
            e == (if steps(m) * d >= n {
                steps(m) * d - n
            } else {
                n - steps(m) * d
            }),
            f == (if c * steps(m) >= s {
                c * steps(m) - s
            } else {
                s - c * steps(m)
            }),
    {
        assert(steps(m) * (c * u) == u * (c * steps(m)));
        assert(u * (c * steps(m)) - s * u == u * (c * steps(m) - s));
        assert(s * u - u * (c * steps(m)) == u * (s - c * steps(m)));
    }
    assert(2 * BINADE * f <= s + BINADE * c) by (nonlinear_arith)
        requires
            2 * BINADE * e <= n + BINADE * d,
            e == u * f,
            n == s * u,
            d == c * u,
            u > 0,
    {
        assert(2 * BINADE * (u * f) == u * (2 * BINADE * f));
        assert(s * u + BINADE * (c * u) == u * (s + BINADE * c));
    }
    assert(c * (-(steps(m) as int)) == -(c * steps(m))) by (nonlinear_arith);
}

} // verus!
