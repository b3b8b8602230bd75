//! How close the computed Kelly fraction is to the exact one, and what follows.
//!
//! Numbers are counted in the smallest step of a double. With U steps in one, a
//! price of P steps and a win rate of W steps, the exact fraction is
//! (W − P)/(U − P).

use crate::double::accuracy::{
    distance, lemma_difference, lemma_positive_difference, lemma_quotient_by_share,
    lemma_rounded_half, lemma_rounding_error, quotient_is_monotone,
};
use crate::double::laws::{
    lemma_one, lemma_order, lemma_packed, lemma_positive, lemma_product_sign, ordinary,
    product_commutes, product_is_monotone, product_with_one, quotient_by_itself,
    quotient_is_antitone,
};
use crate::double::rounding::{
    doublings, lemma_increasing, lemma_next, lemma_rounded_exact, lemma_rounded_monotone, rounded,
    steps, BINADE, UNIT_SHIFT,
};
use crate::double::{fraction, lemma_steps_zero, Double};
use crate::trading::kelly::{
    full_kelly, kelly_fraction_is_a_share, kelly_position, lemma_adjusted, lemma_edge, lemma_lose,
    lemma_raw, net_odds,
};
use vstd::arithmetic::power2::{
    lemma2_to64, lemma2_to64_rest, lemma_pow2_pos, lemma_pow2_strictly_increases, pow2,
};
use vstd::prelude::*;

verus! {

/// The number of steps in one.
pub open spec fn unit() -> int {
    pow2(UNIT_SHIFT as nat) as int
}

/// What the parts of a fraction are, up to errors: `u` is one, `p` the price, `w`
/// the win rate, `c` one less the price, `b` the odds, `t` the odds times the win
/// rate, `q` one less the win rate; each error is at most `1 / v` of its result
/// and half a step.
pub open spec fn parts(
    u: int,
    p: int,
    w: int,
    c: int,
    b: int,
    t: int,
    q: int,
    s: int,
    v: int,
) -> bool {
    &&& 0 < p < u
    &&& 0 <= w <= u
    &&& s >= 256
    &&& v == 2 * s
    &&& u - p >= 1024 * s
    &&& c >= 512 * s
    &&& b >= c
    &&& v * distance(c, u - p) <= (u - p) + s
    &&& v * distance(b * p, c * u) <= c * u + s * p
    &&& v * distance(t * u, b * w) <= b * w + s * u
    &&& v * distance(q, u - w) <= (u - w) + s
    &&& q >= 0
    &&& t >= 0
}

/// What the errors of the parts come to.
spec fn first_error(u: int, p: int, w: int, c: int, b: int) -> int {
    (u - w) * ((c - (u - p)) * u + (b * p - c * u))
}

/// The first error is small.
proof fn lemma_first_error(
    u: int,
    p: int,
    w: int,
    c: int,
    b: int,
    t: int,
    q: int,
    s: int,
    v: int,
)
    requires
        parts(u, p, w, c, b, t, q, s, v),
    ensures
        v * first_error(u, p, w, c, b) <= 3 * (u - p) * ((u - w) * u),
        v * first_error(u, p, w, c, b) >= -(3 * (u - p) * ((u - w) * u)),
{
    let (z, y) = (u - p, u - w);
    let e1 = c - z;
    let e2 = b * p - c * u;
    assert(-(z + s) <= v * e1 <= z + s) by (nonlinear_arith)
        requires
            v * distance(c, z) <= z + s,
            e1 == c - z,
            distance(c, z) == e1 || distance(c, z) == -e1,
            distance(c, z) >= 0,
            v > 0,
    ;
    assert(-(c * u + s * p) <= v * e2 <= c * u + s * p) by (nonlinear_arith)
        requires
            v * distance(b * p, c * u) <= c * u + s * p,
            e2 == b * p - c * u,
            distance(b * p, c * u) == e2 || distance(b * p, c * u) == -e2,
            distance(b * p, c * u) >= 0,
            v > 0,
    ;
    assert(e1 <= z - 2 * s) by (nonlinear_arith)
        requires
            v * e1 <= z + s,
            v >= 4,
            z >= 3 * s,
            s > 0,
    ;
    let a = z * u + s * u + c * u + s * p;
    assert(a <= 3 * (z * u)) by (nonlinear_arith)
        requires
            a == z * u + s * u + c * u + s * p,
            c <= 2 * z - 2 * s,
            p <= u,
            s > 0,
            u > 0,
    {
        assert(c * u <= (2 * z - 2 * s) * u);
        assert(s * p <= s * u);
        assert((2 * z - 2 * s) * u == 2 * (z * u) - 2 * (s * u));
    }
    let e = e1 * u + e2;
    assert(-a <= v * e <= a) by (nonlinear_arith)
        requires
            a == z * u + s * u + c * u + s * p,
            e == e1 * u + e2,
            -(z + s) <= v * e1 <= z + s,
            -(c * u + s * p) <= v * e2 <= c * u + s * p,
            u > 0,
    {
        assert(v * e == (v * e1) * u + v * e2);
        assert((v * e1) * u <= (z + s) * u);
        assert((v * e1) * u >= -((z + s) * u));
        assert((z + s) * u == z * u + s * u);
    }
    assert(-(3 * z * (y * u)) <= v * (y * e) <= 3 * z * (y * u)) by (nonlinear_arith)
        requires
            -a <= v * e <= a,
            a <= 3 * (z * u),
            y >= 0,
    {
        assert(v * (y * e) == y * (v * e));
        assert(y * (v * e) <= y * (3 * (z * u)));
        assert(y * (v * e) >= y * (-(3 * (z * u))));
        assert(y * (3 * (z * u)) == 3 * z * (y * u));
        assert(y * (-(3 * (z * u))) == -(3 * z * (y * u)));
    }
}

/// The exact fraction, times the odds, is what the parts say up to their errors.
proof fn lemma_parts_identity(u: int, p: int, w: int, c: int, b: int)
    ensures
        b * ((w - p) * u) == (u - p) * (b * w - (u - w) * u) - first_error(u, p, w, c, b),
{
    let (z, y) = (u - p, u - w);
    let k = c * u;
    let m = b * p;
    assert(first_error(u, p, w, c, b) == y * (m - z * u)) by (nonlinear_arith)
        requires
            first_error(u, p, w, c, b) == y * ((c - z) * u + (m - k)),
            k == c * u,
    ;
    assert(b * ((w - p) * u) == z * (b * w) - y * m) by (nonlinear_arith)
        requires
            m == b * p,
            z == u - p,
            y == u - w,
    {
        assert(b * ((w - p) * u) == b * w * u - b * p * u);
        assert(z * (b * w) == b * w * u - b * w * p);
        assert(y * m == b * p * u - b * p * w);
        assert(b * w * p == b * p * w);
    }
    assert(z * (b * w - y * u) - y * (m - z * u) == z * (b * w) - y * m) by (nonlinear_arith);
}

/// The errors of what is won and what is lost are small.
proof fn lemma_second_error(
    u: int,
    p: int,
    w: int,
    c: int,
    b: int,
    t: int,
    q: int,
    s: int,
    v: int,
)
    requires
        parts(u, p, w, c, b, t, q, s, v),
    ensures
        v * ((t - q) * u - (b * w - (u - w) * u)) <= b * w + (u - w) * u + 2 * (s * u),
        v * ((t - q) * u - (b * w - (u - w) * u)) >= -(b * w + (u - w) * u + 2 * (s * u)),
        64 * (t * u) <= 64 * (b * w) + b * u,
{
    let y = u - w;
    let e3 = t * u - b * w;
    let e4 = q - y;
    assert(b * w >= 0 && b * w <= b * u && s * u <= b * u) by (nonlinear_arith)
        requires
            b >= s,
            s > 0,
            0 <= w <= u,
            u > 0,
    ;
    assert(-(b * w + s * u) <= v * e3 <= b * w + s * u) by (nonlinear_arith)
        requires
            v * distance(t * u, b * w) <= b * w + s * u,
            e3 == t * u - b * w,
            distance(t * u, b * w) == e3 || distance(t * u, b * w) == -e3,
            distance(t * u, b * w) >= 0,
            v > 0,
    ;
    assert(-(y + s) <= v * e4 <= y + s) by (nonlinear_arith)
        requires
            v * distance(q, y) <= y + s,
            e4 == q - y,
            distance(q, y) == e4 || distance(q, y) == -e4,
            distance(q, y) >= 0,
            v > 0,
    ;
    assert(-((y + s) * u) <= v * (e4 * u) <= (y + s) * u) by (nonlinear_arith)
        requires
            -(y + s) <= v * e4 <= y + s,
            u > 0,
    ;
    assert((t - q) * u - (b * w - y * u) == e3 - e4 * u) by (nonlinear_arith)
        requires
            e3 == t * u - b * w,
            e4 == q - y,
    ;
    assert(v * (e3 - e4 * u) == v * e3 - v * (e4 * u)) by (nonlinear_arith);
    assert((y + s) * u == y * u + s * u) by (nonlinear_arith);
    assert(64 * e3 <= b * u) by (nonlinear_arith)
        requires
            v * e3 <= 2 * (b * u),
            v >= 128,
            b * u >= 0,
    ;
}

/// A fraction that is computed from its parts is close to the exact one.
proof fn lemma_close(
    u: int,
    p: int,
    w: int,
    c: int,
    b: int,
    t: int,
    q: int,
    x: int,
    r: int,
    s: int,
    v: int,
)
    requires
        parts(u, p, w, c, b, t, q, s, v),
        q < t,
        v * distance(x, t - q) <= (t - q) + s,
        0 <= x <= b,
        v * distance(r * b, x * u) <= x * u + s * b,
    ensures
        v * distance(r * (u - p), (w - p) * u) <= 8 * (u * (u - p)),
{
    let (z, y) = (u - p, u - w);
    let big = b * u;
    let e5 = x - (t - q);
    let e6 = r * b - x * u;
    lemma_first_error(u, p, w, c, b, t, q, s, v);
    lemma_second_error(u, p, w, c, b, t, q, s, v);
    lemma_parts_identity(u, p, w, c, b);
    let first = first_error(u, p, w, c, b);
    let second = (t - q) * u - (b * w - y * u);
    assert(b * w >= 0 && b * w <= big && 192 * (s * u) <= big && 64 * (s * b) <= big && big >= 0)
        by (nonlinear_arith)
        requires
            b >= 192 * s,
            u >= 64 * s,
            s > 0,
            0 <= w <= u,
            big == b * u,
    ;
    assert(64 * (y * u) <= 64 * (b * w) + big) by (nonlinear_arith)
        requires
            v * second <= b * w + y * u + 2 * (s * u),
            v * second >= -(b * w + y * u + 2 * (s * u)),
            second == (t - q) * u - (b * w - y * u),
            t > q,
            u > 0,
            v >= 512,
            b * w <= big,
            192 * (s * u) <= big,
            y * u >= 0,
            b * w >= 0,
    {
        assert((t - q) * u >= 0);
        assert(v * second >= v * (y * u - b * w));
        let over = y * u - b * w;
        if over > 0 {
            assert(v * over <= 2 * (b * w) + over + 2 * (s * u));
            assert(v * over >= 512 * over);
            assert(511 * over <= 3 * big);
        }
    }
    assert(-((t - q) * u + s * u) <= v * (e5 * u) <= (t - q) * u + s * u) by (nonlinear_arith)
        requires
            v * distance(x, t - q) <= (t - q) + s,
            e5 == x - (t - q),
            distance(x, t - q) == e5 || distance(x, t - q) == -e5,
            distance(x, t - q) >= 0,
            v > 0,
            u > 0,
    {
        assert(-((t - q) + s) <= v * e5 <= (t - q) + s);
        assert((v * e5) * u <= ((t - q) + s) * u);
        assert((v * e5) * u >= -(((t - q) + s) * u));
        assert((v * e5) * u == v * (e5 * u));
        assert(((t - q) + s) * u == (t - q) * u + s * u);
    }
    assert(-(x * u + s * b) <= v * e6 <= x * u + s * b) by (nonlinear_arith)
        requires
            v * distance(r * b, x * u) <= x * u + s * b,
            e6 == r * b - x * u,
            distance(r * b, x * u) == e6 || distance(r * b, x * u) == -e6,
            distance(r * b, x * u) >= 0,
            v > 0,
    ;
    assert(x * u <= big && x * u >= 0) by (nonlinear_arith)
        requires
            0 <= x <= b,
            u > 0,
            big == b * u,
    ;
    assert((t - q) * u <= t * u) by (nonlinear_arith)
        requires
            q >= 0,
            u > 0,
    ;
    // The whole error of the quotient.
    let rest = second + e5 * u + e6;
    let bound = b * w + y * u + 3 * (s * u) + (t - q) * u + x * u + s * b;
    assert(v * rest == v * second + v * (e5 * u) + v * e6) by (nonlinear_arith)
        requires
            rest == second + e5 * u + e6,
    ;
    assert(-bound <= v * rest <= bound);
    assert(r * b == b * w - y * u + rest) by (nonlinear_arith)
        requires
            e6 == r * b - x * u,
            e5 == x - (t - q),
            second == (t - q) * u - (b * w - y * u),
            rest == second + e5 * u + e6,
    ;
    let d = r * z - (w - p) * u;
    assert(b * d == z * rest + first) by (nonlinear_arith)
        requires
            d == r * z - (w - p) * u,
            r * b == b * w - y * u + rest,
            b * ((w - p) * u) == z * (b * w - y * u) - first,
    {
        assert(b * d == z * (r * b) - b * ((w - p) * u));
        assert(z * (b * w - y * u + rest) == z * (b * w - y * u) + z * rest);
    }
    assert(64 * (3 * (y * u) + bound) <= 512 * big);
    assert(-(8 * (z * big)) <= v * (b * d) <= 8 * (z * big)) by (nonlinear_arith)
        requires
            b * d == z * rest + first,
            -bound <= v * rest <= bound,
            v * first <= 3 * z * (y * u),
            v * first >= -(3 * z * (y * u)),
            64 * (3 * (y * u) + bound) <= 512 * big,
            z > 0,
    {
        assert(v * (b * d) == z * (v * rest) + v * first);
        assert(z * (v * rest) <= z * bound);
        assert(z * (v * rest) >= -(z * bound));
        assert(z * (3 * (y * u) + bound) <= z * (8 * big));
        assert(z * (3 * (y * u) + bound) == 3 * z * (y * u) + z * bound);
        assert(z * (8 * big) == 8 * (z * big));
    }
    assert(-(8 * (u * z)) <= v * d <= 8 * (u * z)) by (nonlinear_arith)
        requires
            -(8 * (z * big)) <= v * (b * d) <= 8 * (z * big),
            big == b * u,
            b > 0,
    {
        assert(v * (b * d) == b * (v * d));
        assert(8 * (z * big) == b * (8 * (u * z)));
        assert(b * (v * d) <= b * (8 * (u * z)));
        assert(b * (v * d) >= b * (-(8 * (u * z))));
    }
    assert(distance(r * z, (w - p) * u) == d || distance(r * z, (w - p) * u) == -d);
    if distance(r * z, (w - p) * u) == d {
    } else {
        assert(v * (-d) == -(v * d)) by (nonlinear_arith);
    }
}

/// Where the exact fraction is clearly positive, what is won exceeds what is lost
/// by a good part of the odds.
proof fn lemma_clear(
    u: int,
    p: int,
    w: int,
    c: int,
    b: int,
    t: int,
    q: int,
    s: int,
    v: int,
)
    requires
        parts(u, p, w, c, b, t, q, s, v),
        v * (w - p) >= 16 * (u - p),
    ensures
        v * (t - q) >= 6 * b,
{
    let (z, y) = (u - p, u - w);
    let big = b * u;
    lemma_first_error(u, p, w, c, b, t, q, s, v);
    lemma_second_error(u, p, w, c, b, t, q, s, v);
    lemma_parts_identity(u, p, w, c, b);
    let first = first_error(u, p, w, c, b);
    let second = (t - q) * u - (b * w - y * u);
    assert(w >= p) by (nonlinear_arith)
        requires
            v * (w - p) >= 16 * z,
            z > 0,
            v > 0,
    ;
    assert(z <= 2 * b) by (nonlinear_arith)
        requires
            v * distance(c, z) <= z + s,
            distance(c, z) >= z - c,
            v >= 4,
            z >= 4 * s,
            s > 0,
            b >= c,
    ;
    assert(y * u <= 2 * big && b * w <= big && 2 * (s * u) <= big) by (nonlinear_arith)
        requires
            y <= z,
            z <= 2 * b,
            0 <= w <= u,
            b >= 2 * s,
            s > 0,
            u > 0,
            big == b * u,
    ;
    assert(v * (z * ((t - q) * u)) == v * (b * ((w - p) * u)) + v * first + z * (v * second))
        by (nonlinear_arith)
        requires
            second == (t - q) * u - (b * w - y * u),
            b * ((w - p) * u) == z * (b * w - y * u) - first,
    {
        assert(z * ((t - q) * u) == z * (b * w - y * u) + z * second);
    }
    assert(v * (b * ((w - p) * u)) >= 16 * (z * big)) by (nonlinear_arith)
        requires
            v * (w - p) >= 16 * z,
            big == b * u,
            big >= 0,
    {
        assert(v * (b * ((w - p) * u)) == (v * (w - p)) * big);
        assert((v * (w - p)) * big >= (16 * z) * big);
    }
    assert(v * (z * ((t - q) * u)) >= 6 * (z * big)) by (nonlinear_arith)
        requires
            v * (z * ((t - q) * u)) == v * (b * ((w - p) * u)) + v * first + z * (v * second),
            v * (b * ((w - p) * u)) >= 16 * (z * big),
            v * first >= -(3 * z * (y * u)),
            v * second >= -(b * w + y * u + 2 * (s * u)),
            y * u <= 2 * big,
            b * w <= big,
            2 * (s * u) <= big,
            z > 0,
    {
        assert(z * (v * second) >= z * (-(4 * big)));
        assert(3 * z * (y * u) <= 3 * z * (2 * big));
    }
    assert(v * (t - q) >= 6 * b) by (nonlinear_arith)
        requires
            v * (z * ((t - q) * u)) >= 6 * (z * big),
            big == b * u,
            z > 0,
            u > 0,
    {
        let k = z * u;
        assert(k > 0);
        assert(v * (z * ((t - q) * u)) == k * (v * (t - q)));
        assert(6 * (z * big) == k * (6 * b));
    }
}

/// One exceeds every lesser number by many steps.
proof fn lemma_room_below_one(price: Double)
    requires
        ordinary(price),
        price.below(fraction(1, 1)),
    ensures
        unit() - price.value() >= 2048 * BINADE,
        unit() >= 4096 * BINADE,
{
    let one = fraction(1, 1);
    lemma_one();
    lemma_order(price, one);
    let m = 1023 * BINADE as nat;
    lemma2_to64();
    lemma2_to64_rest();
    lemma_pow2_strictly_increases(63, 1021);
    lemma_pow2_strictly_increases(1021, 1022);
    lemma_pow2_strictly_increases(1021, 1074);
    crate::double::rounding::lemma_steps_at(1022, BINADE as nat);
    crate::double::rounding::lemma_machine_powers();
    vstd::arithmetic::power2::lemma_pow2_adds(52, 1022);
    assert(1022 * BINADE + BINADE == m);
    assert(steps(m) == unit());
    if one.magnitude() < m {
        lemma_increasing(one.magnitude(), m);
    } else if m < one.magnitude() {
        lemma_increasing(m, one.magnitude());
    }
    let last = (m - 1) as nat;
    lemma_next(last);
    assert(doublings(last) == 1021) by {
        assert(last / BINADE as nat == 1022) by (nonlinear_arith)
            requires
                last == 1023 * BINADE - 1,
                BINADE == 0x0010_0000_0000_0000,
        ;
    }
    if price.magnitude() < last {
        lemma_increasing(price.magnitude(), last);
    }
}

/// The parts of a computed fraction are what they should be, up to rounding.
proof fn lemma_parts(price: Double, win_rate: Double)
    requires
        fraction(0, 1).below(price),
        price.below(fraction(1, 1)),
        fraction(0, 1).at_most(win_rate),
        win_rate.at_most(fraction(1, 1)),
        net_odds(price).finite(),
    ensures
        parts(
            unit(),
            price.value(),
            win_rate.value(),
            fraction(1, 1).minus(price).value(),
            net_odds(price).value(),
            net_odds(price).times(win_rate).value(),
            fraction(1, 1).minus(win_rate).value(),
            BINADE as int,
            2 * BINADE,
        ),
        ordinary(net_odds(price)),
        net_odds(price).magnitude() > 0,
        net_odds(price).times(win_rate).finite(),
        ordinary(fraction(1, 1).minus(win_rate)),
        fraction(1, 1).minus(win_rate).finite(),
{
    let one = fraction(1, 1);
    let rest = one.minus(price);
    let odds = net_odds(price);
    let won = odds.times(win_rate);
    let lose = one.minus(win_rate);
    let u = pow2(UNIT_SHIFT as nat);
    let (p, w) = (price.value(), win_rate.value());
    lemma_one();
    lemma_pow2_pos(UNIT_SHIFT as nat);
    lemma_positive(price);
    lemma_positive(win_rate);
    lemma_steps_zero();
    lemma_order(price, one);
    lemma_increasing(0, price.magnitude());
    lemma_room_below_one(price);
    lemma_positive_difference(one, price);
    lemma_order(rest, one);
    lemma_rounding_error((u - p) as nat, 1);
    assert(steps(rest.magnitude()) * 1 == steps(rest.magnitude()));
    let c = rest.value();
    assert(c >= 512 * BINADE) by (nonlinear_arith)
        requires
            2 * BINADE * distance(c, u - p) <= (u - p) + BINADE * 1,
            distance(c, u - p) >= (u - p) - c,
            u - p >= 2048 * BINADE,
            BINADE >= 1024,
    ;
    lemma_quotient_by_share(rest, price);
    lemma_order(rest, odds);
    if rest.magnitude() < odds.magnitude() {
        lemma_increasing(rest.magnitude(), odds.magnitude());
    }
    lemma_rounding_error(steps(rest.magnitude()) * u, steps(price.magnitude()));
    lemma_lose(win_rate);
    lemma_rounding_error((u - w) as nat, 1);
    assert(steps(lose.magnitude()) * 1 == steps(lose.magnitude()));
    // What is won.
    let n = steps(odds.magnitude()) * steps(win_rate.magnitude());
    if win_rate.magnitude() == 0 {
        assert(n == 0) by (nonlinear_arith)
            requires
                n == steps(odds.magnitude()) * steps(win_rate.magnitude()),
                steps(win_rate.magnitude()) == 0,
        ;
        lemma_rounded_exact(0, u, 0);
        lemma_packed(0);
        assert(won.value() == 0);
        assert(won.value() * u == 0 && odds.value() * w == 0) by (nonlinear_arith)
            requires
                won.value() == 0,
                w == 0,
        ;
    } else {
        lemma_order(win_rate, one);
        lemma_product_sign(odds, win_rate);
        product_with_one(odds);
        product_is_monotone(odds, win_rate, one);
        lemma_order(won, odds);
        lemma_rounded_monotone(n, u, n, u);
        lemma_packed(rounded(n, u));
        lemma_rounding_error(n, u);
    }
    assert(BINADE * u >= 0) by (nonlinear_arith);
}

/// A computed fraction that is positive differs from the exact one by at most
/// 2^-50.
pub proof fn kelly_fraction_is_accurate(price: Double, win_rate: Double)
    requires
        fraction(0, 1).below(price),
        price.below(fraction(1, 1)),
        fraction(0, 1).at_most(win_rate),
        win_rate.at_most(fraction(1, 1)),
        fraction(0, 1).below(full_kelly(price, win_rate)),
    ensures
        BINADE * distance(
            full_kelly(price, win_rate).value() * (unit() - price.value()),
            (win_rate.value() - price.value()) * unit(),
        ) <= 4 * (unit() * (unit() - price.value())),
{
    let one = fraction(1, 1);
    let raw = full_kelly(price, win_rate);
    let odds = net_odds(price);
    let won = odds.times(win_rate);
    let lose = one.minus(win_rate);
    let edge = won.minus(lose);
    let u = pow2(UNIT_SHIFT as nat);
    lemma_edge(price, win_rate);
    lemma_parts(price, win_rate);
    lemma_steps_zero();
    lemma_difference(won, lose);
    if won.value() == lose.value() {
        lemma_packed(lose.magnitude());
        lemma_packed(0);
        assert(lose.opposite().value() == -lose.value());
        assert(edge.magnitude() == 0);
    }
    assert(lose.value() < won.value());
    lemma_order(lose, won);
    lemma_positive_difference(won, lose);
    lemma_rounding_error((won.value() - lose.value()) as nat, 1);
    assert(steps(edge.magnitude()) * 1 == steps(edge.magnitude()));
    quotient_is_monotone(edge, odds, odds);
    quotient_by_itself(odds);
    lemma_one();
    lemma_order(raw, one);
    lemma_increasing(0, odds.magnitude());
    let n = steps(edge.magnitude()) * u;
    let d = steps(odds.magnitude());
    lemma_rounded_monotone(n, d, n, d);
    lemma_packed(rounded(n, d));
    lemma_rounding_error(n, d);
    let x = edge.value();
    let r = raw.value();
    lemma_close(
        unit(),
        price.value(),
        win_rate.value(),
        one.minus(price).value(),
        odds.value(),
        won.value(),
        lose.value(),
        x,
        r,
        BINADE as int,
        2 * BINADE,
    );
    let gap = distance(r * (unit() - price.value()), (win_rate.value() - price.value()) * unit());
    assert(2 * BINADE * gap == 2 * (BINADE * gap)) by (nonlinear_arith);
}

/// Where the exact fraction is at least 2^-49 and the odds are finite, the
/// computed one is positive: a clear edge is never missed.
pub proof fn clear_edge_is_found(price: Double, win_rate: Double)
    requires
        fraction(0, 1).below(price),
        price.below(fraction(1, 1)),
        fraction(0, 1).at_most(win_rate),
        win_rate.at_most(fraction(1, 1)),
        net_odds(price).finite(),
        BINADE * (win_rate.value() - price.value()) >= 8 * (unit() - price.value()),
    ensures
        fraction(0, 1).below(full_kelly(price, win_rate)),
{
    let one = fraction(1, 1);
    let raw = full_kelly(price, win_rate);
    let odds = net_odds(price);
    let won = odds.times(win_rate);
    let lose = one.minus(win_rate);
    let edge = won.minus(lose);
    let u = pow2(UNIT_SHIFT as nat);
    lemma_parts(price, win_rate);
    lemma_steps_zero();
    lemma_one();
    lemma_positive(price);
    lemma_room_below_one(price);
    let gap = win_rate.value() - price.value();
    assert(2 * BINADE * gap == 2 * (BINADE * gap)) by (nonlinear_arith);
    lemma_clear(
        unit(),
        price.value(),
        win_rate.value(),
        one.minus(price).value(),
        odds.value(),
        won.value(),
        lose.value(),
        BINADE as int,
        2 * BINADE,
    );
    let b = odds.value();
    let left = won.value() - lose.value();
    assert(left > 1024) by (nonlinear_arith)
        requires
            2 * BINADE * left >= 6 * b,
            b >= 512 * BINADE,
            BINADE > 0,
    ;
    assert(!won.negative());
    lemma_order(lose, won);
    lemma_positive_difference(won, lose);
    lemma_order(edge, won);
    lemma_rounding_error(left as nat, 1);
    let x = edge.value();
    assert(x >= 0 && 2 * x >= left) by (nonlinear_arith)
        requires
            2 * BINADE * distance(x, left) <= left + BINADE * 1,
            distance(x, left) >= left - x,
            x >= 0,
            left > 1024,
            BINADE >= 1024,
    ;
    // The quotient is at least one step.
    let d = steps(odds.magnitude());
    assert(1 * d <= (x * u) * 1) by (nonlinear_arith)
        requires
            d == b,
            2 * BINADE * left >= 6 * b,
            2 * x >= left,
            u >= 4096 * BINADE,
            x >= 0,
    {
        assert(4 * BINADE * x >= 6 * b);
        assert(x * u >= x * (4096 * BINADE));
        assert(x * (4096 * BINADE) == 1024 * (4 * BINADE * x));
    }
    lemma_increasing(0, odds.magnitude());
    crate::double::accuracy::lemma_one_step();
    lemma_rounded_exact(1, 1, 1);
    let n = steps(edge.magnitude()) * u;
    lemma_rounded_monotone(1, 1, n, d);
    lemma_packed(rounded(n, d));
    lemma_positive(raw);
}

/// Where the exact fraction is at most -2^-50, there is no position; where it is
/// not positive, a position is at most the bankroll's share of 2^-50 before any
/// adjustment.
pub proof fn no_edge_is_worth_nothing(
    price: Double,
    win_rate: Double,
    bankroll: Double,
    multiplier: Double,
    cap: Double,
)
    requires
        win_rate.at_most(price),
        net_odds(price).finite(),
    ensures
        kelly_position(price, win_rate, bankroll, multiplier, cap) matches Some(k) ==> {
            &&& BINADE * k.raw_fraction.value() <= 4 * unit()
            &&& BINADE * (price.value() - win_rate.value()) < 4 * (unit() - price.value())
        },
{
    if let Some(k) = kelly_position(price, win_rate, bankroll, multiplier, cap) {
        lemma_raw(price, win_rate);
        kelly_fraction_is_accurate(price, win_rate);
        lemma_edge(price, win_rate);
        lemma_positive(k.raw_fraction);
        lemma_steps_zero();
        lemma_increasing(0, k.raw_fraction.magnitude());
        lemma_one();
        lemma_order(price, fraction(1, 1));
        let r = k.raw_fraction.value();
        let z = unit() - price.value();
        let y = price.value() - win_rate.value();
        let u = unit();
        lemma_pow2_pos(UNIT_SHIFT as nat);
        assert((win_rate.value() - price.value()) * u == -(y * u)) by (nonlinear_arith)
            requires
                y == price.value() - win_rate.value(),
        ;
        assert(r * z > 0 && y * u >= 0) by (nonlinear_arith)
            requires
                r > 0,
                z > 0,
                y >= 0,
                u > 0,
        ;
        assert(BINADE * (r * z + y * u) <= 4 * (u * z));
        assert(BINADE * r <= 4 * u && BINADE * y < 4 * z) by (nonlinear_arith)
            requires
                BINADE * (r * z + y * u) <= 4 * (u * z),
                r * z > 0,
                y * u >= 0,
                z > 0,
                u > 0,
                BINADE > 0,
        {
            assert(BINADE * (r * z + y * u) == (BINADE * r) * z + (BINADE * y) * u);
            assert((BINADE * r) * z >= 0);
            assert((BINADE * y) * u >= 0);
            assert((BINADE * r) * z > 0);
            assert((BINADE * r) * z <= (4 * u) * z);
            assert((BINADE * y) * u < (4 * z) * u);
        }
    }
}

/// A lower price means odds that are no smaller.
proof fn lemma_odds(cheap: Double, dear: Double)
    requires
        fraction(0, 1).below(cheap),
        cheap.below(dear),
        dear.below(fraction(1, 1)),
    ensures
        net_odds(dear).at_most(net_odds(cheap)),
        ordinary(net_odds(dear)),
        ordinary(net_odds(cheap)),
{
    let one = fraction(1, 1);
    let (x, y) = (one.minus(dear), one.minus(cheap));
    lemma_one();
    lemma_positive(cheap);
    lemma_positive(dear);
    lemma_steps_zero();
    lemma_increasing(0, cheap.magnitude());
    lemma_order(cheap, dear);
    lemma_order(dear, one);
    lemma_order(cheap, one);
    lemma_positive_difference(one, dear);
    lemma_positive_difference(one, cheap);
    lemma_rounded_monotone(
        (one.value() - dear.value()) as nat,
        1,
        (one.value() - cheap.value()) as nat,
        1,
    );
    lemma_order(x, y);
    lemma_order(y, one);
    quotient_is_monotone(x, y, dear);
    quotient_is_antitone(y, cheap, dear);
}

/// A cheaper token gets a greater fraction before any adjustment, and never a
/// smaller position, where the exact fractions differ by at least 2^-48 and the odds
/// of the cheaper one are finite. Nearer to each other the computed fractions may
/// stand in either order.
pub proof fn cheaper_token_gets_more(
    cheap: Double,
    dear: Double,
    win_rate: Double,
    bankroll: Double,
    multiplier: Double,
    cap: Double,
)
    requires
        fraction(0, 1).below(cheap),
        cheap.below(dear),
        net_odds(cheap).finite(),
        bankroll.finite(),
        BINADE * ((unit() - win_rate.value()) * (dear.value() - cheap.value())) >= 16 * ((unit()
            - dear.value()) * (unit() - cheap.value())),
    ensures
        kelly_position(dear, win_rate, bankroll, multiplier, cap) matches Some(a) ==> {
            kelly_position(cheap, win_rate, bankroll, multiplier, cap) matches Some(b)
                && a.raw_fraction.below(b.raw_fraction) && a.adjusted_fraction.at_most(b.adjusted_fraction)
                && a.position_size_usdc.at_most(b.position_size_usdc)
        },
{
    if let Some(a) = kelly_position(dear, win_rate, bankroll, multiplier, cap) {
        let one = fraction(1, 1);
        lemma_odds(cheap, dear);
        lemma_order(net_odds(dear), net_odds(cheap));
        lemma_raw(dear, win_rate);
        kelly_fraction_is_accurate(dear, win_rate);
        lemma_edge(dear, win_rate);
        lemma_one();
        lemma_pow2_pos(UNIT_SHIFT as nat);
        lemma_positive(cheap);
        lemma_positive(a.raw_fraction);
        lemma_steps_zero();
        lemma_increasing(0, a.raw_fraction.magnitude());
        lemma_order(cheap, dear);
        lemma_order(dear, one);
        let u = unit();
        let (p1, p2, w) = (dear.value(), cheap.value(), win_rate.value());
        let (z1, z2) = (u - p1, u - p2);
        let (x1, x2) = ((w - p1) * u, (w - p2) * u);
        let r1 = a.raw_fraction.value();
        assert((w - p2) * z1 - (w - p1) * z2 == (u - w) * (p1 - p2)) by (nonlinear_arith)
            requires
                z1 == u - p1,
                z2 == u - p2,
        ;
        assert(BINADE * (r1 * z1 - x1) <= 4 * (u * z1));
        // The exact fraction of the cheaper token is clearly positive.
        assert(BINADE * (w - p2) >= 8 * z2) by (nonlinear_arith)
            requires
                BINADE * (r1 * z1 - x1) <= 4 * (u * z1),
                r1 > 0,
                x1 == (w - p1) * u,
                (w - p2) * z1 - (w - p1) * z2 == (u - w) * (p1 - p2),
                BINADE * ((u - w) * (p1 - p2)) >= 16 * (z1 * z2),
                z1 > 0,
                z2 > 0,
                u > 0,
                BINADE > 0,
        {
            assert(r1 * z1 > 0);
            assert(BINADE * x1 >= -(4 * (u * z1)));
            assert((BINADE * (w - p1)) * u >= (-(4 * z1)) * u);
            assert(BINADE * (w - p1) >= -(4 * z1));
            assert((BINADE * (w - p1)) * z2 >= (-(4 * z1)) * z2);
            assert((BINADE * (w - p2)) * z1 == (BINADE * (w - p1)) * z2 + BINADE * ((u - w) * (p1 - p2)));
            assert((BINADE * (w - p2)) * z1 >= (8 * z2) * z1);
        }
        clear_edge_is_found(cheap, win_rate);
        kelly_fraction_is_accurate(cheap, win_rate);
        lemma_edge(cheap, win_rate);
        let b = kelly_position(cheap, win_rate, bankroll, multiplier, cap)->0;
        let r2 = b.raw_fraction.value();
        lemma_positive(b.raw_fraction);
        assert(BINADE * (x2 - r2 * z2) <= 4 * (u * z2));
        assert(r1 < r2) by (nonlinear_arith)
            requires
                BINADE * (r1 * z1 - x1) <= 4 * (u * z1),
                BINADE * (x2 - r2 * z2) <= 4 * (u * z2),
                x1 == (w - p1) * u,
                x2 == (w - p2) * u,
                (w - p2) * z1 - (w - p1) * z2 == (u - w) * (p1 - p2),
                BINADE * ((u - w) * (p1 - p2)) >= 16 * (z1 * z2),
                z1 > 0,
                z2 > 0,
                u > 0,
                BINADE > 0,
        {
            let k = z1 * z2;
            assert(k > 0);
            assert((BINADE * (r1 * z1 - x1)) * z2 <= (4 * (u * z1)) * z2);
            assert((BINADE * (x2 - r2 * z2)) * z1 <= (4 * (u * z2)) * z1);
            assert((4 * (u * z1)) * z2 == 4 * (u * k));
            assert((4 * (u * z2)) * z1 == 4 * (u * k));
            assert(x2 * z1 - x1 * z2 == u * ((u - w) * (p1 - p2)));
            assert((BINADE * (r1 * z1 - x1)) * z2 == BINADE * (r1 * k) - BINADE * (x1 * z2));
            assert((BINADE * (x2 - r2 * z2)) * z1 == BINADE * (x2 * z1) - BINADE * (r2 * k));
            assert(BINADE * (u * ((u - w) * (p1 - p2))) == u * (BINADE * ((u - w) * (p1 - p2))));
            assert(u * (BINADE * ((u - w) * (p1 - p2))) >= u * (16 * k));
            assert(BINADE * (r1 * k) - BINADE * (r2 * k) <= 8 * (u * k) - 16 * (u * k));
            assert(u * k > 0);
            assert((BINADE * k) * (r1 - r2) == BINADE * (r1 * k) - BINADE * (r2 * k));
            assert(BINADE * k > 0);
            assert((BINADE * k) * (r1 - r2) < 0);
        }
        // Adjusting and sizing keep the order.
        lemma_adjusted(dear, win_rate, bankroll, multiplier, cap);
        lemma_adjusted(cheap, win_rate, bankroll, multiplier, cap);
        kelly_fraction_is_a_share(dear, win_rate, bankroll, multiplier, cap);
        kelly_fraction_is_a_share(cheap, win_rate, bankroll, multiplier, cap);
        lemma_positive(multiplier);
        lemma_positive(bankroll);
        lemma_positive(cap);
        lemma_product_sign(multiplier, a.raw_fraction);
        lemma_product_sign(multiplier, b.raw_fraction);
        product_commutes(a.raw_fraction, multiplier);
        product_commutes(b.raw_fraction, multiplier);
        product_is_monotone(multiplier, a.raw_fraction, b.raw_fraction);
        assert(a.adjusted_fraction.at_most(b.adjusted_fraction));
        assert(ordinary(a.adjusted_fraction) && ordinary(b.adjusted_fraction));
        lemma_product_sign(bankroll, a.adjusted_fraction);
        lemma_product_sign(bankroll, b.adjusted_fraction);
        product_is_monotone(bankroll, a.adjusted_fraction, b.adjusted_fraction);
    }
}

/// Half the multiplier halves a fraction that the cap does not reach, where the
/// product is a number of full precision.
pub proof fn half_multiplier_halves(
    price: Double,
    win_rate: Double,
    bankroll: Double,
    multiplier: Double,
    half: Double,
    cap: Double,
)
    requires
        2 * half.value() == multiplier.value(),
        multiplier.finite(),
        full_kelly(price, win_rate).times(multiplier).finite(),
        full_kelly(price, win_rate).times(multiplier).magnitude() >= 2 * BINADE,
        !cap.below(full_kelly(price, win_rate).times(multiplier)),
    ensures
        kelly_position(price, win_rate, bankroll, multiplier, cap) matches Some(a) ==> {
            kelly_position(price, win_rate, bankroll, half, cap) matches Some(b) && a.raw_fraction
                == b.raw_fraction && a.adjusted_fraction.value() == 2 * b.adjusted_fraction.value()
        },
{
    if let Some(a) = kelly_position(price, win_rate, bankroll, multiplier, cap) {
        let u = pow2(UNIT_SHIFT as nat);
        let raw = full_kelly(price, win_rate);
        lemma_positive(multiplier);
        lemma_positive(raw);
        lemma_steps_zero();
        lemma_increasing(0, multiplier.magnitude());
        if half.magnitude() > multiplier.magnitude() {
            lemma_increasing(multiplier.magnitude(), half.magnitude());
        }
        assert(half.value() > 0);
        lemma_positive(half);
        lemma_pow2_pos(UNIT_SHIFT as nat);
        let n = steps(raw.magnitude()) * steps(half.magnitude());
        assert(steps(raw.magnitude()) * steps(multiplier.magnitude()) == 2 * n) by (nonlinear_arith)
            requires
                n == steps(raw.magnitude()) * steps(half.magnitude()),
                steps(multiplier.magnitude()) == 2 * steps(half.magnitude()),
        ;
        lemma_rounded_monotone(2 * n, u, 2 * n, u);
        lemma_packed(rounded(2 * n, u));
        lemma_rounded_half(n, u);
        lemma_packed(rounded(n, u));
        let (whole, part) = (raw.times(multiplier), raw.times(half));
        assert(whole.value() == 2 * part.value());
        assert(!cap.below(part));
    }
}

/// A position is the adjusted fraction's share of the bankroll, up to rounding in the
/// last place.
pub proof fn position_is_the_share(
    price: Double,
    win_rate: Double,
    bankroll: Double,
    multiplier: Double,
    cap: Double,
)
    requires
        bankroll.finite(),
        !cap.not_a_number() || net_odds(price).finite(),
    ensures
        kelly_position(price, win_rate, bankroll, multiplier, cap) matches Some(k) ==> {
            k.adjusted_fraction.finite() && k.position_size_usdc.finite() ==> 2 * BINADE * distance(
                k.position_size_usdc.value() * unit(),
                bankroll.value() * k.adjusted_fraction.value(),
            ) <= bankroll.value() * k.adjusted_fraction.value() + BINADE * unit()
        },
{
    if let Some(k) = kelly_position(price, win_rate, bankroll, multiplier, cap) {
        let adjusted = k.adjusted_fraction;
        lemma_positive(bankroll);
        lemma_adjusted(price, win_rate, bankroll, multiplier, cap);
        if adjusted.finite() && k.position_size_usdc.finite() {
            let u = pow2(UNIT_SHIFT as nat);
            let n = steps(bankroll.magnitude()) * steps(adjusted.magnitude());
            lemma_pow2_pos(UNIT_SHIFT as nat);
            lemma_rounded_monotone(n, u, n, u);
            lemma_packed(rounded(n, u));
            lemma_rounding_error(n, u);
        }
    }
}

} // verus!
