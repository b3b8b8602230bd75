//! Rounding of exact ratios to 64-bit binary floating point.
//!
//! Every finite double is an integer multiple of the smallest positive double.
//! A magnitude (the bit pattern without its sign bit) therefore stands for a
//! natural number of such steps, and the patterns are ordered as the numbers
//! that they stand for. Rounding to nearest is stated on that grid.

use vstd::arithmetic::div_mod::lemma_div_denominator;
use vstd::arithmetic::power2::{
    lemma2_to64, lemma2_to64_rest, lemma_pow2_adds, lemma_pow2_pos, lemma_pow2_strictly_increases,
    lemma_pow2_unfold, pow2,
};
use vstd::prelude::*;

verus! {

/// Number of magnitudes in one binade.
pub const BINADE: u64 = 0x0010_0000_0000_0000;

/// Magnitude of the infinities.
pub const INFINITE: u64 = 0x7ff0_0000_0000_0000;

/// Number of times that the step doubles before it reaches one.
pub const UNIT_SHIFT: u64 = 1074;

/// How often the step has doubled at a magnitude.
pub open spec fn doublings(m: nat) -> nat {
    if m < 2 * BINADE {
        0
    } else {
        (m / BINADE as nat - 1) as nat
    }
}

/// The number of smallest steps that a magnitude stands for.
pub open spec fn steps(m: nat) -> nat {
    ((m - doublings(m) * BINADE) * pow2(doublings(m))) as nat
}

/// Whether `m` is the magnitude nearest to `n / d` smallest steps, the even one
/// of two that are equally near. From halfway to the first power of two beyond
/// the finite magnitudes on, the nearest magnitude is the infinite one.
pub open spec fn rounds_to(n: nat, d: nat, m: nat) -> bool {
    &&& m <= INFINITE
    &&& m > 0 ==> {
        let mid = (steps((m - 1) as nat) + steps(m)) * d;
        2 * n > mid || (2 * n == mid && m % 2 == 0)
    }
    &&& m < INFINITE ==> {
        let mid = (steps(m) + steps(m + 1)) * d;
        2 * n < mid || (2 * n == mid && m % 2 == 0)
    }
}

/// The magnitude nearest to `n / d` smallest steps.
pub open spec fn rounded(n: nat, d: nat) -> nat {
    choose|m: nat| rounds_to(n, d, m)
}

/// A magnitude given by its number of doublings and what is left of it.
pub proof fn lemma_steps_at(e: nat, q: nat)
    requires
        q <= 2 * BINADE,
        q >= BINADE || e == 0,
    ensures
        steps((e * BINADE + q) as nat) == q * pow2(e),
{
    let m = (e * BINADE + q) as nat;
    if q < 2 * BINADE {
        if e > 0 {
            assert(m / BINADE as nat == e + 1) by (nonlinear_arith)
                requires
                    m == e * BINADE + q,
                    BINADE <= q < 2 * BINADE,
                    BINADE > 0,
            ;
        }
        assert(doublings(m) == e);
    } else {
        assert(m / BINADE as nat == e + 2) by (nonlinear_arith)
            requires
                m == e * BINADE + q,
                q == 2 * BINADE,
                BINADE > 0,
        ;
        assert(doublings(m) == e + 1);
        lemma_pow2_unfold(e + 1);
        assert(m - (e + 1) * BINADE == BINADE) by (nonlinear_arith)
            requires
                m == e * BINADE + q,
                q == 2 * BINADE,
        ;
        assert(BINADE * (2 * pow2(e)) == (2 * BINADE) * pow2(e)) by (nonlinear_arith);
    }
}

/// What is left of a magnitude below its doublings.
pub proof fn lemma_split(m: nat)
    ensures
        m - doublings(m) * BINADE >= 0,
        m - doublings(m) * BINADE < 2 * BINADE,
        m - doublings(m) * BINADE >= BINADE || doublings(m) == 0,
        steps(m) == (m - doublings(m) * BINADE) * pow2(doublings(m)),
{
    let e = doublings(m);
    if m >= 2 * BINADE {
        let k = m / BINADE as nat;
        assert(k * BINADE <= m < (k + 1) * BINADE && k >= 2) by (nonlinear_arith)
            requires
                k == m / BINADE as nat,
                m >= 2 * BINADE,
                BINADE > 0,
        ;
        assert(k * BINADE == (k - 1) * BINADE + BINADE) by (nonlinear_arith);
        assert((k + 1) * BINADE == (k - 1) * BINADE + 2 * BINADE) by (nonlinear_arith);
    }
    let q = m - e * BINADE;
    assert(q * pow2(e) >= 0) by (nonlinear_arith)
        requires
            q >= 0,
            pow2(e) >= 0,
    ;
}

/// Neighbouring magnitudes are one (doubled) step apart.
pub proof fn lemma_next(m: nat)
    ensures
        steps(m + 1) == steps(m) + pow2(doublings(m)),
{
    lemma_split(m);
    let e = doublings(m);
    let q = (m - e * BINADE) as nat;
    lemma_steps_at(e, q + 1);
    assert((q + 1) * pow2(e) == q * pow2(e) + pow2(e)) by (nonlinear_arith);
}

/// Magnitudes are ordered as the numbers of steps that they stand for.
pub proof fn lemma_increasing(a: nat, b: nat)
    requires
        a < b,
    ensures
        steps(a) < steps(b),
    decreases b,
{
    let c = (b - 1) as nat;
    lemma_next(c);
    lemma_pow2_pos(doublings(c));
    if a < c {
        lemma_increasing(a, c);
    }
}

/// Larger ratios round to larger magnitudes.
pub proof fn lemma_rounds_monotone(n1: nat, d1: nat, m1: nat, n2: nat, d2: nat, m2: nat)
    requires
        d1 > 0,
        d2 > 0,
        n1 * d2 <= n2 * d1,
        rounds_to(n1, d1, m1),
        rounds_to(n2, d2, m2),
    ensures
        m1 <= m2,
{
    if m2 < m1 {
        let s1 = steps((m1 - 1) as nat) + steps(m1);
        let s2 = steps(m2) + steps(m2 + 1);
        if m2 < m1 - 1 {
            lemma_increasing(m2, (m1 - 1) as nat);
            lemma_increasing(m2 + 1, m1);
        }
        assert(s2 <= s1);
        assert(s1 * d1 <= 2 * n1);
        assert(2 * n2 <= s2 * d2);
        assert((s1 * d1) * d2 <= (2 * n1) * d2) by (nonlinear_arith)
            requires
                s1 * d1 <= 2 * n1,
        ;
        assert((2 * n2) * d1 <= (s2 * d2) * d1) by (nonlinear_arith)
            requires
                2 * n2 <= s2 * d2,
        ;
        assert((2 * n1) * d2 <= (2 * n2) * d1) by (nonlinear_arith)
            requires
                n1 * d2 <= n2 * d1,
        ;
        let p = (d1 * d2) as nat;
        assert(p > 0 && (s1 * d1) * d2 == s1 * p && (s2 * d2) * d1 == s2 * p) by (nonlinear_arith)
            requires
                d1 > 0,
                d2 > 0,
                p == d1 * d2,
        ;
        assert(s1 <= s2) by (nonlinear_arith)
            requires
                s1 * p <= s2 * p,
                p > 0,
        ;
        assert(s1 == s2);
        assert((s1 * d1) * d2 == (2 * n1) * d2);
        assert((2 * n2) * d1 == (s2 * d2) * d1);
        assert(s1 * d1 == 2 * n1) by (nonlinear_arith)
            requires
                (s1 * d1) * d2 == (2 * n1) * d2,
                d2 > 0,
        ;
        assert(2 * n2 == s2 * d2) by (nonlinear_arith)
            requires
                (2 * n2) * d1 == (s2 * d2) * d1,
                d1 > 0,
        ;
        assert(m1 % 2 == 0 && m2 % 2 == 0);
        if m2 < m1 - 1 {
            lemma_increasing(m2, (m1 - 1) as nat);
            lemma_increasing(m2 + 1, m1);
        }
    }
}

/// The largest magnitude up to `k` that does not exceed `n / d`.
proof fn lemma_floor(n: nat, d: nat, k: nat) -> (r: nat)
    ensures
        r <= k,
        steps(r) * d <= n,
        r < k ==> n < steps(r + 1) * d,
    decreases k,
{
    if steps(k) * d <= n {
        k
    } else if k == 0 {
        lemma_steps_at(0, 0);
        assert(0 * pow2(0) == 0 && 0 * d == 0) by (nonlinear_arith);
        0
    } else {
        let r = lemma_floor(n, d, (k - 1) as nat);
        r
    }
}

/// A ratio between two neighbouring magnitudes rounds to one of them.
pub proof fn lemma_between(n: nat, d: nat, k: nat, up: bool)
    requires
        d > 0,
        k < INFINITE,
        steps(k) * d <= n < steps(k + 1) * d,
        up ==> 2 * n > (steps(k) + steps(k + 1)) * d || (2 * n == (steps(k) + steps(k + 1)) * d && k
            % 2 == 1),
        !up ==> 2 * n < (steps(k) + steps(k + 1)) * d || (2 * n == (steps(k) + steps(k + 1)) * d
            && k % 2 == 0),
    ensures
        rounds_to(n, d, if up { k + 1 } else { k }),
{
    if up {
        if k + 1 < INFINITE {
            lemma_increasing(k + 1, k + 2);
            assert((steps(k + 1) + steps(k + 2)) * d > 2 * n) by (nonlinear_arith)
                requires
                    n < steps(k + 1) * d,
                    steps(k + 1) < steps(k + 2),
                    d > 0,
            ;
        }
    } else {
        if k > 0 {
            lemma_increasing((k - 1) as nat, k);
            assert((steps((k - 1) as nat) + steps(k)) * d < 2 * n) by (nonlinear_arith)
                requires
                    steps(k) * d <= n,
                    steps((k - 1) as nat) < steps(k),
                    d > 0,
            ;
        }
    }
}

/// A ratio beyond the finite magnitudes rounds to the infinite one.
pub proof fn lemma_overflows(n: nat, d: nat, k: nat)
    requires
        d > 0,
        k >= INFINITE,
        steps(k) * d <= n,
    ensures
        rounds_to(n, d, INFINITE as nat),
{
    let top = INFINITE as nat;
    lemma_increasing((top - 1) as nat, top);
    if k > top {
        lemma_increasing(top, k);
    }
    assert((steps((top - 1) as nat) + steps(top)) * d <= 2 * n) by (nonlinear_arith)
        requires
            steps(k) * d <= n,
            steps(top) <= steps(k),
            steps((top - 1) as nat) < steps(top),
    ;
}

/// Every ratio rounds to exactly one magnitude.
pub proof fn lemma_rounded(n: nat, d: nat)
    requires
        d > 0,
    ensures
        rounds_to(n, d, rounded(n, d)),
{
    let top = INFINITE as nat;
    let k = lemma_floor(n, d, top);
    if k == top {
        lemma_overflows(n, d, top);
    } else {
        let mid = (steps(k) + steps(k + 1)) * d;
        let up = 2 * n > mid || (2 * n == mid && k % 2 == 1);
        lemma_between(n, d, k, up);
        assert(rounds_to(n, d, if up { k + 1 } else { k }));
    }
}

/// A magnitude to which a ratio rounds is the rounded ratio.
pub proof fn lemma_rounded_is(n: nat, d: nat, m: nat)
    requires
        d > 0,
        rounds_to(n, d, m),
    ensures
        rounded(n, d) == m,
{
    lemma_rounded(n, d);
    lemma_rounds_monotone(n, d, m, n, d, rounded(n, d));
    lemma_rounds_monotone(n, d, rounded(n, d), n, d, m);
}

/// Rounding respects the order of the ratios.
pub proof fn lemma_rounded_monotone(n1: nat, d1: nat, n2: nat, d2: nat)
    requires
        d1 > 0,
        d2 > 0,
        n1 * d2 <= n2 * d1,
    ensures
        rounded(n1, d1) <= rounded(n2, d2),
        rounded(n2, d2) <= INFINITE,
{
    lemma_rounded(n1, d1);
    lemma_rounded(n2, d2);
    lemma_rounds_monotone(n1, d1, rounded(n1, d1), n2, d2, rounded(n2, d2));
}

/// A ratio that a magnitude stands for exactly rounds to it.
pub proof fn lemma_rounded_exact(n: nat, d: nat, m: nat)
    requires
        d > 0,
        m <= INFINITE,
        n == steps(m) * d,
    ensures
        rounded(n, d) == m,
{
    if m < INFINITE {
        lemma_increasing(m, m + 1);
        assert(n < steps(m + 1) * d && 2 * n < (steps(m) + steps(m + 1)) * d) by (nonlinear_arith)
            requires
                n == steps(m) * d,
                steps(m) < steps(m + 1),
                d > 0,
        ;
        lemma_between(n, d, m, false);
    } else {
        lemma_overflows(n, d, m);
    }
    lemma_rounded_is(n, d, m);
}

/// Whether `n / d` is `sig` times two to the power `y - x`, or, where
/// `inexact`, lies strictly between that and the next multiple.
pub open spec fn scaled(n: nat, d: nat, sig: nat, x: nat, y: nat, inexact: bool) -> bool {
    let a = n * pow2(x);
    let b = d * pow2(y);
    if inexact {
        sig * b < a < (sig + 1) * b
    } else {
        a == sig * b
    }
}

/// Powers of two at the ends of the machine integers.
pub proof fn lemma_machine_powers()
    ensures
        pow2(0) == 1,
        pow2(1) == 2,
        pow2(52) == BINADE,
        pow2(53) == 2 * BINADE,
        pow2(55) == 8 * BINADE,
        pow2(63) == 0x8000_0000_0000_0000,
        pow2(64) == 0x1_0000_0000_0000_0000,
        pow2(127) == 0x8000_0000_0000_0000_0000_0000_0000_0000,
        pow2(128) == 0x1_0000_0000_0000_0000_0000_0000_0000_0000,
{
    lemma2_to64();
    lemma2_to64_rest();
    lemma_pow2_adds(63, 64);
    lemma_pow2_adds(64, 64);
}

/// The number of binary digits of `x`.
pub(crate) fn bit_length(x: u128) -> (len: u32)
    requires
        x > 0,
    ensures
        1 <= len <= 128,
        pow2((len - 1) as nat) <= x < pow2(len as nat),
{
    let mut rest: u128 = x;
    let mut len: u32 = 0;
    proof {
        lemma_machine_powers();
        assert(rest * pow2(0) == rest && (rest + 1) * pow2(0) == rest + 1) by (nonlinear_arith)
            requires
                pow2(0) == 1,
        ;
    }
    while rest > 1
        invariant
            1 <= rest,
            rest * pow2(len as nat) <= x < (rest + 1) * pow2(len as nat),
            len <= 127,
        decreases rest,
    {
        proof {
            let p = pow2(len as nat);
            let half = rest / 2;
            lemma_pow2_unfold((len + 1) as nat);
            assert(half * (2 * p) <= rest * p && (rest + 1) * p <= (half + 1) * (2 * p))
                by (nonlinear_arith)
                requires
                    half == rest / 2,
                    p >= 0,
            ;
            if len == 127 {
                assert(rest * p >= 2 * p) by (nonlinear_arith)
                    requires
                        rest >= 2,
                        p >= 0,
                ;
                lemma_machine_powers();
            }
        }
        rest = rest / 2;
        len = len + 1;
    }
    proof {
        let p = pow2(len as nat);
        lemma_pow2_unfold((len + 1) as nat);
        assert(rest * p == p && (rest + 1) * p == 2 * p) by (nonlinear_arith)
            requires
                rest == 1,
        ;
    }
    len + 1
}

/// Two to the power `e`.
pub(crate) fn power_of_two(e: u32) -> (p: u128)
    requires
        e <= 127,
    ensures
        p == pow2(e as nat),
        p > 0,
{
    let mut p: u128 = 1;
    let mut i: u32 = 0;
    proof {
        lemma_machine_powers();
    }
    while i < e
        invariant
            i <= e <= 127,
            p == pow2(i as nat),
            p > 0,
        decreases e - i,
    {
        proof {
            lemma_machine_powers();
            lemma_pow2_unfold((i + 1) as nat);
            if i + 1 < 127 {
                lemma_pow2_strictly_increases((i + 1) as nat, 127);
            }
        }
        p = p * 2;
        i = i + 1;
    }
    p
}

/// The place of a scaled integer between two neighbouring magnitudes.
proof fn lemma_place(
    n: nat,
    d: nat,
    sig: nat,
    x: nat,
    y: nat,
    inexact: bool,
    t: nat,
    q: nat,
    odd: nat,
    w: nat,
)
    requires
        d > 0,
        scaled(n, d, sig, x, y, inexact),
        t > 0,
        y + t >= x,
        odd <= 1,
        w < pow2((t - 1) as nat),
        sig == (2 * q + odd) * pow2((t - 1) as nat) + w,
        q < 2 * BINADE,
        q >= BINADE || y + t == x,
    ensures
        ({
            let k = ((y + t - x) * BINADE + q) as nat;
            let up = odd == 1 && (w > 0 || inexact || q % 2 == 1);
            &&& k >= INFINITE ==> rounds_to(n, d, INFINITE as nat)
            &&& k < INFINITE ==> rounds_to(n, d, if up { k + 1 } else { k })
        }),
{
    let e = (y + t - x) as nat;
    let k = (e * BINADE + q) as nat;
    let up = odd == 1 && (w > 0 || inexact || q % 2 == 1);
    let h = pow2((t - 1) as nat);
    let c = pow2(x);
    let a = n * c;
    let b = d * pow2(y);
    let g = pow2(e);
    lemma_pow2_pos((t - 1) as nat);
    lemma_pow2_pos(x);
    lemma_pow2_pos(y);
    lemma_pow2_pos(e);
    lemma_steps_at(e, q);
    lemma_steps_at(e, q + 1);
    let s0 = steps(k);
    let s1 = steps(k + 1);
    // Both sides of every comparison, over the common denominator `c`.
    assert(g * c == 2 * h * pow2(y)) by {
        lemma_pow2_adds(e, x);
        lemma_pow2_adds(t, y);
        lemma_pow2_unfold(t);
    }
    let f = (2 * h * b) as nat;
    assert(b > 0 && f > 0) by (nonlinear_arith)
        requires
            d > 0,
            pow2(y) > 0,
            h > 0,
            b == d * pow2(y),
            f == 2 * h * b,
    ;
    assert((g * d) * c == f) by (nonlinear_arith)
        requires
            g * c == 2 * h * pow2(y),
            f == 2 * h * b,
            b == d * pow2(y),
    ;
    assert((s0 * d) * c == q * f) by (nonlinear_arith)
        requires
            s0 == q * g,
            (g * d) * c == f,
    ;
    assert((s1 * d) * c == (q + 1) * f) by (nonlinear_arith)
        requires
            s1 == (q + 1) * g,
            (g * d) * c == f,
    ;
    assert(((s0 + s1) * d) * c == (2 * q + 1) * f) by (nonlinear_arith)
        requires
            (s0 * d) * c == q * f,
            (s1 * d) * c == (q + 1) * f,
    ;
    let z = 2 * q + odd;
    // Where the scaled integer lies.
    let hb = (h * b) as nat;
    assert(f == 2 * hb) by (nonlinear_arith)
        requires
            f == 2 * h * b,
            hb == h * b,
    ;
    let zb = z * hb;
    let wb = w * b;
    assert(sig * b == zb + wb) by (nonlinear_arith)
        requires
            sig == z * h + w,
            zb == z * hb,
            hb == h * b,
            wb == w * b,
    ;
    assert((sig + 1) * b == zb + wb + b) by (nonlinear_arith)
        requires
            sig * b == zb + wb,
    ;
    assert(wb + b <= hb && (w > 0 ==> wb > 0) && wb >= 0) by (nonlinear_arith)
        requires
            w < h,
            b > 0,
            wb == w * b,
            hb == h * b,
    ;
    assert(zb + wb <= a <= zb + wb + b);
    assert(a < zb + hb);
    assert(w > 0 || inexact ==> a > zb);
    assert(w == 0 && !inexact ==> a == zb) by (nonlinear_arith)
        requires
            !inexact ==> a == zb + wb,
            wb == w * b,
    ;
    assert(q * f == (2 * q) * hb && (q + 1) * f == (2 * q) * hb + 2 * hb && (2 * q + 1) * f == 2 * ((
    2 * q) * hb) + 2 * hb) by (nonlinear_arith)
        requires
            f == 2 * hb,
    ;
    assert(zb == (2 * q) * hb + odd * hb && (odd == 1 ==> odd * hb == hb) && (odd == 0 ==> odd * hb
        == 0)) by (nonlinear_arith)
        requires
            zb == z * hb,
            z == 2 * q + odd,
    ;
    let lo = (s0 * d) as int;
    let hi = (s1 * d) as int;
    let mid = ((s0 + s1) * d) as int;
    assert(a >= lo * c && a < hi * c);
    assert(lo <= n && n < hi) by (nonlinear_arith)
        requires
            lo * c <= n * c < hi * c,
            c > 0,
    ;
    if k >= INFINITE {
        lemma_overflows(n, d, k);
    } else {
        assert(k % 2 == q % 2) by (nonlinear_arith)
            requires
                k == e * BINADE + q,
                BINADE == 0x0010_0000_0000_0000u64,
        ;
        assert(2 * a == (2 * n) * c) by (nonlinear_arith)
            requires
                a == n * c,
        ;
        if odd == 1 {
            if w > 0 || inexact {
                assert(2 * n > mid) by (nonlinear_arith)
                    requires
                        (2 * n) * c > mid * c,
                        c > 0,
                ;
            } else {
                assert(2 * n == mid) by (nonlinear_arith)
                    requires
                        (2 * n) * c == mid * c,
                        c > 0,
                ;
            }
        } else {
            assert(2 * n < mid) by (nonlinear_arith)
                requires
                    (2 * n) * c < mid * c,
                    c > 0,
            ;
        }
        lemma_between(n, d, k, up);
    }
}

/// A scaled integer below half of the smallest step.
proof fn lemma_tiny(n: nat, d: nat, sig: nat, x: nat, y: nat, inexact: bool)
    requires
        d > 0,
        scaled(n, d, sig, x, y, inexact),
        sig < pow2(128),
        x > y + 128,
    ensures
        rounded(n, d) == 0,
{
    let b = d * pow2(y);
    let a = n * pow2(x);
    let p = pow2((x - y) as nat);
    lemma_pow2_pos(y);
    lemma_pow2_adds(y, (x - y) as nat);
    lemma_pow2_unfold((x - y) as nat);
    if x - y - 1 > 128 {
        lemma_pow2_strictly_increases(128, (x - y - 1) as nat);
    }
    assert(2 * (sig + 1) <= p);
    assert(b > 0) by (nonlinear_arith)
        requires
            d > 0,
            pow2(y) > 0,
            b == d * pow2(y),
    ;
    assert((sig + 1) * b == sig * b + b) by (nonlinear_arith);
    assert(a < (sig + 1) * b);
    assert(2 * ((sig + 1) * b) <= p * b) by (nonlinear_arith)
        requires
            2 * (sig + 1) <= p,
            b > 0,
    ;
    assert(p * b == d * pow2(x)) by (nonlinear_arith)
        requires
            b == d * pow2(y),
            pow2(x) == pow2(y) * p,
    ;
    assert(2 * n < d) by (nonlinear_arith)
        requires
            2 * (n * pow2(x)) < d * pow2(x),
            pow2(x) >= 0,
    ;
    lemma_steps_at(0, 0);
    lemma_steps_at(0, 1);
    lemma_machine_powers();
    assert(steps(0) == 0 && steps(1) == 1) by (nonlinear_arith)
        requires
            steps(0) == 0 * pow2(0),
            steps(1) == 1 * pow2(0),
            pow2(0) == 1,
    ;
    lemma_rounded_is(n, d, 0);
}

/// The leading digits of a scaled integer.
proof fn lemma_quotient(sig: nat, len: nat, t: nat, h: nat, z: nat, q: nat)
    requires
        1 <= len <= 128,
        pow2((len - 1) as nat) <= sig < pow2(len),
        t > 0,
        t >= len - 53,
        h == pow2((t - 1) as nat),
        h > 0,
        z == sig / h,
        q == z / 2,
    ensures
        q < 2 * BINADE,
        t == len - 53 ==> q >= BINADE,
{
    lemma_machine_powers();
    lemma_pow2_unfold(t);
    let p = 2 * h;
    assert(q == sig / p) by {
        lemma_div_denominator(sig as int, h as int, 2);
    }
    lemma_pow2_adds(t, 53);
    if len < t + 53 {
        lemma_pow2_strictly_increases(len, t + 53);
    }
    assert(q < 2 * BINADE) by (nonlinear_arith)
        requires
            q == sig / p,
            sig < p * (2 * BINADE),
            p > 0,
    ;
    if t == len - 53 {
        lemma_pow2_adds(t, 52);
        assert(q >= BINADE) by (nonlinear_arith)
            requires
                q == sig / p,
                sig >= p * BINADE,
                p > 0,
        ;
    }
}

/// The magnitude nearest to a ratio that is known as a scaled integer.
pub(crate) fn round_scaled(
    sig: u128,
    e: i32,
    inexact: bool,
    Ghost(n): Ghost<nat>,
    Ghost(d): Ghost<nat>,
    Ghost(x): Ghost<nat>,
    Ghost(y): Ghost<nat>,
) -> (m: u64)
    requires
        sig >= 4 * BINADE,
        -8000 <= e <= 8000,
        e == y - x,
        d > 0,
        scaled(n, d, sig as nat, x, y, inexact),
    ensures
        m == rounded(n, d),
        m <= INFINITE,
{
    let len = bit_length(sig);
    proof {
        lemma_machine_powers();
        if len < 54 {
            lemma_pow2_strictly_increases(len as nat, 54);
            lemma_pow2_unfold(54);
        }
    }
    let excess: i32 = len as i32 - 53;
    let t: i32 = if excess > -e {
        excess
    } else {
        -e
    };
    if t > 128 {
        // Less than half of the smallest step.
        proof {
            lemma_tiny(n, d, sig as nat, x, y, inexact);
        }
        return 0;
    }
    let doubled: i32 = e + t;
    let h = power_of_two((t - 1) as u32);
    let z: u128 = sig / h;
    let w: u128 = sig % h;
    let q: u128 = z / 2;
    let odd: u128 = z % 2;
    proof {
        let hh = h as nat;
        assert(sig == z * h + w && w < h) by (nonlinear_arith)
            requires
                z == sig / h,
                w == sig % h,
                h > 0,
        ;
        lemma_pow2_unfold(t as nat);
        lemma_quotient(sig as nat, len as nat, t as nat, hh, z as nat, q as nat);
        lemma_place(n, d, sig as nat, x, y, inexact, t as nat, q as nat, odd as nat, w as nat);
    }
    if doubled >= 2047 {
        proof {
            assert(doubled * BINADE >= INFINITE) by (nonlinear_arith)
                requires
                    doubled >= 2047,
                    BINADE == 0x0010_0000_0000_0000u64,
                    INFINITE == 0x7ff0_0000_0000_0000u64,
            ;
            lemma_rounded_is(n, d, INFINITE as nat);
        }
        return INFINITE;
    }
    let k: u64 = doubled as u64 * BINADE + q as u64;
    if k >= INFINITE {
        proof {
            lemma_rounded_is(n, d, INFINITE as nat);
        }
        return INFINITE;
    }
    let up = odd == 1 && (w > 0 || inexact || q % 2 == 1);
    let m: u64 = if up {
        k + 1
    } else {
        k
    };
    proof {
        lemma_rounded_is(n, d, m as nat);
    }
    m
}

} // verus!
