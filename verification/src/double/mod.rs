//! Binary floating-point numbers in the 64-bit interchange format.
//!
//! [`Double`] carries the bit pattern of a double. Its arithmetic rounds each
//! exact result to the nearest double, the even one of two that are equally
//! near, as the machine's own arithmetic does. All results that are not a
//! number share one bit pattern.

pub mod accuracy;
pub mod laws;
pub mod rounding;

use self::rounding::{
    bit_length, lemma_increasing, lemma_machine_powers, lemma_next, lemma_rounded_exact,
    lemma_rounded_is, lemma_rounded_monotone, lemma_split, lemma_steps_at, power_of_two,
    round_scaled, rounded, rounds_to, scaled, steps, doublings, BINADE, INFINITE, UNIT_SHIFT,
};
use vstd::arithmetic::power2::{
    lemma_pow2_adds, lemma_pow2_pos, lemma_pow2_strictly_increases, lemma_pow2_unfold, pow2,
};
use vstd::prelude::*;

verus! {

/// The sign bit.
pub const SIGN: u64 = 0x8000_0000_0000_0000;

/// The bit pattern of every result that is not a number.
pub const NOT_A_NUMBER: u64 = 0x7ff8_0000_0000_0000;

/// A double, by its bit pattern.
#[derive(Clone, Copy, Debug)]
pub struct Double {
    pub bits: u64,
}

/// The double with the given sign and magnitude.
pub open spec fn packed(neg: bool, m: nat) -> Double {
    Double { bits: (if neg { m + SIGN } else { m as int }) as u64 }
}

/// The double nearest to `n / d` smallest steps, with the given sign.
pub open spec fn nearest(neg: bool, n: nat, d: nat) -> Double {
    packed(neg, rounded(n, d))
}

/// The double nearest to the fraction `num / den`.
pub open spec fn fraction(num: nat, den: nat) -> Double {
    nearest(false, num * pow2(UNIT_SHIFT as nat), den)
}

impl Double {
    /// Whether the sign bit is set.
    pub open spec fn negative(self) -> bool {
        self.bits >= SIGN
    }

    /// The bit pattern without its sign bit.
    pub open spec fn magnitude(self) -> nat {
        if self.bits >= SIGN {
            (self.bits - SIGN) as nat
        } else {
            self.bits as nat
        }
    }

    /// Whether this is no number at all.
    pub open spec fn not_a_number(self) -> bool {
        self.magnitude() > INFINITE
    }

    /// Whether this is one of the two infinities.
    pub open spec fn infinite(self) -> bool {
        self.magnitude() == INFINITE
    }

    /// Whether this is a number, and no infinity.
    pub open spec fn finite(self) -> bool {
        self.magnitude() < INFINITE
    }

    /// The number of smallest steps that this stands for, with its sign. The
    /// infinities stand for the first powers of two beyond the finite doubles.
    pub open spec fn value(self) -> int {
        if self.negative() {
            -(steps(self.magnitude()) as int)
        } else {
            steps(self.magnitude()) as int
        }
    }

    /// The rounded sum.
    pub open spec fn plus(self, other: Double) -> Double {
        if self.not_a_number() || other.not_a_number() {
            Double { bits: NOT_A_NUMBER }
        } else if self.infinite() && other.infinite() {
            if self.negative() == other.negative() {
                self
            } else {
                Double { bits: NOT_A_NUMBER }
            }
        } else if self.infinite() {
            self
        } else if other.infinite() {
            other
        } else {
            let sum = self.value() + other.value();
            if sum == 0 {
                packed(self.negative() && other.negative(), 0)
            } else if sum < 0 {
                nearest(true, (-sum) as nat, 1)
            } else {
                nearest(false, sum as nat, 1)
            }
        }
    }

    /// The number of the opposite sign.
    pub open spec fn opposite(self) -> Double {
        packed(!self.negative(), self.magnitude())
    }

    /// The rounded difference.
    pub open spec fn minus(self, other: Double) -> Double {
        self.plus(other.opposite())
    }

    /// The rounded product.
    pub open spec fn times(self, other: Double) -> Double {
        let neg = self.negative() != other.negative();
        if self.not_a_number() || other.not_a_number() {
            Double { bits: NOT_A_NUMBER }
        } else if self.infinite() || other.infinite() {
            if self.magnitude() == 0 || other.magnitude() == 0 {
                Double { bits: NOT_A_NUMBER }
            } else {
                packed(neg, INFINITE as nat)
            }
        } else {
            nearest(
                neg,
                steps(self.magnitude()) * steps(other.magnitude()),
                pow2(UNIT_SHIFT as nat),
            )
        }
    }

    /// The rounded quotient.
    pub open spec fn over(self, other: Double) -> Double {
        let neg = self.negative() != other.negative();
        if self.not_a_number() || other.not_a_number() {
            Double { bits: NOT_A_NUMBER }
        } else if self.infinite() {
            if other.infinite() {
                Double { bits: NOT_A_NUMBER }
            } else {
                packed(neg, INFINITE as nat)
            }
        } else if other.infinite() {
            packed(neg, 0)
        } else if other.magnitude() == 0 {
            if self.magnitude() == 0 {
                Double { bits: NOT_A_NUMBER }
            } else {
                packed(neg, INFINITE as nat)
            }
        } else {
            nearest(
                neg,
                steps(self.magnitude()) * pow2(UNIT_SHIFT as nat),
                steps(other.magnitude()),
            )
        }
    }

    /// Whether this is a number less than `other`.
    pub open spec fn below(self, other: Double) -> bool {
        !self.not_a_number() && !other.not_a_number() && self.value() < other.value()
    }

    /// Whether this is a number not greater than `other`.
    pub open spec fn at_most(self, other: Double) -> bool {
        !self.not_a_number() && !other.not_a_number() && self.value() <= other.value()
    }

    /// The greater of two numbers, or the only number of the two.
    pub open spec fn greater_of(self, other: Double) -> Double {
        if self.not_a_number() || self.below(other) {
            other
        } else {
            self
        }
    }

    /// The lesser of two numbers, or the only number of the two.
    pub open spec fn lesser_of(self, other: Double) -> Double {
        if self.not_a_number() || other.below(self) {
            other
        } else {
            self
        }
    }

    /// This number, moved to the nearer end of the range if it lies outside.
    pub open spec fn bounded(self, low: Double, high: Double) -> Double {
        if self.below(low) {
            low
        } else if high.below(self) {
            high
        } else {
            self
        }
    }

    /// The absolute value.
    pub open spec fn unsigned(self) -> Double {
        packed(false, self.magnitude())
    }
}

/// What is left of a magnitude below its doublings, and their number.
fn split(m: u64) -> (r: (u64, u32))
    requires
        m < INFINITE,
    ensures
        r.1 == doublings(m as nat),
        r.0 == m - r.1 * BINADE,
        steps(m as nat) == r.0 * pow2(r.1 as nat),
        r.0 < 2 * BINADE,
        r.0 >= BINADE || r.1 == 0,
        r.1 <= 2045,
{
    proof {
        lemma_split(m as nat);
    }
    if m < 2 * BINADE {
        (m, 0)
    } else {
        let e: u64 = m / BINADE - 1;
        (m - e * BINADE, e as u32)
    }
}

/// Rounds a scaled integer that is exact.
fn round_exact(
    sig: u128,
    e: i32,
    Ghost(n): Ghost<nat>,
    Ghost(d): Ghost<nat>,
    Ghost(x): Ghost<nat>,
    Ghost(y): Ghost<nat>,
) -> (m: u64)
    requires
        sig > 0,
        -7000 <= e <= 7000,
        e == y - x,
        d > 0,
        scaled(n, d, sig as nat, x, y, false),
    ensures
        m == rounded(n, d),
        m <= INFINITE,
{
    if sig < 0x1_0000_0000_0000_0000 {
        let up = power_of_two(55);
        proof {
            lemma_machine_powers();
            assert(sig * up <= 0xffff_ffff_ffff_ffff * (8 * BINADE) && sig * up >= up)
                by (nonlinear_arith)
                requires
                    1 <= sig <= 0xffff_ffff_ffff_ffff,
                    up == 8 * BINADE,
                    BINADE == 0x0010_0000_0000_0000u64,
            ;
            lemma_pow2_adds(x, 55);
            let b = d * pow2(y);
            assert(n * (pow2(x) * up) == (sig * up) * b) by (nonlinear_arith)
                requires
                    n * pow2(x) == sig * b,
            ;
        }
        round_scaled(sig * up, e - 55, false, Ghost(n), Ghost(d), Ghost(x + 55), Ghost(y))
    } else {
        round_scaled(sig, e, false, Ghost(n), Ghost(d), Ghost(x), Ghost(y))
    }
}

/// A magnitude so much smaller that it does not reach the rounding point.
proof fn lemma_absorbed(a: nat, b: nat)
    requires
        a < INFINITE,
        doublings(a) > doublings(b) + 64,
    ensures
        rounded(steps(a) + steps(b), 1) == a,
        steps(b) < steps(a),
        rounded((steps(a) - steps(b)) as nat, 1) == a,
{
    let ea = doublings(a);
    let eb = doublings(b);
    lemma_split(a);
    lemma_split(b);
    let qb = (b - eb * BINADE) as nat;
    let prev = (a - 1) as nat;
    lemma_machine_powers();
    lemma_next(a);
    lemma_next(prev);
    // The gap below `a` is at least half of the gap above it.
    lemma_split(prev);
    assert(doublings(prev) >= ea - 1) by {
        let ep = doublings(prev);
        if ep < ea - 1 {
            assert((ep + 2) * BINADE <= ea * BINADE) by (nonlinear_arith)
                requires
                    ep + 2 <= ea,
                    BINADE > 0,
            ;
            assert((ep + 2) * BINADE == ep * BINADE + 2 * BINADE) by (nonlinear_arith);
        }
    }
    if doublings(prev) > ea - 1 {
        lemma_pow2_strictly_increases((ea - 1) as nat, doublings(prev));
    }
    let gap = pow2((ea - 1) as nat);
    lemma_pow2_unfold(ea);
    assert(4 * steps(b) < gap) by {
        lemma_pow2_adds(55, eb);
        lemma_pow2_strictly_increases(55 + eb, (ea - 1) as nat);
        assert(qb * pow2(eb) <= (2 * BINADE) * pow2(eb)) by (nonlinear_arith)
            requires
                qb < 2 * BINADE,
        ;
        assert(4 * ((2 * BINADE) * pow2(eb)) == (8 * BINADE) * pow2(eb)) by (nonlinear_arith);
    }
    assert(b < a) by {
        if a <= b {
            lemma_doublings_ordered(a, b);
        }
    }
    lemma_increasing(b, a);
    assert(steps(a) + steps(b) >= 0);
    assert(rounds_to(steps(a) + steps(b), 1, a));
    assert(rounds_to((steps(a) - steps(b)) as nat, 1, a));
    lemma_rounded_is(steps(a) + steps(b), 1, a);
    lemma_rounded_is((steps(a) - steps(b)) as nat, 1, a);
}

/// The rounded sum, or difference, of two finite magnitudes, the greater first.
fn combine(a: u64, b: u64, subtract: bool) -> (m: u64)
    requires
        b <= a < INFINITE,
        subtract ==> b < a,
        a > 0,
    ensures
        m <= INFINITE,
        !subtract ==> m == rounded(steps(a as nat) + steps(b as nat), 1),
        subtract ==> m == rounded((steps(a as nat) - steps(b as nat)) as nat, 1),
{
    let (qa, ea) = split(a);
    let (qb, eb) = split(b);
    proof {
        lemma_machine_powers();
        lemma_doublings_ordered(b as nat, a as nat);
        if b < a {
            lemma_increasing(b as nat, a as nat);
        }
    }
    if ea - eb > 64 {
        proof {
            lemma_absorbed(a as nat, b as nat);
        }
        return a;
    }
    let up = power_of_two(ea - eb);
    let ghost base = pow2(eb as nat);
    proof {
        lemma_pow2_adds((ea - eb) as nat, eb as nat);
        lemma_pow2_pos(eb as nat);
        if ea - eb < 64 {
            lemma_pow2_strictly_increases((ea - eb) as nat, 64);
        }
        assert(qa * up <= 0x20_0000_0000_0000 * 0x1_0000_0000_0000_0000 && qa * up >= 0)
            by (nonlinear_arith)
            requires
                0 <= qa <= 0x20_0000_0000_0000,
                0 <= up <= 0x1_0000_0000_0000_0000,
        ;
        assert((qa * up) * base == steps(a as nat)) by (nonlinear_arith)
            requires
                steps(a as nat) == qa * (up * base),
        ;
    }
    let big: u128 = qa as u128 * up;
    if subtract {
        proof {
            assert(big > qb) by (nonlinear_arith)
                requires
                    qb * base < big * base,
                    base > 0,
            ;
        }
        let sig: u128 = big - qb as u128;
        let ghost n = (steps(a as nat) - steps(b as nat)) as nat;
        proof {
            assert(n * pow2(0) == sig * (1 * base)) by (nonlinear_arith)
                requires
                    n == big * base - qb * base,
                    sig == big - qb,
                    pow2(0) == 1,
            ;
        }
        round_exact(sig, eb as i32, Ghost(n), Ghost(1), Ghost(0), Ghost(eb as nat))
    } else {
        let sig: u128 = big + qb as u128;
        let ghost n = steps(a as nat) + steps(b as nat);
        proof {
            lemma_steps_at(0, 0);
            lemma_increasing(0, a as nat);
            assert(0 * pow2(0) == 0) by (nonlinear_arith);
            assert(big > 0) by (nonlinear_arith)
                requires
                    big * base > 0,
            ;
            assert(n * pow2(0) == sig * (1 * base)) by (nonlinear_arith)
                requires
                    n == big * base + qb * base,
                    sig == big + qb,
                    pow2(0) == 1,
            ;
        }
        round_exact(sig, eb as i32, Ghost(n), Ghost(1), Ghost(0), Ghost(eb as nat))
    }
}

/// Doublings grow with the magnitude.
proof fn lemma_doublings_ordered(b: nat, a: nat)
    requires
        b <= a,
    ensures
        doublings(b) <= doublings(a),
{
    if b >= 2 * BINADE {
        assert(b / BINADE as nat <= a / BINADE as nat) by (nonlinear_arith)
            requires
                b <= a,
                BINADE > 0,
        ;
    }
}

/// The rounded product of two finite magnitudes.
fn multiply(a: u64, b: u64) -> (m: u64)
    requires
        a < INFINITE,
        b < INFINITE,
    ensures
        m <= INFINITE,
        m == rounded(steps(a as nat) * steps(b as nat), pow2(UNIT_SHIFT as nat)),
{
    let (qa, ea) = split(a);
    let (qb, eb) = split(b);
    let ghost n = steps(a as nat) * steps(b as nat);
    let ghost d = pow2(UNIT_SHIFT as nat);
    proof {
        lemma_pow2_pos(UNIT_SHIFT as nat);
        lemma_pow2_adds(ea as nat, eb as nat);
        lemma_steps_zero();
    }
    if qa == 0 || qb == 0 {
        proof {
            assert(n == 0) by (nonlinear_arith)
                requires
                    n == (qa * pow2(ea as nat)) * (qb * pow2(eb as nat)),
                    qa == 0 || qb == 0,
            ;
            assert(0 == 0 * d) by (nonlinear_arith);
            lemma_rounded_exact(n, d, 0);
        }
        return 0;
    }
    proof {
        assert(0 < qa * qb <= 0x20_0000_0000_0000 * 0x20_0000_0000_0000) by (nonlinear_arith)
            requires
                0 < qa <= 0x20_0000_0000_0000,
                0 < qb <= 0x20_0000_0000_0000,
        ;
        let pa = pow2(ea as nat);
        let pb = pow2(eb as nat);
        let p = pow2((ea + eb) as nat);
        assert(n * d == (qa * qb) * (d * p)) by (nonlinear_arith)
            requires
                n == (qa * pa) * (qb * pb),
                p == pa * pb,
        ;
    }
    round_exact(
        qa as u128 * qb as u128,
        ea as i32 + eb as i32 - 1074,
        Ghost(n),
        Ghost(d),
        Ghost(1074nat),
        Ghost((ea + eb) as nat),
    )
}

/// Zero is zero steps.
pub proof fn lemma_steps_zero()
    ensures
        steps(0) == 0,
{
    lemma_steps_at(0, 0);
    assert(0 * pow2(0) == 0) by (nonlinear_arith);
}

/// The rounded quotient of two finite magnitudes.
fn divide(a: u64, b: u64) -> (m: u64)
    requires
        a < INFINITE,
        0 < b < INFINITE,
    ensures
        m <= INFINITE,
        m == rounded(steps(a as nat) * pow2(UNIT_SHIFT as nat), steps(b as nat)),
{
    let (qa, ea) = split(a);
    let (qb, eb) = split(b);
    let ghost n = steps(a as nat) * pow2(UNIT_SHIFT as nat);
    let ghost d = steps(b as nat);
    proof {
        lemma_steps_zero();
        lemma_increasing(0, b as nat);
        assert(qb > 0) by (nonlinear_arith)
            requires
                qb * pow2(eb as nat) > 0,
        ;
    }
    if qa == 0 {
        proof {
            assert(n == 0) by (nonlinear_arith)
                requires
                    n == (qa * pow2(ea as nat)) * pow2(UNIT_SHIFT as nat),
                    qa == 0,
            ;
            assert(0 == 0 * d) by (nonlinear_arith);
            lemma_rounded_exact(n, d, 0);
        }
        return 0;
    }
    let len = bit_length(qa as u128);
    proof {
        lemma_machine_powers();
        if len > 53 {
            if len > 54 {
                lemma_pow2_strictly_increases(53, (len - 1) as nat);
            }
        }
    }
    let s: u32 = 127 - len;
    let up = power_of_two(s);
    proof {
        lemma_pow2_adds(len as nat, s as nat);
        lemma_pow2_adds((len - 1) as nat, s as nat);
        lemma_pow2_unfold(127);
        assert(qa * up < 0x8000_0000_0000_0000_0000_0000_0000_0000 && 2 * (qa * up)
            >= 0x8000_0000_0000_0000_0000_0000_0000_0000) by (nonlinear_arith)
            requires
                qa < pow2(len as nat),
                qa >= pow2((len - 1) as nat),
                pow2(len as nat) * up == 0x8000_0000_0000_0000_0000_0000_0000_0000,
                2 * (pow2((len - 1) as nat) * up) == 0x8000_0000_0000_0000_0000_0000_0000_0000,
                up > 0,
        ;
    }
    let top: u128 = qa as u128 * up;
    let z: u128 = top / qb as u128;
    let rest: u128 = top % qb as u128;
    let inexact = rest != 0;
    let ghost x = (s + eb) as nat;
    let ghost y = (ea + 1074) as nat;
    proof {
        assert(top == z * qb + rest && rest < qb && z >= 4 * BINADE) by (nonlinear_arith)
            requires
                z == top / qb as u128,
                rest == top % qb as u128,
                0 < qb <= 0x20_0000_0000_0000,
                2 * top >= 0x8000_0000_0000_0000_0000_0000_0000_0000,
                BINADE == 0x0010_0000_0000_0000u64,
        ;
        let pe = pow2(ea as nat);
        let pb = pow2(eb as nat);
        let u = pow2(1074);
        lemma_pow2_adds(s as nat, eb as nat);
        lemma_pow2_adds(ea as nat, 1074);
        lemma_pow2_pos(ea as nat);
        lemma_pow2_pos(eb as nat);
        lemma_pow2_pos(1074);
        let k = ((pe * u) * pb) as nat;
        assert(k > 0) by (nonlinear_arith)
            requires
                pe > 0,
                u > 0,
                pb > 0,
                k == (pe * u) * pb,
        ;
        assert(n * pow2(x) == top * k) by (nonlinear_arith)
            requires
                n == (qa * pe) * u,
                pow2(x) == up * pb,
                top == qa * up,
                k == (pe * u) * pb,
        ;
        let b2 = d * pow2(y);
        assert(b2 == qb * k) by (nonlinear_arith)
            requires
                d == qb * pb,
                pow2(y) == pe * u,
                b2 == d * pow2(y),
                k == (pe * u) * pb,
        ;
        assert(z * b2 == (z * qb) * k && (z + 1) * b2 == (z * qb + qb) * k) by (nonlinear_arith)
            requires
                b2 == qb * k,
        ;
        if inexact {
            assert((z * qb) * k < top * k < (z * qb + qb) * k) by (nonlinear_arith)
                requires
                    z * qb < top < z * qb + qb,
                    k > 0,
            ;
        }
    }
    round_scaled(
        z,
        ea as i32 + 1074 - s as i32 - eb as i32,
        inexact,
        Ghost(n),
        Ghost(d),
        Ghost(x),
        Ghost(y),
    )
}

impl Double {
    /// The double with the given sign and magnitude.
    fn pack(neg: bool, m: u64) -> (r: Double)
        requires
            m < SIGN,
        ensures
            r == packed(neg, m as nat),
            r.negative() == neg,
            r.magnitude() == m,
    {
        Double {
            bits: if neg {
                m + SIGN
            } else {
                m
            },
        }
    }

    fn is_negative(&self) -> (r: bool)
        ensures
            r == self.negative(),
    {
        self.bits >= SIGN
    }

    fn mag(&self) -> (r: u64)
        ensures
            r == self.magnitude(),
    {
        if self.bits >= SIGN {
            self.bits - SIGN
        } else {
            self.bits
        }
    }

    /// Whether this is no number at all.
    pub fn is_nan(&self) -> (r: bool)
        ensures
            r == self.not_a_number(),
    {
        self.mag() > INFINITE
    }

    /// The rounded sum.
    pub fn add(self, other: Double) -> (r: Double)
        ensures
            r == self.plus(other),
    {
        let (na, a) = (self.is_negative(), self.mag());
        let (nb, b) = (other.is_negative(), other.mag());
        if a > INFINITE || b > INFINITE {
            return Double { bits: NOT_A_NUMBER };
        }
        if a == INFINITE {
            return if b == INFINITE && na != nb {
                Double { bits: NOT_A_NUMBER }
            } else {
                self
            };
        }
        if b == INFINITE {
            return other;
        }
        proof {
            lemma_steps_zero();
            if a < b {
                lemma_increasing(a as nat, b as nat);
            }
            if b < a {
                lemma_increasing(b as nat, a as nat);
            }
            if a > 0 {
                lemma_increasing(0, a as nat);
            }
            if b > 0 {
                lemma_increasing(0, b as nat);
            }
        }
        if na == nb {
            if a == 0 && b == 0 {
                Double::pack(na, 0)
            } else if a >= b {
                Double::pack(na, combine(a, b, false))
            } else {
                Double::pack(na, combine(b, a, false))
            }
        } else if a == b {
            Double::pack(false, 0)
        } else if a > b {
            Double::pack(na, combine(a, b, true))
        } else {
            Double::pack(nb, combine(b, a, true))
        }
    }

    /// The number of the opposite sign.
    pub fn neg(self) -> (r: Double)
        ensures
            r == self.opposite(),
    {
        Double::pack(!self.is_negative(), self.mag())
    }

    /// The absolute value.
    pub fn abs(self) -> (r: Double)
        ensures
            r == self.unsigned(),
    {
        Double::pack(false, self.mag())
    }

    /// The rounded difference.
    pub fn sub(self, other: Double) -> (r: Double)
        ensures
            r == self.minus(other),
    {
        self.add(other.neg())
    }

    /// The rounded product.
    pub fn mul(self, other: Double) -> (r: Double)
        ensures
            r == self.times(other),
    {
        let (a, b) = (self.mag(), other.mag());
        let neg = self.is_negative() != other.is_negative();
        if a > INFINITE || b > INFINITE {
            return Double { bits: NOT_A_NUMBER };
        }
        if a == INFINITE || b == INFINITE {
            return if a == 0 || b == 0 {
                Double { bits: NOT_A_NUMBER }
            } else {
                Double::pack(neg, INFINITE)
            };
        }
        Double::pack(neg, multiply(a, b))
    }

    /// The rounded quotient.
    pub fn div(self, other: Double) -> (r: Double)
        ensures
            r == self.over(other),
    {
        let (a, b) = (self.mag(), other.mag());
        let neg = self.is_negative() != other.is_negative();
        if a > INFINITE || b > INFINITE {
            return Double { bits: NOT_A_NUMBER };
        }
        if a == INFINITE {
            return if b == INFINITE {
                Double { bits: NOT_A_NUMBER }
            } else {
                Double::pack(neg, INFINITE)
            };
        }
        if b == INFINITE {
            return Double::pack(neg, 0);
        }
        if b == 0 {
            return if a == 0 {
                Double { bits: NOT_A_NUMBER }
            } else {
                Double::pack(neg, INFINITE)
            };
        }
        Double::pack(neg, divide(a, b))
    }

    /// Whether this is a number less than `other`.
    pub fn lt(self, other: Double) -> (r: bool)
        ensures
            r == self.below(other),
    {
        let (na, a) = (self.is_negative(), self.mag());
        let (nb, b) = (other.is_negative(), other.mag());
        proof {
            lemma_steps_zero();
            if a < b {
                lemma_increasing(a as nat, b as nat);
            }
            if b < a {
                lemma_increasing(b as nat, a as nat);
            }
            if a > 0 {
                lemma_increasing(0, a as nat);
            }
            if b > 0 {
                lemma_increasing(0, b as nat);
            }
        }
        if a > INFINITE || b > INFINITE {
            false
        } else if na && nb {
            b < a
        } else if na {
            a > 0 || b > 0
        } else if nb {
            false
        } else {
            a < b
        }
    }

    /// Whether this is a number not greater than `other`.
    pub fn le(self, other: Double) -> (r: bool)
        ensures
            r == self.at_most(other),
    {
        !self.is_nan() && !other.is_nan() && !other.lt(self)
    }

    /// The greater of two numbers, or the only number of the two.
    pub fn max(self, other: Double) -> (r: Double)
        ensures
            r == self.greater_of(other),
    {
        if self.is_nan() || self.lt(other) {
            other
        } else {
            self
        }
    }

    /// The lesser of two numbers, or the only number of the two.
    pub fn min(self, other: Double) -> (r: Double)
        ensures
            r == self.lesser_of(other),
    {
        if self.is_nan() || other.lt(self) {
            other
        } else {
            self
        }
    }

    /// This number, moved to the nearer end of the range if it lies outside.
    pub fn clamp(self, low: Double, high: Double) -> (r: Double)
        ensures
            r == self.bounded(low, high),
    {
        if self.lt(low) {
            low
        } else if high.lt(self) {
            high
        } else {
            self
        }
    }

    /// The double nearest to a whole number.
    pub fn whole(n: u64) -> (r: Double)
        ensures
            r == fraction(n as nat, 1),
            !r.negative(),
            n < 0x20_0000_0000_0000 ==> r.finite() && steps(r.magnitude()) == n * pow2(
                UNIT_SHIFT as nat,
            ),
    {
        let ghost steps_of = n * pow2(UNIT_SHIFT as nat);
        proof {
            lemma_steps_zero();
            lemma_machine_powers();
            lemma_pow2_pos(UNIT_SHIFT as nat);
        }
        if n == 0 {
            proof {
                assert(steps_of == 0) by (nonlinear_arith)
                    requires
                        steps_of == n * pow2(UNIT_SHIFT as nat),
                        n == 0,
                ;
                lemma_rounded_exact(0, 1, 0);
            }
            return Double::pack(false, 0);
        }
        proof {
            assert(steps_of * pow2(0) == n * (1 * pow2(1074))) by (nonlinear_arith)
                requires
                    steps_of == n * pow2(UNIT_SHIFT as nat),
                    pow2(0) == 1,
                    UNIT_SHIFT == 1074,
            ;
            if n < 0x20_0000_0000_0000 {
                lemma_whole(n as nat);
            }
        }
        let m = round_exact(
            n as u128,
            1074,
            Ghost(steps_of as nat),
            Ghost(1),
            Ghost(0),
            Ghost(1074),
        );
        Double::pack(false, m)
    }

    /// The double nearest to a fraction of whole numbers.
    pub fn ratio(num: u64, den: u64) -> (r: Double)
        requires
            num < 0x20_0000_0000_0000,
            0 < den < 0x20_0000_0000_0000,
        ensures
            r == fraction(num as nat, den as nat),
    {
        let a = Double::whole(num);
        let b = Double::whole(den);
        proof {
            let u = pow2(UNIT_SHIFT as nat);
            lemma_pow2_pos(UNIT_SHIFT as nat);
            assert(den * u > 0 && (num * u) * u == (num * u) * u) by (nonlinear_arith)
                requires
                    den > 0,
                    u > 0,
            ;
            lemma_steps_zero();
            lemma_same_ratio(((num * u) * u) as nat, (den * u) as nat, (num * u) as nat, den as nat, u);
        }
        a.div(b)
    }
}

/// Small whole numbers are doubles.
pub proof fn lemma_whole(n: nat)
    requires
        n < 0x20_0000_0000_0000,
    ensures
        rounded(n * pow2(UNIT_SHIFT as nat), 1) < INFINITE,
        steps(rounded(n * pow2(UNIT_SHIFT as nat), 1)) == n * pow2(UNIT_SHIFT as nat),
{
    let m = lemma_shifted(n, UNIT_SHIFT as nat);
    lemma_rounded_exact(n * pow2(UNIT_SHIFT as nat), 1, m);
}

/// A short integer times a power of two is a double.
proof fn lemma_shifted(q: nat, e: nat) -> (m: nat)
    requires
        q < 2 * BINADE,
        e <= UNIT_SHIFT,
    ensures
        m < INFINITE,
        steps(m) == q * pow2(e),
    decreases e,
{
    if q >= BINADE || e == 0 {
        lemma_steps_at(e, q);
        (e * BINADE + q) as nat
    } else {
        let m = lemma_shifted(2 * q, (e - 1) as nat);
        lemma_pow2_unfold(e);
        assert((2 * q) * pow2((e - 1) as nat) == q * (2 * pow2((e - 1) as nat))) by (nonlinear_arith);
        m
    }
}

/// Common factors do not change what a ratio rounds to.
proof fn lemma_same_ratio(n1: nat, d1: nat, n2: nat, d2: nat, f: nat)
    requires
        d2 > 0,
        f > 0,
        n1 == n2 * f,
        d1 == d2 * f,
    ensures
        rounded(n1, d1) == rounded(n2, d2),
{
    assert(d1 > 0 && n1 * d2 == n2 * d1) by (nonlinear_arith)
        requires
            d2 > 0,
            f > 0,
            n1 == n2 * f,
            d1 == d2 * f,
    ;
    lemma_rounded_monotone(n1, d1, n2, d2);
    lemma_rounded_monotone(n2, d2, n1, d1);
}

} // verus!
