//! Decimal quantities.

use vstd::arithmetic::div_mod::lemma_div_denominator;
use vstd::arithmetic::power::{lemma_pow_positive, pow};
use vstd::prelude::*;

verus! {

/// A decimal number: `mantissa` of the `scale`-th decimal place.
#[derive(Clone, Copy, Debug, PartialEq, Eq, Structural)]
pub struct Quantity {
    pub mantissa: i128,
    pub scale: u32,
}

/// A whole number divided by another, any fraction dropped.
pub open spec fn whole_part(n: int, d: int) -> int {
    if n >= 0 {
        n / d
    } else {
        -((-n) / d)
    }
}

impl Quantity {
    /// Whether this is more than zero.
    pub open spec fn positive(self) -> bool {
        self.mantissa > 0
    }

    /// This number with all but the first `places` decimal places dropped.
    pub open spec fn cut(self, places: u32) -> Quantity {
        if self.scale <= places {
            self
        } else {
            Quantity {
                mantissa: whole_part(self.mantissa as int, pow(10, (self.scale - places) as nat)) as i128,
                scale: places,
            }
        }
    }

    /// Whether this is more than zero.
    pub fn is_positive(&self) -> (r: bool)
        ensures
            r == self.positive(),
    {
        self.mantissa > 0
    }

    /// Drops all but the first `places` decimal places.
    pub fn truncated(&self, places: u32) -> (r: Quantity)
        requires
            self.mantissa > i128::MIN,
        ensures
            r == self.cut(places),
    {
        if self.scale <= places {
            return *self;
        }
        let negative = self.mantissa < 0;
        let size: i128 = if negative {
            -self.mantissa
        } else {
            self.mantissa
        };
        let mut left: i128 = size;
        let mut scale: u32 = self.scale;
        proof {
            reveal(pow);
            assert(pow(10, 0) == 1);
            assert(left as int / 1 == left);
        }
        while scale > places
            invariant
                places <= scale <= self.scale,
                0 <= left <= size,
                left == size as int / pow(10, (self.scale - scale) as nat),
            decreases scale - places,
        {
            proof {
                let k = (self.scale - scale) as nat;
                lemma_pow_positive(10, k);
                lemma_pow_positive(10, (k + 1) as nat);
                reveal(pow);
                assert(pow(10, (k + 1) as nat) == 10 * pow(10, k));
                lemma_div_denominator(size as int, pow(10, k), 10);
                assert(pow(10, k) * 10 == 10 * pow(10, k)) by (nonlinear_arith);
            }
            left = left / 10;
            scale = scale - 1;
        }
        let mantissa: i128 = if negative {
            -left
        } else {
            left
        };
        Quantity { mantissa, scale: places }
    }
}

/// Dropping decimal places never leads away from zero: of a number that is not
/// negative at most as much is left, and of a negative one at least. Less than one of
/// the last place that is kept is lost.
pub proof fn cutting_moves_toward_zero(q: Quantity, places: u32)
    requires
        q.scale > places,
    ensures
        q.mantissa >= 0 ==> 0 <= q.cut(places).mantissa * pow(10, (q.scale - places) as nat) <= q.mantissa,
        q.mantissa >= 0 ==> q.mantissa < (q.cut(places).mantissa + 1) * pow(
            10,
            (q.scale - places) as nat,
        ),
        q.mantissa < 0 && q.mantissa > i128::MIN ==> q.mantissa <= q.cut(places).mantissa * pow(
            10,
            (q.scale - places) as nat,
        ) <= 0,
        q.mantissa < 0 && q.mantissa > i128::MIN ==> (q.cut(places).mantissa - 1) * pow(
            10,
            (q.scale - places) as nat,
        ) < q.mantissa,
        q.cut(places).scale == places,
{
    let d = pow(10, (q.scale - places) as nat);
    lemma_pow_positive(10, (q.scale - places) as nat);
    let n: int = if q.mantissa >= 0 {
        q.mantissa as int
    } else {
        -(q.mantissa as int)
    };
    let w = n / d;
    vstd::arithmetic::div_mod::lemma_fundamental_div_mod(n, d);
    vstd::arithmetic::div_mod::lemma_mod_bound(n, d);
    vstd::arithmetic::div_mod::lemma_div_pos_is_pos(n, d);
    assert(0 <= w <= n && 0 <= w * d <= n < (w + 1) * d && (-w) * d == -(w * d) && (-w - 1) * d == -((w
        + 1) * d)) by (nonlinear_arith)
        requires
            n == d * w + n % d,
            0 <= n % d < d,
            d >= 1,
            w >= 0,
    ;
}

} // verus!
