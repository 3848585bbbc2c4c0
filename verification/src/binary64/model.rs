//! The numbers of the format and what rounding to them means.
use vstd::arithmetic::power2::pow2;
use vstd::prelude::*;

verus! {

/// 2^52: the least mantissa.
pub const MANTISSA_FLOOR: u64 = 0x10_0000_0000_0000;

/// 2^53: the bound above every mantissa.
pub const MANTISSA_BOUND: u64 = 0x20_0000_0000_0000;

/// The exponent `e` where it is positive, else zero.
pub open spec fn above(e: int) -> nat {
    if e > 0 {
        e as nat
    } else {
        0
    }
}

/// The exponent `e`, negated, where it is negative, else zero.
pub open spec fn below(e: int) -> nat {
    if e < 0 {
        (-e) as nat
    } else {
        0
    }
}

/// The positive number `mantissa * 2^exponent`.
pub ghost struct Dyadic {
    pub mantissa: nat,
    pub exponent: int,
}

impl Dyadic {
    /// The number is `numerator() / denominator()`.
    pub open spec fn numerator(self) -> nat {
        self.mantissa * pow2(above(self.exponent))
    }

    /// A power of two: 1 unless the exponent is negative.
    pub open spec fn denominator(self) -> nat {
        pow2(below(self.exponent))
    }

    /// Whether the mantissa has exactly 53 bits.
    pub open spec fn normal(self) -> bool {
        MANTISSA_FLOOR <= self.mantissa < MANTISSA_BOUND
    }
}

/// Whether `a / b`, divided by `2^e`, lies from 2^52 up to, not including, 2^53:
/// then `e` is the exponent at which `a / b` has 53 bits before the point.
pub open spec fn in_binade(a: nat, b: nat, e: int) -> bool {
    let n = a * pow2(below(e));
    let d = b * pow2(above(e));
    MANTISSA_FLOOR * d <= n < MANTISSA_BOUND * d
}

/// The exponent at which `a / b` has 53 bits before the point.
pub open spec fn binade(a: nat, b: nat) -> int {
    choose|e: int| in_binade(a, b, e)
}

/// The whole number nearest to `n / d`; of two equally near, the even one.
pub open spec fn nearest_whole(n: nat, d: nat) -> nat {
    let whole = n / d;
    let rest = n % d;
    if 2 * rest < d || (2 * rest == d && whole % 2 == 0) {
        whole
    } else {
        whole + 1
    }
}

/// `mantissa * 2^exponent` for a mantissa up to and including 2^53, which is
/// handed on as 2^52 at the next exponent.
pub open spec fn carried(mantissa: nat, exponent: int) -> Dyadic {
    if mantissa == MANTISSA_BOUND {
        Dyadic { mantissa: MANTISSA_FLOOR as nat, exponent: exponent + 1 }
    } else {
        Dyadic { mantissa, exponent }
    }
}

/// The number of the format nearest to `a / b`, for positive `a` and `b`.
pub open spec fn nearest(a: nat, b: nat) -> Dyadic {
    let e = binade(a, b);
    carried(nearest_whole(a * pow2(below(e)), b * pow2(above(e))), e)
}

/// How far the number `z` lies from `a / b`, counted in parts of which
/// `b * z.denominator()` make one.
pub open spec fn distance(a: nat, b: nat, z: Dyadic) -> nat {
    let at = a * z.denominator();
    let to = z.numerator() * b;
    if at >= to {
        (at - to) as nat
    } else {
        (to - at) as nat
    }
}

/// The quotient of two numbers of the format, as the format holds it.
pub open spec fn quotient(x: Dyadic, y: Dyadic) -> Dyadic {
    nearest(x.numerator() * y.denominator(), x.denominator() * y.numerator())
}

/// The sum of two numbers of the format, as the format holds it.
pub open spec fn sum(x: Dyadic, y: Dyadic) -> Dyadic {
    nearest(
        x.numerator() * y.denominator() + y.numerator() * x.denominator(),
        x.denominator() * y.denominator(),
    )
}

/// The whole part of a number, up to `u64::MAX`.
pub open spec fn truncated(x: Dyadic) -> nat {
    let whole = x.numerator() / x.denominator();
    if whole > u64::MAX {
        u64::MAX as nat
    } else {
        whole
    }
}

/// The number one: 2^52 units of 2^-52.
pub open spec fn one() -> Dyadic {
    Dyadic { mantissa: MANTISSA_FLOOR as nat, exponent: -52 }
}

/// The exponent of the least number of the format with a full mantissa, 2^-1022,
/// counted in units of its last place.
pub const LEAST_EXPONENT: i32 = -1074;

/// The exponent of the greatest numbers of the format, counted likewise.
pub const GREATEST_EXPONENT: i32 = 971;

/// The 64 bits in which the format stores positive infinity.
pub const INFINITY_BITS: u64 = 0x7ff0_0000_0000_0000;

/// The 64 bits in which the format stores a positive number: the exponent,
/// counted from 1 at the least one, in the eleven bits below the sign, and the
/// mantissa without its leading bit in the 52 bits below those.
pub open spec fn bit_pattern(x: Dyadic) -> nat {
    ((x.exponent - LEAST_EXPONENT + 1) * MANTISSA_FLOOR + (x.mantissa - MANTISSA_FLOOR)) as nat
}

} // verus!
