//! The arithmetic as the library carries it out: on mantissas of 53 bits and
//! their exponents, in whole numbers of 128 bits.
use vstd::arithmetic::div_mod::{
    lemma_basic_div, lemma_fundamental_div_mod, lemma_fundamental_div_mod_converse,
};
use vstd::arithmetic::power2::{
    lemma2_to64, lemma2_to64_rest, lemma_pow2_adds, lemma_pow2_pos, lemma_pow2_strictly_increases,
    pow2,
};
use vstd::prelude::*;

verus! {

use crate::binary64::laws::{
    lemma_nearest_from, lemma_pow2_grows, lemma_pow2_products, lemma_sum_scaled,
};
use crate::binary64::model;
use crate::binary64::model::{
    above, below, bit_pattern, carried, nearest_whole, quotient, sum, truncated, Dyadic,
    GREATEST_EXPONENT, INFINITY_BITS, LEAST_EXPONENT, MANTISSA_BOUND, MANTISSA_FLOOR,
};

/// A number of the format: `mantissa * 2^exponent`.
pub(crate) struct Double {
    pub(crate) mantissa: u64,
    pub(crate) exponent: i32,
}

impl View for Double {
    type V = Dyadic;

    closed spec fn view(&self) -> Dyadic {
        Dyadic { mantissa: self.mantissa as nat, exponent: self.exponent as int }
    }
}

/// Powers of two up to 2^126 fit 128 bits.
proof fn lemma_pow2_fits(k: nat)
    requires
        k <= 126,
    ensures
        0 < pow2(k) <= 0x4000_0000_0000_0000_0000_0000_0000_0000,
{
    lemma2_to64_rest();
    lemma_pow2_adds(63, 63);
    lemma_pow2_pos(k);
    if k < 126 {
        lemma_pow2_strictly_increases(k, 126);
    }
}

/// 2^k.
fn power_of_two(k: u32) -> (power: u128)
    requires
        k <= 126,
    ensures
        power == pow2(k as nat),
{
    let mut power: u128 = 1;
    let mut done: u32 = 0;
    proof {
        lemma2_to64();
    }
    while done < k
        invariant
            done <= k <= 126,
            power == pow2(done as nat),
        decreases k - done,
    {
        proof {
            lemma_pow2_fits(done as nat + 1);
            lemma_pow2_adds(done as nat, 1);
            lemma2_to64();
        }
        power = power * 2;
        done = done + 1;
    }
    power
}

/// Rounds `n / d`, which has 53 bits before the point, to a whole mantissa
/// at the exponent `e`.
fn round_scaled(n: u128, d: u128, e: i32) -> (rounded: Double)
    requires
        0 < d <= 0x4000_0000_0000_0000_0000_0000_0000_0000,
        MANTISSA_FLOOR * d <= n < MANTISSA_BOUND * d,
        -1000 <= e <= 1000,
    ensures
        rounded@ == carried(nearest_whole(n as nat, d as nat), e as int),
        rounded@.normal(),
        e <= rounded.exponent <= e + 1,
{
    let whole: u128 = n / d;
    let rest: u128 = n % d;
    proof {
        lemma_fundamental_div_mod(n as int, d as int);
        assert(MANTISSA_FLOOR <= whole < MANTISSA_BOUND) by (nonlinear_arith)
            requires
                n == d * whole + rest,
                0 <= rest < d,
                MANTISSA_FLOOR * d <= n < MANTISSA_BOUND * d,
        ;
    }
    let mantissa: u64 = if 2 * rest < d || (2 * rest == d && whole % 2 == 0) {
        whole as u64
    } else {
        (whole + 1) as u64
    };
    if mantissa == MANTISSA_BOUND {
        Double { mantissa: MANTISSA_FLOOR, exponent: e + 1 }
    } else {
        Double { mantissa, exponent: e }
    }
}

impl Double {
    /// The number of the format nearest to `a / b`.
    pub(crate) fn nearest(a: u64, b: u64) -> (rounded: Double)
        requires
            a > 0,
            b > 0,
        ensures
            rounded@ == model::nearest(a as nat, b as nat),
            rounded@.normal(),
            -116 <= rounded.exponent <= 12,
            a >= b ==> rounded.exponent >= -52,
            a < b ==> rounded.exponent <= -52,
    {
        let mut n: u128 = a as u128;
        let mut d: u128 = b as u128;
        let mut e: i32 = 0;
        proof {
            lemma2_to64();
            lemma2_to64_rest();
            assert(n == a * pow2(below(e as int)) && d == b * pow2(above(e as int)))
                by (nonlinear_arith)
                requires
                    n == a,
                    d == b,
                    pow2(below(e as int)) == 1,
                    pow2(above(e as int)) == 1,
            ;
        }
        if n < 0x10_0000_0000_0000 * d {
            while n < 0x10_0000_0000_0000 * d
                invariant
                    d == b,
                    -116 <= e <= 0,
                    0 < n,
                    n == a * pow2(below(e as int)),
                    n < 0x20_0000_0000_0000 * d,
                    a >= b ==> e >= -52,
                decreases e + 116,
            {
                proof {
                    lemma2_to64();
                    lemma2_to64_rest();
                    lemma_pow2_adds((-e) as nat, 1);
                    assert(pow2(below(e as int - 1)) == pow2(below(e as int)) * 2);
                    assert(2 * n == a * pow2(below(e as int - 1))) by (nonlinear_arith)
                        requires
                            n == a * pow2(below(e as int)),
                            pow2(below(e as int - 1)) == pow2(below(e as int)) * 2,
                    ;
                    // 2^116 is more than any such `n`
                    if e == -116 {
                        lemma_pow2_adds(64, 52);
                        assert(n >= 0x1_0000_0000_0000_0000 * 0x10_0000_0000_0000)
                            by (nonlinear_arith)
                            requires
                                n == a * pow2(116),
                                pow2(116) == 0x1_0000_0000_0000_0000 * 0x10_0000_0000_0000,
                                a >= 1,
                        ;
                        assert(false);
                    }
                    // a ratio of one or more is reached within 52 doublings
                    if a >= b && e == -52 {
                        assert(n >= MANTISSA_FLOOR * b) by (nonlinear_arith)
                            requires
                                n == a * pow2(52),
                                pow2(52) == MANTISSA_FLOOR,
                                a >= b,
                        ;
                        assert(false);
                    }
                }
                n = 2 * n;
                e = e - 1;
            }
            proof {
                // a ratio below one takes more than 52 doublings
                if a < b && e >= -52 {
                    lemma_pow2_grows((-e) as nat, 52);
                    assert(n < MANTISSA_FLOOR * b) by (nonlinear_arith)
                        requires
                            n == a * pow2((-e) as nat),
                            pow2((-e) as nat) <= pow2(52),
                            pow2(52) == MANTISSA_FLOOR,
                            a < b,
                    ;
                    assert(false);
                }
            }
        } else {
            while n >= 0x20_0000_0000_0000 * d
                invariant
                    n == a,
                    0 <= e <= 11,
                    d == b * pow2(above(e as int)),
                    0 < d,
                    0x10_0000_0000_0000 * d <= n,
                    a >= b,
                decreases n - d,
            {
                proof {
                    lemma2_to64();
                    lemma_pow2_adds(e as nat, 1);
                    assert(pow2(above(e as int + 1)) == pow2(above(e as int)) * 2);
                    assert(2 * d == b * pow2(above(e as int + 1))) by (nonlinear_arith)
                        requires
                            d == b * pow2(above(e as int)),
                            pow2(above(e as int + 1)) == pow2(above(e as int)) * 2,
                    ;
                    // 2^64 is more than `n`
                    if e == 11 {
                        assert(MANTISSA_BOUND * d >= 0x1_0000_0000_0000_0000)
                            by (nonlinear_arith)
                            requires
                                d == b * pow2(11),
                                pow2(11) == 0x800,
                                b >= 1,
                                MANTISSA_BOUND == 0x20_0000_0000_0000,
                        ;
                        assert(false);
                    }
                }
                d = 2 * d;
                e = e + 1;
            }
            proof {
                assert(a >= b) by (nonlinear_arith)
                    requires
                        MANTISSA_FLOOR * d <= n,
                        n == a,
                        d == b * pow2(above(e as int)),
                        pow2(above(e as int)) >= 1,
                        b > 0,
                        MANTISSA_FLOOR >= 1,
                ;
            }
        }
        proof {
            lemma_pow2_pos(above(e as int));
            assert(pow2(0) == 1);
            assert(n * (b * pow2(above(e as int))) == d * (a * pow2(below(e as int))))
                by (nonlinear_arith)
                requires
                    (d == b && pow2(above(e as int)) == 1 && n == a * pow2(below(e as int)))
                        || (n == a && pow2(below(e as int)) == 1 && d == b * pow2(
                        above(e as int),
                    )),
            ;
            lemma_nearest_from(a as nat, b as nat, e as int, n as nat, d as nat);
        }
        round_scaled(n, d, e)
    }

    /// The number of the format nearest to `self / y`.
    pub(crate) fn divided_by(&self, y: &Double) -> (rounded: Double)
        requires
            self@.normal(),
            y@.normal(),
            -400 <= self.exponent <= 400,
            -400 <= y.exponent <= 400,
        ensures
            rounded@ == quotient(self@, y@),
            rounded@.normal(),
            self.exponent - y.exponent - 53 <= rounded.exponent <= self.exponent - y.exponent
                - 51,
    {
        let d: u128 = y.mantissa as u128;
        let shift: i32 = if self.mantissa >= y.mantissa {
            52
        } else {
            53
        };
        let scale: u128 = if self.mantissa >= y.mantissa {
            0x10_0000_0000_0000
        } else {
            0x20_0000_0000_0000
        };
        let n: u128 = self.mantissa as u128 * scale;
        let e: i32 = self.exponent - y.exponent - shift;
        proof {
            lemma2_to64_rest();
            let a = self@.numerator() * y@.denominator();
            let b = self@.denominator() * y@.numerator();
            let (ex, ey) = (self.exponent as int, y.exponent as int);
            let (mx, my) = (self.mantissa as int, y.mantissa as int);
            let left = pow2(shift as nat) * pow2(below(ex)) * pow2(above(ey)) * pow2(
                above(e as int),
            );
            let right = pow2(above(ex)) * pow2(below(ey)) * pow2(below(e as int)) * pow2(0);
            lemma_pow2_products(
                (shift as nat, below(ex), above(ey), above(e as int)),
                (above(ex), below(ey), below(e as int), 0),
            );
            lemma2_to64();
            lemma_pow2_pos(below(ex));
            lemma_pow2_pos(above(ey));
            lemma_pow2_pos(below(ey));
            lemma_pow2_pos(above(ex));
            assert(n * (b * pow2(above(e as int))) == (mx * my) * left) by (nonlinear_arith)
                requires
                    n == mx * pow2(shift as nat),
                    b == pow2(below(ex)) * (my * pow2(above(ey))),
                    left == pow2(shift as nat) * pow2(below(ex)) * pow2(above(ey)) * pow2(
                        above(e as int),
                    ),
            ;
            assert(d * (a * pow2(below(e as int))) == (mx * my) * right) by (nonlinear_arith)
                requires
                    d == my,
                    a == (mx * pow2(above(ex))) * pow2(below(ey)),
                    right == pow2(above(ex)) * pow2(below(ey)) * pow2(below(e as int)) * 1,
            ;
            assert(a > 0 && b > 0) by (nonlinear_arith)
                requires
                    a == (mx * pow2(above(ex))) * pow2(below(ey)),
                    b == pow2(below(ex)) * (my * pow2(above(ey))),
                    mx > 0,
                    my > 0,
                    pow2(above(ex)) > 0,
                    pow2(below(ey)) > 0,
                    pow2(below(ex)) > 0,
                    pow2(above(ey)) > 0,
            ;
            lemma_nearest_from(a, b, e as int, n as nat, d as nat);
        }
        round_scaled(n, d, e)
    }

    /// The number of the format nearest to `self + smaller`, for a `smaller` of
    /// no greater exponent.
    pub(crate) fn plus(&self, smaller: &Double) -> (rounded: Double)
        requires
            self@.normal(),
            smaller@.normal(),
            smaller.exponent <= self.exponent,
            -400 <= smaller.exponent,
            self.exponent <= 400,
        ensures
            rounded@ == sum(self@, smaller@),
            rounded@.normal(),
            self.exponent <= rounded.exponent <= self.exponent + 2,
    {
        let gap: i32 = self.exponent - smaller.exponent;
        let ghost a = self@.numerator() * smaller@.denominator() + smaller@.numerator()
            * self@.denominator();
        let ghost b = self@.denominator() * smaller@.denominator();
        let ghost unit = pow2(gap as nat);
        let ghost total = (self.mantissa * unit + smaller.mantissa) as nat;
        proof {
            lemma_sum_scaled(self@, smaller@);
            lemma2_to64_rest();
        }
        if gap >= 54 {
            proof {
                // the smaller number is less than half a unit of the last place
                lemma_pow2_grows(54, gap as nat);
                lemma_pow2_adds(53, 1);
                lemma2_to64();
                assert(MANTISSA_FLOOR * unit <= total < MANTISSA_BOUND * unit)
                    by (nonlinear_arith)
                    requires
                        total == self.mantissa * unit + smaller.mantissa,
                        MANTISSA_FLOOR <= self.mantissa < MANTISSA_BOUND,
                        0 <= smaller.mantissa < unit,
                ;
                lemma_nearest_from(a, b, self.exponent as int, total, unit);
                lemma_fundamental_div_mod_converse(
                    total as int,
                    unit as int,
                    self.mantissa as int,
                    smaller.mantissa as int,
                );
            }
            return Double { mantissa: self.mantissa, exponent: self.exponent };
        }
        let power = power_of_two(gap as u32);
        proof {
            lemma_pow2_grows(gap as nat, 53);
            assert(self.mantissa * power + smaller.mantissa < 0x20_0000_0000_0000
                * 0x20_0000_0000_0000 + 0x20_0000_0000_0000) by (nonlinear_arith)
                requires
                    self.mantissa < 0x20_0000_0000_0000,
                    smaller.mantissa < 0x20_0000_0000_0000,
                    0 < power <= 0x20_0000_0000_0000,
            ;
            assert(self.mantissa * power >= 0x10_0000_0000_0000 * power) by (nonlinear_arith)
                requires
                    self.mantissa >= 0x10_0000_0000_0000,
                    power > 0,
            ;
        }
        let n: u128 = self.mantissa as u128 * power + smaller.mantissa as u128;
        if n >= 0x20_0000_0000_0000 * power {
            proof {
                assert(n < MANTISSA_BOUND * (2 * power)) by (nonlinear_arith)
                    requires
                        n == self.mantissa * power + smaller.mantissa,
                        self.mantissa < MANTISSA_BOUND,
                        smaller.mantissa < MANTISSA_BOUND,
                        power >= 1,
                ;
                lemma_nearest_from(a, b, self.exponent + 1, n as nat, (2 * power) as nat);
            }
            round_scaled(n, 2 * power, self.exponent + 1)
        } else {
            proof {
                lemma_nearest_from(a, b, self.exponent as int, n as nat, power as nat);
            }
            round_scaled(n, power, self.exponent)
        }
    }

    /// The whole part of the number, up to `u64::MAX`.
    pub(crate) fn whole_part(&self) -> (whole: u64)
        requires
            self@.normal(),
        ensures
            whole == truncated(self@),
    {
        proof {
            lemma2_to64();
            lemma2_to64_rest();
        }
        let ghost numerator = self@.numerator() as int;
        let ghost denominator = self@.denominator() as int;
        if self.exponent >= 0 {
            assert(numerator / denominator == self.mantissa * pow2(self.exponent as nat))
                by (nonlinear_arith)
                requires
                    numerator == self.mantissa * pow2(self.exponent as nat),
                    denominator == 1,
            ;
            if self.exponent >= 12 {
                proof {
                    lemma_pow2_grows(12, self.exponent as nat);
                    assert(self.mantissa * pow2(self.exponent as nat) > u64::MAX)
                        by (nonlinear_arith)
                        requires
                            self.mantissa >= 0x10_0000_0000_0000,
                            pow2(self.exponent as nat) >= 0x1000,
                    ;
                }
                u64::MAX
            } else {
                let power = power_of_two(self.exponent as u32);
                proof {
                    lemma_pow2_grows(self.exponent as nat, 11);
                    assert(self.mantissa * power <= u64::MAX) by (nonlinear_arith)
                        requires
                            self.mantissa < 0x20_0000_0000_0000,
                            0 <= power <= 0x800,
                    ;
                }
                (self.mantissa as u128 * power) as u64
            }
        } else {
            assert(numerator == self.mantissa) by (nonlinear_arith)
                requires
                    numerator == self.mantissa * pow2(0),
                    pow2(0) == 1,
            ;
            if self.exponent <= -53 {
                proof {
                    lemma_pow2_grows(53, (-self.exponent) as nat);
                    lemma_basic_div(self.mantissa as int, denominator);
                }
                0
            } else {
                let power = power_of_two((-self.exponent) as u32);
                (self.mantissa as u128 / power) as u64
            }
        }
    }

    /// The 64 bits in which the format stores the number.
    pub(crate) fn to_bits(&self) -> (bits: u64)
        requires
            self@.normal(),
            LEAST_EXPONENT <= self.exponent <= GREATEST_EXPONENT,
        ensures
            bits == bit_pattern(self@),
            bits < INFINITY_BITS,
    {
        let biased: u64 = (self.exponent - LEAST_EXPONENT + 1) as u64;
        biased * MANTISSA_FLOOR + (self.mantissa - MANTISSA_FLOOR)
    }
}

} // verus!
