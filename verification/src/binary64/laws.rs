//! What holds of rounding: that it is defined, from which fractions it can be
//! computed, and when nothing is lost by it.
use vstd::arithmetic::div_mod::{
    lemma_basic_div, lemma_div_multiples_vanish, lemma_fundamental_div_mod,
    lemma_fundamental_div_mod_converse,
};
use vstd::arithmetic::power2::{
    lemma2_to64, lemma2_to64_rest, lemma_pow2_adds, lemma_pow2_pos, lemma_pow2_strictly_increases,
    lemma_pow2_unfold, pow2,
};
use vstd::prelude::*;

verus! {

use crate::binary64::model::{
    above, below, binade, carried, distance, in_binade, nearest, nearest_whole, one, quotient,
    sum, truncated, Dyadic, MANTISSA_BOUND, MANTISSA_FLOOR,
};

/// A positive factor on both sides of a comparison can be left out.
pub(crate) proof fn lemma_cancel(x: int, y: int, z: int)
    by (nonlinear_arith)
    requires
        z > 0,
    ensures
        x * z <= y * z <==> x <= y,
        x * z < y * z <==> x < y,
        x * z == y * z <==> x == y,
{
}

/// Two fractions of equal value have the same whole part, and their rests
/// stand alike to one half.
proof fn lemma_proportional(n: int, d: int, wide_n: int, wide_d: int)
    requires
        n >= 0,
        wide_n >= 0,
        d > 0,
        wide_d > 0,
        n * wide_d == d * wide_n,
    ensures
        n / d == wide_n / wide_d,
        2 * (n % d) < d <==> 2 * (wide_n % wide_d) < wide_d,
        2 * (n % d) == d <==> 2 * (wide_n % wide_d) == wide_d,
        nearest_whole(n as nat, d as nat) == nearest_whole(wide_n as nat, wide_d as nat),
{
    let q = n / d;
    let r = n % d;
    lemma_fundamental_div_mod(n, d);
    let wide_r = wide_n - q * wide_d;
    assert(d * wide_r == r * wide_d) by (nonlinear_arith)
        requires
            n == d * q + r,
            n * wide_d == d * wide_n,
            wide_r == wide_n - q * wide_d,
    ;
    assert(0 <= wide_r < wide_d) by (nonlinear_arith)
        requires
            d * wide_r == r * wide_d,
            0 <= r < d,
            wide_d > 0,
    ;
    lemma_fundamental_div_mod_converse(wide_n, wide_d, q, wide_r);
    assert((2 * r < d <==> 2 * wide_r < wide_d) && (2 * r == d <==> 2 * wide_r == wide_d))
        by (nonlinear_arith)
        requires
            d * wide_r == r * wide_d,
            d > 0,
            wide_d > 0,
    ;
}

/// A greater exponent gives no lesser power of two.
pub(crate) proof fn lemma_pow2_grows(i: nat, j: nat)
    requires
        i <= j,
    ensures
        pow2(i) <= pow2(j),
{
    if i < j {
        lemma_pow2_strictly_increases(i, j);
    }
}

/// A product of two powers of two is the power of the sum.
proof fn lemma_pow2_product(i: nat, j: nat, k: nat, l: nat)
    requires
        i + j == k + l,
    ensures
        pow2(i) * pow2(j) == pow2(k) * pow2(l),
{
    lemma_pow2_adds(i, j);
    lemma_pow2_adds(k, l);
}

/// Products of four powers of two are equal where the exponents add up alike.
pub(crate) proof fn lemma_pow2_products(i: (nat, nat, nat, nat), j: (nat, nat, nat, nat))
    requires
        i.0 + i.1 + i.2 + i.3 == j.0 + j.1 + j.2 + j.3,
    ensures
        pow2(i.0) * pow2(i.1) * pow2(i.2) * pow2(i.3) == pow2(j.0) * pow2(j.1) * pow2(j.2) * pow2(
            j.3,
        ),
{
    lemma_pow2_adds(i.0, i.1);
    lemma_pow2_adds(i.0 + i.1, i.2);
    lemma_pow2_adds(i.0 + i.1 + i.2, i.3);
    lemma_pow2_adds(j.0, j.1);
    lemma_pow2_adds(j.0 + j.1, j.2);
    lemma_pow2_adds(j.0 + j.1 + j.2, j.3);
}

/// Below the binade of a number there is no other.
proof fn lemma_binade_below(a: nat, b: nat, e1: int, e2: int)
    requires
        a > 0,
        b > 0,
        e1 < e2,
        in_binade(a, b, e2),
    ensures
        !in_binade(a, b, e1),
{
    let n1 = (a * pow2(below(e1))) as int;
    let d1 = (b * pow2(above(e1))) as int;
    let n2 = (a * pow2(below(e2))) as int;
    let d2 = (b * pow2(above(e2))) as int;
    let step = pow2((e2 - e1) as nat) as int;
    lemma_pow2_pos(below(e1));
    lemma_pow2_pos(above(e1));
    lemma_pow2_pos(below(e2));
    lemma_pow2_pos(above(e2));
    // 2^below(e1) * 2^above(e2) == 2^(e2 - e1) * 2^below(e2) * 2^above(e1)
    lemma_pow2_adds((e2 - e1) as nat, below(e2));
    lemma_pow2_product(below(e1), above(e2), (e2 - e1) as nat + below(e2), above(e1));
    assert(step >= 2) by {
        lemma_pow2_adds(1, (e2 - e1 - 1) as nat);
        lemma_pow2_pos((e2 - e1 - 1) as nat);
        lemma2_to64();
        assert(2 * pow2((e2 - e1 - 1) as nat) >= 2) by (nonlinear_arith)
            requires
                pow2((e2 - e1 - 1) as nat) > 0,
        ;
    }
    assert(n1 * d2 == step * (n2 * d1)) by (nonlinear_arith)
        requires
            n1 == a * pow2(below(e1)),
            d1 == b * pow2(above(e1)),
            n2 == a * pow2(below(e2)),
            d2 == b * pow2(above(e2)),
            pow2(below(e1)) * pow2(above(e2)) == (step * pow2(below(e2))) * pow2(above(e1)),
    ;
    assert(d1 > 0 && d2 > 0) by (nonlinear_arith)
        requires
            b > 0,
            d1 == b * pow2(above(e1)),
            d2 == b * pow2(above(e2)),
            pow2(above(e1)) > 0,
            pow2(above(e2)) > 0,
    ;
    assert(n1 * d2 >= (MANTISSA_BOUND * d1) * d2) by (nonlinear_arith)
        requires
            n1 * d2 == step * (n2 * d1),
            step >= 2,
            n2 >= MANTISSA_FLOOR * d2,
            d1 > 0,
            d2 > 0,
            MANTISSA_BOUND == 2 * MANTISSA_FLOOR,
    ;
    lemma_cancel(MANTISSA_BOUND * d1, n1, d2);
}

/// A number has one binade only.
pub proof fn lemma_binade_unique(a: nat, b: nat, e: int)
    requires
        a > 0,
        b > 0,
        in_binade(a, b, e),
    ensures
        binade(a, b) == e,
{
    let chosen = binade(a, b);
    if chosen < e {
        lemma_binade_below(a, b, chosen, e);
    } else if e < chosen {
        lemma_binade_below(a, b, e, chosen);
    }
}

/// Rounding `a / b` can start from any fraction `n / d` that is `a / b` divided
/// by `2^e` and has 53 bits before the point.
pub proof fn lemma_nearest_from(a: nat, b: nat, e: int, n: nat, d: nat)
    requires
        a > 0,
        b > 0,
        d > 0,
        n * (b * pow2(above(e))) == d * (a * pow2(below(e))),
        MANTISSA_FLOOR * d <= n < MANTISSA_BOUND * d,
    ensures
        in_binade(a, b, e),
        nearest(a, b) == carried(nearest_whole(n, d), e),
{
    let wide_n = (a * pow2(below(e))) as int;
    let wide_d = (b * pow2(above(e))) as int;
    lemma_pow2_pos(below(e));
    lemma_pow2_pos(above(e));
    assert(wide_d > 0 && wide_n > 0) by (nonlinear_arith)
        requires
            a > 0,
            b > 0,
            wide_n == a * pow2(below(e)),
            wide_d == b * pow2(above(e)),
            pow2(below(e)) > 0,
            pow2(above(e)) > 0,
    ;
    assert(MANTISSA_FLOOR * wide_d <= wide_n < MANTISSA_BOUND * wide_d) by (nonlinear_arith)
        requires
            n * wide_d == d * wide_n,
            MANTISSA_FLOOR * d <= n < MANTISSA_BOUND * d,
            d > 0,
            wide_d > 0,
    ;
    lemma_binade_unique(a, b, e);
    lemma_proportional(n as int, d as int, wide_n, wide_d);
}

/// Every positive ratio has a binade, so `nearest` is defined for each.
pub proof fn lemma_binade_exists(a: nat, b: nat)
    requires
        a > 0,
        b > 0,
    ensures
        in_binade(a, b, binade(a, b)),
    decreases
            (if a < MANTISSA_FLOOR * b {
                MANTISSA_FLOOR * b - a
            } else {
                a - b
            }),
{
    lemma2_to64();
    if a < MANTISSA_FLOOR * b {
        if 2 * a < MANTISSA_FLOOR * b {
            lemma_binade_exists(2 * a, b);
            let e = binade(2 * a, b);
            // `a / b` at the exponent `e - 1` is `2 * a / b` at the exponent `e`
            lemma_pow2_pos(below(e));
            lemma_pow2_pos(above(e));
            lemma_pow2_products((below(e - 1), above(e), 0, 0), (1, below(e), above(e - 1), 0));
            let (n, d) = ((2 * a) * pow2(below(e)), b * pow2(above(e)));
            assert(n * (b * pow2(above(e - 1))) * pow2(above(e)) == d * (a * pow2(below(e - 1)))
                * pow2(above(e))) by (nonlinear_arith)
                requires
                    n == (2 * a) * pow2(below(e)),
                    d == b * pow2(above(e)),
                    pow2(below(e - 1)) * pow2(above(e)) * 1 * 1 == 2 * pow2(below(e)) * pow2(
                        above(e - 1),
                    ) * 1,
            ;
            lemma_cancel(
                (n * (b * pow2(above(e - 1)))) as int,
                (d * (a * pow2(below(e - 1)))) as int,
                pow2(above(e)) as int,
            );
            assert(d > 0) by (nonlinear_arith)
                requires
                    d == b * pow2(above(e)),
                    b > 0,
                    pow2(above(e)) > 0,
            ;
            lemma_nearest_from(a, b, e - 1, n, d);
            lemma_binade_unique(a, b, e - 1);
        } else {
            assert(in_binade(a, b, -1)) by (nonlinear_arith)
                requires
                    pow2(below(-1)) == 2,
                    pow2(above(-1)) == 1,
                    MANTISSA_FLOOR * b <= 2 * a < MANTISSA_BOUND * b,
                    in_binade(a, b, -1) == (MANTISSA_FLOOR * (b * pow2(above(-1))) <= a * pow2(
                        below(-1),
                    ) < MANTISSA_BOUND * (b * pow2(above(-1)))),
            ;
            lemma_binade_unique(a, b, -1);
        }
    } else if a < MANTISSA_BOUND * b {
        assert(in_binade(a, b, 0)) by (nonlinear_arith)
            requires
                pow2(below(0)) == 1,
                pow2(above(0)) == 1,
                MANTISSA_FLOOR * b <= a < MANTISSA_BOUND * b,
                in_binade(a, b, 0) == (MANTISSA_FLOOR * (b * pow2(above(0))) <= a * pow2(below(0))
                    < MANTISSA_BOUND * (b * pow2(above(0)))),
        ;
        lemma_binade_unique(a, b, 0);
    } else {
        lemma_binade_exists(a, 2 * b);
        let e = binade(a, 2 * b);
        // `a / b` at the exponent `e + 1` is `a / (2 * b)` at the exponent `e`
        lemma_pow2_pos(below(e));
        lemma_pow2_pos(above(e));
        lemma_pow2_products((above(e + 1), below(e), 0, 0), (1, above(e), below(e + 1), 0));
        let (n, d) = (a * pow2(below(e)), (2 * b) * pow2(above(e)));
        assert(n * (b * pow2(above(e + 1))) * pow2(below(e)) == d * (a * pow2(below(e + 1)))
            * pow2(below(e))) by (nonlinear_arith)
            requires
                n == a * pow2(below(e)),
                d == (2 * b) * pow2(above(e)),
                pow2(above(e + 1)) * pow2(below(e)) * 1 * 1 == 2 * pow2(above(e)) * pow2(
                    below(e + 1),
                ) * 1,
        ;
        lemma_cancel(
            (n * (b * pow2(above(e + 1)))) as int,
            (d * (a * pow2(below(e + 1)))) as int,
            pow2(below(e)) as int,
        );
        assert(d > 0) by (nonlinear_arith)
            requires
                d == (2 * b) * pow2(above(e)),
                b > 0,
                pow2(above(e)) > 0,
        ;
        lemma_nearest_from(a, b, e + 1, n, d);
        lemma_binade_unique(a, b, e + 1);
    }
}

/// A fraction with 53 bits before the point rounds to a mantissa of 53 bits,
/// or to 2^53.
pub(crate) proof fn lemma_nearest_whole_bounds(n: nat, d: nat)
    requires
        d > 0,
        MANTISSA_FLOOR * d <= n < MANTISSA_BOUND * d,
    ensures
        MANTISSA_FLOOR <= n / d < MANTISSA_BOUND,
        MANTISSA_FLOOR <= nearest_whole(n, d) <= MANTISSA_BOUND,
        carried(nearest_whole(n, d), 0).normal(),
{
    lemma_fundamental_div_mod(n as int, d as int);
    let (whole, rest) = (n / d, n % d);
    assert(MANTISSA_FLOOR <= whole < MANTISSA_BOUND) by (nonlinear_arith)
        requires
            n == d * whole + rest,
            0 <= rest < d,
            MANTISSA_FLOOR * d <= n < MANTISSA_BOUND * d,
    ;
}

/// What `nearest` gives is a number of the format.
pub proof fn lemma_nearest_normal(a: nat, b: nat)
    requires
        a > 0,
        b > 0,
    ensures
        nearest(a, b).normal(),
{
    lemma_binade_exists(a, b);
    let e = binade(a, b);
    lemma_pow2_pos(above(e));
    assert(b * pow2(above(e)) > 0) by (nonlinear_arith)
        requires
            b > 0,
            pow2(above(e)) > 0,
    ;
    lemma_nearest_whole_bounds(a * pow2(below(e)), b * pow2(above(e)));
}

/// The distance between two whole numbers.
spec fn apart(p: int, q: int) -> int {
    if p >= q {
        p - q
    } else {
        q - p
    }
}

/// No whole number lies nearer to `n / d` than `nearest_whole(n, d)` does, and
/// another lies as near only where that one is even.
proof fn lemma_nearest_whole_is_nearest(n: int, d: int, other: int)
    requires
        n >= 0,
        d > 0,
    ensures
        apart(n, nearest_whole(n as nat, d as nat) * d) <= apart(n, other * d),
        2 * apart(n, nearest_whole(n as nat, d as nat) * d) <= d,
        apart(n, nearest_whole(n as nat, d as nat) * d) == apart(n, other * d) ==> other
            == nearest_whole(n as nat, d as nat) || nearest_whole(n as nat, d as nat) % 2 == 0,
{
    let (q, r) = (n / d, n % d);
    lemma_fundamental_div_mod(n, d);
    let m = nearest_whole(n as nat, d as nat) as int;
    assert(m * d == (if m == q {
        n - r
    } else {
        n - r + d
    })) by (nonlinear_arith)
        requires
            n == d * q + r,
            m == q || m == q + 1,
    ;
    if other <= q {
        assert(other * d <= n - r) by (nonlinear_arith)
            requires
                other <= q,
                n == d * q + r,
                d > 0,
        ;
        assert(other < q ==> other * d <= n - r - d) by (nonlinear_arith)
            requires
                n == d * q + r,
                d > 0,
        ;
    } else {
        assert(other * d >= n - r + d) by (nonlinear_arith)
            requires
                other >= q + 1,
                n == d * q + r,
                d > 0,
        ;
        assert(other > q + 1 ==> other * d >= n - r + d + d) by (nonlinear_arith)
            requires
                n == d * q + r,
                d > 0,
        ;
    }
}

/// No number of the format lies nearer to `a / b` than `nearest(a, b)` does.
/// One that lies as near either is the same number, or `nearest(a, b)` is the
/// one of the two with an even mantissa.
pub proof fn lemma_nearest_is_nearest(a: nat, b: nat, other: Dyadic)
    requires
        a > 0,
        b > 0,
        other.normal(),
    ensures
        distance(a, b, nearest(a, b)) * other.denominator() <= distance(a, b, other) * nearest(
            a,
            b,
        ).denominator(),
        distance(a, b, nearest(a, b)) * other.denominator() == distance(a, b, other) * nearest(
            a,
            b,
        ).denominator() ==> nearest(a, b).mantissa % 2 == 0 || nearest(a, b).numerator()
            * other.denominator() == other.numerator() * nearest(a, b).denominator(),
{
    lemma2_to64();
    lemma2_to64_rest();
    lemma_binade_exists(a, b);
    let e = binade(a, b);
    let x = nearest(a, b);
    let (l, p) = (pow2(below(e)) as int, pow2(above(e)) as int);
    lemma_pow2_pos(below(e));
    lemma_pow2_pos(above(e));
    let (n, d) = (a * l, b * p);
    assert(d > 0) by (nonlinear_arith)
        requires
            d == b * p,
            b > 0,
            p > 0,
    ;
    let m = nearest_whole(n as nat, d as nat) as int;
    lemma_nearest_whole_bounds(n as nat, d as nat);
    let (xn, xd) = (x.numerator() as int, x.denominator() as int);
    let (yn, yd) = (other.numerator() as int, other.denominator() as int);
    let ey = other.exponent;
    lemma_pow2_pos(below(ey));
    lemma_pow2_pos(above(ey));
    lemma_pow2_pos(below(x.exponent));
    lemma_pow2_pos(above(x.exponent));
    // the rounded number is `m * 2^e`, carried or not
    assert(xn * l == (m * p) * xd) by {
        if m == MANTISSA_BOUND {
            lemma_pow2_products((above(e + 1), below(e), 0, 0), (1, above(e), below(e + 1), 0));
            assert(xn * l == (m * p) * xd) by (nonlinear_arith)
                requires
                    xn == MANTISSA_FLOOR * pow2(above(e + 1)),
                    xd == pow2(below(e + 1)),
                    m == 2 * MANTISSA_FLOOR,
                    pow2(above(e + 1)) * l * 1 * 1 == 2 * p * pow2(below(e + 1)) * 1,
            ;
        } else {
            assert(xn * l == (m * p) * xd) by (nonlinear_arith)
                requires
                    xn == m * p,
                    xd == l,
            ;
        }
    }
    // so its distance, in parts of `b * xd * l`, is that of `m` from `n / d`
    let near = apart(n, m * d);
    let dx = distance(a, b, x) as int;
    let (signed_dx, signed_near) = (a * xd - xn * b, n - m * d);
    assert(signed_dx * l == a * l * xd - (xn * l) * b) by (nonlinear_arith)
        requires
            signed_dx == a * xd - xn * b,
    ;
    assert(signed_near * xd == a * l * xd - ((m * p) * xd) * b) by (nonlinear_arith)
        requires
            signed_near == n - m * d,
            n == a * l,
            d == b * p,
    ;
    assert((signed_near >= 0 ==> signed_dx >= 0) && (signed_near <= 0 ==> signed_dx <= 0))
        by (nonlinear_arith)
        requires
            signed_dx * l == signed_near * xd,
            l > 0,
            xd > 0,
    ;
    assert(dx * l == near * xd) by (nonlinear_arith)
        requires
            signed_dx * l == signed_near * xd,
            (dx == signed_dx && near == signed_near) || (dx == -signed_dx && near
                == -signed_near),
    ;
    // the other number, in the same parts
    let dy = distance(a, b, other) as int;
    let far = apart(n * yd, (yn * l) * b);
    assert(dy * l == far) by (nonlinear_arith)
        requires
            dy == apart(a * yd, yn * b),
            far == apart(n * yd, (yn * l) * b),
            n == a * l,
            l > 0,
    ;
    // the other number lies at a whole number of units, at 2^53 of them or
    // beyond, or below 2^52 of them
    if ey == e {
        lemma_nearest_whole_is_nearest(n, d, other.mantissa as int);
        lemma_pow2_products((above(e), below(e), 0, 0), (below(e), above(e), 0, 0));
        assert(far == apart(n, other.mantissa * d) * yd) by (nonlinear_arith)
            requires
                far == apart(n * yd, (yn * l) * b),
                yn == other.mantissa * p,
                yd == l,
                d == b * p,
                l > 0,
        ;
        assert(near * yd <= far && (near * yd == far ==> near == apart(n, other.mantissa * d)))
            by (nonlinear_arith)
            requires
                far == apart(n, other.mantissa * d) * yd,
                near <= apart(n, other.mantissa * d),
                yd > 0,
        ;
        if near * yd == far && other.mantissa != m {
            assert(m % 2 == 0);
            assert(x.mantissa % 2 == 0);
        }
        if other.mantissa == m {
            assert(xn * yd == yn * xd) by (nonlinear_arith)
                requires
                    xn * l == (m * p) * xd,
                    yn == m * p,
                    yd == l,
            ;
        }
    } else if ey > e {
        lemma_nearest_whole_is_nearest(n, d, MANTISSA_BOUND as int);
        // 2^above(ey) * 2^below(e) == 2^(ey - e) * 2^above(e) * 2^below(ey)
        lemma_pow2_products(
            (above(ey), below(e), 0, 0),
            ((ey - e) as nat, above(e), below(ey), 0),
        );
        lemma_pow2_grows(1, (ey - e) as nat);
        let step = pow2((ey - e) as nat) as int;
        assert(yn * l >= (MANTISSA_BOUND * p) * yd) by (nonlinear_arith)
            requires
                yn == other.mantissa * pow2(above(ey)),
                other.mantissa >= MANTISSA_FLOOR,
                MANTISSA_BOUND == 2 * MANTISSA_FLOOR,
                pow2(above(ey)) * l * 1 * 1 == step * p * yd * 1,
                step >= 2,
                p > 0,
                yd > 0,
        ;
        assert(near * yd <= far && (near * yd == far ==> yn * l == (MANTISSA_BOUND * p) * yd
            && near == MANTISSA_BOUND * d - n)) by (nonlinear_arith)
            requires
                far == apart(n * yd, (yn * l) * b),
                yn * l >= (MANTISSA_BOUND * p) * yd,
                d == b * p,
                n < MANTISSA_BOUND * d,
                near <= apart(n, MANTISSA_BOUND * d),
                yd > 0,
                b > 0,
        ;
        if near * yd == far {
            // as near as 2^53 units: then `m` is 2^53, which is the other number
            assert(m == MANTISSA_BOUND || m % 2 == 0);
            if m == MANTISSA_BOUND {
                assert(xn * yd == yn * xd) by (nonlinear_arith)
                    requires
                        xn * l == (m * p) * xd,
                        yn * l == (m * p) * yd,
                        l > 0,
                ;
            }
        }
    } else {
        lemma_nearest_whole_is_nearest(n, d, MANTISSA_FLOOR as int);
        // 2^above(e) * 2^below(ey) == 2^(e - ey) * 2^above(ey) * 2^below(e)
        lemma_pow2_products(
            (above(e), below(ey), 0, 0),
            ((e - ey) as nat, above(ey), below(e), 0),
        );
        lemma_pow2_grows(1, (e - ey) as nat);
        let step = pow2((e - ey) as nat) as int;
        assert(yn * l < (MANTISSA_FLOOR * p) * yd) by (nonlinear_arith)
            requires
                yn == other.mantissa * pow2(above(ey)),
                other.mantissa < MANTISSA_BOUND,
                MANTISSA_BOUND == 2 * MANTISSA_FLOOR,
                p * yd * 1 * 1 == step * pow2(above(ey)) * l * 1,
                step >= 2,
                pow2(above(ey)) > 0,
                l > 0,
        ;
        assert(near * yd < far) by (nonlinear_arith)
            requires
                far == apart(n * yd, (yn * l) * b),
                yn * l < (MANTISSA_FLOOR * p) * yd,
                d == b * p,
                n >= MANTISSA_FLOOR * d,
                near <= apart(n, MANTISSA_FLOOR * d),
                yd > 0,
                b > 0,
        ;
    }
    // back from parts of `b * xd * l` to those of the two distances
    assert(dx * yd <= dy * xd && (dx * yd == dy * xd ==> near * yd == far)) by (nonlinear_arith)
        requires
            dx * l == near * xd,
            dy * l == far,
            near * yd <= far,
            l > 0,
            xd > 0,
    ;
}

/// A common factor of numerator and denominator does not change the rounding.
pub proof fn lemma_nearest_scaled(a: nat, b: nat, c: nat)
    requires
        a > 0,
        b > 0,
        c > 0,
    ensures
        nearest(a * c, b * c) == nearest(a, b),
{
    lemma_binade_exists(a, b);
    let e = binade(a, b);
    let (l, p) = (pow2(below(e)), pow2(above(e)));
    lemma_pow2_pos(above(e));
    assert((a * l) * ((b * c) * p) == (b * p) * ((a * c) * l)) by (nonlinear_arith);
    assert(a * c > 0 && b * c > 0 && b * p > 0) by (nonlinear_arith)
        requires
            a > 0,
            b > 0,
            c > 0,
            p > 0,
    ;
    lemma_nearest_from(a * c, b * c, e, a * l, b * p);
}

/// The sum does not depend on the order of its terms.
pub proof fn lemma_sum_commutes(x: Dyadic, y: Dyadic)
    ensures
        sum(x, y) == sum(y, x),
{
    assert(x.denominator() * y.denominator() == y.denominator() * x.denominator())
        by (nonlinear_arith);
}

/// Dividing by one changes nothing.
pub proof fn lemma_quotient_by_one(x: Dyadic)
    requires
        x.normal(),
    ensures
        nearest(1, 1) == one(),
        quotient(x, one()) == x,
{
    lemma2_to64();
    lemma2_to64_rest();
    lemma_nearest_from(1, 1, -52, MANTISSA_FLOOR as nat, 1);
    let (p, l) = (pow2(above(x.exponent)), pow2(below(x.exponent)));
    lemma_pow2_pos(above(x.exponent));
    lemma_pow2_pos(below(x.exponent));
    let a = x.numerator() * one().denominator();
    let b = x.denominator() * one().numerator();
    assert(x.mantissa * (b * p) == 1 * (a * l) && a > 0 && b > 0) by (nonlinear_arith)
        requires
            a == (x.mantissa * p) * 0x10_0000_0000_0000,
            b == l * (0x10_0000_0000_0000 * 1),
            x.mantissa > 0,
            p > 0,
            l > 0,
    ;
    lemma_nearest_from(a, b, x.exponent, x.mantissa, 1);
}

/// A whole number is never rounded to less than one, and one below 2^53 is
/// not rounded at all; one of 2^53 or more is rounded to a whole number of 2^53
/// or more.
pub proof fn lemma_whole_number(count: nat)
    requires
        count > 0,
    ensures
        truncated(nearest(count, 1)) > 0,
        count < MANTISSA_BOUND ==> truncated(nearest(count, 1)) == count,
        count < MANTISSA_BOUND ==> nearest(count, 1).numerator() == count * nearest(
            count,
            1,
        ).denominator(),
        count >= MANTISSA_BOUND ==> nearest(count, 1).denominator() == 1 && nearest(
            count,
            1,
        ).numerator() >= MANTISSA_BOUND,
{
    lemma2_to64();
    lemma2_to64_rest();
    lemma_binade_exists(count, 1);
    let e = binade(count, 1);
    let (n, d) = (count * pow2(below(e)), 1 * pow2(above(e)));
    lemma_pow2_pos(above(e));
    lemma_pow2_pos(below(e));
    lemma_nearest_whole_bounds(n, d);
    let x = nearest(count, 1);
    let (p, l) = (pow2(above(x.exponent)), pow2(below(x.exponent)));
    lemma_pow2_pos(above(x.exponent));
    lemma_pow2_pos(below(x.exponent));
    // at least one: the exponent is -52 or more
    if e < -52 {
        lemma_pow2_grows(53, (-e) as nat);
        assert(false) by (nonlinear_arith)
            requires
                n == count * pow2((-e) as nat),
                pow2((-e) as nat) >= MANTISSA_BOUND,
                n < MANTISSA_BOUND * d,
                d == 1,
                count >= 1,
        ;
    }
    if x.exponent >= 0 {
        assert((x.mantissa * p) / l >= 1) by (nonlinear_arith)
            requires
                x.mantissa >= 1,
                p >= 1,
                l == 1,
        ;
    } else {
        lemma_pow2_grows((-x.exponent) as nat, 52);
        assert((x.mantissa * p) / l >= 1) by (nonlinear_arith)
            requires
                x.mantissa >= MANTISSA_FLOOR,
                p == 1,
                0 < l <= MANTISSA_FLOOR,
        ;
    }
    if count < MANTISSA_BOUND {
        // no rounding: the exponent is zero or less
        if e > 0 {
            lemma_pow2_grows(1, e as nat);
            assert(false) by (nonlinear_arith)
                requires
                    n == count * 1,
                    d == 1 * pow2(e as nat),
                    pow2(e as nat) >= 2,
                    MANTISSA_FLOOR * d <= n,
                    count < MANTISSA_BOUND,
                    MANTISSA_BOUND == 2 * MANTISSA_FLOOR,
            ;
        }
        assert(nearest_whole(n, d) == n) by (nonlinear_arith)
            requires
                d == 1,
                nearest_whole(n, d) == (if 2 * (n % d) < d || (2 * (n % d) == d && (n / d) % 2
                    == 0) {
                    n / d
                } else {
                    n / d + 1
                }),
        ;
        assert(x == Dyadic { mantissa: n, exponent: e });
        assert(x.numerator() == count * l) by (nonlinear_arith)
            requires
                x.numerator() == n * p,
                p == 1,
                n == count * l,
        ;
        lemma_div_multiples_vanish(count as int, l as int);
        assert(count * l == l * count) by (nonlinear_arith);
    } else {
        // rounded at an exponent above zero
        if e <= 0 {
            assert(false) by (nonlinear_arith)
                requires
                    n == count * l,
                    l >= 1,
                    d == 1 * 1,
                    n < MANTISSA_BOUND * d,
                    count >= MANTISSA_BOUND,
            ;
        }
        lemma_pow2_grows(1, x.exponent as nat);
        assert(x.mantissa * p >= MANTISSA_BOUND) by (nonlinear_arith)
            requires
                x.mantissa >= MANTISSA_FLOOR,
                p >= 2,
                MANTISSA_BOUND == 2 * MANTISSA_FLOOR,
        ;
    }
}

/// Rounding does not reach the next whole number while that number, times
/// the denominator, is no more than 2^53: the whole part of the rounded ratio
/// is the whole part of the ratio.
pub proof fn lemma_whole_part_kept(a: nat, b: nat)
    requires
        a > 0,
        b > 0,
        (a / b + 1) * b <= MANTISSA_BOUND,
    ensures
        truncated(nearest(a, b)) == a / b,
{
    lemma2_to64();
    lemma2_to64_rest();
    lemma_binade_exists(a, b);
    let e = binade(a, b);
    let (l, p) = (pow2(below(e)) as int, pow2(above(e)) as int);
    lemma_pow2_pos(above(e));
    lemma_pow2_pos(below(e));
    let k = (a / b) as int;
    lemma_fundamental_div_mod(a as int, b as int);
    assert(k * b <= a < (k + 1) * b) by (nonlinear_arith)
        requires
            a == b * k + a % b,
            0 <= a % b < b,
    ;
    // the exponent is zero or less
    if e > 0 {
        lemma_pow2_grows(1, e as nat);
        assert(false) by (nonlinear_arith)
            requires
                MANTISSA_FLOOR * (b * p) <= a * l,
                l == 1,
                p >= 2,
                b >= 1,
                a < MANTISSA_BOUND,
                MANTISSA_BOUND == 2 * MANTISSA_FLOOR,
        ;
    }
    let n = a * l;
    let (q, rest) = (n / (b as int), n % (b as int));
    lemma_fundamental_div_mod(n, b as int);
    let m = nearest_whole(n as nat, b) as int;
    assert(b * p == b) by (nonlinear_arith)
        requires
            p == 1,
    ;
    assert(b < 2 * l) by (nonlinear_arith)
        requires
            MANTISSA_FLOOR * b <= a * l,
            a < 2 * MANTISSA_FLOOR,
            b > 0,
            l > 0,
    ;
    assert(k * l <= q) by (nonlinear_arith)
        requires
            n == b * q + rest,
            0 <= rest < b,
            n == a * l,
            k * b <= a,
            l > 0,
    ;
    assert(m < (k + 1) * l) by (nonlinear_arith)
        requires
            n == b * q + rest,
            0 <= rest < b,
            n == a * l,
            a + 1 <= (k + 1) * b,
            l > 0,
            b < 2 * l,
            m == q || (m == q + 1 && 2 * rest >= b),
    ;
    lemma_nearest_whole_bounds(n as nat, b);
    assert((k + 1) * l == k * l + l && (k + 1) * (l / 2) == k * (l / 2) + l / 2)
        by (nonlinear_arith);
    let x = nearest(a, b);
    if m < MANTISSA_BOUND {
        assert(x.numerator() == m) by (nonlinear_arith)
            requires
                x.numerator() == m * p,
                p == 1,
        ;
        lemma_fundamental_div_mod_converse(m, l, k, m - k * l);
    } else {
        // 2^53 is handed on as 2^52 at the next exponent, which is still not positive
        if e == 0 {
            assert(false) by (nonlinear_arith)
                requires
                    l == 1,
                    m < (k + 1) * l,
                    m >= MANTISSA_BOUND,
                    (k + 1) * b <= MANTISSA_BOUND,
                    b >= 1,
            ;
        }
        lemma_pow2_unfold((-e) as nat);
        let half = pow2((-e - 1) as nat) as int;
        lemma_pow2_pos((-e - 1) as nat);
        assert(x.numerator() == MANTISSA_FLOOR) by (nonlinear_arith)
            requires
                x.numerator() == MANTISSA_FLOOR * pow2(0),
                pow2(0) == 1,
        ;
        assert(k * half <= MANTISSA_FLOOR < k * half + half) by (nonlinear_arith)
            requires
                k * l <= m < (k + 1) * l,
                m == 2 * MANTISSA_FLOOR,
                l == 2 * half,
        ;
        lemma_fundamental_div_mod_converse(
            MANTISSA_FLOOR as int,
            half,
            k,
            MANTISSA_FLOOR - k * half,
        );
    }
}

/// A ratio of a quarter or less rounds to a number below one.
pub proof fn lemma_whole_part_none(a: nat, b: nat)
    requires
        a > 0,
        4 * a <= b,
    ensures
        truncated(nearest(a, b)) == 0,
{
    lemma2_to64();
    lemma2_to64_rest();
    lemma_binade_exists(a, b);
    let e = binade(a, b);
    let (l, p) = (pow2(below(e)) as int, pow2(above(e)) as int);
    lemma_pow2_pos(above(e));
    lemma_pow2_pos(below(e));
    assert(l >= 4 * MANTISSA_FLOOR) by (nonlinear_arith)
        requires
            MANTISSA_FLOOR * (b * p) <= a * l,
            4 * a <= b,
            a > 0,
            p >= 1,
            l >= 1,
    ;
    if e > -54 {
        lemma_pow2_grows(below(e), 53);
        assert(false);
    }
    assert(b * p > 0) by (nonlinear_arith)
        requires
            b > 0,
            p > 0,
    ;
    lemma_nearest_whole_bounds(a * pow2(below(e)), b * pow2(above(e)));
    let x = nearest(a, b);
    assert(x.numerator() == x.mantissa) by (nonlinear_arith)
        requires
            x.numerator() == x.mantissa * pow2(0),
            pow2(0) == 1,
    ;
    lemma_pow2_grows(53, below(x.exponent));
    lemma_basic_div(x.mantissa as int, pow2(below(x.exponent)) as int);
}

/// The sum of two fractions over a common denominator, multiplied out.
proof fn lemma_sum_identity(mx: int, my: int, px: int, lx: int, py: int, ly: int, d: int)
    requires
        ly * px == d * py * lx,
    ensures
        (mx * d + my) * ((lx * ly) * px) == d * (((mx * px) * ly + (my * py) * lx) * lx),
{
    assert((mx * d + my) * ((lx * ly) * px) == (mx * d) * (lx * (ly * px)) + (my * lx) * (ly
        * px)) by (nonlinear_arith);
    let first = (mx * px) * ly;
    let second = (my * py) * lx;
    assert(d * ((first + second) * lx) == d * (first * lx) + d * (second * lx))
        by (nonlinear_arith);
    assert(d * (((mx * px) * ly) * lx) == (mx * d) * (lx * (ly * px))) by (nonlinear_arith);
    assert(d * (((my * py) * lx) * lx) == (my * lx) * (d * py * lx)) by (nonlinear_arith);
}

/// A fraction in units of one exponent is the same fraction over twice the
/// denominator in units of the next.
proof fn lemma_next_identity(
    n: int,
    d: int,
    a: int,
    b: int,
    px: int,
    lx: int,
    next_px: int,
    next_lx: int,
)
    requires
        n * (b * px) == d * (a * lx),
        next_px * lx == 2 * px * next_lx,
        lx > 0,
    ensures
        n * (b * next_px) == (2 * d) * (a * next_lx),
{
    assert((n * (b * next_px)) * lx == (n * b) * (next_px * lx)) by (nonlinear_arith);
    assert((n * b) * (2 * px * next_lx) == (2 * next_lx) * (n * (b * px))) by (nonlinear_arith);
    assert((2 * next_lx) * (d * (a * lx)) == ((2 * d) * (a * next_lx)) * lx) by (nonlinear_arith);
    lemma_cancel(n * (b * next_px), (2 * d) * (a * next_lx), lx);
}

/// The sum of `x` and a number `y` of no greater exponent, in units of the last
/// place of `x`, is the fraction `n / d` with `d` the power of two that lies
/// between the two exponents and `n` the mantissa of `x` times `d` plus that of
/// `y`. The same fraction over `2 * d` gives the sum in units twice as large.
pub(crate) proof fn lemma_sum_scaled(x: Dyadic, y: Dyadic)
    requires
        x.mantissa > 0,
        y.mantissa > 0,
        y.exponent <= x.exponent,
    ensures
        ({
            let a = x.numerator() * y.denominator() + y.numerator() * x.denominator();
            let b = x.denominator() * y.denominator();
            let d = pow2((x.exponent - y.exponent) as nat);
            let n = x.mantissa * d + y.mantissa;
            &&& a > 0
            &&& b > 0
            &&& d > 0
            &&& n * (b * pow2(above(x.exponent))) == d * (a * pow2(below(x.exponent)))
            &&& n * (b * pow2(above(x.exponent + 1))) == (2 * d) * (a * pow2(
                below(x.exponent + 1),
            ))
        }),
{
    let (mx, my) = (x.mantissa as int, y.mantissa as int);
    let (ex, ey) = (x.exponent, y.exponent);
    let (px, lx) = (pow2(above(ex)) as int, pow2(below(ex)) as int);
    let (py, ly) = (pow2(above(ey)) as int, pow2(below(ey)) as int);
    let (next_px, next_lx) = (pow2(above(ex + 1)) as int, pow2(below(ex + 1)) as int);
    let d = pow2((ex - ey) as nat) as int;
    let n = mx * d + my;
    let a = (mx * px) * ly + (my * py) * lx;
    let b = lx * ly;
    lemma2_to64();
    lemma_pow2_pos(above(ex));
    lemma_pow2_pos(below(ex));
    lemma_pow2_pos(above(ey));
    lemma_pow2_pos(below(ey));
    lemma_pow2_pos((ex - ey) as nat);
    assert(a > 0 && b > 0) by (nonlinear_arith)
        requires
            a == (mx * px) * ly + (my * py) * lx,
            b == lx * ly,
            mx > 0,
            my > 0,
            px > 0,
            lx > 0,
            py > 0,
            ly > 0,
    ;
    // 2^below(ey) * 2^above(ex) == 2^(ex - ey) * 2^above(ey) * 2^below(ex)
    lemma_pow2_products((below(ey), above(ex), 0, 0), ((ex - ey) as nat, above(ey), below(ex), 0));
    assert(ly * px == d * py * lx) by (nonlinear_arith)
        requires
            ly * px * 1 * 1 == d * py * lx * 1,
    ;
    lemma_sum_identity(mx, my, px, lx, py, ly, d);
    // 2^above(ex + 1) * 2^below(ex) == 2 * 2^above(ex) * 2^below(ex + 1)
    lemma_pow2_products((above(ex + 1), below(ex), 0, 0), (1, above(ex), below(ex + 1), 0));
    assert(next_px * lx == 2 * px * next_lx) by (nonlinear_arith)
        requires
            next_px * lx * 1 * 1 == 2 * px * next_lx * 1,
    ;
    lemma_next_identity(n, d, a, b, px, lx, next_px, next_lx);
}

} // verus!
