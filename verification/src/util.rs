//! Exact integer helpers: floor division on signed values, the linear remap
//! behind all world-to-screen projection, ceiling to a multiple (grid line
//! start positions), grid line counts, and label precision.

use vstd::prelude::*;

verus! {

use vstd::arithmetic::div_mod::{
    lemma_fundamental_div_mod,
    lemma_fundamental_div_mod_converse,
    lemma_div_by_self,
    lemma_div_is_ordered,
    lemma_div_multiples_vanish,
    lemma_div_nonincreasing,
    lemma_mod_multiples_basic,
};

/// Both factors bounded in magnitude bounds the product.
pub proof fn lemma_mul_magnitude(x: int, y: int, a: int, b: int)
    requires
        -a < x < a,
        -b < y < b,
        0 < a,
        0 < b,
    ensures
        -(a * b) < x * y < a * b,
{
    assert(-(a * b) < x * y < a * b) by (nonlinear_arith)
        requires
            -a < x < a,
            -b < y < b,
            0 < a,
            0 < b,
    ;
}

/// Dividing a non-positive value by a positive divisor moves it toward zero.
pub proof fn lemma_div_ge_self_neg(x: int, d: int)
    requires
        x <= 0,
        d >= 1,
    ensures
        x <= x / d <= 0,
{
    lemma_fundamental_div_mod(x, d);
    vstd::arithmetic::div_mod::lemma_mod_bound(x, d);
    let q = x / d;
    let r = x % d;
    assert(x <= q && q <= 0) by (nonlinear_arith)
        requires
            x == d * q + r,
            0 <= r < d,
            d >= 1,
            x <= 0,
    ;
}

/// Small powers of ten, written out so proofs can use their values.
pub proof fn lemma_pow10_values()
    ensures
        pow10(0) == 1,
        pow10(1) == 10,
        pow10(2) == 100,
        pow10(3) == 1000,
        pow10(4) == 10000,
        pow10(5) == 100000,
        pow10(6) == 1000000,
        pow10(7) == 10000000,
        pow10(8) == 100000000,
        pow10(9) == 1000000000,
        pow10(10) == 10000000000,
        pow10(11) == 100000000000,
        pow10(12) == 1000000000000,
        pow10(13) == 10000000000000,
        pow10(14) == 100000000000000,
        pow10(15) == 1000000000000000,
        pow10(16) == 10000000000000000,
        pow10(17) == 100000000000000000,
        pow10(18) == 1000000000000000000,
{
    assert(pow10(0) == 1);
    assert(pow10(1) == 10);
    assert(pow10(2) == 100);
    assert(pow10(3) == 1000);
    assert(pow10(4) == 10000);
    assert(pow10(5) == 100000);
    assert(pow10(6) == 1000000);
    assert(pow10(7) == 10000000);
    assert(pow10(8) == 100000000);
    assert(pow10(9) == 1000000000);
    assert(pow10(10) == 10000000000);
    assert(pow10(11) == 100000000000);
    assert(pow10(12) == 1000000000000);
    assert(pow10(13) == 10000000000000);
    assert(pow10(14) == 100000000000000);
    assert(pow10(15) == 1000000000000000);
    assert(pow10(16) == 10000000000000000);
    assert(pow10(17) == 100000000000000000);
    assert(pow10(18) == 1000000000000000000);
}

/// 10^e over the integers.
pub open spec fn pow10(e: int) -> int
    decreases e,
{
    if e <= 0 {
        1
    } else {
        10 * pow10(e - 1)
    }
}

/// 10^e grows monotonically; bounding the exponent bounds the power.
pub proof fn lemma_pow10_bounded(e: int, cap: int)
    requires
        0 <= e <= cap,
    ensures
        0 < pow10(e) <= pow10(cap),
    decreases cap,
{
    if cap > 0 {
        if e == cap {
            lemma_pow10_bounded(e - 1, cap - 1);
        } else {
            lemma_pow10_bounded(e, cap - 1);
        }
    }
}

/// 10^e as a machine word; enough for every exponent the library uses.
pub fn pow10_u64(e: u32) -> (r: u64)
    requires
        e <= 18,
    ensures
        r == pow10(e as int),
{
    let mut r: u64 = 1;
    let mut i: u32 = 0;
    while i < e
        invariant
            i <= e <= 18,
            r == pow10(i as int),
        decreases e - i,
    {
        proof {
            lemma_pow10_bounded(i as int, 17);
            lemma_pow10_values();
        }
        r = r * 10;
        i = i + 1;
    }
    r
}

/// Floor division of a signed value by a positive divisor; agrees with the
/// mathematical `/` on `int`.
pub fn floor_div_i64(a: i64, b: i64) -> (q: i64)
    requires
        b > 0,
        a > i64::MIN,
    ensures
        q == a as int / b as int,
{
    if a >= 0 {
        let q0: u64 = (a as u64) / (b as u64);
        proof {
            lemma_div_nonincreasing(a as int, b as int);
        }
        q0 as i64
    } else {
        let m: u64 = (-a) as u64;
        let bu: u64 = b as u64;
        let q0: u64 = m / bu;
        let r0: u64 = m % bu;
        proof {
            lemma_fundamental_div_mod(m as int, bu as int);
        }
        if r0 == 0 {
            proof {
                assert(a as int == (-(q0 as int)) * (bu as int) + 0) by (nonlinear_arith)
                    requires
                        m as int == (bu as int) * (q0 as int) + (r0 as int),
                        r0 == 0,
                        a as int == -(m as int),
                ;
                lemma_fundamental_div_mod_converse(a as int, b as int, -(q0 as int), 0);
            }
            -(q0 as i64)
        } else {
            proof {
                assert(a as int == (-(q0 as int) - 1) * (bu as int) + (bu as int - r0 as int))
                    by (nonlinear_arith)
                    requires
                        m as int == (bu as int) * (q0 as int) + (r0 as int),
                        a as int == -(m as int),
                ;
                lemma_fundamental_div_mod_converse(
                    a as int,
                    b as int,
                    -(q0 as int) - 1,
                    b as int - r0 as int,
                );
            }
            -(q0 as i64) - 1
        }
    }
}

/// Floor division over `i128`, for wide intermediates of the remap.
pub fn floor_div_i128(a: i128, b: i128) -> (q: i128)
    requires
        b > 0,
        a > i128::MIN,
    ensures
        q == a as int / b as int,
{
    if a >= 0 {
        let q0: u128 = (a as u128) / (b as u128);
        proof {
            lemma_div_nonincreasing(a as int, b as int);
        }
        q0 as i128
    } else {
        let m: u128 = (-a) as u128;
        let bu: u128 = b as u128;
        let q0: u128 = m / bu;
        let r0: u128 = m % bu;
        proof {
            lemma_fundamental_div_mod(m as int, bu as int);
        }
        if r0 == 0 {
            proof {
                assert(a as int == (-(q0 as int)) * (bu as int) + 0) by (nonlinear_arith)
                    requires
                        m as int == (bu as int) * (q0 as int) + (r0 as int),
                        r0 == 0,
                        a as int == -(m as int),
                ;
                lemma_fundamental_div_mod_converse(a as int, b as int, -(q0 as int), 0);
            }
            -(q0 as i128)
        } else {
            proof {
                assert(a as int == (-(q0 as int) - 1) * (bu as int) + (bu as int - r0 as int))
                    by (nonlinear_arith)
                    requires
                        m as int == (bu as int) * (q0 as int) + (r0 as int),
                        a as int == -(m as int),
                ;
                lemma_fundamental_div_mod_converse(
                    a as int,
                    b as int,
                    -(q0 as int) - 1,
                    b as int - r0 as int,
                );
            }
            -(q0 as i128) - 1
        }
    }
}

/// The value `map(a, b, v, c, d)` takes under exact arithmetic: `v` is carried
/// from the source span `[a, b]` to the target span `[c, d]`, rounding the
/// scaled offset toward minus infinity.
pub open spec fn remap_spec(a: int, b: int, v: int, c: int, d: int) -> int {
    c + (v - a) * (d - c) / (b - a)
}

/// Linear remap of `v` from the span `[a, b]` to the span `[c, d]`.
/// The endpoints map exactly: `a` to `c` and `b` to `d`.
pub fn map(a: i64, b: i64, v: i64, c: i64, d: i64) -> (r: i64)
    requires
        a < b,
        -0x4000_0000_0000_0000 < v - a < 0x4000_0000_0000_0000,
        -0x4000_0000_0000_0000 < d - c < 0x4000_0000_0000_0000,
        i64::MIN < remap_spec(a as int, b as int, v as int, c as int, d as int) < i64::MAX,
    ensures
        r == remap_spec(a as int, b as int, v as int, c as int, d as int),
        v == a ==> r == c,
        v == b ==> r == d,
{
    proof {
        if v == b {
            lemma_div_multiples_vanish(d as int - c as int, b as int - a as int);
        }
        lemma_mul_magnitude(
            v as int - a as int,
            d as int - c as int,
            0x4000_0000_0000_0000,
            0x4000_0000_0000_0000,
        );
    }
    let num: i128 = (v as i128 - a as i128) * (d as i128 - c as i128);
    let den: i128 = b as i128 - a as i128;
    let q: i128 = floor_div_i128(num, den);
    proof {
        if v == a {
            assert((v as int - a as int) * (d as int - c as int) == 0) by (nonlinear_arith)
                requires
                    v as int == a as int,
            ;
            vstd::arithmetic::div_mod::lemma_div_of0(den as int);
            assert(q == 0);
        }
    }
    (c as i128 + q) as i64
}

/// The smallest multiple of `multiple` that is at least `value`.
pub fn modulo_ceil(value: i64, multiple: i64) -> (r: i64)
    requires
        multiple > 0,
        i64::MIN < value - multiple,
        value + multiple < i64::MAX,
    ensures
        r as int % multiple as int == 0,
        value <= r,
        r - value < multiple,
{
    let q: i64 = floor_div_i64(value, multiple);
    proof {
        let qi = q as int;
        let mi = multiple as int;
        let vi = value as int;
        lemma_fundamental_div_mod(vi, mi);
        assert(qi * mi <= vi && vi < qi * mi + mi) by (nonlinear_arith)
            requires
                qi == vi / mi,
                mi > 0,
                vi == mi * (vi / mi) + (vi % mi),
                0 <= vi % mi < mi,
        ;
        lemma_mod_multiples_basic(qi, mi);
        lemma_mod_multiples_basic(qi + 1, mi);
        assert((qi + 1) * mi == qi * mi + mi) by (nonlinear_arith);
    }
    let base: i64 = q * multiple;
    if base == value {
        value
    } else {
        base + multiple
    }
}

/// How many grid lines are drawn over `range` at a given `spacing`:
/// the ceiling of `range / spacing + 1`.
pub fn grid_line_count(range: i64, spacing: i64) -> (n: u64)
    requires
        0 <= range < 0x1000_0000_0000_0000,
        0 < spacing < 0x1000_0000_0000_0000,
    ensures
        n == (range as int + 2 * spacing as int - 1) / spacing as int,
        n >= 1,
{
    proof {
        lemma_div_is_ordered(
            spacing as int,
            range as int + 2 * spacing as int - 1,
            spacing as int,
        );
        lemma_div_by_self(spacing as int);
    }
    let n: i64 = floor_div_i64(range + 2 * spacing - 1, spacing);
    n as u64
}

/// Decimal places needed to print a spacing of `spacing_micro` micro-degrees:
/// the least `p` with `spacing * 10^p` at least one degree, and `0` for a
/// whole degree or more (the ceiling of `-log10(spacing)` in degrees).
pub fn label_precision(spacing_micro: u64) -> (p: u32)
    requires
        1 <= spacing_micro,
    ensures
        spacing_micro as int * pow10(p as int) >= 1_000_000,
        p > 0 ==> spacing_micro as int * pow10(p as int - 1) < 1_000_000,
        p <= 6,
{
    let mut p: u32 = 0;
    let mut s: u64 = spacing_micro;
    while s < 1_000_000
        invariant
            1 <= spacing_micro,
            s == spacing_micro as int * pow10(p as int),
            p > 0 ==> spacing_micro as int * pow10(p as int - 1) < 1_000_000,
            p <= 6,
            s as int >= pow10(p as int),
        decreases 6 - p,
    {
        proof {
            lemma_pow10_values();
            if p >= 6 {
                lemma_pow10_bounded(6, p as int);
                assert(false);
            }
            assert(spacing_micro as int * pow10(p as int + 1) == (spacing_micro as int * pow10(
                p as int,
            )) * 10) by (nonlinear_arith)
                requires
                    pow10(p as int + 1) == 10 * pow10(p as int),
            ;
        }
        s = s * 10;
        p = p + 1;
    }
    p
}

/// Euclidean remainder of a signed value by a positive modulus; agrees with
/// the mathematical `%` on `int`, so the result is always in `[0, m)`.
pub fn euclid_mod_i64(a: i64, m: i64) -> (r: i64)
    requires
        m > 0,
        i64::MIN < a - m,
        a + m < i64::MAX,
    ensures
        r == a as int % m as int,
        0 <= r < m,
{
    let q: i64 = floor_div_i64(a, m);
    proof {
        let qi = q as int;
        let mi = m as int;
        let ai = a as int;
        lemma_fundamental_div_mod(ai, mi);
        assert(qi * mi == ai - (ai % mi)) by (nonlinear_arith)
            requires
                qi == ai / mi,
                ai == mi * (ai / mi) + (ai % mi),
        ;
        vstd::arithmetic::div_mod::lemma_mod_bound(ai, mi);
    }
    a - q * m
}

/// Degrees of longitude expressed as a width in world units: the world is
/// 360 degrees around and one world unit across. Micro-degrees in,
/// micro-world-units out, rounding toward minus infinity.
pub fn world_width_from_longitude(lng_micro_deg: i64) -> (w: i64)
    requires
        lng_micro_deg > i64::MIN,
    ensures
        w == lng_micro_deg as int / 360,
{
    floor_div_i64(lng_micro_deg, 360)
}

} // verus!
