//! What stored bit patterns are as numbers, and that comparing patterns compares the numbers.
//!
//! A finite number is told in units of the least positive number of its format, so that it is an
//! integer: a pattern's exponent says how often its significand is doubled.
use vstd::arithmetic::power2::*;
use vstd::prelude::*;

use crate::bytes::Order;
use crate::float;

verus! {

/// How large the finite number with a pattern is, leaving its sign aside, where `half` is the number
/// of significands that one exponent has.
pub open spec fn magnitude(n: nat, half: nat) -> nat {
    if n / half == 0 {
        n % half
    } else {
        (half + n % half) * pow2((n / half - 1) as nat)
    }
}

/// The number that a finite 32-bit pattern stands for, in units of the least positive one.
pub open spec fn value32(bits: u32) -> int {
    if bits < 0x8000_0000 {
        magnitude(bits as nat, 0x80_0000) as int
    } else {
        -magnitude((bits - 0x8000_0000) as nat, 0x80_0000)
    }
}

/// The number that a finite 64-bit pattern stands for, in units of the least positive one.
pub open spec fn value64(bits: u64) -> int {
    if bits < 0x8000_0000_0000_0000 {
        magnitude(bits as nat, 0x10_0000_0000_0000) as int
    } else {
        -magnitude((bits - 0x8000_0000_0000_0000) as nat, 0x10_0000_0000_0000)
    }
}

proof fn lemma_step(n: nat, half: nat)
    requires
        half > 0,
    ensures
        magnitude(n, half) < magnitude(n + 1, half),
{
    let e = n / half;
    let m = n % half;
    vstd::arithmetic::div_mod::lemma_fundamental_div_mod(n as int, half as int);
    vstd::arithmetic::div_mod::lemma_mod_bound(n as int, half as int);
    if m + 1 < half {
        assert(half * e + m == n);
        vstd::arithmetic::div_mod::lemma_fundamental_div_mod_converse(
            n as int + 1,
            half as int,
            e as int,
            m as int + 1,
        );
        if e > 0 {
            lemma_pow2_pos((e - 1) as nat);
            assert((half + m) * pow2((e - 1) as nat) < (half + m + 1) * pow2((e - 1) as nat))
                by (nonlinear_arith)
                requires
                    pow2((e - 1) as nat) > 0,
            ;
        }
    } else {
        assert((e + 1) * half + 0 == n + 1) by (nonlinear_arith)
            requires
                half * e + m == n,
                m + 1 == half,
        ;
        vstd::arithmetic::div_mod::lemma_fundamental_div_mod_converse(
            n as int + 1,
            half as int,
            e as int + 1,
            0,
        );
        if e == 0 {
            lemma2_to64();
            assert(half * 1 == half) by (nonlinear_arith);
        } else {
            let p = pow2((e - 1) as nat);
            lemma_pow2_pos((e - 1) as nat);
            lemma_pow2_unfold(e);
            assert((half + m) * p < half * (2 * p)) by (nonlinear_arith)
                requires
                    m + 1 == half,
                    p > 0,
            ;
        }
    }
}

proof fn lemma_magnitude_grows(a: nat, b: nat, half: nat)
    requires
        a < b,
        half > 0,
    ensures
        magnitude(a, half) < magnitude(b, half),
    decreases b - a,
{
    lemma_step((b - 1) as nat, half);
    if a < b - 1 {
        lemma_magnitude_grows(a, (b - 1) as nat, half);
    }
}

proof fn lemma_zero(half: nat)
    requires
        half > 0,
    ensures
        magnitude(0, half) == 0,
{
    vstd::arithmetic::div_mod::lemma_fundamental_div_mod_converse(0, half as int, 0, 0);
}

proof fn lemma_magnitudes(a: nat, b: nat, half: nat)
    requires
        half > 0,
    ensures
        a < b ==> magnitude(a, half) < magnitude(b, half),
        b < a ==> magnitude(b, half) < magnitude(a, half),
        a > 0 ==> magnitude(a, half) > 0,
        b > 0 ==> magnitude(b, half) > 0,
        magnitude(0, half) == 0,
{
    lemma_zero(half);
    if a < b {
        lemma_magnitude_grows(a, b, half);
    }
    if b < a {
        lemma_magnitude_grows(b, a, half);
    }
    if a > 0 {
        lemma_magnitude_grows(0, a, half);
    }
    if b > 0 {
        lemma_magnitude_grows(0, b, half);
    }
}

/// A 32-bit pattern compares as less than another exactly where its number is less, whatever the
/// signs, and infinities lie beyond every number.
pub proof fn lemma_less32_is_less(a: u32, b: u32)
    ensures
        float::finite32(a) && float::finite32(b) ==> float::less32(a, b) == (value32(a) < value32(
            b,
        )),
        float::finite32(a) ==> float::less32(a, 0x7f80_0000) && float::less32(0xff80_0000, a),
        float::nan32(a) ==> !float::less32(a, b) && !float::less32(b, a),
        float::finite32(a) == (a % 0x8000_0000 < 0x7f80_0000),
        float::nan32(a) == (a % 0x8000_0000 > 0x7f80_0000),
{
    let x = if a < 0x8000_0000 {
        a as nat
    } else {
        (a - 0x8000_0000) as nat
    };
    let y = if b < 0x8000_0000 {
        b as nat
    } else {
        (b - 0x8000_0000) as nat
    };
    lemma_magnitudes(x, y, 0x80_0000);
}

/// The place of a finite 32-bit pattern in the order of scores follows its number: a larger number
/// comes before a smaller one, and only the two zeros are the same number at different places.
pub proof fn lemma_rank32_is_order(a: u32, b: u32)
    requires
        float::finite32(a),
        float::finite32(b),
    ensures
        value32(a) > value32(b) ==> float::rank32(a) > float::rank32(b),
        float::rank32(a) > float::rank32(b) ==> value32(a) >= value32(b),
        float::rank32(a) == float::rank32(b) <==> a == b,
        value32(a) == value32(b) && value32(a) != 0 ==> a == b,
{
    let x = if a < 0x8000_0000 {
        a as nat
    } else {
        (a - 0x8000_0000) as nat
    };
    let y = if b < 0x8000_0000 {
        b as nat
    } else {
        (b - 0x8000_0000) as nat
    };
    lemma_magnitudes(x, y, 0x80_0000);
}

/// Two finite 64-bit patterns compare as their numbers do, whatever the signs; a NaN compares with
/// nothing.
pub proof fn lemma_order64_is_order(a: u64, b: u64)
    ensures
        float::finite64(a) && float::finite64(b) ==> {
            &&& float::order64(a, b) == Some(Order::Less) <==> value64(a) < value64(b)
            &&& float::order64(a, b) == Some(Order::Equal) <==> value64(a) == value64(b)
            &&& float::order64(a, b) == Some(Order::Greater) <==> value64(a) > value64(b)
        },
        float::nan64(a) ==> float::order64(a, b) is None && float::order64(b, a) is None,
        float::finite64(a) == (a % 0x8000_0000_0000_0000 < 0x7ff0_0000_0000_0000),
        float::nan64(a) == (a % 0x8000_0000_0000_0000 > 0x7ff0_0000_0000_0000),
{
    let x = if a < 0x8000_0000_0000_0000 {
        a as nat
    } else {
        (a - 0x8000_0000_0000_0000) as nat
    };
    let y = if b < 0x8000_0000_0000_0000 {
        b as nat
    } else {
        (b - 0x8000_0000_0000_0000) as nat
    };
    lemma_magnitudes(x, y, 0x10_0000_0000_0000);
}

proof fn lemma_exact_magnitude(m: nat)
    requires
        m < 0x20_0000_0000_0000,
    ensures
        0 <= float::nearest_magnitude(m) < 0x7ff0_0000_0000_0000,
        magnitude(float::nearest_magnitude(m) as nat, 0x10_0000_0000_0000) == m * pow2(1074),
{
    let half: nat = 0x10_0000_0000_0000;
    lemma_zero(half);
    if m > 0 {
        let e = float::top_bit(m);
        float::lemma_top_bit(m);
        lemma2_to64();
        lemma2_to64_rest();
        if e > 52 {
            lemma_pow2_strictly_increases(52, e);
            lemma_pow2_adds(1, 52);
            if e > 53 {
                lemma_pow2_strictly_increases(53, e);
            }
        }
        assert(e <= 52);
        let q = pow2((52 - e) as nat);
        let s = m * q;
        lemma_pow2_adds(e, (52 - e) as nat);
        lemma_pow2_adds(1, e);
        lemma_pow2_pos((52 - e) as nat);
        assert(pow2(e) * q == half);
        assert(half <= s < 2 * half) by (nonlinear_arith)
            requires
                pow2(e) <= m < 2 * pow2(e),
                pow2(e) * q == half,
                s == m * q,
                q > 0,
        ;
        let n = float::nearest_magnitude(m);
        assert(n == (e + 1022) * half + s);
        assert(n == half * (e + 1023) + (s - half)) by (nonlinear_arith)
            requires
                n == (e + 1022) * half + s,
        ;
        vstd::arithmetic::div_mod::lemma_fundamental_div_mod_converse(
            n,
            half as int,
            e as int + 1023,
            s - half,
        );
        assert(magnitude(n as nat, half) == s * pow2(e + 1022));
        lemma_pow2_adds((52 - e) as nat, e + 1022);
        assert((52 - e) as nat + (e + 1022) == 1074);
        assert(s * pow2(e + 1022) == m * pow2(1074)) by (nonlinear_arith)
            requires
                s == m * q,
                q * pow2(e + 1022) == pow2(1074),
        ;
        assert(n < 0x7ff0_0000_0000_0000) by (nonlinear_arith)
            requires
                n == (e + 1022) * half + s,
                e <= 52,
                s < 2 * half,
                half == 0x10_0000_0000_0000,
        ;
    }
}

/// An integer of at most 53 bits is turned into the 64-bit number that it is.
pub proof fn lemma_small_integer_is_itself(x: i64)
    requires
        -0x20_0000_0000_0000 < x < 0x20_0000_0000_0000,
    ensures
        0 <= float::nearest64(x) <= u64::MAX,
        float::finite64(float::nearest64(x) as u64),
        value64(float::nearest64(x) as u64) == x * pow2(1074),
{
    let m: nat = if x >= 0 {
        x as nat
    } else {
        (-x) as nat
    };
    lemma_exact_magnitude(m);
    if x < 0 {
        assert(-(m * pow2(1074)) == x * pow2(1074)) by (nonlinear_arith)
            requires
                m == -x,
        ;
    }
}

proof fn lemma_rounding_error(m: nat, p: nat)
    requires
        p > 0,
    ensures
        -(p as int) <= 2 * (m - p * float::rounded(m, p)) <= p,
{
    let q = m / p;
    let r = m % p;
    vstd::arithmetic::div_mod::lemma_fundamental_div_mod(m as int, p as int);
    vstd::arithmetic::div_mod::lemma_mod_bound(m as int, p as int);
    assert(p * (q + 1) == p * q + p) by (nonlinear_arith);
}

proof fn lemma_large_magnitude(m: nat)
    requires
        0x20_0000_0000_0000 <= m <= 0x8000_0000_0000_0000,
    ensures
        0 <= float::nearest_magnitude(m) < 0x7ff0_0000_0000_0000,
        ({
            let off = magnitude(float::nearest_magnitude(m) as nat, 0x10_0000_0000_0000) - m * pow2(
                1074,
            );
            -(m * pow2(1074)) <= off * 0x20_0000_0000_0000 <= m * pow2(1074)
        }),
{
    let half: nat = 0x10_0000_0000_0000;
    let e = float::top_bit(m);
    float::lemma_top_bit(m);
    lemma2_to64();
    lemma2_to64_rest();
    if e < 53 {
        if e < 52 {
            lemma_pow2_strictly_increases(e, 52);
        }
        assert(false);
    }
    if e > 63 {
        if e > 64 {
            lemma_pow2_strictly_increases(64, e);
        }
        assert(false);
    }
    let k = (e - 52) as nat;
    let p = pow2(k);
    let s = float::rounded(m, p);
    lemma_pow2_pos(k);
    lemma_pow2_adds(52, k);
    lemma_pow2_adds(1, e);
    lemma_rounding_error(m, p);
    assert(half * p == pow2(e));
    assert(half <= s <= 2 * half) by (nonlinear_arith)
        requires
            half * p <= m < 2 * (half * p),
            -(p as int) <= 2 * (m - p * s) <= p,
            p > 0,
            half == 0x10_0000_0000_0000,
    ;
    let n = float::nearest_magnitude(m);
    assert(n == (e + 1022) * half + s);
    let u = pow2((e + 1022) as nat);
    if s < 2 * half {
        assert(n == half * (e + 1023) + (s - half)) by (nonlinear_arith)
            requires
                n == (e + 1022) * half + s,
        ;
        vstd::arithmetic::div_mod::lemma_fundamental_div_mod_converse(
            n,
            half as int,
            e as int + 1023,
            s - half,
        );
        assert(magnitude(n as nat, half) == s * u);
    } else {
        assert(n == half * (e + 1024) + 0) by (nonlinear_arith)
            requires
                n == (e + 1022) * half + s,
                s == 2 * half,
        ;
        vstd::arithmetic::div_mod::lemma_fundamental_div_mod_converse(
            n,
            half as int,
            e as int + 1024,
            0,
        );
        lemma_pow2_adds(1, (e + 1022) as nat);
        assert(magnitude(n as nat, half) == half * pow2((e + 1023) as nat));
        assert(half * (2 * u) == s * u) by (nonlinear_arith)
            requires
                s == 2 * half,
        ;
    }
    let w = pow2(1074);
    lemma_pow2_pos(1074);
    lemma_pow2_adds(k, 1074);
    assert(k + 1074 == e + 1022);
    assert(u == p * w);
    assert(s * u == (p * s) * w) by (nonlinear_arith)
        requires
            u == p * w,
    ;
    let d: int = p * s - m;
    assert((p * s) * w - m * w == d * w) by (nonlinear_arith)
        requires
            d == p * s - m,
    ;
    assert(-(m as int) <= d * 0x20_0000_0000_0000 <= m);
    assert(-(m * w) <= (d * w) * 0x20_0000_0000_0000 <= m * w) by (nonlinear_arith)
        requires
            -(m as int) <= d * 0x20_0000_0000_0000 <= m,
            w > 0,
    ;
    assert(0 <= n < 0x7ff0_0000_0000_0000) by (nonlinear_arith)
        requires
            n == (e + 1022) * half + s,
            0 <= e <= 63,
            0 <= s <= 2 * half,
            half == 0x10_0000_0000_0000,
    ;
}

/// An integer of more than 53 bits is turned into a 64-bit number that is off by no more than half
/// of what separates two neighbouring ones: by one part in two to the 53rd at most.
pub proof fn lemma_large_integer_is_nearest(x: i64)
    requires
        x <= -0x20_0000_0000_0000 || x >= 0x20_0000_0000_0000,
    ensures
        0 <= float::nearest64(x) <= u64::MAX,
        float::finite64(float::nearest64(x) as u64),
        ({
            let off = value64(float::nearest64(x) as u64) - x * pow2(1074);
            let size = (if x >= 0 {
                x as int
            } else {
                -x
            }) * pow2(1074);
            -size <= off * 0x20_0000_0000_0000 <= size
        }),
{
    let m: nat = if x >= 0 {
        x as nat
    } else {
        (-x) as nat
    };
    lemma_large_magnitude(m);
    if x < 0 {
        assert(-(m * pow2(1074)) == x * pow2(1074)) by (nonlinear_arith)
            requires
                m == -x,
        ;
    }
}

} // verus!
