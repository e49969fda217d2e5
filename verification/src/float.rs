//! IEEE 754 numbers as the bit patterns they are stored in.
use vstd::arithmetic::div_mod::*;
use vstd::arithmetic::power2::*;
use vstd::prelude::*;

use crate::bytes::Order;

verus! {

/// Whether a 32-bit pattern is neither an infinity nor a NaN.
pub open spec fn finite32(bits: u32) -> bool {
    bits % 0x8000_0000 < 0x7f80_0000
}

/// Whether a 64-bit pattern is neither an infinity nor a NaN.
pub open spec fn finite64(bits: u64) -> bool {
    bits % 0x8000_0000_0000_0000 < 0x7ff0_0000_0000_0000
}

/// Whether a 32-bit pattern is neither an infinity nor a NaN.
pub fn is_finite32(bits: u32) -> (r: bool)
    ensures
        r == finite32(bits),
{
    bits % 0x8000_0000 < 0x7f80_0000
}

/// Whether a 64-bit pattern is neither an infinity nor a NaN.
pub fn is_finite64(bits: u64) -> (r: bool)
    ensures
        r == finite64(bits),
{
    bits % 0x8000_0000_0000_0000 < 0x7ff0_0000_0000_0000
}


/// Whether a 32-bit pattern is a NaN.
pub open spec fn nan32(bits: u32) -> bool {
    bits % 0x8000_0000 > 0x7f80_0000
}

/// Whether a 64-bit pattern is a NaN.
pub open spec fn nan64(bits: u64) -> bool {
    bits % 0x8000_0000_0000_0000 > 0x7ff0_0000_0000_0000
}

/// An integer that orders 32-bit numbers as IEEE 754 does: the two zeros are equal.
pub open spec fn key32(bits: u32) -> int {
    if bits < 0x8000_0000 {
        bits as int
    } else {
        0x8000_0000 - bits
    }
}

/// An integer that orders 64-bit numbers as IEEE 754 does: the two zeros are equal.
pub open spec fn key64(bits: u64) -> int {
    if bits < 0x8000_0000_0000_0000 {
        bits as int
    } else {
        0x8000_0000_0000_0000 - bits
    }
}

/// An integer that orders 32-bit patterns by IEEE 754's total order: every pattern has a place of
/// its own, negative zero before positive zero, and the NaNs at the ends.
pub open spec fn rank32(bits: u32) -> int {
    if bits < 0x8000_0000 {
        bits as int
    } else {
        0x7fff_ffff - bits
    }
}

/// Whether one 32-bit number is less than another. Nothing is less than a NaN, nor a NaN than
/// anything.
pub open spec fn less32(a: u32, b: u32) -> bool {
    !nan32(a) && !nan32(b) && key32(a) < key32(b)
}

/// Whether one 32-bit number is less than another.
pub fn is_less32(a: u32, b: u32) -> (r: bool)
    ensures
        r == less32(a, b),
{
    if a % 0x8000_0000 > 0x7f80_0000 || b % 0x8000_0000 > 0x7f80_0000 {
        return false;
    }
    let x: i64 = if a < 0x8000_0000 {
        a as i64
    } else {
        0x8000_0000 - a as i64
    };
    let y: i64 = if b < 0x8000_0000 {
        b as i64
    } else {
        0x8000_0000 - b as i64
    };
    x < y
}

/// The place of a 32-bit pattern in the total order.
pub fn rank_of32(bits: u32) -> (r: i64)
    ensures
        r == rank32(bits),
{
    if bits < 0x8000_0000 {
        bits as i64
    } else {
        0x7fff_ffff - bits as i64
    }
}

/// The total order tells any two patterns apart.
pub proof fn lemma_rank32_injective(a: u32, b: u32)
    ensures
        rank32(a) == rank32(b) ==> a == b,
{
}

/// How two 64-bit numbers compare. A NaN compares with nothing.
pub open spec fn order64(a: u64, b: u64) -> Option<Order> {
    if nan64(a) || nan64(b) {
        None
    } else if key64(a) < key64(b) {
        Some(Order::Less)
    } else if key64(a) == key64(b) {
        Some(Order::Equal)
    } else {
        Some(Order::Greater)
    }
}

/// How two 64-bit numbers compare.
pub fn compare64(a: u64, b: u64) -> (r: Option<Order>)
    ensures
        r == order64(a, b),
{
    if a % 0x8000_0000_0000_0000 > 0x7ff0_0000_0000_0000 || b % 0x8000_0000_0000_0000
        > 0x7ff0_0000_0000_0000 {
        return None;
    }
    let x: i128 = if a < 0x8000_0000_0000_0000 {
        a as i128
    } else {
        0x8000_0000_0000_0000 - a as i128
    };
    let y: i128 = if b < 0x8000_0000_0000_0000 {
        b as i128
    } else {
        0x8000_0000_0000_0000 - b as i128
    };
    if x < y {
        Some(Order::Less)
    } else if x == y {
        Some(Order::Equal)
    } else {
        Some(Order::Greater)
    }
}

/// The position of the highest bit set in a number above 0.
pub open spec fn top_bit(m: nat) -> nat
    decreases m,
{
    if m < 2 {
        0
    } else {
        1 + top_bit(m / 2)
    }
}

/// A number above 0 lies between its highest power of two and the next.
pub proof fn lemma_top_bit(m: nat)
    requires
        m > 0,
    ensures
        pow2(top_bit(m)) <= m < 2 * pow2(top_bit(m)),
    decreases m,
{
    lemma2_to64();
    if m >= 2 {
        lemma_top_bit(m / 2);
        lemma_pow2_adds(1, top_bit(m / 2));
    }
}

/// A number divided by a power of two, to the nearest whole and to the even one where two are as
/// near.
pub open spec fn rounded(m: nat, p: nat) -> nat {
    let q = m / p;
    let r = m % p;
    if 2 * r > p || (2 * r == p && q % 2 == 1) {
        q + 1
    } else {
        q
    }
}

/// The pattern of the positive 64-bit number nearest to `m`, to the even one where two are as
/// near. A significand that rounds up to the next power of two carries into the exponent.
pub open spec fn nearest_magnitude(m: nat) -> int {
    if m == 0 {
        0
    } else {
        let e = top_bit(m);
        let significand = if e <= 52 {
            m * pow2((52 - e) as nat)
        } else {
            rounded(m, pow2((e - 52) as nat))
        };
        (e + 1022) as int * 0x10_0000_0000_0000 + significand
    }
}

/// The pattern of the 64-bit number nearest to an integer.
pub open spec fn nearest64(x: i64) -> int {
    if x >= 0 {
        nearest_magnitude(x as nat)
    } else {
        0x8000_0000_0000_0000 + nearest_magnitude((-x) as nat)
    }
}

/// A significand of 53 bits, or the power of two above them.
proof fn lemma_significand(m: nat)
    requires
        m > 0,
    ensures
        ({
            let e = top_bit(m);
            let p = pow2((52 - e) as nat);
            e <= 52 ==> 0x10_0000_0000_0000 <= m * p < 0x20_0000_0000_0000
        }),
        ({
            let e = top_bit(m);
            let p = pow2((e - 52) as nat);
            e > 52 ==> 0x10_0000_0000_0000 <= m / p < 0x20_0000_0000_0000
        }),
{
    let e = top_bit(m);
    lemma_top_bit(m);
    lemma2_to64();
    lemma2_to64_rest();
    if e <= 52 {
        let p = pow2((52 - e) as nat);
        lemma_pow2_adds((52 - e) as nat, e);
        lemma_pow2_pos((52 - e) as nat);
        let t = pow2(e);
        assert(p * t == 0x10_0000_0000_0000);
        assert(p * t <= m * p < 2 * (p * t)) by (nonlinear_arith)
            requires
                t <= m < 2 * t,
                p > 0,
        ;
    } else {
        let p = pow2((e - 52) as nat);
        lemma_pow2_adds((e - 52) as nat, 52);
        lemma_pow2_pos((e - 52) as nat);
        assert(p * 0x10_0000_0000_0000 == pow2(e));
        assert(0x10_0000_0000_0000 <= m / p < 0x20_0000_0000_0000) by (nonlinear_arith)
            requires
                p * 0x10_0000_0000_0000 <= m < 2 * (p * 0x10_0000_0000_0000),
                p > 0,
        ;
    }
}

/// 2 to the power `n`.
fn power_of_two(n: u32) -> (r: u64)
    requires
        n < 64,
    ensures
        r == pow2(n as nat),
{
    let mut r: u64 = 1;
    let mut i: u32 = 0;
    proof {
        lemma2_to64();
    }
    while i < n
        invariant
            i <= n < 64,
            r == pow2(i as nat),
        decreases n - i,
    {
        proof {
            lemma2_to64();
            lemma2_to64_rest();
            lemma_pow2_adds(1, i as nat);
            lemma_pow2_strictly_increases(i as nat, 63);
        }
        r = 2 * r;
        i += 1;
    }
    r
}

/// The pattern of the positive number nearest to `m`.
fn magnitude_bits(m: u64) -> (r: u64)
    requires
        m <= 0x8000_0000_0000_0000,
    ensures
        r == nearest_magnitude(m as nat),
        r < 0x7ff0_0000_0000_0000,
{
    if m == 0 {
        return 0;
    }
    let mut e: u32 = 0;
    let mut t: u64 = m;
    proof {
        lemma2_to64();
        assert(pow2(0) == 1);
    }
    while t >= 2
        invariant
            t > 0,
            e + top_bit(t as nat) == top_bit(m as nat),
            t as int * pow2(e as nat) <= m,
            e <= 63,
            m <= 0x8000_0000_0000_0000,
        decreases t,
    {
        proof {
            lemma2_to64();
            lemma2_to64_rest();
            lemma_pow2_adds(1, e as nat);
            let p = pow2(e as nat) as int;
            let h = (t / 2) as int;
            assert(h * (2 * p) <= t * p) by (nonlinear_arith)
                requires
                    2 * h <= t,
                    p >= 0,
            ;
            assert(p <= h * p) by (nonlinear_arith)
                requires
                    h >= 1,
                    p >= 0,
            ;
            assert(h * (2 * p) == 2 * (h * p)) by (nonlinear_arith);
            if e == 63 {
                assert(false);
            }
        }
        t = t / 2;
        e += 1;
    }
    proof {
        lemma_significand(m as nat);
    }
    let significand: u64 = if e <= 52 {
        let p: u64 = power_of_two(52 - e);
        m * p
    } else {
        let p: u64 = power_of_two(e - 52);
        proof {
            lemma_pow2_pos((e - 52) as nat);
            lemma2_to64();
            if e - 52 < 11 {
                lemma_pow2_strictly_increases((e - 52) as nat, 11);
            }
        }
        let q: u64 = m / p;
        let r: u64 = m % p;
        if 2 * r > p || (2 * r == p && q % 2 == 1) {
            q + 1
        } else {
            q
        }
    };
    (e as u64 + 1022) * 0x10_0000_0000_0000 + significand
}

/// The 64-bit number nearest to an integer, to the even one where two are as near.
pub fn nearest_to(x: i64) -> (r: u64)
    ensures
        r == nearest64(x),
        finite64(r),
{
    if x >= 0 {
        magnitude_bits(x as u64)
    } else {
        let m: u64 = (-(x + 1)) as u64 + 1;
        0x8000_0000_0000_0000 + magnitude_bits(m)
    }
}

proof fn lemma_rounded_monotone(a: nat, b: nat, p: nat)
    requires
        a <= b,
        p > 0,
    ensures
        rounded(a, p) <= rounded(b, p),
{
    lemma_div_is_ordered(a as int, b as int, p as int);
    lemma_fundamental_div_mod(a as int, p as int);
    lemma_fundamental_div_mod(b as int, p as int);
}

proof fn lemma_top_bit_monotone(a: nat, b: nat)
    requires
        0 < a <= b,
    ensures
        top_bit(a) <= top_bit(b),
    decreases b,
{
    if a >= 2 {
        lemma_top_bit_monotone(a / 2, b / 2);
    }
}

proof fn lemma_magnitude_monotone(a: nat, b: nat)
    requires
        a <= b,
    ensures
        0 <= nearest_magnitude(a) <= nearest_magnitude(b),
{
    if a > 0 {
        lemma_top_bit_monotone(a, b);
        lemma_significand(a);
        lemma_significand(b);
        let e = top_bit(a);
        if e == top_bit(b) {
            if e <= 52 {
                lemma_pow2_pos((52 - e) as nat);
                assert(a * pow2((52 - e) as nat) <= b * pow2((52 - e) as nat)) by (nonlinear_arith)
                    requires
                        a <= b,
                ;
            } else {
                lemma_pow2_pos((e - 52) as nat);
                lemma_rounded_monotone(a, b, pow2((e - 52) as nat));
            }
        }
    } else if b > 0 {
        lemma_significand(b);
    }
}

/// Rounding integers to floats keeps their order: a larger integer never rounds to a smaller
/// number.
pub proof fn lemma_nearest_keeps_order(x: i64, y: i64)
    requires
        x <= y,
    ensures
        nearest64(x) == nearest64(x) as u64,
        nearest64(y) == nearest64(y) as u64,
        key64(nearest64(x) as u64) <= key64(nearest64(y) as u64),
{
    lemma_magnitude_bound(x);
    lemma_magnitude_bound(y);
    if x >= 0 {
        lemma_magnitude_monotone(x as nat, y as nat);
    } else if y < 0 {
        lemma_magnitude_monotone((-y) as nat, (-x) as nat);
    }
}

proof fn lemma_magnitude_bound(x: i64)
    ensures
        0 <= nearest64(x) <= u64::MAX,
        x >= 0 ==> nearest64(x) < 0x8000_0000_0000_0000,
        x < 0 ==> nearest64(x) >= 0x8000_0000_0000_0000,
{
    let m: nat = if x >= 0 {
        x as nat
    } else {
        (-x) as nat
    };
    lemma_magnitude_monotone(0, m);
    lemma_magnitude_monotone(m, 0x8000_0000_0000_0000);
    assert(nearest_magnitude(0x8000_0000_0000_0000) == 0x43e0_0000_0000_0000) by {
        lemma2_to64();
        lemma2_to64_rest();
        reveal_with_fuel(top_bit, 70);
        assert(top_bit(0x8000_0000_0000_0000) == 63);
        assert(pow2(11) == 0x800);
        assert(rounded(0x8000_0000_0000_0000, 0x800) == 0x10_0000_0000_0000);
    }
}

/// An integer of at most 53 bits is a 64-bit number exactly, so it rounds to a number no other
/// such integer rounds to.
pub proof fn lemma_small_integers_are_exact(x: i64, y: i64)
    requires
        -0x20_0000_0000_0000 < x < 0x20_0000_0000_0000,
        -0x20_0000_0000_0000 < y < 0x20_0000_0000_0000,
        x < y,
    ensures
        key64(nearest64(x) as u64) < key64(nearest64(y) as u64),
{
    lemma_magnitude_bound(x);
    lemma_magnitude_bound(y);
    if x >= 0 {
        lemma_magnitude_strict(x as nat, y as nat);
    } else if y < 0 {
        lemma_magnitude_strict((-y) as nat, (-x) as nat);
    } else {
        lemma_magnitude_strict(0, (-x) as nat);
        lemma_magnitude_monotone(0, y as nat);
    }
}

proof fn lemma_magnitude_strict(a: nat, b: nat)
    requires
        a < b < 0x20_0000_0000_0000,
    ensures
        nearest_magnitude(a) < nearest_magnitude(b),
{
    lemma_significand(b);
    lemma_top_bit(b);
    lemma2_to64_rest();
    if top_bit(b) > 52 {
        lemma_pow2_strictly_increases(52, top_bit(b));
        lemma_pow2_adds(1, 52);
        lemma2_to64();
        if top_bit(b) > 53 {
            lemma_pow2_strictly_increases(53, top_bit(b));
        }
    }
    if a > 0 {
        lemma_top_bit_monotone(a, b);
        lemma_significand(a);
        let e = top_bit(a);
        if e == top_bit(b) {
            lemma_pow2_pos((52 - e) as nat);
            assert(a * pow2((52 - e) as nat) < b * pow2((52 - e) as nat)) by (nonlinear_arith)
                requires
                    a < b,
                    pow2((52 - e) as nat) > 0,
            ;
        }
    }
}

} // verus!
