//! Identifying a database without a random source.
//!
//! The engine has no entropy: it cannot read a random device any more than it can open a file.
//! The identifier exists to detect a file copied between two databases, not to be unguessable, so
//! mixing the clock with a counter is sufficient.
use vstd::prelude::*;

use crate::format::le;

verus! {

/// The first multiplier.
pub const CLOCK_FACTOR: u64 = 0x9E37_79B9_7F4A_7C15;

/// The second multiplier. It is odd, so that no two counters mix to the same.
pub const COUNTER_FACTOR: u64 = 0xBF58_476D_1CE4_E5B9;

/// A number rotated left by 31 bits.
pub open spec fn rotated(x: u64) -> u64 {
    (x << 31u64) | (x >> 33u64)
}

/// The clock and the counter mixed, so that two databases created in the same millisecond still
/// differ.
pub open spec fn mixed(now_ms: u64, count: u64) -> u64 {
    rotated(now_ms.wrapping_mul(CLOCK_FACTOR)).wrapping_add(count.wrapping_mul(COUNTER_FACTOR))
}

/// The identifier of a database created at `now_ms`, `count` being how many this process created
/// before it.
pub fn new_uuid(now_ms: u64, count: u64) -> (r: [u8; 16])
    ensures
        r@ == le::le(now_ms as nat, 8) + le::le(mixed(now_ms, count) as nat, 8),
{
    let clock: u64 = now_ms.wrapping_mul(CLOCK_FACTOR);
    let turned: u64 = (clock << 31u64) | (clock >> 33u64);
    let mix: u64 = turned.wrapping_add(count.wrapping_mul(COUNTER_FACTOR));
    let mut b: Vec<u8> = Vec::new();
    le::push_le(&mut b, now_ms, 8);
    le::push_le(&mut b, mix, 8);
    proof {
        le::lemma_le_fixed(now_ms as nat);
        le::lemma_le_fixed(mix as nat);
        assert(b@ =~= le::le(now_ms as nat, 8) + le::le(mix as nat, 8));
    }
    let r = [
        b[0],
        b[1],
        b[2],
        b[3],
        b[4],
        b[5],
        b[6],
        b[7],
        b[8],
        b[9],
        b[10],
        b[11],
        b[12],
        b[13],
        b[14],
        b[15],
    ];
    assert(r@ =~= b@);
    r
}

/// Databases created at different times, or in the same millisecond with different counts, have
/// different identifiers.
pub proof fn lemma_uuids_differ(a_ms: u64, a: u64, b_ms: u64, b: u64)
    requires
        a_ms != b_ms || a != b,
    ensures
        le::le(a_ms as nat, 8) + le::le(mixed(a_ms, a) as nat, 8) != le::le(b_ms as nat, 8)
            + le::le(mixed(b_ms, b) as nat, 8),
{
    let x = le::le(a_ms as nat, 8) + le::le(mixed(a_ms, a) as nat, 8);
    let y = le::le(b_ms as nat, 8) + le::le(mixed(b_ms, b) as nat, 8);
    le::lemma_le_fixed(a_ms as nat);
    le::lemma_le_fixed(b_ms as nat);
    le::lemma_le_fixed(mixed(a_ms, a) as nat);
    le::lemma_le_fixed(mixed(b_ms, b) as nat);
    if x == y {
        assert(x.take(8) =~= le::le(a_ms as nat, 8));
        assert(y.take(8) =~= le::le(b_ms as nat, 8));
        assert(x.skip(8) =~= le::le(mixed(a_ms, a) as nat, 8));
        assert(y.skip(8) =~= le::le(mixed(b_ms, b) as nat, 8));
        lemma_counts_mix_apart(a_ms, a, b);
    }
}

proof fn lemma_counts_mix_apart(now_ms: u64, a: u64, b: u64)
    requires
        mixed(now_ms, a) == mixed(now_ms, b),
    ensures
        a == b,
{
    let x = a.wrapping_mul(COUNTER_FACTOR);
    let y = b.wrapping_mul(COUNTER_FACTOR);
    assert(x == y);
    // Multiplying by an odd number can be undone: the factor times its inverse is one more than a
    // multiple of the modulus.
    let m: int = 0x1_0000_0000_0000_0000;
    let k: int = 0xBF58_476D_1CE4_E5B9;
    let inverse: int = 0x96de1b173f119089;
    let quotient: int = 0x70c3bca78f27f46c;
    assert(k * inverse == 1 + m * quotient);
    let ak: int = a * k;
    let bk: int = b * k;
    let t: int = ak / m - bk / m;
    assert(ak % m == x);
    assert(bk % m == y);
    assert(ak == m * (ak / m) + ak % m);
    assert(bk == m * (bk / m) + bk % m);
    assert(ak - bk == m * t);
    assert((a - b) * k == ak - bk) by (nonlinear_arith)
        requires
            ak == a * k,
            bk == b * k,
    ;
    let d: int = a - b;
    assert(d == m * (t * inverse - d * quotient)) by (nonlinear_arith)
        requires
            d * k == m * t,
            k * inverse == 1 + m * quotient,
    ;
    let e: int = t * inverse - d * quotient;
    assert(d == 0) by (nonlinear_arith)
        requires
            d == m * e,
            -m < d < m,
            m > 0,
    ;
}

} // verus!
