//! CRC-32C (Castagnoli), the checksum on every persisted block.
//!
//! Castagnoli rather than the zlib polynomial because it detects more burst-error patterns at
//! the block sizes used here, and because it is the polynomial modern CPUs implement in hardware.
use vstd::prelude::*;

verus! {

/// Reflected Castagnoli polynomial.
pub const POLY: u32 = 0x82F6_3B78;

/// One step of the division: shift the register right, folding the polynomial in when the bit
/// that leaves is set.
pub open spec fn crc_bit(c: u32) -> u32 {
    if c & 1 == 1 {
        (c >> 1) ^ POLY
    } else {
        c >> 1
    }
}

/// The register after one byte.
pub open spec fn crc_byte(c: u32, b: u8) -> u32 {
    crc_bit(crc_bit(crc_bit(crc_bit(crc_bit(crc_bit(crc_bit(crc_bit(c ^ (b as u32)))))))))
}

/// The register after every byte of `data`, starting from `c`.
pub open spec fn crc_fold(c: u32, data: Seq<u8>) -> u32
    decreases data.len(),
{
    if data.len() == 0 {
        c
    } else {
        crc_byte(crc_fold(c, data.drop_last()), data.last())
    }
}

/// The checksum of `data`.
pub open spec fn crc32c_of(data: Seq<u8>) -> u32 {
    !crc_fold(0xFFFF_FFFF, data)
}

/// Feeding two pieces one after the other is feeding their concatenation.
pub proof fn lemma_crc_fold_concat(c: u32, a: Seq<u8>, b: Seq<u8>)
    ensures
        crc_fold(crc_fold(c, a), b) == crc_fold(c, a + b),
    decreases b.len(),
{
    if b.len() == 0 {
        assert(a + b =~= a);
    } else {
        lemma_crc_fold_concat(c, a, b.drop_last());
        assert((a + b).drop_last() =~= a + b.drop_last());
    }
}

/// A checksum resumed from a finished value continues it: the checksum of `a` carried on over
/// `b` is the checksum of `a` followed by `b`.
pub proof fn lemma_crc_resume(a: Seq<u8>, b: Seq<u8>)
    ensures
        !crc_fold(!crc32c_of(a), b) == crc32c_of(a + b),
{
    let f = crc_fold(0xFFFF_FFFF, a);
    assert(!(!f) == f) by (bit_vector);
    lemma_crc_fold_concat(0xFFFF_FFFF, a, b);
}

proof fn lemma_crc_bit_injective(x: u32, y: u32)
    requires
        crc_bit(x) == crc_bit(y),
    ensures
        x == y,
{
    assert((if x & 1 == 1 {
        (x >> 1) ^ 0x82F6_3B78u32
    } else {
        x >> 1
    }) == (if y & 1 == 1 {
        (y >> 1) ^ 0x82F6_3B78u32
    } else {
        y >> 1
    }) ==> x == y) by (bit_vector);
}

proof fn lemma_crc_bits_injective(x: u32, y: u32, n: nat)
    requires
        n <= 8,
        crc_bits(x, n) == crc_bits(y, n),
    ensures
        x == y,
    decreases n,
{
    if n > 0 {
        lemma_crc_bit_injective(crc_bits(x, (n - 1) as nat), crc_bits(y, (n - 1) as nat));
        lemma_crc_bits_injective(x, y, (n - 1) as nat);
    }
}

spec fn crc_bits(c: u32, n: nat) -> u32
    decreases n,
{
    if n == 0 {
        c
    } else {
        crc_bit(crc_bits(c, (n - 1) as nat))
    }
}

proof fn lemma_crc_byte_bits(c: u32, b: u8)
    ensures
        crc_byte(c, b) == crc_bits(c ^ (b as u32), 8),
{
    reveal_with_fuel(crc_bits, 9);
}

proof fn lemma_crc_byte_injective(c: u32, d: u32, b: u8, e: u8)
    requires
        crc_byte(c, b) == crc_byte(d, e),
    ensures
        b == e ==> c == d,
        c == d ==> b == e,
{
    lemma_crc_byte_bits(c, b);
    lemma_crc_byte_bits(d, e);
    lemma_crc_bits_injective(c ^ (b as u32), d ^ (e as u32), 8);
    assert(c ^ (b as u32) == d ^ (e as u32) ==> (b == e ==> c == d) && (c == d ==> b == e))
        by (bit_vector);
}

proof fn lemma_crc_fold_injective(c: u32, d: u32, data: Seq<u8>)
    requires
        crc_fold(c, data) == crc_fold(d, data),
    ensures
        c == d,
    decreases data.len(),
{
    if data.len() > 0 {
        let rest = data.drop_last();
        lemma_crc_byte_injective(crc_fold(c, rest), crc_fold(d, rest), data.last(), data.last());
        lemma_crc_fold_injective(c, d, rest);
    }
}

/// Damage confined to one byte never goes unnoticed: any change of a single byte, and so every
/// single-bit flip, changes the checksum.
pub proof fn lemma_crc_detects_byte_change(data: Seq<u8>, i: int, b: u8)
    requires
        0 <= i < data.len(),
        b != data[i],
    ensures
        crc32c_of(data.update(i, b)) != crc32c_of(data),
{
    let changed = data.update(i, b);
    let head = data.take(i);
    let tail = data.skip(i + 1);
    let start = crc_fold(0xFFFF_FFFF, head);
    assert(head.push(data[i]).drop_last() =~= head);
    assert(head.push(b).drop_last() =~= head);
    lemma_crc_fold_concat(0xFFFF_FFFF, head.push(data[i]), tail);
    lemma_crc_fold_concat(0xFFFF_FFFF, head.push(b), tail);
    assert(head.push(data[i]) + tail =~= data);
    assert(head.push(b) + tail =~= changed);
    let x = crc_fold(0xFFFF_FFFF, data);
    let y = crc_fold(0xFFFF_FFFF, changed);
    if !x == !y {
        assert(!x == !y ==> x == y) by (bit_vector);
        lemma_crc_fold_injective(crc_byte(start, data[i]), crc_byte(start, b), tail);
        lemma_crc_byte_injective(start, start, data[i], b);
    }
}

/// Checksum a single buffer.
pub fn crc32c(data: &[u8]) -> (r: u32)
    ensures
        r == crc32c_of(data@),
{
    Crc32c::new().update(data).finish()
}

/// Incremental CRC-32C, for checksumming data that arrives in pieces.
///
/// A frame's checksum covers its header and body, which are built separately; without an
/// incremental form every writer would have to concatenate them into a scratch buffer first.
#[derive(Debug, Clone, Copy, PartialEq, Eq)]
pub struct Crc32c(u32);

impl Crc32c {
    /// The register: what has been fed in so far, before the final complement.
    pub closed spec fn register(self) -> u32 {
        self.0
    }

    /// Start a new checksum.
    pub fn new() -> (r: Self)
        ensures
            r.register() == 0xFFFF_FFFF,
    {
        Crc32c(0xFFFF_FFFF)
    }

    /// Resume from a previously finished value, so a checksum can span several calls.
    pub fn resume(previous: u32) -> (r: Self)
        ensures
            r.register() == !previous,
    {
        Crc32c(!previous)
    }

    /// Feed bytes in.
    #[must_use]
    pub fn update(self, data: &[u8]) -> (r: Self)
        ensures
            r.register() == crc_fold(self.register(), data@),
    {
        let mut crc: u32 = self.0;
        let mut i: usize = 0;
        while i < data.len()
            invariant
                i <= data@.len(),
                crc == crc_fold(self.0, data@.take(i as int)),
            decreases data.len() - i,
        {
            assert(data@.take(i + 1).drop_last() =~= data@.take(i as int));
            let mut c: u32 = crc ^ (data[i] as u32);
            let mut bit: usize = 0;
            proof {
                lemma_crc_byte_bits(crc, data@[i as int]);
            }
            while bit < 8
                invariant
                    bit <= 8,
                    i < data@.len(),
                    c == crc_bits(crc ^ (data@[i as int] as u32), bit as nat),
                decreases 8 - bit,
            {
                let low: u32 = c & 1;
                c = if low == 1 {
                    (c >> 1) ^ POLY
                } else {
                    c >> 1
                };
                bit += 1;
            }
            crc = c;
            i += 1;
        }
        assert(data@.take(i as int) =~= data@);
        Crc32c(crc)
    }

    /// The checksum of everything fed in so far.
    pub fn finish(self) -> (r: u32)
        ensures
            r == !self.register(),
    {
        !self.0
    }
}

impl Default for Crc32c {
    fn default() -> (r: Self)
        ensures
            r.register() == 0xFFFF_FFFF,
    {
        Crc32c::new()
    }
}

} // verus!
