//! Little-endian integers as byte sequences.
use vstd::prelude::*;

verus! {

/// The `n` low bytes of `v`, least significant first.
pub open spec fn le(v: nat, n: nat) -> Seq<u8>
    decreases n,
{
    if n == 0 {
        Seq::empty()
    } else {
        seq![(v % 256) as u8] + le(v / 256, (n - 1) as nat)
    }
}

/// The number whose bytes, least significant first, are `s`.
pub open spec fn un_le(s: Seq<u8>) -> nat
    decreases s.len(),
{
    if s.len() == 0 {
        0
    } else {
        s[0] as nat + 256 * un_le(s.skip(1))
    }
}

/// `256` to the power `n`.
pub open spec fn pow256(n: nat) -> nat
    decreases n,
{
    if n == 0 {
        1
    } else {
        256 * pow256((n - 1) as nat)
    }
}

pub proof fn lemma_pow256_values()
    ensures
        pow256(1) == 0x100,
        pow256(2) == 0x1_0000,
        pow256(4) == 0x1_0000_0000,
        pow256(8) == 0x1_0000_0000_0000_0000,
{
    reveal_with_fuel(pow256, 9);
}

/// Bytes written least significant first read back as the number they were written from.
pub proof fn lemma_un_le_of_le(v: nat, n: nat)
    requires
        v < pow256(n),
    ensures
        le(v, n).len() == n,
        un_le(le(v, n)) == v,
    decreases n,
{
    if n > 0 {
        lemma_un_le_of_le(v / 256, (n - 1) as nat);
        assert(le(v, n).skip(1) =~= le(v / 256, (n - 1) as nat));
    }
}

/// Reading bytes and writing the number again gives the same bytes.
pub proof fn lemma_le_of_un_le(s: Seq<u8>)
    ensures
        le(un_le(s), s.len()) == s,
        un_le(s) < pow256(s.len()),
    decreases s.len(),
{
    if s.len() > 0 {
        lemma_le_of_un_le(s.skip(1));
        let t = un_le(s.skip(1));
        assert(un_le(s) / 256 == t && un_le(s) % 256 == s[0]);
        assert(le(un_le(s), s.len()) =~= s);
    } else {
        assert(le(un_le(s), s.len()) =~= s);
    }
}

/// The length and the worth of fixed-width encodings.
pub proof fn lemma_le_fixed(v: nat)
    ensures
        v < 0x100 ==> le(v, 1).len() == 1 && un_le(le(v, 1)) == v,
        v < 0x1_0000 ==> le(v, 2).len() == 2 && un_le(le(v, 2)) == v,
        v < 0x1_0000_0000 ==> le(v, 4).len() == 4 && un_le(le(v, 4)) == v,
        v < 0x1_0000_0000_0000_0000 ==> le(v, 8).len() == 8 && un_le(le(v, 8)) == v,
{
    lemma_pow256_values();
    if v < 0x100 {
        lemma_un_le_of_le(v, 1);
    }
    if v < 0x1_0000 {
        lemma_un_le_of_le(v, 2);
    }
    if v < 0x1_0000_0000 {
        lemma_un_le_of_le(v, 4);
    }
    if v < 0x1_0000_0000_0000_0000 {
        lemma_un_le_of_le(v, 8);
    }
}

/// Append the `n` low bytes of `v`.
pub fn push_le(out: &mut Vec<u8>, v: u64, n: usize)
    ensures
        final(out)@ == old(out)@ + le(v as nat, n as nat),
{
    let mut rest: u64 = v;
    let mut left: usize = n;
    while left > 0
        invariant
            out@ + le(rest as nat, left as nat) == old(out)@ + le(v as nat, n as nat),
        decreases left,
    {
        let ghost before = out@;
        let byte: u8 = (rest % 256) as u8;
        out.push(byte);
        proof {
            assert(before.push(byte) + le((rest / 256) as nat, (left - 1) as nat) =~= before + le(
                rest as nat,
                left as nat,
            ));
        }
        rest = rest / 256;
        left -= 1;
    }
    assert(out@ + le(rest as nat, 0) =~= out@);
}

/// The number whose bytes, least significant first, are `s`.
pub fn read_le(s: &[u8]) -> (r: u64)
    requires
        s@.len() <= 8,
    ensures
        r == un_le(s@),
{
    let mut r: u64 = 0;
    let mut i: usize = s.len();
    proof {
        assert(s@.skip(i as int) =~= Seq::<u8>::empty());
    }
    while i > 0
        invariant
            i <= s@.len() <= 8,
            r == un_le(s@.skip(i as int)),
        decreases i,
    {
        i -= 1;
        proof {
            let t = s@.skip(i as int);
            assert(t.skip(1) =~= s@.skip(i + 1));
            lemma_le_of_un_le(t);
            lemma_pow256_monotonic(t.len(), 8);
            lemma_pow256_values();
        }
        r = (s[i] as u64) + r * 256;
    }
    assert(s@.skip(0) =~= s@);
    r
}

pub proof fn lemma_pow256_monotonic(a: nat, b: nat)
    requires
        a <= b,
    ensures
        1 <= pow256(a) <= pow256(b),
    decreases b,
{
    if a < b {
        lemma_pow256_monotonic(a, (b - 1) as nat);
    } else if b > 0 {
        lemma_pow256_monotonic((a - 1) as nat, (b - 1) as nat);
    }
}

} // verus!
