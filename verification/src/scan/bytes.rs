//! Little-endian integers read out of byte buffers.
use vstd::prelude::*;

verus! {

/// `256` to the power `n`.
pub open spec fn pow256(n: nat) -> nat
    decreases n,
{
    if n == 0 {
        1
    } else {
        256 * pow256((n - 1) as nat)
    }
}

/// Value of the `n` bytes of `s` starting at `o`, least significant first.
pub open spec fn le(s: Seq<u8>, o: int, n: nat) -> nat
    decreases n,
{
    if n == 0 {
        0
    } else {
        s[o] as nat + 256 * le(s, o + 1, (n - 1) as nat)
    }
}

/// Little-endian 16-bit value at `o`.
pub open spec fn le16(s: Seq<u8>, o: int) -> nat {
    le(s, o, 2)
}

/// Little-endian 32-bit value at `o`.
pub open spec fn le32(s: Seq<u8>, o: int) -> nat {
    le(s, o, 4)
}

/// Little-endian 64-bit value at `o`.
pub open spec fn le64(s: Seq<u8>, o: int) -> nat {
    le(s, o, 8)
}

pub proof fn lemma_le_bound(s: Seq<u8>, o: int, n: nat)
    ensures
        le(s, o, n) < pow256(n),
    decreases n,
{
    if n > 0 {
        lemma_le_bound(s, o + 1, (n - 1) as nat);
    }
}

/// The same bytes give the same value.
pub proof fn lemma_le_same(s: Seq<u8>, t: Seq<u8>, o: int, p: int, n: nat)
    requires
        0 <= o,
        0 <= p,
        o + n <= s.len(),
        p + n <= t.len(),
        s.subrange(o, o + n) == t.subrange(p, p + n),
    ensures
        le(s, o, n) == le(t, p, n),
    decreases n,
{
    if n > 0 {
        assert(s[o] == s.subrange(o, o + n)[0]);
        assert(t[p] == t.subrange(p, p + n)[0]);
        assert(s.subrange(o + 1, o + n) == s.subrange(o, o + n).subrange(1, n as int));
        assert(t.subrange(p + 1, p + n) == t.subrange(p, p + n).subrange(1, n as int));
        lemma_le_same(s, t, o + 1, p + 1, (n - 1) as nat);
    }
}

/// A value read inside a window equals the value read from the whole.
pub proof fn lemma_le_subrange(s: Seq<u8>, lo: int, hi: int, o: int, n: nat)
    requires
        0 <= lo <= hi <= s.len(),
        0 <= o,
        o + n <= hi - lo,
    ensures
        le(s.subrange(lo, hi), o, n) == le(s, lo + o, n),
{
    assert(s.subrange(lo, hi).subrange(o, o + n) == s.subrange(lo + o, lo + o + n));
    lemma_le_same(s.subrange(lo, hi), s, o, lo + o, n);
}

pub proof fn lemma_pow256_values()
    ensures
        pow256(0) == 1,
        pow256(1) == 0x100,
        pow256(2) == 0x1_0000,
        pow256(3) == 0x100_0000,
        pow256(4) == 0x1_0000_0000,
        pow256(5) == 0x100_0000_0000,
        pow256(6) == 0x1_0000_0000_0000,
        pow256(7) == 0x100_0000_0000_0000,
        pow256(8) == 0x1_0000_0000_0000_0000,
{
    reveal_with_fuel(pow256, 9);
}

/// Value of `n` (at most 8) bytes of `b` starting at `o`, least significant
/// first.
pub fn le_bytes(b: &[u8], o: usize, n: usize) -> (r: u64)
    requires
        n <= 8,
        o + n <= b@.len(),
    ensures
        r == le(b@, o as int, n as nat),
{
    proof {
        lemma_pow256_values();
    }
    let blen = b.len();
    let mut r: u64 = 0;
    let mut k: usize = n;
    while k > 0
        invariant
            k <= n <= 8,
            o + n <= b@.len(),
            blen == b@.len(),
            r == le(b@, o + k, (n - k) as nat),
            pow256(8) == 0x1_0000_0000_0000_0000,
        decreases k,
    {
        k -= 1;
        proof {
            lemma_le_bound(b@, o + k + 1, (n - k - 1) as nat);
            lemma_pow256_monotone((n - k - 1) as nat, 7);
            lemma_pow256_values();
            assert(r < 0x100_0000_0000_0000);
        }
        assert(r * 256 <= 0xFFFF_FFFF_FFFF_FF00) by (nonlinear_arith)
            requires
                r < 0x100_0000_0000_0000,
        ;
        let byte: u64 = b[o + k] as u64;
        r = r * 256 + byte;
        assert(r == le(b@, o + k, (n - k) as nat));
    }
    r
}

pub proof fn lemma_pow256_monotone(a: nat, b: nat)
    requires
        a <= b,
    ensures
        pow256(a) <= pow256(b),
    decreases b,
{
    if a < b {
        lemma_pow256_monotone(a, (b - 1) as nat);
    }
}

/// Little-endian `u16` at `o`.
pub fn u16le(b: &[u8], o: usize) -> (r: u16)
    requires
        o + 2 <= b@.len(),
    ensures
        r == le16(b@, o as int),
{
    proof {
        lemma_le_bound(b@, o as int, 2);
        lemma_pow256_values();
    }
    le_bytes(b, o, 2) as u16
}

/// Little-endian `u32` at `o`.
pub fn u32le(b: &[u8], o: usize) -> (r: u32)
    requires
        o + 4 <= b@.len(),
    ensures
        r == le32(b@, o as int),
{
    proof {
        lemma_le_bound(b@, o as int, 4);
        lemma_pow256_values();
    }
    le_bytes(b, o, 4) as u32
}

/// Little-endian `u64` at `o`.
pub fn u64le(b: &[u8], o: usize) -> (r: u64)
    requires
        o + 8 <= b@.len(),
    ensures
        r == le64(b@, o as int),
{
    le_bytes(b, o, 8)
}

} // verus!
