//! Human-readable formatting helpers.
use vstd::prelude::*;

use crate::text::{dec, digit, digit_char, push_char, push_dec};

verus! {

/// The thin space that separates groups of three digits.
pub const THIN_SPACE: char = '\u{2009}';

/// Three decimal digits of `n < 1000`, with leading zeros.
pub open spec fn pad3(n: nat) -> Seq<char> {
    seq![digit_char(n / 100), digit_char((n / 10) % 10), digit_char(n % 10)]
}

/// `n` in decimal with its base-1000 groups separated by thin spaces.
pub open spec fn spec_thousands(n: nat) -> Seq<char>
    decreases n,
{
    if n < 1000 {
        dec(n)
    } else {
        spec_thousands(n / 1000) + seq![THIN_SPACE] + pad3(n % 1000)
    }
}

fn push_grouped(out: &mut String, n: u64)
    ensures
        final(out)@ == old(out)@ + spec_thousands(n as nat),
    decreases n,
{
    if n < 1000 {
        push_dec(out, n);
    } else {
        push_grouped(out, n / 1000);
        push_char(out, THIN_SPACE);
        let r = n % 1000;
        push_char(out, digit(r / 100));
        push_char(out, digit((r / 10) % 10));
        push_char(out, digit(r % 10));
        assert(out@ =~= old(out)@ + spec_thousands(n as nat));
    }
}

/// `1 234 567` with thin-space thousands separators.
pub fn thousands(n: u64) -> (s: String)
    ensures
        s@ == spec_thousands(n as nat),
{
    let mut out = String::new();
    push_grouped(&mut out, n);
    assert(out@ =~= spec_thousands(n as nat));
    out
}


// --- sizes ---------------------------------------------------------------

/// `2^e`.
pub open spec fn two_pow(e: nat) -> nat
    decreases e,
{
    if e == 0 {
        1
    } else {
        2 * two_pow((e - 1) as nat)
    }
}

/// `1024^e`.
pub open spec fn pow1024(e: nat) -> nat
    decreases e,
{
    if e == 0 {
        1
    } else {
        1024 * pow1024((e - 1) as nat)
    }
}

/// `q + r / d` rounded to an integer, ties to even (`r < d`).
pub open spec fn round_half_even(q: nat, r: nat, d: nat) -> nat {
    if 2 * r > d || (2 * r == d && q % 2 == 1) {
        q + 1
    } else {
        q
    }
}

/// Number of low bits that a 53-bit significand cannot hold, starting the
/// search at `s`.
pub open spec fn f64_scale(b: nat, s: nat) -> nat
    decreases 11 - s,
{
    if s >= 11 || b < 9007199254740992 * two_pow(s) {
        s
    } else {
        f64_scale(b, s + 1)
    }
}

/// The value of `b as f64` for `b < 2^64`: `b` rounded to 53 significant
/// bits, ties to even.
pub open spec fn as_f64(b: nat) -> nat {
    let p = two_pow(f64_scale(b, 0));
    round_half_even(b / p, b % p, p) * p
}

/// How many times the size is divided by 1024 (at most 5, for PB).
pub open spec fn unit_index(f: nat, u: nat) -> nat
    decreases 5 - u,
{
    if u < 5 && f >= pow1024(u + 1) {
        unit_index(f, u + 1)
    } else {
        u
    }
}

/// Name of the unit `1024^u` bytes.
pub open spec fn unit_name(u: nat) -> Seq<char> {
    if u == 0 {
        seq!['B']
    } else if u == 1 {
        seq!['K', 'B']
    } else if u == 2 {
        seq!['M', 'B']
    } else if u == 3 {
        seq!['G', 'B']
    } else if u == 4 {
        seq!['T', 'B']
    } else {
        seq!['P', 'B']
    }
}

/// `512 B` below one KB; otherwise the value in the largest unit that keeps
/// it at least 1 (up to PB), with one decimal below 100 and none from 100
/// on, rounded half to even as the floating-point value it is computed from.
pub open spec fn spec_human_size(b: nat) -> Seq<char> {
    if b < 1024 {
        dec(b) + seq![' ', 'B']
    } else {
        let f = as_f64(b);
        let u = unit_index(f, 0);
        let d = pow1024(u);
        if f >= 100 * d {
            dec(round_half_even(f / d, f % d, d)) + seq![' '] + unit_name(u)
        } else {
            let t = round_half_even((10 * f) / d, (10 * f) % d, d);
            dec(t / 10) + seq!['.', digit_char(t % 10), ' '] + unit_name(u)
        }
    }
}

proof fn lemma_two_pow_step(e: nat)
    ensures
        two_pow(e + 1) == 2 * two_pow(e),
        two_pow(e) >= 1,
    decreases e,
{
    if e > 0 {
        lemma_two_pow_step((e - 1) as nat);
    }
}

/// `bytes as f64`, as an exact integer.
fn f64_value(bytes: u64) -> (f: u128)
    ensures
        f == as_f64(bytes as nat),
        f <= 0x1_0000_0000_0000_0000,
{
    let mut s: u64 = 0;
    let mut p: u64 = 1;
    proof {
        lemma_two_pow_step(0);
    }
    while s < 11 && bytes / p >= 9007199254740992
        invariant
            s <= 11,
            p == two_pow(s as nat),
            p <= 2048,
            p >= 1,
            f64_scale(bytes as nat, 0) == f64_scale(bytes as nat, s as nat),
        decreases 11 - s,
    {
        proof {
            lemma_two_pow_step(s as nat);
            lemma_two_pow_small(s as nat);
            lemma_two_pow_small((s + 1) as nat);
            assert(!(bytes < 9007199254740992 * two_pow(s as nat))) by (nonlinear_arith)
                requires
                    bytes / p >= 9007199254740992,
                    p == two_pow(s as nat),
                    p >= 1,
            ;
        }
        p = p * 2;
        s = s + 1;
    }
    proof {
        if s < 11 {
            assert(bytes < 9007199254740992 * two_pow(s as nat)) by (nonlinear_arith)
                requires
                    bytes / p < 9007199254740992,
                    p == two_pow(s as nat),
                    p >= 1,
            ;
        }
        assert(f64_scale(bytes as nat, s as nat) == s);
    }
    proof {
        lemma_two_pow_small(s as nat);
    }
    let q = bytes / p;
    let r = bytes % p;
    let up = 2 * r > p || (2 * r == p && q % 2 == 1);
    let q2: u128 = if up {
        q as u128 + 1
    } else {
        q as u128
    };
    proof {
        if s < 11 {
            assert(q < 9007199254740992) by (nonlinear_arith)
                requires
                    bytes < 9007199254740992 * p,
                    q == bytes / p,
                    p >= 1,
            ;
        } else {
            assert(q < 9007199254740992) by (nonlinear_arith)
                requires
                    p == 2048,
                    q == bytes / p,
                    bytes < 0x1_0000_0000_0000_0000,
            ;
        }
        assert(q2 * (p as u128) <= 0x1_0000_0000_0000_0000) by (nonlinear_arith)
            requires
                q2 <= 9007199254740992,
                p <= 2048,
        ;
    }
    q2 * (p as u128)
}

proof fn lemma_two_pow_small(s: nat)
    requires
        s <= 11,
    ensures
        two_pow(s) <= 2048,
        s < 11 ==> two_pow(s) <= 1024,
        s == 11 ==> two_pow(s) == 2048,
        s == 0 ==> two_pow(s) == 1,
        s > 0 ==> two_pow(s) >= 2,
{
    reveal_with_fuel(two_pow, 12);
    if s == 0 {
    } else if s == 1 {
    } else if s == 2 {
    } else if s == 3 {
    } else if s == 4 {
    } else if s == 5 {
    } else if s == 6 {
    } else if s == 7 {
    } else if s == 8 {
    } else if s == 9 {
    } else if s == 10 {
    } else {
    }
}

proof fn lemma_pow1024_small(u: nat)
    requires
        u <= 5,
    ensures
        pow1024(u) <= 0x4_0000_0000_0000,
        u < 5 ==> pow1024(u) <= 0x100_0000_0000,
{
    reveal_with_fuel(pow1024, 6);
    if u == 0 {
    } else if u == 1 {
    } else if u == 2 {
    } else if u == 3 {
    } else if u == 4 {
    } else {
    }
}

proof fn lemma_two_pow_pos_mono(a: nat, b: nat)
    requires
        a <= b,
    ensures
        two_pow(a) <= two_pow(b),
    decreases b,
{
    if a < b {
        lemma_two_pow_pos_mono(a, (b - 1) as nat);
        lemma_two_pow_step((b - 1) as nat);
    }
}

fn push_unit(out: &mut String, u: usize)
    ensures
        final(out)@ == old(out)@ + unit_name(u as nat),
{
    if u == 1 {
        push_char(out, 'K');
    } else if u == 2 {
        push_char(out, 'M');
    } else if u == 3 {
        push_char(out, 'G');
    } else if u == 4 {
        push_char(out, 'T');
    } else if u >= 5 {
        push_char(out, 'P');
    }
    push_char(out, 'B');
    assert(out@ =~= old(out)@ + unit_name(u as nat));
}

/// `4.6 GB`, `130 MB`, `512 B` (1024-based, one decimal below 100).
pub fn human_size(bytes: u64) -> (s: String)
    ensures
        s@ == spec_human_size(bytes as nat),
{
    let mut out = String::new();
    if bytes < 1024 {
        push_dec(&mut out, bytes);
        push_char(&mut out, ' ');
        push_char(&mut out, 'B');
        assert(out@ =~= spec_human_size(bytes as nat));
        return out;
    }
    let f = f64_value(bytes);
    let mut unit: usize = 0;
    let mut d: u128 = 1;
    while unit < 5 && f >= d * 1024
        invariant
            unit <= 5,
            d == pow1024(unit as nat),
            d <= 0x4_0000_0000_0000,
            unit_index(f as nat, 0) == unit_index(f as nat, unit as nat),
        decreases 5 - unit,
    {
        proof {
            lemma_pow1024_small(unit as nat);
            lemma_pow1024_small((unit + 1) as nat);
        }
        d = d * 1024;
        unit = unit + 1;
    }
    proof {
        assert(unit_index(f as nat, unit as nat) == unit);
        assert(f >= 1024) by {
            lemma_as_f64_ge(bytes as nat);
        }
        assert(d >= 1024) by {
            if unit == 0 {
                assert(f >= d * 1024);
            }
            lemma_pow1024_ge(unit as nat);
        }
    }
    if f >= 100 * d {
        let q = f / d;
        let r = f % d;
        let v: u128 = if 2 * r > d || (2 * r == d && q % 2 == 1) {
            q + 1
        } else {
            q
        };
        proof {
            assert(q <= 0x40_0000_0000_0000) by (nonlinear_arith)
                requires
                    q == f / d,
                    d >= 1024,
                    f <= 0x1_0000_0000_0000_0000,
            ;
        }
        push_dec(&mut out, v as u64);
        push_char(&mut out, ' ');
        push_unit(&mut out, unit);
        assert(out@ =~= spec_human_size(bytes as nat));
    } else {
        let q = (10 * f) / d;
        let r = (10 * f) % d;
        let t: u128 = if 2 * r > d || (2 * r == d && q % 2 == 1) {
            q + 1
        } else {
            q
        };
        proof {
            assert(q < 1000) by (nonlinear_arith)
                requires
                    q == (10 * f) as int / d as int,
                    f < 100 * d,
                    d >= 1,
            ;
        }
        push_dec(&mut out, (t / 10) as u64);
        push_char(&mut out, '.');
        push_char(&mut out, digit((t % 10) as u64));
        push_char(&mut out, ' ');
        push_unit(&mut out, unit);
        assert(out@ =~= spec_human_size(bytes as nat));
    }
    out
}

proof fn lemma_pow1024_ge(u: nat)
    ensures
        u >= 1 ==> pow1024(u) >= 1024,
        pow1024(u) >= 1,
    decreases u,
{
    if u > 0 {
        lemma_pow1024_ge((u - 1) as nat);
    }
}

/// Rounding to 53 bits never takes a number of at least 1024 below 1024.
proof fn lemma_as_f64_ge(b: nat)
    requires
        1024 <= b < 0x1_0000_0000_0000_0000,
    ensures
        as_f64(b) >= 1024,
{
    let s = f64_scale(b, 0);
    lemma_f64_scale_range(b, 0);
    let p = two_pow(s);
    lemma_two_pow_small(s);
    let q = b / p;
    assert(round_half_even(q, b % p, p) >= q);
    if s == 0 {
        assert(p == 1);
        assert(q == b) by (nonlinear_arith)
            requires
                p == 1,
                q == b / p,
        ;
        assert(q * p >= 1024);
    } else {
        assert(q * p >= 1024) by (nonlinear_arith)
            requires
                q == b / p,
                p >= 2,
                p <= 2048,
                b >= 9007199254740992 * (p / 2),
        ;
    }
    assert(round_half_even(q, b % p, p) * p >= q * p) by (nonlinear_arith)
        requires
            round_half_even(q, b % p, p) >= q,
            p >= 1,
    ;
}

proof fn lemma_f64_scale_range(b: nat, s: nat)
    requires
        s <= 11,
    ensures
        s <= f64_scale(b, s) <= 11,
        f64_scale(b, s) > s ==> b >= 9007199254740992 * two_pow(s),
        f64_scale(b, s) > s ==> b >= 9007199254740992 * (two_pow(f64_scale(b, s)) / 2),
    decreases 11 - s,
{
    if !(s >= 11 || b < 9007199254740992 * two_pow(s)) {
        lemma_f64_scale_range(b, s + 1);
        lemma_two_pow_step(s);
        let t = f64_scale(b, s + 1);
        if t == s + 1 {
            assert(two_pow(t) / 2 == two_pow(s));
        }
    }
}

} // verus!
