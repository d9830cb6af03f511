//! UTF-16, as NTFS stores names and as Win32 takes strings.
use vstd::prelude::*;

use crate::text::push_char;

verus! {

pub open spec fn is_surrogate(u: u16) -> bool {
    0xD800 <= u <= 0xDFFF
}

pub open spec fn is_high_surrogate(u: u16) -> bool {
    0xD800 <= u <= 0xDBFF
}

pub open spec fn is_low_surrogate(u: u16) -> bool {
    0xDC00 <= u <= 0xDFFF
}

/// The character a surrogate pair stands for.
pub open spec fn pair_code(hi: u16, lo: u16) -> int {
    0x10000 + (hi - 0xD800) * 0x400 + (lo - 0xDC00)
}

/// A Unicode scalar value: a code point that is not a surrogate.
pub open spec fn is_scalar(v: int) -> bool {
    (0 <= v <= 0xD7FF) || (0xE000 <= v <= 0x10FFFF)
}

/// The characters of UTF-16 code units; a unit that is not part of a valid
/// surrogate pair becomes U+FFFD.
pub open spec fn decode_utf16(s: Seq<u16>) -> Seq<char>
    decreases s.len(),
{
    if s.len() == 0 {
        Seq::empty()
    } else if !is_surrogate(s[0]) {
        seq![s[0] as char] + decode_utf16(s.drop_first())
    } else if is_high_surrogate(s[0]) && s.len() >= 2 && is_low_surrogate(s[1]) {
        seq![pair_code(s[0], s[1]) as char] + decode_utf16(s.subrange(2, s.len() as int))
    } else {
        seq!['\u{FFFD}'] + decode_utf16(s.drop_first())
    }
}

/// The UTF-16 code units of characters.
pub open spec fn encode_utf16(s: Seq<char>) -> Seq<u16>
    decreases s.len(),
{
    if s.len() == 0 {
        Seq::empty()
    } else {
        let c = s[0] as int;
        let units = if c < 0x10000 {
            seq![c as u16]
        } else {
            seq![(0xD800 + (c - 0x10000) / 0x400) as u16, (0xDC00 + (c - 0x10000) % 0x400) as u16]
        };
        units + encode_utf16(s.drop_first())
    }
}

/// `char::from_u32`: the character with code `v`, or `None` when `v` is a
/// surrogate code or above U+10FFFF, as its documentation states.
#[verifier::external_body]
fn char_from_u32(v: u32) -> (r: Option<char>)
    ensures
        r == (if is_scalar(v as int) {
            Some(v as char)
        } else {
            None
        }),
{
    char::from_u32(v)
}

/// The character with scalar value `v`.
fn scalar_char(v: u32) -> (c: char)
    requires
        is_scalar(v as int),
    ensures
        c == v as char,
{
    match char_from_u32(v) {
        Some(c) => c,
        None => '\u{FFFD}',
    }
}

/// Decode UTF-16 code units; units that are not part of a valid surrogate
/// pair become U+FFFD.
pub fn decode_utf16_units(units: &[u16]) -> (s: String)
    ensures
        s@ == decode_utf16(units@),
{
    let n = units.len();
    let mut out = String::new();
    let mut i: usize = 0;
    proof {
        assert(units@.subrange(0, n as int) =~= units@);
        assert(out@ + decode_utf16(units@) =~= decode_utf16(units@));
    }
    while i < n
        invariant
            n == units@.len(),
            i <= n,
            decode_utf16(units@) == out@ + decode_utf16(units@.subrange(i as int, n as int)),
        decreases n - i,
    {
        let ghost rest = units@.subrange(i as int, n as int);
        let ghost before = out@;
        let u = units[i];
        if u < 0xD800 || u > 0xDFFF {
            push_char(&mut out, scalar_char(u as u32));
            i += 1;
            proof {
                assert(rest.drop_first() =~= units@.subrange(i as int, n as int));
                assert(before + (seq![u as char] + decode_utf16(rest.drop_first())) =~= out@ + decode_utf16(rest.drop_first()));
            }
        } else if u <= 0xDBFF && i + 1 < n && units[i + 1] >= 0xDC00 && units[i + 1] <= 0xDFFF {
            let lo = units[i + 1];
            let v: u32 = 0x10000 + ((u - 0xD800) as u32) * 0x400 + ((lo - 0xDC00) as u32);
            push_char(&mut out, scalar_char(v));
            i += 2;
            proof {
                assert(rest[1] == lo);
                assert(rest.subrange(2, rest.len() as int) =~= units@.subrange(i as int, n as int));
                assert(before + (seq![pair_code(u, lo) as char] + decode_utf16(rest.subrange(2, rest.len() as int)))
                    =~= out@ + decode_utf16(rest.subrange(2, rest.len() as int)));
            }
        } else {
            push_char(&mut out, '\u{FFFD}');
            i += 1;
            proof {
                assert(rest.drop_first() =~= units@.subrange(i as int, n as int));
                assert(before + (seq!['\u{FFFD}'] + decode_utf16(rest.drop_first())) =~= out@ + decode_utf16(rest.drop_first()));
            }
        }
    }
    proof {
        assert(out@ + decode_utf16(Seq::<u16>::empty()) =~= out@);
    }
    out
}

/// `s` as a NUL-terminated UTF-16 string, for Win32 calls.
pub fn wide(s: &str) -> (w: Vec<u16>)
    ensures
        w@ == encode_utf16(s@).push(0),
{
    let n = s.unicode_len();
    let mut w: Vec<u16> = Vec::new();
    let mut i: usize = 0;
    proof {
        assert(s@.subrange(0, n as int) =~= s@);
        assert(w@ + encode_utf16(s@) =~= encode_utf16(s@));
    }
    while i < n
        invariant
            n == s@.len(),
            i <= n,
            encode_utf16(s@) == w@ + encode_utf16(s@.subrange(i as int, n as int)),
        decreases n - i,
    {
        let ghost rest = s@.subrange(i as int, n as int);
        let ghost before = w@;
        let c = s.get_char(i) as u32;
        let ghost units = if c < 0x10000 {
            seq![c as u16]
        } else {
            seq![(0xD800 + (c - 0x10000) / 0x400) as u16, (0xDC00 + (c - 0x10000) % 0x400) as u16]
        };
        if c < 0x10000 {
            w.push(c as u16);
        } else {
            let v = c - 0x10000;
            w.push((0xD800 + v / 0x400) as u16);
            w.push((0xDC00 + v % 0x400) as u16);
        }
        i += 1;
        proof {
            assert(rest[0] == s@[i - 1]);
            assert(rest.drop_first() =~= s@.subrange(i as int, n as int));
            assert(encode_utf16(rest) == units + encode_utf16(rest.drop_first()));
            assert(w@ =~= before + units);
            assert(before + (units + encode_utf16(rest.drop_first())) =~= w@ + encode_utf16(rest.drop_first()));
        }
    }
    proof {
        assert(s@.subrange(n as int, n as int) =~= Seq::<char>::empty());
        assert(w@ + Seq::<u16>::empty() =~= w@);
    }
    w.push(0);
    w
}

/// The units of a buffer before its first NUL (all of them when it holds
/// none).
pub open spec fn before_nul(s: Seq<u16>) -> Seq<u16>
    decreases s.len(),
{
    if s.len() == 0 || s[0] == 0 {
        Seq::empty()
    } else {
        seq![s[0]] + before_nul(s.drop_first())
    }
}

/// The buffer holds a NUL.
pub open spec fn has_nul(s: Seq<u16>) -> bool {
    exists|i: int| 0 <= i < s.len() && s[i] == 0
}

/// The text units of a NUL-terminated buffer: those before its first NUL,
/// and none when it is not terminated.
pub open spec fn until_nul(s: Seq<u16>) -> Seq<u16> {
    if has_nul(s) {
        before_nul(s)
    } else {
        Seq::empty()
    }
}

proof fn lemma_until_nul(s: Seq<u16>, k: int)
    requires
        0 <= k <= s.len(),
        forall|j: int| 0 <= j < k ==> s[j] != 0,
        k == s.len() || s[k] == 0,
    ensures
        before_nul(s) == s.take(k),
    decreases k,
{
    if k == 0 {
        assert(s.take(0) =~= Seq::<u16>::empty());
    } else {
        lemma_until_nul(s.drop_first(), k - 1);
        assert(s.take(k) =~= seq![s[0]] + s.drop_first().take(k - 1));
    }
}

/// The text of a NUL-terminated UTF-16 buffer, as Win32 fills one: the
/// units before the first NUL, decoded with U+FFFD for broken surrogates;
/// empty when the buffer holds no NUL.
pub fn text_of_wide(buf: &[u16]) -> (s: String)
    ensures
        s@ == decode_utf16(until_nul(buf@)),
{
    let mut units: Vec<u16> = Vec::new();
    let mut k: usize = 0;
    while k < buf.len() && buf[k] != 0
        invariant
            k <= buf@.len(),
            forall|j: int| 0 <= j < k ==> buf@[j] != 0,
            units@ == buf@.take(k as int),
        decreases buf@.len() - k,
    {
        units.push(buf[k]);
        k += 1;
        proof {
            assert(units@ =~= buf@.take(k as int));
        }
    }
    if k == buf.len() {
        proof {
            assert(!has_nul(buf@));
            assert(decode_utf16(Seq::<u16>::empty()) =~= Seq::<char>::empty());
        }
        return String::new();
    }
    proof {
        lemma_until_nul(buf@, k as int);
        assert(buf@[k as int] == 0);
        assert(has_nul(buf@));
    }
    decode_utf16_units(units.as_slice())
}

} // verus!
