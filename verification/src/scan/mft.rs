//! NTFS Master File Table records: update sequence fix-ups, attributes,
//! data runs, and the tree linked from the parsed records.
//!
//! Hard links are counted once (at the first non-DOS name), which matches the
//! actual space used on disk.
use vstd::prelude::*;

use crate::model::{RawDir, RawFile};
use crate::sums::is_perm;
use crate::text::push_char;
use crate::utf16::{decode_utf16, decode_utf16_units};
use crate::scan::bytes::{
    le, le16, le32, le64, le_bytes, lemma_le_bound, lemma_le_subrange, lemma_pow256_values, pow256, u16le, u32le,
    u64le,
};

verus! {

/// Record number of the root directory.
pub const ROOT_RECORD: u32 = 5;
/// Update sequence stride used by NTFS multi-sector protection.
pub const USA_STRIDE: usize = 512;

pub const ATTR_ATTRIBUTE_LIST: u32 = 0x20;
pub const ATTR_FILE_NAME: u32 = 0x30;
pub const ATTR_DATA: u32 = 0x80;
pub const ATTR_END: u32 = 0xFFFF_FFFF;

pub const REC_IN_USE: u16 = 0x0001;
pub const REC_DIRECTORY: u16 = 0x0002;

pub const ATTR_FLAG_COMPRESSED: u16 = 0x0001;
pub const ATTR_FLAG_SPARSE: u16 = 0x8000;

/// Namespace of a DOS 8.3 alias.
pub const NS_DOS: u8 = 2;

// --- update sequence array --------------------------------------------------

/// The update sequence array described by the record header fits the record.
pub open spec fn usa_header_ok(rec: Seq<u8>) -> bool {
    &&& rec.len() >= 8
    &&& le16(rec, 6) != 0
    &&& le16(rec, 4) + 2 * le16(rec, 6) <= rec.len()
    &&& (le16(rec, 6) - 1) * 512 <= rec.len()
}

/// Fix-ups of sectors `i..cnt`: each sector must end with the update
/// sequence number `(usn0, usn1)`, which is replaced by the saved bytes.
/// Returns the record as left and whether every sector matched.
pub open spec fn fixup_from(rec: Seq<u8>, usn0: u8, usn1: u8, off: int, i: int, cnt: int) -> (Seq<u8>, bool)
    decreases cnt - i,
{
    if i >= cnt {
        (rec, true)
    } else {
        let end = i * 512;
        if rec[end - 2] != usn0 || rec[end - 1] != usn1 {
            (rec, false)
        } else {
            let r1 = rec.update(end - 2, rec[off + 2 * i]);
            let r2 = r1.update(end - 1, r1[off + 2 * i + 1]);
            fixup_from(r2, usn0, usn1, off, i + 1, cnt)
        }
    }
}

/// The record after applying its update sequence array, and whether it was
/// intact (`false` for a torn or corrupt record).
pub open spec fn spec_apply_fixups(rec: Seq<u8>) -> (Seq<u8>, bool) {
    if !usa_header_ok(rec) {
        (rec, false)
    } else {
        let off = le16(rec, 4) as int;
        fixup_from(rec, rec[off], rec[off + 1], off, 1, le16(rec, 6) as int)
    }
}

/// Apply the update sequence array. Returns `false` on a torn/corrupt record.
pub fn apply_fixups(rec: &mut [u8]) -> (ok: bool)
    ensures
        (final(rec)@, ok) == spec_apply_fixups(old(rec)@),
        final(rec)@.len() == old(rec)@.len(),
{
    let len = rec.len();
    if len < 8 {
        return false;
    }
    let usa_off = u16le(rec, 4) as usize;
    let usa_cnt = u16le(rec, 6) as usize;
    if usa_cnt == 0 || usa_off + 2 * usa_cnt > len || (usa_cnt - 1) * USA_STRIDE > len {
        return false;
    }
    let usn0 = rec[usa_off];
    let usn1 = rec[usa_off + 1];
    let ghost orig = rec@;
    let mut i: usize = 1;
    while i < usa_cnt
        invariant
            len == rec@.len() == orig.len(),
            orig == old(rec)@,
            usa_header_ok(orig),
            usa_off == le16(orig, 4),
            usa_cnt == le16(orig, 6),
            usn0 == orig[usa_off as int],
            usn1 == orig[usa_off + 1],
            1 <= i <= usa_cnt,
            fixup_from(rec@, usn0, usn1, usa_off as int, i as int, usa_cnt as int)
                == spec_apply_fixups(orig),
        decreases usa_cnt - i,
    {
        let end = i * USA_STRIDE;
        if rec[end - 2] != usn0 || rec[end - 1] != usn1 {
            return false;
        }
        let a = rec[usa_off + 2 * i];
        rec[end - 2] = a;
        let b = rec[usa_off + 2 * i + 1];
        rec[end - 1] = b;
        i += 1;
    }
    true
}

// --- attributes -------------------------------------------------------------

/// Header fields of one attribute and where it lies in its record.
pub struct AttrView {
    pub kind: u32,
    pub non_resident: bool,
    pub name_len: u8,
    pub flags: u16,
    /// Offset of the attribute in the record.
    pub start: int,
    /// Length of the whole attribute (header and value or mapping pairs).
    pub len: int,
}

/// Attributes from offset `p` up to `used`, stopping at the end marker or
/// at the first one that does not fit.
pub open spec fn attrs_from(rec: Seq<u8>, p: int, used: int) -> Seq<AttrView>
    decreases used - p,
{
    if p < 0 || p + 0x10 > used {
        Seq::empty()
    } else if le32(rec, p) == 0xFFFF_FFFF {
        Seq::empty()
    } else if le32(rec, p + 4) < 0x10 || p + le32(rec, p + 4) > used {
        Seq::empty()
    } else {
        let len = le32(rec, p + 4) as int;
        seq![
            AttrView {
                kind: le32(rec, p) as u32,
                non_resident: rec[p + 8] != 0,
                name_len: rec[p + 9],
                flags: le16(rec, p + 0x0C) as u16,
                start: p,
                len,
            },
        ] + attrs_from(rec, p + len, used)
    }
}

/// Number of bytes of the record in use, as the header says, capped by its
/// length.
pub open spec fn bytes_in_use(rec: Seq<u8>) -> int {
    if le32(rec, 0x18) < rec.len() {
        le32(rec, 0x18) as int
    } else {
        rec.len() as int
    }
}

/// The attributes of a record, in order.
pub open spec fn spec_attributes(rec: Seq<u8>) -> Seq<AttrView> {
    attrs_from(rec, le16(rec, 0x14) as int, bytes_in_use(rec))
}

/// One attribute of a record.
pub struct Attr<'a> {
    pub kind: u32,
    pub non_resident: bool,
    pub name_len: u8,
    pub flags: u16,
    /// The whole attribute (header + value / mapping pairs).
    pub header: &'a [u8],
}

/// The attribute `a` as read from `rec`.
pub open spec fn attr_matches(a: Attr, v: AttrView, rec: Seq<u8>) -> bool {
    &&& a.kind == v.kind
    &&& a.non_resident == v.non_resident
    &&& a.name_len == v.name_len
    &&& a.flags == v.flags
    &&& 0 <= v.start <= v.start + v.len <= rec.len()
    &&& a.header@ == rec.subrange(v.start, v.start + v.len)
}

proof fn lemma_attrs_in_bounds(rec: Seq<u8>, p: int, used: int)
    requires
        used <= rec.len(),
    ensures
        forall|j: int|
            0 <= j < attrs_from(rec, p, used).len() ==> {
                let v = #[trigger] attrs_from(rec, p, used)[j];
                0 <= v.start && v.start + v.len <= used && v.len >= 0x10
            },
    decreases used - p,
{
    if !(p < 0 || p + 0x10 > used) && le32(rec, p) != 0xFFFF_FFFF && !(le32(rec, p + 4) < 0x10
        || p + le32(rec, p + 4) > used) {
        let len = le32(rec, p + 4) as int;
        lemma_attrs_in_bounds(rec, p + len, used);
        let s = attrs_from(rec, p, used);
        assert forall|j: int| 0 <= j < s.len() implies {
            let v = #[trigger] s[j];
            0 <= v.start && v.start + v.len <= used && v.len >= 0x10
        } by {
            if j > 0 {
                assert(s[j] == attrs_from(rec, p + len, used)[j - 1]);
            }
        }
    }
}

/// The attributes of a record, in order.
pub fn attributes(rec: &[u8]) -> (r: Vec<Attr<'_>>)
    requires
        rec@.len() >= 0x1C,
    ensures
        r@.len() == spec_attributes(rec@).len(),
        forall|j: int| 0 <= j < r@.len() ==> attr_matches(#[trigger] r@[j], spec_attributes(rec@)[j], rec@),
{
    let rlen = rec.len();
    let declared = u32le(rec, 0x18) as usize;
    let used = if declared < rlen {
        declared
    } else {
        rlen
    };
    let mut p = u16le(rec, 0x14) as usize;
    let ghost used_i = bytes_in_use(rec@);
    let ghost all = spec_attributes(rec@);
    proof {
        lemma_attrs_in_bounds(rec@, p as int, used as int);
    }
    let mut out: Vec<Attr<'_>> = Vec::new();
    let ghost mut views: Seq<AttrView> = Seq::empty();
    loop
        invariant
            rlen == rec@.len(),
            used == used_i,
            used <= rlen,
            all == spec_attributes(rec@),
            views.len() == out@.len(),
            all == views + attrs_from(rec@, p as int, used as int),
            forall|j: int| 0 <= j < out@.len() ==> attr_matches(#[trigger] out@[j], all[j], rec@),
        ensures
            out@.len() == all.len(),
            forall|j: int| 0 <= j < out@.len() ==> attr_matches(#[trigger] out@[j], all[j], rec@),
        decreases used - p,
    {
        proof {
            lemma_attrs_in_bounds(rec@, p as int, used as int);
        }
        if p > used || used - p < 0x10 {
            assert(attrs_from(rec@, p as int, used as int) =~= Seq::<AttrView>::empty());
            assert(all =~= views);
            break;
        }
        let kind = u32le(rec, p);
        if kind == ATTR_END {
            assert(all =~= views);
            break;
        }
        let len = u32le(rec, p + 4) as usize;
        if len < 0x10 || len > used - p {
            assert(all =~= views);
            break;
        }
        let ghost rest = attrs_from(rec@, p + len, used as int);
        let a = Attr {
            kind,
            non_resident: rec[p + 8] != 0,
            name_len: rec[p + 9],
            flags: u16le(rec, p + 0x0C),
            header: &rec[p..p + len],
        };
        proof {
            let v = attrs_from(rec@, p as int, used as int)[0];
            assert(attr_matches(a, v, rec@));
            assert(attrs_from(rec@, p as int, used as int) == seq![v] + rest);
            assert(views + (seq![v] + rest) =~= views.push(v) + rest);
            assert(all[views.len() as int] == v);
            views = views.push(v);
        }
        out.push(a);
        p = p + len;
    }
    out
}

/// The value of a resident attribute (empty when it does not fit).
pub open spec fn attr_value(h: Seq<u8>) -> Seq<u8> {
    if h.len() < 0x18 {
        Seq::empty()
    } else {
        let len = le32(h, 0x10) as int;
        let off = le16(h, 0x14) as int;
        if off + len <= h.len() {
            h.subrange(off, off + len)
        } else {
            Seq::empty()
        }
    }
}

/// The first virtual cluster number a non-resident attribute covers.
pub open spec fn attr_lowest_vcn(h: Seq<u8>) -> nat {
    if h.len() >= 0x18 {
        le64(h, 0x10)
    } else {
        0
    }
}

/// The mapping pairs of a non-resident attribute (empty when absent).
pub open spec fn attr_mapping_pairs(h: Seq<u8>) -> Seq<u8> {
    if h.len() < 0x22 {
        Seq::empty()
    } else {
        let off = le16(h, 0x20) as int;
        if off <= h.len() {
            h.subrange(off, h.len() as int)
        } else {
            Seq::empty()
        }
    }
}

impl<'a> Attr<'a> {
    pub fn value(&self) -> (v: &'a [u8])
        ensures
            v@ == attr_value(self.header@),
    {
        let h = self.header;
        if h.len() < 0x18 {
            return &[];
        }
        let len = u32le(h, 0x10) as usize;
        let off = u16le(h, 0x14) as usize;
        if off <= h.len() && len <= h.len() - off {
            &h[off..off + len]
        } else {
            &[]
        }
    }

    pub fn lowest_vcn(&self) -> (v: u64)
        ensures
            v == attr_lowest_vcn(self.header@),
    {
        if self.header.len() >= 0x18 {
            u64le(self.header, 0x10)
        } else {
            0
        }
    }

    pub fn mapping_pairs(&self) -> (v: &'a [u8])
        ensures
            v@ == attr_mapping_pairs(self.header@),
    {
        let h = self.header;
        if h.len() < 0x22 {
            return &[];
        }
        let off = u16le(h, 0x20) as usize;
        if off <= h.len() {
            &h[off..h.len()]
        } else {
            &[]
        }
    }
}

// --- data runs --------------------------------------------------------------

/// Why a run list could not be decoded.
#[derive(Clone, Copy, Debug, PartialEq, Eq, Structural)]
pub enum RunError {
    /// A run header with no length bytes, or more than eight length or
    /// offset bytes.
    BadHeader(u8),
    /// A run whose bytes go past the end of the list.
    Truncated,
    /// A run that starts before the first cluster of the volume, or past the
    /// largest signed 64-bit cluster number.
    NegativeLcn,
}

/// The `n`-byte two's complement value whose unsigned reading is `raw`.
pub open spec fn sign_extend(raw: nat, n: nat) -> int {
    if 2 * raw >= pow256(n) {
        raw - pow256(n)
    } else {
        raw as int
    }
}

/// Runs `r` placed after `done`, or the error unchanged.
pub open spec fn after_runs(done: Seq<(u64, u64)>, r: Result<Seq<(u64, u64)>, RunError>) -> Result<
    Seq<(u64, u64)>,
    RunError,
> {
    match r {
        Ok(s) => Ok(done + s),
        Err(e) => Err(e),
    }
}

/// Absolute `(lcn, clusters)` runs of the mapping pairs `p`, the previous
/// run starting at `lcn`. Each run header gives the number of length bytes
/// (low nibble) and offset bytes (high nibble); the offset is relative to
/// the previous run. A run without offset bytes is sparse and skipped; a
/// zero header or the end of the bytes ends the list.
pub open spec fn runs_from(p: Seq<u8>, lcn: int) -> Result<Seq<(u64, u64)>, RunError>
    decreases p.len(),
{
    if p.len() == 0 || p[0] == 0 {
        Ok(Seq::empty())
    } else {
        let h = p[0];
        let len_n = (h % 16) as nat;
        let off_n = (h / 16) as nat;
        if !(len_n > 0 && len_n <= 8 && off_n <= 8) {
            Err(RunError::BadHeader(h))
        } else if !(p.len() > len_n + off_n) {
            Err(RunError::Truncated)
        } else {
            let len = le(p, 1, len_n);
            let rest = p.subrange(1 + len_n + off_n as int, p.len() as int);
            if off_n > 0 {
                let next = lcn + sign_extend(le(p, 1 + len_n as int, off_n), off_n);
                if next < 0 || next > i64::MAX {
                    Err(RunError::NegativeLcn)
                } else {
                    after_runs(seq![(next as u64, len as u64)], runs_from(rest, next))
                }
            } else {
                runs_from(rest, lcn)
            }
        }
    }
}

/// A sparse run (a header with length bytes and no offset bytes) changes
/// nothing: in front of any mapping pairs, at any running LCN, it leaves the
/// decoded runs as they were, so the run after it is still placed relative
/// to the run before it.
pub proof fn law_sparse_run_skipped(len_bytes: Seq<u8>, rest: Seq<u8>, lcn: int)
    requires
        1 <= len_bytes.len() <= 8,
    ensures
        runs_from(seq![len_bytes.len() as u8] + len_bytes + rest, lcn) == runs_from(rest, lcn),
{
    let p = seq![len_bytes.len() as u8] + len_bytes + rest;
    let n = len_bytes.len();
    assert(p[0] == n as u8);
    assert((n as u8) % 16 == n && (n as u8) / 16 == 0);
    assert(p.subrange(1 + n as int, p.len() as int) =~= rest);
}

/// The decoded runs as a sequence.
pub open spec fn runs_view(r: Result<Vec<(u64, u64)>, RunError>) -> Result<Seq<(u64, u64)>, RunError> {
    match r {
        Ok(v) => Ok(v@),
        Err(e) => Err(e),
    }
}

fn pow256_exec(n: usize) -> (r: u128)
    requires
        n <= 8,
    ensures
        r == pow256(n as nat),
{
    let mut r: u128 = 1;
    let mut i: usize = 0;
    proof {
        lemma_pow256_values();
    }
    while i < n
        invariant
            i <= n <= 8,
            r == pow256(i as nat),
            pow256(8) == 0x1_0000_0000_0000_0000,
        decreases n - i,
    {
        proof {
            crate::scan::bytes::lemma_pow256_monotone(i as nat, 7);
            lemma_pow256_values();
        }
        r = r * 256;
        i += 1;
    }
    r
}

proof fn lemma_after_runs_assoc(a: Seq<(u64, u64)>, b: Seq<(u64, u64)>, r: Result<Seq<(u64, u64)>, RunError>)
    ensures
        after_runs(a, after_runs(b, r)) == after_runs(a + b, r),
{
    match r {
        Ok(s) => {
            assert(a + (b + s) =~= (a + b) + s);
        },
        Err(e) => {},
    }
}

/// Decode NTFS mapping pairs into absolute `(lcn, clusters)` runs. Sparse
/// runs (no offset) are skipped.
pub fn decode_runs(p: &[u8]) -> (r: Result<Vec<(u64, u64)>, RunError>)
    ensures
        runs_view(r) == runs_from(p@, 0),
{
    let n = p.len();
    let mut runs: Vec<(u64, u64)> = Vec::new();
    let mut lcn: i64 = 0;
    let mut pos: usize = 0;
    proof {
        assert(p@.subrange(0, n as int) =~= p@);
        assert(runs@ + Seq::<(u64, u64)>::empty() =~= Seq::<(u64, u64)>::empty());
        match runs_from(p@, 0) {
            Ok(s) => assert(runs@ + s =~= s),
            Err(e) => {},
        }
    }
    while pos < n && p[pos] != 0
        invariant
            n == p@.len(),
            pos <= n,
            lcn >= 0,
            runs_from(p@, 0) == after_runs(runs@, runs_from(p@.subrange(pos as int, n as int), lcn as int)),
        decreases n - pos,
    {
        let ghost q = p@.subrange(pos as int, n as int);
        let ghost lcn0 = lcn as int;
        let ghost runs0 = runs@;
        let h = p[pos];
        let len_n = (h % 16) as usize;
        let off_n = (h / 16) as usize;
        if !(len_n > 0 && len_n <= 8 && off_n <= 8) {
            return Err(RunError::BadHeader(h));
        }
        if !(n - pos > len_n + off_n) {
            return Err(RunError::Truncated);
        }
        proof {
            lemma_le_subrange(p@, pos as int, n as int, 1, len_n as nat);
            lemma_le_subrange(p@, pos as int, n as int, 1 + len_n, off_n as nat);
            assert(q.subrange(1 + len_n + off_n, q.len() as int) =~= p@.subrange(
                pos + 1 + len_n + off_n,
                n as int,
            ));
        }
        let len = le_bytes(p, pos + 1, len_n);
        if off_n > 0 {
            let raw = le_bytes(p, pos + 1 + len_n, off_n);
            let full = pow256_exec(off_n);
            proof {
                lemma_le_bound(p@, pos + 1 + len_n, off_n as nat);
                lemma_pow256_values();
                crate::scan::bytes::lemma_pow256_monotone(off_n as nat, 8);
            }
            let rawi = raw as i128;
            let fulli = full as i128;
            let off: i128 = if 2 * rawi >= fulli {
                rawi - fulli
            } else {
                rawi
            };
            let next: i128 = lcn as i128 + off;
            if next < 0 || next > i64::MAX as i128 {
                return Err(RunError::NegativeLcn);
            }
            lcn = next as i64;
            proof {
                lemma_after_runs_assoc(
                    runs@,
                    seq![(lcn as u64, len)],
                    runs_from(p@.subrange(pos + 1 + len_n + off_n, n as int), lcn as int),
                );
            }
            runs.push((lcn as u64, len));
            proof {
                assert(runs@ =~= runs0 + seq![(lcn as u64, len)]);
                assert(q[0] == h);
                assert(runs_from(q, lcn0) == after_runs(
                    seq![(lcn as u64, len)],
                    runs_from(p@.subrange(pos + 1 + len_n + off_n, n as int), lcn as int),
                ));
            }
        } else {
            proof {
                assert(q[0] == h);
                assert(runs_from(q, lcn0) == runs_from(
                    p@.subrange(pos + 1 + len_n + off_n, n as int),
                    lcn as int,
                ));
            }
        }
        pos = pos + 1 + len_n + off_n;
    }
    proof {
        assert(runs_from(p@.subrange(pos as int, n as int), lcn as int) == Ok::<Seq<(u64, u64)>, RunError>(
            Seq::empty(),
        ));
        assert(runs@ + Seq::<(u64, u64)>::empty() =~= runs@);
    }
    Ok(runs)
}

// --- file records -----------------------------------------------------------

/// Parsed contents of one file record (or an extension record).
#[derive(Clone, Debug)]
pub struct Rec {
    pub in_use: bool,
    pub is_dir: bool,
    /// Base record number for extension records, 0 for base records.
    pub base: u32,
    pub parent: u32,
    /// First non-DOS name (DOS 8.3 aliases are never kept).
    pub name: Option<String>,
    pub has_data: bool,
    pub size: u64,
    pub alloc: u64,
}

/// Abstract value of a [`Rec`].
pub struct RecView {
    pub in_use: bool,
    pub is_dir: bool,
    pub base: u32,
    pub parent: u32,
    pub name: Option<Seq<char>>,
    pub has_data: bool,
    pub size: u64,
    pub alloc: u64,
}

impl View for Rec {
    type V = RecView;

    open spec fn view(&self) -> RecView {
        RecView {
            in_use: self.in_use,
            is_dir: self.is_dir,
            base: self.base,
            parent: self.parent,
            name: match self.name {
                Some(n) => Some(n@),
                None => None,
            },
            has_data: self.has_data,
            size: self.size,
            alloc: self.alloc,
        }
    }
}

/// The record of a free, unreadable or taken-over entry.
pub open spec fn empty_rec() -> RecView {
    RecView {
        in_use: false,
        is_dir: false,
        base: 0,
        parent: 0,
        name: None,
        has_data: false,
        size: 0,
        alloc: 0,
    }
}

impl Default for Rec {
    fn default() -> (r: Self)
        ensures
            r@ == empty_rec(),
    {
        Rec {
            in_use: false,
            is_dir: false,
            base: 0,
            parent: 0,
            name: None,
            has_data: false,
            size: 0,
            alloc: 0,
        }
    }
}

/// The `n` little-endian 16-bit units of `v` starting at `o`.
pub open spec fn units_of(v: Seq<u8>, o: int, n: nat) -> Seq<u16> {
    Seq::new(n, |i: int| le16(v, o + 2 * i) as u16)
}

/// Low 32 bits of a 48-bit file reference (record number and sequence
/// number packed in 64 bits).
pub open spec fn record_number(reference: nat) -> u32 {
    (reference % 0x1_0000_0000) as u32
}

/// What one attribute (kind, residency, name length, flags, whole bytes
/// `h`) contributes to the record `r` parsed so far.
pub open spec fn attr_effect(kind: u32, non_resident: bool, name_len: u8, flags: u16, h: Seq<u8>, r: RecView) -> RecView {
    if kind == ATTR_FILE_NAME && !non_resident {
        let v = attr_value(h);
        if v.len() < 0x42 || v[0x41] == NS_DOS || r.name is Some {
            r
        } else if v.len() < 0x42 + 2 * v[0x40] {
            r
        } else {
            RecView {
                parent: record_number(le64(v, 0)),
                name: Some(decode_utf16(units_of(v, 0x42, v[0x40] as nat))),
                ..r
            }
        }
    } else if kind == ATTR_DATA && name_len == 0 {
        if non_resident {
            // Sizes are only valid in the first extent.
            if attr_lowest_vcn(h) != 0 || h.len() < 0x40 {
                r
            } else {
                RecView {
                    size: le64(h, 0x30) as u64,
                    alloc: if flags & (ATTR_FLAG_COMPRESSED | ATTR_FLAG_SPARSE) != 0 && h.len() >= 0x48 {
                        le64(h, 0x40) as u64
                    } else {
                        le64(h, 0x28) as u64
                    },
                    has_data: true,
                    ..r
                }
            }
        } else {
            // Resident data lives inside the MFT record: no clusters.
            RecView { size: attr_value(h).len() as u64, alloc: 0, has_data: true, ..r }
        }
    } else {
        r
    }
}

/// The record `r0` after the first `k` attributes of `attrs`.
pub open spec fn apply_attrs(s: Seq<u8>, attrs: Seq<AttrView>, k: nat, r0: RecView) -> RecView
    decreases k,
{
    if k == 0 || k > attrs.len() {
        r0
    } else {
        let a = attrs[k - 1];
        attr_effect(
            a.kind,
            a.non_resident,
            a.name_len,
            a.flags,
            s.subrange(a.start, a.start + a.len),
            apply_attrs(s, attrs, (k - 1) as nat, r0),
        )
    }
}

/// Only the unnamed `$DATA` attribute sets a record's sizes: an attribute
/// with a name (such as an alternate data stream `Zone.Identifier`) that
/// follows the first `k - 1` attributes leaves the size, the allocated size
/// and whether the record has data as they were.
pub proof fn law_named_attribute_keeps_sizes(s: Seq<u8>, attrs: Seq<AttrView>, k: nat, r0: RecView)
    requires
        0 < k <= attrs.len(),
        attrs[k - 1].name_len != 0,
    ensures
        apply_attrs(s, attrs, k, r0).size == apply_attrs(s, attrs, (k - 1) as nat, r0).size,
        apply_attrs(s, attrs, k, r0).alloc == apply_attrs(s, attrs, (k - 1) as nat, r0).alloc,
        apply_attrs(s, attrs, k, r0).has_data == apply_attrs(s, attrs, (k - 1) as nat, r0).has_data,
{
}

/// The contents of the intact, fixed-up record `s`.
pub open spec fn record_of(s: Seq<u8>) -> RecView {
    let flags = le16(s, 0x16) as u16;
    if flags & REC_IN_USE == 0 {
        empty_rec()
    } else {
        let r0 = RecView {
            in_use: true,
            is_dir: flags & REC_DIRECTORY != 0,
            base: record_number(le64(s, 0x20)),
            ..empty_rec()
        };
        apply_attrs(s, spec_attributes(s), spec_attributes(s).len(), r0)
    }
}

/// The record starts with the `FILE` signature and holds a full header.
pub open spec fn has_file_header(raw: Seq<u8>) -> bool {
    raw.len() >= 0x30 && raw[0] == 0x46 && raw[1] == 0x49 && raw[2] == 0x4C && raw[3] == 0x45
}

/// The bytes of `raw` after parsing: fixed up when it has a file header.
pub open spec fn parsed_bytes(raw: Seq<u8>) -> Seq<u8> {
    if has_file_header(raw) {
        spec_apply_fixups(raw).0
    } else {
        raw
    }
}

/// What `raw` holds: the contents of an intact record in use, else nothing.
pub open spec fn spec_parse_record(raw: Seq<u8>) -> RecView {
    if has_file_header(raw) && spec_apply_fixups(raw).1 {
        record_of(spec_apply_fixups(raw).0)
    } else {
        empty_rec()
    }
}

/// The `n` little-endian 16-bit units of `v` starting at `o`.
fn read_units(v: &[u8], o: usize, n: usize) -> (u: Vec<u16>)
    requires
        o + 2 * n <= v@.len(),
    ensures
        u@ == units_of(v@, o as int, n as nat),
{
    let vlen = v.len();
    let mut u: Vec<u16> = Vec::new();
    let mut i: usize = 0;
    while i < n
        invariant
            i <= n,
            vlen == v@.len(),
            o + 2 * n <= v@.len(),
            u@.len() == i,
            forall|j: int| 0 <= j < i ==> u@[j] == units_of(v@, o as int, n as nat)[j],
        decreases n - i,
    {
        u.push(u16le(v, o + 2 * i));
        i += 1;
    }
    assert(u@ =~= units_of(v@, o as int, n as nat));
    u
}

/// Add what the attribute `a` says to the record `r`.
fn take_attr(r: &mut Rec, a: &Attr)
    ensures
        final(r)@ == attr_effect(a.kind, a.non_resident, a.name_len, a.flags, a.header@, old(r)@),
{
    if a.kind == ATTR_FILE_NAME && !a.non_resident {
        let v = a.value();
        if v.len() < 0x42 {
            return;
        }
        let ns = v[0x41];
        if ns == NS_DOS || r.name.is_some() {
            return;
        }
        let n = v[0x40] as usize;
        if v.len() < 0x42 + 2 * n {
            return;
        }
        let units = read_units(v, 0x42, n);
        let name = decode_utf16_units(units.as_slice());
        r.parent = (u64le(v, 0) % 0x1_0000_0000) as u32;
        r.name = Some(name);
    } else if a.kind == ATTR_DATA && a.name_len == 0 {
        if a.non_resident {
            // Sizes are only valid in the first extent.
            if a.lowest_vcn() != 0 {
                return;
            }
            let h = a.header;
            if h.len() < 0x40 {
                return;
            }
            r.size = u64le(h, 0x30);
            r.alloc = if a.flags & (ATTR_FLAG_COMPRESSED | ATTR_FLAG_SPARSE) != 0 && h.len() >= 0x48 {
                u64le(h, 0x40)
            } else {
                u64le(h, 0x28)
            };
        } else {
            // Resident data lives inside the MFT record: no clusters.
            r.size = a.value().len() as u64;
            r.alloc = 0;
        }
        r.has_data = true;
    }
}

/// Parse one file record in place (its update sequence array is applied).
pub fn parse_record(raw: &mut [u8]) -> (r: Rec)
    ensures
        final(raw)@ == parsed_bytes(old(raw)@),
        r@ == spec_parse_record(old(raw)@),
{
    let mut r = Rec::default();
    if raw.len() < 0x30 || raw[0] != 0x46 || raw[1] != 0x49 || raw[2] != 0x4C || raw[3] != 0x45 {
        return r;
    }
    if !apply_fixups(raw) {
        return r;
    }
    let flags = u16le(raw, 0x16);
    if flags & REC_IN_USE == 0 {
        return r;
    }
    r.in_use = true;
    r.is_dir = flags & REC_DIRECTORY != 0;
    r.base = (u64le(raw, 0x20) % 0x1_0000_0000) as u32;
    let ghost r0 = r@;
    let s: &[u8] = raw;
    let attrs = attributes(s);
    let ghost all = spec_attributes(s@);
    let mut i: usize = 0;
    while i < attrs.len()
        invariant
            i <= attrs@.len() == all.len(),
            all == spec_attributes(s@),
            forall|j: int| 0 <= j < attrs@.len() ==> attr_matches(#[trigger] attrs@[j], all[j], s@),
            r@ == apply_attrs(s@, all, i as nat, r0),
        decreases attrs@.len() - i,
    {
        assert(attr_matches(attrs@[i as int], all[i as int], s@));
        take_attr(&mut r, &attrs[i]);
        i += 1;
    }
    r
}

// --- extension records ------------------------------------------------------

/// The views of records.
pub open spec fn rec_views(recs: Seq<Rec>) -> Seq<RecView> {
    recs.map_values(|r: Rec| r@)
}

/// A record in use that extends another (base) record.
pub open spec fn is_extension(r: RecView) -> bool {
    r.in_use && r.base != 0
}

/// The base record `b` with what its extension `e` adds: a name (with its
/// parent) when `b` has none, and sizes when `b` has no data.
pub open spec fn merged_into(b: RecView, e: RecView) -> RecView {
    let b1 = if b.name is None && e.name is Some {
        RecView { name: e.name, parent: e.parent, ..b }
    } else {
        b
    };
    if !b1.has_data && e.has_data {
        RecView { has_data: true, size: e.size, alloc: e.alloc, ..b1 }
    } else {
        b1
    }
}

/// Fold record `i` into its base record (when that exists and is in use),
/// leaving `i` empty.
pub open spec fn merge_step(recs: Seq<RecView>, i: int) -> Seq<RecView> {
    let base = recs[i].base as int;
    if base >= recs.len() || !recs[base].in_use {
        recs
    } else {
        let e = recs[i];
        let r1 = recs.update(i, empty_rec());
        r1.update(base, merged_into(r1[base], e))
    }
}

/// The records after folding, in index order, every record among the first
/// `k` that was an extension record in `orig`.
pub open spec fn merge_upto(orig: Seq<RecView>, k: int) -> Seq<RecView>
    decreases k,
{
    if k <= 0 {
        orig
    } else {
        let prev = merge_upto(orig, k - 1);
        if is_extension(orig[k - 1]) {
            merge_step(prev, k - 1)
        } else {
            prev
        }
    }
}

proof fn lemma_merge_upto_len(orig: Seq<RecView>, k: int)
    requires
        k <= orig.len(),
    ensures
        merge_upto(orig, k).len() == orig.len(),
    decreases k,
{
    if k > 0 {
        lemma_merge_upto_len(orig, k - 1);
    }
}

/// Fold names and sizes found in extension records into their base record.
pub fn merge_extensions(recs: &mut [Rec])
    ensures
        rec_views(final(recs)@) == merge_upto(rec_views(old(recs)@), old(recs)@.len() as int),
{
    let n = recs.len();
    let ghost orig = rec_views(recs@);
    let mut ext: Vec<bool> = Vec::new();
    let mut k: usize = 0;
    while k < n
        invariant
            n == recs@.len(),
            orig == rec_views(recs@),
            k <= n,
            ext@.len() == k,
            forall|j: int| 0 <= j < k ==> ext@[j] == is_extension(orig[j]),
        decreases n - k,
    {
        ext.push(recs[k].in_use && recs[k].base != 0);
        k += 1;
    }
    let mut i: usize = 0;
    while i < n
        invariant
            n == recs@.len() == orig.len(),
            ext@.len() == n,
            forall|j: int| 0 <= j < n ==> ext@[j] == is_extension(orig[j]),
            i <= n,
            rec_views(recs@) == merge_upto(orig, i as int),
        decreases n - i,
    {
        proof {
            lemma_merge_upto_len(orig, i as int);
        }
        if ext[i] {
            let ghost before = rec_views(recs@);
            let base = recs[i].base as usize;
            if base < n && recs[base].in_use {
                let e_name = recs[i].name.take();
                let e_parent = recs[i].parent;
                let e_has_data = recs[i].has_data;
                let e_size = recs[i].size;
                let e_alloc = recs[i].alloc;
                recs[i] = Rec::default();
                if recs[base].name.is_none() && e_name.is_some() {
                    recs[base].name = e_name;
                    recs[base].parent = e_parent;
                }
                if !recs[base].has_data && e_has_data {
                    recs[base].has_data = true;
                    recs[base].size = e_size;
                    recs[base].alloc = e_alloc;
                }
            }
            proof {
                assert(rec_views(recs@) =~= merge_step(before, i as int));
            }
        }
        i += 1;
    }
}

// --- the tree ---------------------------------------------------------------

/// Record `c` is listed under directory record `p`: a named base record in
/// use, other than the root, whose parent `p` is a directory record in use.
pub open spec fn linked(recs: Seq<RecView>, c: int, p: int) -> bool {
    &&& c != ROOT_RECORD
    &&& recs[c].in_use
    &&& recs[c].base == 0
    &&& recs[c].name is Some
    &&& recs[c].parent == p
    &&& p < recs.len()
    &&& recs[p].in_use
    &&& recs[p].is_dir
}

/// Records among the first `k` listed under `p`, in index order.
pub open spec fn kids_upto(recs: Seq<RecView>, p: int, k: int) -> Seq<u32>
    decreases k,
{
    if k <= 0 {
        Seq::empty()
    } else if linked(recs, k - 1, p) {
        kids_upto(recs, p, k - 1).push((k - 1) as u32)
    } else {
        kids_upto(recs, p, k - 1)
    }
}

/// Records listed under `p`, in index order.
pub open spec fn kids(recs: Seq<RecView>, p: int) -> Seq<u32> {
    kids_upto(recs, p, recs.len() as int)
}

/// The records of `ks` that are directories (`dirs`) or files (`!dirs`),
/// in order.
pub open spec fn pick(recs: Seq<RecView>, ks: Seq<u32>, dirs: bool) -> Seq<u32>
    decreases ks.len(),
{
    if ks.len() == 0 {
        Seq::empty()
    } else if recs[ks.last() as int].is_dir == dirs {
        pick(recs, ks.drop_last(), dirs).push(ks.last())
    } else {
        pick(recs, ks.drop_last(), dirs)
    }
}

/// The name of a record (empty when it has none).
pub open spec fn name_of(r: RecView) -> Seq<char> {
    match r.name {
        Some(n) => n,
        None => Seq::empty(),
    }
}

/// `f` is the file entry of record `r`.
pub open spec fn file_from(f: RawFile, r: RecView) -> bool {
    f.name@ == name_of(r) && f.size == r.size && f.alloc == r.alloc
}

/// `d` is the directory of record `id`, named `name`, at nesting `depth`:
/// its files and subdirectories are the records listed under `id`, in
/// record order, except below depth 512 (a guard against corrupted parent
/// links forming deep chains), where it is empty. Totals are not computed.
pub open spec fn built_as(d: RawDir, recs: Seq<RecView>, id: int, name: Seq<char>, depth: nat) -> bool
    decreases d,
{
    &&& d.name@ == name
    &&& d.size == 0 && d.alloc == 0 && d.file_count == 0 && d.dir_count == 0
    &&& if depth > 512 {
        d.files@.len() == 0 && d.subdirs@.len() == 0
    } else {
        let fk = pick(recs, kids(recs, id), false);
        let dk = pick(recs, kids(recs, id), true);
        &&& d.files@.len() == fk.len()
        &&& forall|j: int| 0 <= j < fk.len() ==> file_from(#[trigger] d.files@[j], recs[fk[j] as int])
        &&& d.subdirs@.len() == dk.len()
        &&& forall|j: int|
            0 <= j < dk.len() ==> built_as(
                #[trigger] d.subdirs@[j],
                recs,
                dk[j] as int,
                name_of(recs[dk[j] as int]),
                depth + 1,
            )
    }
}

proof fn lemma_kids_below(recs: Seq<RecView>, p: int, k: int)
    requires
        k <= 0x1_0000_0000,
    ensures
        forall|j: int| 0 <= j < kids_upto(recs, p, k).len() ==> #[trigger] kids_upto(recs, p, k)[j] < k,
    decreases k,
{
    if k > 0 {
        lemma_kids_below(recs, p, k - 1);
        let prev = kids_upto(recs, p, k - 1);
        if linked(recs, k - 1, p) {
            let cur = prev.push((k - 1) as u32);
            assert forall|j: int| 0 <= j < cur.len() implies #[trigger] cur[j] < k by {
                if j < prev.len() {
                    assert(cur[j] == prev[j]);
                }
            }
        }
    }
}

proof fn lemma_kids_members(recs: Seq<RecView>, p: int, k: int)
    requires
        0 <= k <= 0x1_0000_0000,
    ensures
        kids_upto(recs, p, k).no_duplicates(),
        forall|x: int|
            0 <= x < 0x1_0000_0000 ==> (#[trigger] kids_upto(recs, p, k).contains(x as u32) <==> (x < k && linked(
                recs,
                x,
                p,
            ))),
    decreases k,
{
    if k > 0 {
        lemma_kids_members(recs, p, k - 1);
        lemma_kids_below(recs, p, k - 1);
        let prev = kids_upto(recs, p, k - 1);
        if linked(recs, k - 1, p) {
            let cur = prev.push((k - 1) as u32);
            assert(!prev.contains((k - 1) as u32));
            assert forall|x: int| 0 <= x < 0x1_0000_0000 implies (#[trigger] cur.contains(x as u32) <==> (x < k
                && linked(recs, x, p))) by {
                if x == k - 1 {
                    assert(cur[prev.len() as int] == x as u32);
                    assert(cur.contains(x as u32));
                } else if cur.contains(x as u32) {
                    let j = choose|j: int| 0 <= j < cur.len() && cur[j] == x as u32;
                    assert(j < prev.len());
                    assert(prev[j] == x as u32);
                    assert(prev.contains(x as u32));
                } else if prev.contains(x as u32) {
                    let j = choose|j: int| 0 <= j < prev.len() && prev[j] == x as u32;
                    assert(cur[j] == x as u32);
                }
            }
            assert forall|a: int, b: int| 0 <= a < cur.len() && 0 <= b < cur.len() && a != b implies cur[a]
                != cur[b] by {
                if a < prev.len() && b < prev.len() {
                    assert(cur[a] == prev[a] && cur[b] == prev[b]);
                } else if a < prev.len() {
                    assert(cur[a] == prev[a]);
                    assert(prev[a] < k - 1);
                } else if b < prev.len() {
                    assert(cur[b] == prev[b]);
                    assert(prev[b] < k - 1);
                }
            }
        }
    }
}

/// Every named base record in use other than the root record, whose
/// parent is a directory record in use, is listed under that parent; the
/// metafiles in records 0 to 4 (`$MFT`, `$MFTMirr`, `$LogFile`, `$Volume`,
/// `$AttrDef`) among them.
pub proof fn law_base_records_listed(recs: Seq<RecView>, c: int)
    requires
        recs.len() <= 0x1_0000_0000,
        0 <= c < recs.len(),
        c != 5,
        recs[c].in_use,
        recs[c].base == 0,
        recs[c].name is Some,
        recs[c].parent < recs.len(),
        recs[recs[c].parent as int].in_use,
        recs[recs[c].parent as int].is_dir,
    ensures
        kids(recs, recs[c].parent as int).contains(c as u32),
{
    lemma_kids_members(recs, recs[c].parent as int, recs.len() as int);
}

/// Each record is listed once in the tree, under the one directory record
/// its parent link names: this is why a file with several hard links (one
/// record holding several names) is counted once.
pub proof fn law_record_listed_once(recs: Seq<RecView>, c: int, p: int, q: int)
    requires
        recs.len() <= 0x1_0000_0000,
        0 <= c < recs.len(),
    ensures
        kids(recs, p).no_duplicates(),
        kids(recs, p).contains(c as u32) <==> linked(recs, c, p),
        kids(recs, p).contains(c as u32) && kids(recs, q).contains(c as u32) ==> p == q,
{
    lemma_kids_members(recs, p, recs.len() as int);
    lemma_kids_members(recs, q, recs.len() as int);
    assert(kids(recs, p).contains(c as u32) <==> linked(recs, c, p));
    assert(kids(recs, q).contains(c as u32) <==> linked(recs, c, q));
}

proof fn lemma_pick_step(recs: Seq<RecView>, ks: Seq<u32>, j: int, dirs: bool)
    requires
        0 <= j < ks.len(),
    ensures
        pick(recs, ks.take(j + 1), dirs) == if recs[ks[j] as int].is_dir == dirs {
            pick(recs, ks.take(j), dirs).push(ks[j])
        } else {
            pick(recs, ks.take(j), dirs)
        },
{
    assert(ks.take(j + 1).drop_last() =~= ks.take(j));
    assert(ks.take(j + 1).last() == ks[j]);
}

/// The name of record `r`, copied.
fn name_copy(r: &Rec) -> (s: String)
    ensures
        s@ == name_of(r@),
{
    match &r.name {
        Some(n) => n.clone(),
        None => String::new(),
    }
}

fn build(recs: &Vec<Rec>, lists: &Vec<Vec<u32>>, id: usize, name: String, depth: u32) -> (d: RawDir)
    requires
        lists@.len() == recs@.len() <= 0x1_0000_0000,
        id < recs@.len(),
        depth <= 513,
        forall|p: int| 0 <= p < recs@.len() ==> (#[trigger] lists@[p])@ == kids(rec_views(recs@), p),
    ensures
        built_as(d, rec_views(recs@), id as int, name@, depth as nat),
    decreases 513 - depth,
{
    let ghost rv = rec_views(recs@);
    let mut d = RawDir::default();
    d.name = name;
    // Guard against corrupted parent links forming deep chains.
    if depth > 512 {
        return d;
    }
    let ks = &lists[id];
    let ghost ksv = ks@;
    proof {
        lemma_kids_below(rv, id as int, rv.len() as int);
    }
    let mut j: usize = 0;
    while j < ks.len()
        invariant
            lists@.len() == recs@.len() == rv.len() <= 0x1_0000_0000,
            rv == rec_views(recs@),
            id < recs@.len(),
            depth <= 512,
            forall|p: int| 0 <= p < recs@.len() ==> (#[trigger] lists@[p])@ == kids(rv, p),
            ksv == ks@,
            ksv == kids(rv, id as int),
            forall|i: int| 0 <= i < ksv.len() ==> #[trigger] ksv[i] < rv.len(),
            j <= ksv.len(),
            d.name@ == name@,
            d.size == 0 && d.alloc == 0 && d.file_count == 0 && d.dir_count == 0,
            d.files@.len() == pick(rv, ksv.take(j as int), false).len(),
            forall|i: int|
                0 <= i < d.files@.len() ==> file_from(
                    #[trigger] d.files@[i],
                    rv[pick(rv, ksv.take(j as int), false)[i] as int],
                ),
            d.subdirs@.len() == pick(rv, ksv.take(j as int), true).len(),
            forall|i: int|
                0 <= i < d.subdirs@.len() ==> built_as(
                    #[trigger] d.subdirs@[i],
                    rv,
                    pick(rv, ksv.take(j as int), true)[i] as int,
                    name_of(rv[pick(rv, ksv.take(j as int), true)[i] as int]),
                    (depth + 1) as nat,
                ),
        decreases ksv.len() - j,
    {
        let c = ks[j] as usize;
        proof {
            assert(ksv[j as int] < rv.len());
            lemma_pick_step(rv, ksv, j as int, false);
            lemma_pick_step(rv, ksv, j as int, true);
        }
        let r = &recs[c];
        let nm = name_copy(r);
        if r.is_dir {
            let sub = build(recs, lists, c, nm, depth + 1);
            d.subdirs.push(sub);
        } else {
            d.files.push(RawFile { name: nm, size: r.size, alloc: r.alloc });
        }
        j += 1;
    }
    proof {
        assert(ksv.take(ksv.len() as int) =~= ksv);
    }
    d
}

/// Link flat records into a nested tree rooted at record 5, the root named
/// after the volume letter (`X:`).
pub fn build_tree(recs: Vec<Rec>, letter: char) -> (d: RawDir)
    requires
        recs@.len() <= 0x1_0000_0000,
    ensures
        ROOT_RECORD < recs@.len() ==> built_as(d, rec_views(recs@), ROOT_RECORD as int, seq![letter, ':'], 0),
        ROOT_RECORD >= recs@.len() ==> {
            &&& d.name@ == seq![letter, ':']
            &&& d.files@.len() == 0 && d.subdirs@.len() == 0
            &&& d.size == 0 && d.alloc == 0 && d.file_count == 0 && d.dir_count == 0
        },
{
    let n = recs.len();
    let ghost rv = rec_views(recs@);
    let mut root_name = String::new();
    push_char(&mut root_name, letter);
    push_char(&mut root_name, ':');
    let root = ROOT_RECORD as usize;
    if root >= n {
        let mut d = RawDir::default();
        d.name = root_name;
        return d;
    }
    // Children lists, in record order.
    let mut lists: Vec<Vec<u32>> = Vec::new();
    let mut k: usize = 0;
    while k < n
        invariant
            k <= n,
            lists@.len() == k,
            forall|p: int| 0 <= p < k ==> (#[trigger] lists@[p])@ == Seq::<u32>::empty(),
        decreases n - k,
    {
        lists.push(Vec::new());
        k += 1;
    }
    let mut i: usize = 0;
    while i < n
        invariant
            n == recs@.len() <= 0x1_0000_0000,
            rv == rec_views(recs@),
            i <= n,
            lists@.len() == n,
            forall|p: int| 0 <= p < n ==> (#[trigger] lists@[p])@ == kids_upto(rv, p, i as int),
        decreases n - i,
    {
        let ghost before = lists@;
        proof {
            assert(rv[i as int] == recs@[i as int]@);
        }
        let r = &recs[i];
        if i as u32 != ROOT_RECORD && r.in_use && r.base == 0 && r.name.is_some() {
            let p = r.parent as usize;
            if p < n && recs[p].in_use && recs[p].is_dir {
                proof {
                    assert(rv[p as int] == recs@[p as int]@);
                    assert(linked(rv, i as int, p as int));
                }
                lists[p].push(i as u32);
                proof {
                    assert forall|q: int| 0 <= q < n implies (#[trigger] lists@[q])@ == kids_upto(
                        rv,
                        q,
                        i + 1,
                    ) by {
                        if q != p {
                            assert(lists@[q] == before[q]);
                            assert(!linked(rv, i as int, q));
                        }
                    }
                }
            } else {
                proof {
                    if p < n {
                        assert(rv[p as int] == recs@[p as int]@);
                    }
                    assert forall|q: int| 0 <= q < n implies (#[trigger] lists@[q])@ == kids_upto(
                        rv,
                        q,
                        i + 1,
                    ) by {
                        assert(!linked(rv, i as int, q));
                    }
                }
            }
        } else {
            proof {
                assert forall|q: int| 0 <= q < n implies (#[trigger] lists@[q])@ == kids_upto(
                    rv,
                    q,
                    i + 1,
                ) by {
                    assert(!linked(rv, i as int, q));
                }
            }
        }
        i += 1;
    }
    proof {
        assert(root_name@ =~= seq![letter, ':']);
    }
    build(&recs, &lists, root, root_name, 0)
}

// --- locating $MFT itself ---------------------------------------------------

/// One `$DATA` extent of `$MFT`: its first VCN and its runs.
pub type Extent = (u64, Vec<(u64, u64)>);

/// Why the runs of `$MFT` could not be found.
#[derive(Clone, Copy, Debug, PartialEq, Eq, Structural)]
pub enum MftError {
    /// Record 0 (`$MFT` itself) failed its update sequence check.
    CorruptRecord0,
    /// Record 0 has no unnamed non-resident `$DATA` attribute.
    NoData,
    /// A run list could not be decoded.
    Runs(RunError),
}

/// The NTFS geometry is one this reader handles: a power-of-two cluster
/// size and file records of 512 bytes to 64 KiB.
pub open spec fn geometry_ok(cluster: u64, rec_size: usize) -> bool {
    (exists|k: nat| #[trigger] vstd::arithmetic::power2::pow2(k) == cluster) && 512 <= rec_size <= 65536
}

/// Whether `cluster` is a power of two and `rec_size` a supported record
/// size.
pub fn check_geometry(cluster: u64, rec_size: usize) -> (ok: bool)
    ensures
        ok == geometry_ok(cluster, rec_size),
{
    let mut c = cluster;
    let ghost mut k: nat = 0;
    proof {
        vstd::arithmetic::power2::lemma2_to64();
    }
    while c > 1 && c % 2 == 0
        invariant
            c > 0 ==> cluster == c * vstd::arithmetic::power2::pow2(k),
            c == 0 ==> cluster == 0,
        decreases c,
    {
        proof {
            vstd::arithmetic::power2::lemma_pow2_unfold(k + 1);
            assert(c * vstd::arithmetic::power2::pow2(k) == (c / 2) * vstd::arithmetic::power2::pow2(k + 1))
                by (nonlinear_arith)
                requires
                    c % 2 == 0,
                    vstd::arithmetic::power2::pow2(k + 1) == 2 * vstd::arithmetic::power2::pow2(k),
            ;
            k = k + 1;
        }
        c = c / 2;
    }
    let pow = c == 1;
    proof {
        if pow {
            assert(vstd::arithmetic::power2::pow2(k) == cluster);
        } else {
            assert forall|j: nat| #[trigger] vstd::arithmetic::power2::pow2(j) != cluster by {
                lemma_not_pow2(cluster, c, k, j);
            }
        }
    }
    pow && rec_size >= 512 && rec_size <= 65536
}

proof fn lemma_not_pow2(cluster: u64, c: u64, k: nat, j: nat)
    requires
        c > 0 ==> cluster == c * vstd::arithmetic::power2::pow2(k),
        c == 0 ==> cluster == 0,
        !(c > 1 && c % 2 == 0),
        c != 1,
    ensures
        vstd::arithmetic::power2::pow2(j) != cluster,
    decreases j,
{
    vstd::arithmetic::power2::lemma_pow2_pos(j);
    if c > 0 {
        // c is odd and above 1: an odd factor above 1 divides the cluster size.
        vstd::arithmetic::power2::lemma_pow2_pos(k);
        if vstd::arithmetic::power2::pow2(j) == cluster {
            if j <= k {
                if j < k {
                    vstd::arithmetic::power2::lemma_pow2_strictly_increases(j, k);
                    assert(false) by (nonlinear_arith)
                        requires
                            c > 1,
                            vstd::arithmetic::power2::pow2(j) < vstd::arithmetic::power2::pow2(k),
                            cluster == c * vstd::arithmetic::power2::pow2(k),
                            vstd::arithmetic::power2::pow2(j) == cluster,
                            vstd::arithmetic::power2::pow2(k) > 0,
                    ;
                } else {
                    assert(false) by (nonlinear_arith)
                        requires
                            c > 1,
                            cluster == c * vstd::arithmetic::power2::pow2(k),
                            vstd::arithmetic::power2::pow2(j) == cluster,
                            vstd::arithmetic::power2::pow2(k) > 0,
                            j == k,
                    ;
                }
            } else {
                vstd::arithmetic::power2::lemma_pow2_adds(k, (j - k) as nat);
                let q = vstd::arithmetic::power2::pow2((j - k) as nat);
                assert(c == q) by (nonlinear_arith)
                    requires
                        cluster == c * vstd::arithmetic::power2::pow2(k),
                        vstd::arithmetic::power2::pow2(k) * q == cluster,
                        vstd::arithmetic::power2::pow2(k) > 0,
                ;
                vstd::arithmetic::power2::lemma_pow2_unfold((j - k) as nat);
                assert(q % 2 == 0);
            }
        }
    }
}

/// Segment numbers of the records listed in a resident `$ATTRIBUTE_LIST`
/// value from offset `p` on, for the `$DATA` entries.
pub open spec fn segments_from(v: Seq<u8>, p: int) -> Seq<u64>
    decreases v.len() - p,
{
    if p < 0 || p + 0x20 > v.len() || le16(v, p + 4) == 0 {
        Seq::empty()
    } else {
        let here = if le32(v, p) == ATTR_DATA {
            seq![(le64(v, p + 0x10) % 0x1_0000_0000_0000) as u64]
        } else {
            Seq::empty()
        };
        if p + le16(v, p + 4) > v.len() {
            here
        } else {
            here + segments_from(v, p + le16(v, p + 4))
        }
    }
}

/// Segment numbers of records holding `$DATA` extents, from a resident
/// `$ATTRIBUTE_LIST` value.
pub fn attribute_list_data_segments(v: &[u8]) -> (out: Vec<u64>)
    ensures
        out@ == segments_from(v@, 0),
{
    let n = v.len();
    let mut out: Vec<u64> = Vec::new();
    let mut p: usize = 0;
    while p <= n && n - p >= 0x20
        invariant
            n == v@.len(),
            segments_from(v@, 0) == out@ + segments_from(v@, p as int),
        decreases n - p,
    {
        let ghost before = out@;
        let kind = u32le(v, p);
        let len = u16le(v, p + 4) as usize;
        if len == 0 {
            proof {
                assert(segments_from(v@, p as int) =~= Seq::<u64>::empty());
                assert(out@ + Seq::<u64>::empty() =~= out@);
            }
            return out;
        }
        let ghost here = if le32(v@, p as int) == ATTR_DATA {
            seq![(le64(v@, p + 0x10) % 0x1_0000_0000_0000) as u64]
        } else {
            Seq::<u64>::empty()
        };
        if kind == ATTR_DATA {
            out.push(u64le(v, p + 0x10) % 0x1_0000_0000_0000);
        }
        proof {
            assert(out@ == before + here);
        }
        if len > n - p {
            proof {
                assert(segments_from(v@, p as int) == here);
            }
            return out;
        }
        proof {
            assert(before + (here + segments_from(v@, p + len)) =~= out@ + segments_from(v@, p + len));
        }
        p += len;
    }
    proof {
        assert(segments_from(v@, p as int) =~= Seq::<u64>::empty());
        assert(out@ + Seq::<u64>::empty() =~= out@);
    }
    out
}

/// Disk offset of byte `off` of a stream stored in `runs` (clusters of
/// `cluster` bytes), if the runs cover it.
pub open spec fn spec_vcn_byte_to_disk(runs: Seq<(u64, u64)>, off: int, cluster: int) -> Option<int>
    decreases runs.len(),
{
    if runs.len() == 0 {
        None
    } else {
        let bytes = runs[0].1 * cluster;
        if off < bytes {
            Some(runs[0].0 * cluster + off)
        } else {
            spec_vcn_byte_to_disk(runs.drop_first(), off - bytes, cluster)
        }
    }
}

/// The offset as a `u64`, when there is one and it fits.
pub open spec fn fits_u64(o: Option<int>) -> Option<u64> {
    match o {
        Some(x) => if 0 <= x <= u64::MAX {
            Some(x as u64)
        } else {
            None
        },
        None => None,
    }
}

/// Disk offset of byte `off` of a stream stored in `runs`; `None` when the
/// runs end before it (or the offset does not fit 64 bits).
pub fn vcn_byte_to_disk(runs: &[(u64, u64)], off: u64, cluster: u64) -> (r: Option<u64>)
    ensures
        r == fits_u64(spec_vcn_byte_to_disk(runs@, off as int, cluster as int)),
{
    let n = runs.len();
    let mut rem: u128 = off as u128;
    let c: u128 = cluster as u128;
    let mut i: usize = 0;
    proof {
        assert(runs@.subrange(0, n as int) =~= runs@);
    }
    while i < n
        invariant
            n == runs@.len(),
            i <= n,
            c == cluster,
            rem <= u64::MAX,
            spec_vcn_byte_to_disk(runs@, off as int, cluster as int)
                == spec_vcn_byte_to_disk(runs@.subrange(i as int, n as int), rem as int, cluster as int),
        decreases n - i,
    {
        let (lcn, len) = runs[i];
        proof {
            assert((len as int) * (cluster as int) <= u64::MAX * u64::MAX) by (nonlinear_arith);
            assert((lcn as int) * (cluster as int) <= u64::MAX * u64::MAX) by (nonlinear_arith);
        }
        let bytes: u128 = len as u128 * c;
        let ghost rest = runs@.subrange(i as int, n as int);
        if rem < bytes {
            let disk: u128 = lcn as u128 * c + rem;
            proof {
                assert(rest[0] == runs@[i as int]);
                assert(spec_vcn_byte_to_disk(rest, rem as int, cluster as int) == Some(disk as int));
            }
            if disk <= u64::MAX as u128 {
                return Some(disk as u64);
            } else {
                return None;
            }
        }
        rem = rem - bytes;
        i += 1;
        proof {
            assert(rest[0] == runs@[i - 1]);
            assert(rest.drop_first() =~= runs@.subrange(i as int, n as int));
        }
    }
    None
}

/// Extent `a` comes before extent `b`: by first VCN, then by position.
pub open spec fn extent_before(ext: Seq<Extent>, a: int, b: int) -> bool {
    ext[a].0 < ext[b].0 || (ext[a].0 == ext[b].0 && a < b)
}

/// `order` lists the extents by first VCN, equal ones in their given
/// order.
pub open spec fn extent_order(ext: Seq<Extent>, order: Seq<int>) -> bool {
    &&& is_perm(order, ext.len())
    &&& forall|i: int, j: int| 0 <= i < j < order.len() ==> extent_before(ext, #[trigger] order[i], #[trigger] order[j])
}

/// The runs of the extents taken in `order`, one after another.
pub open spec fn runs_in_order(ext: Seq<Extent>, order: Seq<int>) -> Seq<(u64, u64)>
    decreases order.len(),
{
    if order.len() == 0 {
        Seq::empty()
    } else {
        runs_in_order(ext, order.drop_last()) + ext[order.last()].1@
    }
}

/// All runs of `$MFT`, its extents ordered by first VCN.
pub fn flatten(extents: &[Extent]) -> (r: Vec<(u64, u64)>)
    ensures
        exists|order: Seq<int>| extent_order(extents@, order) && r@ == runs_in_order(extents@, order),
{
    let n = extents.len();
    let ext = extents;
    // Stable insertion of each extent after those with a VCN not above it.
    let mut order: Vec<usize> = Vec::new();
    let mut i: usize = 0;
    while i < n
        invariant
            n == ext@.len(),
            i <= n,
            order@.len() == i,
            order@.no_duplicates(),
            forall|k: int| 0 <= k < i ==> #[trigger] order@[k] < i,
            forall|a: int, b: int|
                0 <= a < b < i ==> extent_before(ext@, #[trigger] order@[a] as int, #[trigger] order@[b] as int),
        decreases n - i,
    {
        let vcn = ext[i].0;
        let mut k: usize = 0;
        while k < order.len() && ext[order[k]].0 <= vcn
            invariant
                n == ext@.len(),
                i < n,
                order@.len() == i,
                k <= i,
                forall|m: int| 0 <= m < i ==> #[trigger] order@[m] < i,
                forall|m: int| 0 <= m < k ==> ext@[#[trigger] order@[m] as int].0 <= vcn,
                vcn == ext@[i as int].0,
            decreases i - k,
        {
            k += 1;
        }
        let ghost old_order = order@;
        proof {
            if k < i {
                assert(ext@[old_order[k as int] as int].0 > vcn);
            }
        }
        order.insert(k, i);
        proof {
            assert(order@ == old_order.insert(k as int, i));
            assert forall|m: int| 0 <= m < i + 1 implies #[trigger] order@[m] < i + 1 by {
                if m < k {
                    assert(order@[m] == old_order[m]);
                } else if m > k {
                    assert(order@[m] == old_order[m - 1]);
                }
            }
            assert forall|a: int, b: int| 0 <= a < b < i + 1 implies extent_before(
                ext@,
                #[trigger] order@[a] as int,
                #[trigger] order@[b] as int,
            ) by {
                if b < k {
                    assert(order@[a] == old_order[a] && order@[b] == old_order[b]);
                } else if b == k {
                    assert(order@[a] == old_order[a]);
                } else if a > k {
                    assert(order@[a] == old_order[a - 1] && order@[b] == old_order[b - 1]);
                } else if a == k {
                    assert(order@[b] == old_order[b - 1]);
                    if b - 1 > k {
                        assert(extent_before(ext@, old_order[k as int] as int, old_order[b - 1] as int));
                    }
                } else {
                    assert(order@[a] == old_order[a] && order@[b] == old_order[b - 1]);
                }
            }
            assert forall|a: int, b: int| 0 <= a < b < order@.len() implies order@[a] != order@[b] by {
                if a < k && b < k {
                    assert(order@[a] == old_order[a] && order@[b] == old_order[b]);
                } else if a < k && b > k {
                    assert(order@[a] == old_order[a] && order@[b] == old_order[b - 1]);
                } else if a > k {
                    assert(order@[a] == old_order[a - 1] && order@[b] == old_order[b - 1]);
                } else if a == k {
                    assert(order@[b] == old_order[b - 1]);
                } else {
                    assert(order@[a] == old_order[a]);
                }
            }
        }
        i += 1;
    }
    let ghost ord: Seq<int> = order@.map_values(|x: usize| x as int);
    let mut out: Vec<(u64, u64)> = Vec::new();
    let mut k: usize = 0;
    while k < n
        invariant
            n == ext@.len() == order@.len(),
            ord == order@.map_values(|x: usize| x as int),
            forall|m: int| 0 <= m < n ==> #[trigger] order@[m] < n,
            k <= n,
            out@ == runs_in_order(ext@, ord.take(k as int)),
        decreases n - k,
    {
        let e = &ext[order[k]];
        let runs = &e.1;
        let mut j: usize = 0;
        let ghost base = out@;
        while j < runs.len()
            invariant
                j <= runs@.len(),
                out@ == base + runs@.take(j as int),
            decreases runs@.len() - j,
        {
            out.push(runs[j]);
            j += 1;
            proof {
                assert(out@ =~= base + runs@.take(j as int));
            }
        }
        proof {
            assert(runs@.take(j as int) =~= runs@);
            assert(ord.take(k + 1).drop_last() =~= ord.take(k as int));
            assert(ord.take(k + 1).last() == order@[k as int] as int);
        }
        k += 1;
    }
    proof {
        assert(ord.take(n as int) =~= ord);
        assert(extent_order(ext@, ord)) by {
            assert forall|a: int, b: int| 0 <= a < b < ord.len() implies ord[a] != ord[b] by {
                assert(order@[a] != order@[b]);
            }
            assert(ord.no_duplicates());
        }
    }
    out
}

/// The extents with their runs as sequences.
pub open spec fn extent_views(ex: Seq<Extent>) -> Seq<(u64, Seq<(u64, u64)>)> {
    ex.map_values(|e: Extent| (e.0, e.1@))
}

/// The unnamed non-resident `$DATA` extents and the `$ATTRIBUTE_LIST`
/// segments found in the first `k` attributes of record 0 (`s`), or the
/// first run list that could not be decoded.
pub open spec fn record0_scan(s: Seq<u8>, attrs: Seq<AttrView>, k: nat) -> Result<
    (Seq<(u64, Seq<(u64, u64)>)>, Seq<u64>),
    RunError,
>
    decreases k,
{
    if k == 0 || k > attrs.len() {
        Ok((Seq::empty(), Seq::empty()))
    } else {
        match record0_scan(s, attrs, (k - 1) as nat) {
            Err(e) => Err(e),
            Ok((ex, segs)) => {
                let a = attrs[k - 1];
                let h = s.subrange(a.start, a.start + a.len);
                if a.kind == ATTR_DATA && a.non_resident && a.name_len == 0 {
                    match runs_from(attr_mapping_pairs(h), 0) {
                        Ok(r) => Ok((ex.push((attr_lowest_vcn(h) as u64, r)), segs)),
                        Err(e) => Err(e),
                    }
                } else if a.kind == ATTR_ATTRIBUTE_LIST && !a.non_resident {
                    // Heavily fragmented MFT: further $DATA extents live in
                    // other records, listed here. Only resident lists are
                    // supported.
                    Ok((ex, segs + segments_from(attr_value(h), 0)))
                } else {
                    Ok((ex, segs))
                }
            },
        }
    }
}

/// What record 0 (`$MFT` itself, as read) says of where `$MFT` lies: its
/// `$DATA` extents and the segments of records holding further extents.
pub open spec fn spec_record0(raw: Seq<u8>) -> Result<(Seq<(u64, Seq<(u64, u64)>)>, Seq<u64>), MftError> {
    let (s, ok) = spec_apply_fixups(raw);
    if !ok {
        Err(MftError::CorruptRecord0)
    } else {
        match record0_scan(s, spec_attributes(s), spec_attributes(s).len()) {
            Err(e) => Err(MftError::Runs(e)),
            Ok((ex, segs)) => if ex.len() == 0 {
                Err(MftError::NoData)
            } else {
                Ok((ex, segs))
            },
        }
    }
}

/// The extents and segments as sequences.
pub open spec fn record0_view(r: Result<(Vec<Extent>, Vec<u64>), MftError>) -> Result<
    (Seq<(u64, Seq<(u64, u64)>)>, Seq<u64>),
    MftError,
> {
    match r {
        Ok((ex, segs)) => Ok((extent_views(ex@), segs@)),
        Err(e) => Err(e),
    }
}

/// The `$DATA` extents of `$MFT` and the segment numbers of the records
/// listing further ones, read from record 0 (fixed up in place).
pub fn record0_extents(rec0: &mut [u8]) -> (r: Result<(Vec<Extent>, Vec<u64>), MftError>)
    requires
        old(rec0)@.len() >= 0x1C,
    ensures
        final(rec0)@ == spec_apply_fixups(old(rec0)@).0,
        record0_view(r) == spec_record0(old(rec0)@),
{
    if !apply_fixups(rec0) {
        return Err(MftError::CorruptRecord0);
    }
    let s: &[u8] = rec0;
    let attrs = attributes(s);
    let ghost all = spec_attributes(s@);
    let mut extents: Vec<Extent> = Vec::new();
    let mut list_segments: Vec<u64> = Vec::new();
    let mut i: usize = 0;
    proof {
        assert(extent_views(extents@) =~= Seq::<(u64, Seq<(u64, u64)>)>::empty());
        assert(list_segments@ =~= Seq::<u64>::empty());
    }
    while i < attrs.len()
        invariant
            s@ == rec0@,
            s@ == spec_apply_fixups(old(rec0)@).0,
            spec_apply_fixups(old(rec0)@).1,
            i <= attrs@.len() == all.len(),
            all == spec_attributes(s@),
            forall|j: int| 0 <= j < attrs@.len() ==> attr_matches(#[trigger] attrs@[j], all[j], s@),
            record0_scan(s@, all, i as nat) == Ok::<(Seq<(u64, Seq<(u64, u64)>)>, Seq<u64>), RunError>(
                (extent_views(extents@), list_segments@),
            ),
        decreases attrs@.len() - i,
    {
        let a = &attrs[i];
        assert(attr_matches(*a, all[i as int], s@));
        let ghost ev = extent_views(extents@);
        if a.kind == ATTR_DATA && a.non_resident && a.name_len == 0 {
            let vcn = a.lowest_vcn();
            match decode_runs(a.mapping_pairs()) {
                Ok(runs) => {
                    extents.push((vcn, runs));
                    proof {
                        assert(extent_views(extents@) =~= ev.push((vcn, runs@)));
                    }
                },
                Err(e) => {
                    proof {
                        lemma_record0_err_stays(s@, all, (i + 1) as nat, all.len());
                    }
                    return Err(MftError::Runs(e));
                },
            }
        } else if a.kind == ATTR_ATTRIBUTE_LIST && !a.non_resident {
            let segs = attribute_list_data_segments(a.value());
            append_u64(&mut list_segments, &segs);
        }
        i += 1;
    }
    if extents.len() == 0 {
        return Err(MftError::NoData);
    }
    Ok((extents, list_segments))
}

proof fn lemma_record0_err_stays(s: Seq<u8>, attrs: Seq<AttrView>, k: nat, m: nat)
    requires
        k <= m <= attrs.len(),
        record0_scan(s, attrs, k) is Err,
    ensures
        record0_scan(s, attrs, m) == record0_scan(s, attrs, k),
    decreases m - k,
{
    if k < m {
        lemma_record0_err_stays(s, attrs, k, (m - 1) as nat);
    }
}

proof fn lemma_extension_err_stays(
    s: Seq<u8>,
    attrs: Seq<AttrView>,
    k: nat,
    m: nat,
    ex0: Seq<(u64, Seq<(u64, u64)>)>,
)
    requires
        k <= m <= attrs.len(),
        extension_scan(s, attrs, k, ex0).1 is Some,
    ensures
        extension_scan(s, attrs, m, ex0) == extension_scan(s, attrs, k, ex0),
    decreases m - k,
{
    if k < m {
        lemma_extension_err_stays(s, attrs, k, (m - 1) as nat, ex0);
    }
}

/// Append the values of `more` to `v`.
fn append_u64(v: &mut Vec<u64>, more: &Vec<u64>)
    ensures
        final(v)@ == old(v)@ + more@,
{
    let mut j: usize = 0;
    while j < more.len()
        invariant
            j <= more@.len(),
            v@ == old(v)@ + more@.take(j as int),
        decreases more@.len() - j,
    {
        v.push(more[j]);
        j += 1;
        proof {
            assert(v@ =~= old(v)@ + more@.take(j as int));
        }
    }
    proof {
        assert(more@.take(j as int) =~= more@);
    }
}

/// The extents `ex0` with those of the first `k` attributes of an extension
/// record (`s`) added, each unnamed non-resident `$DATA` extent whose first
/// VCN is not known yet; and the error of the first run list that could not
/// be decoded, with the extents as they were then.
pub open spec fn extension_scan(
    s: Seq<u8>,
    attrs: Seq<AttrView>,
    k: nat,
    ex0: Seq<(u64, Seq<(u64, u64)>)>,
) -> (Seq<(u64, Seq<(u64, u64)>)>, Option<RunError>)
    decreases k,
{
    if k == 0 || k > attrs.len() {
        (ex0, None)
    } else {
        let (ex, err) = extension_scan(s, attrs, (k - 1) as nat, ex0);
        if err is Some {
            (ex, err)
        } else {
            let a = attrs[k - 1];
            let h = s.subrange(a.start, a.start + a.len);
            if a.kind == ATTR_DATA && a.non_resident && a.name_len == 0 {
                let vcn = attr_lowest_vcn(h) as u64;
                if exists|j: int| 0 <= j < ex.len() && (#[trigger] ex[j]).0 == vcn {
                    (ex, None)
                } else {
                    match runs_from(attr_mapping_pairs(h), 0) {
                        Ok(r) => (ex.push((vcn, r)), None),
                        Err(e) => (ex, Some(e)),
                    }
                }
            } else {
                (ex, None)
            }
        }
    }
}

/// Whether some extent starts at `vcn`.
fn has_extent(extents: &Vec<Extent>, vcn: u64) -> (r: bool)
    ensures
        r == exists|j: int| 0 <= j < extents@.len() && (#[trigger] extents@[j]).0 == vcn,
{
    let mut j: usize = 0;
    while j < extents.len()
        invariant
            j <= extents@.len(),
            forall|m: int| 0 <= m < j ==> (#[trigger] extents@[m]).0 != vcn,
        decreases extents@.len() - j,
    {
        if extents[j].0 == vcn {
            return true;
        }
        j += 1;
    }
    false
}

/// Add the `$DATA` extents of an extension record of `$MFT` (fixed up in
/// place; a torn record adds nothing) that are not known yet.
pub fn add_extension_extents(extents: &mut Vec<Extent>, rec: &mut [u8]) -> (r: Result<(), RunError>)
    requires
        old(rec)@.len() >= 0x1C,
    ensures
        final(rec)@ == spec_apply_fixups(old(rec)@).0,
        !spec_apply_fixups(old(rec)@).1 ==> r is Ok && final(extents)@ == old(extents)@,
        spec_apply_fixups(old(rec)@).1 ==> {
            let s = spec_apply_fixups(old(rec)@).0;
            let (ex, err) = extension_scan(
                s,
                spec_attributes(s),
                spec_attributes(s).len(),
                extent_views(old(extents)@),
            );
            &&& extent_views(final(extents)@) == ex
            &&& match r {
                Ok(()) => err is None,
                Err(e) => err == Some(e),
            }
        },
{
    if !apply_fixups(rec) {
        return Ok(());
    }
    let s: &[u8] = rec;
    let attrs = attributes(s);
    let ghost all = spec_attributes(s@);
    let ghost ex0 = extent_views(extents@);
    let mut i: usize = 0;
    while i < attrs.len()
        invariant
            s@ == rec@,
            s@ == spec_apply_fixups(old(rec)@).0,
            spec_apply_fixups(old(rec)@).1,
            ex0 == extent_views(old(extents)@),
            i <= attrs@.len() == all.len(),
            all == spec_attributes(s@),
            forall|j: int| 0 <= j < attrs@.len() ==> attr_matches(#[trigger] attrs@[j], all[j], s@),
            extension_scan(s@, all, i as nat, ex0) == (extent_views(extents@), None::<RunError>),
        decreases attrs@.len() - i,
    {
        let a = &attrs[i];
        assert(attr_matches(*a, all[i as int], s@));
        let ghost ev = extent_views(extents@);
        if a.kind == ATTR_DATA && a.non_resident && a.name_len == 0 {
            let vcn = a.lowest_vcn();
            let known = has_extent(extents, vcn);
            proof {
                assert(known == exists|j: int| 0 <= j < ev.len() && (#[trigger] ev[j]).0 == vcn) by {
                    if known {
                        let j = choose|j: int| 0 <= j < extents@.len() && (#[trigger] extents@[j]).0 == vcn;
                        assert(ev[j].0 == vcn);
                    }
                    if exists|j: int| 0 <= j < ev.len() && (#[trigger] ev[j]).0 == vcn {
                        let j = choose|j: int| 0 <= j < ev.len() && (#[trigger] ev[j]).0 == vcn;
                        assert(extents@[j].0 == vcn);
                    }
                }
            }
            if !known {
                match decode_runs(a.mapping_pairs()) {
                    Ok(runs) => {
                        extents.push((vcn, runs));
                        proof {
                            assert(extent_views(extents@) =~= ev.push((vcn, runs@)));
                        }
                    },
                    Err(e) => {
                        proof {
                            lemma_extension_err_stays(s@, all, (i + 1) as nat, all.len(), ex0);
                        }
                        return Err(e);
                    },
                }
            }
        }
        i += 1;
    }
    Ok(())
}

/// Disk offset of the extension record `seg` of `$MFT` (records of
/// `rec_size` bytes, clusters of `cluster` bytes), located through the runs
/// known so far; `None` when they do not reach it.
pub fn extension_record_offset(extents: &[Extent], seg: u64, rec_size: usize, cluster: u64) -> (r: Option<u64>)
    ensures
        seg * rec_size > u64::MAX ==> r is None,
        seg * rec_size <= u64::MAX ==> exists|order: Seq<int>|
            extent_order(extents@, order) && r == fits_u64(
                spec_vcn_byte_to_disk(runs_in_order(extents@, order), seg * rec_size, cluster as int),
            ),
{
    let known = flatten(extents);
    assert((seg as int) * (rec_size as int) <= u64::MAX * u64::MAX) by (nonlinear_arith)
        requires
            seg <= u64::MAX,
            rec_size <= u64::MAX,
    ;
    let off: u128 = seg as u128 * rec_size as u128;
    if off > u64::MAX as u128 {
        return None;
    }
    vcn_byte_to_disk(known.as_slice(), off as u64, cluster)
}

/// The reads of `remaining` bytes of one run, at most `chunk` bytes each:
/// the offset on the volume, the length, and the index of the first record
/// the read holds, for a run that starts at `disk` on the volume and at byte
/// `vcn` of the MFT.
pub open spec fn run_reads(disk: nat, vcn: nat, remaining: nat, chunk: nat, rec_size: nat) -> Seq<(nat, nat, nat)>
    decreases remaining,
{
    if remaining == 0 || chunk == 0 {
        Seq::empty()
    } else {
        let n = if remaining < chunk {
            remaining
        } else {
            chunk
        };
        seq![(disk, n, vcn / rec_size)] + run_reads(disk + n, vcn + n, (remaining - n) as nat, chunk, rec_size)
    }
}

/// Bytes of a run of `clusters` clusters that lie within the first
/// `mft_len` bytes of the MFT, the run starting at byte `vcn` of it.
pub open spec fn run_take(clusters: nat, cluster: nat, mft_len: nat, vcn: nat) -> nat {
    let left: nat = if mft_len > vcn {
        (mft_len - vcn) as nat
    } else {
        0
    };
    if clusters * cluster < left {
        clusters * cluster
    } else {
        left
    }
}

/// The reads that stream the first `mft_len` bytes of the MFT from its runs
/// `(lcn, clusters)`, from run `k` on, run `k` starting at byte `vcn` of the
/// MFT.
pub open spec fn reads_from(
    runs: Seq<(u64, u64)>,
    k: nat,
    vcn: nat,
    cluster: nat,
    mft_len: nat,
    chunk: nat,
    rec_size: nat,
) -> Seq<(nat, nat, nat)>
    decreases runs.len() - k,
{
    if k >= runs.len() {
        Seq::empty()
    } else {
        let take = run_take(runs[k as int].1 as nat, cluster, mft_len, vcn);
        run_reads(runs[k as int].0 as nat * cluster, vcn, take, chunk, rec_size) + reads_from(
            runs,
            k + 1,
            vcn + take,
            cluster,
            mft_len,
            chunk,
            rec_size,
        )
    }
}

/// Every run's place on the volume, end included, is a 64-bit byte offset.
pub open spec fn runs_fit(runs: Seq<(u64, u64)>, cluster: u64) -> bool {
    forall|k: int| 0 <= k < runs.len() ==> (#[trigger] runs[k]).0 * cluster + runs[k].1 * cluster <= u64::MAX
}

/// Whether every run's place on the volume is a 64-bit byte offset.
pub fn check_runs(runs: &[(u64, u64)], cluster: u64) -> (r: bool)
    ensures
        r == runs_fit(runs@, cluster),
{
    let mut i: usize = 0;
    while i < runs.len()
        invariant
            i <= runs@.len(),
            forall|k: int| 0 <= k < i ==> (#[trigger] runs@[k]).0 * cluster + runs@[k].1 * cluster <= u64::MAX,
        decreases runs@.len() - i,
    {
        let (lcn, clusters) = runs[i];
        proof {
            assert(lcn as int * cluster as int <= u64::MAX * u64::MAX) by (nonlinear_arith)
                requires
                    lcn <= u64::MAX,
                    cluster <= u64::MAX,
            ;
            assert(clusters as int * cluster as int <= u64::MAX * u64::MAX) by (nonlinear_arith)
                requires
                    clusters <= u64::MAX,
                    cluster <= u64::MAX,
            ;
        }
        let start: u128 = lcn as u128 * cluster as u128;
        let len: u128 = clusters as u128 * cluster as u128;
        if start > u64::MAX as u128 || len > u64::MAX as u128 || start + len > u64::MAX as u128 {
            return false;
        }
        i += 1;
    }
    true
}

/// A read plan as numbers.
pub open spec fn reads_view(v: Seq<(u64, u64, u64)>) -> Seq<(nat, nat, nat)> {
    v.map_values(|t: (u64, u64, u64)| (t.0 as nat, t.1 as nat, t.2 as nat))
}

/// How the MFT is streamed: for each of its runs `(lcn, clusters)` in
/// order, the bytes of the run that lie within the first `mft_len` bytes of
/// the MFT, in reads of at most `chunk` bytes. Each read is `(offset on the
/// volume, length, index of the first record it holds)`.
pub fn mft_reads(runs: &[(u64, u64)], cluster: u64, mft_len: u64, rec_size: u64, chunk: u64) -> (r: Vec<
    (u64, u64, u64),
>)
    requires
        chunk > 0,
        rec_size > 0,
        runs_fit(runs@, cluster),
    ensures
        reads_view(r@) == reads_from(
            runs@,
            0,
            0,
            cluster as nat,
            mft_len as nat,
            chunk as nat,
            rec_size as nat,
        ),
{
    let ghost total = reads_from(runs@, 0, 0, cluster as nat, mft_len as nat, chunk as nat, rec_size as nat);
    let mut out: Vec<(u64, u64, u64)> = Vec::new();
    let mut vcn: u64 = 0;
    let mut k: usize = 0;
    proof {
        assert(reads_view(out@) + total =~= total);
    }
    while k < runs.len()
        invariant
            k <= runs@.len(),
            chunk > 0,
            rec_size > 0,
            runs_fit(runs@, cluster),
            vcn <= mft_len,
            total == reads_from(runs@, 0, 0, cluster as nat, mft_len as nat, chunk as nat, rec_size as nat),
            reads_view(out@) + reads_from(
                runs@,
                k as nat,
                vcn as nat,
                cluster as nat,
                mft_len as nat,
                chunk as nat,
                rec_size as nat,
            ) == total,
        decreases runs@.len() - k,
    {
        let (lcn, clusters) = runs[k];
        proof {
            assert(runs@[k as int].0 * cluster + runs@[k as int].1 * cluster <= u64::MAX);
            assert(0 <= lcn as int * cluster as int) by (nonlinear_arith)
                requires
                    lcn >= 0,
                    cluster >= 0,
            ;
            assert(0 <= clusters as int * cluster as int) by (nonlinear_arith)
                requires
                    clusters >= 0,
                    cluster >= 0,
            ;
        }
        let whole = clusters * cluster;
        let left = mft_len - vcn;
        let take = if whole < left {
            whole
        } else {
            left
        };
        let ghost rest = reads_from(
            runs@,
            (k + 1) as nat,
            (vcn + take) as nat,
            cluster as nat,
            mft_len as nat,
            chunk as nat,
            rec_size as nat,
        );
        let mut disk = lcn * cluster;
        let mut pos = vcn;
        let mut remaining = take;
        proof {
            assert(take == run_take(clusters as nat, cluster as nat, mft_len as nat, vcn as nat));
        }
        while remaining > 0
            invariant
                chunk > 0,
                rec_size > 0,
                disk + remaining <= u64::MAX,
                pos + remaining == vcn + take,
                vcn + take <= mft_len,
                reads_view(out@) + run_reads(
                    disk as nat,
                    pos as nat,
                    remaining as nat,
                    chunk as nat,
                    rec_size as nat,
                ) + rest == total,
            decreases remaining,
        {
            let n = if remaining < chunk {
                remaining
            } else {
                chunk
            };
            let ghost before = reads_view(out@);
            let ghost tail = run_reads(
                (disk + n) as nat,
                (pos + n) as nat,
                (remaining - n) as nat,
                chunk as nat,
                rec_size as nat,
            );
            out.push((disk, n, pos / rec_size));
            proof {
                assert(reads_view(out@) =~= before.push((disk as nat, n as nat, (pos / rec_size) as nat)));
                assert(before + (seq![(disk as nat, n as nat, pos as nat / rec_size as nat)] + tail) + rest
                    =~= reads_view(out@) + tail + rest);
            }
            disk = disk + n;
            pos = pos + n;
            remaining = remaining - n;
        }
        proof {
            assert(reads_view(out@) + Seq::<(nat, nat, nat)>::empty() + rest =~= reads_view(out@) + rest);
        }
        vcn = vcn + take;
        k += 1;
    }
    proof {
        assert(reads_view(out@) + Seq::<(nat, nat, nat)>::empty() =~= reads_view(out@));
    }
    out
}

/// Total length of a list of reads.
pub open spec fn reads_len(rs: Seq<(nat, nat, nat)>) -> nat
    decreases rs.len(),
{
    if rs.len() == 0 {
        0
    } else {
        rs[0].1 + reads_len(rs.drop_first())
    }
}

/// Bytes of the MFT's runs from run `k` on.
pub open spec fn runs_bytes(runs: Seq<(u64, u64)>, k: nat, cluster: nat) -> nat
    decreases runs.len() - k,
{
    if k >= runs.len() {
        0
    } else {
        runs[k as int].1 as nat * cluster + runs_bytes(runs, k + 1, cluster)
    }
}

proof fn lemma_reads_len_add(a: Seq<(nat, nat, nat)>, b: Seq<(nat, nat, nat)>)
    ensures
        reads_len(a + b) == reads_len(a) + reads_len(b),
    decreases a.len(),
{
    if a.len() > 0 {
        lemma_reads_len_add(a.drop_first(), b);
        assert((a + b).drop_first() =~= a.drop_first() + b);
    } else {
        assert(a + b =~= b);
    }
}

proof fn lemma_run_reads_len(disk: nat, vcn: nat, remaining: nat, chunk: nat, rec_size: nat)
    requires
        chunk > 0,
        rec_size > 0,
    ensures
        reads_len(run_reads(disk, vcn, remaining, chunk, rec_size)) == remaining,
    decreases remaining,
{
    if remaining > 0 {
        let n = if remaining < chunk {
            remaining
        } else {
            chunk
        };
        let tail = run_reads(disk + n, vcn + n, (remaining - n) as nat, chunk, rec_size);
        lemma_run_reads_len(disk + n, vcn + n, (remaining - n) as nat, chunk, rec_size);
        lemma_seq1_len((disk, n, vcn / rec_size), tail);
    }
}

proof fn lemma_seq1_len(e: (nat, nat, nat), tail: Seq<(nat, nat, nat)>)
    ensures
        reads_len(seq![e] + tail) == e.1 + reads_len(tail),
{
    let head = seq![e];
    lemma_reads_len_add(head, tail);
    assert(head.drop_first() =~= Seq::<(nat, nat, nat)>::empty());
    assert(reads_len(Seq::<(nat, nat, nat)>::empty()) == 0);
    assert(reads_len(head) == e.1 + reads_len(head.drop_first()));
}

proof fn lemma_reads_from_len(
    runs: Seq<(u64, u64)>,
    k: nat,
    vcn: nat,
    cluster: nat,
    mft_len: nat,
    chunk: nat,
    rec_size: nat,
)
    requires
        chunk > 0,
        rec_size > 0,
        vcn <= mft_len,
    ensures
        reads_len(reads_from(runs, k, vcn, cluster, mft_len, chunk, rec_size)) == if mft_len - vcn < runs_bytes(
            runs,
            k,
            cluster,
        ) {
            (mft_len - vcn) as nat
        } else {
            runs_bytes(runs, k, cluster)
        },
    decreases runs.len() - k,
{
    if k < runs.len() {
        let take = run_take(runs[k as int].1 as nat, cluster, mft_len, vcn);
        let here = run_reads(runs[k as int].0 as nat * cluster, vcn, take, chunk, rec_size);
        let rest = reads_from(runs, k + 1, vcn + take, cluster, mft_len, chunk, rec_size);
        lemma_reads_len_add(here, rest);
        lemma_run_reads_len(runs[k as int].0 as nat * cluster, vcn, take, chunk, rec_size);
        lemma_reads_from_len(runs, k + 1, vcn + take, cluster, mft_len, chunk, rec_size);
    }
}

/// The reads stream every byte of the MFT that is in use, once: their
/// lengths add up to the valid length of the MFT, or to all of its runs when
/// those hold less.
pub proof fn law_reads_cover_mft(runs: Seq<(u64, u64)>, cluster: nat, mft_len: nat, chunk: nat, rec_size: nat)
    requires
        chunk > 0,
        rec_size > 0,
    ensures
        reads_len(reads_from(runs, 0, 0, cluster, mft_len, chunk, rec_size)) == if mft_len < runs_bytes(
            runs,
            0,
            cluster,
        ) {
            mft_len
        } else {
            runs_bytes(runs, 0, cluster)
        },
{
    lemma_reads_from_len(runs, 0, 0, cluster, mft_len, chunk, rec_size);
}

/// Files in use found in a block of parsed records, and their total size:
/// base records (not extensions) that are not directories.
pub open spec fn counted_files(recs: Seq<RecView>, n: nat) -> (nat, nat)
    decreases n,
{
    if n == 0 {
        (0, 0)
    } else {
        let (f, b) = counted_files(recs, (n - 1) as nat);
        let r = recs[n - 1];
        if r.in_use && r.base == 0 && !r.is_dir {
            (f + 1, b + r.size as nat)
        } else {
            (f, b)
        }
    }
}

proof fn lemma_counted_mono(recs: Seq<RecView>, m: nat, n: nat)
    requires
        m <= n <= recs.len(),
    ensures
        counted_files(recs, m).0 <= counted_files(recs, n).0,
        counted_files(recs, m).1 <= counted_files(recs, n).1,
        counted_files(recs, n).0 <= n,
    decreases n,
{
    if n > 0 {
        if m < n {
            lemma_counted_mono(recs, m, (n - 1) as nat);
        } else {
            lemma_counted_mono(recs, (n - 1) as nat, (n - 1) as nat);
        }
    }
}

/// Files in use among parsed records and their total size (see
/// [`counted_files`]); `None` when the total does not fit 64 bits.
pub fn count_files(recs: &[Rec]) -> (r: Option<(u64, u64)>)
    ensures
        r is None <==> counted_files(rec_views(recs@), recs@.len()).1 > u64::MAX,
        r matches Some((f, b)) ==> (f as nat, b as nat) == counted_files(rec_views(recs@), recs@.len()),
{
    let ghost v = rec_views(recs@);
    let mut files: u64 = 0;
    let mut bytes: u64 = 0;
    let mut i: usize = 0;
    while i < recs.len()
        invariant
            i <= recs@.len(),
            v == rec_views(recs@),
            v.len() == recs@.len(),
            (files as nat, bytes as nat) == counted_files(v, i as nat),
        decreases recs@.len() - i,
    {
        let r = &recs[i];
        proof {
            assert(v[i as int] == recs@[i as int]@);
            lemma_counted_mono(v, i as nat, i as nat);
        }
        if r.in_use && r.base == 0 && !r.is_dir {
            if r.size > u64::MAX - bytes {
                proof {
                    lemma_counted_mono(v, (i + 1) as nat, v.len());
                }
                return None;
            }
            files = files + 1;
            bytes = bytes + r.size;
        }
        i += 1;
    }
    Some((files, bytes))
}

} // verus!
