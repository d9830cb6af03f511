//! Drives as Windows reports them, and the choices made from that list.
use vstd::prelude::*;

use crate::paths::{quote_arg, spec_quote_arg, spec_volume_letter, trim_backslashes, volume_letter};
use crate::text::{chars_of, push_char, push_str, string_of};

verus! {

#[derive(Clone, Debug, PartialEq, Eq, Structural)]
pub enum DriveKind {
    Fixed,
    Removable,
    Remote,
    CdRom,
    RamDisk,
    Unknown,
}

#[derive(Clone, Debug)]
pub struct Drive {
    /// `C:\`
    pub root: String,
    pub label: String,
    /// File system name, such as `NTFS`.
    pub fs: String,
    pub kind: DriveKind,
    pub total: u64,
    pub free: u64,
}

/// The label shown for a drive without a volume label.
pub open spec fn kind_label(k: DriveKind) -> Seq<char> {
    match k {
        DriveKind::Removable => "Removable"@,
        DriveKind::Remote => "Network"@,
        DriveKind::CdRom => "CD-ROM"@,
        DriveKind::RamDisk => "RAM disk"@,
        DriveKind::Fixed | DriveKind::Unknown => "Local Disk"@,
    }
}

/// `C: (System)`: the root without its trailing backslash, then the volume
/// label, or a description of the drive kind when it has none.
pub open spec fn spec_display(root: Seq<char>, label: Seq<char>, kind: DriveKind) -> Seq<char> {
    trim_backslashes(root) + seq![' ', '('] + (if label.len() == 0 {
        kind_label(kind)
    } else {
        label
    }) + seq![')']
}

impl Drive {
    pub fn display(&self) -> (s: String)
        ensures
            s@ == spec_display(self.root@, self.label@, self.kind),
    {
        let v = chars_of(self.root.as_str());
        let mut k = v.len();
        proof {
            assert(v@.subrange(0, k as int) =~= v@);
        }
        while k > 0 && v[k - 1] == '\\'
            invariant
                k <= v@.len(),
                trim_backslashes(v@.subrange(0, k as int)) == trim_backslashes(v@),
            decreases k,
        {
            proof {
                assert(v@.subrange(0, k as int).drop_last() =~= v@.subrange(0, k - 1));
            }
            k -= 1;
        }
        proof {
            assert(trim_backslashes(v@.subrange(0, k as int)) == v@.subrange(0, k as int));
        }
        let mut s = string_of(&v, 0, k);
        push_char(&mut s, ' ');
        push_char(&mut s, '(');
        if self.label.as_str().unicode_len() == 0 {
            let kind_text = match self.kind {
                DriveKind::Removable => "Removable",
                DriveKind::Remote => "Network",
                DriveKind::CdRom => "CD-ROM",
                DriveKind::RamDisk => "RAM disk",
                DriveKind::Fixed | DriveKind::Unknown => "Local Disk",
            };
            push_str(&mut s, kind_text);
        } else {
            push_str(&mut s, self.label.as_str());
        }
        push_char(&mut s, ')');
        proof {
            let label = if self.label@.len() == 0 {
                kind_label(self.kind)
            } else {
                self.label@
            };
            assert(s@ =~= trim_backslashes(self.root@) + seq![' ', '('] + label + seq![')']);
        }
        s
    }
}

/// `c` with ASCII upper-case letters made lower-case.
pub open spec fn ascii_lower(c: char) -> char {
    if 'A' <= c && c <= 'Z' {
        ((c as int) + 32) as char
    } else {
        c
    }
}

/// The strings are equal but for the case of ASCII letters.
pub open spec fn eq_ignore_case(a: Seq<char>, b: Seq<char>) -> bool {
    a.len() == b.len() && forall|i: int| 0 <= i < a.len() ==> ascii_lower(#[trigger] a[i]) == ascii_lower(b[i])
}

fn lower(c: char) -> (r: char)
    ensures
        r == ascii_lower(c),
{
    if 'A' <= c && c <= 'Z' {
        ((c as u32) + 32) as u8 as char
    } else {
        c
    }
}

/// `str::eq_ignore_ascii_case`: equal but for the case of ASCII letters.
pub fn eq_ignore_ascii_case(a: &str, b: &str) -> (r: bool)
    ensures
        r == eq_ignore_case(a@, b@),
{
    let n = a.unicode_len();
    if n != b.unicode_len() {
        return false;
    }
    let mut i: usize = 0;
    while i < n
        invariant
            n == a@.len() == b@.len(),
            i <= n,
            forall|j: int| 0 <= j < i ==> ascii_lower(#[trigger] a@[j]) == ascii_lower(b@[j]),
        decreases n - i,
    {
        if lower(a.get_char(i)) != lower(b.get_char(i)) {
            return false;
        }
        i += 1;
    }
    true
}

/// The drive is a local NTFS volume whose root starts with `letter`.
pub open spec fn is_ntfs_root(d: Drive, letter: char) -> bool {
    d.root@.len() > 0 && d.root@[0] == letter && eq_ignore_case(d.fs@, "NTFS"@)
}

/// Some drive in the list is an NTFS volume with the given letter.
pub open spec fn has_ntfs_root(drives: Seq<Drive>, letter: char) -> bool {
    exists|i: int| 0 <= i < drives.len() && is_ntfs_root(#[trigger] drives[i], letter)
}

/// The target is the root of a local NTFS drive, which the MFT scanner
/// reads as a whole.
pub open spec fn spec_on_ntfs(target: Seq<char>, drives: Seq<Drive>) -> bool {
    match spec_volume_letter(target) {
        Some(letter) => has_ntfs_root(drives, letter),
        None => false,
    }
}

/// Whether `target` is the root of a local NTFS drive among `drives`, so
/// that the MFT scanner could read it with administrator rights (a
/// subdirectory is walked in any case).
pub fn on_ntfs_drive(target: &str, drives: &[Drive]) -> (r: bool)
    ensures
        r == spec_on_ntfs(target@, drives@),
{
    let letter = match volume_letter(target) {
        Some(l) => l,
        None => {
            return false;
        },
    };
    let mut i: usize = 0;
    while i < drives.len()
        invariant
            i <= drives@.len(),
            spec_volume_letter(target@) == Some(letter),
            forall|j: int| 0 <= j < i ==> !is_ntfs_root(#[trigger] drives@[j], letter),
        decreases drives@.len() - i,
    {
        let d = &drives[i];
        let root = d.root.as_str();
        if root.unicode_len() > 0 && root.get_char(0) == letter && eq_ignore_ascii_case(d.fs.as_str(), "NTFS") {
            assert(is_ntfs_root(drives@[i as int], letter));
            return true;
        }
        i += 1;
    }
    false
}

/// The arguments of the elevated copy started for `--mft`: the option
/// again, then the target quoted, if one was given.
pub open spec fn mft_relaunch_args(target: Option<Seq<char>>) -> Seq<char> {
    match target {
        Some(t) => "--mft"@ + seq![' '] + spec_quote_arg(t),
        None => "--mft"@,
    }
}

/// `--mft`: restart elevated when that enables the MFT scanner, i.e. when
/// not elevated yet and the target is the root of a local NTFS drive (or no
/// target was given, so the drive is picked later). Returns the arguments for the
/// elevated copy, or `None` when restarting would not help.
pub fn elevate_for_mft(elevated: bool, target: Option<&str>, drives: &[Drive]) -> (r: Option<String>)
    ensures
        r is Some <==> !elevated && match target {
            Some(t) => spec_on_ntfs(t@, drives@),
            None => true,
        },
        r is Some ==> r->0@ == mft_relaunch_args(
            match target {
                Some(t) => Some(t@),
                None => None,
            },
        ),
{
    if elevated {
        return None;
    }
    let useful = match target {
        None => true,
        Some(p) => on_ntfs_drive(p, drives),
    };
    if !useful {
        return None;
    }
    let mut args = String::new();
    push_str(&mut args, "--mft");
    if let Some(p) = target {
        push_char(&mut args, ' ');
        let q = quote_arg(p);
        push_str(&mut args, q.as_str());
    }
    proof {
        match target {
            Some(t) => assert(args@ =~= "--mft"@ + seq![' '] + spec_quote_arg(t@)),
            None => assert(args@ =~= "--mft"@),
        }
    }
    Some(args)
}

/// Position of the first drive whose root is `path` (ignoring ASCII case),
/// or `usize::MAX` when none is.
pub fn drive_index(drives: &[Drive], path: &str) -> (r: usize)
    ensures
        r == usize::MAX <==> forall|i: int| 0 <= i < drives@.len() ==> !eq_ignore_case(#[trigger] drives@[i].root@, path@),
        r != usize::MAX ==> r < drives@.len() && eq_ignore_case(drives@[r as int].root@, path@) && forall|j: int|
            0 <= j < r ==> !eq_ignore_case(#[trigger] drives@[j].root@, path@),
{
    let mut i: usize = 0;
    while i < drives.len()
        invariant
            i <= drives@.len(),
            forall|j: int| 0 <= j < i ==> !eq_ignore_case(#[trigger] drives@[j].root@, path@),
        decreases drives@.len() - i,
    {
        if eq_ignore_ascii_case(drives[i].root.as_str(), path) {
            return i;
        }
        i += 1;
    }
    usize::MAX
}

/// `GetDriveTypeW` code of a removable drive (`DRIVE_*` in winbase.h).
pub const DRIVE_REMOVABLE: u32 = 2;
/// `GetDriveTypeW` code of a fixed disk.
pub const DRIVE_FIXED: u32 = 3;
/// `GetDriveTypeW` code of a network drive.
pub const DRIVE_REMOTE: u32 = 4;
/// `GetDriveTypeW` code of a CD-ROM drive.
pub const DRIVE_CDROM: u32 = 5;
/// `GetDriveTypeW` code of a RAM disk.
pub const DRIVE_RAMDISK: u32 = 6;

/// The kind of drive a `GetDriveTypeW` code stands for.
pub open spec fn spec_drive_kind(code: u32) -> DriveKind {
    if code == DRIVE_FIXED {
        DriveKind::Fixed
    } else if code == DRIVE_REMOVABLE {
        DriveKind::Removable
    } else if code == DRIVE_REMOTE {
        DriveKind::Remote
    } else if code == DRIVE_CDROM {
        DriveKind::CdRom
    } else if code == DRIVE_RAMDISK {
        DriveKind::RamDisk
    } else {
        DriveKind::Unknown
    }
}

/// The kind of drive a `GetDriveTypeW` code stands for.
pub fn drive_kind(code: u32) -> (k: DriveKind)
    ensures
        k == spec_drive_kind(code),
{
    match code {
        DRIVE_FIXED => DriveKind::Fixed,
        DRIVE_REMOVABLE => DriveKind::Removable,
        DRIVE_REMOTE => DriveKind::Remote,
        DRIVE_CDROM => DriveKind::CdRom,
        DRIVE_RAMDISK => DriveKind::RamDisk,
        _ => DriveKind::Unknown,
    }
}

/// Whether bit `i` of the `GetLogicalDrives` mask is set, i.e. drive letter
/// `'A' + i` exists.
pub open spec fn has_drive(mask: u32, i: u32) -> bool {
    mask & (1u32 << i) != 0
}

/// The root `X:\` of drive letter `'A' + i`.
pub open spec fn drive_root_of(i: u32) -> Seq<char> {
    seq![((65 + i) as u8) as char, ':', '\\']
}

/// Roots of the drives among the first `n` letters that the mask names, in
/// letter order.
pub open spec fn drive_roots_upto(mask: u32, n: u32) -> Seq<Seq<char>>
    decreases n,
{
    if n == 0 {
        Seq::empty()
    } else {
        let prev = drive_roots_upto(mask, (n - 1) as u32);
        if has_drive(mask, (n - 1) as u32) {
            prev.push(drive_root_of((n - 1) as u32))
        } else {
            prev
        }
    }
}

/// Roots (`C:\`) of the drives whose letters are set in a `GetLogicalDrives`
/// mask, bit 0 being `A`, in letter order.
pub fn drive_roots(mask: u32) -> (r: Vec<String>)
    ensures
        r@.len() == drive_roots_upto(mask, 26).len(),
        forall|k: int| 0 <= k < r@.len() ==> #[trigger] r@[k]@ == drive_roots_upto(mask, 26)[k],
{
    let mut out: Vec<String> = Vec::new();
    let mut i: u32 = 0;
    while i < 26
        invariant
            i <= 26,
            out@.len() == drive_roots_upto(mask, i).len(),
            forall|k: int| 0 <= k < out@.len() ==> #[trigger] out@[k]@ == drive_roots_upto(mask, i)[k],
        decreases 26 - i,
    {
        if mask & (1u32 << i) != 0 {
            let mut root = String::new();
            push_char(&mut root, (65u8 + i as u8) as char);
            push_char(&mut root, ':');
            push_char(&mut root, '\\');
            assert(root@ =~= drive_root_of(i));
            out.push(root);
        }
        i += 1;
    }
    out
}

/// Bytes per cluster from `GetDiskFreeSpaceW`'s answer: sectors per cluster
/// times bytes per sector, or 4096 when the call failed or gave a zero.
pub fn cluster_bytes(ok: bool, sectors_per_cluster: u32, bytes_per_sector: u32) -> (r: u64)
    ensures
        r == if ok && sectors_per_cluster > 0 && bytes_per_sector > 0 {
            sectors_per_cluster * bytes_per_sector
        } else {
            4096
        },
{
    if ok && sectors_per_cluster > 0 && bytes_per_sector > 0 {
        assert(sectors_per_cluster * bytes_per_sector <= u32::MAX * u32::MAX) by (nonlinear_arith)
            requires
                sectors_per_cluster <= u32::MAX,
                bytes_per_sector <= u32::MAX,
        ;
        sectors_per_cluster as u64 * bytes_per_sector as u64
    } else {
        4096
    }
}

/// The 64-bit size that `GetCompressedFileSizeW` reports in two halves.
pub fn size_from_halves(high: u32, low: u32) -> (r: u64)
    ensures
        r == high * 0x1_0000_0000 + low,
{
    let r = ((high as u64) << 32u64) | low as u64;
    assert(((high as u64) << 32u64) | (low as u64) == (high as u64) * 0x1_0000_0000 + (low as u64)) by (bit_vector);
    r
}

/// The argument Explorer is started with: a directory is opened itself, a
/// file is shown selected in its folder. Explorer parses its own command
/// line, so the path is quoted plainly (Windows paths hold no quotes).
pub open spec fn spec_explorer_arg(path: Seq<char>, is_dir: bool) -> Seq<char> {
    if is_dir {
        seq!['"'] + path + seq!['"']
    } else {
        "/select,"@ + seq!['"'] + path + seq!['"']
    }
}

/// The argument Explorer is started with: a directory is opened itself, a
/// file is shown selected in its folder.
pub fn explorer_arg(path: &str, is_dir: bool) -> (r: String)
    ensures
        r@ == spec_explorer_arg(path@, is_dir),
{
    let mut r = String::new();
    if !is_dir {
        push_str(&mut r, "/select,");
    }
    push_char(&mut r, '"');
    push_str(&mut r, path);
    push_char(&mut r, '"');
    proof {
        reveal_strlit("/select,");
        if is_dir {
            assert(r@ =~= seq!['"'] + path@ + seq!['"']);
        } else {
            assert(r@ =~= "/select,"@ + seq!['"'] + path@ + seq!['"']);
        }
    }
    r
}

} // verus!
