//! What the directory walk makes of one directory listing: which entries
//! are files (and how much space they take), which are subdirectories to
//! walk next, and which are links that are skipped.
use vstd::prelude::*;

use crate::model::RawFile;

verus! {

pub const FILE_ATTRIBUTE_DIRECTORY: u32 = 0x10;
pub const FILE_ATTRIBUTE_SPARSE_FILE: u32 = 0x200;
pub const FILE_ATTRIBUTE_REPARSE_POINT: u32 = 0x400;
pub const FILE_ATTRIBUTE_COMPRESSED: u32 = 0x800;

/// `size` rounded up to whole clusters (0 stays 0).
pub open spec fn spec_round_up(size: nat, cluster: nat) -> nat
    recommends
        cluster > 0,
{
    if size == 0 {
        0
    } else {
        (((size + cluster - 1) as nat / cluster) * cluster) as nat
    }
}

/// `size` rounded up to whole clusters (0 stays 0).
pub fn round_up(size: u64, cluster: u64) -> (r: u64)
    requires
        cluster > 0,
        spec_round_up(size as nat, cluster as nat) <= u64::MAX,
    ensures
        r == spec_round_up(size as nat, cluster as nat),
{
    if size == 0 {
        0
    } else {
        let d = size / cluster;
        let extra: u64 = if size % cluster != 0 {
            1
        } else {
            0
        };
        proof {
            if extra == 1 {
                assert(d < u64::MAX) by (nonlinear_arith)
                    requires
                        cluster >= 2,
                        d == size / cluster,
                ;
            }
        }
        let q = d + extra;
        proof {
            assert(q == (size + cluster - 1) as nat / cluster as nat) by (nonlinear_arith)
                requires
                    cluster > 0,
                    q == size / cluster + if size % cluster != 0 {
                        1int
                    } else {
                        0int
                    },
            ;
        }
        q * cluster
    }
}

/// Space a file of `size` bytes takes on a volume with `cluster`-byte
/// clusters. A compressed or sparse file (by its attributes `attrs`) takes
/// its on-disk size `compressed` rounded up to clusters, when that could be
/// obtained; any other file its size rounded up.
pub open spec fn spec_file_alloc(size: u64, attrs: u32, compressed: Option<u64>, cluster: u64) -> nat {
    if attrs & (FILE_ATTRIBUTE_COMPRESSED | FILE_ATTRIBUTE_SPARSE_FILE) != 0 {
        match compressed {
            Some(s) => spec_round_up(s as nat, cluster as nat),
            None => spec_round_up(size as nat, cluster as nat),
        }
    } else {
        spec_round_up(size as nat, cluster as nat)
    }
}

/// Space a file takes on disk; `compressed` is its on-disk size as the
/// volume reports it for compressed and sparse files (`None` if that could
/// not be read).
pub fn file_alloc(size: u64, attrs: u32, compressed: Option<u64>, cluster: u64) -> (r: u64)
    requires
        cluster > 0,
        spec_file_alloc(size, attrs, compressed, cluster) <= u64::MAX,
    ensures
        r == spec_file_alloc(size, attrs, compressed, cluster),
{
    if attrs & (FILE_ATTRIBUTE_COMPRESSED | FILE_ATTRIBUTE_SPARSE_FILE) != 0 {
        match compressed {
            Some(s) => round_up(s, cluster),
            None => round_up(size, cluster),
        }
    } else {
        round_up(size, cluster)
    }
}

/// One entry of a directory listing.
pub struct DirEntry {
    pub name: String,
    /// `FILE_ATTRIBUTE_*` flags.
    pub attrs: u32,
    pub size: u64,
}

/// A symbolic link or junction (by its attributes).
pub open spec fn is_link_attrs(attrs: u32) -> bool {
    attrs & FILE_ATTRIBUTE_REPARSE_POINT != 0
}

/// A directory (by its attributes).
pub open spec fn is_dir_attrs(attrs: u32) -> bool {
    attrs & FILE_ATTRIBUTE_DIRECTORY != 0
}

/// A file stored compressed or sparse (by its attributes), whose on-disk
/// size has to be asked for.
pub open spec fn is_special_attrs(attrs: u32) -> bool {
    attrs & (FILE_ATTRIBUTE_COMPRESSED | FILE_ATTRIBUTE_SPARSE_FILE) != 0
}

impl DirEntry {
    /// A symbolic link or junction.
    pub fn is_link(&self) -> (r: bool)
        ensures
            r == is_link_attrs(self.attrs),
    {
        self.attrs & FILE_ATTRIBUTE_REPARSE_POINT != 0
    }

    pub fn is_dir(&self) -> (r: bool)
        ensures
            r == is_dir_attrs(self.attrs),
    {
        self.attrs & FILE_ATTRIBUTE_DIRECTORY != 0
    }

    /// A file (not a link, not a directory) stored compressed or sparse,
    /// whose on-disk size the walk asks the volume for.
    pub fn needs_compressed_size(&self) -> (r: bool)
        ensures
            r == (!is_link_attrs(self.attrs) && !is_dir_attrs(self.attrs) && is_special_attrs(self.attrs)),
    {
        !self.is_link() && !self.is_dir() && self.attrs & (FILE_ATTRIBUTE_COMPRESSED | FILE_ATTRIBUTE_SPARSE_FILE) != 0
    }
}

/// An entry that is listed as a file: neither a link nor a directory.
pub open spec fn is_file_entry(e: DirEntry) -> bool {
    !is_link_attrs(e.attrs) && !is_dir_attrs(e.attrs)
}

/// An entry that is walked into: a directory that is not a link. Links are
/// skipped to avoid cycles and double counting.
pub open spec fn is_subdir_entry(e: DirEntry) -> bool {
    !is_link_attrs(e.attrs) && is_dir_attrs(e.attrs)
}

/// The files among the first `n` entries: name, size and space taken, with
/// `compressed[i]` the on-disk size read for entry `i`.
pub open spec fn listed_files(es: Seq<DirEntry>, compressed: Seq<Option<u64>>, cluster: u64, n: nat) -> Seq<
    (Seq<char>, u64, nat),
>
    decreases n,
{
    if n == 0 {
        Seq::empty()
    } else {
        let prev = listed_files(es, compressed, cluster, (n - 1) as nat);
        let e = es[n - 1];
        if is_file_entry(e) {
            prev.push((e.name@, e.size, spec_file_alloc(e.size, e.attrs, compressed[n - 1], cluster)))
        } else {
            prev
        }
    }
}

/// Names of the subdirectories to walk among the first `n` entries.
pub open spec fn listed_subdirs(es: Seq<DirEntry>, n: nat) -> Seq<Seq<char>>
    decreases n,
{
    if n == 0 {
        Seq::empty()
    } else {
        let prev = listed_subdirs(es, (n - 1) as nat);
        if is_subdir_entry(es[n - 1]) {
            prev.push(es[n - 1].name@)
        } else {
            prev
        }
    }
}

/// Total size of the files among the first `n` entries.
pub open spec fn listed_bytes(es: Seq<DirEntry>, n: nat) -> nat
    decreases n,
{
    if n == 0 {
        0
    } else {
        listed_bytes(es, (n - 1) as nat) + if is_file_entry(es[n - 1]) {
            es[n - 1].size as nat
        } else {
            0
        }
    }
}

/// Every number the listing is made of fits 64 bits: the space each file
/// takes and the total size of the files.
pub open spec fn listing_fits(es: Seq<DirEntry>, compressed: Seq<Option<u64>>, cluster: u64) -> bool {
    &&& listed_bytes(es, es.len()) <= u64::MAX
    &&& forall|i: int|
        0 <= i < es.len() && is_file_entry(#[trigger] es[i]) ==> spec_file_alloc(
            es[i].size,
            es[i].attrs,
            compressed[i],
            cluster,
        ) <= u64::MAX
}

proof fn lemma_listed_bytes_mono(es: Seq<DirEntry>, m: nat, n: nat)
    requires
        m <= n <= es.len(),
    ensures
        listed_bytes(es, m) <= listed_bytes(es, n),
    decreases n - m,
{
    if m < n {
        lemma_listed_bytes_mono(es, m, (n - 1) as nat);
    }
}

/// The files of a directory listing, in listing order.
pub struct Listing {
    pub files: Vec<RawFile>,
    /// Subdirectories to walk, by name, in listing order.
    pub subdirs: Vec<String>,
    /// Total size of the files.
    pub bytes: u64,
}

/// Whether the numbers of a listing fit 64 bits (see [`listing_fits`]).
pub fn check_listing(entries: &Vec<DirEntry>, compressed: &Vec<Option<u64>>, cluster: u64) -> (r: bool)
    requires
        compressed@.len() == entries@.len(),
        cluster > 0,
    ensures
        r == listing_fits(entries@, compressed@, cluster),
{
    let mut bytes: u64 = 0;
    let mut i: usize = 0;
    while i < entries.len()
        invariant
            i <= entries@.len(),
            compressed@.len() == entries@.len(),
            cluster > 0,
            bytes == listed_bytes(entries@, i as nat),
            forall|j: int|
                0 <= j < i && is_file_entry(#[trigger] entries@[j]) ==> spec_file_alloc(
                    entries@[j].size,
                    entries@[j].attrs,
                    compressed@[j],
                    cluster,
                ) <= u64::MAX,
        decreases entries@.len() - i,
    {
        let e = &entries[i];
        if !e.is_link() && !e.is_dir() {
            let special = e.attrs & (FILE_ATTRIBUTE_COMPRESSED | FILE_ATTRIBUTE_SPARSE_FILE) != 0;
            let counted = match compressed[i] {
                Some(c) => if special {
                    c
                } else {
                    e.size
                },
                None => e.size,
            };
            // Rounded up to whole clusters, the size must still fit.
            let fits = match (counted / cluster).checked_mul(cluster) {
                Some(lo) => lo == counted || lo.checked_add(cluster).is_some(),
                None => false,
            };
            proof {
                lemma_round_up_fits(counted as nat, cluster as nat);
            }
            if !fits {
                proof {
                    lemma_listed_bytes_mono(entries@, (i + 1) as nat, entries@.len());
                }
                return false;
            }
            if e.size > u64::MAX - bytes {
                proof {
                    lemma_listed_bytes_mono(entries@, (i + 1) as nat, entries@.len());
                }
                return false;
            }
            bytes = bytes + e.size;
        }
        i += 1;
    }
    true
}

/// Whether `size` rounded up to whole clusters fits 64 bits, in the terms
/// the check computes it.
proof fn lemma_round_up_fits(size: nat, cluster: nat)
    requires
        cluster > 0,
        size <= u64::MAX,
    ensures
        ((size / cluster) * cluster <= u64::MAX),
        spec_round_up(size, cluster) == if (size / cluster) * cluster == size {
            size
        } else {
            (size / cluster) * cluster + cluster
        },
{
    assert((size / cluster) * cluster <= size) by (nonlinear_arith)
        requires
            cluster > 0,
    ;
    if size > 0 {
        assert(((size + cluster - 1) as nat / cluster) * cluster == if (size / cluster) * cluster == size {
            size
        } else {
            (size / cluster) * cluster + cluster
        }) by (nonlinear_arith)
            requires
                cluster > 0,
                size > 0,
        ;
    }
}

/// Sort the entries of one directory listing: links are skipped,
/// directories are named for walking, files are kept with the space they
/// take. `compressed[i]` is the on-disk size read for entry `i` where
/// [`DirEntry::needs_compressed_size`] asked for it.
pub fn sort_listing(entries: &Vec<DirEntry>, compressed: &Vec<Option<u64>>, cluster: u64) -> (r: Listing)
    requires
        compressed@.len() == entries@.len(),
        cluster > 0,
        listing_fits(entries@, compressed@, cluster),
    ensures
        r.files@.len() == listed_files(entries@, compressed@, cluster, entries@.len()).len(),
        forall|k: int|
            0 <= k < r.files@.len() ==> ((#[trigger] r.files@[k]).name@, r.files@[k].size, r.files@[k].alloc as nat)
                == listed_files(entries@, compressed@, cluster, entries@.len())[k],
        r.subdirs@.len() == listed_subdirs(entries@, entries@.len()).len(),
        forall|k: int| 0 <= k < r.subdirs@.len() ==> (#[trigger] r.subdirs@[k])@ == listed_subdirs(entries@, entries@.len())[k],
        r.bytes == listed_bytes(entries@, entries@.len()),
{
    let ghost es = entries@;
    let ghost cs = compressed@;
    let mut files: Vec<RawFile> = Vec::new();
    let mut subdirs: Vec<String> = Vec::new();
    let mut bytes: u64 = 0;
    let mut i: usize = 0;
    while i < entries.len()
        invariant
            i <= es.len(),
            es == entries@,
            cs == compressed@,
            cs.len() == es.len(),
            cluster > 0,
            listing_fits(es, cs, cluster),
            files@.len() == listed_files(es, cs, cluster, i as nat).len(),
            forall|k: int|
                0 <= k < files@.len() ==> ((#[trigger] files@[k]).name@, files@[k].size, files@[k].alloc as nat)
                    == listed_files(es, cs, cluster, i as nat)[k],
            subdirs@.len() == listed_subdirs(es, i as nat).len(),
            forall|k: int| 0 <= k < subdirs@.len() ==> (#[trigger] subdirs@[k])@ == listed_subdirs(es, i as nat)[k],
            bytes == listed_bytes(es, i as nat),
        decreases es.len() - i,
    {
        let e = &entries[i];
        proof {
            lemma_listed_bytes_mono(es, (i + 1) as nat, es.len());
        }
        if e.is_link() {
        } else if e.is_dir() {
            subdirs.push(e.name.clone());
        } else {
            proof {
                assert(is_file_entry(es[i as int]));
            }
            let alloc = file_alloc(e.size, e.attrs, compressed[i], cluster);
            bytes = bytes + e.size;
            files.push(RawFile { name: e.name.clone(), size: e.size, alloc });
        }
        i += 1;
    }
    Listing { files, subdirs, bytes }
}

} // verus!
