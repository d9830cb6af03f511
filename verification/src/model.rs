//! Arena-based directory tree.
//!
//! All nodes live in one `Vec<Node>` packed in DFS order; the children of a
//! node form a contiguous slice sorted by logical size (descending). This
//! keeps traversal allocation-free and makes "largest first" ordering free at
//! layout time.
use std::ops::Range;

use vstd::prelude::*;

use vstd::arithmetic::power::{lemma_pow_adds, lemma_pow_increases, lemma_pow_positive, lemma_pow1, pow};

use crate::sums::{is_perm, lemma_sum_perm, lemma_sum_seq_take, sum_range, sum_seq};

verus! {

/// Sentinel id meaning "no node" (the parent of the root).
pub const NO_NODE: u32 = 0xFFFF_FFFFu32;

/// Which size a view is measured by.
#[derive(Clone, Copy, Debug, PartialEq, Eq, Structural)]
pub enum Metric {
    Logical,
    Physical,
}

/// Intermediate file entry produced by a scanner before packing.
#[derive(Debug)]
pub struct RawFile {
    pub name: String,
    pub size: u64,
    pub alloc: u64,
}

/// Intermediate tree produced by a scanner before packing.
#[derive(Debug)]
pub struct RawDir {
    pub name: String,
    pub files: Vec<RawFile>,
    pub subdirs: Vec<RawDir>,
    /// Subtree totals, computed by `RawDir::finalize`.
    pub size: u64,
    pub alloc: u64,
    pub file_count: u32,
    pub dir_count: u32,
}

impl Default for RawDir {
    fn default() -> (d: Self)
        ensures
            d.name@ == Seq::<char>::empty(),
            d.files@.len() == 0,
            d.subdirs@.len() == 0,
            d.size == 0 && d.alloc == 0 && d.file_count == 0 && d.dir_count == 0,
    {
        RawDir {
            name: String::new(),
            files: Vec::new(),
            subdirs: Vec::new(),
            size: 0,
            alloc: 0,
            file_count: 0,
            dir_count: 0,
        }
    }
}

/// Subtree totals of a raw directory, as mathematical integers.
pub struct Totals {
    /// Logical bytes of all files below.
    pub size: nat,
    /// Allocated bytes of all files below.
    pub alloc: nat,
    /// Number of files below.
    pub files: nat,
    /// Number of directories below (the directory itself excluded).
    pub dirs: nat,
}

pub open spec fn zero_totals() -> Totals {
    Totals { size: 0, alloc: 0, files: 0, dirs: 0 }
}

pub open spec fn add_totals(a: Totals, b: Totals) -> Totals {
    Totals {
        size: a.size + b.size,
        alloc: a.alloc + b.alloc,
        files: a.files + b.files,
        dirs: a.dirs + b.dirs,
    }
}

/// Sizes of the first `n` files (and `n` itself as the file count).
pub open spec fn files_totals(fs: Seq<RawFile>, n: nat) -> Totals
    decreases n,
{
    if n == 0 {
        zero_totals()
    } else {
        add_totals(
            files_totals(fs, (n - 1) as nat),
            Totals { size: fs[n - 1].size as nat, alloc: fs[n - 1].alloc as nat, files: 1, dirs: 0 },
        )
    }
}

/// Totals of the whole subtree of `d` (its own stored totals are ignored).
pub open spec fn totals(d: RawDir) -> Totals
    decreases d, d.subdirs@.len() + 1,
{
    add_totals(
        add_totals(
            files_totals(d.files@, d.files@.len()),
            Totals { size: 0, alloc: 0, files: 0, dirs: d.subdirs@.len() },
        ),
        subdirs_totals(d, d.subdirs@.len()),
    )
}

/// Sum of the subtree totals of the first `n` subdirectories of `d`.
pub open spec fn subdirs_totals(d: RawDir, n: nat) -> Totals
    decreases d, n,
{
    if n == 0 || n > d.subdirs@.len() {
        zero_totals()
    } else {
        add_totals(subdirs_totals(d, (n - 1) as nat), totals(d.subdirs@[n - 1]))
    }
}

/// The totals fit the integer types they are stored in.
pub open spec fn totals_fit(t: Totals) -> bool {
    t.size <= u64::MAX && t.alloc <= u64::MAX && t.files <= u32::MAX && t.dirs <= u32::MAX
}

/// Every directory of the subtree stores its correct totals.
pub open spec fn finalized(d: RawDir) -> bool
    decreases d,
{
    &&& d.size == totals(d).size
    &&& d.alloc == totals(d).alloc
    &&& d.file_count == totals(d).files
    &&& d.dir_count == totals(d).dirs
    &&& forall|j: int| 0 <= j < d.subdirs@.len() ==> finalized(#[trigger] d.subdirs@[j])
}

/// Same names, files and directory structure; stored totals may differ.
pub open spec fn same_shape(a: RawDir, b: RawDir) -> bool
    decreases a,
{
    &&& a.name@ == b.name@
    &&& a.files@ == b.files@
    &&& a.subdirs@.len() == b.subdirs@.len()
    &&& forall|j: int| 0 <= j < a.subdirs@.len() ==> same_shape(#[trigger] a.subdirs@[j], b.subdirs@[j])
}

/// Totals depend on the shape only.
pub proof fn lemma_shape_totals(a: RawDir, b: RawDir)
    requires
        same_shape(a, b),
    ensures
        totals(a) == totals(b),
    decreases a, a.subdirs@.len() + 1,
{
    lemma_shape_subdirs_totals(a, b, a.subdirs@.len());
}

proof fn lemma_shape_subdirs_totals(a: RawDir, b: RawDir, n: nat)
    requires
        same_shape(a, b),
        n <= a.subdirs@.len(),
    ensures
        subdirs_totals(a, n) == subdirs_totals(b, n),
    decreases a, n,
{
    if n > 0 {
        lemma_shape_subdirs_totals(a, b, (n - 1) as nat);
        assert(a.subdirs@.len() == b.subdirs@.len());
        assert(0 <= n - 1 < a.subdirs@.len());
        assert(same_shape(a.subdirs@[n - 1], b.subdirs@[n - 1]));
        lemma_shape_totals(a.subdirs@[n - 1], b.subdirs@[n - 1]);
    }
}

/// Partial sums of subdirectory totals grow with `n`.
proof fn lemma_subdirs_totals_mono(d: RawDir, m: nat, n: nat)
    requires
        m <= n <= d.subdirs@.len(),
    ensures
        subdirs_totals(d, m).size <= subdirs_totals(d, n).size,
        subdirs_totals(d, m).alloc <= subdirs_totals(d, n).alloc,
        subdirs_totals(d, m).files <= subdirs_totals(d, n).files,
        subdirs_totals(d, m).dirs <= subdirs_totals(d, n).dirs,
    decreases n,
{
    if m < n {
        lemma_subdirs_totals_mono(d, m, (n - 1) as nat);
    }
}

/// Partial sums of file sizes grow with `n`.
proof fn lemma_files_totals_mono(fs: Seq<RawFile>, m: nat, n: nat)
    requires
        m <= n,
    ensures
        files_totals(fs, m).size <= files_totals(fs, n).size,
        files_totals(fs, m).alloc <= files_totals(fs, n).alloc,
        files_totals(fs, n).files == n,
        files_totals(fs, n).dirs == 0,
    decreases n,
{
    if m < n {
        lemma_files_totals_mono(fs, m, (n - 1) as nat);
    } else if n > 0 {
        lemma_files_totals_mono(fs, (n - 1) as nat, (n - 1) as nat);
    }
}

impl RawDir {
    /// The subtree totals (logical size, allocated size, files,
    /// directories), when they fit the integer types a model stores them in.
    pub fn checked_totals(&self) -> (r: Option<(u64, u64, u32, u32)>)
        ensures
            match r {
                Some(t) => totals_fit(totals(*self)) && t.0 == totals(*self).size && t.1 == totals(*self).alloc
                    && t.2 == totals(*self).files && t.3 == totals(*self).dirs,
                None => !totals_fit(totals(*self)),
            },
        decreases *self,
    {
        let ghost fs = self.files@;
        let ghost nf = fs.len();
        let ghost ns = self.subdirs@.len();
        let ghost t = totals(*self);
        proof {
            lemma_files_totals_mono(fs, 0, nf);
            lemma_subdirs_totals_mono(*self, 0, ns);
        }
        let mut size: u64 = 0;
        let mut alloc: u64 = 0;
        let mut i: usize = 0;
        while i < self.files.len()
            invariant
                fs == self.files@,
                nf == fs.len(),
                t == totals(*self),
                t.size == files_totals(fs, nf).size + subdirs_totals(*self, ns).size,
                t.alloc == files_totals(fs, nf).alloc + subdirs_totals(*self, ns).alloc,
                i <= nf,
                size == files_totals(fs, i as nat).size,
                alloc == files_totals(fs, i as nat).alloc,
            decreases nf - i,
        {
            proof {
                lemma_files_totals_mono(fs, (i + 1) as nat, nf);
            }
            let f = &self.files[i];
            match size.checked_add(f.size) {
                Some(v) => size = v,
                None => return None,
            }
            match alloc.checked_add(f.alloc) {
                Some(v) => alloc = v,
                None => return None,
            }
            i += 1;
        }
        proof {
            lemma_files_totals_mono(fs, nf, nf);
        }
        let nfiles = self.files.len();
        let nsubs = self.subdirs.len();
        if nfiles > 0xFFFF_FFFF || nsubs > 0xFFFF_FFFF {
            return None;
        }
        let mut files: u32 = nfiles as u32;
        let mut dirs: u32 = nsubs as u32;
        let mut j: usize = 0;
        while j < self.subdirs.len()
            invariant
                ns == self.subdirs@.len(),
                t == totals(*self),
                t.size == files_totals(fs, nf).size + subdirs_totals(*self, ns).size,
                t.alloc == files_totals(fs, nf).alloc + subdirs_totals(*self, ns).alloc,
                t.files == nf + subdirs_totals(*self, ns).files,
                t.dirs == ns + subdirs_totals(*self, ns).dirs,
                j <= ns,
                size == files_totals(fs, nf).size + subdirs_totals(*self, j as nat).size,
                alloc == files_totals(fs, nf).alloc + subdirs_totals(*self, j as nat).alloc,
                files == nf + subdirs_totals(*self, j as nat).files,
                dirs == ns + subdirs_totals(*self, j as nat).dirs,
            decreases ns - j,
        {
            proof {
                lemma_subdirs_totals_mono(*self, (j + 1) as nat, ns);
            }
            let sub = match self.subdirs[j].checked_totals() {
                Some(st) => st,
                None => return None,
            };
            match size.checked_add(sub.0) {
                Some(v) => size = v,
                None => return None,
            }
            match alloc.checked_add(sub.1) {
                Some(v) => alloc = v,
                None => return None,
            }
            match files.checked_add(sub.2) {
                Some(v) => files = v,
                None => return None,
            }
            match dirs.checked_add(sub.3) {
                Some(v) => dirs = v,
                None => return None,
            }
            j += 1;
        }
        Some((size, alloc, files, dirs))
    }

    /// Whether the tree can be packed into a model: its totals fit, and so
    /// does the number of nodes.
    pub fn fits_model(&self) -> (r: bool)
        ensures
            r == (totals_fit(totals(*self)) && 1 + totals(*self).files + totals(*self).dirs < NO_NODE),
    {
        match self.checked_totals() {
            Some((_, _, files, dirs)) => (files as u64) + (dirs as u64) + 1 < NO_NODE as u64,
            None => false,
        }
    }

    /// Compute subtree aggregates bottom-up.
    pub fn finalize(&mut self)
        requires
            totals_fit(totals(*old(self))),
        ensures
            finalized(*final(self)),
            same_shape(*old(self), *final(self)),
            totals(*final(self)) == totals(*old(self)),
        decreases *old(self),
    {
        let ghost t0 = totals(*self);
        let ghost n_files = self.files@.len();
        let ghost n_subs = self.subdirs@.len();
        proof {
            lemma_files_totals_mono(self.files@, 0, n_files);
            lemma_subdirs_totals_mono(*self, 0, n_subs);
        }
        let mut size: u64 = 0;
        let mut alloc: u64 = 0;
        let mut files: u32 = self.files.len() as u32;
        let mut dirs: u32 = self.subdirs.len() as u32;
        let mut i: usize = 0;
        while i < self.files.len()
            invariant
                i <= self.files@.len() == n_files,
                self.subdirs@.len() == n_subs,
                totals(*self) == t0,
                totals_fit(t0),
                size == files_totals(self.files@, i as nat).size,
                alloc == files_totals(self.files@, i as nat).alloc,
                files == n_files,
                dirs == n_subs,
            decreases n_files - i,
        {
            proof {
                lemma_files_totals_mono(self.files@, (i + 1) as nat, n_files);
                lemma_subdirs_totals_mono(*self, 0, n_subs);
            }
            size = size + self.files[i].size;
            alloc = alloc + self.files[i].alloc;
            i += 1;
        }
        let ghost old_self = *self;
        proof {
            assert forall|k: int| 0 <= k < n_subs implies same_shape(
                #[trigger] old_self.subdirs@[k],
                self.subdirs@[k],
            ) by {
                lemma_same_shape_refl(old_self.subdirs@[k]);
            }
        }
        let mut j: usize = 0;
        while j < self.subdirs.len()
            invariant
                j <= self.subdirs@.len() == n_subs,
                old_self.subdirs@.len() == n_subs,
                old_self == *old(self),
                forall|k: int| j <= k < n_subs ==> #[trigger] self.subdirs@[k] == old_self.subdirs@[k],
                self.name@ == old_self.name@,
                self.files@ == old_self.files@,
                forall|k: int| 0 <= k < j ==> finalized(#[trigger] self.subdirs@[k]),
                forall|k: int|
                    0 <= k < n_subs ==> same_shape(#[trigger] old_self.subdirs@[k], self.subdirs@[k]),
                totals(old_self) == t0,
                totals_fit(t0),
                t0 == add_totals(
                    add_totals(
                        files_totals(old_self.files@, n_files),
                        Totals { size: 0, alloc: 0, files: 0, dirs: n_subs },
                    ),
                    subdirs_totals(old_self, n_subs),
                ),
                size == files_totals(self.files@, n_files).size + subdirs_totals(old_self, j as nat).size,
                alloc == files_totals(self.files@, n_files).alloc + subdirs_totals(old_self, j as nat).alloc,
                files == n_files + subdirs_totals(old_self, j as nat).files,
                dirs == n_subs + subdirs_totals(old_self, j as nat).dirs,
            decreases n_subs - j,
        {
            let ghost before = self.subdirs@[j as int];
            proof {
                lemma_shape_totals(old_self.subdirs@[j as int], before);
                lemma_subdirs_totals_mono(old_self, (j + 1) as nat, n_subs);
                lemma_files_totals_mono(self.files@, 0, n_files);
                assert(decreases_to!(old_self => old_self.subdirs));
                assert(decreases_to!(old_self.subdirs => old_self.subdirs@));
                assert(decreases_to!(old_self.subdirs@ => old_self.subdirs@[j as int]));
                assert(decreases_to!(*old(self) => before));
            }
            self.subdirs[j].finalize();
            proof {
                lemma_shape_totals(before, self.subdirs@[j as int]);
                assert(same_shape(old_self.subdirs@[j as int], self.subdirs@[j as int])) by {
                    lemma_same_shape_trans(old_self.subdirs@[j as int], before, self.subdirs@[j as int]);
                }
                assert(finalized(self.subdirs@[j as int]));
                assert(subdirs_totals(old_self, (j + 1) as nat) == add_totals(
                    subdirs_totals(old_self, j as nat),
                    totals(old_self.subdirs@[j as int]),
                ));
            }
            size = size + self.subdirs[j].size;
            alloc = alloc + self.subdirs[j].alloc;
            files = files + self.subdirs[j].file_count;
            dirs = dirs + self.subdirs[j].dir_count;
            j += 1;
        }
        self.size = size;
        self.alloc = alloc;
        self.file_count = files;
        self.dir_count = dirs;
        proof {
            assert(same_shape(old_self, *self));
            lemma_shape_totals(old_self, *self);
        }
    }
}

/// Shape equality is reflexive.
pub proof fn lemma_same_shape_refl(a: RawDir)
    ensures
        same_shape(a, a),
    decreases a,
{
    assert forall|j: int| 0 <= j < a.subdirs@.len() implies same_shape(
        #[trigger] a.subdirs@[j],
        a.subdirs@[j],
    ) by {
        lemma_same_shape_refl(a.subdirs@[j]);
    }
}

/// Shape equality is transitive.
pub proof fn lemma_same_shape_trans(a: RawDir, b: RawDir, c: RawDir)
    requires
        same_shape(a, b),
        same_shape(b, c),
    ensures
        same_shape(a, c),
    decreases a,
{
    assert forall|j: int| 0 <= j < a.subdirs@.len() implies same_shape(
        #[trigger] a.subdirs@[j],
        c.subdirs@[j],
    ) by {
        assert(same_shape(a.subdirs@[j], b.subdirs@[j]));
        assert(same_shape(b.subdirs@[j], c.subdirs@[j]));
        lemma_same_shape_trans(a.subdirs@[j], b.subdirs@[j], c.subdirs@[j]);
    }
}


/// One entry of the packed tree.
#[derive(Clone, Copy, Debug)]
pub struct Node {
    pub is_dir: bool,
    pub parent: u32,
    pub first_child: u32,
    pub child_count: u32,
    /// Logical size in bytes (sum over the subtree for directories).
    pub size: u64,
    /// Allocated size on disk (cluster-rounded), summed over the subtree.
    pub alloc: u64,
    /// Number of files in the subtree.
    pub files: u32,
    /// Number of directories in the subtree (excluding this one).
    pub dirs: u32,
}

impl Node {
    pub open spec fn spec_metric(self, m: Metric) -> u64 {
        match m {
            Metric::Logical => self.size,
            Metric::Physical => self.alloc,
        }
    }

    /// Ids of the children, in stored (size-descending) order.
    pub fn children(&self) -> (r: Range<u32>)
        requires
            self.first_child + self.child_count <= u32::MAX,
        ensures
            r.start == self.first_child,
            r.end == self.first_child + self.child_count,
    {
        self.first_child..self.first_child + self.child_count
    }

    pub fn metric(&self, m: Metric) -> (r: u64)
        ensures
            r == self.spec_metric(m),
    {
        match m {
            Metric::Logical => self.size,
            Metric::Physical => self.alloc,
        }
    }
}

/// `c` lies in the children block of node `i`.
pub open spec fn child_of(nodes: Seq<Node>, i: int, c: int) -> bool {
    nodes[i].first_child <= c < nodes[i].first_child + nodes[i].child_count
}

/// Well-formedness of a packed tree: parent links and children blocks agree,
/// every parent precedes its children, blocks are sorted by logical size and
/// no node is larger (in either metric) than its parent.
pub open spec fn tree_wf(nodes: Seq<Node>, names: Seq<Seq<char>>) -> bool {
    &&& names.len() == nodes.len()
    &&& nodes.len() < NO_NODE
    &&& nodes.len() > 0 ==> nodes[0].parent == NO_NODE && nodes[0].is_dir
    &&& forall|i: int| 0 < i < nodes.len() ==> (#[trigger] nodes[i]).parent < i
    &&& forall|i: int|
        0 < i < nodes.len() ==> child_of(nodes, (#[trigger] nodes[i]).parent as int, i)
    &&& forall|i: int|
        0 <= i < nodes.len() ==> (#[trigger] nodes[i]).first_child + nodes[i].child_count
            <= nodes.len()
    &&& forall|i: int, c: int|
        0 <= i < nodes.len() && #[trigger] child_of(nodes, i, c) ==> nodes[c].parent == i
    &&& forall|i: int| 0 <= i < nodes.len() && !(#[trigger] nodes[i]).is_dir ==> nodes[i].child_count == 0
    &&& forall|i: int|
        0 < i < nodes.len() ==> (#[trigger] nodes[i]).size <= nodes[nodes[i].parent as int].size
            && nodes[i].alloc <= nodes[nodes[i].parent as int].alloc
    &&& forall|i: int, c1: int, c2: int|
        0 <= i < nodes.len() && #[trigger] child_of(nodes, i, c1) && #[trigger] child_of(nodes, i, c2)
            && c1 < c2 ==> nodes[c1].size >= nodes[c2].size
}

// --- correspondence between a raw tree and its packed form ----------------

/// Number of entries (subdirectories, then files) of a raw directory.
pub open spec fn entry_count(d: RawDir) -> nat {
    d.subdirs@.len() + d.files@.len()
}

/// Logical size of entry `e` of `d`: subdirectories come first, then files.
pub open spec fn entry_size(d: RawDir, e: int) -> nat {
    if e < d.subdirs@.len() {
        totals(d.subdirs@[e]).size
    } else {
        d.files@[e - d.subdirs@.len()].size as nat
    }
}

/// Entry `a` is listed before entry `b`: larger first, scanner order for ties.
pub open spec fn entry_before(d: RawDir, a: int, b: int) -> bool {
    entry_size(d, a) > entry_size(d, b) || (entry_size(d, a) == entry_size(d, b) && a < b)
}

/// `order` lists the entries of `d` largest first, ties in scanner order.
pub open spec fn sorted_entries(d: RawDir, order: Seq<int>) -> bool {
    &&& order.len() == entry_count(d)
    &&& forall|k: int| 0 <= k < order.len() ==> 0 <= #[trigger] order[k] < entry_count(d)
    &&& forall|k: int, l: int|
        0 <= k < l < order.len() ==> entry_before(d, #[trigger] order[k], #[trigger] order[l])
}

/// Node `n` named `name` stands for raw directory `d`.
pub open spec fn dir_node_matches(n: Node, name: Seq<char>, d: RawDir) -> bool {
    &&& n.is_dir
    &&& name == d.name@
    &&& n.size == totals(d).size
    &&& n.alloc == totals(d).alloc
    &&& n.files == totals(d).files
    &&& n.dirs == totals(d).dirs
    &&& n.child_count == entry_count(d)
}

/// Node `n` named `name` stands for raw file `f`.
pub open spec fn file_node_matches(n: Node, name: Seq<char>, f: RawFile) -> bool {
    &&& !n.is_dir
    &&& name == f.name@
    &&& n.size == f.size
    &&& n.alloc == f.alloc
    &&& n.files == 0
    &&& n.dirs == 0
    &&& n.child_count == 0
}

/// Where the nodes below node `n` end: they are the `files + dirs` nodes
/// from its first child on.
pub open spec fn subtree_end(n: Node) -> int {
    n.first_child + n.files + n.dirs
}

/// Node `x` and everything below it is the packed form of raw directory `d`:
/// its children block lists the entries of `d` largest first (ties in scanner
/// order), each file entry is a leaf with the file's name and sizes, and each
/// directory entry is, recursively, the packed form of that subdirectory.
/// Every node below `x` lies in `[first_child of x, hi)`, and the nodes below
/// each directory entry fill the range from its own first child to its
/// `subtree_end`, one subtree after the other (depth-first order).
pub open spec fn packed_as(nodes: Seq<Node>, names: Seq<Seq<char>>, x: int, d: RawDir, hi: int) -> bool
    decreases d, 1nat,
{
    &&& 0 <= x < nodes.len()
    &&& hi <= nodes.len()
    &&& names.len() == nodes.len()
    &&& dir_node_matches(nodes[x], names[x], d)
    &&& x < nodes[x].first_child
    &&& nodes[x].first_child + nodes[x].child_count <= hi
    &&& exists|order: Seq<int>|
        {
            &&& sorted_entries(d, order)
            &&& forall|k: int|
                0 <= k < order.len() ==> entry_packed_as(
                    nodes,
                    names,
                    nodes[x].first_child + k,
                    d,
                    #[trigger] order[k],
                    hi,
                )
        }
}

/// Node `c` is the packed form of entry `e` of `d`.
pub open spec fn entry_packed_as(
    nodes: Seq<Node>,
    names: Seq<Seq<char>>,
    c: int,
    d: RawDir,
    e: int,
    hi: int,
) -> bool
    decreases d, 0nat,
{
    if 0 <= e < d.subdirs@.len() {
        &&& 0 <= c < nodes.len()
        &&& subtree_end(nodes[c]) <= hi
        &&& packed_as(nodes, names, c, d.subdirs@[e], subtree_end(nodes[c]))
    } else {
        0 <= c < nodes.len() && names.len() == nodes.len() && file_node_matches(
            nodes[c],
            names[c],
            d.files@[e - d.subdirs@.len()],
        )
    }
}

/// `packed_as` only depends on the node itself and on the nodes in its
/// region; it survives changes elsewhere and a larger bound.
pub proof fn lemma_packed_frame(
    n1: Seq<Node>,
    m1: Seq<Seq<char>>,
    n2: Seq<Node>,
    m2: Seq<Seq<char>>,
    x: int,
    d: RawDir,
    h1: int,
    h2: int,
)
    requires
        packed_as(n1, m1, x, d, h1),
        h1 <= h2 <= n2.len(),
        m2.len() == n2.len(),
        n2[x] == n1[x] && m2[x] == m1[x],
        forall|p: int|
            n1[x].first_child <= p < h1 ==> #[trigger] n2[p] == n1[p] && m2[p] == m1[p],
    ensures
        packed_as(n2, m2, x, d, h2),
    decreases d,
{
    let order = choose|order: Seq<int>|
        {
            &&& sorted_entries(d, order)
            &&& forall|k: int|
                0 <= k < order.len() ==> entry_packed_as(
                    n1,
                    m1,
                    n1[x].first_child + k,
                    d,
                    #[trigger] order[k],
                    h1,
                )
        };
    let fc = n1[x].first_child as int;
    assert forall|k: int| 0 <= k < order.len() implies entry_packed_as(
        n2,
        m2,
        n2[x].first_child + k,
        d,
        #[trigger] order[k],
        h2,
    ) by {
        let c = fc + k;
        assert(entry_packed_as(n1, m1, c, d, order[k], h1));
        let e = order[k];
        if 0 <= e < d.subdirs@.len() {
            let sub = d.subdirs@[e];
            let t = subtree_end(n1[c]);
            assert(packed_as(n1, m1, c, sub, t));
            assert(decreases_to!(d => d.subdirs));
            assert(decreases_to!(d.subdirs => d.subdirs@));
            assert(decreases_to!(d.subdirs@ => sub));
            assert(n2[c] == n1[c] && m2[c] == m1[c]);
            assert(c < n1[c].first_child);
            lemma_packed_frame(n1, m1, n2, m2, c, sub, t, t);
        } else {
            assert(n2[c] == n1[c]);
        }
    }
}

// --- the packed model ----------------------------------------------------

/// A scanned tree packed into one arena. Node 0 is the scan root.
#[derive(Debug)]
pub struct Model {
    nodes: Vec<Node>,
    names: Vec<String>,
    /// Root path as scanned, e.g. `C:\` or `D:\Projects`.
    root_path: String,
    cluster_size: u64,
}

/// Views of a list of strings.
pub open spec fn string_views(v: Seq<String>) -> Seq<Seq<char>> {
    v.map_values(|s: String| s@)
}

impl Model {
    pub closed spec fn spec_nodes(&self) -> Seq<Node> {
        self.nodes@
    }

    pub closed spec fn spec_names(&self) -> Seq<Seq<char>> {
        string_views(self.names@)
    }

    pub closed spec fn spec_root_path(&self) -> Seq<char> {
        self.root_path@
    }

    pub closed spec fn spec_cluster_size(&self) -> u64 {
        self.cluster_size
    }

    pub open spec fn wf(&self) -> bool {
        tree_wf(self.spec_nodes(), self.spec_names())
    }

    /// Number of nodes.
    pub open spec fn spec_len(&self) -> nat {
        self.spec_nodes().len()
    }

    /// Pack a raw tree into the arena. Children of every node are sorted by
    /// logical size, descending; files and directories are interleaved.
    pub fn from_raw(root: RawDir, root_path: String, cluster_size: u64) -> (m: Self)
        requires
            totals_fit(totals(root)),
            1 + totals(root).files + totals(root).dirs < NO_NODE,
        ensures
            m.wf(),
            m.spec_len() == 1 + totals(root).files + totals(root).dirs,
            m.spec_nodes()[0].parent == NO_NODE,
            m.spec_len() == subtree_end(m.spec_nodes()[0]),
            packed_as(m.spec_nodes(), m.spec_names(), 0, root, m.spec_len() as int),
            m.spec_root_path() == root_path@,
            m.spec_cluster_size() == cluster_size,
    {
        let mut root = root;
        let ghost raw = root;
        root.finalize();
        let mut m = Model {
            nodes: Vec::new(),
            names: Vec::new(),
            root_path,
            cluster_size,
        };
        proof {
            assert(m.nodes@ =~= Seq::<Node>::empty());
            assert(string_views(m.names@) =~= Seq::<Seq<char>>::empty());
        }
        m.push_dir(&root, NO_NODE);
        proof {
            lemma_string_views_push(Seq::<String>::empty(), root.name);
            assert(string_views(m.names@)[0] == root.name@);
        }
        m.pack_children(&root, 0);
        proof {
            lemma_same_shape_packed(m.nodes@, string_views(m.names@), 0, root, raw, m.nodes@.len() as int);
        }
        m
    }

    /// Emit the children of `d` (whose packed id is `id`) as one contiguous
    /// block, then recurse into subdirectories.
    #[verifier::rlimit(100)]
    fn pack_children(&mut self, d: &RawDir, id: u32)
        requires
            tree_wf(old(self).nodes@, string_views(old(self).names@)),
            id < old(self).nodes@.len(),
            old(self).nodes@[id as int].is_dir,
            old(self).nodes@[id as int].child_count == 0,
            old(self).nodes@[id as int].size == totals(*d).size,
            old(self).nodes@[id as int].alloc == totals(*d).alloc,
            old(self).nodes@[id as int].files == totals(*d).files,
            old(self).nodes@[id as int].dirs == totals(*d).dirs,
            string_views(old(self).names@)[id as int] == d.name@,
            finalized(*d),
            totals_fit(totals(*d)),
            old(self).nodes@.len() + totals(*d).files + totals(*d).dirs < NO_NODE,
        ensures
            tree_wf(final(self).nodes@, string_views(final(self).names@)),
            final(self).nodes@.len() == old(self).nodes@.len() + totals(*d).files + totals(*d).dirs,
            forall|p: int|
                0 <= p < old(self).nodes@.len() && p != id ==> #[trigger] final(self).nodes@[p]
                    == old(self).nodes@[p],
            forall|p: int|
                0 <= p < old(self).nodes@.len() ==> #[trigger] string_views(final(self).names@)[p]
                    == string_views(old(self).names@)[p],
            final(self).nodes@[id as int] == (Node {
                first_child: old(self).nodes@.len() as u32,
                child_count: entry_count(*d) as u32,
                ..old(self).nodes@[id as int]
            }),
            packed_as(
                final(self).nodes@,
                string_views(final(self).names@),
                id as int,
                *d,
                final(self).nodes@.len() as int,
            ),
            final(self).root_path == old(self).root_path,
            final(self).cluster_size == old(self).cluster_size,
        decreases *d,
    {
        let ghost old_n = self.nodes@;
        let ghost old_m = string_views(self.names@);
        let first = self.nodes.len();
        proof {
            lemma_files_totals_mono(d.files@, 0, d.files@.len());
            lemma_subdirs_totals_mono(*d, 0, d.subdirs@.len());
        }
        let order = sorted_order(d);
        let count = order.len();
        let nsub = d.subdirs.len();
        let ghost idx = order_indices(order@);
        self.push_entries(d, id, &order);
        let mut n = self.nodes[id as usize];
        n.first_child = first as u32;
        n.child_count = count as u32;
        let ghost pushed = self.nodes@;
        self.nodes.set(id as usize, n);
        proof {
            assert forall|j: int| 0 <= j < count implies #[trigger] self.nodes@[first + j]
                == pushed[first + j] by {}
            assert forall|p: int| 0 <= p < first && p != id implies #[trigger] self.nodes@[p]
                == old_n[p] by {
                assert(pushed[p] == old_n[p]);
            }
            assert forall|j: int| 0 <= j < count implies (#[trigger] self.nodes@[first + j]).parent
                == id && self.nodes@[first + j].child_count == 0 && self.nodes@[first + j].first_child
                == 0 && self.nodes@[first + j].size <= old_n[id as int].size && self.nodes@[first
                + j].alloc <= old_n[id as int].alloc by {
                let e = order@[j].1 as int;
                lemma_entry_le(*d, e);
                if e < nsub {
                    assert(finalized(d.subdirs@[e]));
                }
            }
            assert forall|j1: int, j2: int| 0 <= j1 < j2 < count implies (#[trigger] self.nodes@[first
                + j1]).size >= (#[trigger] self.nodes@[first + j2]).size by {
                let e1 = order@[j1].1 as int;
                let e2 = order@[j2].1 as int;
                assert(idx[j1] == e1 && idx[j2] == e2);
                assert(entry_before(*d, e1, e2));
                if e1 < nsub {
                    assert(finalized(d.subdirs@[e1]));
                }
                if e2 < nsub {
                    assert(finalized(d.subdirs@[e2]));
                }
            }
            lemma_block_wf(
                old_n,
                old_m,
                self.nodes@,
                string_views(self.names@),
                id as int,
                first as int,
                count as int,
            );
        }
        let ghost block_n = self.nodes@;
        let ghost block_m = string_views(self.names@);
        let ghost f = |e: int| dir_desc(*d, e);
        proof {
            lemma_sorted_is_perm(*d, idx);
            lemma_sum_perm(f, idx, entry_count(*d));
            lemma_dir_desc_sum(*d, entry_count(*d));
            assert(idx.take(0) =~= Seq::<int>::empty());
            reveal(entries_packed);
        }
        let mut k: usize = 0;
        while k < count
            invariant
                count == entry_count(*d) == order@.len() == idx.len(),
                idx == order_indices(order@),
                nsub == d.subdirs@.len(),
                first == old_n.len(),
                id < first,
                finalized(*d),
                totals_fit(totals(*d)),
                sorted_entries(*d, idx),
                k <= count,
                forall|j: int|
                    0 <= j < order@.len() ==> (#[trigger] order@[j]).1 < entry_count(*d),
                sum_seq(f, idx) == subdirs_totals(*d, nsub as nat).files + subdirs_totals(
                    *d,
                    nsub as nat,
                ).dirs,
                first + count + sum_seq(f, idx) < NO_NODE,
                f == (|e: int| dir_desc(*d, e)),
                tree_wf(self.nodes@, string_views(self.names@)),
                self.nodes@.len() == first + count + sum_seq(f, idx.take(k as int)),
                block_n.len() == first + count,
                block_m.len() == first + count,
                forall|p: int|
                    0 <= p < first && p != id ==> #[trigger] self.nodes@[p] == block_n[p],
                self.nodes@[id as int] == block_n[id as int],
                forall|p: int|
                    0 <= p < first + count ==> #[trigger] string_views(self.names@)[p] == block_m[p],
                forall|j: int|
                    k <= j < count ==> #[trigger] self.nodes@[first + j] == block_n[first + j],
                forall|j: int|
                    0 <= j < count ==> #[trigger] block_n[first + j] == entry_node(
                        *d,
                        order@[j].1 as int,
                        id,
                    ) && block_m[first + j] == entry_name(*d, order@[j].1 as int),
                entries_packed(
                    self.nodes@,
                    string_views(self.names@),
                    first as int,
                    *d,
                    idx,
                    k as int,
                    self.nodes@.len() as int,
                ),
                forall|j: int|
                    0 <= j < k ==> (#[trigger] self.nodes@[first + j]).first_child >= first + count
                        || idx[j] >= nsub,
                block_n[id as int] == (Node {
                    first_child: first as u32,
                    child_count: count as u32,
                    ..old_n[id as int]
                }),
                forall|p: int| 0 <= p < first && p != id ==> #[trigger] block_n[p] == old_n[p],
                forall|p: int| 0 <= p < first ==> #[trigger] block_m[p] == old_m[p],
                self.root_path == old(self).root_path,
                self.cluster_size == old(self).cluster_size,
            decreases count - k,
        {
            let e = order[k].1;
            proof {
                lemma_sum_seq_take(f, idx, k as int);
                assert(idx[k as int] == e);
            }
            if e < nsub {
                let ghost before_n = self.nodes@;
                let ghost before_m = string_views(self.names@);
                let ghost sub = d.subdirs@[e as int];
                proof {
                    assert(finalized(sub));
                    lemma_entry_le(*d, e as int);
                    assert(self.nodes@[first + k] == entry_node(*d, e as int, id));
                    assert(decreases_to!(*d => d.subdirs));
                    assert(decreases_to!(d.subdirs => d.subdirs@));
                    assert(decreases_to!(d.subdirs@ => sub));
                }
                self.pack_children(&d.subdirs[e], (first + k) as u32);
                proof {
                    let after_n = self.nodes@;
                    let after_m = string_views(self.names@);
                    assert(id < before_n.len());
                    assert(id as int != first + k);
                    assert(after_n[id as int] == before_n[id as int]);
                    lemma_entries_packed_frame(
                        before_n,
                        before_m,
                        after_n,
                        after_m,
                        *d,
                        idx,
                        first as int,
                        count as int,
                        k as int,
                    );
                    assert(entry_packed_as(after_n, after_m, first + k, *d, idx[k as int], after_n.len() as int));
                    lemma_entries_packed_extend(
                        after_n,
                        after_m,
                        first as int,
                        *d,
                        idx,
                        k as int,
                        after_n.len() as int,
                    );
                    assert(idx.take(k + 1) == idx.take(k as int).push(e as int)) by {
                        assert(idx.take(k + 1) =~= idx.take(k as int).push(e as int));
                    }
                }
            } else {
                proof {
                    assert(self.nodes@[first + k] == entry_node(*d, e as int, id));
                    assert(entry_packed_as(
                        self.nodes@,
                        string_views(self.names@),
                        first + k,
                        *d,
                        idx[k as int],
                        self.nodes@.len() as int,
                    ));
                    lemma_entries_packed_extend(
                        self.nodes@,
                        string_views(self.names@),
                        first as int,
                        *d,
                        idx,
                        k as int,
                        self.nodes@.len() as int,
                    );
                    assert(idx.take(k + 1) =~= idx.take(k as int).push(e as int));
                }
            }
            k += 1;
        }
        proof {
            assert(idx.take(count as int) =~= idx);
            reveal(entries_packed);
            let fc = self.nodes@[id as int].first_child as int;
            assert(fc == first);
            assert(forall|k: int|
                0 <= k < idx.len() ==> entry_packed_as(
                    self.nodes@,
                    string_views(self.names@),
                    fc + k,
                    *d,
                    #[trigger] idx[k],
                    self.nodes@.len() as int,
                ));
            assert(string_views(self.names@)[id as int] == d.name@);
        }
    }

    /// Push one leaf node per entry of `d`, in the given order, all with
    /// parent `id`.
    fn push_entries(&mut self, d: &RawDir, id: u32, order: &Vec<(u64, usize)>)
        requires
            order@.len() == entry_count(*d),
            forall|j: int| 0 <= j < order@.len() ==> (#[trigger] order@[j]).1 < entry_count(*d),
            old(self).nodes@.len() + order@.len() < NO_NODE,
            old(self).names@.len() == old(self).nodes@.len(),
        ensures
            final(self).nodes@.len() == old(self).nodes@.len() + order@.len(),
            final(self).names@.len() == final(self).nodes@.len(),
            forall|p: int|
                0 <= p < old(self).nodes@.len() ==> #[trigger] final(self).nodes@[p] == old(
                    self,
                ).nodes@[p],
            forall|p: int|
                0 <= p < old(self).nodes@.len() ==> #[trigger] string_views(final(self).names@)[p]
                    == string_views(old(self).names@)[p],
            block_nodes_match(
                final(self).nodes@,
                old(self).nodes@.len() as int,
                *d,
                order@,
                id,
                order@.len() as int,
            ),
            block_names_match(
                string_views(final(self).names@),
                old(self).nodes@.len() as int,
                *d,
                order@,
                order@.len() as int,
            ),
            final(self).root_path == old(self).root_path,
            final(self).cluster_size == old(self).cluster_size,
    {
        let ghost old_n = self.nodes@;
        let ghost old_m = string_views(self.names@);
        let first = self.nodes.len();
        let count = order.len();
        let nsub = d.subdirs.len();
        let mut k: usize = 0;
        while k < count
            invariant
                count == entry_count(*d) == order@.len(),
                nsub == d.subdirs@.len(),
                first == old_n.len(),
                old_m.len() == first,
                first + count < NO_NODE,
                k <= count,
                forall|j: int|
                    0 <= j < order@.len() ==> (#[trigger] order@[j]).1 < entry_count(*d),
                self.nodes@.len() == first + k,
                self.names@.len() == first + k,
                forall|p: int| 0 <= p < first ==> #[trigger] self.nodes@[p] == old_n[p],
                forall|p: int| 0 <= p < first ==> #[trigger] string_views(self.names@)[p] == old_m[p],
                block_nodes_match(self.nodes@, first as int, *d, order@, id, k as int),
                block_names_match(string_views(self.names@), first as int, *d, order@, k as int),
                self.root_path == old(self).root_path,
                self.cluster_size == old(self).cluster_size,
            decreases count - k,
        {
            let e = order[k].1;
            let ghost before_n = self.nodes@;
            let ghost before_names = self.names@;
            if e < nsub {
                self.push_dir(&d.subdirs[e], id);
                proof {
                    lemma_string_views_push(before_names, d.subdirs@[e as int].name);
                }
            } else {
                self.push_file(&d.files[e - nsub], id);
                proof {
                    lemma_string_views_push(before_names, d.files@[e - nsub].name);
                }
            }
            proof {
                assert(self.nodes@[first + k] == entry_node(*d, e as int, id));
                assert(string_views(self.names@)[first + k] == entry_name(*d, e as int));
                assert forall|p: int| 0 <= p < first implies #[trigger] string_views(
                    self.names@,
                )[p] == old_m[p] by {
                    assert(string_views(before_names)[p] == old_m[p]);
                }
                assert forall|j: int| 0 <= j < k + 1 implies (#[trigger] self.nodes@[first + j]
                    == entry_node(*d, order@[j].1 as int, id)) by {
                    if j < k {
                        assert(before_n[first + j] == entry_node(*d, order@[j].1 as int, id));
                    }
                }
                assert forall|j: int| 0 <= j < k + 1 implies (#[trigger] string_views(
                    self.names@,
                )[first + j] == entry_name(*d, order@[j].1 as int)) by {
                    if j < k {
                        assert(string_views(before_names)[first + j] == entry_name(
                            *d,
                            order@[j].1 as int,
                        ));
                    }
                }
            }
            k += 1;
        }
    }

    fn push_dir(&mut self, d: &RawDir, parent: u32) -> (id: u32)
        requires
            old(self).nodes@.len() < NO_NODE,
        ensures
            id == old(self).nodes@.len(),
            final(self).nodes@ == old(self).nodes@.push(
                Node {
                    is_dir: true,
                    parent,
                    first_child: 0,
                    child_count: 0,
                    size: d.size,
                    alloc: d.alloc,
                    files: d.file_count,
                    dirs: d.dir_count,
                },
            ),
            final(self).names@ == old(self).names@.push(d.name),
            final(self).root_path == old(self).root_path,
            final(self).cluster_size == old(self).cluster_size,
    {
        let id = self.nodes.len() as u32;
        self.names.push(d.name.clone());
        self.nodes.push(
            Node {
                is_dir: true,
                parent,
                first_child: 0,
                child_count: 0,
                size: d.size,
                alloc: d.alloc,
                files: d.file_count,
                dirs: d.dir_count,
            },
        );
        id
    }

    fn push_file(&mut self, f: &RawFile, parent: u32) -> (id: u32)
        requires
            old(self).nodes@.len() < NO_NODE,
        ensures
            id == old(self).nodes@.len(),
            final(self).nodes@ == old(self).nodes@.push(
                Node {
                    is_dir: false,
                    parent,
                    first_child: 0,
                    child_count: 0,
                    size: f.size,
                    alloc: f.alloc,
                    files: 0,
                    dirs: 0,
                },
            ),
            final(self).names@ == old(self).names@.push(f.name),
            final(self).root_path == old(self).root_path,
            final(self).cluster_size == old(self).cluster_size,
    {
        let id = self.nodes.len() as u32;
        self.names.push(f.name.clone());
        self.nodes.push(
            Node {
                is_dir: false,
                parent,
                first_child: 0,
                child_count: 0,
                size: f.size,
                alloc: f.alloc,
                files: 0,
                dirs: 0,
            },
        );
        id
    }
}

pub proof fn lemma_string_views_push(v: Seq<String>, s: String)
    ensures
        string_views(v.push(s)) == string_views(v).push(s@),
{
    assert(string_views(v.push(s)) =~= string_views(v).push(s@));
}


// --- packing -------------------------------------------------------------

/// The node pushed for entry `e` of `d` before its own children are packed.
pub open spec fn entry_node(d: RawDir, e: int, parent: u32) -> Node {
    if e < d.subdirs@.len() {
        let s = d.subdirs@[e];
        Node {
            is_dir: true,
            parent,
            first_child: 0,
            child_count: 0,
            size: s.size,
            alloc: s.alloc,
            files: s.file_count,
            dirs: s.dir_count,
        }
    } else {
        let f = d.files@[e - d.subdirs@.len()];
        Node {
            is_dir: false,
            parent,
            first_child: 0,
            child_count: 0,
            size: f.size,
            alloc: f.alloc,
            files: 0,
            dirs: 0,
        }
    }
}

/// Name of entry `e` of `d`.
pub open spec fn entry_name(d: RawDir, e: int) -> Seq<char> {
    if e < d.subdirs@.len() {
        d.subdirs@[e].name@
    } else {
        d.files@[e - d.subdirs@.len()].name@
    }
}

/// The first `k` entries of `order` are packed at `first ..`.
#[verifier::opaque]
pub open spec fn entries_packed(
    nodes: Seq<Node>,
    names: Seq<Seq<char>>,
    first: int,
    d: RawDir,
    idx: Seq<int>,
    k: int,
    hi: int,
) -> bool {
    forall|j: int| 0 <= j < k ==> entry_packed_as(nodes, names, first + j, d, #[trigger] idx[j], hi)
}

proof fn lemma_entries_packed_extend(
    nodes: Seq<Node>,
    names: Seq<Seq<char>>,
    first: int,
    d: RawDir,
    idx: Seq<int>,
    k: int,
    hi: int,
)
    requires
        entries_packed(nodes, names, first, d, idx, k, hi),
        entry_packed_as(nodes, names, first + k, d, idx[k], hi),
    ensures
        entries_packed(nodes, names, first, d, idx, k + 1, hi),
{
    reveal(entries_packed);
}

/// Packed entries survive packing a later sibling.
proof fn lemma_entries_packed_frame(
    before_n: Seq<Node>,
    before_m: Seq<Seq<char>>,
    after_n: Seq<Node>,
    after_m: Seq<Seq<char>>,
    d: RawDir,
    idx: Seq<int>,
    first: int,
    count: int,
    k: int,
)
    requires
        0 <= first,
        0 <= k < count,
        first + count <= before_n.len() <= after_n.len(),
        before_m.len() == before_n.len(),
        after_m.len() == after_n.len(),
        forall|p: int|
            0 <= p < before_n.len() && p != first + k ==> #[trigger] after_n[p] == before_n[p],
        forall|p: int| 0 <= p < before_n.len() ==> #[trigger] after_m[p] == before_m[p],
        entries_packed(before_n, before_m, first, d, idx, k, before_n.len() as int),
        forall|j: int|
            0 <= j < k ==> (#[trigger] before_n[first + j]).first_child >= first + count || idx[j]
                >= d.subdirs@.len(),
    ensures
        entries_packed(after_n, after_m, first, d, idx, k, after_n.len() as int),
{
    reveal(entries_packed);
    assert forall|j: int| 0 <= j < k implies entry_packed_as(
        after_n,
        after_m,
        first + j,
        d,
        #[trigger] idx[j],
        after_n.len() as int,
    ) by {
        let ej = idx[j];
        assert(entry_packed_as(before_n, before_m, first + j, d, ej, before_n.len() as int));
        assert(after_n[first + j] == before_n[first + j]);
        if 0 <= ej < d.subdirs@.len() {
            let sj = d.subdirs@[ej];
            assert(before_n[first + j].first_child >= first + count);
            let t = subtree_end(before_n[first + j]);
            lemma_packed_frame(before_n, before_m, after_n, after_m, first + j, sj, t, t);
        } else {
            assert(after_m[first + j] == before_m[first + j]);
        }
    }
}

/// Nodes `first .. first + k` are the leaf nodes of the first `k` entries
/// of `order`.
pub open spec fn block_nodes_match(
    nodes: Seq<Node>,
    first: int,
    d: RawDir,
    order: Seq<(u64, usize)>,
    id: u32,
    k: int,
) -> bool {
    forall|j: int|
        0 <= j < k ==> (#[trigger] nodes[first + j] == entry_node(d, order[j].1 as int, id))
}

/// Names `first .. first + k` are those of the first `k` entries of `order`.
pub open spec fn block_names_match(
    names: Seq<Seq<char>>,
    first: int,
    d: RawDir,
    order: Seq<(u64, usize)>,
    k: int,
) -> bool {
    forall|j: int| 0 <= j < k ==> (#[trigger] names[first + j] == entry_name(d, order[j].1 as int))
}

/// Number of nodes below entry `e` of `d` (0 for a file).
pub open spec fn dir_desc(d: RawDir, e: int) -> nat {
    if 0 <= e < d.subdirs@.len() {
        totals(d.subdirs@[e]).files + totals(d.subdirs@[e]).dirs
    } else {
        0
    }
}

/// Entry indices of a sort order.
pub open spec fn order_indices(order: Seq<(u64, usize)>) -> Seq<int> {
    order.map_values(|p: (u64, usize)| p.1 as int)
}

/// Every entry is no larger than its directory, in both metrics.
proof fn lemma_entry_le(d: RawDir, e: int)
    requires
        0 <= e < entry_count(d),
    ensures
        e < d.subdirs@.len() ==> totals(d.subdirs@[e]).size <= totals(d).size
            && totals(d.subdirs@[e]).alloc <= totals(d).alloc && totals(d.subdirs@[e]).files
            <= totals(d).files && totals(d.subdirs@[e]).dirs <= totals(d).dirs,
        e >= d.subdirs@.len() ==> d.files@[e - d.subdirs@.len()].size <= totals(d).size
            && d.files@[e - d.subdirs@.len()].alloc <= totals(d).alloc,
{
    let ns = d.subdirs@.len();
    let nf = d.files@.len();
    lemma_files_totals_mono(d.files@, 0, nf);
    lemma_subdirs_totals_mono(d, 0, ns);
    if e < ns {
        lemma_subdirs_totals_mono(d, (e + 1) as nat, ns);
        assert(subdirs_totals(d, (e + 1) as nat) == add_totals(
            subdirs_totals(d, e as nat),
            totals(d.subdirs@[e]),
        ));
    } else {
        let i = e - ns;
        lemma_files_totals_mono(d.files@, (i + 1) as nat, nf);
    }
}

/// Summing `dir_desc` over the entries gives the descendant count minus
/// the entries themselves.
proof fn lemma_dir_desc_sum(d: RawDir, n: nat)
    requires
        n <= entry_count(d),
    ensures
        sum_range(|e: int| dir_desc(d, e), n) == (if n <= d.subdirs@.len() {
            subdirs_totals(d, n).files + subdirs_totals(d, n).dirs
        } else {
            subdirs_totals(d, d.subdirs@.len()).files + subdirs_totals(d, d.subdirs@.len()).dirs
        }),
    decreases n,
{
    if n > 0 {
        lemma_dir_desc_sum(d, (n - 1) as nat);
    }
}

/// A sorted entry order is a permutation of the entry indices.
proof fn lemma_sorted_is_perm(d: RawDir, order: Seq<int>)
    requires
        sorted_entries(d, order),
    ensures
        is_perm(order, entry_count(d)),
{
    assert forall|i: int, j: int|
        0 <= i < order.len() && 0 <= j < order.len() && i != j implies order[i] != order[j] by {
        if i < j {
            assert(entry_before(d, order[i], order[j]));
        } else {
            assert(entry_before(d, order[j], order[i]));
        }
    }
}

/// Entries of `d` sorted largest first, ties in scanner order, as pairs of
/// (logical size, entry index).
fn sorted_order(d: &RawDir) -> (order: Vec<(u64, usize)>)
    requires
        finalized(*d),
        entry_count(*d) <= usize::MAX,
    ensures
        order@.len() == entry_count(*d),
        forall|k: int|
            0 <= k < order@.len() ==> (#[trigger] order@[k]).1 < entry_count(*d) && order@[k].0
                == entry_size(*d, order@[k].1 as int),
        sorted_entries(*d, order_indices(order@)),
{
    let nsub = d.subdirs.len();
    let n = nsub + d.files.len();
    let mut order: Vec<(u64, usize)> = Vec::new();
    let mut e: usize = 0;
    while e < n
        invariant
            n == entry_count(*d),
            nsub == d.subdirs@.len(),
            finalized(*d),
            e <= n,
            order@.len() == e,
            forall|k: int|
                0 <= k < order@.len() ==> (#[trigger] order@[k]).1 < e && order@[k].0 == entry_size(
                    *d,
                    order@[k].1 as int,
                ),
            forall|k: int, l: int|
                0 <= k < l < order@.len() ==> entry_before(
                    *d,
                    (#[trigger] order@[k]).1 as int,
                    (#[trigger] order@[l]).1 as int,
                ),
        decreases n - e,
    {
        let size = if e < nsub {
            assert(finalized(d.subdirs@[e as int]));
            d.subdirs[e].size
        } else {
            d.files[e - nsub].size
        };
        assert(size == entry_size(*d, e as int));
        let mut pos: usize = 0;
        while pos < order.len() && order[pos].0 >= size
            invariant
                pos <= order@.len(),
                forall|k: int| 0 <= k < pos ==> (#[trigger] order@[k]).0 >= size,
            decreases order@.len() - pos,
        {
            pos += 1;
        }
        let ghost before = order@;
        order.insert(pos, (size, e));
        proof {
            assert forall|k: int, l: int| 0 <= k < l < order@.len() implies entry_before(
                *d,
                (#[trigger] order@[k]).1 as int,
                (#[trigger] order@[l]).1 as int,
            ) by {
                if l < pos {
                    assert(entry_before(*d, before[k].1 as int, before[l].1 as int));
                } else if l == pos {
                    assert(before[k].0 >= size);
                } else if k < pos {
                    assert(entry_before(*d, before[k].1 as int, before[l - 1].1 as int));
                } else if k == pos {
                    if pos < before.len() {
                        assert(before[pos as int].0 < size);
                        if l - 1 > pos {
                            assert(entry_before(*d, before[pos as int].1 as int, before[l - 1].1 as int));
                        }
                    }
                } else {
                    assert(entry_before(*d, before[k - 1].1 as int, before[l - 1].1 as int));
                }
            }
        }
        e += 1;
    }
    proof {
        let idx = order_indices(order@);
        assert forall|k: int, l: int| 0 <= k < l < idx.len() implies entry_before(
            *d,
            #[trigger] idx[k],
            #[trigger] idx[l],
        ) by {
            assert(entry_before(*d, order@[k].1 as int, order@[l].1 as int));
        }
        assert forall|k: int| 0 <= k < idx.len() implies 0 <= #[trigger] idx[k] < entry_count(*d) by {
            assert(order@[k].1 < e);
        }
    }
    order
}

/// `new_n`/`new_m` is `old_n`/`old_m` with a block of `count` leaf children
/// of `id` appended at `first` and recorded in node `id`.
pub open spec fn block_appended(
    old_n: Seq<Node>,
    old_m: Seq<Seq<char>>,
    new_n: Seq<Node>,
    new_m: Seq<Seq<char>>,
    id: int,
    first: int,
    count: int,
) -> bool {
    &&& old_n.len() == first
    &&& 0 <= id < first
    &&& old_n[id].child_count == 0
    &&& old_n[id].is_dir
    &&& count >= 0
    &&& new_n.len() == first + count
    &&& new_m.len() == new_n.len()
    &&& new_n.len() < NO_NODE
    &&& forall|p: int| 0 <= p < first && p != id ==> #[trigger] new_n[p] == old_n[p]
    &&& forall|p: int| 0 <= p < first ==> #[trigger] new_m[p] == old_m[p]
    &&& new_n[id] == (Node { first_child: first as u32, child_count: count as u32, ..old_n[id] })
    &&& forall|j: int|
        0 <= j < count ==> (#[trigger] new_n[first + j]).parent == id && new_n[first + j].child_count
            == 0 && new_n[first + j].first_child == 0 && new_n[first + j].size <= old_n[id].size
            && new_n[first + j].alloc <= old_n[id].alloc
    &&& forall|j1: int, j2: int|
        0 <= j1 < j2 < count ==> (#[trigger] new_n[first + j1]).size >= (#[trigger] new_n[first
            + j2]).size
}

proof fn lemma_block_parents(
    old_n: Seq<Node>,
    old_m: Seq<Seq<char>>,
    new_n: Seq<Node>,
    new_m: Seq<Seq<char>>,
    id: int,
    first: int,
    count: int,
)
    requires
        tree_wf(old_n, old_m),
        block_appended(old_n, old_m, new_n, new_m, id, first, count),
    ensures
        forall|i: int| 0 < i < new_n.len() ==> (#[trigger] new_n[i]).parent < i,
        forall|i: int|
            0 < i < new_n.len() ==> child_of(new_n, (#[trigger] new_n[i]).parent as int, i),
{
    assert forall|i: int| 0 < i < new_n.len() implies (#[trigger] new_n[i]).parent < i && child_of(
        new_n,
        new_n[i].parent as int,
        i,
    ) by {
        if i >= first {
            assert(new_n[first + (i - first)].parent == id);
        } else {
            let p = old_n[i].parent as int;
            assert(old_n[i].parent < i);
            assert(child_of(old_n, p, i));
            if p == id {
                assert(false);
            }
        }
    }
}

proof fn lemma_block_children(
    old_n: Seq<Node>,
    old_m: Seq<Seq<char>>,
    new_n: Seq<Node>,
    new_m: Seq<Seq<char>>,
    id: int,
    first: int,
    count: int,
)
    requires
        tree_wf(old_n, old_m),
        block_appended(old_n, old_m, new_n, new_m, id, first, count),
    ensures
        forall|i: int|
            0 <= i < new_n.len() ==> (#[trigger] new_n[i]).first_child + new_n[i].child_count
                <= new_n.len(),
        forall|i: int, c: int|
            0 <= i < new_n.len() && #[trigger] child_of(new_n, i, c) ==> new_n[c].parent == i,
        forall|i: int|
            0 <= i < new_n.len() && !(#[trigger] new_n[i]).is_dir ==> new_n[i].child_count == 0,
{
    assert forall|i: int| 0 <= i < new_n.len() implies (#[trigger] new_n[i]).first_child
        + new_n[i].child_count <= new_n.len() by {
        if i >= first {
            assert(new_n[first + (i - first)].child_count == 0);
        } else if i != id {
            assert(old_n[i].first_child + old_n[i].child_count <= old_n.len());
        }
    }
    assert forall|i: int, c: int|
        0 <= i < new_n.len() && #[trigger] child_of(new_n, i, c) implies new_n[c].parent == i by {
        if i >= first {
            assert(new_n[first + (i - first)].child_count == 0);
        } else if i == id {
            assert(new_n[first + (c - first)].parent == id);
        } else {
            assert(new_n[i] == old_n[i]);
            assert(child_of(old_n, i, c));
            assert(old_n[i].first_child + old_n[i].child_count <= old_n.len());
            assert(old_n[c].parent == i);
            if c == id {
                assert(new_n[c].parent == old_n[c].parent);
            }
        }
    }
    assert forall|i: int| 0 <= i < new_n.len() && !(#[trigger] new_n[i]).is_dir implies new_n[i].child_count
        == 0 by {
        if i >= first {
            assert(new_n[first + (i - first)].child_count == 0);
        } else if i != id {
            assert(new_n[i] == old_n[i]);
        }
    }
}

proof fn lemma_block_sizes(
    old_n: Seq<Node>,
    old_m: Seq<Seq<char>>,
    new_n: Seq<Node>,
    new_m: Seq<Seq<char>>,
    id: int,
    first: int,
    count: int,
)
    requires
        tree_wf(old_n, old_m),
        block_appended(old_n, old_m, new_n, new_m, id, first, count),
    ensures
        forall|i: int|
            0 < i < new_n.len() ==> (#[trigger] new_n[i]).size <= new_n[new_n[i].parent as int].size
                && new_n[i].alloc <= new_n[new_n[i].parent as int].alloc,
        forall|i: int, c1: int, c2: int|
            0 <= i < new_n.len() && #[trigger] child_of(new_n, i, c1) && #[trigger] child_of(
                new_n,
                i,
                c2,
            ) && c1 < c2 ==> new_n[c1].size >= new_n[c2].size,
{
    assert forall|i: int| 0 < i < new_n.len() implies (#[trigger] new_n[i]).size <= new_n[new_n[i].parent as int].size
        && new_n[i].alloc <= new_n[new_n[i].parent as int].alloc by {
        if i >= first {
            assert(new_n[first + (i - first)].parent == id);
        } else {
            let p = old_n[i].parent as int;
            assert(old_n[i].parent < i);
            assert(old_n[i].size <= old_n[p].size);
            assert(new_n[i].size == old_n[i].size);
            assert(new_n[p].size == old_n[p].size);
        }
    }
    assert forall|i: int, c1: int, c2: int|
        0 <= i < new_n.len() && #[trigger] child_of(new_n, i, c1) && #[trigger] child_of(new_n, i, c2)
            && c1 < c2 implies new_n[c1].size >= new_n[c2].size by {
        if i >= first {
            assert(new_n[first + (i - first)].child_count == 0);
        } else if i == id {
            assert(new_n[first + (c1 - first)].size >= new_n[first + (c2 - first)].size);
        } else {
            assert(new_n[i] == old_n[i]);
            assert(child_of(old_n, i, c1) && child_of(old_n, i, c2));
            assert(old_n[i].first_child + old_n[i].child_count <= old_n.len());
            assert(old_n[c1].size >= old_n[c2].size);
            assert(new_n[c1].size == old_n[c1].size);
            assert(new_n[c2].size == old_n[c2].size);
        }
    }
}

/// Appending a sorted block of leaf children to a childless node keeps the
/// arena well formed.
proof fn lemma_block_wf(
    old_n: Seq<Node>,
    old_m: Seq<Seq<char>>,
    new_n: Seq<Node>,
    new_m: Seq<Seq<char>>,
    id: int,
    first: int,
    count: int,
)
    requires
        tree_wf(old_n, old_m),
        block_appended(old_n, old_m, new_n, new_m, id, first, count),
    ensures
        tree_wf(new_n, new_m),
{
    lemma_block_parents(old_n, old_m, new_n, new_m, id, first, count);
    lemma_block_children(old_n, old_m, new_n, new_m, id, first, count);
    lemma_block_sizes(old_n, old_m, new_n, new_m, id, first, count);
    if new_n.len() > 0 {
        assert(new_n[0].parent == old_n[0].parent && new_n[0].is_dir == old_n[0].is_dir);
    }
}

/// Packing is insensitive to stored totals: a tree packed as the finalized
/// copy is packed as the unfinalized tree too.
proof fn lemma_same_shape_packed(
    nodes: Seq<Node>,
    names: Seq<Seq<char>>,
    x: int,
    fin: RawDir,
    raw: RawDir,
    hi: int,
)
    requires
        packed_as(nodes, names, x, fin, hi),
        same_shape(raw, fin),
    ensures
        packed_as(nodes, names, x, raw, hi),
    decreases fin,
{
    lemma_shape_totals(raw, fin);
    let order = choose|order: Seq<int>|
        {
            &&& sorted_entries(fin, order)
            &&& forall|k: int|
                0 <= k < order.len() ==> entry_packed_as(
                    nodes,
                    names,
                    nodes[x].first_child + k,
                    fin,
                    #[trigger] order[k],
                    hi,
                )
        };
    assert forall|e: int| 0 <= e < entry_count(raw) implies entry_size(raw, e) == entry_size(fin, e) by {
        if e < raw.subdirs@.len() {
            assert(same_shape(raw.subdirs@[e], fin.subdirs@[e]));
            lemma_shape_totals(raw.subdirs@[e], fin.subdirs@[e]);
        }
    }
    assert forall|k: int, l: int| 0 <= k < l < order.len() implies entry_before(
        raw,
        #[trigger] order[k],
        #[trigger] order[l],
    ) by {
        assert(entry_before(fin, order[k], order[l]));
    }
    assert forall|k: int| 0 <= k < order.len() implies entry_packed_as(
        nodes,
        names,
        nodes[x].first_child + k,
        raw,
        #[trigger] order[k],
        hi,
    ) by {
        let e = order[k];
        let c = nodes[x].first_child + k;
        assert(entry_packed_as(nodes, names, c, fin, e, hi));
        if 0 <= e < fin.subdirs@.len() {
            assert(same_shape(raw.subdirs@[e], fin.subdirs@[e]));
            assert(decreases_to!(fin => fin.subdirs));
            assert(decreases_to!(fin.subdirs => fin.subdirs@));
            assert(decreases_to!(fin.subdirs@ => fin.subdirs@[e]));
            lemma_same_shape_packed(nodes, names, c, fin.subdirs@[e], raw.subdirs@[e], subtree_end(nodes[c]));
        }
    }
    assert(sorted_entries(raw, order));
}


// --- queries -------------------------------------------------------------

/// `out` followed by `part`, with a backslash in between unless `out`
/// already ends with a separator.
pub open spec fn join_path(out: Seq<char>, part: Seq<char>) -> Seq<char> {
    if out.len() > 0 && (out.last() == '\\' || out.last() == '/') {
        out + part
    } else {
        out.push('\\') + part
    }
}

/// Full path of node `id`: the root path for the scan root (and for
/// `NO_NODE`), otherwise the parent's path joined with the node's name.
pub open spec fn path_of(nodes: Seq<Node>, names: Seq<Seq<char>>, root_path: Seq<char>, id: int) -> Seq<
    char,
>
    decreases id,
{
    if !(0 <= id < nodes.len()) || nodes[id].parent == NO_NODE || nodes[id].parent >= id {
        root_path
    } else {
        join_path(path_of(nodes, names, root_path, nodes[id].parent as int), names[id])
    }
}

/// Names on the way from the scan root down to `id` (root excluded).
pub open spec fn rel_path_of(nodes: Seq<Node>, names: Seq<Seq<char>>, id: int) -> Seq<Seq<char>>
    decreases id,
{
    if !(0 <= id < nodes.len()) || nodes[id].parent == NO_NODE || nodes[id].parent >= id {
        Seq::empty()
    } else {
        rel_path_of(nodes, names, nodes[id].parent as int).push(names[id])
    }
}

/// `c` is a directory child of `cur` named `name`.
pub open spec fn is_named_subdir(
    nodes: Seq<Node>,
    names: Seq<Seq<char>>,
    cur: int,
    c: int,
    name: Seq<char>,
) -> bool {
    child_of(nodes, cur, c) && nodes[c].is_dir && names[c] == name
}

/// The first (in stored order) directory child of `cur` named `name`.
pub open spec fn first_named_subdir(
    nodes: Seq<Node>,
    names: Seq<Seq<char>>,
    cur: int,
    name: Seq<char>,
) -> Option<int> {
    if exists|c: int| is_named_subdir(nodes, names, cur, c, name) {
        Some(
            choose|c: int|
                is_named_subdir(nodes, names, cur, c, name) && forall|b: int|
                    nodes[cur].first_child <= b < c ==> !is_named_subdir(nodes, names, cur, b, name),
        )
    } else {
        None
    }
}

/// Directory reached from `cur` by following `parts`, stopping at the
/// deepest one that exists.
#[verifier::opaque]
pub open spec fn walk_dirs(nodes: Seq<Node>, names: Seq<Seq<char>>, cur: int, parts: Seq<Seq<char>>) -> int
    decreases parts.len(),
{
    if parts.len() == 0 {
        cur
    } else {
        match first_named_subdir(nodes, names, cur, parts[0]) {
            Some(c) => walk_dirs(nodes, names, c, parts.drop_first()),
            None => cur,
        }
    }
}

/// One step of `walk_dirs`.
pub proof fn lemma_walk_step(nodes: Seq<Node>, names: Seq<Seq<char>>, cur: int, parts: Seq<Seq<char>>)
    ensures
        parts.len() == 0 ==> walk_dirs(nodes, names, cur, parts) == cur,
        parts.len() > 0 ==> walk_dirs(nodes, names, cur, parts) == match first_named_subdir(
            nodes,
            names,
            cur,
            parts[0],
        ) {
            Some(c) => walk_dirs(nodes, names, c, parts.drop_first()),
            None => cur,
        },
{
    reveal(walk_dirs);
}

/// Views of a list of string slices.
pub open spec fn str_views(v: Seq<&str>) -> Seq<Seq<char>> {
    v.map_values(|s: &str| s@)
}

pub proof fn lemma_str_views_push(v: Seq<&str>, s: &str)
    ensures
        str_views(v.push(s)) == str_views(v).push(s@),
{
    assert(str_views(v.push(s)) =~= str_views(v).push(s@));
}

/// Applying the parent's parts in `ps` (deepest first) on top of `base`.
pub open spec fn join_all(base: Seq<char>, ps: Seq<Seq<char>>) -> Seq<char>
    decreases ps.len(),
{
    if ps.len() == 0 {
        base
    } else {
        join_path(join_all(base, ps.drop_first()), ps[0])
    }
}

proof fn lemma_join_all_push(base: Seq<char>, ps: Seq<Seq<char>>, x: Seq<char>)
    ensures
        join_all(base, ps.push(x)) == join_all(join_path(base, x), ps),
    decreases ps.len(),
{
    let q = ps.push(x);
    assert(q.len() > 0);
    assert(join_all(base, q) == join_path(join_all(base, q.drop_first()), q[0]));
    if ps.len() > 0 {
        assert(q.drop_first() =~= ps.drop_first().push(x));
        lemma_join_all_push(base, ps.drop_first(), x);
        assert(q[0] == ps[0]);
    } else {
        assert(q.drop_first() =~= ps);
        assert(join_all(base, ps) == base);
        assert(join_all(join_path(base, x), ps) == join_path(base, x));
    }
}

/// Whether `s` ends with a path separator.
fn ends_with_separator(s: &str) -> (r: bool)
    ensures
        r == (s@.len() > 0 && (s@.last() == '\\' || s@.last() == '/')),
{
    let n = s.unicode_len();
    if n == 0 {
        false
    } else {
        let c = s.get_char(n - 1);
        c == '\\' || c == '/'
    }
}

impl Default for Model {
    fn default() -> (m: Self)
        ensures
            m.wf(),
            m.spec_len() == 0,
            m.spec_root_path() == Seq::<char>::empty(),
            m.spec_cluster_size() == 0,
    {
        let m = Model { nodes: Vec::new(), names: Vec::new(), root_path: String::new(), cluster_size: 0 };
        assert(string_views(m.names@) =~= Seq::<Seq<char>>::empty());
        m
    }
}

impl Model {
    pub fn node(&self, id: u32) -> (n: &Node)
        requires
            id < self.spec_len(),
        ensures
            *n == self.spec_nodes()[id as int],
    {
        &self.nodes[id as usize]
    }

    pub fn len(&self) -> (n: usize)
        ensures
            n == self.spec_len(),
    {
        self.nodes.len()
    }

    pub fn is_empty(&self) -> (r: bool)
        ensures
            r == (self.spec_len() == 0),
    {
        self.nodes.len() == 0
    }

    /// Root path as scanned, e.g. `C:\` or `D:\Projects`.
    pub fn root_path(&self) -> (r: &str)
        ensures
            r@ == self.spec_root_path(),
    {
        self.root_path.as_str()
    }

    /// Cluster size of the scanned volume in bytes.
    pub fn cluster_size(&self) -> (r: u64)
        ensures
            r == self.spec_cluster_size(),
    {
        self.cluster_size
    }

    pub fn name(&self, id: u32) -> (r: &str)
        requires
            self.wf(),
            id < self.spec_len(),
        ensures
            r@ == self.spec_names()[id as int],
    {
        self.names[id as usize].as_str()
    }

    /// Iterate child ids of `id` in stored (size-descending) order.
    pub fn children(&self, id: u32) -> (r: Range<u32>)
        requires
            self.wf(),
            id < self.spec_len(),
        ensures
            r.start == self.spec_nodes()[id as int].first_child,
            r.end == self.spec_nodes()[id as int].first_child + self.spec_nodes()[id as int].child_count,
    {
        self.nodes[id as usize].children()
    }

    /// Full path of a node, e.g. `C:\Users\Me\file.txt`.
    pub fn path(&self, id: u32) -> (r: String)
        requires
            self.wf(),
            id < self.spec_len() || id == NO_NODE,
        ensures
            r@ == path_of(self.spec_nodes(), self.spec_names(), self.spec_root_path(), id as int),
    {
        let ghost nodes = self.spec_nodes();
        let ghost names = self.spec_names();
        let ghost rp = self.spec_root_path();
        let mut parts: Vec<&str> = Vec::new();
        let mut cur = id;
        while cur != NO_NODE && self.nodes[cur as usize].parent != NO_NODE
            invariant
                self.wf(),
                nodes == self.spec_nodes(),
                names == self.spec_names(),
                rp == self.spec_root_path(),
                cur < self.spec_len() || cur == NO_NODE,
                path_of(nodes, names, rp, id as int) == join_all(
                    path_of(nodes, names, rp, cur as int),
                    str_views(parts@),
                ),
            decreases cur,
        {
            let parent = self.nodes[cur as usize].parent;
            let ghost before = parts@;
            let nm = self.name(cur);
            parts.push(nm);
            proof {
                assert(cur > 0);
                assert(nodes[cur as int].parent < cur);
                lemma_str_views_push(before, nm);
                assert(path_of(nodes, names, rp, cur as int) == join_path(
                    path_of(nodes, names, rp, parent as int),
                    names[cur as int],
                ));
                lemma_join_all_push(
                    path_of(nodes, names, rp, parent as int),
                    str_views(before),
                    names[cur as int],
                );
            }
            cur = parent;
        }
        proof {
            assert(path_of(nodes, names, rp, cur as int) == rp);
        }
        let mut out = self.root_path.clone();
        let mut i = parts.len();
        proof {
            assert(str_views(parts@).subrange(i as int, i as int) =~= Seq::<Seq<char>>::empty());
        }
        while i > 0
            invariant
                i <= parts@.len(),
                out@ == join_all(rp, str_views(parts@).subrange(i as int, parts@.len() as int)),
                path_of(nodes, names, rp, id as int) == join_all(rp, str_views(parts@)),
            decreases i,
        {
            let ghost sv = str_views(parts@);
            let p = parts[i - 1];
            if !ends_with_separator(out.as_str()) {
                let sep = "\\";
                proof {
                    reveal_strlit("\\");
                }
                out.append(sep);
            }
            out.append(p);
            proof {
                let ps = sv.subrange(i - 1, parts@.len() as int);
                assert(ps.drop_first() =~= sv.subrange(i as int, parts@.len() as int));
                assert(ps[0] == p@);
                assert(out@ =~= join_path(join_all(rp, ps.drop_first()), p@));
            }
            i -= 1;
        }
        proof {
            assert(str_views(parts@).subrange(0, parts@.len() as int) =~= str_views(parts@));
        }
        out
    }

    /// Names on the way from the scan root down to `id` (root excluded).
    pub fn rel_path(&self, id: u32) -> (r: Vec<&str>)
        requires
            self.wf(),
            id < self.spec_len(),
        ensures
            str_views(r@) == rel_path_of(self.spec_nodes(), self.spec_names(), id as int),
    {
        let ghost nodes = self.spec_nodes();
        let ghost names = self.spec_names();
        let mut up: Vec<&str> = Vec::new();
        let mut cur = id;
        while self.nodes[cur as usize].parent != NO_NODE
            invariant
                self.wf(),
                nodes == self.spec_nodes(),
                names == self.spec_names(),
                cur < self.spec_len(),
                rel_path_of(nodes, names, id as int) == rel_path_of(nodes, names, cur as int) + str_views(
                    up@,
                ).reverse(),
            decreases cur,
        {
            let ghost before = up@;
            let parent = self.nodes[cur as usize].parent;
            let nm = self.name(cur);
            up.push(nm);
            proof {
                assert(cur > 0);
                assert(nodes[cur as int].parent < cur);
                lemma_str_views_push(before, nm);
                assert(str_views(up@).reverse() =~= seq![names[cur as int]] + str_views(before).reverse());
                assert(rel_path_of(nodes, names, cur as int) == rel_path_of(nodes, names, parent as int).push(
                    names[cur as int],
                ));
                assert(rel_path_of(nodes, names, parent as int) + str_views(up@).reverse()
                    =~= rel_path_of(nodes, names, cur as int) + str_views(before).reverse());
            }
            cur = parent;
        }
        let mut out: Vec<&str> = Vec::new();
        let mut i = up.len();
        while i > 0
            invariant
                i <= up@.len(),
                str_views(out@) =~= str_views(up@).reverse().subrange(0, (up@.len() - i) as int),
            decreases i,
        {
            let ghost before = out@;
            out.push(up[i - 1]);
            proof {
                lemma_str_views_push(before, up@[i - 1]);
            }
            i -= 1;
        }
        proof {
            assert(str_views(up@).reverse().subrange(0, up@.len() as int) =~= str_views(up@).reverse());
            assert(rel_path_of(nodes, names, cur as int) =~= Seq::<Seq<char>>::empty());
        }
        out
    }

    /// The first directory child of `cur` (in stored order) named `target`.
    fn find_named_subdir(&self, cur: u32, target: &String) -> (r: Option<u32>)
        requires
            self.wf(),
            cur < self.spec_len(),
        ensures
            r is None <==> first_named_subdir(self.spec_nodes(), self.spec_names(), cur as int, target@) is None,
            r matches Some(c) ==> c < self.spec_len() && first_named_subdir(
                self.spec_nodes(),
                self.spec_names(),
                cur as int,
                target@,
            ) == Some(c as int),
    {
        let ghost nodes = self.spec_nodes();
        let ghost names = self.spec_names();
        let range = self.children(cur);
        let mut c = range.start;
        while c < range.end
            invariant
                self.wf(),
                nodes == self.spec_nodes(),
                names == self.spec_names(),
                cur < self.spec_len(),
                range.start == nodes[cur as int].first_child,
                range.end == nodes[cur as int].first_child + nodes[cur as int].child_count,
                range.end <= self.spec_len(),
                range.start <= c <= range.end,
                forall|b: int|
                    range.start <= b < c ==> !is_named_subdir(nodes, names, cur as int, b, target@),
            decreases range.end - c,
        {
            if self.nodes[c as usize].is_dir && self.names[c as usize] == *target {
                proof {
                    assert(is_named_subdir(nodes, names, cur as int, c as int, target@));
                    let ch = first_named_subdir(nodes, names, cur as int, target@).unwrap();
                    assert(is_named_subdir(nodes, names, cur as int, ch, target@));
                    if ch < c {
                        assert(false);
                    }
                    if ch > c {
                        assert(!is_named_subdir(nodes, names, cur as int, c as int, target@));
                    }
                }
                return Some(c);
            }
            c += 1;
        }
        proof {
            assert(!exists|b: int| is_named_subdir(nodes, names, cur as int, b, target@));
        }
        None
    }

    /// Directory reached by following `parts` from the root: the directory
    /// itself if it still exists, otherwise its deepest surviving ancestor.
    pub fn find_dir(&self, parts: &[&str]) -> (r: u32)
        requires
            self.wf(),
            self.spec_len() > 0,
        ensures
            r == walk_dirs(self.spec_nodes(), self.spec_names(), 0, str_views(parts@)),
            r < self.spec_len(),
    {
        let ghost nodes = self.spec_nodes();
        let ghost names = self.spec_names();
        let ghost all = str_views(parts@);
        let mut cur: u32 = 0;
        let mut i: usize = 0;
        proof {
            assert(all.subrange(0, all.len() as int) =~= all);
        }
        while i < parts.len()
            invariant
                self.wf(),
                cur < self.spec_len(),
                i <= parts@.len(),
                all == str_views(parts@),
                nodes == self.spec_nodes(),
                names == self.spec_names(),
                walk_dirs(nodes, names, 0, all) == walk_dirs(nodes, names, cur as int, all.subrange(
                    i as int,
                    all.len() as int,
                )),
            decreases parts@.len() - i,
        {
            let ghost rest = all.subrange(i as int, all.len() as int);
            let target = parts[i].to_owned();
            proof {
                lemma_walk_step(nodes, names, cur as int, rest);
            }
            match self.find_named_subdir(cur, &target) {
                None => {
                    proof {
                        assert(rest[0] == target@);
                    }
                    return cur;
                },
                Some(c) => {
                    proof {
                        assert(rest[0] == target@);
                        assert(rest.drop_first() =~= all.subrange(i + 1, all.len() as int));
                    }
                    cur = c;
                },
            }
            i += 1;
        }
        proof {
            assert(all.subrange(i as int, all.len() as int) =~= Seq::<Seq<char>>::empty());
            lemma_walk_step(nodes, names, cur as int, all.subrange(i as int, all.len() as int));
        }
        cur
    }
}


// --- subtrees and the largest files ---------------------------------------

/// Node `i` lies strictly below node `d`: climbing parent links from `i`
/// reaches `d`.
pub open spec fn is_below(nodes: Seq<Node>, i: int, d: int) -> bool
    decreases i,
{
    if 0 <= i < nodes.len() && nodes[i].parent != NO_NODE && nodes[i].parent < i {
        nodes[i].parent == d || is_below(nodes, nodes[i].parent as int, d)
    } else {
        false
    }
}

/// `f` is a file strictly below `root`.
pub open spec fn file_under(nodes: Seq<Node>, root: int, f: int) -> bool {
    0 <= f < nodes.len() && !nodes[f].is_dir && is_below(nodes, f, root)
}

/// All files strictly below `root`.
pub open spec fn files_under(nodes: Seq<Node>, root: int) -> Set<int> {
    Set::new(|f: int| file_under(nodes, root, f))
}

/// File `a` is listed before file `b`: larger first, lower id for ties.
pub open spec fn ranks_before(nodes: Seq<Node>, m: Metric, a: int, b: int) -> bool {
    nodes[a].spec_metric(m) > nodes[b].spec_metric(m) || (nodes[a].spec_metric(m)
        == nodes[b].spec_metric(m) && a < b)
}

pub open spec fn min_nat(a: nat, b: nat) -> nat {
    if a <= b {
        a
    } else {
        b
    }
}

proof fn lemma_below_lt(nodes: Seq<Node>, i: int, d: int)
    requires
        is_below(nodes, i, d),
    ensures
        0 <= d < i < nodes.len(),
    decreases i,
{
    let p = nodes[i].parent as int;
    if p != d {
        lemma_below_lt(nodes, p, d);
    }
}

/// Nothing below a node is larger than it.
proof fn lemma_below_metric(nodes: Seq<Node>, names: Seq<Seq<char>>, i: int, d: int)
    requires
        tree_wf(nodes, names),
        is_below(nodes, i, d),
    ensures
        nodes[i].size <= nodes[d].size,
        nodes[i].alloc <= nodes[d].alloc,
    decreases i,
{
    let p = nodes[i].parent as int;
    assert(i > 0);
    assert(nodes[i].size <= nodes[p].size && nodes[i].alloc <= nodes[p].alloc);
    if p != d {
        lemma_below_metric(nodes, names, p, d);
    }
}

/// A node below `d` is a child of `d` or lies below one.
proof fn lemma_below_child(nodes: Seq<Node>, names: Seq<Seq<char>>, f: int, d: int) -> (c: int)
    requires
        tree_wf(nodes, names),
        is_below(nodes, f, d),
    ensures
        child_of(nodes, d, c),
        0 <= c < nodes.len(),
        f == c || is_below(nodes, f, c),
    decreases f,
{
    let p = nodes[f].parent as int;
    assert(f > 0);
    assert(child_of(nodes, p, f));
    if p == d {
        f
    } else {
        let c = lemma_below_child(nodes, names, p, d);
        if p != c {
            lemma_below_lt(nodes, p, c);
        }
        c
    }
}

/// Only directories have anything below them.
proof fn lemma_below_dir(nodes: Seq<Node>, names: Seq<Seq<char>>, f: int, d: int)
    requires
        tree_wf(nodes, names),
        is_below(nodes, f, d),
    ensures
        nodes[d].is_dir,
{
    let c = lemma_below_child(nodes, names, f, d);
    lemma_below_lt(nodes, f, d);
}

/// Below a child of `d` means below `d`.
proof fn lemma_below_trans(nodes: Seq<Node>, names: Seq<Seq<char>>, f: int, c: int, d: int)
    requires
        tree_wf(nodes, names),
        0 <= d < nodes.len(),
        child_of(nodes, d, c),
        is_below(nodes, f, c),
    ensures
        is_below(nodes, f, d),
    decreases f,
{
    lemma_below_lt(nodes, f, c);
    assert(nodes[d].first_child + nodes[d].child_count <= nodes.len());
    assert(nodes[c].parent == d);
    assert(c > 0);
    assert(is_below(nodes, c, d));
    let p = nodes[f].parent as int;
    if p != c {
        lemma_below_trans(nodes, names, p, c, d);
    }
}

/// The files below a node form a finite set.
proof fn lemma_files_under_finite(nodes: Seq<Node>, root: int)
    ensures
        files_under(nodes, root).finite(),
        files_under(nodes, root).subset_of(vstd::set_lib::set_int_range(0, nodes.len() as int)),
{
    vstd::set_lib::lemma_int_range(0, nodes.len() as int);
    vstd::set_lib::lemma_len_subset(
        files_under(nodes, root),
        vstd::set_lib::set_int_range(0, nodes.len() as int),
    );
}


/// Ranking key of a kept file: larger metric first, lower id for ties.
pub open spec fn key_before(a: (u64, u32), b: (u64, u32)) -> bool {
    a.0 > b.0 || (a.0 == b.0 && a.1 < b.1)
}

/// The files kept so far: at most `limit`, all below `root` with their
/// metric, strictly ordered by rank.
pub open spec fn best_ok(nodes: Seq<Node>, m: Metric, root: int, best: Seq<(u64, u32)>, limit: nat) -> bool {
    &&& best.len() <= limit
    &&& forall|k: int|
        0 <= k < best.len() ==> file_under(nodes, root, (#[trigger] best[k]).1 as int) && best[k].0
            == nodes[best[k].1 as int].spec_metric(m)
    &&& forall|k: int, l: int|
        0 <= k < l < best.len() ==> key_before(#[trigger] best[k], #[trigger] best[l])
}

/// File `f` is kept, waits below a directory still on the stack, or was
/// dropped because the list is full of files at least as large.
pub open spec fn covered(
    nodes: Seq<Node>,
    m: Metric,
    best: Seq<(u64, u32)>,
    stack: Seq<u32>,
    limit: nat,
    f: int,
) -> bool {
    ||| exists|k: int| 0 <= k < best.len() && (#[trigger] best[k]).1 == f
    ||| exists|j: int| 0 <= j < stack.len() && is_below(nodes, f, #[trigger] stack[j] as int)
    ||| (best.len() == limit && best.len() > 0 && nodes[f].spec_metric(m) <= best.last().0)
}

/// `f` is `c` or lies below it.
pub open spec fn in_subtree(nodes: Seq<Node>, f: int, c: int) -> bool {
    f == c || is_below(nodes, f, c)
}

/// `f` lies in the subtree of one of the nodes `lo .. hi`.
pub open spec fn pending_in(nodes: Seq<Node>, f: int, lo: int, hi: int) -> bool {
    exists|c2: int| lo <= c2 < hi && #[trigger] in_subtree(nodes, f, c2)
}

/// `covered`, or still to be visited among the children `lo .. hi` of the
/// directory being listed.
pub open spec fn accounted(
    nodes: Seq<Node>,
    m: Metric,
    best: Seq<(u64, u32)>,
    stack: Seq<u32>,
    limit: nat,
    f: int,
    lo: int,
    hi: int,
) -> bool {
    covered(nodes, m, best, stack, limit, f) || pending_in(nodes, f, lo, hi)
}

/// Termination measure of the traversal: deeper (higher) ids weigh less,
/// and a directory outweighs all of its children together.
pub open spec fn stack_weight(k: int, n: int, s: Seq<u32>) -> nat
    decreases s.len(),
{
    if s.len() == 0 {
        0
    } else {
        stack_weight(k, n, s.drop_last()) + pow(k, (n - s.last()) as nat) as nat
    }
}

/// Ids of the kept files.
pub open spec fn best_ids(best: Seq<(u64, u32)>) -> Seq<u32> {
    best.map_values(|p: (u64, u32)| p.1)
}

/// Whether some entry of `best` has id `c`.
fn contains_id(best: &Vec<(u64, u32)>, c: u32) -> (r: bool)
    ensures
        r == exists|k: int| 0 <= k < best@.len() && (#[trigger] best@[k]).1 == c,
{
    let n = best.len();
    let mut i: usize = 0;
    while i < n
        invariant
            n == best@.len(),
            i <= n,
            forall|k: int| 0 <= k < i ==> (#[trigger] best@[k]).1 != c,
        decreases n - i,
    {
        if best[i].1 == c {
            return true;
        }
        i += 1;
    }
    false
}

/// Insert `(m, c)` at its rank; drop the last entry when that overflows
/// `limit`. An id already present is left alone.
fn insert_ranked(best: &mut Vec<(u64, u32)>, m: u64, c: u32, limit: usize)
    requires
        0 < limit,
        old(best)@.len() <= limit,
        forall|k: int, l: int|
            0 <= k < l < old(best)@.len() ==> key_before(#[trigger] old(best)@[k], #[trigger] old(best)@[l]),
        old(best)@.len() == limit ==> m > old(best)@.last().0,
    ensures
        final(best)@.len() <= limit,
        forall|k: int, l: int|
            0 <= k < l < final(best)@.len() ==> key_before(#[trigger] final(best)@[k], #[trigger] final(best)@[l]),
        exists|k: int| 0 <= k < final(best)@.len() && (#[trigger] final(best)@[k]) == (m, c)
            || (exists|k: int| 0 <= k < old(best)@.len() && (#[trigger] old(best)@[k]).1 == c),
        exists|k: int| 0 <= k < final(best)@.len() && (#[trigger] final(best)@[k]).1 == c,
        forall|k: int|
            0 <= k < final(best)@.len() ==> (#[trigger] final(best)@[k]) == (m, c) || old(
                best,
            )@.contains(final(best)@[k]),
        forall|k: int|
            0 <= k < old(best)@.len() ==> final(best)@.contains(#[trigger] old(best)@[k]) || (
            final(best)@.len() == limit && old(best)@[k].0 <= final(best)@.last().0),
        old(best)@.len() == limit ==> final(best)@.len() == limit && old(best)@.last().0
            <= final(best)@.last().0,
{
    if contains_id(best, c) {
        return;
    }
    let mut pos: usize = 0;
    while pos < best.len() && (best[pos].0 > m || (best[pos].0 == m && best[pos].1 < c))
        invariant
            pos <= best@.len(),
            forall|k: int| 0 <= k < pos ==> key_before(#[trigger] best@[k], (m, c)),
        decreases best@.len() - pos,
    {
        pos += 1;
    }
    let ghost before = best@;
    best.insert(pos, (m, c));
    proof {
        assert forall|k: int, l: int| 0 <= k < l < best@.len() implies key_before(
            #[trigger] best@[k],
            #[trigger] best@[l],
        ) by {
            if l < pos {
                assert(key_before(before[k], before[l]));
            } else if l == pos {
                assert(key_before(before[k], (m, c)));
            } else if k < pos {
                assert(key_before(before[k], before[l - 1]));
            } else if k == pos {
                assert(!key_before(before[pos as int], (m, c)));
                assert(before[pos as int].1 != c);
                if l - 1 > pos {
                    assert(key_before(before[pos as int], before[l - 1]));
                }
            } else {
                assert(key_before(before[k - 1], before[l - 1]));
            }
        }
        assert(best@[pos as int] == (m, c));
        assert forall|k: int| 0 <= k < before.len() implies best@.contains(#[trigger] before[k]) by {
            if k < pos {
                assert(best@[k] == before[k]);
            } else {
                assert(best@[k + 1] == before[k]);
            }
        }
        assert forall|k: int| 0 <= k < best@.len() implies (#[trigger] best@[k]) == (m, c)
            || before.contains(best@[k]) by {
            if k < pos {
                assert(best@[k] == before[k]);
            } else if k > pos {
                assert(best@[k] == before[k - 1]);
            }
        }
    }
    if best.len() > limit {
        let ghost full = best@;
        best.pop();
        proof {
            assert(before.len() == limit);
            assert(pos < before.len()) by {
                if pos == before.len() {
                    assert(key_before(before.last(), (m, c)));
                }
            }
            assert(best@ =~= full.drop_last());
            assert(full.last() == before.last());
            assert(best@[pos as int] == (m, c));
            assert forall|k: int| 0 <= k < before.len() implies best@.contains(#[trigger] before[k]) || (
            best@.len() == limit && before[k].0 <= best@.last().0) by {
                if k < before.len() - 1 {
                    if k < pos {
                        assert(best@[k] == before[k]);
                    } else {
                        assert(best@[k + 1] == before[k]);
                    }
                } else {
                    let lst = best@.len() - 1;
                    assert(key_before(best@[lst], full[lst + 1]));
                }
            }
            assert forall|k: int| 0 <= k < best@.len() implies (#[trigger] best@[k]) == (m, c)
                || before.contains(best@[k]) by {
                assert(best@[k] == full[k]);
            }
            if before.len() > 1 {
                let lst = best@.len() - 1;
                if lst == pos {
                    assert(m > before.last().0);
                } else {
                    assert(best@[lst] == before[lst - 1]);
                    assert(key_before(before[lst - 1], before.last()));
                }
            } else {
                assert(best@.last() == (m, c));
            }
        }
    } else {
        proof {
            if before.len() == limit {
                assert(false);
            }
        }
    }
}


proof fn lemma_stack_weight_push(k: int, n: int, s: Seq<u32>, x: u32)
    ensures
        stack_weight(k, n, s.push(x)) == stack_weight(k, n, s) + pow(k, (n - x) as nat) as nat,
{
    assert(s.push(x).drop_last() =~= s);
}

impl Model {
    /// The `limit` largest files under `root` by `metric`, largest first.
    /// Directories no larger than the smallest file kept so far are not
    /// entered: nothing inside them can make the list. Among files of equal
    /// size the choice is deterministic but otherwise unspecified.
    pub fn largest_files(&self, root: u32, metric: Metric, limit: usize) -> (r: Vec<u32>)
        requires
            self.wf(),
            root < self.spec_len(),
        ensures
            r@.len() == min_nat(limit as nat, files_under(self.spec_nodes(), root as int).len()),
            forall|k: int|
                0 <= k < r@.len() ==> file_under(self.spec_nodes(), root as int, #[trigger] r@[k] as int),
            r@.no_duplicates(),
            forall|k: int, l: int|
                0 <= k < l < r@.len() ==> ranks_before(
                    self.spec_nodes(),
                    metric,
                    #[trigger] r@[k] as int,
                    #[trigger] r@[l] as int,
                ),
            forall|f: u32|
                limit > 0 && file_under(self.spec_nodes(), root as int, f as int) && !r@.contains(f) ==> r@.len()
                    == limit && r@.len() > 0 && self.spec_nodes()[f as int].spec_metric(metric)
                    <= self.spec_nodes()[r@.last() as int].spec_metric(metric),
    {
        let ghost nodes = self.spec_nodes();
        let ghost names = self.spec_names();
        proof {
            lemma_files_under_finite(nodes, root as int);
        }
        if limit == 0 {
            return Vec::new();
        }
        let ghost n = nodes.len() as int;
        let ghost kk = n + 1;
        let mut best: Vec<(u64, u32)> = Vec::new();
        let mut stack: Vec<u32> = Vec::new();
        stack.push(root);
        proof {
            assert forall|f: int| file_under(nodes, root as int, f) implies covered(
                nodes,
                metric,
                best@,
                stack@,
                limit as nat,
                f,
            ) by {
                assert(is_below(nodes, f, stack@[0] as int));
            }
        }
        while stack.len() > 0
            invariant
                self.wf(),
                nodes == self.spec_nodes(),
                names == self.spec_names(),
                n == nodes.len(),
                kk == n + 1,
                0 < limit,
                root < n,
                forall|j: int|
                    0 <= j < stack@.len() ==> (#[trigger] stack@[j]) < n && (stack@[j] == root
                        || is_below(nodes, stack@[j] as int, root as int)),
                best_ok(nodes, metric, root as int, best@, limit as nat),
                forall|f: int|
                    file_under(nodes, root as int, f) ==> #[trigger] covered(
                        nodes,
                        metric,
                        best@,
                        stack@,
                        limit as nat,
                        f,
                    ),
            decreases stack_weight(kk, n, stack@),
        {
            let ghost before_stack = stack@;
            let dir = stack.pop().unwrap();
            let ghost base = stack@;
            let ghost e1 = (n - dir - 1) as nat;
            proof {
                assert(before_stack =~= base.push(dir));
                lemma_stack_weight_push(kk, n, base, dir);
                lemma_pow_positive(kk, e1);
                lemma_pow_adds(kk, e1, 1);
                lemma_pow1(kk);
                assert(pow(kk, (n - dir) as nat) == pow(kk, e1) * kk);
            }
            let range = self.children(dir);
            let mut c = range.start;
            proof {
                assert forall|f: int| file_under(nodes, root as int, f) implies #[trigger] accounted(nodes, metric, best@, stack@, limit as nat, f, (c) as int, range.end as int) by {
                    assert(covered(nodes, metric, best@, before_stack, limit as nat, f));
                    if exists|j: int|
                        0 <= j < before_stack.len() && is_below(nodes, f, #[trigger] before_stack[j] as int) {
                        let j = choose|j: int|
                            0 <= j < before_stack.len() && is_below(nodes, f, #[trigger] before_stack[j] as int);
                        if j < base.len() {
                            assert(base[j] == before_stack[j]);
                        } else {
                            let c2 = lemma_below_child(nodes, names, f, dir as int);
                            assert(in_subtree(nodes, f, c2));
                        }
                    }
                }
                assert(stack_weight(kk, n, stack@) <= stack_weight(kk, n, base) + (c - range.start) * pow(kk, e1))
                    by (nonlinear_arith)
                    requires
                        stack@ == base,
                        c == range.start,
                        pow(kk, e1) > 0,
                ;
            }
            while c < range.end
                invariant
                    self.wf(),
                    nodes == self.spec_nodes(),
                    names == self.spec_names(),
                    n == nodes.len(),
                    kk == n + 1,
                    0 < limit,
                    root < n,
                    dir < n,
                    dir == root || is_below(nodes, dir as int, root as int),
                    e1 == n - dir - 1,
                    range.start == nodes[dir as int].first_child,
                    range.end == nodes[dir as int].first_child + nodes[dir as int].child_count,
                    range.end <= n,
                    range.start <= c <= range.end,
                    forall|j: int|
                        0 <= j < stack@.len() ==> (#[trigger] stack@[j]) < n && (stack@[j] == root
                            || is_below(nodes, stack@[j] as int, root as int)),
                    best_ok(nodes, metric, root as int, best@, limit as nat),
                    forall|f: int|
                        file_under(nodes, root as int, f) ==> #[trigger] accounted(nodes, metric, best@, stack@, limit as nat, f, (c) as int, range.end as int),
                    stack_weight(kk, n, stack@) <= stack_weight(kk, n, base) + (c - range.start) * pow(
                        kk,
                        e1,
                    ),
                    pow(kk, e1) > 0,
                decreases range.end - c,
            {
                let node = &self.nodes[c as usize];
                let m = node.metric(metric);
                proof {
                    assert(child_of(nodes, dir as int, c as int));
                    assert(nodes[c as int].parent == dir);
                    assert(c > dir) by {
                        assert(c > 0);
                    }
                }
                if best.len() == limit && m <= best[best.len() - 1].0 {
                    proof {
                        assert forall|f: int| file_under(nodes, root as int, f) implies #[trigger] accounted(nodes, metric, best@, stack@, limit as nat, f, (c + 1) as int, range.end as int) by {
                            assert(accounted(nodes, metric, best@, stack@, limit as nat, f, c as int, range.end as int));
                            if !covered(nodes, metric, best@, stack@, limit as nat, f) {
                                let c2 = choose|c2: int|
                                    c <= c2 < range.end && #[trigger] in_subtree(nodes, f, c2);
                                if c2 == c {
                                    assert(in_subtree(nodes, f, c as int));
                                    if f != c {
                                        lemma_below_metric(nodes, names, f, c as int);
                                    }
                                    assert(nodes[f].spec_metric(metric) <= m);
                                }
                            }
                        }
                        assert(stack_weight(kk, n, stack@) <= stack_weight(kk, n, base) + (c + 1 - range.start)
                            * pow(kk, e1)) by (nonlinear_arith)
                            requires
                                stack_weight(kk, n, stack@) <= stack_weight(kk, n, base) + (c - range.start)
                                    * pow(kk, e1),
                                pow(kk, e1) > 0,
                        ;
                    }
                    c += 1;
                    continue;
                }
                if node.is_dir {
                    let ghost before = stack@;
                    stack.push(c);
                    proof {
                        lemma_stack_weight_push(kk, n, before, c);
                        lemma_pow_positive(kk, (n - c) as nat);
                        lemma_pow_increases(kk as nat, (n - c) as nat, e1);
                        assert(stack_weight(kk, n, stack@) <= stack_weight(kk, n, base) + (c + 1 - range.start)
                            * pow(kk, e1)) by (nonlinear_arith)
                            requires
                                stack_weight(kk, n, before) <= stack_weight(kk, n, base) + (c - range.start)
                                    * pow(kk, e1),
                                stack_weight(kk, n, stack@) == stack_weight(kk, n, before) + pow(kk, (n - c) as nat),
                                pow(kk, (n - c) as nat) <= pow(kk, e1),
                        ;
                        assert(is_below(nodes, c as int, root as int));
                        assert forall|j: int| 0 <= j < stack@.len() implies (#[trigger] stack@[j]) < n && (
                        stack@[j] == root || is_below(nodes, stack@[j] as int, root as int)) by {
                            if j < before.len() {
                                assert(stack@[j] == before[j]);
                            }
                        }
                        assert forall|f: int| file_under(nodes, root as int, f) implies #[trigger] accounted(nodes, metric, best@, stack@, limit as nat, f, (c + 1) as int, range.end as int) by {
                            assert(accounted(nodes, metric, best@, before, limit as nat, f, c as int, range.end as int));
                            if covered(nodes, metric, best@, before, limit as nat, f) {
                                if exists|j: int|
                                    0 <= j < before.len() && is_below(nodes, f, #[trigger] before[j] as int) {
                                    let j = choose|j: int|
                                        0 <= j < before.len() && is_below(nodes, f, #[trigger] before[j] as int);
                                    assert(stack@[j] == before[j]);
                                }
                            } else {
                                let c2 = choose|c2: int|
                                    c <= c2 < range.end && #[trigger] in_subtree(nodes, f, c2);
                                if c2 == c {
                                    assert(f != c);
                                    assert(stack@[before.len() as int] == c);
                                }
                            }
                        }
                    }
                } else {
                    let ghost before = best@;
                    proof {
                        assert(is_below(nodes, c as int, root as int));
                    }
                    insert_ranked(&mut best, m, c, limit);
                    proof {
                        assert forall|k: int| 0 <= k < best@.len() implies file_under(
                            nodes,
                            root as int,
                            (#[trigger] best@[k]).1 as int,
                        ) && best@[k].0 == nodes[best@[k].1 as int].spec_metric(metric) by {
                            if best@[k] != (m, c) {
                                assert(before.contains(best@[k]));
                                let k2 = choose|k2: int| 0 <= k2 < before.len() && before[k2] == best@[k];
                                assert(file_under(nodes, root as int, before[k2].1 as int));
                            }
                        }
                        assert forall|f: int| file_under(nodes, root as int, f) implies #[trigger] accounted(nodes, metric, best@, stack@, limit as nat, f, (c + 1) as int, range.end as int) by {
                            assert(accounted(nodes, metric, before, stack@, limit as nat, f, c as int, range.end as int));
                            if covered(nodes, metric, before, stack@, limit as nat, f) {
                                if exists|k: int| 0 <= k < before.len() && (#[trigger] before[k]).1 == f {
                                    let k = choose|k: int| 0 <= k < before.len() && (#[trigger] before[k]).1 == f;
                                    if best@.contains(before[k]) {
                                        let k2 = choose|k2: int| 0 <= k2 < best@.len() && best@[k2] == before[k];
                                        assert(best@[k2].1 == f);
                                    } else {
                                        assert(nodes[f].spec_metric(metric) == before[k].0);
                                    }
                                } else if exists|j: int|
                                    0 <= j < stack@.len() && is_below(nodes, f, #[trigger] stack@[j] as int) {
                                } else {
                                    assert(before.len() == limit);
                                }
                            } else {
                                let c2 = choose|c2: int|
                                    c <= c2 < range.end && #[trigger] in_subtree(nodes, f, c2);
                                if c2 == c {
                                    if f != c {
                                        lemma_below_dir(nodes, names, f, c as int);
                                    }
                                    assert(f == c);
                                    let k = choose|k: int| 0 <= k < best@.len() && (#[trigger] best@[k]).1 == c;
                                    assert(best@[k].1 == f);
                                }
                            }
                        }
                        assert(stack_weight(kk, n, stack@) <= stack_weight(kk, n, base) + (c + 1 - range.start)
                            * pow(kk, e1)) by (nonlinear_arith)
                            requires
                                stack_weight(kk, n, stack@) <= stack_weight(kk, n, base) + (c - range.start)
                                    * pow(kk, e1),
                                pow(kk, e1) > 0,
                        ;
                    }
                }
                c += 1;
            }
            proof {
                let cc = range.end - range.start;
                assert(cc <= n);
                assert(stack_weight(kk, n, stack@) < stack_weight(kk, n, before_stack)) by (nonlinear_arith)
                    requires
                        stack_weight(kk, n, stack@) <= stack_weight(kk, n, base) + cc * pow(kk, e1),
                        stack_weight(kk, n, before_stack) == stack_weight(kk, n, base) + pow(kk, e1) * kk,
                        cc <= n,
                        kk == n + 1,
                        pow(kk, e1) > 0,
                ;
                assert forall|f: int| file_under(nodes, root as int, f) implies #[trigger] covered(
                    nodes,
                    metric,
                    best@,
                    stack@,
                    limit as nat,
                    f,
                ) by {
                    assert(accounted(nodes, metric, best@, stack@, limit as nat, f, range.end as int, range.end as int));
                }
            }
        }
        let mut r: Vec<u32> = Vec::new();
        let mut k: usize = 0;
        while k < best.len()
            invariant
                k <= best@.len(),
                r@ == best_ids(best@).take(k as int),
            decreases best@.len() - k,
        {
            r.push(best[k].1);
            proof {
                assert(best_ids(best@).take(k + 1) =~= best_ids(best@).take(k as int).push(best@[k as int].1));
            }
            k += 1;
        }
        proof {
            let ids = best_ids(best@);
            assert(ids.take(best@.len() as int) =~= ids);
            assert(stack@ =~= Seq::<u32>::empty());
            lemma_largest_files_result(nodes, metric, root as int, best@, limit as nat);
        }
        r
    }
}

/// What the traversal leaves behind (every file kept or dropped for one at
/// least as large) is the result that `largest_files` promises.
proof fn lemma_largest_files_result(nodes: Seq<Node>, m: Metric, root: int, best: Seq<(u64, u32)>, limit: nat)
    requires
        0 < limit,
        nodes.len() < NO_NODE,
        best_ok(nodes, m, root, best, limit),
        forall|f: int|
            file_under(nodes, root, f) ==> #[trigger] covered(nodes, m, best, Seq::empty(), limit, f),
    ensures
        ({
            let r = best_ids(best);
            &&& r.len() == min_nat(limit, files_under(nodes, root).len())
            &&& forall|k: int| 0 <= k < r.len() ==> file_under(nodes, root, #[trigger] r[k] as int)
            &&& r.no_duplicates()
            &&& forall|k: int, l: int|
                0 <= k < l < r.len() ==> ranks_before(nodes, m, #[trigger] r[k] as int, #[trigger] r[l] as int)
            &&& forall|f: u32|
                file_under(nodes, root, f as int) && !r.contains(f) ==> r.len() == limit && r.len() > 0
                    && nodes[f as int].spec_metric(m) <= nodes[r.last() as int].spec_metric(m)
        }),
{
    let r = best_ids(best);
    let s = files_under(nodes, root);
    lemma_files_under_finite(nodes, root);
    assert forall|k: int| 0 <= k < r.len() implies file_under(nodes, root, #[trigger] r[k] as int) by {
        assert(file_under(nodes, root, best[k].1 as int));
    }
    assert forall|k: int, l: int| 0 <= k < l < r.len() implies ranks_before(
        nodes,
        m,
        #[trigger] r[k] as int,
        #[trigger] r[l] as int,
    ) by {
        assert(key_before(best[k], best[l]));
    }
    assert(r.no_duplicates()) by {
        assert forall|i: int, j: int| 0 <= i < r.len() && 0 <= j < r.len() && i != j implies r[i] != r[j] by {
            if i < j {
                assert(key_before(best[i], best[j]));
            } else {
                assert(key_before(best[j], best[i]));
            }
        }
    }
    assert forall|f: u32| file_under(nodes, root, f as int) && !r.contains(f) implies r.len() == limit && r.len()
        > 0 && nodes[f as int].spec_metric(m) <= nodes[r.last() as int].spec_metric(m) by {
        assert(covered(nodes, m, best, Seq::empty(), limit, f as int));
        if exists|k: int| 0 <= k < best.len() && (#[trigger] best[k]).1 == f as int {
            let k = choose|k: int| 0 <= k < best.len() && (#[trigger] best[k]).1 == f as int;
            assert(r[k] == f);
        }
        let lst = best.len() - 1;
        assert(best[lst].0 == nodes[best[lst].1 as int].spec_metric(m));
    }
    // the kept ids, as a set of ints
    let rs = r.map_values(|x: u32| x as int);
    assert(rs.no_duplicates());
    rs.unique_seq_to_set();
    assert(rs.to_set().subset_of(s)) by {
        assert forall|x: int| #[trigger] rs.to_set().contains(x) implies s.contains(x) by {
            let k = choose|k: int| 0 <= k < rs.len() && rs[k] == x;
            assert(file_under(nodes, root, r[k] as int));
        }
    }
    vstd::set_lib::lemma_len_subset(rs.to_set(), s);
    if r.len() < limit {
        assert(s.subset_of(rs.to_set())) by {
            assert forall|x: int| #[trigger] s.contains(x) implies rs.to_set().contains(x) by {
                assert(file_under(nodes, root, x));
                assert(0 <= x < nodes.len());
                let f = x as u32;
                assert(covered(nodes, m, best, Seq::empty(), limit, x));
                let k = choose|k: int| 0 <= k < best.len() && (#[trigger] best[k]).1 == x;
                assert(rs[k] == x);
            }
        }
        vstd::set_lib::lemma_len_subset(s, rs.to_set());
    }
}

// --- finding directories again by path ------------------------------------

/// No directory on the path of `x` (from `x` up to the scan root) has an
/// earlier sibling directory of the same name, so that following names
/// from the root picks it. This holds in every tree where no two
/// subdirectories of one directory share a name, as in a file system.
pub open spec fn unshadowed_path(nodes: Seq<Node>, names: Seq<Seq<char>>, x: int) -> bool
    decreases x,
{
    if 0 < x < nodes.len() && nodes[x].parent < x {
        let p = nodes[x].parent as int;
        &&& forall|b: int| nodes[p].first_child <= b < x ==> !is_named_subdir(nodes, names, p, b, names[x])
        &&& unshadowed_path(nodes, names, p)
    } else {
        true
    }
}

/// When some subdirectory of `cur` is named `name`, a first one is.
proof fn lemma_first_named_exists(nodes: Seq<Node>, names: Seq<Seq<char>>, cur: int, name: Seq<char>, c0: int)
    requires
        is_named_subdir(nodes, names, cur, c0, name),
    ensures
        exists|c: int|
            is_named_subdir(nodes, names, cur, c, name) && forall|b: int|
                nodes[cur].first_child <= b < c ==> !is_named_subdir(nodes, names, cur, b, name),
    decreases c0 - nodes[cur].first_child,
{
    if exists|b: int| nodes[cur].first_child <= b < c0 && is_named_subdir(nodes, names, cur, b, name) {
        let b = choose|b: int| nodes[cur].first_child <= b < c0 && is_named_subdir(nodes, names, cur, b, name);
        lemma_first_named_exists(nodes, names, cur, name, b);
    } else {
        assert(is_named_subdir(nodes, names, cur, c0, name) && forall|b: int|
            nodes[cur].first_child <= b < c0 ==> !is_named_subdir(nodes, names, cur, b, name));
    }
}

/// The first subdirectory of `cur` named `name`, when there is one, is
/// named so.
proof fn lemma_first_named(nodes: Seq<Node>, names: Seq<Seq<char>>, cur: int, name: Seq<char>)
    ensures
        first_named_subdir(nodes, names, cur, name) matches Some(c) ==> is_named_subdir(nodes, names, cur, c, name),
{
    if exists|c: int| is_named_subdir(nodes, names, cur, c, name) {
        let c0 = choose|c: int| is_named_subdir(nodes, names, cur, c, name);
        lemma_first_named_exists(nodes, names, cur, name, c0);
    }
}

/// Every child of a node's children block lists that node as its parent,
/// and comes after it.
#[verifier::opaque]
pub open spec fn linked_children(nodes: Seq<Node>) -> bool {
    &&& nodes.len() < NO_NODE
    &&& forall|p: int, c: int|
        0 <= p < nodes.len() && #[trigger] child_of(nodes, p, c) ==> 0 < c < nodes.len() && nodes[c].parent == p
            && p < c
}

proof fn lemma_wf_linked(nodes: Seq<Node>, names: Seq<Seq<char>>)
    requires
        tree_wf(nodes, names),
    ensures
        linked_children(nodes),
{
    reveal(linked_children);
    assert forall|p: int, c: int| 0 <= p < nodes.len() && #[trigger] child_of(nodes, p, c) implies 0 < c < nodes.len()
        && nodes[c].parent == p && p < c by {
        assert(nodes[p].first_child + nodes[p].child_count <= nodes.len());
        assert(nodes[c].parent == p);
        if c == 0 {
            assert(nodes[0].parent == NO_NODE);
        }
    }
}

/// The path of a directory child is its parent's path and its own name.
proof fn lemma_rel_path_child(nodes: Seq<Node>, names: Seq<Seq<char>>, p: int, c: int)
    requires
        linked_children(nodes),
        0 <= p < nodes.len(),
        child_of(nodes, p, c),
    ensures
        0 < c < nodes.len(),
        nodes[c].parent == p,
        p < c,
        rel_path_of(nodes, names, c) == rel_path_of(nodes, names, p).push(names[c]),
{
    reveal(linked_children);
    assert(0 < c < nodes.len() && nodes[c].parent == p && p < c);
    assert(p != NO_NODE);
}

/// How many of `parts` the walk from `cur` follows.
#[verifier::rlimit(100)]
#[verifier::spinoff_prover]
proof fn walk_depth(nodes: Seq<Node>, names: Seq<Seq<char>>, cur: int, parts: Seq<Seq<char>>) -> (k: int)
    requires
        linked_children(nodes),
        0 <= cur < nodes.len(),
        nodes[cur].is_dir,
    ensures
        0 <= k <= parts.len(),
        0 <= walk_dirs(nodes, names, cur, parts) < nodes.len(),
        nodes[walk_dirs(nodes, names, cur, parts)].is_dir,
        rel_path_of(nodes, names, walk_dirs(nodes, names, cur, parts)) == rel_path_of(nodes, names, cur)
            + parts.take(k),
        k == parts.len() || first_named_subdir(nodes, names, walk_dirs(nodes, names, cur, parts), parts[k]) is None,
    decreases parts.len(),
{
    lemma_walk_step(nodes, names, cur, parts);
    if parts.len() == 0 {
        assert(rel_path_of(nodes, names, cur) + parts.take(0) =~= rel_path_of(nodes, names, cur));
        0
    } else {
        match first_named_subdir(nodes, names, cur, parts[0]) {
            None => {
                assert(rel_path_of(nodes, names, cur) + parts.take(0) =~= rel_path_of(nodes, names, cur));
                0
            },
            Some(c) => {
                lemma_first_named(nodes, names, cur, parts[0]);
                lemma_rel_path_child(nodes, names, cur, c);
                let rest = parts.drop_first();
                let k2 = walk_depth(nodes, names, c, rest);
                assert(rel_path_of(nodes, names, c) + rest.take(k2) =~= rel_path_of(nodes, names, cur) + parts.take(
                    k2 + 1,
                ));
                if k2 < rest.len() {
                    assert(rest[k2] == parts[k2 + 1]);
                }
                k2 + 1
            },
        }
    }
}

/// Following names down from a directory `cur` stops at the deepest
/// directory reached: its path is the path of `cur` followed by the first
/// `k` names, and either all names were followed or the next one names no
/// subdirectory there.
pub proof fn law_walk_stops_at_deepest(nodes: Seq<Node>, names: Seq<Seq<char>>, cur: int, parts: Seq<Seq<char>>)
    requires
        tree_wf(nodes, names),
        0 <= cur < nodes.len(),
        nodes[cur].is_dir,
    ensures
        ({
            let r = walk_dirs(nodes, names, cur, parts);
            &&& 0 <= r < nodes.len()
            &&& nodes[r].is_dir
            &&& exists|k: int|
                0 <= k <= parts.len() && rel_path_of(nodes, names, r) == rel_path_of(nodes, names, cur) + parts.take(
                    k,
                ) && (k == parts.len() || first_named_subdir(nodes, names, r, parts[k]) is None)
        }),
{
    lemma_wf_linked(nodes, names);
    let k = walk_depth(nodes, names, cur, parts);
}

/// Following the path of a directory `x`, then more names, from the root
/// is following those names from `x`.
proof fn lemma_walk_through(nodes: Seq<Node>, names: Seq<Seq<char>>, x: int, q: Seq<Seq<char>>)
    requires
        tree_wf(nodes, names),
        unshadowed_path(nodes, names, x),
        0 <= x < nodes.len(),
        nodes[x].is_dir,
    ensures
        walk_dirs(nodes, names, 0, rel_path_of(nodes, names, x) + q) == walk_dirs(nodes, names, x, q),
    decreases x,
{
    if x == 0 {
        assert(rel_path_of(nodes, names, 0) + q =~= q);
    } else {
        let p = nodes[x].parent as int;
        assert(p < x);
        assert(child_of(nodes, p, x));
        lemma_wf_linked(nodes, names);
        lemma_rel_path_child(nodes, names, p, x);
        if !nodes[p].is_dir {
            assert(nodes[p].child_count == 0);
        }
        let n = names[x];
        lemma_walk_through(nodes, names, p, seq![n] + q);
        assert(rel_path_of(nodes, names, x) + q =~= rel_path_of(nodes, names, p) + (seq![n] + q));
        lemma_walk_step(nodes, names, p, seq![n] + q);
        assert(is_named_subdir(nodes, names, p, x, n));
        lemma_first_named_exists(nodes, names, p, n, x);
        let c = first_named_subdir(nodes, names, p, n)->0;
        assert(is_named_subdir(nodes, names, p, c, n) && forall|b: int|
            nodes[p].first_child <= b < c ==> !is_named_subdir(nodes, names, p, b, n));
        if c < x {
            assert(nodes[p].first_child <= c);
            assert(!is_named_subdir(nodes, names, p, c, n));
        }
        if c > x {
            assert(!is_named_subdir(nodes, names, p, x, n));
        }
        assert(c == x);
        assert((seq![n] + q).drop_first() =~= q);
    }
}

/// A directory is found again by its path: following the names from the
/// scan root down to a directory leads back to it, unless a directory on
/// the way has an earlier sibling directory of the same name.
pub proof fn law_find_dir_by_path(nodes: Seq<Node>, names: Seq<Seq<char>>, x: int)
    requires
        tree_wf(nodes, names),
        unshadowed_path(nodes, names, x),
        0 <= x < nodes.len(),
        nodes[x].is_dir,
    ensures
        walk_dirs(nodes, names, 0, rel_path_of(nodes, names, x)) == x,
{
    lemma_walk_through(nodes, names, x, Seq::empty());
    assert(rel_path_of(nodes, names, x) + Seq::<Seq<char>>::empty() =~= rel_path_of(nodes, names, x));
    lemma_walk_step(nodes, names, x, Seq::empty());
}

} // verus!
