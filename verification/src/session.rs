//! Decisions of the application around a scan: what to scan again, how the
//! navigation history survives a rescan, and the summary texts shown.
use vstd::prelude::*;

use crate::format::{human_size, spec_human_size, spec_thousands, thousands};
use crate::history::{collapse, History, HistoryView};
use crate::model::{
    first_named_subdir, law_find_dir_by_path, law_walk_stops_at_deepest, rel_path_of,
    str_views, unshadowed_path, walk_dirs, Model, Node, NO_NODE,
};
use crate::scan::win::{eq_ignore_ascii_case, eq_ignore_case, Drive};
use crate::text::push_str;

verus! {

/// Every id of the history is a node of a model with `n` nodes.
pub open spec fn ids_within(h: HistoryView, n: nat) -> bool {
    &&& h.root < n
    &&& forall|i: int| 0 <= i < h.back.len() ==> #[trigger] h.back[i] < n
    &&& forall|i: int| 0 <= i < h.fwd.len() ==> #[trigger] h.fwd[i] < n
}

/// Where node `id` of the old model lies in the new one: the same folder,
/// or its closest ancestor that still exists.
pub open spec fn relocated(prev: &Model, next: &Model, id: u32) -> u32 {
    walk_dirs(next.spec_nodes(), next.spec_names(), 0, rel_path_of(prev.spec_nodes(), prev.spec_names(), id as int))
        as u32
}

/// The history with every id translated by `g`, entries that collapse onto
/// their neighbour or onto the new root dropped.
pub open spec fn remapped(h: HistoryView, g: spec_fn(u32) -> u32) -> HistoryView {
    HistoryView {
        root: g(h.root),
        back: collapse(h.back.map_values(g), g(h.root)),
        fwd: collapse(h.fwd.map_values(g), g(h.root)),
    }
}

/// The same scan root, ignoring the case of ASCII letters.
pub open spec fn same_root(prev: &Model, next: &Model) -> bool {
    eq_ignore_case(prev.spec_root_path(), next.spec_root_path())
}

/// After a scan: a rescan of the same path keeps the current folder (or its
/// closest surviving ancestor) and the history; anything else starts at the
/// root.
pub fn carry_history(nav: &mut History, prev: &Model, next: &Model)
    requires
        prev.wf(),
        next.wf(),
        next.spec_len() > 0,
        ids_within(old(nav)@, prev.spec_len()),
    ensures
        same_root(prev, next) ==> final(nav)@ == remapped(old(nav)@, |id: u32| relocated(prev, next, id)),
        !same_root(prev, next) ==> final(nav)@ == HistoryView::initial(),
{
    if eq_ignore_ascii_case(prev.root_path(), next.root_path()) {
        let ghost h = nav@;
        let ghost g = |id: u32| relocated(prev, next, id);
        let f = |id: u32| -> (r: u32)
            requires
                prev.wf(),
                next.wf(),
                next.spec_len() > 0,
                id < prev.spec_len(),
            ensures
                r == relocated(prev, next, id),
            {
                let parts = prev.rel_path(id);
                let r = next.find_dir(parts.as_slice());
                proof {
                    let rp = rel_path_of(prev.spec_nodes(), prev.spec_names(), id as int);
                    assert(str_views(parts@) == rp);
                }
                r
            };
        nav.remap(f);
        proof {
            let h2 = nav@;
            assert(h2.root == g(h.root));
            let (mb, mf) = choose|mb: Seq<u32>, mf: Seq<u32>|
                {
                    &&& mb.len() == h.back.len()
                    &&& mf.len() == h.fwd.len()
                    &&& forall|i: int| 0 <= i < mb.len() ==> f.ensures((h.back[i],), #[trigger] mb[i])
                    &&& forall|i: int| 0 <= i < mf.len() ==> f.ensures((h.fwd[i],), #[trigger] mf[i])
                    &&& h2.back == collapse(mb, h2.root)
                    &&& h2.fwd == collapse(mf, h2.root)
                };
            assert(mb =~= h.back.map_values(g)) by {
                assert forall|i: int| 0 <= i < mb.len() implies mb[i] == h.back.map_values(g)[i] by {
                    assert(f.ensures((h.back[i],), mb[i]));
                }
            }
            assert(mf =~= h.fwd.map_values(g)) by {
                assert forall|i: int| 0 <= i < mf.len() implies mf[i] == h.fwd.map_values(g)[i] by {
                    assert(f.ensures((h.fwd[i],), mf[i]));
                }
            }
        }
    } else {
        nav.reset();
    }
}

/// A rescan keeps the current folder: a directory of the old scan lands on
/// the directory with the same path in the new scan, when there is one
/// (and no directory on that path has an earlier sibling directory of the
/// same name).
pub proof fn law_rescan_keeps_folder(prev: &Model, next: &Model, id: u32, x: u32)
    requires
        next.wf(),
        unshadowed_path(next.spec_nodes(), next.spec_names(), x as int),
        x < next.spec_len(),
        next.spec_nodes()[x as int].is_dir,
        rel_path_of(next.spec_nodes(), next.spec_names(), x as int) == rel_path_of(
            prev.spec_nodes(),
            prev.spec_names(),
            id as int,
        ),
    ensures
        relocated(prev, next, id) == x,
{
    law_find_dir_by_path(next.spec_nodes(), next.spec_names(), x as int);
}

/// If the folder no longer exists, the view moves to its closest remaining
/// parent: the directory of the new scan whose path is the longest leading
/// part of the old path that still exists.
pub proof fn law_rescan_moves_to_closest_parent(prev: &Model, next: &Model, id: u32)
    requires
        next.wf(),
        next.spec_len() > 0,
    ensures
        ({
            let old_path = rel_path_of(prev.spec_nodes(), prev.spec_names(), id as int);
            let r = relocated(prev, next, id);
            &&& r < next.spec_len()
            &&& next.spec_nodes()[r as int].is_dir
            &&& exists|k: int|
                0 <= k <= old_path.len() && rel_path_of(next.spec_nodes(), next.spec_names(), r as int)
                    == old_path.take(k) && (k == old_path.len() || first_named_subdir(
                    next.spec_nodes(),
                    next.spec_names(),
                    r as int,
                    old_path[k],
                ) is None)
        }),
{
    let nodes = next.spec_nodes();
    let names = next.spec_names();
    let old_path = rel_path_of(prev.spec_nodes(), prev.spec_names(), id as int);
    law_walk_stops_at_deepest(nodes, names, 0, old_path);
    assert(rel_path_of(nodes, names, 0) =~= Seq::<Seq<char>>::empty());
    let w = walk_dirs(nodes, names, 0, old_path);
    assert(w as u32 as int == w);
    let k = choose|k: int|
        0 <= k <= old_path.len() && rel_path_of(nodes, names, w) == rel_path_of(nodes, names, 0) + old_path.take(k)
            && (k == old_path.len() || first_named_subdir(nodes, names, w, old_path[k]) is None);
    assert(rel_path_of(nodes, names, 0) + old_path.take(k) =~= old_path.take(k));
}

/// Where "up" leads from `root`: its parent, if it has one.
pub fn up_target(model: &Model, root: u32) -> (r: Option<u32>)
    requires
        root < model.spec_len(),
    ensures
        r == if model.spec_nodes()[root as int].parent == NO_NODE {
            None::<u32>
        } else {
            Some(model.spec_nodes()[root as int].parent)
        },
{
    let parent = model.node(root).parent;
    if parent != NO_NODE {
        Some(parent)
    } else {
        None
    }
}

/// The root of the drive picked in the list, if one is.
pub open spec fn picked_root(drives: Seq<Drive>, drive_idx: usize) -> Option<Seq<char>> {
    if drive_idx < drives.len() {
        Some(drives[drive_idx as int].root@)
    } else {
        None
    }
}

/// What a rescan scans: the loaded scan's root, else the drive picked.
pub open spec fn spec_rescan_target(loaded_root: Option<Seq<char>>, drives: Seq<Drive>, drive_idx: usize) -> Option<
    Seq<char>,
> {
    match loaded_root {
        Some(r) => Some(r),
        None => picked_root(drives, drive_idx),
    }
}

fn copy_str(s: &str) -> (r: String)
    ensures
        r@ == s@,
{
    let mut r = String::new();
    push_str(&mut r, s);
    r
}

/// What a rescan scans: the loaded scan's root, else the drive picked.
pub fn rescan_target(loaded_root: Option<&str>, drives: &[Drive], drive_idx: usize) -> (r: Option<String>)
    ensures
        match r {
            Some(s) => spec_rescan_target(
                match loaded_root {
                    Some(l) => Some(l@),
                    None => None,
                },
                drives@,
                drive_idx,
            ) == Some(s@),
            None => spec_rescan_target(
                match loaded_root {
                    Some(l) => Some(l@),
                    None => None,
                },
                drives@,
                drive_idx,
            ) is None,
        },
{
    match loaded_root {
        Some(r) => Some(copy_str(r)),
        None => {
            if drive_idx < drives.len() {
                Some(copy_str(drives[drive_idx].root.as_str()))
            } else {
                None
            }
        },
    }
}

/// Path being scanned or last scanned: a running scan wins over the loaded
/// result, which wins over the drive picker.
pub fn scan_target(scanning: Option<&str>, loaded_root: Option<&str>, drives: &[Drive], drive_idx: usize) -> (r: Option<
    String,
>)
    ensures
        match scanning {
            Some(p) => r matches Some(s) && s@ == p@,
            None => match r {
                Some(s) => spec_rescan_target(
                    match loaded_root {
                        Some(l) => Some(l@),
                        None => None,
                    },
                    drives@,
                    drive_idx,
                ) == Some(s@),
                None => spec_rescan_target(
                    match loaded_root {
                        Some(l) => Some(l@),
                        None => None,
                    },
                    drives@,
                    drive_idx,
                ) is None,
            },
        },
{
    match scanning {
        Some(p) => Some(copy_str(p)),
        None => rescan_target(loaded_root, drives, drive_idx),
    }
}

/// Status bar text for a directory: its directory and file counts, logical
/// and allocated size, and the slack between them.
pub open spec fn spec_summary(n: Node) -> Seq<char> {
    "Dirs: "@ + spec_thousands(n.dirs as nat) + "   Files: "@ + spec_thousands(n.files as nat) + "   Size: "@
        + spec_human_size(n.size as nat) + "   Alloc: "@ + spec_human_size(n.alloc as nat) + "   Waste: "@
        + spec_human_size(if n.alloc > n.size {
        (n.alloc - n.size) as nat
    } else {
        0
    })
}

/// The summary ends with the slack: the readable size of the allocated
/// bytes beyond the logical size, or of nothing when there are none.
pub proof fn law_summary_ends_with_waste(n: Node)
    ensures
        ({
            let waste = "   Waste: "@ + spec_human_size(if n.alloc > n.size {
                (n.alloc - n.size) as nat
            } else {
                0
            });
            let s = spec_summary(n);
            &&& s.len() >= waste.len()
            &&& s.subrange(s.len() - waste.len(), s.len() as int) == waste
        }),
{
    let waste = "   Waste: "@ + spec_human_size(if n.alloc > n.size {
        (n.alloc - n.size) as nat
    } else {
        0
    });
    let s = spec_summary(n);
    let pre = "Dirs: "@ + spec_thousands(n.dirs as nat) + "   Files: "@ + spec_thousands(n.files as nat)
        + "   Size: "@ + spec_human_size(n.size as nat) + "   Alloc: "@ + spec_human_size(n.alloc as nat);
    assert(s =~= pre + waste);
    assert(s.subrange(s.len() - waste.len(), s.len() as int) =~= waste);
}

/// Status bar text for a directory: its directory and file counts, logical
/// and allocated size, and the slack between them.
pub fn summary(n: &Node) -> (s: String)
    ensures
        s@ == spec_summary(*n),
{
    let mut s = String::new();
    push_str(&mut s, "Dirs: ");
    push_str(&mut s, thousands(n.dirs as u64).as_str());
    push_str(&mut s, "   Files: ");
    push_str(&mut s, thousands(n.files as u64).as_str());
    push_str(&mut s, "   Size: ");
    push_str(&mut s, human_size(n.size).as_str());
    push_str(&mut s, "   Alloc: ");
    push_str(&mut s, human_size(n.alloc).as_str());
    push_str(&mut s, "   Waste: ");
    push_str(&mut s, human_size(n.alloc.saturating_sub(n.size)).as_str());
    s
}

/// A drive as the picker lists it: its name, then free and total space.
pub open spec fn spec_drive_entry(display: Seq<char>, free: u64, total: u64) -> Seq<char> {
    display + "  "@ + spec_human_size(free as nat) + " free of "@ + spec_human_size(total as nat)
}

/// A drive as the picker lists it: its name, then free and total space.
pub fn drive_entry(d: &Drive) -> (s: String)
    ensures
        s@ == spec_drive_entry(
            crate::scan::win::spec_display(d.root@, d.label@, d.kind),
            d.free,
            d.total,
        ),
{
    let mut s = d.display();
    push_str(&mut s, "  ");
    push_str(&mut s, human_size(d.free).as_str());
    push_str(&mut s, " free of ");
    push_str(&mut s, human_size(d.total).as_str());
    s
}

} // verus!
