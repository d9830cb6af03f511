//! "Largest files" list: the biggest files under the chart's current root.
use vstd::prelude::*;

use crate::model::{file_under, files_under, min_nat, ranks_before, Metric, Model, Node, NO_NODE};
use crate::text::{push_char, push_str};

verus! {

/// Number of files listed.
pub const LIMIT: usize = 100;

/// Names of the folders from just below `root` down to `cur` (outermost
/// first), following parent links up from `cur` until `root` or the top.
pub open spec fn folders_between(nodes: Seq<Node>, names: Seq<Seq<char>>, root: u32, cur: int) -> Seq<Seq<char>>
    decreases cur,
{
    if cur == root || cur < 0 || cur >= nodes.len() {
        Seq::empty()
    } else if nodes[cur].parent < cur {
        folders_between(nodes, names, root, nodes[cur].parent as int).push(names[cur])
    } else {
        seq![names[cur]]
    }
}

/// `parts` joined by backslashes.
pub open spec fn join_backslash(parts: Seq<Seq<char>>) -> Seq<char>
    decreases parts.len(),
{
    if parts.len() == 0 {
        Seq::empty()
    } else if parts.len() == 1 {
        parts[0]
    } else {
        join_backslash(parts.drop_last()) + seq!['\\'] + parts.last()
    }
}

/// Folder of `item` relative to `root` (`""` directly under the root).
pub open spec fn spec_folder_under(nodes: Seq<Node>, names: Seq<Seq<char>>, root: u32, item: u32) -> Seq<char> {
    join_backslash(folders_between(nodes, names, root, nodes[item as int].parent as int))
}

/// Folder of `item` relative to `root` (`""` directly under the root).
pub fn folder_under(model: &Model, root: u32, item: u32) -> (s: String)
    requires
        model.wf(),
        item < model.spec_len(),
    ensures
        s@ == spec_folder_under(model.spec_nodes(), model.spec_names(), root, item),
{
    let ghost nodes = model.spec_nodes();
    let ghost names = model.spec_names();
    // Names from `item`'s folder upwards.
    let mut up: Vec<&str> = Vec::new();
    let mut cur = model.node(item).parent;
    let ghost start = cur as int;
    proof {
        if item > 0 {
            assert(nodes[item as int].parent < item);
        } else {
            assert(nodes[0].parent == NO_NODE);
        }
    }
    while cur != root && cur != NO_NODE
        invariant
            model.wf(),
            nodes == model.spec_nodes(),
            names == model.spec_names(),
            cur < nodes.len() || cur == NO_NODE,
            folders_between(nodes, names, root, start) == folders_between(nodes, names, root, cur as int)
                + up@.map_values(|s: &str| s@).reverse(),
        decreases if cur == NO_NODE {
            0
        } else {
            cur + 1
        },
    {
        let ghost before = up@.map_values(|s: &str| s@);
        let parent = model.node(cur).parent;
        proof {
            if cur > 0 {
                assert(nodes[cur as int].parent < cur);
            } else {
                assert(nodes[0].parent == NO_NODE);
            }
        }
        up.push(model.name(cur));
        proof {
            let v = up@.map_values(|s: &str| s@);
            assert(v =~= before.push(names[cur as int]));
            assert(v.reverse() =~= seq![names[cur as int]] + before.reverse());
            assert(folders_between(nodes, names, root, cur as int) == folders_between(
                nodes,
                names,
                root,
                parent as int,
            ).push(names[cur as int]));
            assert(folders_between(nodes, names, root, parent as int).push(names[cur as int]) + before.reverse()
                =~= folders_between(nodes, names, root, parent as int) + v.reverse());
        }
        cur = parent;
    }
    let ghost parts = up@.map_values(|s: &str| s@).reverse();
    proof {
        assert(folders_between(nodes, names, root, cur as int) =~= Seq::<Seq<char>>::empty());
        assert(Seq::<Seq<char>>::empty() + parts =~= parts);
    }
    let mut out = String::new();
    let n = up.len();
    let mut k: usize = 0;
    while k < n
        invariant
            n == up@.len(),
            k <= n,
            parts == up@.map_values(|s: &str| s@).reverse(),
            out@ == join_backslash(parts.take(k as int)),
        decreases n - k,
    {
        let part = up[n - 1 - k];
        proof {
            assert(parts[k as int] == part@);
            assert(parts.take(k + 1).drop_last() =~= parts.take(k as int));
            assert(parts.take(k + 1).last() == part@);
        }
        if k > 0 {
            push_char(&mut out, '\\');
        }
        push_str(&mut out, part);
        proof {
            if k == 0 {
                assert(parts.take(1) =~= seq![part@]);
                assert(out@ =~= part@);
            }
        }
        k += 1;
    }
    proof {
        assert(parts.take(n as int) =~= parts);
    }
    out
}

/// The list rows of the files of `ids`: each file and its folder relative
/// to `root`.
pub open spec fn rows_for(nodes: Seq<Node>, names: Seq<Seq<char>>, root: u32, ids: Seq<u32>) -> Seq<(u32, Seq<char>)> {
    ids.map_values(|id: u32| (id, spec_folder_under(nodes, names, root, id)))
}

/// The abstract state of a [`FilesView`].
pub struct FilesState {
    pub key: Option<(u32, Metric)>,
    pub rows: Seq<(u32, Seq<char>)>,
    pub selected: Option<u32>,
    pub scroll_to_selected: bool,
}

pub struct FilesView {
    /// `(root, metric)` the rows were built for.
    key: Option<(u32, Metric)>,
    /// Largest first: file id and its folder relative to the root.
    rows: Vec<(u32, String)>,
    /// File last clicked; stays highlighted after the chart moves into its
    /// folder (it is still in the list there).
    selected: Option<u32>,
    scroll_to_selected: bool,
}

impl View for FilesView {
    type V = FilesState;

    closed spec fn view(&self) -> FilesState {
        FilesState {
            key: self.key,
            rows: self.rows@.map_values(|r: (u32, String)| (r.0, r.1@)),
            selected: self.selected,
            scroll_to_selected: self.scroll_to_selected,
        }
    }
}

/// A list with nothing built or selected.
pub open spec fn empty_files() -> FilesState {
    FilesState { key: None, rows: Seq::empty(), selected: None, scroll_to_selected: false }
}

impl Default for FilesView {
    fn default() -> (f: Self)
        ensures
            f@ == empty_files(),
    {
        let f = FilesView { key: None, rows: Vec::new(), selected: None, scroll_to_selected: false };
        assert(f@.rows =~= Seq::<(u32, Seq<char>)>::empty());
        f
    }
}

/// `ids` are the largest files under `root` (at most `limit`), largest
/// first, ties in id order: as `Model::largest_files` returns them.
pub open spec fn largest_files_of(nodes: Seq<Node>, root: u32, m: Metric, limit: nat, ids: Seq<u32>) -> bool {
    &&& ids.len() == min_nat(limit, files_under(nodes, root as int).len())
    &&& forall|k: int| 0 <= k < ids.len() ==> file_under(nodes, root as int, #[trigger] ids[k] as int)
    &&& ids.no_duplicates()
    &&& forall|k: int, l: int|
        0 <= k < l < ids.len() ==> ranks_before(nodes, m, #[trigger] ids[k] as int, #[trigger] ids[l] as int)
    &&& forall|f: u32|
        limit > 0 && file_under(nodes, root as int, f as int) && !ids.contains(f) ==> ids.len() == limit
            && ids.len() > 0 && nodes[f as int].spec_metric(m) <= nodes[ids.last() as int].spec_metric(m)
}

impl FilesView {
    /// Forget everything (new model).
    pub fn reset(&mut self)
        ensures
            final(self)@ == empty_files(),
    {
        *self = Self::default();
    }

    /// The rows: file id and its folder, largest first.
    pub fn rows(&self) -> (r: &Vec<(u32, String)>)
        ensures
            r@.map_values(|r: (u32, String)| (r.0, r.1@)) == self@.rows,
    {
        &self.rows
    }

    /// The file last clicked.
    pub fn selected(&self) -> (r: Option<u32>)
        ensures
            r == self@.selected,
    {
        self.selected
    }

    /// Rebuild the rows for `(root, metric)` when they were built for
    /// something else; then scroll to the selected file, if any.
    pub fn refresh(&mut self, model: &Model, root: u32, metric: Metric)
        requires
            model.wf(),
            root < model.spec_len(),
        ensures
            old(self)@.key == Some((root, metric)) ==> final(self)@ == old(self)@,
            old(self)@.key != Some((root, metric)) ==> {
                &&& final(self)@.key == Some((root, metric))
                &&& final(self)@.selected == old(self)@.selected
                &&& final(self)@.scroll_to_selected == (old(self)@.selected is Some)
                &&& exists|ids: Seq<u32>|
                    largest_files_of(model.spec_nodes(), root, metric, LIMIT as nat, ids)
                        && final(self)@.rows == rows_for(model.spec_nodes(), model.spec_names(), root, ids)
            },
    {
        let same = match self.key {
            Some((r, m)) => r == root && m == metric,
            None => false,
        };
        if same {
            return;
        }
        self.key = Some((root, metric));
        let ids = model.largest_files(root, metric, LIMIT);
        let mut rows: Vec<(u32, String)> = Vec::new();
        let mut i: usize = 0;
        while i < ids.len()
            invariant
                model.wf(),
                i <= ids@.len(),
                rows@.len() == i,
                forall|k: int| 0 <= k < ids@.len() ==> file_under(model.spec_nodes(), root as int, #[trigger] ids@[k] as int),
                rows@.map_values(|r: (u32, String)| (r.0, r.1@)) == rows_for(
                    model.spec_nodes(),
                    model.spec_names(),
                    root,
                    ids@.take(i as int),
                ),
            decreases ids@.len() - i,
        {
            let id = ids[i];
            proof {
                assert(file_under(model.spec_nodes(), root as int, ids@[i as int] as int));
            }
            let folder = folder_under(model, root, id);
            let ghost before = rows@;
            rows.push((id, folder));
            proof {
                let f = |r: (u32, String)| (r.0, r.1@);
                assert(ids@.take(i + 1) =~= ids@.take(i as int).push(id));
                let want = rows_for(model.spec_nodes(), model.spec_names(), root, ids@.take(i + 1));
                let got = rows@.map_values(f);
                assert(got.len() == want.len());
                assert forall|k: int| 0 <= k < got.len() implies got[k] == want[k] by {
                    if k < i {
                        assert(rows@[k] == before[k]);
                        assert(got[k] == before.map_values(f)[k]);
                    } else {
                        assert(rows@[k] == (id, folder));
                    }
                }
                assert(got =~= want);
            }
            i += 1;
        }
        proof {
            assert(ids@.take(i as int) =~= ids@);
        }
        self.rows = rows;
        self.scroll_to_selected = self.selected.is_some();
    }

    /// Take the request to scroll to the selected file.
    pub fn take_scroll_to_selected(&mut self) -> (r: bool)
        ensures
            r == old(self)@.scroll_to_selected,
            final(self)@ == (FilesState { scroll_to_selected: false, ..old(self)@ }),
    {
        let r = self.scroll_to_selected;
        self.scroll_to_selected = false;
        r
    }

    /// A click selects the file and asks to navigate to its folder.
    pub fn click(&mut self, model: &Model, id: u32) -> (target: u32)
        requires
            id < model.spec_len(),
        ensures
            target == model.spec_nodes()[id as int].parent,
            final(self)@ == (FilesState { selected: Some(id), ..old(self)@ }),
    {
        self.selected = Some(id);
        model.node(id).parent
    }
}

} // verus!
