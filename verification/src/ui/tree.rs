//! State of the left-hand directory tree: which directories are expanded and
//! the visible rows, in the order they are shown.
use std::collections::HashSet;

use vstd::prelude::*;

use crate::model::{child_of, Metric, Model, Node, NO_NODE, tree_wf};

verus! {

broadcast use vstd::std_specs::hash::group_hash_axioms;

/// What the user did in a side panel during one frame.
pub struct TreeAction {
    pub selected: Option<u32>,
    pub hovered: Option<u32>,
}

impl Default for TreeAction {
    fn default() -> (a: Self)
        ensures
            a.selected is None,
            a.hovered is None,
    {
        TreeAction { selected: None, hovered: None }
    }
}

/// `id` and its ancestors, from `id` up to the root (empty for an id
/// outside the tree, such as `NO_NODE`).
pub open spec fn chain(nodes: Seq<Node>, id: int) -> Seq<u32>
    decreases id,
{
    if id < 0 || id >= nodes.len() {
        Seq::empty()
    } else if nodes[id].parent < id {
        seq![id as u32] + chain(nodes, nodes[id].parent as int)
    } else {
        seq![id as u32]
    }
}

/// The directory children of `id` among its first `k` children, in stored
/// order.
pub open spec fn dir_children_upto(nodes: Seq<Node>, id: int, k: nat) -> Seq<u32>
    decreases k,
{
    if k == 0 {
        Seq::empty()
    } else {
        let c = nodes[id].first_child + k - 1;
        let prev = dir_children_upto(nodes, id, (k - 1) as nat);
        if nodes[c].is_dir {
            prev.push(c as u32)
        } else {
            prev
        }
    }
}

/// The directory children of `id`, in stored (logical size) order.
pub open spec fn dir_children(nodes: Seq<Node>, id: int) -> Seq<u32> {
    dir_children_upto(nodes, id, nodes[id].child_count as nat)
}

/// `t` (sorted largest first by metric `m`) with `x` inserted after every
/// entry at least as large.
pub open spec fn insert_desc(nodes: Seq<Node>, m: Metric, t: Seq<u32>, x: u32) -> Seq<u32>
    decreases t.len(),
{
    if t.len() == 0 {
        seq![x]
    } else if nodes[t.last() as int].spec_metric(m) >= nodes[x as int].spec_metric(m) {
        t.push(x)
    } else {
        insert_desc(nodes, m, t.drop_last(), x).push(t.last())
    }
}

/// `s` sorted largest first by metric `m`, equal ones kept in order.
pub open spec fn sort_desc(nodes: Seq<Node>, m: Metric, s: Seq<u32>) -> Seq<u32>
    decreases s.len(),
{
    if s.len() == 0 {
        s
    } else {
        insert_desc(nodes, m, sort_desc(nodes, m, s.drop_last()), s.last())
    }
}

/// The subdirectories of `id` as the tree lists them: largest first by the
/// metric shown. The stored order is by logical size already.
pub open spec fn shown_dirs(nodes: Seq<Node>, id: int, m: Metric) -> Seq<u32> {
    if m == Metric::Logical {
        dir_children(nodes, id)
    } else {
        sort_desc(nodes, m, dir_children(nodes, id))
    }
}

/// The depth of the next level (16 bits, wrapping).
pub open spec fn next_depth(d: u16) -> u16 {
    ((d + 1) % 0x1_0000) as u16
}

pub proof fn lemma_insert_desc_len(nodes: Seq<Node>, m: Metric, t: Seq<u32>, x: u32)
    ensures
        insert_desc(nodes, m, t, x).len() == t.len() + 1,
    decreases t.len(),
{
    if t.len() > 0 && !(nodes[t.last() as int].spec_metric(m) >= nodes[x as int].spec_metric(m)) {
        lemma_insert_desc_len(nodes, m, t.drop_last(), x);
    }
}

pub proof fn lemma_sort_desc_len(nodes: Seq<Node>, m: Metric, s: Seq<u32>)
    ensures
        sort_desc(nodes, m, s).len() == s.len(),
    decreases s.len(),
{
    if s.len() > 0 {
        lemma_sort_desc_len(nodes, m, s.drop_last());
        lemma_insert_desc_len(nodes, m, sort_desc(nodes, m, s.drop_last()), s.last());
    }
}

pub proof fn lemma_dir_children_len(nodes: Seq<Node>, id: int, k: nat)
    ensures
        dir_children_upto(nodes, id, k).len() <= k,
    decreases k,
{
    if k > 0 {
        lemma_dir_children_len(nodes, id, (k - 1) as nat);
    }
}

pub proof fn lemma_shown_dirs_len(nodes: Seq<Node>, id: int, m: Metric)
    ensures
        shown_dirs(nodes, id, m).len() <= u32::MAX,
{
    lemma_dir_children_len(nodes, id, nodes[id].child_count as nat);
    lemma_sort_desc_len(nodes, m, dir_children(nodes, id));
}

/// The rows of the subtree of `id` shown at `depth`: the directory itself,
/// then, when it is open, the rows of its subdirectories in shown order.
pub open spec fn subtree_rows(nodes: Seq<Node>, open: Set<u32>, m: Metric, id: int, depth: u16) -> Seq<(u32, u16)>
    decreases nodes.len() - id, 0x1_0000_0000int,
{
    if id < 0 || id >= nodes.len() {
        Seq::empty()
    } else {
        seq![(id as u32, depth)] + if open.contains(id as u32) {
            proof {
                lemma_shown_dirs_len(nodes, id, m);
            }
            list_rows(nodes, open, m, id, shown_dirs(nodes, id, m), next_depth(depth))
        } else {
            Seq::empty()
        }
    }
}

/// The rows of the subtrees of the children `cs` of `parent`, one after
/// another.
pub open spec fn list_rows(nodes: Seq<Node>, open: Set<u32>, m: Metric, parent: int, cs: Seq<u32>, depth: u16) -> Seq<
    (u32, u16),
>
    decreases nodes.len() - parent, cs.len(),
{
    if cs.len() == 0 {
        Seq::empty()
    } else if parent < cs[0] < nodes.len() {
        subtree_rows(nodes, open, m, cs[0] as int, depth) + list_rows(nodes, open, m, parent, cs.drop_first(), depth)
    } else {
        list_rows(nodes, open, m, parent, cs.drop_first(), depth)
    }
}

/// The entries of `s` not in `e`, in order.
pub open spec fn not_in(s: Seq<u32>, e: Set<u32>) -> Seq<u32>
    decreases s.len(),
{
    if s.len() == 0 {
        s
    } else {
        (if e.contains(s[0]) {
            Seq::empty()
        } else {
            seq![s[0]]
        }) + not_in(s.drop_first(), e)
    }
}

/// Position of the first `x` in `s`.
pub open spec fn first_pos(s: Seq<u32>, x: u32) -> int
    decreases s.len(),
{
    if s.len() == 0 || s[0] == x {
        0
    } else {
        1 + first_pos(s.drop_first(), x)
    }
}

/// The directory the tree shows for an item hovered in the chart: the item
/// itself if it is a directory, else its folder.
pub open spec fn hovered_dir_of(nodes: Seq<Node>, id: u32) -> u32 {
    if nodes[id as int].is_dir {
        id
    } else {
        nodes[id as int].parent
    }
}

/// The rows still to be listed for the stack `st` of (node, depth) entries,
/// the last entry first.
pub open spec fn pending(nodes: Seq<Node>, open: Set<u32>, m: Metric, st: Seq<(u32, u16)>) -> Seq<(u32, u16)>
    decreases st.len(),
{
    if st.len() == 0 {
        Seq::empty()
    } else {
        subtree_rows(nodes, open, m, st.last().0 as int, st.last().1) + pending(nodes, open, m, st.drop_last())
    }
}

proof fn lemma_dir_children_in(nodes: Seq<Node>, names: Seq<Seq<char>>, id: int, k: nat)
    requires
        tree_wf(nodes, names),
        0 <= id < nodes.len(),
        k <= nodes[id].child_count,
    ensures
        forall|j: int|
            0 <= j < dir_children_upto(nodes, id, k).len() ==> {
                let c = #[trigger] dir_children_upto(nodes, id, k)[j];
                &&& id < c < nodes.len()
                &&& nodes[c as int].is_dir
                &&& nodes[id].first_child <= c < nodes[id].first_child + k
            },
    decreases k,
{
    if k > 0 {
        lemma_dir_children_in(nodes, names, id, (k - 1) as nat);
        let c = nodes[id].first_child + k - 1;
        assert(nodes[id].first_child + nodes[id].child_count <= nodes.len());
        assert(child_of(nodes, id, c));
        assert(nodes[c].parent == id);
        if c == 0 {
            assert(nodes[0].parent == NO_NODE);
        }
        assert(nodes[c].parent < c);
        let prev = dir_children_upto(nodes, id, (k - 1) as nat);
        let cur = dir_children_upto(nodes, id, k);
        assert forall|j: int| 0 <= j < cur.len() implies {
            let x = #[trigger] cur[j];
            &&& id < x < nodes.len()
            &&& nodes[x as int].is_dir
            &&& nodes[id].first_child <= x < nodes[id].first_child + k
        } by {
            if j < prev.len() {
                assert(cur[j] == prev[j]);
            } else {
                assert(cur[j] == c);
            }
        }
    }
}

proof fn lemma_insert_desc_contains(nodes: Seq<Node>, m: Metric, t: Seq<u32>, x: u32, y: u32)
    ensures
        insert_desc(nodes, m, t, x).contains(y) == (t.contains(y) || y == x),
    decreases t.len(),
{
    let r = insert_desc(nodes, m, t, x);
    if t.len() == 0 {
        assert(r == seq![x]);
        if r.contains(y) {
            assert(r[0] == y);
        }
        assert(r[0] == x);
    } else if nodes[t.last() as int].spec_metric(m) >= nodes[x as int].spec_metric(m) {
        assert(r == t.push(x));
        if r.contains(y) && y != x {
            let k = choose|k: int| 0 <= k < r.len() && r[k] == y;
            assert(t[k] == y);
        }
        if t.contains(y) {
            let k = choose|k: int| 0 <= k < t.len() && t[k] == y;
            assert(r[k] == y);
        }
        assert(r[t.len() as int] == x);
    } else {
        let dl = t.drop_last();
        lemma_insert_desc_contains(nodes, m, dl, x, y);
        let r0 = insert_desc(nodes, m, dl, x);
        assert(r == r0.push(t.last()));
        lemma_insert_desc_len(nodes, m, dl, x);
        if r.contains(y) {
            let k = choose|k: int| 0 <= k < r.len() && r[k] == y;
            if k < r0.len() {
                assert(r0[k] == y);
            } else {
                assert(t[t.len() - 1] == y);
            }
        }
        if t.contains(y) {
            let k = choose|k: int| 0 <= k < t.len() && t[k] == y;
            if k < t.len() - 1 {
                assert(dl[k] == y);
                assert(r0.contains(y));
                let k2 = choose|k2: int| 0 <= k2 < r0.len() && r0[k2] == y;
                assert(r[k2] == y);
            } else {
                assert(r[r.len() - 1] == y);
            }
        }
        if y == x {
            assert(r0.contains(x));
            let k2 = choose|k2: int| 0 <= k2 < r0.len() && r0[k2] == x;
            assert(r[k2] == x);
        }
    }
}

proof fn lemma_sort_desc_contains(nodes: Seq<Node>, m: Metric, s: Seq<u32>, y: u32)
    ensures
        sort_desc(nodes, m, s).contains(y) == s.contains(y),
    decreases s.len(),
{
    if s.len() > 0 {
        let dl = s.drop_last();
        lemma_sort_desc_contains(nodes, m, dl, y);
        lemma_insert_desc_contains(nodes, m, sort_desc(nodes, m, dl), s.last(), y);
        if s.contains(y) {
            let k = choose|k: int| 0 <= k < s.len() && s[k] == y;
            if k < s.len() - 1 {
                assert(dl[k] == y);
            }
        }
        if dl.contains(y) {
            let k = choose|k: int| 0 <= k < dl.len() && dl[k] == y;
            assert(s[k] == y);
        }
    }
}

/// Every subdirectory shown under `id` is a directory child of it, listed
/// after it.
proof fn lemma_shown_dirs_in(nodes: Seq<Node>, names: Seq<Seq<char>>, id: int, m: Metric)
    requires
        tree_wf(nodes, names),
        0 <= id < nodes.len(),
    ensures
        forall|j: int|
            0 <= j < shown_dirs(nodes, id, m).len() ==> id < #[trigger] shown_dirs(nodes, id, m)[j] < nodes.len()
                && nodes[shown_dirs(nodes, id, m)[j] as int].is_dir,
{
    let dc = dir_children(nodes, id);
    lemma_dir_children_in(nodes, names, id, nodes[id].child_count as nat);
    assert forall|j: int| 0 <= j < shown_dirs(nodes, id, m).len() implies id < #[trigger] shown_dirs(
        nodes,
        id,
        m,
    )[j] < nodes.len() && nodes[shown_dirs(nodes, id, m)[j] as int].is_dir by {
        let y = shown_dirs(nodes, id, m)[j];
        if m != Metric::Logical {
            assert(sort_desc(nodes, m, dc).contains(y));
            lemma_sort_desc_contains(nodes, m, dc, y);
            let k = choose|k: int| 0 <= k < dc.len() && dc[k] == y;
            assert(id < dc[k] < nodes.len());
        }
    }
}

/// Pushing the (depth-tagged) subdirectories last first onto a stack lists
/// their subtrees first, in order.
proof fn lemma_push_children(
    nodes: Seq<Node>,
    open: Set<u32>,
    m: Metric,
    parent: int,
    ds: Seq<u32>,
    k: int,
    d: u16,
    st: Seq<(u32, u16)>,
    rest: Seq<(u32, u16)>,
)
    requires
        0 < k <= ds.len(),
        forall|j: int| 0 <= j < ds.len() ==> parent < #[trigger] ds[j] < nodes.len(),
        pending(nodes, open, m, st) == list_rows(nodes, open, m, parent, ds.subrange(k, ds.len() as int), d)
            + pending(nodes, open, m, rest),
    ensures
        pending(nodes, open, m, st.push((ds[k - 1], d))) == list_rows(
            nodes,
            open,
            m,
            parent,
            ds.subrange(k - 1, ds.len() as int),
            d,
        ) + pending(nodes, open, m, rest),
{
    let st2 = st.push((ds[k - 1], d));
    assert(st2.drop_last() =~= st);
    let sub = ds.subrange(k - 1, ds.len() as int);
    assert(sub[0] == ds[k - 1]);
    assert(sub.drop_first() =~= ds.subrange(k, ds.len() as int));
    assert(parent < ds[k - 1] < nodes.len());
    let a = subtree_rows(nodes, open, m, ds[k - 1] as int, d);
    let b = list_rows(nodes, open, m, parent, ds.subrange(k, ds.len() as int), d);
    let c = pending(nodes, open, m, rest);
    assert(a + (b + c) =~= (a + b) + c);
}

proof fn lemma_subtree_dirs(nodes: Seq<Node>, names: Seq<Seq<char>>, open: Set<u32>, m: Metric, id: int, depth: u16)
    requires
        tree_wf(nodes, names),
        0 <= id < nodes.len(),
        nodes[id].is_dir,
    ensures
        forall|j: int|
            0 <= j < subtree_rows(nodes, open, m, id, depth).len() ==> nodes[(#[trigger] subtree_rows(
                nodes,
                open,
                m,
                id,
                depth,
            )[j]).0 as int].is_dir,
    decreases nodes.len() - id, 0x1_0000_0000int,
{
    let rows = subtree_rows(nodes, open, m, id, depth);
    if open.contains(id as u32) {
        lemma_shown_dirs_len(nodes, id, m);
        lemma_shown_dirs_in(nodes, names, id, m);
        let ds = shown_dirs(nodes, id, m);
        lemma_list_dirs(nodes, names, open, m, id, ds, next_depth(depth));
        let lr = list_rows(nodes, open, m, id, ds, next_depth(depth));
        assert(rows == seq![(id as u32, depth)] + lr);
        assert forall|j: int| 0 <= j < rows.len() implies nodes[(#[trigger] rows[j]).0 as int].is_dir by {
            if j > 0 {
                assert(rows[j] == lr[j - 1]);
            }
        }
    } else {
        assert(rows =~= seq![(id as u32, depth)]);
    }
}

proof fn lemma_list_dirs(
    nodes: Seq<Node>,
    names: Seq<Seq<char>>,
    open: Set<u32>,
    m: Metric,
    parent: int,
    cs: Seq<u32>,
    depth: u16,
)
    requires
        tree_wf(nodes, names),
        0 <= parent < nodes.len(),
        cs.len() <= u32::MAX,
        forall|j: int| 0 <= j < cs.len() ==> nodes[#[trigger] cs[j] as int].is_dir,
    ensures
        forall|j: int|
            0 <= j < list_rows(nodes, open, m, parent, cs, depth).len() ==> nodes[(#[trigger] list_rows(
                nodes,
                open,
                m,
                parent,
                cs,
                depth,
            )[j]).0 as int].is_dir,
    decreases nodes.len() - parent, cs.len(),
{
    if cs.len() > 0 {
        let rest = cs.drop_first();
        assert forall|j: int| 0 <= j < rest.len() implies nodes[#[trigger] rest[j] as int].is_dir by {
            assert(rest[j] == cs[j + 1]);
        }
        lemma_list_dirs(nodes, names, open, m, parent, rest, depth);
        let tail = list_rows(nodes, open, m, parent, rest, depth);
        if parent < cs[0] < nodes.len() {
            assert(nodes[cs[0] as int].is_dir);
            lemma_subtree_dirs(nodes, names, open, m, cs[0] as int, depth);
            let head = subtree_rows(nodes, open, m, cs[0] as int, depth);
            let all = list_rows(nodes, open, m, parent, cs, depth);
            assert(all == head + tail);
            assert forall|j: int| 0 <= j < all.len() implies nodes[(#[trigger] all[j]).0 as int].is_dir by {
                if j < head.len() {
                    assert(all[j] == head[j]);
                } else {
                    assert(all[j] == tail[j - head.len()]);
                }
            }
        }
    }
}

/// The tree lists directories only: every row of a rebuilt tree is a
/// directory of the model, starting with the scan root at depth 0.
pub proof fn law_tree_lists_directories(nodes: Seq<Node>, names: Seq<Seq<char>>, open: Set<u32>, m: Metric)
    requires
        tree_wf(nodes, names),
        nodes.len() > 0,
    ensures
        subtree_rows(nodes, open, m, 0, 0).len() > 0,
        subtree_rows(nodes, open, m, 0, 0)[0] == (0u32, 0u16),
        forall|j: int|
            0 <= j < subtree_rows(nodes, open, m, 0, 0).len() ==> {
                let r = #[trigger] subtree_rows(nodes, open, m, 0, 0)[j];
                r.0 < nodes.len() && nodes[r.0 as int].is_dir
            },
{
    lemma_subtree_dirs(nodes, names, open, m, 0, 0);
    lemma_subtree_bounds(nodes, open, m, 0, 0);
}

proof fn lemma_subtree_bounds(nodes: Seq<Node>, open: Set<u32>, m: Metric, id: int, depth: u16)
    ensures
        forall|j: int|
            0 <= j < subtree_rows(nodes, open, m, id, depth).len() ==> (#[trigger] subtree_rows(
                nodes,
                open,
                m,
                id,
                depth,
            )[j]).0 < nodes.len(),
    decreases nodes.len() - id, 0x1_0000_0000int,
{
    let rows = subtree_rows(nodes, open, m, id, depth);
    if 0 <= id < nodes.len() && open.contains(id as u32) {
        lemma_shown_dirs_len(nodes, id, m);
        let ds = shown_dirs(nodes, id, m);
        lemma_list_bounds(nodes, open, m, id, ds, next_depth(depth));
        let lr = list_rows(nodes, open, m, id, ds, next_depth(depth));
        assert forall|j: int| 0 <= j < rows.len() implies (#[trigger] rows[j]).0 < nodes.len() by {
            if j > 0 {
                assert(rows[j] == lr[j - 1]);
            }
        }
    } else if 0 <= id < nodes.len() {
        assert(rows =~= seq![(id as u32, depth)]);
    }
}

proof fn lemma_list_bounds(nodes: Seq<Node>, open: Set<u32>, m: Metric, parent: int, cs: Seq<u32>, depth: u16)
    requires
        cs.len() <= u32::MAX,
    ensures
        forall|j: int|
            0 <= j < list_rows(nodes, open, m, parent, cs, depth).len() ==> (#[trigger] list_rows(
                nodes,
                open,
                m,
                parent,
                cs,
                depth,
            )[j]).0 < nodes.len(),
    decreases nodes.len() - parent, cs.len(),
{
    if cs.len() > 0 {
        let rest = cs.drop_first();
        lemma_list_bounds(nodes, open, m, parent, rest, depth);
        if parent < cs[0] < nodes.len() {
            lemma_subtree_bounds(nodes, open, m, cs[0] as int, depth);
            let head = subtree_rows(nodes, open, m, cs[0] as int, depth);
            let tail = list_rows(nodes, open, m, parent, rest, depth);
            let all = list_rows(nodes, open, m, parent, cs, depth);
            assert forall|j: int| 0 <= j < all.len() implies (#[trigger] all[j]).0 < nodes.len() by {
                if j < head.len() {
                    assert(all[j] == head[j]);
                } else {
                    assert(all[j] == tail[j - head.len()]);
                }
            }
        } else {
            assert(list_rows(nodes, open, m, parent, cs, depth) == list_rows(nodes, open, m, parent, rest, depth));
        }
    }
}

/// The rows of a tree after a rebuild: every open directory's subtree from
/// the root, or none for an empty model (which stays to be rebuilt).
pub open spec fn rebuilt(s: TreeState, nodes: Seq<Node>, m: Metric) -> TreeState {
    if nodes.len() == 0 {
        TreeState { rows: Seq::empty(), sorted_by: Some(m), ..s }
    } else {
        TreeState { rows: subtree_rows(nodes, s.open_dirs(), m, 0, 0), sorted_by: Some(m), dirty: false, ..s }
    }
}

/// The abstract state of a [`TreeView`].
pub struct TreeState {
    pub follow_hover: bool,
    pub expanded: Set<u32>,
    pub rows: Seq<(u32, u16)>,
    pub dirty: bool,
    pub sorted_by: Option<Metric>,
    pub scroll_to: Option<u32>,
    pub ensure_visible: Option<u32>,
    pub peek_target: Option<u32>,
    pub peek: Seq<u32>,
}

impl TreeState {
    /// Directories shown expanded: by the user, or for the current peek.
    pub open spec fn open_dirs(self) -> Set<u32> {
        self.expanded + self.peek.to_set()
    }
}

pub struct TreeView {
    /// Expand the tree to the item hovered in the chart.
    pub follow_hover: bool,
    expanded: HashSet<u32>,
    /// (node, depth) for every visible row.
    rows: Vec<(u32, u16)>,
    dirty: bool,
    /// Metric the rows were last sorted by.
    sorted_by: Option<Metric>,
    /// Scroll to the row of this node on the next frame.
    scroll_to: Option<u32>,
    /// Scroll the row of this node into view on the next frame, only if it
    /// is outside the visible part.
    ensure_visible: Option<u32>,
    /// Directory last hovered in the chart; its collapsed ancestors are in
    /// `peek`, expanded temporarily until the next hovered directory.
    peek_target: Option<u32>,
    peek: Vec<u32>,
}

impl View for TreeView {
    type V = TreeState;

    closed spec fn view(&self) -> TreeState {
        TreeState {
            follow_hover: self.follow_hover,
            expanded: self.expanded@,
            rows: self.rows@,
            dirty: self.dirty,
            sorted_by: self.sorted_by,
            scroll_to: self.scroll_to,
            ensure_visible: self.ensure_visible,
            peek_target: self.peek_target,
            peek: self.peek@,
        }
    }
}

/// The state of a new tree: only the root expanded, rows to be built.
pub open spec fn initial_tree(follow_hover: bool) -> TreeState {
    TreeState {
        follow_hover,
        expanded: set![0u32],
        rows: Seq::empty(),
        dirty: true,
        sorted_by: None,
        scroll_to: None,
        ensure_visible: None,
        peek_target: None,
        peek: Seq::empty(),
    }
}

impl Default for TreeView {
    fn default() -> (t: Self)
        ensures
            t@ == initial_tree(true),
    {
        let mut expanded: HashSet<u32> = HashSet::new();
        expanded.insert(0);
        let t = TreeView {
            follow_hover: true,
            expanded,
            rows: Vec::new(),
            dirty: true,
            sorted_by: None,
            scroll_to: None,
            ensure_visible: None,
            peek_target: None,
            peek: Vec::new(),
        };
        assert(t@.expanded =~= set![0u32]);
        assert(t@ == initial_tree(true)) by {
            assert(t@.rows =~= Seq::<(u32, u16)>::empty());
            assert(t@.peek =~= Seq::<u32>::empty());
        }
        t
    }
}

proof fn lemma_to_set_cons(x: u32, s: Seq<u32>)
    ensures
        (seq![x] + s).to_set() == s.to_set().insert(x),
{
    let c = seq![x] + s;
    assert forall|y: u32| c.contains(y) == s.to_set().insert(x).contains(y) by {
        if c.contains(y) && y != x {
            let k = choose|k: int| 0 <= k < c.len() && c[k] == y;
            assert(s[k - 1] == y);
        }
        if s.contains(y) {
            let k = choose|k: int| 0 <= k < s.len() && s[k] == y;
            assert(c[k + 1] == y);
        }
        if y == x {
            assert(c[0] == x);
        }
    }
    assert(c.to_set() =~= s.to_set().insert(x));
}

/// Whether `v` holds `x`.
fn vec_contains(v: &Vec<u32>, x: u32) -> (r: bool)
    ensures
        r == v@.contains(x),
{
    let mut i: usize = 0;
    while i < v.len()
        invariant
            i <= v@.len(),
            forall|j: int| 0 <= j < i ==> v@[j] != x,
        decreases v@.len() - i,
    {
        if v[i] == x {
            assert(v@[i as int] == x);
            return true;
        }
        i += 1;
    }
    false
}

impl TreeView {
    /// Forget expansion state (new model).
    pub fn reset(&mut self)
        ensures
            final(self)@ == initial_tree(old(self)@.follow_hover),
    {
        let follow_hover = self.follow_hover;
        *self = Self::default();
        self.follow_hover = follow_hover;
    }

    /// The visible rows: (node, depth).
    pub fn rows(&self) -> (r: &Vec<(u32, u16)>)
        ensures
            r@ == self@.rows,
    {
        &self.rows
    }

    /// Show `id`, the new centre of the chart: only it and its ancestors stay
    /// expanded, everything else collapses (so expansions do not pile up while
    /// navigating), and the tree scrolls to it.
    pub fn reveal_node(&mut self, model: &Model, id: u32)
        requires
            model.wf(),
            id < model.spec_len() || id == NO_NODE,
        ensures
            final(self)@ == (TreeState {
                expanded: chain(model.spec_nodes(), id as int).to_set(),
                peek: Seq::empty(),
                peek_target: None,
                dirty: true,
                scroll_to: Some(id),
                ..old(self)@
            }),
    {
        let ghost nodes = model.spec_nodes();
        let ghost s0 = self@;
        self.expanded.clear();
        let mut cur = id;
        while cur != NO_NODE
            invariant
                model.wf(),
                nodes == model.spec_nodes(),
                cur < nodes.len() || cur == NO_NODE,
                self.follow_hover == s0.follow_hover,
                self.rows@ == s0.rows,
                self.dirty == s0.dirty,
                self.sorted_by == s0.sorted_by,
                self.scroll_to == s0.scroll_to,
                self.ensure_visible == s0.ensure_visible,
                self.peek_target == s0.peek_target,
                self.peek@ == s0.peek,
                self.expanded@ + chain(nodes, cur as int).to_set() == chain(nodes, id as int).to_set(),
            decreases if cur == NO_NODE {
                0
            } else {
                cur + 1
            },
        {
            let ghost before = self.expanded@;
            let parent = model.node(cur).parent;
            proof {
                if cur > 0 {
                    assert(nodes[cur as int].parent < cur);
                } else {
                    assert(nodes[0].parent == NO_NODE);
                }
                let c = chain(nodes, cur as int);
                assert(c == seq![cur] + chain(nodes, parent as int));
                lemma_to_set_cons(cur, chain(nodes, parent as int));
            }
            self.expanded.insert(cur);
            proof {
                assert(self.expanded@ + chain(nodes, parent as int).to_set() =~= before + chain(nodes, cur as int).to_set());
            }
            cur = parent;
        }
        proof {
            assert(chain(nodes, NO_NODE as int).to_set() =~= Set::<u32>::empty());
            assert(self.expanded@ =~= chain(nodes, id as int).to_set());
        }
        self.peek.clear();
        self.peek_target = None;
        self.dirty = true;
        self.scroll_to = Some(id);
        proof {
            assert(self.peek@ =~= Seq::<u32>::empty());
        }
    }

    /// Temporarily expand the ancestors of `id` (replacing the previous
    /// peek) and scroll it into view.
    fn peek_at(&mut self, model: &Model, id: u32)
        requires
            model.wf(),
            id < model.spec_len(),
        ensures
            final(self)@ == (TreeState {
                peek_target: Some(id),
                peek: not_in(
                    chain(model.spec_nodes(), model.spec_nodes()[id as int].parent as int),
                    old(self)@.expanded,
                ),
                dirty: true,
                ensure_visible: Some(id),
                ..old(self)@
            }),
    {
        let ghost nodes = model.spec_nodes();
        let ghost s0 = self@;
        self.peek_target = Some(id);
        self.peek.clear();
        let mut cur = model.node(id).parent;
        proof {
            if id > 0 {
                assert(nodes[id as int].parent < id);
            } else {
                assert(nodes[0].parent == NO_NODE);
            }
        }
        let ghost start = cur;
        while cur != NO_NODE
            invariant
                model.wf(),
                nodes == model.spec_nodes(),
                cur < nodes.len() || cur == NO_NODE,
                self.expanded@ == s0.expanded,
                self.follow_hover == s0.follow_hover,
                self.rows@ == s0.rows,
                self.dirty == s0.dirty,
                self.sorted_by == s0.sorted_by,
                self.scroll_to == s0.scroll_to,
                self.ensure_visible == s0.ensure_visible,
                self.peek_target == Some(id),
                self.peek@ + not_in(chain(nodes, cur as int), s0.expanded) == not_in(
                    chain(nodes, start as int),
                    s0.expanded,
                ),
            decreases if cur == NO_NODE {
                0
            } else {
                cur + 1
            },
        {
            let ghost before = self.peek@;
            let parent = model.node(cur).parent;
            proof {
                if cur > 0 {
                    assert(nodes[cur as int].parent < cur);
                } else {
                    assert(nodes[0].parent == NO_NODE);
                }
                let c = chain(nodes, cur as int);
                assert(c == seq![cur] + chain(nodes, parent as int));
                assert(c.drop_first() =~= chain(nodes, parent as int));
            }
            if !self.expanded.contains(&cur) {
                self.peek.push(cur);
            }
            proof {
                let rest = not_in(chain(nodes, parent as int), s0.expanded);
                if s0.expanded.contains(cur) {
                    assert(before + (Seq::<u32>::empty() + rest) =~= self.peek@ + rest);
                } else {
                    assert(before + (seq![cur] + rest) =~= self.peek@ + rest);
                }
            }
            cur = parent;
        }
        proof {
            assert(not_in(chain(nodes, NO_NODE as int), s0.expanded) =~= Seq::<u32>::empty());
            assert(self.peek@ + Seq::<u32>::empty() =~= self.peek@);
        }
        self.dirty = true;
        self.ensure_visible = Some(id);
    }

    /// Expand a collapsed directory or collapse an expanded one; one
    /// expanded only for the peek is collapsed by taking it off the peek.
    pub fn toggle(&mut self, id: u32)
        ensures
            old(self)@.peek.contains(id) ==> final(self)@ == (TreeState {
                peek: old(self)@.peek.update(
                    first_pos(old(self)@.peek, id),
                    old(self)@.peek.last(),
                ).drop_last(),
                dirty: true,
                ..old(self)@
            }),
            !old(self)@.peek.contains(id) ==> final(self)@ == (TreeState {
                expanded: if old(self)@.expanded.contains(id) {
                    old(self)@.expanded.remove(id)
                } else {
                    old(self)@.expanded.insert(id)
                },
                dirty: true,
                ..old(self)@
            }),
    {
        let ghost s0 = self@;
        let mut i: usize = 0;
        proof {
            assert(self.peek@.subrange(0, self.peek@.len() as int) =~= self.peek@);
        }
        while i < self.peek.len()
            invariant
                self@ == s0,
                s0 == old(self)@,
                i <= self.peek@.len(),
                forall|j: int| 0 <= j < i ==> self.peek@[j] != id,
                first_pos(self.peek@, id) == i + first_pos(self.peek@.subrange(i as int, self.peek@.len() as int), id),
            decreases self.peek@.len() - i,
        {
            let ghost rest = self.peek@.subrange(i as int, self.peek@.len() as int);
            if self.peek[i] == id {
                proof {
                    assert(rest[0] == id);
                    assert(self.peek@.contains(id));
                    assert(first_pos(self.peek@, id) == i);
                }
                self.peek.swap_remove(i);
                self.dirty = true;
                return;
            }
            proof {
                assert(rest.drop_first() =~= self.peek@.subrange(i + 1, self.peek@.len() as int));
            }
            i += 1;
        }
        proof {
            assert(!self.peek@.contains(id));
        }
        let ghost e0 = self.expanded@;
        let present = self.expanded.remove(&id);
        proof {
            assert(present == e0.contains(id));
            assert(self.expanded@ == e0.remove(id));
        }
        if !present {
            self.expanded.insert(id);
            proof {
                assert(self.expanded@ =~= e0.insert(id));
            }
        }
        self.dirty = true;
    }

    /// Follow the item hovered in the chart: peek at its directory while
    /// following is on, drop the peek when it is turned off. Returns that
    /// directory.
    pub fn follow(&mut self, model: &Model, chart_hovered: Option<u32>) -> (hovered_dir: Option<u32>)
        requires
            model.wf(),
            chart_hovered matches Some(h) ==> h < model.spec_len(),
        ensures
            hovered_dir == match chart_hovered {
                Some(h) => Some(hovered_dir_of(model.spec_nodes(), h)),
                None => None,
            },
            !old(self)@.follow_hover ==> final(self)@ == if old(self)@.peek_target is Some {
                TreeState { peek_target: None, peek: Seq::empty(), dirty: true, ..old(self)@ }
            } else {
                old(self)@
            },
            old(self)@.follow_hover ==> final(self)@ == match hovered_dir {
                Some(d) => if old(self)@.peek_target != Some(d) {
                    TreeState {
                        peek_target: Some(d),
                        peek: not_in(
                            chain(model.spec_nodes(), model.spec_nodes()[d as int].parent as int),
                            old(self)@.expanded,
                        ),
                        dirty: true,
                        ensure_visible: Some(d),
                        ..old(self)@
                    }
                } else {
                    old(self)@
                },
                None => old(self)@,
            },
    {
        let ghost nodes = model.spec_nodes();
        // The tree lists directories only: a hovered file shows its folder.
        let hovered_dir = match chart_hovered {
            Some(id) => {
                let n = model.node(id);
                Some(
                    if n.is_dir {
                        id
                    } else {
                        n.parent
                    },
                )
            },
            None => None,
        };
        if !self.follow_hover {
            if self.peek_target.take().is_some() {
                self.peek.clear();
                self.dirty = true;
                proof {
                    assert(self.peek@ =~= Seq::<u32>::empty());
                }
            }
        } else if let Some(d) = hovered_dir {
            if self.peek_target != Some(d) {
                proof {
                    let h = chart_hovered->0;
                    if !nodes[h as int].is_dir {
                        if h > 0 {
                            assert(nodes[h as int].parent < h);
                        } else {
                            assert(nodes[0].is_dir);
                        }
                    }
                }
                self.peek_at(model, d);
            }
        }
        hovered_dir
    }

    /// Rebuild the rows when something changed or the metric is another.
    pub fn refresh(&mut self, model: &Model, metric: Metric)
        requires
            model.wf(),
        ensures
            old(self)@.dirty || old(self)@.sorted_by != Some(metric) ==> final(self)@ == rebuilt(
                old(self)@,
                model.spec_nodes(),
                metric,
            ),
            !(old(self)@.dirty || old(self)@.sorted_by != Some(metric)) ==> final(self)@ == old(self)@,
    {
        if self.dirty || self.sorted_by != Some(metric) {
            self.rebuild(model, metric);
        }
    }

    /// Take the node to scroll to, if one is pending.
    pub fn take_scroll_to(&mut self) -> (r: Option<u32>)
        ensures
            r == old(self)@.scroll_to,
            final(self)@ == (TreeState { scroll_to: None, ..old(self)@ }),
    {
        self.scroll_to.take()
    }

    /// Take the node to bring into view, if one is pending.
    pub fn take_ensure_visible(&mut self) -> (r: Option<u32>)
        ensures
            r == old(self)@.ensure_visible,
            final(self)@ == (TreeState { ensure_visible: None, ..old(self)@ }),
    {
        self.ensure_visible.take()
    }

    /// Row index of `id`, if it is visible.
    pub fn row_of(&self, id: u32) -> (r: Option<usize>)
        ensures
            match r {
                Some(i) => i < self@.rows.len() && self@.rows[i as int].0 == id && forall|j: int|
                    0 <= j < i ==> self@.rows[j].0 != id,
                None => forall|j: int| 0 <= j < self@.rows.len() ==> self@.rows[j].0 != id,
            },
    {
        let mut i: usize = 0;
        while i < self.rows.len()
            invariant
                i <= self.rows@.len(),
                forall|j: int| 0 <= j < i ==> self.rows@[j].0 != id,
            decreases self.rows@.len() - i,
        {
            if self.rows[i].0 == id {
                return Some(i);
            }
            i += 1;
        }
        None
    }

    /// The subdirectories of `id` in the order the tree shows them.
    fn shown_subdirs(model: &Model, id: u32, metric: Metric) -> (r: Vec<u32>)
        requires
            model.wf(),
            id < model.spec_len(),
        ensures
            r@ == shown_dirs(model.spec_nodes(), id as int, metric),
    {
        let ghost nodes = model.spec_nodes();
        let range = model.children(id);
        let first = range.start;
        let end = range.end;
        let mut dirs: Vec<u32> = Vec::new();
        let mut c = first;
        while c < end
            invariant
                model.wf(),
                nodes == model.spec_nodes(),
                id < nodes.len(),
                first == nodes[id as int].first_child,
                end == nodes[id as int].first_child + nodes[id as int].child_count,
                end <= nodes.len(),
                first <= c <= end,
                dirs@ == dir_children_upto(nodes, id as int, (c - first) as nat),
            decreases end - c,
        {
            if model.node(c).is_dir {
                dirs.push(c);
            }
            c += 1;
        }
        if metric == Metric::Logical {
            return dirs;
        }
        // Stored order is by logical size; re-sort for the shown metric.
        let mut sorted: Vec<u32> = Vec::new();
        let mut i: usize = 0;
        proof {
            lemma_dir_children_in(nodes, model.spec_names(), id as int, nodes[id as int].child_count as nat);
        }
        while i < dirs.len()
            invariant
                model.wf(),
                nodes == model.spec_nodes(),
                i <= dirs@.len(),
                forall|j: int| 0 <= j < dirs@.len() ==> #[trigger] dirs@[j] < nodes.len(),
                forall|j: int| 0 <= j < sorted@.len() ==> #[trigger] sorted@[j] < nodes.len(),
                sorted@ == sort_desc(nodes, metric, dirs@.take(i as int)),
            decreases dirs@.len() - i,
        {
            let x = dirs[i];
            let key = model.node(x).metric(metric);
            let ghost t = sorted@;
            let mut k = sorted.len();
            proof {
                assert(t.subrange(0, k as int) =~= t);
                assert(t.subrange(k as int, t.len() as int) =~= Seq::<u32>::empty());
            }
            while k > 0 && model.node(sorted[k - 1]).metric(metric) < key
                invariant
                    model.wf(),
                    nodes == model.spec_nodes(),
                    sorted@ == t,
                    k <= t.len(),
                    x < nodes.len(),
                    key == nodes[x as int].spec_metric(metric),
                    forall|j: int| 0 <= j < t.len() ==> #[trigger] t[j] < nodes.len(),
                    insert_desc(nodes, metric, t, x) == insert_desc(nodes, metric, t.subrange(0, k as int), x) + t.subrange(
                        k as int,
                        t.len() as int,
                    ),
                decreases k,
            {
                proof {
                    let a = t.subrange(0, k as int);
                    assert(a.drop_last() =~= t.subrange(0, k - 1));
                    assert(a.last() == t[k - 1]);
                    let r0 = insert_desc(nodes, metric, t.subrange(0, k - 1), x);
                    assert(r0.push(t[k - 1]) + t.subrange(k as int, t.len() as int) =~= r0 + t.subrange(
                        k - 1,
                        t.len() as int,
                    ));
                }
                k -= 1;
            }
            proof {
                let a = t.subrange(0, k as int);
                if k > 0 {
                    assert(a.last() == t[k - 1]);
                    assert(insert_desc(nodes, metric, a, x) == a.push(x));
                } else {
                    assert(insert_desc(nodes, metric, a, x) == seq![x]);
                }
                assert(a.push(x) + t.subrange(k as int, t.len() as int) =~= t.insert(k as int, x));
                assert(dirs@.take(i + 1).drop_last() =~= dirs@.take(i as int));
                assert(dirs@.take(i + 1).last() == x);
            }
            sorted.insert(k, x);
            i += 1;
        }
        proof {
            assert(dirs@.take(i as int) =~= dirs@);
        }
        sorted
    }

    /// List the visible rows again: every open directory from the root down,
    /// subdirectories largest first by `metric`.
    pub fn rebuild(&mut self, model: &Model, metric: Metric)
        requires
            model.wf(),
        ensures
            final(self)@ == rebuilt(old(self)@, model.spec_nodes(), metric),
    {
        let ghost nodes = model.spec_nodes();
        let ghost s0 = self@;
        let ghost open = s0.open_dirs();
        self.rows.clear();
        self.sorted_by = Some(metric);
        if model.is_empty() {
            proof {
                assert(self.rows@ =~= Seq::<(u32, u16)>::empty());
            }
            return;
        }
        // Iterative DFS; stack holds (node, depth).
        let mut stack: Vec<(u32, u16)> = Vec::new();
        stack.push((0, 0));
        proof {
            assert(self.rows@ =~= Seq::<(u32, u16)>::empty());
            assert(stack@ =~= seq![(0u32, 0u16)]);
            assert(stack@.last() == (0u32, 0u16));
            reveal_with_fuel(pending, 2);
            assert(pending(nodes, open, metric, stack@) == subtree_rows(nodes, open, metric, 0, 0) + pending(
                nodes,
                open,
                metric,
                Seq::<(u32, u16)>::empty(),
            ));
            assert(stack@.drop_last() =~= Seq::<(u32, u16)>::empty());
            assert(self.rows@ + pending(nodes, open, metric, stack@) =~= subtree_rows(nodes, open, metric, 0, 0));
        }
        loop
            invariant
                model.wf(),
                nodes == model.spec_nodes(),
                nodes.len() > 0,
                open == s0.open_dirs(),
                self.expanded@ == s0.expanded,
                self.peek@ == s0.peek,
                self.follow_hover == s0.follow_hover,
                self.dirty == s0.dirty,
                self.sorted_by == Some(metric),
                self.scroll_to == s0.scroll_to,
                self.ensure_visible == s0.ensure_visible,
                self.peek_target == s0.peek_target,
                forall|j: int| 0 <= j < stack@.len() ==> (#[trigger] stack@[j]).0 < nodes.len(),
                self.rows@ + pending(nodes, open, metric, stack@) == subtree_rows(nodes, open, metric, 0, 0),
            ensures
                self.rows@ == subtree_rows(nodes, open, metric, 0, 0),
                self.expanded@ == s0.expanded,
                self.peek@ == s0.peek,
                self.follow_hover == s0.follow_hover,
                self.sorted_by == Some(metric),
                self.scroll_to == s0.scroll_to,
                self.ensure_visible == s0.ensure_visible,
                self.peek_target == s0.peek_target,
            decreases pending(nodes, open, metric, stack@).len(),
        {
            let ghost st0 = stack@;
            let top = stack.pop();
            match top {
                None => {
                    proof {
                        assert(self.rows@ + Seq::<(u32, u16)>::empty() =~= self.rows@);
                    }
                    break;
                },
                Some((id, depth)) => {
                    let ghost rest = stack@;
                    proof {
                        assert(st0.drop_last() =~= rest);
                        assert(st0.last() == (id, depth));
                        assert(st0[st0.len() - 1].0 < nodes.len());
                        assert forall|j: int| 0 <= j < rest.len() implies (#[trigger] rest[j]).0 < nodes.len() by {
                            assert(rest[j] == st0[j]);
                        }
                    }
                    let ghost before = self.rows@;
                    self.rows.push((id, depth));
                    if self.is_expanded(id) {
                        let dirs = Self::shown_subdirs(model, id, metric);
                        let d2 = depth.wrapping_add(1);
                        proof {
                            assert(d2 == next_depth(depth));
                            lemma_shown_dirs_in(nodes, model.spec_names(), id as int, metric);
                            assert(dirs@.subrange(dirs@.len() as int, dirs@.len() as int) =~= Seq::<u32>::empty());
                            assert(pending(nodes, open, metric, stack@) == list_rows(
                                nodes,
                                open,
                                metric,
                                id as int,
                                dirs@.subrange(dirs@.len() as int, dirs@.len() as int),
                                d2,
                            ) + pending(nodes, open, metric, rest)) by {
                                assert(Seq::<(u32, u16)>::empty() + pending(nodes, open, metric, rest) =~= pending(
                                    nodes,
                                    open,
                                    metric,
                                    rest,
                                ));
                            }
                        }
                        let mut k = dirs.len();
                        // Push in reverse so the largest child is popped first.
                        while k > 0
                            invariant
                                k <= dirs@.len(),
                                dirs@ == shown_dirs(nodes, id as int, metric),
                                forall|j: int| 0 <= j < dirs@.len() ==> id < #[trigger] dirs@[j] < nodes.len(),
                                forall|j: int| 0 <= j < stack@.len() ==> (#[trigger] stack@[j]).0 < nodes.len(),
                                pending(nodes, open, metric, stack@) == list_rows(
                                    nodes,
                                    open,
                                    metric,
                                    id as int,
                                    dirs@.subrange(k as int, dirs@.len() as int),
                                    d2,
                                ) + pending(nodes, open, metric, rest),
                            decreases k,
                        {
                            proof {
                                lemma_push_children(nodes, open, metric, id as int, dirs@, k as int, d2, stack@, rest);
                            }
                            stack.push((dirs[k - 1], d2));
                            k -= 1;
                        }
                        proof {
                            assert(dirs@.subrange(0, dirs@.len() as int) =~= dirs@);
                            let lr = list_rows(nodes, open, metric, id as int, dirs@, d2);
                            assert(subtree_rows(nodes, open, metric, id as int, depth) == seq![(id, depth)] + lr);
                            assert(self.rows@ + (lr + pending(nodes, open, metric, rest)) =~= before + (
                            seq![(id, depth)] + lr) + pending(nodes, open, metric, rest));
                        }
                    } else {
                        proof {
                            assert(subtree_rows(nodes, open, metric, id as int, depth) =~= seq![(id, depth)]);
                            assert(self.rows@ + pending(nodes, open, metric, rest) =~= before + seq![(id, depth)]
                                + pending(nodes, open, metric, rest));
                        }
                    }
                },
            }
        }
        self.dirty = false;
    }

    /// Whether `id` is shown expanded.
    pub fn is_expanded(&self, id: u32) -> (r: bool)
        ensures
            r == self@.open_dirs().contains(id),
    {
        let r = self.expanded.contains(&id) || vec_contains(&self.peek, id);
        proof {
            if self.peek@.contains(id) {
                assert(self.peek@.to_set().contains(id));
            }
        }
        r
    }
}

} // verus!
