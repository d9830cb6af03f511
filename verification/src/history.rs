//! Browser-style navigation history over node ids.
use vstd::prelude::*;

use crate::model::NO_NODE;

verus! {

/// Abstract state of a [`History`]: the current root, the back stack and the
/// forward stack (the top of each stack is its last element).
pub struct HistoryView {
    pub root: u32,
    pub back: Seq<u32>,
    pub fwd: Seq<u32>,
}

impl HistoryView {
    /// The state every history starts in: at the scan root, nothing recorded.
    pub open spec fn initial() -> HistoryView {
        HistoryView { root: 0, back: Seq::empty(), fwd: Seq::empty() }
    }

    /// Whether `navigated(id)` changes anything.
    pub open spec fn can_navigate(self, id: u32) -> bool {
        id != self.root && id != NO_NODE
    }

    /// State after jumping to `id`.
    pub open spec fn navigated(self, id: u32) -> HistoryView {
        if self.can_navigate(id) {
            HistoryView { root: id, back: self.back.push(self.root), fwd: Seq::empty() }
        } else {
            self
        }
    }

    /// State after going one step back.
    pub open spec fn went_back(self) -> HistoryView {
        if self.back.len() > 0 {
            HistoryView {
                root: self.back.last(),
                back: self.back.drop_last(),
                fwd: self.fwd.push(self.root),
            }
        } else {
            self
        }
    }

    /// State after going one step forward.
    pub open spec fn went_forward(self) -> HistoryView {
        if self.fwd.len() > 0 {
            HistoryView {
                root: self.fwd.last(),
                back: self.back.push(self.root),
                fwd: self.fwd.drop_last(),
            }
        } else {
            self
        }
    }
}

/// `s` with every run of equal neighbours reduced to one element.
pub open spec fn dedup(s: Seq<u32>) -> Seq<u32>
    decreases s.len(),
{
    if s.len() == 0 {
        s
    } else {
        let d = dedup(s.drop_last());
        if d.len() > 0 && d.last() == s.last() {
            d
        } else {
            d.push(s.last())
        }
    }
}

/// A remapped stack: duplicates of neighbours dropped, and the top dropped
/// too when it equals the (new) root.
pub open spec fn collapse(s: Seq<u32>, root: u32) -> Seq<u32> {
    let d = dedup(s);
    if d.len() > 0 && d.last() == root {
        d.drop_last()
    } else {
        d
    }
}

/// No two neighbouring entries are equal.
pub open spec fn no_adjacent_duplicates(s: Seq<u32>) -> bool {
    forall|i: int| 0 <= i < s.len() - 1 ==> #[trigger] s[i] != s[i + 1]
}

/// Navigation history: the current root plus back and forward stacks.
#[derive(Debug)]
pub struct History {
    root: u32,
    back: Vec<u32>,
    fwd: Vec<u32>,
}

impl View for History {
    type V = HistoryView;

    closed spec fn view(&self) -> HistoryView {
        HistoryView { root: self.root, back: self.back@, fwd: self.fwd@ }
    }
}

impl Default for History {
    fn default() -> (h: Self)
        ensures
            h@ == HistoryView::initial(),
    {
        let h = History { root: 0, back: Vec::new(), fwd: Vec::new() };
        assert(h@.back =~= Seq::<u32>::empty());
        assert(h@.fwd =~= Seq::<u32>::empty());
        h
    }
}

impl History {
    /// The current root.
    pub fn root(&self) -> (r: u32)
        ensures
            r == self@.root,
    {
        self.root
    }

    /// The back stack, oldest entry first.
    pub fn back_stack(&self) -> (r: &Vec<u32>)
        ensures
            r@ == self@.back,
    {
        &self.back
    }

    /// The forward stack, farthest entry first.
    pub fn fwd_stack(&self) -> (r: &Vec<u32>)
        ensures
            r@ == self@.fwd,
    {
        &self.fwd
    }

    /// Back to the initial state.
    pub fn reset(&mut self)
        ensures
            final(self)@ == HistoryView::initial(),
    {
        *self = Self::default();
    }

    /// Translate every id through `f` (e.g. into a rescanned model), dropping
    /// entries that collapse onto their neighbour or onto the new root.
    pub fn remap<F: Fn(u32) -> u32>(&mut self, f: F)
        requires
            f.requires((old(self)@.root,)),
            forall|i: int| 0 <= i < old(self)@.back.len() ==> f.requires((#[trigger] old(self)@.back[i],)),
            forall|i: int| 0 <= i < old(self)@.fwd.len() ==> f.requires((#[trigger] old(self)@.fwd[i],)),
        ensures
            f.ensures((old(self)@.root,), final(self)@.root),
            exists|mb: Seq<u32>, mf: Seq<u32>|
                {
                    &&& mb.len() == old(self)@.back.len()
                    &&& mf.len() == old(self)@.fwd.len()
                    &&& forall|i: int|
                        0 <= i < mb.len() ==> f.ensures((old(self)@.back[i],), #[trigger] mb[i])
                    &&& forall|i: int|
                        0 <= i < mf.len() ==> f.ensures((old(self)@.fwd[i],), #[trigger] mf[i])
                    &&& final(self)@.back == collapse(mb, final(self)@.root)
                    &&& final(self)@.fwd == collapse(mf, final(self)@.root)
                },
    {
        let root = f(self.root);
        self.root = root;
        let ghost ob = self.back@;
        let ghost of = self.fwd@;
        assert(self.back@ == old(self)@.back);
        assert(self.fwd@ == old(self)@.fwd);
        assert(forall|i: int| 0 <= i < self.back@.len() ==> f.requires((#[trigger] self.back@[i],)));
        assert(forall|i: int| 0 <= i < self.fwd@.len() ==> f.requires((#[trigger] self.fwd@[i],)));
        let (nb, Ghost(mb)) = remap_stack(&self.back, &f, root);
        let (nf, Ghost(mf)) = remap_stack(&self.fwd, &f, root);
        self.back = nb;
        self.fwd = nf;
        assert(self@.back == collapse(mb, self@.root));
        assert(self@.fwd == collapse(mf, self@.root));
    }

    pub fn can_back(&self) -> (r: bool)
        ensures
            r == (self@.back.len() > 0),
    {
        self.back.len() > 0
    }

    pub fn can_forward(&self) -> (r: bool)
        ensures
            r == (self@.fwd.len() > 0),
    {
        self.fwd.len() > 0
    }

    /// Jump to `id`, recording the current root. Returns `true` if the root
    /// actually changed.
    pub fn navigate(&mut self, id: u32) -> (changed: bool)
        ensures
            changed == old(self)@.can_navigate(id),
            final(self)@ == old(self)@.navigated(id),
    {
        if id == self.root || id == NO_NODE {
            return false;
        }
        self.back.push(self.root);
        self.fwd.clear();
        self.root = id;
        assert(self@.fwd =~= Seq::<u32>::empty());
        true
    }

    /// Step back; `false` (and no change) when there is nothing to go back to.
    pub fn back(&mut self) -> (changed: bool)
        ensures
            changed == (old(self)@.back.len() > 0),
            final(self)@ == old(self)@.went_back(),
    {
        match self.back.pop() {
            None => false,
            Some(prev) => {
                self.fwd.push(self.root);
                self.root = prev;
                true
            },
        }
    }

    /// Step forward; `false` (and no change) when there is nothing ahead.
    pub fn forward(&mut self) -> (changed: bool)
        ensures
            changed == (old(self)@.fwd.len() > 0),
            final(self)@ == old(self)@.went_forward(),
    {
        match self.fwd.pop() {
            None => false,
            Some(next) => {
                self.back.push(self.root);
                self.root = next;
                true
            },
        }
    }
}

/// Map every entry of `stack` through `f` and collapse the result.
fn remap_stack<F: Fn(u32) -> u32>(stack: &Vec<u32>, f: &F, root: u32) -> (res: (
    Vec<u32>,
    Ghost<Seq<u32>>,
))
    requires
        forall|i: int| 0 <= i < stack@.len() ==> f.requires((#[trigger] stack@[i],)),
    ensures
        res.1@.len() == stack@.len(),
        forall|i: int| 0 <= i < stack@.len() ==> f.ensures((stack@[i],), #[trigger] res.1@[i]),
        res.0@ == collapse(res.1@, root),
{
    let mut out: Vec<u32> = Vec::new();
    let ghost mut mapped: Seq<u32> = Seq::empty();
    let mut i: usize = 0;
    while i < stack.len()
        invariant
            i <= stack@.len(),
            forall|j: int| 0 <= j < stack@.len() ==> f.requires((#[trigger] stack@[j],)),
            mapped.len() == i,
            forall|j: int| 0 <= j < i ==> f.ensures((stack@[j],), #[trigger] mapped[j]),
            out@ == dedup(mapped),
        decreases stack@.len() - i,
    {
        let v = f(stack[i]);
        let ghost prev = mapped;
        proof {
            mapped = mapped.push(v);
            assert(mapped.drop_last() =~= prev);
        }
        let n = out.len();
        if n == 0 || out[n - 1] != v {
            out.push(v);
        }
        i += 1;
    }
    let n = out.len();
    if n > 0 && out[n - 1] == root {
        out.pop();
    }
    (out, Ghost(mapped))
}

/// Going back right after a successful navigation returns to where it
/// started, with the same back stack; the abandoned target is then the only
/// step forward.
pub proof fn law_back_undoes_navigate(h: HistoryView, id: u32)
    requires
        h.can_navigate(id),
    ensures
        h.navigated(id).went_back().root == h.root,
        h.navigated(id).went_back().back == h.back,
        h.navigated(id).went_back().fwd == seq![id],
{
    assert(h.back.push(h.root).drop_last() =~= h.back);
    assert(Seq::<u32>::empty().push(id) =~= seq![id]);
}

/// Going forward right after going back (and vice versa) restores the state.
pub proof fn law_forward_undoes_back(h: HistoryView)
    ensures
        h.back.len() > 0 ==> h.went_back().went_forward() == h,
        h.fwd.len() > 0 ==> h.went_forward().went_back() == h,
{
    if h.back.len() > 0 {
        assert(h.back.drop_last().push(h.back.last()) =~= h.back);
        assert(h.fwd.push(h.root).drop_last() =~= h.fwd);
    }
    if h.fwd.len() > 0 {
        assert(h.fwd.drop_last().push(h.fwd.last()) =~= h.fwd);
        assert(h.back.push(h.root).drop_last() =~= h.back);
    }
}

/// A navigation that changes the root always drops the forward stack, and
/// one that does not change it leaves the whole state alone.
pub proof fn law_navigate_drops_forward(h: HistoryView, id: u32)
    ensures
        h.can_navigate(id) ==> h.navigated(id).fwd.len() == 0 && h.navigated(id).root == id,
        !h.can_navigate(id) ==> h.navigated(id) == h,
{
}

/// `dedup` leaves no equal neighbours and keeps the last element.
pub proof fn lemma_dedup(s: Seq<u32>)
    ensures
        no_adjacent_duplicates(dedup(s)),
        dedup(s).len() <= s.len(),
        s.len() > 0 ==> dedup(s).len() > 0 && dedup(s).last() == s.last(),
    decreases s.len(),
{
    if s.len() > 0 {
        lemma_dedup(s.drop_last());
        let d = dedup(s.drop_last());
        if !(d.len() > 0 && d.last() == s.last()) {
            assert forall|i: int| 0 <= i < d.push(s.last()).len() - 1 implies #[trigger] d.push(
                s.last(),
            )[i] != d.push(s.last())[i + 1] by {
                if i < d.len() - 1 {
                    assert(d[i] != d[i + 1]);
                }
            }
        }
    }
}

/// After a remap no stack holds two equal neighbours, and the top of each
/// stack differs from the root, so every step back or forward moves.
pub proof fn law_remap_collapses(s: Seq<u32>, root: u32)
    ensures
        no_adjacent_duplicates(collapse(s, root)),
        collapse(s, root).len() > 0 ==> collapse(s, root).last() != root,
{
    lemma_dedup(s);
    let d = dedup(s);
    if d.len() > 0 && d.last() == root {
        let c = d.drop_last();
        assert forall|i: int| 0 <= i < c.len() - 1 implies #[trigger] c[i] != c[i + 1] by {
            assert(d[i] != d[i + 1]);
        }
        if c.len() > 0 {
            assert(d[c.len() - 1] != d[c.len() as int]);
        }
    }
}

} // verus!
