//! Search tab state: the query, and the matches last listed for it. The
//! scope is the whole scan rather than the chart's centre, so a click that
//! moves the chart does not change the list.
use vstd::prelude::*;

use crate::model::Metric;

verus! {

/// Number of matches listed (the largest ones).
pub const LIMIT: usize = 200;

pub struct SearchView {
    pub query: String,
    /// Put the keyboard focus into the field on the next frame (Ctrl+F).
    pub focus: bool,
    /// `(query, metric)` the rows were built for.
    key: Option<(String, Metric)>,
    count: usize,
    /// Largest first: item id and its folder relative to the scan root.
    rows: Vec<(u32, String)>,
    selected: Option<u32>,
}

/// The abstract state of a [`SearchView`].
pub struct SearchState {
    pub query: Seq<char>,
    pub focus: bool,
    pub key: Option<(Seq<char>, Metric)>,
    pub count: usize,
    pub rows: Seq<(u32, Seq<char>)>,
    pub selected: Option<u32>,
}

impl View for SearchView {
    type V = SearchState;

    closed spec fn view(&self) -> SearchState {
        SearchState {
            query: self.query@,
            focus: self.focus,
            key: match self.key {
                Some((q, m)) => Some((q@, m)),
                None => None,
            },
            count: self.count,
            rows: self.rows@.map_values(|r: (u32, String)| (r.0, r.1@)),
            selected: self.selected,
        }
    }
}

/// A search tab holding `query` and no results.
pub open spec fn fresh_search(query: Seq<char>) -> SearchState {
    SearchState { query, focus: false, key: None, count: 0, rows: Seq::empty(), selected: None }
}

impl Default for SearchView {
    fn default() -> (s: Self)
        ensures
            s@ == fresh_search(Seq::empty()),
    {
        let s = SearchView {
            query: String::new(),
            focus: false,
            key: None,
            count: 0,
            rows: Vec::new(),
            selected: None,
        };
        assert(s@.rows =~= Seq::<(u32, Seq<char>)>::empty());
        s
    }
}

impl SearchView {
    /// Forget the results (new model); the query stays and is run again.
    pub fn reset(&mut self)
        ensures
            final(self)@ == fresh_search(old(self)@.query),
    {
        let mut query = String::new();
        std::mem::swap(&mut query, &mut self.query);
        *self = Self::default();
        self.query = query;
    }
}

} // verus!
