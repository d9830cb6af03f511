//! Settings kept between runs as string key/value pairs. Missing or unknown
//! values keep their defaults.
use vstd::prelude::*;

use crate::model::Metric;
use crate::render::ColorMode;
use crate::ui::SideView;

verus! {

pub const METRIC: &'static str = "metric";
pub const COLOR_MODE: &'static str = "color_mode";
pub const FOLLOW_IN_TREE: &'static str = "follow_in_tree";
pub const LAST_PATH: &'static str = "last_path";
pub const SIDE_VIEW: &'static str = "side_view";

/// Settings of the application.
#[derive(Clone, Debug, PartialEq)]
pub struct Settings {
    pub metric: Metric,
    pub color_mode: ColorMode,
    pub follow_in_tree: bool,
    /// What the left panel shows.
    pub side_view: SideView,
    /// Path of the last scan, offered in the path field on the next start.
    pub last_path: Option<String>,
}

/// Abstract value of [`Settings`].
pub struct SettingsView {
    pub metric: Metric,
    pub color_mode: ColorMode,
    pub follow_in_tree: bool,
    pub side_view: SideView,
    pub last_path: Option<Seq<char>>,
}

impl View for Settings {
    type V = SettingsView;

    open spec fn view(&self) -> SettingsView {
        SettingsView {
            metric: self.metric,
            color_mode: self.color_mode,
            follow_in_tree: self.follow_in_tree,
            side_view: self.side_view,
            last_path: match self.last_path {
                Some(p) => Some(p@),
                None => None,
            },
        }
    }
}

pub open spec fn default_settings() -> SettingsView {
    SettingsView {
        metric: Metric::Physical,
        color_mode: ColorMode::Size,
        follow_in_tree: true,
        side_view: SideView::Folders,
        last_path: None,
    }
}

/// Stored text of each metric.
pub open spec fn metric_text(m: Metric) -> Seq<char> {
    match m {
        Metric::Physical => "physical"@,
        Metric::Logical => "logical"@,
    }
}

pub open spec fn color_mode_text(c: ColorMode) -> Seq<char> {
    match c {
        ColorMode::Size => "size"@,
        ColorMode::Depth => "depth"@,
    }
}

pub open spec fn side_view_text(v: SideView) -> Seq<char> {
    match v {
        SideView::Folders => "folders"@,
        SideView::LargestFiles => "largest_files"@,
        SideView::Search => "search"@,
    }
}

pub open spec fn bool_text(b: bool) -> Seq<char> {
    if b {
        "true"@
    } else {
        "false"@
    }
}

/// The settings read back from stored values (`None` = key missing).
pub open spec fn spec_parse(
    metric: Option<Seq<char>>,
    color_mode: Option<Seq<char>>,
    follow_in_tree: Option<Seq<char>>,
    side_view: Option<Seq<char>>,
    last_path: Option<Seq<char>>,
) -> SettingsView {
    let d = default_settings();
    SettingsView {
        metric: if metric == Some("physical"@) {
            Metric::Physical
        } else if metric == Some("logical"@) {
            Metric::Logical
        } else {
            d.metric
        },
        color_mode: if color_mode == Some("size"@) {
            ColorMode::Size
        } else if color_mode == Some("depth"@) {
            ColorMode::Depth
        } else {
            d.color_mode
        },
        follow_in_tree: if follow_in_tree == Some("true"@) {
            true
        } else if follow_in_tree == Some("false"@) {
            false
        } else {
            d.follow_in_tree
        },
        side_view: if side_view == Some("folders"@) {
            SideView::Folders
        } else if side_view == Some("largest_files"@) {
            SideView::LargestFiles
        } else if side_view == Some("search"@) {
            SideView::Search
        } else {
            d.side_view
        },
        last_path: match last_path {
            Some(p) => if p.len() == 0 {
                None
            } else {
                Some(p)
            },
            None => None,
        },
    }
}

/// Whether two string slices hold the same characters.
pub fn str_eq(a: &str, b: &str) -> (r: bool)
    ensures
        r == (a@ == b@),
{
    let n = a.unicode_len();
    if n != b.unicode_len() {
        return false;
    }
    let mut i: usize = 0;
    while i < n
        invariant
            n == a@.len() == b@.len(),
            i <= n,
            forall|j: int| 0 <= j < i ==> a@[j] == b@[j],
        decreases n - i,
    {
        if a.get_char(i) != b.get_char(i) {
            return false;
        }
        i += 1;
    }
    assert(a@ =~= b@);
    true
}

fn opt_is(v: Option<&str>, lit: &str) -> (r: bool)
    ensures
        r == (match v {
            Some(s) => s@ == lit@,
            None => false,
        }),
{
    match v {
        Some(s) => str_eq(s, lit),
        None => false,
    }
}

pub open spec fn opt_view(v: Option<&str>) -> Option<Seq<char>> {
    match v {
        Some(s) => Some(s@),
        None => None,
    }
}

pub open spec fn opt_string_view(v: Option<String>) -> Option<Seq<char>> {
    match v {
        Some(s) => Some(s@),
        None => None,
    }
}

impl Default for Settings {
    fn default() -> (s: Self)
        ensures
            s@ == default_settings(),
    {
        Settings {
            metric: Metric::Physical,
            color_mode: ColorMode::default(),
            follow_in_tree: true,
            side_view: SideView::default(),
            last_path: None,
        }
    }
}

impl Settings {
    /// Read settings from the stored value of each key (`None` when the key
    /// is missing); missing or unknown values keep their defaults, and an
    /// empty last path counts as none.
    pub fn parse(
        metric: Option<&str>,
        color_mode: Option<&str>,
        follow_in_tree: Option<&str>,
        side_view: Option<&str>,
        last_path: Option<String>,
    ) -> (s: Self)
        ensures
            s@ == spec_parse(
                opt_view(metric),
                opt_view(color_mode),
                opt_view(follow_in_tree),
                opt_view(side_view),
                opt_string_view(last_path),
            ),
    {
        let d = Self::default();
        let metric = if opt_is(metric, "physical") {
            Metric::Physical
        } else if opt_is(metric, "logical") {
            Metric::Logical
        } else {
            d.metric
        };
        let color_mode = if opt_is(color_mode, "size") {
            ColorMode::Size
        } else if opt_is(color_mode, "depth") {
            ColorMode::Depth
        } else {
            d.color_mode
        };
        let follow_in_tree = if opt_is(follow_in_tree, "true") {
            true
        } else if opt_is(follow_in_tree, "false") {
            false
        } else {
            d.follow_in_tree
        };
        let side_view = if opt_is(side_view, "folders") {
            SideView::Folders
        } else if opt_is(side_view, "largest_files") {
            SideView::LargestFiles
        } else if opt_is(side_view, "search") {
            SideView::Search
        } else {
            d.side_view
        };
        let last_path = match last_path {
            Some(p) => if p.as_str().unicode_len() == 0 {
                None
            } else {
                Some(p)
            },
            None => None,
        };
        Settings { metric, color_mode, follow_in_tree, side_view, last_path }
    }

    /// The values to store, as `(key, value)` pairs in the order metric,
    /// colour mode, follow-in-tree, side view, last path (empty for none).
    pub fn to_pairs(&self) -> (r: Vec<(&'static str, String)>)
        ensures
            r@.len() == 5,
            r@[0].0@ == METRIC@ && r@[0].1@ == metric_text(self.metric),
            r@[1].0@ == COLOR_MODE@ && r@[1].1@ == color_mode_text(self.color_mode),
            r@[2].0@ == FOLLOW_IN_TREE@ && r@[2].1@ == bool_text(self.follow_in_tree),
            r@[3].0@ == SIDE_VIEW@ && r@[3].1@ == side_view_text(self.side_view),
            r@[4].0@ == LAST_PATH@ && r@[4].1@ == (match self.last_path {
                Some(p) => p@,
                None => Seq::empty(),
            }),
    {
        let metric = match self.metric {
            Metric::Physical => "physical",
            Metric::Logical => "logical",
        };
        let color_mode = match self.color_mode {
            ColorMode::Size => "size",
            ColorMode::Depth => "depth",
        };
        let side_view = match self.side_view {
            SideView::Folders => "folders",
            SideView::LargestFiles => "largest_files",
            SideView::Search => "search",
        };
        let follow = if self.follow_in_tree {
            "true"
        } else {
            "false"
        };
        let last = match &self.last_path {
            Some(p) => p.clone(),
            None => String::new(),
        };
        let mut r: Vec<(&'static str, String)> = Vec::new();
        r.push((METRIC, metric.to_owned()));
        r.push((COLOR_MODE, color_mode.to_owned()));
        r.push((FOLLOW_IN_TREE, follow.to_owned()));
        r.push((SIDE_VIEW, side_view.to_owned()));
        r.push((LAST_PATH, last));
        r
    }
}

proof fn lemma_metric_round_trip(m: Metric)
    ensures
        spec_parse(Some(metric_text(m)), None, None, None, None).metric == m,
{
    reveal_strlit("physical");
    reveal_strlit("logical");
    assert("physical"@.len() != "logical"@.len());
}

proof fn lemma_color_mode_round_trip(c: ColorMode)
    ensures
        spec_parse(None, Some(color_mode_text(c)), None, None, None).color_mode == c,
{
    reveal_strlit("size");
    reveal_strlit("depth");
    assert("size"@.len() != "depth"@.len());
}

proof fn lemma_bool_round_trip(b: bool)
    ensures
        spec_parse(None, None, Some(bool_text(b)), None, None).follow_in_tree == b,
{
    reveal_strlit("true");
    reveal_strlit("false");
    assert("true"@.len() != "false"@.len());
}

proof fn lemma_side_view_round_trip(v: SideView)
    ensures
        spec_parse(None, None, None, Some(side_view_text(v)), None).side_view == v,
{
    reveal_strlit("folders");
    reveal_strlit("largest_files");
    reveal_strlit("search");
    assert("folders"@.len() != "largest_files"@.len());
    assert("folders"@.len() != "search"@.len());
    assert("search"@.len() != "largest_files"@.len());
}

/// Reading back what was stored gives the same settings, except that an
/// empty last path reads back as none.
pub proof fn law_settings_round_trip(s: SettingsView)
    requires
        s.last_path != Some(Seq::<char>::empty()),
    ensures
        spec_parse(
            Some(metric_text(s.metric)),
            Some(color_mode_text(s.color_mode)),
            Some(bool_text(s.follow_in_tree)),
            Some(side_view_text(s.side_view)),
            Some(
                match s.last_path {
                    Some(p) => p,
                    None => Seq::empty(),
                },
            ),
        ) == s,
{
    lemma_metric_round_trip(s.metric);
    lemma_color_mode_round_trip(s.color_mode);
    lemma_bool_round_trip(s.follow_in_tree);
    lemma_side_view_round_trip(s.side_view);
    match s.last_path {
        Some(p) => {
            assert(p.len() != 0) by {
                if p.len() == 0 {
                    assert(p =~= Seq::<char>::empty());
                }
            }
        },
        None => {},
    }
}

/// Values that are missing or not understood leave the defaults in place.
pub proof fn law_settings_defaults(m: Option<Seq<char>>, c: Option<Seq<char>>, f: Option<Seq<char>>, v: Option<Seq<char>>)
    requires
        m != Some("physical"@) && m != Some("logical"@),
        c != Some("size"@) && c != Some("depth"@),
        f != Some("true"@) && f != Some("false"@),
        v != Some("folders"@) && v != Some("largest_files"@) && v != Some("search"@),
    ensures
        spec_parse(m, c, f, v, None) == default_settings(),
        spec_parse(m, c, f, v, Some(Seq::empty())) == default_settings(),
{
}

} // verus!
