use disk_flashlight::history::History;
use disk_flashlight::model::{Metric, Model, RawDir, RawFile};
use disk_flashlight::ui::chart::{hovered_item, menu_target, primary_click, ChartAction, ChartHit};
use disk_flashlight::ui::files::{folder_under, FilesView, LIMIT};
use disk_flashlight::ui::search::SearchView;
use disk_flashlight::ui::tree::{TreeAction, TreeView};

fn dir(name: &str, size: u64, subdirs: Vec<RawDir>) -> RawDir {
    // Sizes set the order: a directory's own `size` is recomputed from
    // files, so give each one a file of that size.
    RawDir {
        name: name.into(),
        files: vec![RawFile { name: "f".into(), size, alloc: size }],
        subdirs,
        ..Default::default()
    }
}

fn rows(t: &mut TreeView, m: &Model) -> Vec<String> {
    t.rebuild(m, Metric::Logical);
    t.rows().iter().map(|&(id, _)| m.name(id).to_string()).collect()
}

fn sample() -> Model {
    let raw = dir(
        "root",
        1,
        vec![
            dir("a", 30, vec![dir("a1", 20, vec![dir("deep", 1, vec![])]), dir("a2", 10, vec![])]),
            dir("b", 5, vec![dir("b1", 1, vec![])]),
        ],
    );
    Model::from_raw(raw, "X:\\".into(), 1)
}

#[test]
fn navigation_collapses_everything_off_the_path() {
    let m = sample();
    let id = |path: &[&str]| m.find_dir(path);
    let mut t = TreeView::default();
    assert_eq!(rows(&mut t, &m), ["root", "a", "b"]);

    // b is expanded by hand, then the chart moves into a1 (inside a).
    t.toggle(id(&["b"]));
    assert_eq!(rows(&mut t, &m), ["root", "a", "b", "b1"]);
    t.reveal_node(&m, id(&["a", "a1"]));
    assert_eq!(rows(&mut t, &m), ["root", "a", "a1", "deep", "a2", "b"]);

    // Up to a: a1 collapses again.
    t.reveal_node(&m, id(&["a"]));
    assert_eq!(rows(&mut t, &m), ["root", "a", "a1", "a2", "b"]);
}

#[test]
fn rows_carry_depths_and_toggle_collapses() {
    let m = sample();
    let a1 = m.find_dir(&["a", "a1"]);
    let mut t = TreeView::default();
    t.reveal_node(&m, a1);
    t.refresh(&m, Metric::Logical);
    let depths: Vec<u16> = t.rows().iter().map(|&(_, d)| d).collect();
    assert_eq!(depths, vec![0, 1, 2, 3, 2, 1]);
    assert_eq!(t.take_scroll_to(), Some(a1));
    assert_eq!(t.take_scroll_to(), None);
    let a = m.find_dir(&["a"]);
    assert!(t.is_expanded(a));
    t.toggle(a);
    assert!(!t.is_expanded(a));
    t.refresh(&m, Metric::Logical);
    assert_eq!(rows(&mut t, &m), ["root", "a", "b"]);
    assert_eq!(t.row_of(m.find_dir(&["b"])), Some(2));
    assert_eq!(t.row_of(a1), None);
}

#[test]
fn hover_peeks_and_following_off_drops_the_peek() {
    let m = sample();
    let deep = m.find_dir(&["a", "a1", "deep"]);
    let mut t = TreeView::default();
    // A file hovered in the chart shows its folder.
    let file_in_deep = m.children(deep).next().unwrap();
    assert!(!m.node(file_in_deep).is_dir);
    assert_eq!(t.follow(&m, Some(file_in_deep)), Some(deep));
    assert_eq!(rows(&mut t, &m), ["root", "a", "a1", "deep", "a2", "b"]);
    assert_eq!(t.take_ensure_visible(), Some(deep));
    // Collapsing a peeked directory takes it off the peek.
    let a1 = m.find_dir(&["a", "a1"]);
    t.toggle(a1);
    assert_eq!(rows(&mut t, &m), ["root", "a", "a1", "a2", "b"]);
    t.follow_hover = false;
    assert_eq!(t.follow(&m, Some(deep)), Some(deep));
    assert_eq!(rows(&mut t, &m), ["root", "a", "b"]);
    assert_eq!(t.follow(&m, None), None);
}

#[test]
fn reset_keeps_follow_setting() {
    let m = sample();
    let mut t = TreeView::default();
    t.follow_hover = false;
    t.reveal_node(&m, m.find_dir(&["b"]));
    t.reset();
    assert!(!t.follow_hover);
    assert_eq!(rows(&mut t, &m), ["root", "a", "b"]);
}

#[test]
fn physical_metric_reorders_subdirectories() {
    let raw = RawDir {
        name: "root".into(),
        subdirs: vec![
            RawDir {
                name: "big_logical".into(),
                files: vec![RawFile { name: "f".into(), size: 100, alloc: 100 }],
                ..Default::default()
            },
            RawDir {
                name: "big_physical".into(),
                files: vec![RawFile { name: "f".into(), size: 10, alloc: 8192 }],
                ..Default::default()
            },
        ],
        ..Default::default()
    };
    let m = Model::from_raw(raw, "X:\\".into(), 4096);
    let mut t = TreeView::default();
    t.refresh(&m, Metric::Logical);
    let names = |t: &TreeView| -> Vec<String> { t.rows().iter().map(|&(id, _)| m.name(id).to_string()).collect() };
    assert_eq!(names(&t), ["root", "big_logical", "big_physical"]);
    t.refresh(&m, Metric::Physical);
    assert_eq!(names(&t), ["root", "big_physical", "big_logical"]);
}

#[test]
fn folders_relative_to_a_root() {
    let m = sample();
    let deep = m.find_dir(&["a", "a1", "deep"]);
    let f = m.children(deep).next().unwrap();
    assert_eq!(folder_under(&m, 0, f), "a\\a1\\deep");
    assert_eq!(folder_under(&m, m.find_dir(&["a"]), f), "a1\\deep");
    assert_eq!(folder_under(&m, deep, f), "");
    // A root that is not an ancestor: the whole way up to the scan root.
    assert_eq!(folder_under(&m, m.find_dir(&["b"]), f), "root\\a\\a1\\deep");
}

#[test]
fn largest_files_view() {
    let m = sample();
    let mut v = FilesView::default();
    v.refresh(&m, 0, Metric::Logical);
    let listed: Vec<(String, String)> =
        v.rows().iter().map(|(id, folder)| (m.path(*id), folder.clone())).collect();
    assert_eq!(listed.len(), 7);
    assert_eq!(listed[0], ("X:\\a\\f".to_string(), "a".to_string()));
    assert_eq!(listed[1], ("X:\\a\\a1\\f".to_string(), "a\\a1".to_string()));
    let id = v.rows()[1].0;
    assert_eq!(v.click(&m, id), m.node(id).parent);
    assert_eq!(v.selected(), Some(id));
    // The same root and metric keep the rows; another root rebuilds them
    // and asks to scroll to the selection.
    assert!(!v.take_scroll_to_selected());
    let a1 = m.find_dir(&["a", "a1"]);
    v.refresh(&m, a1, Metric::Logical);
    assert_eq!(v.rows().len(), 2);
    assert_eq!(v.rows()[0], (id, String::new()));
    assert!(v.take_scroll_to_selected());
    v.reset();
    assert!(v.rows().is_empty() && v.selected().is_none());
    assert_eq!(LIMIT, 100);
}

#[test]
fn search_reset_keeps_query() {
    let mut s = SearchView::default();
    s.query = "report".to_string();
    s.focus = true;
    s.reset();
    assert_eq!(s.query, "report");
    assert!(!s.focus);
}

#[test]
fn chart_clicks() {
    let m = sample();
    let a = m.find_dir(&["a"]);
    let f = m.children(a).find(|&c| !m.node(c).is_dir).unwrap();
    assert_eq!(primary_click(&m, ChartHit::Center), (ChartAction::Up, false));
    assert_eq!(primary_click(&m, ChartHit::Item(a)), (ChartAction::Navigate(a), false));
    assert_eq!(primary_click(&m, ChartHit::Item(f)), (ChartAction::Nothing, false));
    assert_eq!(primary_click(&m, ChartHit::Group), (ChartAction::Nothing, true));
    assert_eq!(primary_click(&m, ChartHit::Free), (ChartAction::Nothing, false));
    assert_eq!(menu_target(ChartHit::Center, 7), Some(7));
    assert_eq!(menu_target(ChartHit::Item(3), 7), Some(3));
    assert_eq!(menu_target(ChartHit::Group, 7), None);
    assert_eq!(hovered_item(Some(4), ChartHit::Item(3)), Some(4));
    assert_eq!(hovered_item(None, ChartHit::Item(3)), Some(3));
    assert_eq!(hovered_item(None, ChartHit::Group), None);
}

#[test]
fn tree_action_default_is_empty() {
    let a = TreeAction::default();
    assert!(a.selected.is_none() && a.hovered.is_none());
    let _ = History::default();
}
