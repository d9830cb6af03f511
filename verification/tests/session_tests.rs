use disk_flashlight::history::History;
use disk_flashlight::model::{Model, RawDir, RawFile};
use disk_flashlight::scan::win::{Drive, DriveKind};
use disk_flashlight::session::{carry_history, drive_entry, rescan_target, scan_target, summary, up_target};

fn tree(root: &str, with_b: bool) -> Model {
    let mut subdirs = vec![RawDir {
        name: "a".into(),
        files: vec![RawFile { name: "f".into(), size: 10, alloc: 4096 }],
        subdirs: vec![RawDir { name: "deep".into(), ..Default::default() }],
        ..Default::default()
    }];
    if with_b {
        subdirs.push(RawDir {
            name: "b".into(),
            subdirs: vec![RawDir { name: "b1".into(), ..Default::default() }],
            ..Default::default()
        });
    }
    Model::from_raw(RawDir { name: "root".into(), subdirs, ..Default::default() }, root.into(), 4096)
}

#[test]
fn rescan_of_same_root_keeps_history() {
    let old = tree(r"D:\Data", true);
    let new = tree(r"d:\data", false);
    let mut nav = History::default();
    assert!(nav.navigate(old.find_dir(&["a"])));
    assert!(nav.navigate(old.find_dir(&["b", "b1"])));
    carry_history(&mut nav, &old, &new);
    // b/b1 is gone: the view moves to its closest surviving folder, the
    // root; the back stack (oldest first) keeps the root and a.
    assert_eq!(nav.root(), 0);
    assert_eq!(nav.back_stack(), &vec![0, new.find_dir(&["a"])]);

    let mut nav = History::default();
    assert!(nav.navigate(old.find_dir(&["a", "deep"])));
    carry_history(&mut nav, &old, &new);
    assert_eq!(nav.root(), new.find_dir(&["a", "deep"]));
    assert_eq!(nav.back_stack(), &vec![0]);
}

#[test]
fn scan_of_another_root_starts_over() {
    let old = tree(r"D:\Data", true);
    let new = tree(r"E:\", true);
    let mut nav = History::default();
    assert!(nav.navigate(old.find_dir(&["a"])));
    carry_history(&mut nav, &old, &new);
    assert_eq!(nav.root(), 0);
    assert!(!nav.can_back() && !nav.can_forward());
}

#[test]
fn up_goes_to_the_parent() {
    let m = tree(r"D:\Data", true);
    let deep = m.find_dir(&["a", "deep"]);
    assert_eq!(up_target(&m, deep), Some(m.find_dir(&["a"])));
    assert_eq!(up_target(&m, 0), None);
}

fn drives() -> Vec<Drive> {
    vec![Drive {
        root: r"C:\".into(),
        label: "System".into(),
        fs: "NTFS".into(),
        kind: DriveKind::Fixed,
        total: 500 << 30,
        free: 120 << 30,
    }]
}

#[test]
fn scan_targets() {
    let d = drives();
    assert_eq!(scan_target(Some(r"E:\x"), Some(r"D:\"), &d, 0).as_deref(), Some(r"E:\x"));
    assert_eq!(scan_target(None, Some(r"D:\"), &d, 0).as_deref(), Some(r"D:\"));
    assert_eq!(scan_target(None, None, &d, 0).as_deref(), Some(r"C:\"));
    assert_eq!(scan_target(None, None, &d, usize::MAX), None);
    assert_eq!(rescan_target(None, &d, 0).as_deref(), Some(r"C:\"));
    assert_eq!(rescan_target(Some(r"D:\"), &d, 0).as_deref(), Some(r"D:\"));
}

#[test]
fn status_texts() {
    let m = tree(r"D:\Data", true);
    assert_eq!(
        summary(m.node(0)),
        "Dirs: 4   Files: 1   Size: 10 B   Alloc: 4.0 KB   Waste: 4.0 KB"
    );
    assert_eq!(drive_entry(&drives()[0]), "C: (System)  120 GB free of 500 GB");
}
