use disk_flashlight::model::{Metric, Model, RawDir, RawFile, NO_NODE};

fn file(name: &str, size: u64) -> RawFile {
    RawFile { name: name.into(), size, alloc: size }
}

#[test]
fn packs_sorted_and_contiguous() {
    let raw = RawDir {
        name: "root".into(),
        files: vec![file("small", 1), file("big", 100)],
        subdirs: vec![RawDir {
            name: "sub".into(),
            files: vec![file("a", 10), file("b", 20)],
            ..Default::default()
        }],
        ..Default::default()
    };
    let m = Model::from_raw(raw, "X:\\".into(), 4096);
    assert_eq!(m.len(), 6);
    let root = m.node(0);
    assert_eq!(root.size, 131);
    assert_eq!(root.files, 4);
    assert_eq!(root.dirs, 1);
    let kids: Vec<&str> = m.children(0).map(|c| m.name(c)).collect();
    assert_eq!(kids, vec!["big", "sub", "small"]);
    let sub = m.children(0).find(|&c| m.node(c).is_dir).unwrap();
    let sk: Vec<&str> = m.children(sub).map(|c| m.name(c)).collect();
    assert_eq!(sk, vec!["b", "a"]);
    assert_eq!(m.path(m.children(sub).next().unwrap()), "X:\\sub\\b");
}

#[test]
fn largest_files_match_brute_force() {
    // Deterministic pseudo-random tree, 4 levels deep.
    let mut seed = 12345u64;
    let mut rnd = move |n: u64| {
        seed = seed.wrapping_mul(6364136223846793005).wrapping_add(1442695040888963407);
        (seed >> 33) % n
    };
    fn grow(rnd: &mut impl FnMut(u64) -> u64, depth: u32, name: String) -> RawDir {
        let files = (0..rnd(6))
            .map(|i| {
                let bits = rnd(20);
                let size = rnd(1 << bits);
                RawFile { name: format!("f{i}"), size, alloc: size.div_ceil(4096) * 4096 }
            })
            .collect();
        let subdirs = if depth == 0 {
            Vec::new()
        } else {
            (0..rnd(4)).map(|i| grow(rnd, depth - 1, format!("d{i}"))).collect()
        };
        RawDir { name, files, subdirs, ..Default::default() }
    }
    let m = Model::from_raw(grow(&mut rnd, 4, "root".into()), "X:\\".into(), 4096);
    let under = |root: u32, mut id: u32| loop {
        if id == root {
            return true;
        }
        if id == NO_NODE {
            return false;
        }
        id = m.node(id).parent;
    };
    let roots: Vec<u32> = (0..m.len() as u32).filter(|&i| m.node(i).is_dir).take(8).collect();
    for &root in &roots {
        for metric in [Metric::Logical, Metric::Physical] {
            for limit in [0, 1, 3, 10, 1000] {
                let mut all: Vec<u64> = (0..m.len() as u32)
                    .filter(|&i| !m.node(i).is_dir && under(root, i))
                    .map(|i| m.node(i).metric(metric))
                    .collect();
                all.sort_unstable_by(|a, b| b.cmp(a));
                all.truncate(limit);
                let got = m.largest_files(root, metric, limit);
                assert!(got.iter().all(|&i| !m.node(i).is_dir && under(root, i)));
                let sizes: Vec<u64> = got.iter().map(|&i| m.node(i).metric(metric)).collect();
                assert_eq!(sizes, all, "root {root}, {metric:?}, limit {limit}");
            }
        }
    }
}

#[test]
fn find_dir_by_path() {
    let raw = RawDir {
        name: "root".into(),
        files: vec![file("sub", 5)],
        subdirs: vec![RawDir {
            name: "sub".into(),
            subdirs: vec![RawDir { name: "deep".into(), ..Default::default() }],
            files: vec![file("f", 1)],
            ..Default::default()
        }],
        ..Default::default()
    };
    let m = Model::from_raw(raw, "X:\\".into(), 4096);
    let sub = m.children(0).find(|&c| m.node(c).is_dir).unwrap();
    let deep = m.children(sub).find(|&c| m.node(c).is_dir).unwrap();
    assert_eq!(m.rel_path(deep), vec!["sub", "deep"]);
    assert!(m.rel_path(0).is_empty());
    assert_eq!(m.find_dir(&m.rel_path(deep)), deep);
    assert_eq!(m.find_dir(&[]), 0);
    // A vanished directory falls back to its closest ancestor.
    assert_eq!(m.find_dir(&["sub", "gone", "x"]), sub);
    // Files are never matched, even with the same name.
    assert_eq!(m.find_dir(&["sub", "f"]), sub);
    assert_eq!(m.find_dir(&["nope"]), 0);
}

#[test]
fn finalize_computes_subtree_totals() {
    let mut raw = RawDir {
        name: "r".into(),
        files: vec![RawFile { name: "x".into(), size: 7, alloc: 4096 }],
        subdirs: vec![RawDir {
            name: "s".into(),
            files: vec![RawFile { name: "y".into(), size: 5, alloc: 8192 }],
            subdirs: vec![RawDir { name: "e".into(), ..Default::default() }],
            ..Default::default()
        }],
        ..Default::default()
    };
    raw.finalize();
    assert_eq!((raw.size, raw.alloc, raw.file_count, raw.dir_count), (12, 12288, 2, 2));
    let s = &raw.subdirs[0];
    assert_eq!((s.size, s.alloc, s.file_count, s.dir_count), (5, 8192, 1, 1));
}

#[test]
fn equal_sizes_keep_scanner_order_and_paths_join() {
    let raw = RawDir {
        name: "C:".into(),
        files: vec![file("a", 3), file("b", 3)],
        subdirs: vec![RawDir { name: "d".into(), files: vec![file("c", 3)], ..Default::default() }],
        ..Default::default()
    };
    let m = Model::from_raw(raw, "C:\\".into(), 512);
    let kids: Vec<&str> = m.children(0).map(|c| m.name(c)).collect();
    // Subdirectories come first in scanner order, then files.
    assert_eq!(kids, vec!["d", "a", "b"]);
    assert_eq!(m.path(0), "C:\\");
    assert_eq!(m.path(NO_NODE), "C:\\");
    let d = m.children(0).next().unwrap();
    let c = m.children(d).next().unwrap();
    assert_eq!(m.path(c), "C:\\d\\c");
    assert_eq!(m.cluster_size(), 512);
    assert_eq!(m.root_path(), "C:\\");
}

#[test]
fn path_without_trailing_separator() {
    let raw = RawDir {
        name: "Projects".into(),
        files: vec![file("x.txt", 1)],
        ..Default::default()
    };
    let m = Model::from_raw(raw, "D:\\Projects".into(), 4096);
    assert_eq!(m.path(1), "D:\\Projects\\x.txt");
    assert!(!m.is_empty());
    assert!(Model::default().is_empty());
}

#[test]
fn largest_files_orders_ties_by_id() {
    let raw = RawDir {
        name: "r".into(),
        files: vec![file("a", 5), file("b", 9), file("c", 5), file("d", 1)],
        ..Default::default()
    };
    let m = Model::from_raw(raw, "R:\\".into(), 1);
    let got = m.largest_files(0, Metric::Logical, 3);
    let names: Vec<&str> = got.iter().map(|&i| m.name(i)).collect();
    assert_eq!(names, vec!["b", "a", "c"]);
    assert!(m.largest_files(0, Metric::Logical, 0).is_empty());
    // A file as the root has nothing under it.
    assert!(m.largest_files(got[0], Metric::Logical, 3).is_empty());
}

#[test]
fn subtrees_are_packed_depth_first() {
    let a1 = RawDir { name: "a1".into(), files: vec![file("deep", 5)], ..Default::default() };
    let a = RawDir {
        name: "a".into(),
        files: vec![file("x", 50), file("y", 40)],
        subdirs: vec![a1],
        ..Default::default()
    };
    let b = RawDir { name: "b".into(), files: vec![file("z", 30)], ..Default::default() };
    let raw = RawDir { name: "root".into(), subdirs: vec![b, a], ..Default::default() };
    let m = Model::from_raw(raw, "X:\\".into(), 4096);
    let names: Vec<&str> = (0..m.len() as u32).map(|i| m.name(i)).collect();
    // Root, its block (a, b), then all of a's subtree before b's.
    assert_eq!(names, ["root", "a", "b", "x", "y", "a1", "deep", "z"]);
    // The nodes below each directory fill the range from its first child.
    for id in 0..m.len() as u32 {
        let n = m.node(id);
        if n.is_dir && n.files + n.dirs > 0 {
            let end = n.first_child + n.files + n.dirs;
            for d in n.first_child..end {
                let mut up = m.node(d).parent;
                while up != id && up != 0 {
                    up = m.node(up).parent;
                }
                assert!(up == id || id == 0, "node {d} is not below {id}");
            }
        }
    }
}
