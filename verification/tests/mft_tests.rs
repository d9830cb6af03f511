use disk_flashlight::model::Model;
use disk_flashlight::scan::mft::{
    add_extension_extents, apply_fixups, attribute_list_data_segments, build_tree, check_geometry, check_runs,
    count_files, decode_runs, mft_reads,
    extension_record_offset, flatten, merge_extensions, parse_record, record0_extents, vcn_byte_to_disk, MftError,
    Rec, RunError, ATTR_ATTRIBUTE_LIST, ATTR_DATA, ATTR_END, ATTR_FILE_NAME, ATTR_FLAG_COMPRESSED, NS_DOS,
    REC_DIRECTORY, REC_IN_USE,
};

#[test]
fn runs_decode() {
    // len=0x18 clusters at lcn 0x5634; then len 0x10 at -0x10 relative;
    // then a sparse run (skipped); end.
    let p = [0x21, 0x18, 0x34, 0x56, 0x11, 0x10, 0xF0, 0x01, 0x05, 0x00];
    let r = decode_runs(&p).unwrap();
    assert_eq!(r, vec![(0x5634, 0x18), (0x5634 - 0x10, 0x10)]);
}

#[test]
fn runs_errors() {
    assert_eq!(decode_runs(&[0x09]), Err(RunError::BadHeader(0x09)));
    assert_eq!(decode_runs(&[0x90, 0x01]), Err(RunError::BadHeader(0x90)));
    assert_eq!(decode_runs(&[0x30]), Err(RunError::BadHeader(0x30)));
    assert_eq!(decode_runs(&[0x21, 0x18, 0x34]), Err(RunError::Truncated));
    // A first run at a negative cluster number.
    assert_eq!(decode_runs(&[0x11, 0x01, 0xFF]), Err(RunError::NegativeLcn));
    assert_eq!(decode_runs(&[]), Ok(vec![]));
    // Eight offset bytes, sign bit clear.
    let p = [0x81, 0x02, 1, 2, 3, 4, 5, 6, 7, 0x70, 0];
    assert_eq!(decode_runs(&p), Ok(vec![(0x7007_0605_0403_0201, 2)]));
}

/// Build a minimal 1 KiB FILE record with the given attributes.
fn record(flags: u16, base: u64, attrs: &[Vec<u8>]) -> Vec<u8> {
    let mut r = vec![0u8; 1024];
    r[0..4].copy_from_slice(b"FILE");
    r[4..6].copy_from_slice(&0x30u16.to_le_bytes()); // usa offset
    r[6..8].copy_from_slice(&3u16.to_le_bytes()); // usa count (1 + 2 sectors)
    r[0x14..0x16].copy_from_slice(&0x38u16.to_le_bytes()); // first attr
    r[0x16..0x18].copy_from_slice(&flags.to_le_bytes());
    r[0x20..0x28].copy_from_slice(&base.to_le_bytes());
    let mut p = 0x38;
    for a in attrs {
        r[p..p + a.len()].copy_from_slice(a);
        p += a.len();
    }
    r[p..p + 4].copy_from_slice(&ATTR_END.to_le_bytes());
    r[0x18..0x1C].copy_from_slice(&((p + 8) as u32).to_le_bytes());
    // Protect sector ends with USN 0xABCD, saving the real bytes in the array.
    let usn = [0xCD, 0xAB];
    r[0x30..0x32].copy_from_slice(&usn);
    for i in 1..3 {
        let end = i * 512;
        let (a, b) = (r[end - 2], r[end - 1]);
        r[0x30 + 2 * i] = a;
        r[0x31 + 2 * i] = b;
        r[end - 2..end].copy_from_slice(&usn);
    }
    r
}

fn file_name_attr(parent: u64, name: &str, ns: u8) -> Vec<u8> {
    let units: Vec<u16> = name.encode_utf16().collect();
    let mut v = vec![0u8; 0x42 + 2 * units.len()];
    v[0..8].copy_from_slice(&parent.to_le_bytes());
    v[0x40] = units.len() as u8;
    v[0x41] = ns;
    for (i, u) in units.iter().enumerate() {
        v[0x42 + 2 * i..0x44 + 2 * i].copy_from_slice(&u.to_le_bytes());
    }
    resident(ATTR_FILE_NAME, &v)
}

fn resident(kind: u32, value: &[u8]) -> Vec<u8> {
    let len = (0x18 + value.len()).div_ceil(8) * 8;
    let mut a = vec![0u8; len];
    a[0..4].copy_from_slice(&kind.to_le_bytes());
    a[4..8].copy_from_slice(&(len as u32).to_le_bytes());
    a[0x10..0x14].copy_from_slice(&(value.len() as u32).to_le_bytes());
    a[0x14..0x16].copy_from_slice(&0x18u16.to_le_bytes());
    a[0x18..0x18 + value.len()].copy_from_slice(value);
    a
}

fn non_resident_data(size: u64, alloc: u64, compressed: Option<u64>) -> Vec<u8> {
    let mut a = vec![0u8; 0x50];
    a[0..4].copy_from_slice(&ATTR_DATA.to_le_bytes());
    a[4..8].copy_from_slice(&0x50u32.to_le_bytes());
    a[8] = 1;
    if compressed.is_some() {
        a[0x0C..0x0E].copy_from_slice(&ATTR_FLAG_COMPRESSED.to_le_bytes());
    }
    a[0x20..0x22].copy_from_slice(&0x48u16.to_le_bytes());
    a[0x28..0x30].copy_from_slice(&alloc.to_le_bytes());
    a[0x30..0x38].copy_from_slice(&size.to_le_bytes());
    a[0x38..0x40].copy_from_slice(&size.to_le_bytes());
    a[0x40..0x48].copy_from_slice(&compressed.unwrap_or(0).to_le_bytes());
    a
}

/// A non-resident unnamed `$DATA` extent starting at `vcn` whose mapping
/// pairs are `runs`.
fn data_extent(vcn: u64, runs: &[u8]) -> Vec<u8> {
    let len = (0x40 + runs.len()).div_ceil(8) * 8;
    let mut a = vec![0u8; len];
    a[0..4].copy_from_slice(&ATTR_DATA.to_le_bytes());
    a[4..8].copy_from_slice(&(len as u32).to_le_bytes());
    a[8] = 1;
    a[0x10..0x18].copy_from_slice(&vcn.to_le_bytes());
    a[0x20..0x22].copy_from_slice(&0x40u16.to_le_bytes());
    a[0x40..0x40 + runs.len()].copy_from_slice(runs);
    a
}

#[test]
fn parses_names_sizes_and_skips_dos_names() {
    let mut r = record(
        REC_IN_USE,
        0,
        &[
            file_name_attr(5 | (3 << 48), "LONGNA~1.TXT", NS_DOS),
            file_name_attr(5 | (3 << 48), "long name.txt", 1),
            non_resident_data(10_000, 12_288, None),
        ],
    );
    let p = parse_record(&mut r);
    assert!(p.in_use && !p.is_dir);
    assert_eq!(p.parent, 5);
    assert_eq!(p.name.as_deref(), Some("long name.txt"));
    assert_eq!((p.size, p.alloc), (10_000, 12_288));

    let mut r = record(REC_IN_USE, 0, &[file_name_attr(5, "small", 3), resident(ATTR_DATA, b"hello")]);
    let p = parse_record(&mut r);
    assert_eq!((p.size, p.alloc), (5, 0));

    let mut r = record(
        REC_IN_USE,
        0,
        &[file_name_attr(5, "packed", 1), non_resident_data(1 << 20, 1 << 20, Some(64 << 10))],
    );
    let p = parse_record(&mut r);
    assert_eq!((p.size, p.alloc), (1 << 20, 64 << 10));
}

#[test]
fn rejects_torn_and_free_records() {
    let mut r = record(REC_IN_USE, 0, &[file_name_attr(5, "x", 1)]);
    r[511] ^= 0xFF; // torn write
    assert!(!parse_record(&mut r).in_use);
    let mut r = record(0, 0, &[file_name_attr(5, "x", 1)]);
    assert!(!parse_record(&mut r).in_use);
}

#[test]
fn builds_tree_with_extensions() {
    let dir = REC_IN_USE | REC_DIRECTORY;
    let mut raw: Vec<Vec<u8>> = (0..10).map(|_| vec![0u8; 1024]).collect();
    raw[5] = record(dir, 0, &[file_name_attr(5, ".", 3)]);
    raw[6] = record(dir, 0, &[file_name_attr(5, "Users", 1)]);
    raw[7] = record(REC_IN_USE, 0, &[file_name_attr(6, "big.bin", 1)]);
    // Extension record of 7 carrying its $DATA.
    raw[8] = record(REC_IN_USE, 7, &[non_resident_data(5000, 8192, None)]);
    raw[9] = record(REC_IN_USE, 0, &[file_name_attr(5, "root.txt", 1), resident(ATTR_DATA, b"abc")]);
    let mut recs: Vec<Rec> = raw.iter_mut().map(|r| parse_record(r)).collect();
    merge_extensions(&mut recs);
    let m = Model::from_raw(build_tree(recs, 'X'), "X:\\".into(), 4096);
    let root = m.node(0);
    assert_eq!(m.name(0), "X:");
    assert_eq!((root.files, root.dirs), (2, 1));
    assert_eq!(root.size, 5003);
    let first = m.children(0).next().unwrap();
    assert_eq!(m.name(first), "Users");
    assert_eq!(m.path(m.children(first).next().unwrap()), "X:\\Users\\big.bin");
}

#[test]
fn fixups_restore_sector_ends() {
    let mut r = record(REC_IN_USE, 0, &[]);
    assert_eq!(&r[510..512], &[0xCD, 0xAB]);
    assert!(apply_fixups(&mut r));
    assert_eq!(&r[510..512], &[0, 0]);
    assert_eq!(&r[1022..1024], &[0, 0]);
    // Too short for a header, or an array that does not fit.
    assert!(!apply_fixups(&mut [0u8; 7]));
    let mut r = record(REC_IN_USE, 0, &[]);
    r[6..8].copy_from_slice(&0u16.to_le_bytes());
    assert!(!apply_fixups(&mut r));
}

#[test]
fn surrogate_pairs_and_lone_surrogates_in_names() {
    let mut r = record(REC_IN_USE, 0, &[file_name_attr(5, "a\u{1F600}b", 1)]);
    assert_eq!(parse_record(&mut r).name.as_deref(), Some("a\u{1F600}b"));
    // A lone high surrogate becomes U+FFFD.
    let mut v = vec![0u8; 0x42 + 4];
    v[0] = 5;
    v[0x40] = 2;
    v[0x41] = 1;
    v[0x42..0x44].copy_from_slice(&0xD800u16.to_le_bytes());
    v[0x44..0x46].copy_from_slice(&(b'x' as u16).to_le_bytes());
    let mut r = record(REC_IN_USE, 0, &[resident(ATTR_FILE_NAME, &v)]);
    assert_eq!(parse_record(&mut r).name.as_deref(), Some("\u{FFFD}x"));
}

fn rec(in_use: bool, base: u32, name: Option<&str>, data: Option<(u64, u64)>) -> Rec {
    let mut r = Rec::default();
    r.in_use = in_use;
    r.base = base;
    r.parent = 5;
    r.name = name.map(String::from);
    if let Some((size, alloc)) = data {
        r.has_data = true;
        r.size = size;
        r.alloc = alloc;
    }
    r
}

#[test]
fn first_extension_fills_what_the_base_lacks() {
    let mut recs = vec![
        rec(false, 0, None, None),
        rec(true, 0, None, None),
        rec(true, 0, Some("kept"), Some((1, 4096))),
        rec(true, 1, Some("late"), Some((42, 4096))),
        rec(true, 1, Some("other"), Some((7, 0))),
        rec(true, 2, Some("alias"), Some((9, 9))),
        rec(true, 0, Some("free base"), None),
        rec(true, 9, Some("dangling"), None),
    ];
    recs[6].in_use = false;
    merge_extensions(&mut recs);
    assert_eq!(recs[1].name.as_deref(), Some("late"));
    assert!(recs[1].has_data);
    assert_eq!((recs[1].size, recs[1].alloc), (42, 4096));
    // The base already had a name and data: nothing changes but the
    // extension record is emptied.
    assert_eq!(recs[2].name.as_deref(), Some("kept"));
    assert_eq!((recs[2].size, recs[2].alloc), (1, 4096));
    for i in [3, 4, 5] {
        assert!(!recs[i].in_use && recs[i].name.is_none() && !recs[i].has_data);
    }
    // A base outside the table is left alone.
    assert!(recs[7].in_use);
    assert_eq!(recs[7].name.as_deref(), Some("dangling"));
}

#[test]
fn attribute_list_segments() {
    let mut v = vec![0u8; 0x40];
    v[0..4].copy_from_slice(&ATTR_DATA.to_le_bytes());
    v[4..6].copy_from_slice(&0x20u16.to_le_bytes());
    v[0x10..0x18].copy_from_slice(&(17u64 | (9 << 48)).to_le_bytes());
    v[0x20..0x24].copy_from_slice(&ATTR_FILE_NAME.to_le_bytes());
    v[0x24..0x26].copy_from_slice(&0x20u16.to_le_bytes());
    v[0x30..0x38].copy_from_slice(&99u64.to_le_bytes());
    assert_eq!(attribute_list_data_segments(&v), vec![17]);
    // A zero length ends the list.
    v[4..6].copy_from_slice(&0u16.to_le_bytes());
    assert_eq!(attribute_list_data_segments(&v), Vec::<u64>::new());
}

#[test]
fn offsets_through_runs() {
    let runs = [(100, 2), (10, 3)];
    assert_eq!(vcn_byte_to_disk(&runs, 0, 4096), Some(100 * 4096));
    assert_eq!(vcn_byte_to_disk(&runs, 2 * 4096 + 5, 4096), Some(10 * 4096 + 5));
    assert_eq!(vcn_byte_to_disk(&runs, 5 * 4096, 4096), None);
}

#[test]
fn flatten_orders_extents_by_vcn() {
    let extents = vec![(8, vec![(50, 4)]), (0, vec![(10, 2), (20, 6)]), (8, vec![(60, 1)])];
    assert_eq!(flatten(&extents), vec![(10, 2), (20, 6), (50, 4), (60, 1)]);
    assert_eq!(extension_record_offset(&extents, 3, 1024, 4096), Some(10 * 4096 + 3072));
    assert_eq!(extension_record_offset(&extents, 9, 1024, 4096), Some(20 * 4096 + 1024));
    assert_eq!(extension_record_offset(&extents, u64::MAX, 1024, 4096), None);
}

#[test]
fn record0_gives_extents_and_segments() {
    let mut list = vec![0u8; 0x20];
    list[0..4].copy_from_slice(&ATTR_DATA.to_le_bytes());
    list[4..6].copy_from_slice(&0x20u16.to_le_bytes());
    list[0x10..0x18].copy_from_slice(&7u64.to_le_bytes());
    let mut r = record(
        REC_IN_USE,
        0,
        &[data_extent(0, &[0x11, 0x04, 0x20, 0x00]), resident(ATTR_ATTRIBUTE_LIST, &list)],
    );
    let (extents, segs) = record0_extents(&mut r).unwrap();
    assert_eq!(extents, vec![(0, vec![(0x20, 4)])]);
    assert_eq!(segs, vec![7]);

    let mut none = record(REC_IN_USE, 0, &[file_name_attr(5, "x", 1)]);
    assert_eq!(record0_extents(&mut none), Err(MftError::NoData));
    let mut torn = record(REC_IN_USE, 0, &[]);
    torn[1023] ^= 1;
    assert_eq!(record0_extents(&mut torn), Err(MftError::CorruptRecord0));
    let mut bad = record(REC_IN_USE, 0, &[data_extent(0, &[0x09, 0x00])]);
    assert_eq!(record0_extents(&mut bad), Err(MftError::Runs(RunError::BadHeader(0x09))));

    let mut extents = extents;
    let mut ext = record(
        REC_IN_USE,
        0,
        &[data_extent(4, &[0x11, 0x02, 0x10, 0x00]), data_extent(0, &[0x11, 0x09, 0x09, 0x00])],
    );
    assert_eq!(add_extension_extents(&mut extents, &mut ext), Ok(()));
    // The extent at VCN 0 was known already and is not taken again.
    assert_eq!(extents, vec![(0, vec![(0x20, 4)]), (4, vec![(0x10, 2)])]);
}

#[test]
fn geometry() {
    assert!(check_geometry(4096, 1024));
    assert!(check_geometry(1, 512));
    assert!(!check_geometry(3000, 1024));
    assert!(!check_geometry(0, 1024));
    assert!(!check_geometry(4096, 256));
    assert!(!check_geometry(4096, 65537));
}

#[test]
fn mft_read_plan() {
    // Two runs of 4 KiB clusters: 3 clusters at lcn 10, then 2 at lcn 100.
    let runs = [(10, 3), (100, 2)];
    // Reads of at most 8 KiB, 1 KiB records, the whole 20 KiB in use.
    assert_eq!(
        mft_reads(&runs, 4096, 20480, 1024, 8192),
        vec![(40960, 8192, 0), (49152, 4096, 8), (409600, 8192, 12)]
    );
    // Only the first 14 KiB in use: the second run is read only in part.
    assert_eq!(mft_reads(&runs, 4096, 14336, 1024, 8192), vec![(40960, 8192, 0), (49152, 4096, 8), (409600, 2048, 12)]);
    // The reads stream every byte in use once: the valid length, or all of
    // the runs when they hold less.
    let total = |mft_len: u64| mft_reads(&runs, 4096, mft_len, 1024, 3000).iter().map(|r| r.1).sum::<u64>();
    assert_eq!(total(14336), 14336);
    assert_eq!(total(20480), 20480);
    assert_eq!(total(1 << 20), 20480);
    // Nothing in use, nothing read.
    assert!(mft_reads(&runs, 4096, 0, 1024, 8192).is_empty());
    assert!(mft_reads(&[], 4096, 4096, 1024, 8192).is_empty());
}

#[test]
fn run_offsets_must_fit() {
    assert!(check_runs(&[(10, 3), (100, 2)], 4096));
    assert!(check_runs(&[], 4096));
    assert!(!check_runs(&[(u64::MAX / 4096, 2)], 4096));
    assert!(!check_runs(&[(1, u64::MAX)], 2));
}

#[test]
fn files_counted_in_a_block() {
    let mut dir = rec(true, 0, Some("d"), None);
    dir.is_dir = true;
    let recs = vec![
        rec(true, 0, Some("a"), Some((100, 4096))),
        rec(true, 7, None, Some((50, 4096))),
        rec(false, 0, Some("gone"), Some((70, 4096))),
        dir,
        rec(true, 0, Some("b"), Some((5, 4096))),
    ];
    assert_eq!(count_files(&recs), Some((2, 105)));
    assert_eq!(count_files(&[]), Some((0, 0)));
    let huge = vec![rec(true, 0, Some("a"), Some((u64::MAX, 0))), rec(true, 0, Some("b"), Some((1, 0)))];
    assert_eq!(count_files(&huge), None);
}

#[test]
fn hard_linked_file_counted_once() {
    let dir = REC_IN_USE | REC_DIRECTORY;
    let mut raw: Vec<Vec<u8>> = (0..8).map(|_| vec![0u8; 1024]).collect();
    raw[5] = record(dir, 0, &[file_name_attr(5, ".", 3)]);
    raw[6] = record(dir, 0, &[file_name_attr(5, "a", 1)]);
    // One record with two names (a hard link in `a` and one at the root).
    raw[7] = record(
        REC_IN_USE,
        0,
        &[file_name_attr(6, "x.bin", 1), file_name_attr(5, "y.bin", 1), resident(ATTR_DATA, b"0123456789")],
    );
    let mut recs: Vec<Rec> = raw.iter_mut().map(|r| parse_record(r)).collect();
    merge_extensions(&mut recs);
    let m = Model::from_raw(build_tree(recs, 'X'), "X:\\".into(), 4096);
    let root = m.node(0);
    assert_eq!((root.files, root.dirs), (1, 1));
    assert_eq!(root.size, 10);
    let a = m.children(0).next().unwrap();
    assert_eq!(m.path(m.children(a).next().unwrap()), "X:\\a\\x.bin");
}
