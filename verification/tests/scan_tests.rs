use disk_flashlight::scan::{after_mft_error, try_mft_first, ScanStep};
use disk_flashlight::scan::walk::{
    check_listing, file_alloc, round_up, sort_listing, DirEntry, FILE_ATTRIBUTE_COMPRESSED, FILE_ATTRIBUTE_DIRECTORY,
    FILE_ATTRIBUTE_REPARSE_POINT, FILE_ATTRIBUTE_SPARSE_FILE,
};
use disk_flashlight::scan::win::{
    cluster_bytes, drive_index, drive_kind, drive_roots, elevate_for_mft, eq_ignore_ascii_case, explorer_arg,
    on_ntfs_drive, size_from_halves, Drive, DriveKind,
};
use disk_flashlight::utf16::{decode_utf16_units, text_of_wide, wide};

fn drive(root: &str, label: &str, fs: &str, kind: DriveKind) -> Drive {
    Drive { root: root.into(), label: label.into(), fs: fs.into(), kind, total: 100, free: 40 }
}

#[test]
fn drive_names() {
    assert_eq!(drive(r"C:\", "System", "NTFS", DriveKind::Fixed).display(), "C: (System)");
    assert_eq!(drive(r"D:\", "", "NTFS", DriveKind::Fixed).display(), "D: (Local Disk)");
    assert_eq!(drive(r"E:\", "", "FAT32", DriveKind::Removable).display(), "E: (Removable)");
    assert_eq!(drive(r"F:\", "", "", DriveKind::Remote).display(), "F: (Network)");
    assert_eq!(drive(r"G:\", "", "", DriveKind::CdRom).display(), "G: (CD-ROM)");
    assert_eq!(drive(r"R:\", "", "", DriveKind::RamDisk).display(), "R: (RAM disk)");
    assert_eq!(drive(r"U:\", "", "", DriveKind::Unknown).display(), "U: (Local Disk)");
}

#[test]
fn case_insensitive_comparison() {
    assert!(eq_ignore_ascii_case("NTFS", "ntfs"));
    assert!(eq_ignore_ascii_case(r"c:\", r"C:\"));
    assert!(!eq_ignore_ascii_case("NTFS", "NTFS "));
    assert!(!eq_ignore_ascii_case("é", "É"));
}

#[test]
fn ntfs_targets() {
    let drives = vec![drive(r"C:\", "", "NTFS", DriveKind::Fixed), drive(r"E:\", "", "exFAT", DriveKind::Removable)];
    assert!(on_ntfs_drive(r"c:\", &drives));
    assert!(on_ntfs_drive("C:", &drives));
    // A subdirectory is walked in any case.
    assert!(!on_ntfs_drive(r"C:\Users", &drives));
    assert!(!on_ntfs_drive(r"E:\", &drives));
    assert!(!on_ntfs_drive(r"Z:\", &drives));
    assert!(!on_ntfs_drive(r"\\server\share", &drives));
}

#[test]
fn mft_relaunch_only_where_it_helps() {
    let drives = vec![drive(r"C:\", "", "ntfs", DriveKind::Fixed), drive(r"E:\", "", "FAT32", DriveKind::Removable)];
    assert_eq!(elevate_for_mft(false, None, &drives).as_deref(), Some("--mft"));
    assert_eq!(elevate_for_mft(false, Some(r"C:\"), &drives).as_deref(), Some(r"--mft C:\"));
    assert_eq!(elevate_for_mft(false, Some("c:"), &drives).as_deref(), Some("--mft c:"));
    assert_eq!(elevate_for_mft(false, Some(r"C:\My Files\"), &drives), None);
    assert_eq!(elevate_for_mft(false, Some(r"E:\"), &drives), None);
    assert_eq!(elevate_for_mft(true, None, &drives), None);
}

#[test]
fn drive_positions() {
    let drives = vec![drive(r"C:\", "", "NTFS", DriveKind::Fixed), drive(r"D:\", "", "NTFS", DriveKind::Fixed)];
    assert_eq!(drive_index(&drives, r"d:\"), 1);
    assert_eq!(drive_index(&drives, r"D:\Projects"), usize::MAX);
    assert_eq!(drive_index(&[], r"C:\"), usize::MAX);
}

#[test]
fn cluster_rounding() {
    assert_eq!(round_up(0, 4096), 0);
    assert_eq!(round_up(1, 4096), 4096);
    assert_eq!(round_up(4096, 4096), 4096);
    assert_eq!(round_up(4097, 4096), 8192);
    assert_eq!(round_up(u64::MAX, 1), u64::MAX);
}

#[test]
fn allocation_of_compressed_and_sparse_files() {
    assert_eq!(file_alloc(10_000, 0, None, 4096), 12_288);
    assert_eq!(file_alloc(10_000, FILE_ATTRIBUTE_COMPRESSED, Some(3000), 4096), 4096);
    assert_eq!(file_alloc(10_000, FILE_ATTRIBUTE_SPARSE_FILE, Some(0), 4096), 0);
    assert_eq!(file_alloc(10_000, FILE_ATTRIBUTE_COMPRESSED, None, 4096), 12_288);
    // The on-disk size only counts for compressed or sparse files.
    assert_eq!(file_alloc(10_000, 0x20, Some(1), 4096), 12_288);
}

#[test]
fn mft_first_only_for_volume_roots() {
    assert!(try_mft_first(r"C:\", true));
    assert!(!try_mft_first(r"C:\", false));
    assert!(!try_mft_first(r"C:\Users", true));
}

#[test]
fn utf16_both_ways() {
    assert_eq!(wide("C:\\"), vec![0x43, 0x3A, 0x5C, 0]);
    assert_eq!(wide("\u{1F600}"), vec![0xD83D, 0xDE00, 0]);
    assert_eq!(wide(""), vec![0]);
    let w = wide("é\u{1F600}x");
    assert_eq!(decode_utf16_units(&w[..w.len() - 1]), "é\u{1F600}x");
    assert_eq!(decode_utf16_units(&[0xDE00, 0x41, 0xD83D]), "\u{FFFD}A\u{FFFD}");
    let std_wide: Vec<u16> = "path with ünïcode \u{10FFFF}".encode_utf16().chain(std::iter::once(0)).collect();
    assert_eq!(wide("path with ünïcode \u{10FFFF}"), std_wide);
}

#[test]
fn drive_letters_from_mask() {
    // Bits 2 (C), 3 (D) and 25 (Z).
    assert_eq!(drive_roots((1 << 2) | (1 << 3) | (1 << 25)), vec![r"C:\", r"D:\", r"Z:\"]);
    assert_eq!(drive_roots(1), vec![r"A:\"]);
    assert!(drive_roots(0).is_empty());
    // Bits above Z name no drive.
    assert!(drive_roots(1 << 26).is_empty());
}

#[test]
fn drive_kinds_from_type_codes() {
    assert_eq!(drive_kind(2), DriveKind::Removable);
    assert_eq!(drive_kind(3), DriveKind::Fixed);
    assert_eq!(drive_kind(4), DriveKind::Remote);
    assert_eq!(drive_kind(5), DriveKind::CdRom);
    assert_eq!(drive_kind(6), DriveKind::RamDisk);
    assert_eq!(drive_kind(0), DriveKind::Unknown);
    assert_eq!(drive_kind(1), DriveKind::Unknown);
    assert_eq!(drive_kind(7), DriveKind::Unknown);
}

#[test]
fn cluster_size_from_geometry() {
    assert_eq!(cluster_bytes(true, 8, 512), 4096);
    assert_eq!(cluster_bytes(true, 128, 512), 65536);
    assert_eq!(cluster_bytes(false, 8, 512), 4096);
    assert_eq!(cluster_bytes(true, 0, 512), 4096);
    assert_eq!(cluster_bytes(true, 1, 0), 4096);
    assert_eq!(cluster_bytes(true, u32::MAX, u32::MAX), u32::MAX as u64 * u32::MAX as u64);
}

#[test]
fn compressed_size_halves() {
    assert_eq!(size_from_halves(0, 1234), 1234);
    assert_eq!(size_from_halves(1, 0), 1 << 32);
    assert_eq!(size_from_halves(2, 5), (2 << 32) + 5);
    assert_eq!(size_from_halves(u32::MAX, u32::MAX), u64::MAX);
}

#[test]
fn explorer_arguments() {
    assert_eq!(explorer_arg(r"C:\", true), r#""C:\""#);
    assert_eq!(explorer_arg(r"D:\My Files\a.txt", false), r#"/select,"D:\My Files\a.txt""#);
}

#[test]
fn text_of_nul_terminated_buffers() {
    let mut buf = [0u16; 8];
    for (i, u) in "Data".encode_utf16().enumerate() {
        buf[i] = u;
    }
    assert_eq!(text_of_wide(&buf), "Data");
    // A buffer without a terminating NUL gives no text.
    assert_eq!(text_of_wide(&[0x41, 0x42]), "");
    assert_eq!(text_of_wide(&[]), "");
    assert_eq!(text_of_wide(&[0, 0x41]), "");
    assert_eq!(text_of_wide(&[0x41, 0xD800, 0x42, 0]), "A\u{FFFD}B");
}

fn entry(name: &str, attrs: u32, size: u64) -> DirEntry {
    DirEntry { name: name.into(), attrs, size }
}

#[test]
fn listing_sorts_files_dirs_and_links() {
    let entries = vec![
        entry("a.txt", 0, 100),
        entry("sub", FILE_ATTRIBUTE_DIRECTORY, 0),
        entry("link", FILE_ATTRIBUTE_DIRECTORY | FILE_ATTRIBUTE_REPARSE_POINT, 0),
        entry("file-link", FILE_ATTRIBUTE_REPARSE_POINT, 50),
        entry("packed.bin", FILE_ATTRIBUTE_COMPRESSED, 10_000),
        entry("holes.img", FILE_ATTRIBUTE_SPARSE_FILE, 1 << 20),
        entry("empty", 0, 0),
    ];
    let needs: Vec<bool> = entries.iter().map(|e| e.needs_compressed_size()).collect();
    assert_eq!(needs, [false, false, false, false, true, true, false]);
    let compressed = vec![None, None, None, None, Some(3000), None, None];
    assert!(check_listing(&entries, &compressed, 4096));
    let l = sort_listing(&entries, &compressed, 4096);
    let files: Vec<(&str, u64, u64)> = l.files.iter().map(|f| (f.name.as_str(), f.size, f.alloc)).collect();
    assert_eq!(
        files,
        [("a.txt", 100, 4096), ("packed.bin", 10_000, 4096), ("holes.img", 1 << 20, 1 << 20), ("empty", 0, 0)]
    );
    assert_eq!(l.subdirs, ["sub"]);
    assert_eq!(l.bytes, 100 + 10_000 + (1 << 20));
}

#[test]
fn listing_that_overflows_is_refused() {
    let too_big = vec![entry("a", 0, u64::MAX), entry("b", 0, 1)];
    assert!(!check_listing(&too_big, &vec![None, None], 1));
    // Rounding up to the next cluster would pass 2^64.
    let unroundable = vec![entry("a", 0, u64::MAX - 1)];
    assert!(!check_listing(&unroundable, &vec![None], 4096));
    // A link of any size is skipped and counts for nothing.
    let link = vec![entry("a", FILE_ATTRIBUTE_REPARSE_POINT, u64::MAX), entry("b", 0, 1)];
    assert!(check_listing(&link, &vec![None, None], 1));
}

#[test]
fn mft_failure_falls_back_unless_cancelled() {
    assert_eq!(after_mft_error(true), ScanStep::Fail);
    assert_eq!(after_mft_error(false), ScanStep::Walk);
}
