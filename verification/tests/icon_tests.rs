use std::f32::consts::TAU;

use disk_flashlight::icon::{bmp_entry, ico};

/// The icon's pixels as the application draws them: a small sunburst, 4x4
/// supersampled, straight RGBA rows from the top.
fn rgba(size: u32) -> Vec<u8> {
    const CENTER: [u8; 3] = [118, 118, 118];
    let rings: [(f32, f32, &[(f32, f32, [u8; 3])]); 3] = [
        (0.30, 0.62, &[(0.00, 0.58, [232, 52, 48]), (0.595, 0.83, [245, 98, 66]), (0.845, 0.985, [214, 66, 60])]),
        (0.64, 0.82, &[(0.00, 0.34, [244, 128, 60]), (0.355, 0.55, [240, 150, 70]), (0.61, 0.76, [246, 170, 72])]),
        (0.84, 0.98, &[(0.00, 0.20, [240, 196, 60]), (0.22, 0.30, [236, 214, 90])]),
    ];
    let sample = |r: f32, turn: f32| -> Option<[u8; 3]> {
        if r < 0.28 {
            return Some(CENTER);
        }
        for (r_in, r_out, arcs) in rings.iter() {
            if r >= *r_in && r < *r_out {
                for &(a0, a1, c) in arcs.iter() {
                    if turn >= a0 && turn < a1 {
                        return Some(c);
                    }
                }
                return None;
            }
        }
        None
    };
    const SS: u32 = 4;
    let n = size as usize;
    let mut out = vec![0u8; n * n * 4];
    let half = size as f32 / 2.0;
    for y in 0..size {
        for x in 0..size {
            let mut acc = [0u32; 3];
            let mut hits = 0u32;
            for sy in 0..SS {
                for sx in 0..SS {
                    let px = x as f32 + (sx as f32 + 0.5) / SS as f32 - half;
                    let py = y as f32 + (sy as f32 + 0.5) / SS as f32 - half;
                    let r = (px * px + py * py).sqrt() / half;
                    let mut turn = px.atan2(-py) / TAU;
                    if turn < 0.0 {
                        turn += 1.0;
                    }
                    if let Some(c) = sample(r, turn) {
                        acc[0] += c[0] as u32;
                        acc[1] += c[1] as u32;
                        acc[2] += c[2] as u32;
                        hits += 1;
                    }
                }
            }
            let avg = |v: u32| v.checked_div(hits).map(|a| a as u8);
            if let (Some(r), Some(g), Some(b)) = (avg(acc[0]), avg(acc[1]), avg(acc[2])) {
                let i = (y as usize * n + x as usize) * 4;
                out[i..i + 4].copy_from_slice(&[r, g, b, (hits * 255 / (SS * SS)) as u8]);
            }
        }
    }
    out
}

#[test]
fn icon_shape() {
    let px = rgba(32);
    assert_eq!(px.len(), 32 * 32 * 4);
    // Centre is the opaque grey disc, corners are transparent.
    let c = (16 * 32 + 16) * 4;
    assert_eq!(&px[c..c + 4], &[118, 118, 118, 255]);
    assert_eq!(px[3], 0);
    let ico = ico(&[16, 32], &[rgba(16), rgba(32)]);
    assert_eq!(&ico[..6], &[0, 0, 1, 0, 2, 0]);
}

#[test]
fn directory_entries_point_at_the_images() {
    let sizes = [16u32, 256];
    let pixels = vec![vec![0u8; 16 * 16 * 4], vec![0u8; 256 * 256 * 4]];
    let file = ico(&sizes, &pixels);
    let e16 = 40 + 16 * 16 * 4 + 4 * 16;
    let e256 = 40 + 256 * 256 * 4 + 32 * 256;
    assert_eq!(file.len(), 6 + 2 * 16 + e16 + e256);
    // 16 pixels; 256 is written as 0.
    assert_eq!(&file[6..10], &[16, 16, 0, 0]);
    assert_eq!(&file[22..26], &[0, 0, 0, 0]);
    let u32_at = |o: usize| u32::from_le_bytes(file[o..o + 4].try_into().unwrap()) as usize;
    assert_eq!(u32_at(6 + 8), e16);
    assert_eq!(u32_at(6 + 12), 6 + 32);
    assert_eq!(u32_at(22 + 8), e256);
    assert_eq!(u32_at(22 + 12), 6 + 32 + e16);
}

#[test]
fn bmp_rows_are_bottom_up_bgra() {
    // 2x2: top row red, green; bottom row blue, white (half transparent).
    let px = [255, 0, 0, 255, 0, 255, 0, 255, 0, 0, 255, 255, 255, 255, 255, 128];
    let e = bmp_entry(2, &px);
    assert_eq!(&e[0..4], &40u32.to_le_bytes());
    assert_eq!(&e[4..8], &2i32.to_le_bytes());
    assert_eq!(&e[8..12], &4i32.to_le_bytes());
    assert_eq!(&e[12..16], &[1, 0, 32, 0]);
    assert_eq!(&e[40..48], &[255, 0, 0, 255, 255, 255, 255, 128]);
    assert_eq!(&e[48..56], &[0, 0, 255, 255, 0, 255, 0, 255]);
    // One 4-byte mask row per pixel row, all zero.
    assert_eq!(e.len(), 40 + 16 + 8);
    assert!(e[56..].iter().all(|&b| b == 0));
}
