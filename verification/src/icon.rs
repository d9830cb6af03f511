//! The application icon as a multi-resolution `.ico` file, from its RGBA
//! pixels at each size.
use vstd::prelude::*;

verus! {

/// The `n` little-endian bytes of `v`.
pub open spec fn le_of(v: nat, n: nat) -> Seq<u8>
    decreases n,
{
    if n == 0 {
        Seq::empty()
    } else {
        seq![(v % 256) as u8] + le_of(v / 256, (n - 1) as nat)
    }
}

/// `n` zero bytes.
pub open spec fn zeros(n: nat) -> Seq<u8> {
    Seq::new(n, |i: int| 0u8)
}

/// BITMAPINFOHEADER of a 32-bit icon image `size` pixels square (the height
/// counts the colour and the mask halves).
pub open spec fn bmp_header(size: nat) -> Seq<u8> {
    le_of(40, 4) + le_of(size, 4) + le_of(2 * size, 4) + le_of(1, 2) + le_of(32, 2) + zeros(24)
}

/// The BGRA bytes of pixel `(x, y)` of `n`-wide RGBA pixels `px`.
pub open spec fn bgra(px: Seq<u8>, n: nat, x: int, y: int) -> Seq<u8> {
    let i = (y * n + x) * 4;
    seq![px[i + 2], px[i + 1], px[i], px[i + 3]]
}

/// The first `x` pixels of row `y`, as BGRA.
pub open spec fn row_bgra(px: Seq<u8>, n: nat, y: int, x: nat) -> Seq<u8>
    decreases x,
{
    if x == 0 {
        Seq::empty()
    } else {
        row_bgra(px, n, y, (x - 1) as nat) + bgra(px, n, x - 1, y)
    }
}

/// Rows `n - 1` down to `n - j` (bottom-up order), as BGRA.
pub open spec fn rows_bottom_up(px: Seq<u8>, n: nat, j: nat) -> Seq<u8>
    decreases j,
{
    if j == 0 {
        Seq::empty()
    } else {
        rows_bottom_up(px, n, (j - 1) as nat) + row_bgra(px, n, n - j, n)
    }
}

/// Bytes per row of the 1-bit AND mask (rows padded to 32 bits).
pub open spec fn mask_stride(n: nat) -> nat {
    (((n + 31) / 32) * 4) as nat
}

/// A 32-bit BMP icon image: header, bottom-up BGRA pixels and an all-zero
/// AND mask (the alpha channel carries transparency).
pub open spec fn spec_bmp_entry(size: nat, px: Seq<u8>) -> Seq<u8> {
    bmp_header(size) + rows_bottom_up(px, size, size) + zeros(mask_stride(size) * size)
}

/// Append the `n` little-endian bytes of `v`.
fn push_le(out: &mut Vec<u8>, v: u32, n: usize)
    requires
        n <= 4,
    ensures
        final(out)@ == old(out)@ + le_of(v as nat, n as nat),
{
    let mut v = v;
    let mut k: usize = 0;
    let ghost v0 = v as nat;
    proof {
        assert(old(out)@ + le_of(v0, n as nat) =~= out@ + le_of(v as nat, (n - k) as nat));
    }
    while k < n
        invariant
            k <= n,
            old(out)@ + le_of(v0, n as nat) == out@ + le_of(v as nat, (n - k) as nat),
        decreases n - k,
    {
        let ghost before = out@;
        let ghost vv = v as nat;
        out.push((v % 256) as u8);
        v = v / 256;
        k += 1;
        proof {
            assert(le_of(vv, (n - k + 1) as nat) == seq![(vv % 256) as u8] + le_of(vv / 256, (n - k) as nat));
            assert(before + (seq![(vv % 256) as u8] + le_of(vv / 256, (n - k) as nat)) =~= out@ + le_of(
                v as nat,
                (n - k) as nat,
            ));
        }
    }
    proof {
        assert(out@ + le_of(v as nat, 0) =~= out@);
    }
}

/// Append `n` zero bytes.
fn push_zeros(out: &mut Vec<u8>, n: usize)
    ensures
        final(out)@ == old(out)@ + zeros(n as nat),
{
    let mut k: usize = 0;
    while k < n
        invariant
            k <= n,
            out@ == old(out)@ + zeros(k as nat),
        decreases n - k,
    {
        out.push(0);
        k += 1;
        proof {
            assert(out@ =~= old(out)@ + zeros(k as nat));
        }
    }
}

/// BITMAPINFOHEADER + bottom-up BGRA pixels + 1-bpp AND mask, for the RGBA
/// pixels `px` of a `size`-pixel square image.
pub fn bmp_entry(size: u32, px: &[u8]) -> (out: Vec<u8>)
    requires
        size <= 0x3FFF_FFFF,
        px@.len() == size * size * 4,
    ensures
        out@ == spec_bmp_entry(size as nat, px@),
{
    let n = size as usize;
    let plen = px.len();
    let mut out: Vec<u8> = Vec::new();
    push_le(&mut out, 40, 4);
    push_le(&mut out, size, 4);
    push_le(&mut out, 2 * size, 4);
    push_le(&mut out, 1, 2);
    push_le(&mut out, 32, 2);
    push_zeros(&mut out, 24);
    proof {
        assert(out@ =~= bmp_header(size as nat));
        assert(out@ =~= bmp_header(size as nat) + rows_bottom_up(px@, n as nat, 0));
    }
    let mut j: usize = 0;
    while j < n
        invariant
            n == size,
            px@.len() == n * n * 4,
            plen == px@.len(),
            j <= n,
            out@ == bmp_header(size as nat) + rows_bottom_up(px@, n as nat, j as nat),
        decreases n - j,
    {
        let y = n - 1 - j;
        let ghost before = out@;
        let mut x: usize = 0;
        while x < n
            invariant
                n == size,
                px@.len() == n * n * 4,
                plen == px@.len(),
                y < n,
                x <= n,
                out@ == before + row_bgra(px@, n as nat, y as int, x as nat),
            decreases n - x,
        {
            proof {
                assert((y * n + x) * 4 + 3 < n * n * 4) by (nonlinear_arith)
                    requires
                        y < n,
                        x < n,
                ;
                assert(y * n + x < n * n) by (nonlinear_arith)
                    requires
                        y < n,
                        x < n,
                ;
            }
            let i = (y * n + x) * 4;
            let ghost b1 = out@;
            out.push(px[i + 2]);
            out.push(px[i + 1]);
            out.push(px[i]);
            out.push(px[i + 3]);
            x += 1;
            proof {
                assert(out@ =~= b1 + bgra(px@, n as nat, x - 1, y as int));
            }
        }
        j += 1;
        proof {
            assert(n - j == y);
            assert(out@ =~= bmp_header(size as nat) + rows_bottom_up(px@, n as nat, j as nat));
        }
    }
    // Alpha channel carries transparency; an all-zero AND mask is correct.
    proof {
        assert(((n + 31) / 32) * 4 * n <= (n + 31) * n) by (nonlinear_arith)
            requires
                n <= 0x3FFF_FFFF,
        ;
        assert((n + 31) * n <= usize::MAX) by (nonlinear_arith)
            requires
                n * n * 4 <= usize::MAX,
                n <= 0x3FFF_FFFF,
        ;
    }
    let stride = (n + 31) / 32 * 4;
    push_zeros(&mut out, stride * n);
    out
}

/// The ICONDIR entry of one image: its dimension (0 for 256 and above),
/// 32 bits per pixel, and where its bytes lie.
pub open spec fn dir_entry(size: nat, len: nat, offset: nat) -> Seq<u8> {
    let dim: u8 = if size >= 256 {
        0
    } else {
        size as u8
    };
    seq![dim, dim, 0, 0] + le_of(1, 2) + le_of(32, 2) + le_of(len, 4) + le_of(offset, 4)
}

/// The directory entries of the images `imgs` from the `k`-th on, the
/// first of them at byte `offset`.
pub open spec fn dir_entries(sizes: Seq<u32>, imgs: Seq<Seq<u8>>, k: nat, offset: nat) -> Seq<u8>
    decreases sizes.len() - k,
{
    if k >= sizes.len() {
        Seq::empty()
    } else {
        dir_entry(sizes[k as int] as nat, imgs[k as int].len(), offset) + dir_entries(
            sizes,
            imgs,
            k + 1,
            offset + imgs[k as int].len(),
        )
    }
}

/// The images one after another.
pub open spec fn concat_images(imgs: Seq<Seq<u8>>) -> Seq<u8>
    decreases imgs.len(),
{
    if imgs.len() == 0 {
        Seq::empty()
    } else {
        concat_images(imgs.drop_last()) + imgs.last()
    }
}

/// A multi-resolution `.ico` file of the images `imgs` (one per size).
pub open spec fn spec_ico(sizes: Seq<u32>, imgs: Seq<Seq<u8>>) -> Seq<u8> {
    seq![0u8, 0, 1, 0] + le_of(sizes.len(), 2) + dir_entries(sizes, imgs, 0, 6 + 16 * sizes.len())
        + concat_images(imgs)
}

/// The icon images of the given pixels.
pub open spec fn entries_of(sizes: Seq<u32>, pixels: Seq<Vec<u8>>) -> Seq<Seq<u8>> {
    Seq::new(sizes.len(), |k: int| spec_bmp_entry(sizes[k] as nat, pixels[k]@))
}

proof fn lemma_concat_len(imgs: Seq<Seq<u8>>, k: nat)
    requires
        k <= imgs.len(),
    ensures
        concat_images(imgs.take(k as int)).len() <= concat_images(imgs).len(),
    decreases imgs.len(),
{
    if k < imgs.len() {
        assert(imgs.drop_last().take(k as int) =~= imgs.take(k as int));
        lemma_concat_len(imgs.drop_last(), k);
    } else {
        assert(imgs.take(k as int) =~= imgs);
    }
}

/// Encode the icon as a multi-resolution `.ico` (32-bit BMP entries);
/// `pixels[k]` are the RGBA pixels at `sizes[k]`.
pub fn ico(sizes: &[u32], pixels: &[Vec<u8>]) -> (out: Vec<u8>)
    requires
        sizes@.len() == pixels@.len(),
        sizes@.len() <= 0xFFFF,
        forall|k: int|
            0 <= k < sizes@.len() ==> #[trigger] sizes@[k] <= 0x3FFF_FFFF && pixels@[k]@.len() == sizes@[k]
                * sizes@[k] * 4,
        6 + 16 * sizes@.len() + concat_images(entries_of(sizes@, pixels@)).len() <= u32::MAX,
    ensures
        out@ == spec_ico(sizes@, entries_of(sizes@, pixels@)),
{
    let count = sizes.len();
    let ghost want = entries_of(sizes@, pixels@);
    let mut images: Vec<Vec<u8>> = Vec::new();
    let mut k: usize = 0;
    while k < count
        invariant
            count == sizes@.len() == pixels@.len(),
            want == entries_of(sizes@, pixels@),
            forall|j: int|
                0 <= j < sizes@.len() ==> #[trigger] sizes@[j] <= 0x3FFF_FFFF && pixels@[j]@.len() == sizes@[j]
                    * sizes@[j] * 4,
            k <= count,
            images@.len() == k,
            forall|j: int| 0 <= j < k ==> (#[trigger] images@[j])@ == want[j],
        decreases count - k,
    {
        assert(sizes@[k as int] <= 0x3FFF_FFFF);
        let img = bmp_entry(sizes[k], pixels[k].as_slice());
        images.push(img);
        k += 1;
    }
    let ghost imgs = images@.map_values(|v: Vec<u8>| v@);
    proof {
        assert(imgs =~= want);
    }
    let mut out: Vec<u8> = Vec::new();
    out.push(0);
    out.push(0);
    out.push(1);
    out.push(0); // reserved, type = icon
    push_le(&mut out, count as u32, 2);
    let mut offset: u32 = 6 + 16 * count as u32;
    let mut k: usize = 0;
    proof {
        assert(out@ =~= seq![0u8, 0, 1, 0] + le_of(count as nat, 2));
        assert(imgs.take(0) =~= Seq::<Seq<u8>>::empty());
    }
    while k < count
        invariant
            count == sizes@.len() == images@.len() == imgs.len(),
            imgs == images@.map_values(|v: Vec<u8>| v@),
            imgs == want,
            6 + 16 * count + concat_images(imgs).len() <= u32::MAX,
            k <= count,
            offset == 6 + 16 * count + concat_images(imgs.take(k as int)).len(),
            out@ + dir_entries(sizes@, imgs, k as nat, offset as nat) == seq![0u8, 0, 1, 0] + le_of(count as nat, 2)
                + dir_entries(sizes@, imgs, 0, (6 + 16 * count) as nat),
        decreases count - k,
    {
        let s = sizes[k];
        let len = images[k].len();
        let ghost before = out@;
        proof {
            assert(imgs[k as int] == images@[k as int]@);
            assert(imgs.take(k + 1).drop_last() =~= imgs.take(k as int));
            assert(imgs.take(k + 1).last() == imgs[k as int]);
            lemma_concat_len(imgs, (k + 1) as nat);
        }
        let dim: u8 = if s >= 256 {
            0
        } else {
            s as u8
        };
        out.push(dim);
        out.push(dim);
        out.push(0);
        out.push(0);
        push_le(&mut out, 1, 2); // planes
        push_le(&mut out, 32, 2); // bpp
        push_le(&mut out, len as u32, 4);
        push_le(&mut out, offset, 4);
        proof {
            assert(out@ =~= before + dir_entry(s as nat, len as nat, offset as nat));
            assert(before + dir_entries(sizes@, imgs, k as nat, offset as nat) =~= out@ + dir_entries(
                sizes@,
                imgs,
                (k + 1) as nat,
                (offset + len) as nat,
            ));
        }
        offset = offset + len as u32;
        k += 1;
    }
    proof {
        assert(out@ + Seq::<u8>::empty() =~= out@);
    }
    let mut k: usize = 0;
    let ghost head = out@;
    while k < count
        invariant
            count == images@.len() == imgs.len(),
            imgs == images@.map_values(|v: Vec<u8>| v@),
            k <= count,
            out@ == head + concat_images(imgs.take(k as int)),
        decreases count - k,
    {
        let img = &images[k];
        let mut j: usize = 0;
        let ghost b = out@;
        while j < img.len()
            invariant
                j <= img@.len(),
                out@ == b + img@.take(j as int),
            decreases img@.len() - j,
        {
            out.push(img[j]);
            j += 1;
            proof {
                assert(out@ =~= b + img@.take(j as int));
            }
        }
        proof {
            assert(img@.take(j as int) =~= img@);
            assert(imgs[k as int] == img@);
            assert(imgs.take(k + 1).drop_last() =~= imgs.take(k as int));
            assert(out@ =~= head + concat_images(imgs.take(k + 1)));
        }
        k += 1;
    }
    proof {
        assert(imgs.take(count as int) =~= imgs);
    }
    out
}

} // verus!
