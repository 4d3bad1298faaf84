use vstd::prelude::*;
use crate::types::{HazeError, Image, Rgb};

verus! {

/// Coordinate `s` lies on the grid line of length `limit` and inside the window
/// of edge `patch` around coordinate `c`: the window runs from
/// `c + patch / 2` down to `c - (patch - 1 - patch / 2)`.
pub open spec fn in_window(c: int, s: int, patch: int, limit: int) -> bool {
    &&& c + patch / 2 - (patch - 1) <= s <= c + patch / 2
    &&& 0 <= s < limit
}

/// The pixel at `(sx, sy)` is sampled by the window of pixel `(x, y)`.
pub open spec fn sampled(img: &Image, patch: int, x: int, y: int, sx: int, sy: int) -> bool {
    in_window(x, sx, patch, img.w()) && in_window(y, sy, patch, img.h())
}

/// `v` is the dark-channel value of pixel `(x, y)`: the least of the darkest
/// samples over the in-bounds pixels of its window.
pub open spec fn is_window_min(img: &Image, patch: int, x: int, y: int, v: int) -> bool {
    &&& forall|sx: int, sy: int|
        #![trigger img.at(sx, sy)]
        sampled(img, patch, x, y, sx, sy) ==> v <= img.at(sx, sy).darkest()
    &&& exists|sx: int, sy: int|
        #![trigger img.at(sx, sy)]
        sampled(img, patch, x, y, sx, sy) && v == img.at(sx, sy).darkest()
}

/// The darkness map is the dark channel of `img`: entry `i` belongs to the
/// pixel at column `i % width`, row `i / width`.
pub open spec fn is_dark_map(img: &Image, patch: int, d: Seq<u8>) -> bool {
    &&& d.len() == img.pixels@.len()
    &&& forall|i: int|
        0 <= i < d.len() ==> is_window_min(img, patch, i % img.w(), i / img.w(), #[trigger] d[i] as int)
}

proof fn lemma_cell_index(x: int, y: int, w: int, h: int)
    requires
        0 <= x < w,
        0 <= y < h,
    ensures
        0 <= y * w + x < w * h,
{
    assert(y * w + x < w * h) by (nonlinear_arith)
        requires 0 <= x < w, 0 <= y < h;
    assert(0 <= y * w) by (nonlinear_arith)
        requires 0 <= y, 0 <= w;
}

proof fn lemma_split_index(i: int, w: int, h: int)
    requires
        0 <= i < w * h,
        0 < w,
    ensures
        0 <= i % w < w,
        0 <= i / w < h,
        (i / w) * w + i % w == i,
{
    vstd::arithmetic::div_mod::lemma_fundamental_div_mod(i, w);
    vstd::arithmetic::div_mod::lemma_mod_pos_bound(i, w);
    vstd::arithmetic::div_mod::lemma_div_pos_is_pos(i, w);
    assert(i / w < h) by (nonlinear_arith)
        requires i < w * h, 0 < w, i == w * (i / w) + i % w, 0 <= i % w;
    assert((i / w) * w == w * (i / w)) by (nonlinear_arith);
}

/// The dark-channel value of the pixel at `(x, y)`.
fn window_min(img: &Image, patch: u32, x: u32, y: u32) -> (r: u8)
    requires
        img.wf(),
        patch >= 1,
        x < img.width,
        y < img.height,
    ensures
        is_window_min(img, patch as int, x as int, y as int, r as int),
{
    let w = img.width as u64;
    let h = img.height as u64;
    let half = (patch / 2) as u64;
    let ghost p = patch as int;
    let ww = img.width as usize;
    let n = img.pixels.len();
    let (xu, yu) = (x as usize, y as usize);
    proof {
        lemma_cell_index(xu as int, yu as int, ww as int, h as int);
    }
    let mut m = img.pixels[yu * ww + xu].min_channel();
    let ghost mut wx: int = x as int;
    let ghost mut wy: int = y as int;
    let mut yp: u64 = 0;
    while yp < patch as u64
        invariant
            img.wf(),
            w == img.width,
            ww == img.width,
            n == img.pixels@.len(),
            h == img.height,
            x < w,
            y < h,
            half == p / 2,
            p == patch,
            p >= 1,
            yp <= p,
            sampled(img, p, x as int, y as int, wx, wy),
            m as int == img.at(wx, wy).darkest(),
            forall|sx: int, sy: int|
                #![trigger img.at(sx, sy)]
                sampled(img, p, x as int, y as int, sx, sy) && sy > y + half - yp ==> m
                    <= img.at(sx, sy).darkest(),
        decreases p - yp,
    {
        if yp > y as u64 + half || (y as u64 + half) - yp >= h {
            yp = yp + 1;
            continue;
        }
        let sy = (y as u64 + half) - yp;
        let mut xp: u64 = 0;
        while xp < patch as u64
            invariant
                img.wf(),
                w == img.width,
                ww == img.width,
                n == img.pixels@.len(),
            n == img.pixels@.len(),
                h == img.height,
                x < w,
                y < h,
                half == p / 2,
                p == patch,
                p >= 1,
                yp < p,
                xp <= p,
                sy == y + half - yp,
                sy < h,
                sampled(img, p, x as int, y as int, wx, wy),
                m as int == img.at(wx, wy).darkest(),
                forall|sx: int, sy2: int|
                    #![trigger img.at(sx, sy2)]
                    sampled(img, p, x as int, y as int, sx, sy2) && sy2 > y + half - yp ==> m
                        <= img.at(sx, sy2).darkest(),
                forall|sx: int|
                    #![trigger img.at(sx, sy as int)]
                    sampled(img, p, x as int, y as int, sx, sy as int) && sx > x + half - xp ==> m
                        <= img.at(sx, sy as int).darkest(),
            decreases p - xp,
        {
            if xp > x as u64 + half || (x as u64 + half) - xp >= w {
                xp = xp + 1;
                continue;
            }
            let sx = (x as u64 + half) - xp;
            let (sxu, syu) = (sx as usize, sy as usize);
            proof {
                lemma_cell_index(sxu as int, syu as int, ww as int, h as int);
            }
            let c = img.pixels[syu * ww + sxu].min_channel();
            if c < m {
                m = c;
                proof {
                    wx = sx as int;
                    wy = sy as int;
                }
            }
            xp = xp + 1;
        }
        yp = yp + 1;
    }
    proof {
        lemma_window_witness(img, p, x as int, y as int, wx, wy, m as int);
    }
    m
}

proof fn lemma_window_witness(img: &Image, p: int, x: int, y: int, wx: int, wy: int, m: int)
    requires
        sampled(img, p, x, y, wx, wy),
        m == img.at(wx, wy).darkest(),
    ensures
        exists|sx: int, sy: int|
            #![trigger img.at(sx, sy)]
            sampled(img, p, x, y, sx, sy) && m == img.at(sx, sy).darkest(),
{
}

/// Computes the darkness map of `image` over square windows of edge `patch_size`.
pub fn dark_channel(image: &Image, patch_size: u32) -> (r: Result<Vec<u8>, HazeError>)
    ensures
        match r {
            Ok(d) => is_dark_map(image, patch_size as int, d@),
            Err(e) => e == HazeError::InvalidDimensions && !image.wf() || e
                == HazeError::InvalidParameter && image.wf() && patch_size == 0,
        },
        r.is_ok() <==> image.wf() && patch_size >= 1,
{
    if !image.is_valid() {
        return Err(HazeError::InvalidDimensions);
    }
    if patch_size == 0 {
        return Err(HazeError::InvalidParameter);
    }
    let n = image.pixels.len();
    let w = image.width;
    let mut dc: Vec<u8> = Vec::with_capacity(n);
    let mut i: usize = 0;
    while i < n
        invariant
            image.wf(),
            patch_size >= 1,
            n == image.pixels@.len(),
            w == image.width,
            i <= n,
            dc@.len() == i,
            forall|j: int|
                0 <= j < i ==> is_window_min(image, patch_size as int, j % image.w(), j / image.w(), #[trigger] dc@[j] as int),
        decreases n - i,
    {
        proof {
            lemma_split_index(i as int, image.w(), image.h());
        }
        let x = (i as u64 % w as u64) as u32;
        let y = (i as u64 / w as u64) as u32;
        let v = window_min(image, patch_size, x, y);
        dc.push(v);
        i = i + 1;
    }
    Ok(dc)
}

/// With windows of edge 1, each darkness value is the darkest sample of its
/// own pixel.
pub proof fn lemma_unit_patch(img: &Image, d: Seq<u8>)
    requires
        img.wf(),
        is_dark_map(img, 1, d),
    ensures
        forall|i: int| 0 <= i < d.len() ==> #[trigger] d[i] as int == img.pixels@[i].darkest(),
{
    assert forall|i: int| 0 <= i < d.len() implies #[trigger] d[i] as int == img.pixels@[i].darkest() by {
        lemma_split_index(i, img.w(), img.h());
        let (x, y) = (i % img.w(), i / img.w());
        assert(is_window_min(img, 1, x, y, d[i] as int));
        let (sx, sy) = choose|sx: int, sy: int|
            sampled(img, 1, x, y, sx, sy) && d[i] as int == #[trigger] img.at(sx, sy).darkest();
        assert(sx == x && sy == y);
    }
}

/// On an image whose every pixel is the gray `(k, k, k)`, the darkness map is
/// `k` everywhere, whatever the window.
pub proof fn lemma_uniform_dark(img: &Image, patch: int, d: Seq<u8>, k: u8)
    requires
        img.wf(),
        forall|i: int| 0 <= i < img.pixels@.len() ==> #[trigger] img.pixels@[i] == (Rgb { r: k, g: k, b: k }),
        is_dark_map(img, patch, d),
    ensures
        forall|i: int| 0 <= i < d.len() ==> #[trigger] d[i] == k,
{
    assert forall|i: int| 0 <= i < d.len() implies #[trigger] d[i] == k by {
        let (x, y) = (i % img.w(), i / img.w());
        assert(is_window_min(img, patch, x, y, d[i] as int));
        let (sx, sy) = choose|sx: int, sy: int|
            sampled(img, patch, x, y, sx, sy) && d[i] as int == #[trigger] img.at(sx, sy).darkest();
        lemma_cell_index(sx, sy, img.w(), img.h());
        assert(img.pixels@[sy * img.w() + sx] == (Rgb { r: k, g: k, b: k }));
    }
}

} // verus!
