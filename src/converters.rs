use vstd::prelude::*;

use crate::color::{clamp8, ingest_rgba, pack, unpack, Color16, Color32};
use crate::plane::{accumulated, Plane};
use vstd::arithmetic::div_mod::lemma_fundamental_div_mod_converse;

verus! {

/// A decoded full-color source image: four bytes (R, G, B, A) per pixel, row-major.
pub struct RgbaBuffer {
    pub width: u32,
    pub height: u32,
    pub pixels: Vec<u8>,
}

impl RgbaBuffer {
    pub open spec fn wf(&self) -> bool {
        &&& self.width * self.height <= u32::MAX
        &&& self.pixels@.len() == 4 * (self.width * self.height)
    }

    /// The working color ingested from the pixel at raster index `i`.
    pub open spec fn source(&self, i: int) -> Color32 {
        ingest_rgba(
            self.pixels@[4 * i],
            self.pixels@[4 * i + 1],
            self.pixels@[4 * i + 2],
            self.pixels@[4 * i + 3],
        )
    }

    /// Ingests the pixel at raster index `i`.
    pub fn ingest(&self, i: u32) -> (r: Color32)
        requires
            self.wf(),
            i < self.width * self.height,
        ensures
            r == self.source(i as int),
    {
        let len = self.pixels.len();
        assert(4 * i + 3 < len);
        let k: usize = 4 * (i as usize);
        Color32::from_rgba(self.pixels[k], self.pixels[k + 1], self.pixels[k + 2], self.pixels[k + 3])
    }
}

/// Raster index `i` stands at column `x` and row `y` of a grid `w` wide.
proof fn lemma_cursor(i: int, x: int, y: int, w: int)
    requires
        0 <= x < w,
        0 <= y,
        i == x + y * w,
    ensures
        i % w == x,
        i / w == y,
{
    lemma_fundamental_div_mod_converse(i, w, y, x);
}

proof fn lemma_nonempty(w: int, h: int)
    requires
        0 <= w,
        0 <= h,
        0 < w * h,
    ensures
        0 < w,
        0 < h,
{
    if w == 0 || h == 0 {
        assert(w * h == 0) by (nonlinear_arith)
            requires
                w == 0 || h == 0,
        ;
    }
}

/// Moving the cursor one cell on in raster order.
proof fn lemma_cursor_step(x: int, y: int, w: int, h: int)
    requires
        0 <= x < w,
        0 <= y < h,
    ensures
        (y + 1) * w == y * w + w,
        x + 1 == w && x + y * w + 1 < w * h ==> y + 1 < h,
{
    assert((y + 1) * w == y * w + w) by (nonlinear_arith);
    if x + 1 == w && x + y * w + 1 < w * h {
        assert((y + 1) * w < w * h);
        if y + 1 >= h {
            assert((y + 1) * w >= h * w) by (nonlinear_arith)
                requires
                    y + 1 >= h,
                    w >= 0,
            ;
        }
    }
}

/// Direct quantization of every source pixel.
pub fn convert_posterize(image: &RgbaBuffer) -> (r: Plane<Color16>)
    requires
        image.wf(),
    ensures
        r.wf(),
        r.width == image.width,
        r.height == image.height,
        forall|i: int| 0 <= i < r.cells().len() ==> r.cells()[i].0 == pack(image.source(i)),
{
    let w = image.width;
    let h = image.height;
    let n: u32 = w * h;
    let mut result: Plane<Color16> = Plane::new(w, h);
    let mut i: u32 = 0;
    let mut x: u32 = 0;
    let mut y: u32 = 0;
    proof {
        if n > 0 {
            lemma_nonempty(w as int, h as int);
        }
    }
    while i < n
        invariant
            image.wf(),
            n == w * h,
            w == image.width,
            h == image.height,
            result.wf(),
            result.width == w,
            result.height == h,
            i <= n,
            i == x + y * w,
            i < n ==> x < w && y < h,
            forall|k: int| 0 <= k < i ==> result.cells()[k].0 == pack(image.source(k)),
        decreases n - i,
    {
        let c = image.ingest(i);
        result.set(x, y, Color16::from(c));
        proof {
            lemma_cursor_step(x as int, y as int, w as int, h as int);
        }
        i += 1;
        if x + 1 == w {
            x = 0;
            y += 1;
        } else {
            x += 1;
        }
    }
    result
}

/// The 4x4 Bayer matrix, row-major, values 0 to 15.
pub open spec fn bayer4_seq() -> Seq<i32> {
    seq![0, 8, 2, 10, 12, 4, 14, 6, 3, 11, 1, 9, 15, 7, 13, 5]
}

/// The 8x8 Bayer matrix, row-major, values 0 to 63.
pub open spec fn bayer8_seq() -> Seq<i32> {
    seq![0, 32, 8, 40, 2, 34, 10, 42, 48, 16, 56, 24, 50, 18, 58, 26]
        + seq![12, 44, 4, 36, 14, 46, 6, 38, 60, 28, 52, 20, 62, 30, 54, 22]
        + seq![3, 35, 11, 43, 1, 33, 9, 41, 51, 19, 59, 27, 49, 17, 57, 25]
        + seq![15, 47, 7, 39, 13, 45, 5, 37, 63, 31, 55, 23, 61, 29, 53, 21]
}

/// Entry `k` of the 8x8 table tiled from the 4x4 matrix, in 64ths.
pub open spec fn tiled4(k: int) -> int {
    4 * bayer4_seq()[(k % 8) % 4 + 4 * ((k / 8) % 4)]
}

/// The index in an 8x8 table of pixel (x, y), wrapping both axes.
pub open spec fn wrapped(x: int, y: int) -> int {
    x % 8 + 8 * (y % 8)
}

/// One channel after adding the threshold offset `(t / 64 - 1 / 2) * 255 / 31` and clamping.
pub open spec fn dither_channel(v: int, t: int) -> int {
    clamp8((1984 * v + (t - 32) * 255) / 1984)
}

/// An ordered-dithered pixel for threshold `t` (in 64ths); transparent stays the zero word.
pub open spec fn ordered_pixel(c: Color32, t: int) -> u16 {
    if c.a == 0 {
        0
    } else {
        pack(
            Color32 {
                r: dither_channel(c.r as int, t) as i32,
                g: dither_channel(c.g as int, t) as i32,
                b: dither_channel(c.b as int, t) as i32,
                a: 255,
            },
        )
    }
}

proof fn lemma_bayer4_range(j: int)
    requires
        0 <= j < 16,
    ensures
        0 <= bayer4_seq()[j] <= 15,
{
    let q0 = seq![0i32, 8, 2, 10];
    let q1 = seq![12i32, 4, 14, 6];
    let q2 = seq![3i32, 11, 1, 9];
    let q3 = seq![15i32, 7, 13, 5];
    assert(bayer4_seq() =~= q0 + q1 + q2 + q3);
    if j < 4 {
        assert(bayer4_seq()[j] == q0[j]);
    } else if j < 8 {
        assert(bayer4_seq()[j] == q1[j - 4]);
    } else if j < 12 {
        assert(bayer4_seq()[j] == q2[j - 8]);
    } else {
        assert(bayer4_seq()[j] == q3[j - 12]);
    }
}

/// The 8x8 threshold table tiled from the 4x4 Bayer matrix, in 64ths.
pub fn for_bayer4() -> (r: Vec<i32>)
    ensures
        r@.len() == 64,
        forall|k: int| 0 <= k < 64 ==> r@[k] == tiled4(k),
{
    let b4: Vec<i32> = vec![0, 8, 2, 10, 12, 4, 14, 6, 3, 11, 1, 9, 15, 7, 13, 5];
    assert(b4@ == bayer4_seq());
    let mut result: Vec<i32> = Vec::new();
    let mut k: usize = 0;
    while k < 64
        invariant
            k <= 64,
            b4@ == bayer4_seq(),
            result@.len() == k,
            forall|j: int| 0 <= j < k ==> result@[j] == tiled4(j),
        decreases 64 - k,
    {
        let ix = (k % 8) % 4;
        let iy = (k / 8) % 4;
        result.push(4 * b4[ix + iy * 4]);
        k += 1;
    }
    result
}

/// The 8x8 Bayer threshold table, in 64ths.
pub fn for_bayer8() -> (r: Vec<i32>)
    ensures
        r@ == bayer8_seq(),
{
    let v: Vec<i32> = vec![
        0, 32, 8, 40, 2, 34, 10, 42, 48, 16, 56, 24, 50, 18, 58, 26,
        12, 44, 4, 36, 14, 46, 6, 38, 60, 28, 52, 20, 62, 30, 54, 22,
        3, 35, 11, 43, 1, 33, 9, 41, 51, 19, 59, 27, 49, 17, 57, 25,
        15, 47, 7, 39, 13, 45, 5, 37, 63, 31, 55, 23, 61, 29, 53, 21,
    ];
    assert(v@ =~= bayer8_seq());
    v
}

/// The table entry for pixel (x, y).
fn get_wrapped(pattern: &Vec<i32>, x: u32, y: u32) -> (r: i32)
    requires
        pattern@.len() == 64,
    ensures
        r == pattern@[wrapped(x as int, y as int)],
{
    let x = (x % 8) as usize;
    let y = (y % 8) as usize;
    pattern[x + y * 8]
}

fn ordered_channel(v: i32, t: i32) -> (r: i32)
    requires
        0 <= v <= 255,
        0 <= t <= 64,
    ensures
        r == dither_channel(v as int, t as int),
{
    let num: i32 = 1984 * v + (t - 32) * 255;
    if num < 0 {
        0
    } else if num / 1984 > 255 {
        255
    } else {
        num / 1984
    }
}

/// Ordered dithering against an 8x8 threshold table given in 64ths.
pub fn ordered_dithering(image: &RgbaBuffer, pattern: &Vec<i32>) -> (r: Plane<Color16>)
    requires
        image.wf(),
        pattern@.len() == 64,
        forall|k: int| 0 <= k < 64 ==> 0 <= #[trigger] pattern@[k] <= 64,
    ensures
        r.wf(),
        r.width == image.width,
        r.height == image.height,
        forall|i: int|
            0 <= i < r.cells().len() ==> r.cells()[i].0 == ordered_pixel(
                image.source(i),
                pattern@[wrapped(i % image.width as int, i / image.width as int)] as int,
            ),
{
    let w = image.width;
    let h = image.height;
    let n: u32 = w * h;
    let mut result: Plane<Color16> = Plane::new(w, h);
    let mut i: u32 = 0;
    let mut x: u32 = 0;
    let mut y: u32 = 0;
    proof {
        if n > 0 {
            lemma_nonempty(w as int, h as int);
        }
    }
    while i < n
        invariant
            image.wf(),
            pattern@.len() == 64,
            forall|k: int| 0 <= k < 64 ==> 0 <= #[trigger] pattern@[k] <= 64,
            n == w * h,
            w == image.width,
            h == image.height,
            result.wf(),
            result.width == w,
            result.height == h,
            i <= n,
            i == x + y * w,
            i < n ==> x < w && y < h,
            forall|k: int|
                0 <= k < i ==> result.cells()[k].0 == ordered_pixel(
                    image.source(k),
                    pattern@[wrapped(k % w as int, k / w as int)] as int,
                ),
        decreases n - i,
    {
        let c = image.ingest(i);
        proof {
            lemma_cursor(i as int, x as int, y as int, w as int);
            assert(0 <= wrapped(x as int, y as int) < 64);
        }
        if c.a == 0 {
            result.set(x, y, Color16::transparent());
        } else {
            let t = get_wrapped(pattern, x, y);
            let corrected = Color32::new(
                ordered_channel(c.r, t),
                ordered_channel(c.g, t),
                ordered_channel(c.b, t),
                255,
            );
            result.set(x, y, Color16::from(corrected));
        }
        proof {
            lemma_cursor_step(x as int, y as int, w as int, h as int);
        }
        i += 1;
        if x + 1 == w {
            x = 0;
            y += 1;
        } else {
            x += 1;
        }
    }
    result
}

/// Ordered dithering with the 4x4 Bayer matrix tiled over 8x8.
pub fn convert_ordered4(image: &RgbaBuffer) -> (r: Plane<Color16>)
    requires
        image.wf(),
    ensures
        r.wf(),
        r.width == image.width,
        r.height == image.height,
        forall|i: int|
            0 <= i < r.cells().len() ==> r.cells()[i].0 == ordered4_at(*image, i),
{
    let pattern = for_bayer4();
    proof {
        assert forall|k: int| 0 <= k < 64 implies 0 <= #[trigger] pattern@[k] <= 64 by {
            lemma_bayer4_range((k % 8) % 4 + 4 * ((k / 8) % 4));
            assert(pattern@[k] == tiled4(k));
        }
    }
    let r = ordered_dithering(image, &pattern);
    proof {
        assert forall|i: int| 0 <= i < r.cells().len() implies r.cells()[i].0 == ordered_pixel(
            image.source(i),
            tiled4(wrapped(i % image.width as int, i / image.width as int)),
        ) by {
            let k = wrapped(i % image.width as int, i / image.width as int);
            assert(0 <= k < 64);
            assert(pattern@[k] == tiled4(k));
        }
    }
    r
}

/// Ordered dithering with the 8x8 Bayer matrix.
pub fn convert_ordered8(image: &RgbaBuffer) -> (r: Plane<Color16>)
    requires
        image.wf(),
    ensures
        r.wf(),
        r.width == image.width,
        r.height == image.height,
        forall|i: int|
            0 <= i < r.cells().len() ==> r.cells()[i].0 == ordered8_at(*image, i),
{
    let pattern = for_bayer8();
    proof {
        let q0 = seq![0i32, 32, 8, 40, 2, 34, 10, 42, 48, 16, 56, 24, 50, 18, 58, 26];
        let q1 = seq![12i32, 44, 4, 36, 14, 46, 6, 38, 60, 28, 52, 20, 62, 30, 54, 22];
        let q2 = seq![3i32, 35, 11, 43, 1, 33, 9, 41, 51, 19, 59, 27, 49, 17, 57, 25];
        let q3 = seq![15i32, 47, 7, 39, 13, 45, 5, 37, 63, 31, 55, 23, 61, 29, 53, 21];
        assert(pattern@ == q0 + q1 + q2 + q3);
        assert forall|k: int| 0 <= k < 64 implies 0 <= #[trigger] pattern@[k] <= 64 by {
            if k < 16 {
                assert(pattern@[k] == q0[k]);
            } else if k < 32 {
                assert(pattern@[k] == q1[k - 16]);
            } else if k < 48 {
                assert(pattern@[k] == q2[k - 32]);
            } else {
                assert(pattern@[k] == q3[k - 48]);
            }
        }
    }
    ordered_dithering(image, &pattern)
}

/// One channel of a source value `v` corrected by `c / 16` (the stored correction is in
/// sixteenths), clamped to [0, 255].
pub open spec fn fs_channel(v: int, c: int) -> int {
    clamp8((16 * v + c) / 16)
}

/// The source color after its accumulated correction, alpha kept.
pub open spec fn fs_corrected(orig: Color32, c: Color32) -> Color32 {
    Color32 {
        r: fs_channel(orig.r as int, c.r as int) as i32,
        g: fs_channel(orig.g as int, c.g as int) as i32,
        b: fs_channel(orig.b as int, c.b as int) as i32,
        a: orig.a,
    }
}

/// The quantization residual of a corrected color: it minus its packed-and-expanded self.
pub open spec fn residual(c: Color32) -> Color32 {
    let d = unpack(pack(c));
    Color32 { r: (c.r - d.r) as i32, g: (c.g - d.g) as i32, b: (c.b - d.b) as i32, a: 255 }
}

/// R, G and B of `e` times `m`; alpha 255.
pub open spec fn scaled(e: Color32, m: int) -> Color32 {
    Color32 { r: (e.r * m) as i32, g: (e.g * m) as i32, b: (e.b * m) as i32, a: 255 }
}

pub open spec fn bump(err: Seq<Color32>, k: int, v: Color32) -> Seq<Color32> {
    err.update(k, accumulated(err[k], v))
}

/// Spreads residual `e` of pixel (x, y), raster index `i`, to the neighbours not yet visited:
/// 7/16 right, 3/16 below left, 5/16 below, 1/16 below right; a neighbour off the grid is skipped.
pub open spec fn diffuse(err: Seq<Color32>, i: int, x: int, y: int, w: int, h: int, e: Color32) -> Seq<Color32> {
    let s1 = if x + 1 < w { bump(err, i + 1, scaled(e, 7)) } else { err };
    let s2 = if y + 1 < h && x > 0 { bump(s1, i + w - 1, scaled(e, 3)) } else { s1 };
    let s3 = if y + 1 < h { bump(s2, i + w, scaled(e, 5)) } else { s2 };
    if y + 1 < h && x + 1 < w { bump(s3, i + w + 1, e) } else { s3 }
}

/// The packed output and the correction plane after the first `i` pixels in raster order.
pub open spec fn fs_state(image: RgbaBuffer, i: nat) -> (Seq<u16>, Seq<Color32>)
    decreases i,
{
    if i == 0 {
        (
            Seq::empty(),
            Seq::new(
                (image.width * image.height) as nat,
                |k: int| Color32 { r: 0, g: 0, b: 0, a: 255 },
            ),
        )
    } else {
        let (out, err) = fs_state(image, (i - 1) as nat);
        let j = i - 1;
        let w = image.width as int;
        let c = fs_corrected(image.source(j), err[j]);
        (
            out.push(pack(c)),
            diffuse(err, j, j % w, j / w, w, image.height as int, residual(c)),
        )
    }
}

/// The total weight that cell `k` has received once the first `i` pixels are done.
spec fn received(k: int, i: int, w: int) -> int {
    (if 0 <= k - 1 < i { 7int } else { 0int }) + (if 0 <= k - w + 1 < i { 3int } else { 0int })
        + (if 0 <= k - w < i { 5int } else { 0int }) + (if 0 <= k - w - 1 < i { 1int } else { 0int })
}

/// Each of R, G and B lies in [-b, b].
pub open spec fn within(c: Color32, b: int) -> bool {
    -b <= c.r <= b && -b <= c.g <= b && -b <= c.b <= b
}

spec fn bounded(err: Seq<Color32>, i: int, w: int) -> bool {
    forall|k: int| 0 <= k < err.len() ==> within(#[trigger] err[k], 255 * received(k, i, w))
}

proof fn lemma_diffuse_bounded(err: Seq<Color32>, i: int, x: int, y: int, w: int, h: int, e: Color32)
    requires
        0 <= x < w,
        0 <= y < h,
        i == x + y * w,
        err.len() == w * h,
        (y + 1) * w == y * w + w,
        y + 1 < h && x + 1 < w ==> i + w + 1 < w * h,
        y + 1 < h ==> i + w < w * h,
        x + 1 < w ==> i + 1 < w * h,
        bounded(err, i, w),
        within(e, 255),
    ensures
        bounded(diffuse(err, i, x, y, w, h, e), i + 1, w),
        diffuse(err, i, x, y, w, h, e).len() == err.len(),
{
    let s1 = if x + 1 < w { bump(err, i + 1, scaled(e, 7)) } else { err };
    let s2 = if y + 1 < h && x > 0 { bump(s1, i + w - 1, scaled(e, 3)) } else { s1 };
    let s3 = if y + 1 < h { bump(s2, i + w, scaled(e, 5)) } else { s2 };
    let d = diffuse(err, i, x, y, w, h, e);
    assert(d == if y + 1 < h && x + 1 < w { bump(s3, i + w + 1, e) } else { s3 });
    assert(s1.len() == err.len() && s2.len() == err.len() && s3.len() == err.len());
    assert(d.len() == err.len());
    assert forall|k: int| 0 <= k < d.len() implies within(#[trigger] d[k], 255 * received(k, i + 1, w)) by {
        assert(within(err[k], 255 * received(k, i, w)));
        let g1 = if x + 1 < w && k == i + 1 { 7int } else { 0int };
        let g2 = if y + 1 < h && x > 0 && k == i + w - 1 { 3int } else { 0int };
        let g3 = if y + 1 < h && k == i + w { 5int } else { 0int };
        let g4 = if y + 1 < h && x + 1 < w && k == i + w + 1 { 1int } else { 0int };
        assert(within(s1[k], 255 * (received(k, i, w) + g1)));
        assert(within(s2[k], 255 * (received(k, i, w) + g1 + g2)));
        assert(within(s3[k], 255 * (received(k, i, w) + g1 + g2 + g3)));
        assert(within(d[k], 255 * (received(k, i, w) + g1 + g2 + g3 + g4)));
        assert(received(k, i, w) + g1 + g2 + g3 + g4 <= received(k, i + 1, w));
    }
}

proof fn lemma_index_facts(x: int, y: int, w: int, h: int)
    requires
        0 <= x < w,
        0 <= y < h,
    ensures
        (y + 1) * w == y * w + w,
        y + 1 < h ==> x + y * w + w < w * h,
        y + 1 < h && x + 1 < w ==> x + y * w + w + 1 < w * h,
        x + 1 < w ==> x + y * w + 1 < w * h,
{
    assert((y + 1) * w == y * w + w) by (nonlinear_arith);
    if y + 1 < h {
        assert((y + 2) * w <= h * w) by (nonlinear_arith)
            requires
                y + 2 <= h,
                0 <= w,
        ;
        assert((y + 2) * w == y * w + 2 * w) by (nonlinear_arith);
    }
    assert((y + 1) * w <= h * w) by (nonlinear_arith)
        requires
            y + 1 <= h,
            0 <= w,
    ;
}

fn fs_correct(v: i32, c: i32) -> (r: i32)
    requires
        0 <= v <= 255,
        -4080 <= c <= 4080,
    ensures
        r == fs_channel(v as int, c as int),
{
    let s: i32 = 16 * v + c;
    if s < 0 {
        0
    } else if s / 16 > 255 {
        255
    } else {
        s / 16
    }
}

/// Floyd-Steinberg error diffusion in raster order.
#[verifier::rlimit(40)]
pub fn convert_fs(image: &RgbaBuffer) -> (r: Plane<Color16>)
    requires
        image.wf(),
    ensures
        r.wf(),
        r.width == image.width,
        r.height == image.height,
        forall|i: int|
            0 <= i < r.cells().len() ==> r.cells()[i].0 == fs_state(
                *image,
                (image.width * image.height) as nat,
            ).0[i],
{
    let w = image.width;
    let h = image.height;
    let n: u32 = w * h;
    let mut inner: Plane<Color32> = Plane::filled(w, h, Color32::default());
    let mut result: Plane<Color16> = Plane::new(w, h);
    let mut i: u32 = 0;
    let mut x: u32 = 0;
    let mut y: u32 = 0;
    proof {
        if n > 0 {
            lemma_nonempty(w as int, h as int);
        }
        assert(inner.cells() =~= fs_state(*image, 0).1);
    }
    while i < n
        invariant
            image.wf(),
            n == w * h,
            w == image.width,
            h == image.height,
            result.wf(),
            result.width == w,
            result.height == h,
            inner.wf(),
            inner.width == w,
            inner.height == h,
            i <= n,
            i == x + y * w,
            i < n ==> x < w && y < h,
            fs_state(*image, i as nat).0.len() == i,
            inner.cells() == fs_state(*image, i as nat).1,
            bounded(inner.cells(), i as int, w as int),
            forall|k: int| 0 <= k < i ==> result.cells()[k].0 == fs_state(*image, i as nat).0[k],
        decreases n - i,
    {
        proof {
            lemma_cursor(i as int, x as int, y as int, w as int);
            lemma_cursor_step(x as int, y as int, w as int, h as int);
            lemma_index_facts(x as int, y as int, w as int, h as int);
        }
        let ghost prev = inner.cells();
        let source_color = image.ingest(i);
        let correction = inner.get(x, y);
        assert(within(correction, 4080int));
        let old_color = Color32::new(
            fs_correct(source_color.r, correction.r),
            fs_correct(source_color.g, correction.g),
            fs_correct(source_color.b, correction.b),
            source_color.a,
        );
        let new_color = Color16::from(old_color);
        result.set(x, y, new_color);
        let dequantized = Color32::from(new_color);
        assert(0 <= dequantized.r <= 255 && 0 <= dequantized.g <= 255 && 0 <= dequantized.b <= 255);
        let error = old_color.sub(dequantized);
        if x < w - 1 {
            inner.add(x + 1, y, error.mul(7));
        }
        if y < h - 1 {
            if x > 0 {
                inner.add(x - 1, y + 1, error.mul(3));
            }
            inner.add(x, y + 1, error.mul(5));
            if x < w - 1 {
                inner.add(x + 1, y + 1, error);
            }
        }
        proof {
            assert(inner.cells() == diffuse(prev, i as int, x as int, y as int, w as int, h as int, error));
            lemma_diffuse_bounded(prev, i as int, x as int, y as int, w as int, h as int, error);
        }
        i += 1;
        if x + 1 == w {
            x = 0;
            y += 1;
        } else {
            x += 1;
        }
    }
    result
}

/// The weight with which a residual reaches the cell `off` places after it in raster order.
pub open spec fn diffusion_weight(off: int, w: int) -> int {
    if off == 1 {
        7
    } else if off == w - 1 {
        3
    } else if off == w {
        5
    } else if off == w + 1 {
        1
    } else {
        0
    }
}

/// `after` is `before` with residual `e` of pixel `i` added to each cell with the weight that
/// reaches it.
pub open spec fn spread_by_weights(before: Seq<Color32>, after: Seq<Color32>, i: int, w: int, e: Color32) -> bool {
    &&& after.len() == before.len()
    &&& forall|k: int|
        0 <= k < before.len() ==> {
            &&& #[trigger] after[k].r == before[k].r + diffusion_weight(k - i, w) * e.r
            &&& after[k].g == before[k].g + diffusion_weight(k - i, w) * e.g
            &&& after[k].b == before[k].b + diffusion_weight(k - i, w) * e.b
        }
}

/// An interior pixel adds its residual times 7, 3, 5 and 1 to its right, lower-left, lower and
/// lower-right neighbours, leaves every other cell unchanged, and the four weights sum to 16,
/// the divisor applied when a correction is read.
#[verifier::rlimit(40)]
pub proof fn lemma_diffusion_weights(err: Seq<Color32>, x: int, y: int, w: int, h: int, e: Color32)
    requires
        0 < x,
        x + 1 < w,
        0 <= y,
        y + 1 < h,
        err.len() == w * h,
        forall|k: int| 0 <= k < err.len() ==> within(#[trigger] err[k], 4080),
        within(e, 255),
    ensures
        diffusion_weight(1, w) + diffusion_weight(w - 1, w) + diffusion_weight(w, w)
            + diffusion_weight(w + 1, w) == 16,
        spread_by_weights(err, diffuse(err, x + y * w, x, y, w, h, e), x + y * w, w, e),
{
    lemma_index_facts(x, y, w, h);
    let i = x + y * w;
    let s1 = bump(err, i + 1, scaled(e, 7));
    let s2 = bump(s1, i + w - 1, scaled(e, 3));
    let s3 = bump(s2, i + w, scaled(e, 5));
    let d = diffuse(err, i, x, y, w, h, e);
    assert(d == bump(s3, i + w + 1, e));
    assert(s1.len() == err.len() && s2.len() == err.len() && s3.len() == err.len());
    assert(d.len() == err.len());
    assert forall|k: int| 0 <= k < err.len() implies {
        &&& #[trigger] d[k].r == err[k].r + diffusion_weight(k - i, w) * e.r
        &&& d[k].g == err[k].g + diffusion_weight(k - i, w) * e.g
        &&& d[k].b == err[k].b + diffusion_weight(k - i, w) * e.b
    } by {
        assert(within(err[k], 4080));
        assert(s1.len() == err.len() && s2.len() == err.len() && s3.len() == err.len());
        let m = diffusion_weight(k - i, w);
        if k == i + 1 {
            assert(d[k] == s1[k]);
            assert(m == 7);
            assert(d[k].r == err[k].r + 7 * e.r && d[k].g == err[k].g + 7 * e.g && d[k].b == err[k].b + 7 * e.b);
        } else if k == i + w - 1 {
            assert(d[k] == s2[k]);
            assert(s1[k] == err[k]);
            assert(m == 3);
            assert(d[k].r == err[k].r + 3 * e.r && d[k].g == err[k].g + 3 * e.g && d[k].b == err[k].b + 3 * e.b);
        } else if k == i + w {
            assert(d[k] == s3[k]);
            assert(s2[k] == err[k]);
            assert(m == 5);
            assert(d[k].r == err[k].r + 5 * e.r && d[k].g == err[k].g + 5 * e.g && d[k].b == err[k].b + 5 * e.b);
        } else if k == i + w + 1 {
            assert(s3[k] == err[k]);
            assert(m == 1);
            assert(d[k].r == err[k].r + e.r && d[k].g == err[k].g + e.g && d[k].b == err[k].b + e.b);
        } else {
            assert(d[k] == err[k]);
            assert(m == 0);
        }
        assert(m * e.r == diffusion_weight(k - i, w) * e.r);
    }
    assert(spread_by_weights(err, d, i, w, e));
}

/// The ordered-dithered word of pixel `i` of `image` with the tiled 4x4 matrix.
pub open spec fn ordered4_at(image: RgbaBuffer, i: int) -> u16 {
    ordered_pixel(image.source(i), tiled4(wrapped(i % image.width as int, i / image.width as int)))
}

/// The ordered-dithered word of pixel `i` of `image` with the 8x8 matrix.
pub open spec fn ordered8_at(image: RgbaBuffer, i: int) -> u16 {
    ordered_pixel(
        image.source(i),
        bayer8_seq()[wrapped(i % image.width as int, i / image.width as int)] as int,
    )
}

/// Ordered dithering depends on nothing but the position and the source pixel: two images of
/// the same width that hold the same pixel at index `i` dither it to the same word.
pub proof fn lemma_ordered_pure(a: RgbaBuffer, b: RgbaBuffer, i: int)
    requires
        a.width == b.width,
        a.source(i) == b.source(i),
    ensures
        ordered4_at(a, i) == ordered4_at(b, i),
        ordered8_at(a, i) == ordered8_at(b, i),
{
}

/// The four dithering strategies.
#[derive(Debug, Clone, Copy, PartialEq, Eq, Structural)]
pub enum DitheringMethod {
    Posterize,
    FloydSteinberg,
    Ordered4,
    Ordered8,
}

impl DitheringMethod {
    /// Runs this strategy over `image`.
    pub fn convert(&self, image: &RgbaBuffer) -> (r: Plane<Color16>)
        requires
            image.wf(),
        ensures
            r.wf(),
            r.width == image.width,
            r.height == image.height,
            forall|i: int|
                0 <= i < r.cells().len() ==> #[trigger] r.cells()[i].0 == match *self {
                    DitheringMethod::Posterize => pack(image.source(i)),
                    DitheringMethod::FloydSteinberg => fs_state(
                        *image,
                        (image.width * image.height) as nat,
                    ).0[i],
                    DitheringMethod::Ordered4 => ordered4_at(*image, i),
                    DitheringMethod::Ordered8 => ordered8_at(*image, i),
                },
    {
        match self {
            DitheringMethod::Posterize => convert_posterize(image),
            DitheringMethod::FloydSteinberg => convert_fs(image),
            DitheringMethod::Ordered4 => convert_ordered4(image),
            DitheringMethod::Ordered8 => convert_ordered8(image),
        }
    }
}

} // verus!
