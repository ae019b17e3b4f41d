use vstd::prelude::*;

use crate::color::{unpack, Color16, Color32};

verus! {

/// A dense row-major grid of `width * height` cells.
pub struct Plane<T> {
    pub data: Vec<T>,
    pub width: u32,
    pub height: u32,
}

/// The raster index of cell (x, y) in a grid `width` cells wide.
pub open spec fn cell_index(x: int, y: int, width: int) -> int {
    x + y * width
}

proof fn lemma_index_in_bounds(x: int, y: int, w: int, h: int)
    requires
        0 <= x < w,
        0 <= y < h,
    ensures
        0 <= x + y * w < w * h,
{
    assert(y * w <= (h - 1) * w) by (nonlinear_arith)
        requires
            0 <= y < h,
            0 <= w,
    ;
    assert((h - 1) * w == h * w - w) by (nonlinear_arith);
    assert(0 <= y * w) by (nonlinear_arith)
        requires
            0 <= y,
            0 <= w,
    ;
}

impl<T> Plane<T> {
    /// The cells in raster order.
    pub open spec fn cells(&self) -> Seq<T> {
        self.data@
    }

    pub open spec fn wf(&self) -> bool {
        &&& self.width * self.height <= u32::MAX
        &&& self.cells().len() == self.width * self.height
    }

    /// The cell at (x, y).
    pub open spec fn at(&self, x: int, y: int) -> T {
        self.cells()[cell_index(x, y, self.width as int)]
    }
}

impl<T: Copy> Plane<T> {
    /// A plane whose every cell holds `value`.
    pub fn filled(width: u32, height: u32, value: T) -> (r: Plane<T>)
        requires
            width * height <= u32::MAX,
        ensures
            r.wf(),
            r.width == width,
            r.height == height,
            forall|i: int| 0 <= i < r.cells().len() ==> r.cells()[i] == value,
    {
        let n: u32 = width * height;
        let mut data: Vec<T> = Vec::new();
        let mut i: u32 = 0;
        while i < n
            invariant
                i <= n,
                data@.len() == i,
                forall|k: int| 0 <= k < i ==> data@[k] == value,
            decreases n - i,
        {
            data.push(value);
            i += 1;
        }
        Plane { data, width, height }
    }

    pub fn set(&mut self, x: u32, y: u32, value: T)
        requires
            old(self).wf(),
            x < old(self).width,
            y < old(self).height,
        ensures
            final(self).wf(),
            final(self).width == old(self).width,
            final(self).height == old(self).height,
            final(self).cells() == old(self).cells().update(
                cell_index(x as int, y as int, old(self).width as int),
                value,
            ),
    {
        proof {
            lemma_index_in_bounds(x as int, y as int, self.width as int, self.height as int);
        }
        let i = (x + y * self.width) as usize;
        self.data.set(i, value);
    }

    pub fn get(&self, x: u32, y: u32) -> (r: T)
        requires
            self.wf(),
            x < self.width,
            y < self.height,
        ensures
            r == self.at(x as int, y as int),
    {
        proof {
            lemma_index_in_bounds(x as int, y as int, self.width as int, self.height as int);
        }
        self.data[(x + y * self.width) as usize]
    }
}

impl<T: Default + Copy> Plane<T> {
    /// A plane of `width * height` default values.
    pub fn new(width: u32, height: u32) -> (r: Plane<T>)
        requires
            width * height <= u32::MAX,
        ensures
            r.wf(),
            r.width == width,
            r.height == height,
            forall|i: int, j: int|
                0 <= i < r.cells().len() && 0 <= j < r.cells().len() ==> r.cells()[i]
                    == r.cells()[j],
    {
        Plane::filled(width, height, T::default())
    }
}

/// The color `c` with `v` added to R, G and B; alpha kept.
pub open spec fn accumulated(c: Color32, v: Color32) -> Color32 {
    Color32 { r: (c.r + v.r) as i32, g: (c.g + v.g) as i32, b: (c.b + v.b) as i32, a: c.a }
}

impl Plane<Color32> {
    /// Adds `value` into the cell at (x, y).
    pub fn add(&mut self, x: u32, y: u32, value: Color32)
        requires
            old(self).wf(),
            x < old(self).width,
            y < old(self).height,
            ({
                let c = old(self).at(x as int, y as int);
                &&& i32::MIN <= c.r + value.r <= i32::MAX
                &&& i32::MIN <= c.g + value.g <= i32::MAX
                &&& i32::MIN <= c.b + value.b <= i32::MAX
            }),
        ensures
            final(self).wf(),
            final(self).width == old(self).width,
            final(self).height == old(self).height,
            final(self).cells() == old(self).cells().update(
                cell_index(x as int, y as int, old(self).width as int),
                accumulated(old(self).at(x as int, y as int), value),
            ),
    {
        proof {
            lemma_index_in_bounds(x as int, y as int, self.width as int, self.height as int);
        }
        let i = (x + y * self.width) as usize;
        let mut c = self.data[i];
        c.add_assign(value);
        self.data.set(i, c);
    }
}

impl Plane<Color16> {
    /// The plane expanded to 8-bit RGBA, four bytes per cell in raster order.
    pub fn to_rgba(&self) -> (r: Vec<u8>)
        ensures
            r@.len() == 4 * self.cells().len(),
            forall|i: int|
                0 <= i < self.cells().len() ==> {
                    let c = unpack(#[trigger] self.cells()[i].0);
                    &&& r@[4 * i] == c.r
                    &&& r@[4 * i + 1] == c.g
                    &&& r@[4 * i + 2] == c.b
                    &&& r@[4 * i + 3] == c.a
                },
    {
        let mut out: Vec<u8> = Vec::new();
        let mut i: usize = 0;
        while i < self.data.len()
            invariant
                i <= self.data@.len(),
                out@.len() == 4 * i,
                forall|k: int|
                    0 <= k < i ==> {
                        let c = unpack(#[trigger] self.cells()[k].0);
                        &&& out@[4 * k] == c.r
                        &&& out@[4 * k + 1] == c.g
                        &&& out@[4 * k + 2] == c.b
                        &&& out@[4 * k + 3] == c.a
                    },
            decreases self.data@.len() - i,
        {
            let c = Color32::from(self.data[i]);
            proof {
                let w = self.data@[i as int].0;
                assert(0 <= (w as int / 1024) % 32 < 32 && 0 <= (w as int / 32) % 32 < 32 && 0 <= w as int % 32 < 32);
            }
            assert(0 <= c.r <= 255 && 0 <= c.g <= 255 && 0 <= c.b <= 255 && 0 <= c.a <= 255);
            out.push(c.r as u8);
            out.push(c.g as u8);
            out.push(c.b as u8);
            out.push(c.a as u8);
            i += 1;
        }
        out
    }
}

} // verus!
