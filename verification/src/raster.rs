//! A raster of pixels of any kind, stored row by row.

use vstd::prelude::*;
use crate::geom::WHi;

verus! {

/// What a raster holds: its size and its pixels, row after row from the top,
/// each row from the left.
pub struct RasterView<P> {
    pub width: nat,
    pub height: nat,
    pub pixels: Seq<P>,
}

impl<P> RasterView<P> {
    /// There is one pixel for each cell.
    pub open spec fn well_formed(self) -> bool {
        self.pixels.len() == self.width * self.height
    }

    /// Whether the raster has a cell in column `x` of row `y`.
    pub open spec fn in_bounds(self, x: int, y: int) -> bool {
        0 <= x < self.width && 0 <= y < self.height
    }

    /// The pixel in column `x` of row `y`.
    pub open spec fn at(self, x: int, y: int) -> P
        recommends
            self.in_bounds(x, y),
    {
        self.pixels[y * self.width + x]
    }

    /// The raster with the pixel in column `x` of row `y` replaced.
    pub open spec fn with_pixel(self, x: int, y: int, pixel: P) -> RasterView<P>
        recommends
            self.in_bounds(x, y),
    {
        RasterView {
            width: self.width,
            height: self.height,
            pixels: self.pixels.update(y * self.width + x, pixel),
        }
    }

    /// Width and height.
    pub open spec fn size(self) -> WHi {
        (self.width as u32, self.height as u32)
    }
}

/// Each cell of a raster has a place of its own among the pixels.
pub proof fn lemma_cell_index(width: nat, height: nat, x: int, y: int)
    requires
        0 <= x < width,
        0 <= y < height,
    ensures
        0 <= y * width + x < width * height,
        (y * width + x) % (width as int) == x,
        (y * width + x) / (width as int) == y,
{
    let w = width as int;
    assert(y * w + x < w * height) by (nonlinear_arith)
        requires
            0 <= x < w,
            0 <= y < height,
    ;
    assert(0 <= y * w) by (nonlinear_arith)
        requires
            0 <= y,
            0 < w,
    ;
    vstd::arithmetic::div_mod::lemma_fundamental_div_mod_converse(y * w + x, w, y, x);
    assert(w * height == width * height);
}

/// Replacing one pixel changes that cell and no other.
pub proof fn lemma_with_pixel<P>(raster: RasterView<P>, x: int, y: int, pixel: P, i: int, j: int)
    requires
        raster.well_formed(),
        raster.in_bounds(x, y),
        raster.in_bounds(i, j),
    ensures
        raster.with_pixel(x, y, pixel).well_formed(),
        raster.with_pixel(x, y, pixel).at(i, j) == if i == x && j == y {
            pixel
        } else {
            raster.at(i, j)
        },
{
    lemma_cell_index(raster.width, raster.height, x, y);
    lemma_cell_index(raster.width, raster.height, i, j);
}

/// Two rasters of one size that agree in every cell are the same raster.
pub proof fn lemma_same_cells<P>(a: RasterView<P>, b: RasterView<P>)
    requires
        a.well_formed(),
        b.well_formed(),
        a.width == b.width,
        a.height == b.height,
        forall|x: int, y: int| a.in_bounds(x, y) ==> a.at(x, y) == b.at(x, y),
    ensures
        a == b,
{
    let w = a.width as int;
    assert forall|i: int| 0 <= i < a.pixels.len() implies a.pixels[i] == b.pixels[i] by {
        if w == 0 {
            assert(a.width * a.height == 0) by (nonlinear_arith)
                requires
                    a.width == 0,
            ;
        } else {
            let x = i % w;
            let y = i / w;
            vstd::arithmetic::div_mod::lemma_fundamental_div_mod(i, w);
            assert(w * y == y * w) by (nonlinear_arith);
            assert(0 <= y < a.height) by (nonlinear_arith)
                requires
                    0 <= i < w * a.height,
                    i == w * y + x,
                    0 <= x < w,
            ;
            assert(a.in_bounds(x, y));
            assert(a.at(x, y) == b.at(x, y));
        }
    }
    assert(a.pixels =~= b.pixels);
}

/// A raster of `width` by `height` pixels. Every function that makes one
/// makes it with one pixel for each cell, and none breaks that.
pub struct Raster<P> {
    width: u32,
    height: u32,
    pixels: Vec<P>,
}

impl<P> View for Raster<P> {
    type V = RasterView<P>;

    closed spec fn view(&self) -> RasterView<P> {
        RasterView { width: self.width as nat, height: self.height as nat, pixels: self.pixels@ }
    }
}

impl<P> Raster<P> {
    /// A raster over pixels given row by row; `None` where their number is
    /// not that of the cells.
    pub fn from_vec(width: u32, height: u32, pixels: Vec<P>) -> (raster: Option<Raster<P>>)
        ensures
            raster is Some <==> pixels@.len() == width * height,
            raster matches Some(r) ==> r@.well_formed() && r@ == (RasterView {
                width: width as nat,
                height: height as nat,
                pixels: pixels@,
            }),
    {
        assert(width as u64 * height as u64 <= 0xFFFF_FFFF * 0xFFFF_FFFF) by (nonlinear_arith)
            requires
                width as u64 <= 0xFFFF_FFFF,
                height as u64 <= 0xFFFF_FFFF,
        ;
        let cells: u64 = width as u64 * height as u64;
        if pixels.len() as u64 == cells {
            Some(Raster { width, height, pixels })
        } else {
            None
        }
    }

    /// The pixels, row by row.
    pub fn into_vec(self) -> (pixels: Vec<P>)
        ensures
            pixels@ == self@.pixels,
    {
        self.pixels
    }

    /// The number of columns.
    pub fn width(&self) -> (width: u32)
        ensures
            width == self@.width,
    {
        self.width
    }

    /// The number of rows.
    pub fn height(&self) -> (height: u32)
        ensures
            height == self@.height,
    {
        self.height
    }

    /// Replaces the pixel in column `x` of row `y`.
    pub fn put_pixel(&mut self, x: u32, y: u32, pixel: P)
        requires
            old(self)@.well_formed(),
            old(self)@.in_bounds(x as int, y as int),
        ensures
            final(self)@ == old(self)@.with_pixel(x as int, y as int, pixel),
            final(self)@.well_formed(),
    {
        let index: usize = self.cell(x, y);
        self.pixels.set(index, pixel);
    }

    fn cell(&self, x: u32, y: u32) -> (index: usize)
        requires
            self@.well_formed(),
            self@.in_bounds(x as int, y as int),
        ensures
            index == y * self@.width + x,
            index < self@.pixels.len(),
    {
        let cells: usize = self.pixels.len();
        proof {
            let w: int = self.width as int;
            let h: int = self.height as int;
            lemma_cell_index(self.width as nat, self.height as nat, x as int, y as int);
            assert(0 <= y * w && y * w + x < w * h) by (nonlinear_arith)
                requires
                    0 <= y < h,
                    0 <= x < w,
            ;
            assert(cells == w * h);
            assert((y as usize) * (self.width as usize) == y * w);
        }
        let row: usize = y as usize * self.width as usize;
        row + x as usize
    }
}

impl<P: Copy> Raster<P> {
    /// A raster with the same pixel in every cell.
    pub fn from_pixel(width: u32, height: u32, pixel: P) -> (raster: Raster<P>)
        requires
            width * height <= usize::MAX,
        ensures
            raster@ == (RasterView {
                width: width as nat,
                height: height as nat,
                pixels: Seq::new((width * height) as nat, |i: int| pixel),
            }),
            raster@.well_formed(),
    {
        let cells: usize = width as usize * height as usize;
        let mut pixels: Vec<P> = Vec::new();
        let mut i: usize = 0;
        while i < cells
            invariant
                i <= cells,
                pixels@ == Seq::new(i as nat, |k: int| pixel),
            decreases cells - i,
        {
            pixels.push(pixel);
            proof {
                assert(pixels@ =~= Seq::new((i + 1) as nat, |k: int| pixel));
            }
            i += 1;
        }
        Raster { width, height, pixels }
    }

    /// A raster of the same size in which each cell holds what `convert`
    /// makes of the pixel in that cell.
    pub fn map<Q, F: Fn(P) -> Q>(&self, convert: F) -> (mapped: Raster<Q>)
        requires
            self@.well_formed(),
            forall|pixel: P| call_requires(convert, (pixel,)),
        ensures
            mapped@.well_formed(),
            mapped@.width == self@.width,
            mapped@.height == self@.height,
            forall|i: int|
                0 <= i < self@.pixels.len() ==> call_ensures(
                    convert,
                    (self@.pixels[i],),
                    #[trigger] mapped@.pixels[i],
                ),
    {
        let mut pixels: Vec<Q> = Vec::new();
        let mut i: usize = 0;
        while i < self.pixels.len()
            invariant
                i <= self.pixels.len(),
                pixels@.len() == i,
                forall|pixel: P| call_requires(convert, (pixel,)),
                forall|k: int|
                    0 <= k < i ==> call_ensures(convert, (self.pixels@[k],), #[trigger] pixels@[k]),
            decreases self.pixels.len() - i,
        {
            pixels.push(convert(self.pixels[i]));
            i += 1;
        }
        Raster { width: self.width, height: self.height, pixels }
    }

    /// The pixel in column `x` of row `y`.
    pub fn get_pixel(&self, x: u32, y: u32) -> (pixel: P)
        requires
            self@.well_formed(),
            self@.in_bounds(x as int, y as int),
        ensures
            pixel == self@.at(x as int, y as int),
    {
        let index: usize = self.cell(x, y);
        self.pixels[index]
    }
}

} // verus!
