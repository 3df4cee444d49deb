//! Rasters: a mathematical grid of pixels and the buffer that stores one.

use vstd::prelude::*;
use crate::colour::Color;
use crate::error::PixelError;

verus! {

/// The mathematical content of a raster: its dimensions and its pixels in
/// row-major order, top row first.
pub struct Grid {
    pub width: nat,
    pub height: nat,
    pub pixels: Seq<Color>,
}

impl Grid {
    /// There is exactly one pixel per cell.
    pub open spec fn wf(self) -> bool {
        self.pixels.len() == self.width * self.height
    }

    /// The cell `(x, y)` lies inside the raster.
    pub open spec fn contains(self, x: int, y: int) -> bool {
        0 <= x < self.width && 0 <= y < self.height
    }

    /// The position of cell `(x, y)` in `pixels`.
    pub open spec fn offset(self, x: int, y: int) -> int {
        y * self.width + x
    }

    /// The pixel at cell `(x, y)`.
    pub open spec fn at(self, x: int, y: int) -> Color {
        self.pixels[self.offset(x, y)]
    }

    /// The raster with the pixel at cell `(x, y)` replaced by `c`.
    pub open spec fn set(self, x: int, y: int, c: Color) -> Grid {
        Grid {
            width: self.width,
            height: self.height,
            pixels: self.pixels.update(self.offset(x, y), c),
        }
    }

    /// The column of the pixel stored at position `p`.
    pub open spec fn column_of(self, p: int) -> int {
        p % (self.width as int)
    }

    /// The row of the pixel stored at position `p`.
    pub open spec fn row_of(self, p: int) -> int {
        p / (self.width as int)
    }
}

/// A cell inside a well-formed raster has a position inside `pixels`, and
/// the row and the column of that position are those of the cell.
pub proof fn lemma_offset(g: Grid, x: int, y: int)
    requires
        g.wf(),
        g.contains(x, y),
    ensures
        0 <= g.offset(x, y) < g.pixels.len(),
        g.column_of(g.offset(x, y)) == x,
        g.row_of(g.offset(x, y)) == y,
{
    let w = g.width as int;
    let h = g.height as int;
    assert(0 <= y * w + x < w * h && (y * w + x) % w == x && (y * w + x) / w == y)
        by (nonlinear_arith)
        requires
            0 <= x < w,
            0 <= y < h,
    ;
}

/// A position inside `pixels` belongs to a cell inside the raster.
pub proof fn lemma_position(g: Grid, p: int)
    requires
        g.wf(),
        0 <= p < g.pixels.len(),
    ensures
        g.contains(g.column_of(p), g.row_of(p)),
        g.offset(g.column_of(p), g.row_of(p)) == p,
{
    let w = g.width as int;
    let h = g.height as int;
    assert(w > 0 && 0 <= p % w < w && 0 <= p / w < h && (p / w) * w + p % w == p)
        by (nonlinear_arith)
        requires
            0 <= p < w * h,
            0 <= w,
            0 <= h,
    ;
}

/// A width-by-height raster of colours, stored row by row from the top.
#[derive(Debug)]
pub struct PixelBuffer {
    width: u32,
    height: u32,
    pixels: Vec<Color>,
}

impl View for PixelBuffer {
    type V = Grid;

    closed spec fn view(&self) -> Grid {
        Grid { width: self.width as nat, height: self.height as nat, pixels: self.pixels@ }
    }
}

impl PixelBuffer {
    /// The buffer holds exactly one pixel per cell and its dimensions fit
    /// 32 bits. Every buffer made by this library is well-formed.
    pub open spec fn wf(&self) -> bool {
        &&& self@.wf()
        &&& self@.width <= u32::MAX
        &&& self@.height <= u32::MAX
    }

    /// Makes a raster from its dimensions and its pixels in row-major
    /// order. The number of pixels must be `width * height`.
    pub fn new(width: u32, height: u32, pixels: Vec<Color>) -> (r: Result<PixelBuffer, PixelError>)
        ensures
            pixels@.len() != width * height ==> r is Err && r->Err_0
                == PixelError::InvalidArgument,
            pixels@.len() == width * height ==> r is Ok && r->Ok_0.wf() && r->Ok_0@ == (Grid {
                width: width as nat,
                height: height as nat,
                pixels: pixels@,
            }),
    {
        proof {
            assert(width * height <= 0xFFFF_FFFF * 0xFFFF_FFFF) by (nonlinear_arith)
                requires
                    0 <= width <= 0xFFFF_FFFF,
                    0 <= height <= 0xFFFF_FFFF,
            ;
        }
        let cells: u64 = width as u64 * height as u64;
        if pixels.len() as u64 != cells {
            return Err(PixelError::InvalidArgument);
        }
        Ok(PixelBuffer { width, height, pixels })
    }

    /// Makes a raster with every pixel set to `color`, or nothing when
    /// `width * height` pixels cannot be addressed on this machine.
    pub fn filled(width: u32, height: u32, color: Color) -> (r: Option<PixelBuffer>)
        ensures
            r is Some <==> width * height <= usize::MAX,
            r is Some ==> r->Some_0.wf() && r->Some_0@.width == width && r->Some_0@.height
                == height && forall|i: int|
                0 <= i < width * height ==> #[trigger] r->Some_0@.pixels[i] == color,
    {
        proof {
            assert(width * height <= 0xFFFF_FFFF * 0xFFFF_FFFF) by (nonlinear_arith)
                requires
                    0 <= width <= 0xFFFF_FFFF,
                    0 <= height <= 0xFFFF_FFFF,
            ;
        }
        let cells: u64 = width as u64 * height as u64;
        if cells > usize::MAX as u64 {
            return None;
        }
        let count = cells as usize;
        let mut pixels: Vec<Color> = Vec::new();
        let mut i: usize = 0;
        while i < count
            invariant
                i <= count,
                pixels@.len() == i,
                forall|j: int| 0 <= j < i ==> #[trigger] pixels@[j] == color,
            decreases count - i,
        {
            pixels.push(color);
            i = i + 1;
        }
        Some(PixelBuffer { width, height, pixels })
    }

    /// The number of columns.
    pub fn width(&self) -> (w: u32)
        ensures
            w == self@.width,
    {
        self.width
    }

    /// The number of rows.
    pub fn height(&self) -> (h: u32)
        ensures
            h == self@.height,
    {
        self.height
    }

    /// The pixels in row-major order.
    pub fn pixels(&self) -> (p: &Vec<Color>)
        ensures
            p@ == self@.pixels,
    {
        &self.pixels
    }

    /// The number of pixels.
    pub fn len(&self) -> (n: usize)
        ensures
            n == self@.pixels.len(),
    {
        self.pixels.len()
    }

    /// Reads the pixel at cell `(x, y)`.
    pub fn get_pixel(&self, x: u32, y: u32) -> (c: Color)
        requires
            self.wf(),
            self@.contains(x as int, y as int),
        ensures
            c == self@.at(x as int, y as int),
    {
        let count = self.pixels.len();
        proof {
            lemma_offset(self@, x as int, y as int);
            assert(0 <= (y as int) * (self.width as int)) by (nonlinear_arith);
        }
        self.pixels[y as usize * self.width as usize + x as usize]
    }

    /// Replaces the pixel at cell `(x, y)`.
    pub fn put_pixel(&mut self, x: u32, y: u32, c: Color)
        requires
            old(self).wf(),
            old(self)@.contains(x as int, y as int),
        ensures
            final(self).wf(),
            final(self)@ == old(self)@.set(x as int, y as int, c),
    {
        let count = self.pixels.len();
        proof {
            lemma_offset(self@, x as int, y as int);
            assert(0 <= (y as int) * (self.width as int)) by (nonlinear_arith);
        }
        let i = y as usize * self.width as usize + x as usize;
        self.pixels.set(i, c);
    }

    /// Reads the pixel stored at position `p` of the row-major order.
    pub fn get(&self, p: usize) -> (c: Color)
        requires
            p < self@.pixels.len(),
        ensures
            c == self@.pixels[p as int],
    {
        self.pixels[p]
    }

    /// Replaces the pixel stored at position `p` of the row-major order.
    pub fn put(&mut self, p: usize, c: Color)
        requires
            old(self).wf(),
            p < old(self)@.pixels.len(),
        ensures
            final(self).wf(),
            final(self)@.width == old(self)@.width,
            final(self)@.height == old(self)@.height,
            final(self)@.pixels == old(self)@.pixels.update(p as int, c),
    {
        self.pixels.set(p, c);
    }
}

} // verus!
