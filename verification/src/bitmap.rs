//! The pixel-surface abstraction: a bounds-checked, possibly row-padded
//! two-dimensional pixel buffer, modelled by `BitmapView`.

use vstd::prelude::*;

verus! {

/// Returned when a coordinate or rectangle corner lies outside the surface's
/// addressable region.
#[derive(Clone, Copy, Debug, PartialEq, Eq, Structural)]
pub struct BoundsError;

/// Mathematical model of a pixel surface: its geometry together with the
/// pixel contents, row-major with `pixels_per_line` slots per row.  The
/// visible horizontal extent is `min(width, pixels_per_line)`: the line
/// stride may exceed the width (row padding) but never constrains the height.
pub ghost struct BitmapView {
    pub bytes_per_pixel: int,
    pub pixels_per_line: int,
    pub width: int,
    pub height: int,
    pub pixels: Seq<u32>,
}

impl BitmapView {
    /// Geometry is well formed and the pixel sequence covers exactly
    /// `height` rows of `pixels_per_line` slots.
    pub open spec fn wf(self) -> bool {
        &&& 0 <= self.width <= i64::MAX
        &&& 0 <= self.height <= i64::MAX
        &&& 0 <= self.pixels_per_line <= i64::MAX
        &&& self.height * self.pixels_per_line <= usize::MAX
        &&& self.pixels.len() == self.height * self.pixels_per_line
    }

    /// The visible horizontal extent, `min(width, pixels_per_line)`.
    pub open spec fn x_extent(self) -> int {
        if self.width <= self.pixels_per_line {
            self.width
        } else {
            self.pixels_per_line
        }
    }

    pub open spec fn in_x_range(self, x: int) -> bool {
        0 <= x < self.x_extent()
    }

    pub open spec fn in_y_range(self, y: int) -> bool {
        0 <= y < self.height
    }

    /// Index of pixel (x, y) in the row-major pixel sequence.
    pub open spec fn slot(self, x: int, y: int) -> int {
        y * self.pixels_per_line + x
    }

    pub open spec fn pixel(self, x: int, y: int) -> u32 {
        self.pixels[self.slot(x, y)]
    }

    /// The same surface with pixel (x, y) set to `color`.
    pub open spec fn with_pixel(self, x: int, y: int, color: u32) -> BitmapView {
        BitmapView { pixels: self.pixels.update(self.slot(x, y), color), ..self }
    }

    pub open spec fn same_geometry(self, other: BitmapView) -> bool {
        &&& self.bytes_per_pixel == other.bytes_per_pixel
        &&& self.pixels_per_line == other.pixels_per_line
        &&& self.width == other.width
        &&& self.height == other.height
    }
}

/// Any pixel whose column lies within the line stride and whose row lies
/// within the height has its slot inside the pixel sequence.
pub proof fn lemma_slot_in_bounds(b: BitmapView, x: int, y: int)
    requires
        b.wf(),
        0 <= x < b.pixels_per_line,
        0 <= y < b.height,
    ensures
        0 <= b.slot(x, y) < b.pixels.len(),
{
    assert(0 <= y * b.pixels_per_line + x < b.height * b.pixels_per_line) by (nonlinear_arith)
        requires
            0 <= x < b.pixels_per_line,
            0 <= y < b.height,
    ;
}

/// Distinct coordinates within a row-major grid occupy distinct slots.
pub proof fn lemma_slot_distinct(b: BitmapView, x1: int, y1: int, x2: int, y2: int)
    requires
        0 <= x1 < b.pixels_per_line,
        0 <= x2 < b.pixels_per_line,
        0 <= y1,
        0 <= y2,
        !(x1 == x2 && y1 == y2),
    ensures
        b.slot(x1, y1) != b.slot(x2, y2),
{
    if y1 == y2 {
    } else {
        assert(y1 * b.pixels_per_line + x1 != y2 * b.pixels_per_line + x2) by (nonlinear_arith)
            requires
                0 <= x1 < b.pixels_per_line,
                0 <= x2 < b.pixels_per_line,
                y1 != y2,
        ;
    }
}

/// The capability set of a drawable surface: geometry accessors, bounds
/// checks, and guarded pixel access.  `set_pixel` is the internal fast path
/// of the hot drawing loops; its guard is the pair of range checks, so it
/// must never be reached without them.
pub trait Bitmap: Sized {
    /// The mathematical surface this value represents.
    spec fn bm(&self) -> BitmapView;

    fn bytes_per_pixel(&self) -> (r: i64)
        ensures
            r == self.bm().bytes_per_pixel,
    ;

    fn pixels_per_line(&self) -> (r: i64)
        ensures
            r == self.bm().pixels_per_line,
    ;

    fn width(&self) -> (r: i64)
        ensures
            r == self.bm().width,
    ;

    fn height(&self) -> (r: i64)
        ensures
            r == self.bm().height,
    ;

    /// Write `color` at (x, y).  Callers must have passed both range checks.
    fn set_pixel(&mut self, x: i64, y: i64, color: u32)
        requires
            old(self).bm().wf(),
            old(self).bm().in_x_range(x as int),
            old(self).bm().in_y_range(y as int),
        ensures
            final(self).bm() == old(self).bm().with_pixel(x as int, y as int, color),
            final(self).bm().wf(),
    ;

    /// Read the pixel at (x, y).  Callers must have passed both range checks.
    fn get_pixel(&self, x: i64, y: i64) -> (r: u32)
        requires
            self.bm().wf(),
            self.bm().in_x_range(x as int),
            self.bm().in_y_range(y as int),
        ensures
            r == self.bm().pixel(x as int, y as int),
    ;

    fn is_in_x_range(&self, px: i64) -> (r: bool)
        ensures
            r == self.bm().in_x_range(px as int),
    {
        let w = self.width();
        let l = self.pixels_per_line();
        let m = if w <= l {
            w
        } else {
            l
        };
        0 <= px && px < m
    }

    fn is_in_y_range(&self, py: i64) -> (r: bool)
        ensures
            r == self.bm().in_y_range(py as int),
    {
        0 <= py && py < self.height()
    }
}

/// An in-memory surface: an owned contiguous buffer of one `u32` slot per
/// pixel, addressed by the same range predicates as any other surface.
pub struct MemoryBitmap {
    bytes_per_pixel: i64,
    pixels_per_line: i64,
    width: i64,
    height: i64,
    buf: Vec<u32>,
}

impl MemoryBitmap {
    /// Build a zero-filled surface.  Returns `None` when the geometry is
    /// negative or the buffer would not fit in memory.
    pub fn new(width: i64, height: i64, pixels_per_line: i64, bytes_per_pixel: i64) -> (r: Option<
        MemoryBitmap,
    >)
        ensures
            r is Some <==> (0 <= width && 0 <= height && 0 <= pixels_per_line && height
                * pixels_per_line <= usize::MAX),
            r matches Some(b) ==> b.bm() == (BitmapView {
                bytes_per_pixel: bytes_per_pixel as int,
                pixels_per_line: pixels_per_line as int,
                width: width as int,
                height: height as int,
                pixels: Seq::new((height * pixels_per_line) as nat, |i: int| 0u32),
            }),
            r matches Some(b) ==> b.bm().wf(),
    {
        if width < 0 || height < 0 || pixels_per_line < 0 {
            return None;
        }
        proof {
            assert((height as int) * (pixels_per_line as int) <= u128::MAX) by (nonlinear_arith)
                requires
                    0 <= height <= i64::MAX,
                    0 <= pixels_per_line <= i64::MAX,
            ;
        }
        if (height as u128) * (pixels_per_line as u128) > usize::MAX as u128 {
            return None;
        }
        let n: usize = ((height as u128) * (pixels_per_line as u128)) as usize;
        let mut buf: Vec<u32> = Vec::new();
        while buf.len() < n
            invariant
                buf@.len() <= n,
                forall|i: int| 0 <= i < buf@.len() ==> buf@[i] == 0u32,
            decreases n - buf@.len(),
        {
            buf.push(0u32);
        }
        let b = MemoryBitmap { bytes_per_pixel, pixels_per_line, width, height, buf };
        proof {
            assert(b.bm().pixels =~= Seq::new((height * pixels_per_line) as nat, |i: int| 0u32));
        }
        Some(b)
    }
}

impl Bitmap for MemoryBitmap {
    closed spec fn bm(&self) -> BitmapView {
        BitmapView {
            bytes_per_pixel: self.bytes_per_pixel as int,
            pixels_per_line: self.pixels_per_line as int,
            width: self.width as int,
            height: self.height as int,
            pixels: self.buf@,
        }
    }

    fn bytes_per_pixel(&self) -> (r: i64) {
        self.bytes_per_pixel
    }

    fn pixels_per_line(&self) -> (r: i64) {
        self.pixels_per_line
    }

    fn width(&self) -> (r: i64) {
        self.width
    }

    fn height(&self) -> (r: i64) {
        self.height
    }

    fn set_pixel(&mut self, x: i64, y: i64, color: u32) {
        proof {
            lemma_slot_in_bounds(self.bm(), x as int, y as int);
        }
        let i: usize = ((y as u64) * (self.pixels_per_line as u64) + (x as u64)) as usize;
        self.buf.set(i, color);
    }

    fn get_pixel(&self, x: i64, y: i64) -> (r: u32) {
        proof {
            lemma_slot_in_bounds(self.bm(), x as int, y as int);
        }
        let i: usize = ((y as u64) * (self.pixels_per_line as u64) + (x as u64)) as usize;
        self.buf[i]
    }
}

} // verus!
