//! The raster that the vectorizer reads: a rectangle of intensities, one byte
//! per pixel, stored row by row.

use vstd::prelude::*;

verus! {

/// A pixel is foreground when its intensity is above this threshold.
pub const FOREGROUND_THRESHOLD: u8 = 128;

/// The mathematical content of a raster: its extent and its intensities in
/// raster order (left to right, then top to bottom).
pub struct RasterView {
    pub width: nat,
    pub height: nat,
    pub pixels: Seq<u8>,
}

impl RasterView {
    /// There is exactly one intensity per pixel.
    pub open spec fn wf(self) -> bool {
        self.pixels.len() == self.width * self.height
    }

    /// Whether `(x, y)` names a pixel of the raster.
    pub open spec fn within(self, x: int, y: int) -> bool {
        0 <= x < self.width && 0 <= y < self.height
    }

    /// Position of pixel `(x, y)` in raster order.
    pub open spec fn cell(self, x: int, y: int) -> int {
        y * self.width + x
    }

    /// Whether `(x, y)` is a foreground pixel.
    pub open spec fn lit(self, x: int, y: int) -> bool {
        self.within(x, y) && self.pixels[self.cell(x, y)] > FOREGROUND_THRESHOLD
    }

    /// Number of foreground pixels among the first `k` in raster order.
    pub open spec fn lit_among(self, k: nat) -> nat
        decreases k,
    {
        if k == 0 {
            0
        } else {
            self.lit_among((k - 1) as nat) + if self.pixels[k - 1] > FOREGROUND_THRESHOLD {
                1nat
            } else {
                0nat
            }
        }
    }

    /// Number of foreground pixels of the raster.
    pub open spec fn lit_count(self) -> nat {
        self.lit_among(self.pixels.len())
    }
}

/// A pixel of a well-formed raster has a position inside the pixel sequence.
pub proof fn lemma_cell_in_range(r: RasterView, x: int, y: int)
    requires
        r.wf(),
        r.within(x, y),
    ensures
        0 <= r.cell(x, y) < r.pixels.len(),
        r.cell(x, y) < r.width * r.height,
{
    assert(y * r.width + x < r.width * r.height) by (nonlinear_arith)
        requires
            0 <= x < r.width,
            0 <= y < r.height,
    ;
    assert(0 <= y * r.width + x) by (nonlinear_arith)
        requires
            0 <= x,
            0 <= y,
    ;
}

/// Two different pixels have two different positions in raster order.
pub proof fn lemma_cell_injective(r: RasterView, x1: int, y1: int, x2: int, y2: int)
    requires
        0 <= x1 < r.width,
        0 <= x2 < r.width,
        r.cell(x1, y1) == r.cell(x2, y2),
    ensures
        x1 == x2,
        y1 == y2,
{
    let w = r.width as int;
    if y1 < y2 {
        assert(y2 * w >= (y1 + 1) * w) by (nonlinear_arith)
            requires
                y1 < y2,
                w > 0,
        ;
        assert((y1 + 1) * w == y1 * w + w) by (nonlinear_arith);
    } else if y2 < y1 {
        assert(y1 * w >= (y2 + 1) * w) by (nonlinear_arith)
            requires
                y2 < y1,
                w > 0,
        ;
        assert((y2 + 1) * w == y2 * w + w) by (nonlinear_arith);
    }
}

/// A rectangle of intensities. The buffer always holds exactly
/// `width * height` bytes.
pub struct Raster {
    width: u32,
    height: u32,
    pixels: Vec<u8>,
}

impl View for Raster {
    type V = RasterView;

    closed spec fn view(&self) -> RasterView {
        RasterView { width: self.width as nat, height: self.height as nat, pixels: self.pixels@ }
    }
}

impl Raster {
    /// There is one intensity per pixel.
    #[verifier::type_invariant]
    spec fn well_formed(self) -> bool {
        self.pixels@.len() == self.width * self.height
    }

    /// Builds a raster from its extent and its intensities in raster order.
    /// The buffer must hold one byte per pixel; otherwise there is no raster.
    pub fn new(width: u32, height: u32, pixels: Vec<u8>) -> (result: Option<Raster>)
        ensures
            result is Some <==> pixels@.len() == width * height,
            result matches Some(r) ==> r@ == (RasterView {
                width: width as nat,
                height: height as nat,
                pixels: pixels@,
            }),
    {
        assert(width * height <= 0xffff_ffff * 0xffff_ffff) by (nonlinear_arith)
            requires
                0 <= width <= 0xffff_ffff,
                0 <= height <= 0xffff_ffff,
        ;
        let area: u64 = width as u64 * height as u64;
        if pixels.len() as u64 == area {
            Some(Raster { width, height, pixels })
        } else {
            None
        }
    }

    /// Number of pixels in a row.
    pub fn width(&self) -> (w: u32)
        ensures
            w == self@.width,
            self@.wf(),
    {
        proof {
            use_type_invariant(self);
        }
        self.width
    }

    /// Number of rows.
    pub fn height(&self) -> (h: u32)
        ensures
            h == self@.height,
            self@.wf(),
    {
        proof {
            use_type_invariant(self);
        }
        self.height
    }

    /// Intensity of the pixel at `(x, y)`.
    pub fn intensity(&self, x: u32, y: u32) -> (v: u8)
        requires
            self@.within(x as int, y as int),
        ensures
            v == self@.pixels[self@.cell(x as int, y as int)],
    {
        let at: usize = self.cell_index(x as usize, y as usize);
        self.pixels[at]
    }

    /// Number of pixels.
    pub fn area(&self) -> (n: usize)
        ensures
            n == self@.pixels.len(),
            self@.wf(),
    {
        proof {
            use_type_invariant(self);
        }
        self.pixels.len()
    }

    /// Position of the pixel at `(x, y)` in raster order.
    pub fn cell_index(&self, x: usize, y: usize) -> (at: usize)
        requires
            self@.within(x as int, y as int),
        ensures
            at == self@.cell(x as int, y as int),
            at < self@.pixels.len(),
    {
        let stride: usize = self.width as usize;
        let area: usize = self.pixels.len();
        proof {
            use_type_invariant(self);
            lemma_cell_in_range(self@, x as int, y as int);
            assert(y * stride + x < area);
            assert(0 <= y * stride) by (nonlinear_arith)
                requires
                    0 <= y,
                    0 <= stride,
            ;
        }
        y * stride + x
    }

    /// Whether `(x, y)` is a foreground pixel of the raster. A position
    /// outside the raster is never foreground.
    pub fn is_lit(&self, x: usize, y: usize) -> (lit: bool)
        ensures
            lit == self@.lit(x as int, y as int),
    {
        if x < self.width as usize && y < self.height as usize {
            self.intensity(x as u32, y as u32) > FOREGROUND_THRESHOLD
        } else {
            false
        }
    }
}

} // verus!
