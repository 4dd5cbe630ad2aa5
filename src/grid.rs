use vstd::prelude::*;

verus! {

/// Flat, row-major offset of row `r`, column `c` in a grid `w` pixels wide.
pub open spec fn idx(w: int, r: int, c: int) -> int {
    w * r + c
}

/// The abstract value of a pixel grid: its row-major pixels and its dimensions.
pub struct GridView {
    pub pixels: Seq<[u8; 3]>,
    pub width: nat,
    pub height: nat,
}

impl GridView {
    /// A grid of at least one row and one column whose pixel count matches its
    /// dimensions and whose flat offsets fit in a `u32`.
    pub open spec fn wf(self) -> bool {
        &&& self.width >= 1
        &&& self.height >= 1
        &&& self.pixels.len() == self.width * self.height
        &&& self.pixels.len() <= u32::MAX
    }

    /// The pixel at row `r`, column `c`.
    pub open spec fn at(self, r: int, c: int) -> [u8; 3] {
        self.pixels[idx(self.width as int, r, c)]
    }
}

/// Why a grid or a session could not be set up.
#[derive(Debug, Clone, Copy, PartialEq, Eq, Structural)]
pub enum CarveError {
    /// The pixel count differs from `width * height`, a dimension is zero, or
    /// the pixel count does not fit in a `u32`.
    InvalidDimensions,
    /// The lock that guards a session's seam history was left broken by a
    /// worker that stopped abnormally; the session has to be set up again.
    EngineUnavailable,
}

/// A row-major grid of RGB pixels.
pub struct PixelGrid {
    pixels: Vec<[u8; 3]>,
    width: u32,
    height: u32,
}

/// The dimensions that `PixelGrid::new` accepts for `len` pixels.
pub open spec fn dims_ok(len: int, width: int, height: int) -> bool {
    &&& width >= 1
    &&& height >= 1
    &&& len == width * height
    &&& len <= u32::MAX
}

impl View for PixelGrid {
    type V = GridView;

    closed spec fn view(&self) -> GridView {
        GridView { pixels: self.pixels@, width: self.width as nat, height: self.height as nat }
    }
}

impl PixelGrid {
    /// Builds a grid from row-major pixels, rejecting dimensions that do not
    /// describe them.
    pub fn new(pixels: Vec<[u8; 3]>, width: u32, height: u32) -> (r: Result<PixelGrid, CarveError>)
        ensures
            match r {
                Ok(g) => {
                    &&& dims_ok(pixels@.len() as int, width as int, height as int)
                    &&& g@.wf()
                    &&& g@ == (GridView { pixels: pixels@, width: width as nat, height: height as nat })
                },
                Err(e) => {
                    &&& !dims_ok(pixels@.len() as int, width as int, height as int)
                    &&& e == CarveError::InvalidDimensions
                },
            },
    {
        if width == 0 || height == 0 {
            return Err(CarveError::InvalidDimensions);
        }
        let len = pixels.len();
        if len as u64 > u32::MAX as u64 {
            return Err(CarveError::InvalidDimensions);
        }
        assert(width as u64 * height as u64 <= u32::MAX as u64 * u32::MAX as u64) by (nonlinear_arith)
            requires width <= u32::MAX, height <= u32::MAX;
        let total: u64 = width as u64 * height as u64;
        if total != len as u64 {
            return Err(CarveError::InvalidDimensions);
        }
        Ok(PixelGrid { pixels, width, height })
    }

    /// Wraps pixels whose dimensions are already known to be right.
    pub(crate) fn from_parts(pixels: Vec<[u8; 3]>, width: u32, height: u32) -> (g: PixelGrid)
        requires
            dims_ok(pixels@.len() as int, width as int, height as int),
        ensures
            g@ == (GridView { pixels: pixels@, width: width as nat, height: height as nat }),
            g@.wf(),
    {
        PixelGrid { pixels, width, height }
    }

    pub fn width(&self) -> (w: u32)
        ensures
            w == self@.width,
    {
        self.width
    }

    pub fn height(&self) -> (h: u32)
        ensures
            h == self@.height,
    {
        self.height
    }

    /// The pixels, row by row.
    pub fn pixels(&self) -> (p: &Vec<[u8; 3]>)
        ensures
            p@ == self@.pixels,
    {
        &self.pixels
    }

    /// A copy of this grid.
    pub fn copy(&self) -> (g: PixelGrid)
        ensures
            g@ == self@,
    {
        let mut pixels: Vec<[u8; 3]> = Vec::new();
        let mut i: usize = 0;
        while i < self.pixels.len()
            invariant
                i <= self.pixels@.len(),
                pixels@ == self.pixels@.subrange(0, i as int),
            decreases self.pixels@.len() - i,
        {
            pixels.push(self.pixels[i]);
            i += 1;
            proof {
                assert(pixels@ =~= self.pixels@.subrange(0, i as int));
            }
        }
        proof {
            assert(pixels@ =~= self.pixels@);
        }
        PixelGrid { pixels, width: self.width, height: self.height }
    }
}

/// Row `r`, column `c` of a `w`-wide grid of `h` rows lies inside its pixels.
pub proof fn lemma_idx_in_bounds(w: int, h: int, r: int, c: int)
    requires
        0 <= r < h,
        0 <= c < w,
    ensures
        0 <= idx(w, r, c) < w * h,
        idx(w, r, 0) + w <= w * h,
        idx(w, r, c) >= w * r,
{
    assert(0 <= w * r) by (nonlinear_arith)
        requires 0 <= r, 0 <= w;
    assert(w * r + w <= w * h) by (nonlinear_arith)
        requires r + 1 <= h, 0 <= w;
}

/// Stepping one row down moves the flat offset by one width.
pub proof fn lemma_idx_next_row(w: int, r: int, c: int)
    ensures
        idx(w, r + 1, c) == idx(w, r, c) + w,
        idx(w, r, c + 1) == idx(w, r, c) + 1,
{
    assert(w * (r + 1) == w * r + w) by (nonlinear_arith);
}

/// The row and column of a flat offset are its quotient and remainder by the width.
pub proof fn lemma_idx_div_mod(w: int, r: int, c: int)
    requires
        w > 0,
        0 <= r,
        0 <= c < w,
    ensures
        idx(w, r, c) / w == r,
        idx(w, r, c) % w == c,
{
    assert(w * r == r * w) by (nonlinear_arith);
    vstd::arithmetic::div_mod::lemma_fundamental_div_mod_converse(idx(w, r, c), w, r, c);
}

} // verus!
