//! Rasters: width x height grids of RGB pixels, stored row-major.
//!
//! Two rasters drive an evolution run: the immutable target and the
//! canvas that accumulates the approximation. The aggregate similarity
//! of a canvas to the target is the sum of the per-pixel similarities.

use vstd::prelude::*;

verus! {

use crate::color::{Rgb, similarity_spec, lemma_similarity_bounds, SIM_FLOOR, SIM_MAX};

/// Largest accepted raster side length.
pub const MAX_DIM: usize = 1048576;

/// Largest accepted raster area, in pixels.
pub const MAX_AREA: usize = 0x4000_0000;

/// Strict bound on the magnitude of any per-pixel similarity.
pub const SIM_ABS_BOUND: i64 = 70000000;

/// Acceptable raster dimensions.
pub open spec fn dims_ok(w: int, h: int) -> bool {
    &&& 1 <= w <= MAX_DIM
    &&& 1 <= h <= MAX_DIM
    &&& w * h <= MAX_AREA
}

/// Why a raster could not be built.
#[derive(Clone, Copy, Debug, PartialEq, Eq, Structural)]
pub enum RasterError {
    /// A dimension is zero: the raster would have no pixels.
    EmptyRaster,
    /// A dimension or the total area is over the supported limit.
    OversizedRaster,
    /// The supplied pixel buffer does not hold width * height entries.
    WrongPixelCount,
}

/// A width x height grid of pixels, row-major.
#[derive(Debug)]
pub struct Raster {
    pub width: usize,
    pub height: usize,
    pub pixels: Vec<Rgb>,
}

impl Raster {
    /// The dimensions are in range and the buffer has one entry per pixel.
    pub open spec fn wf(self) -> bool {
        &&& dims_ok(self.width as int, self.height as int)
        &&& self.pixels@.len() == self.width * self.height
    }

    /// The pixel at column `x` of row `y`.
    pub open spec fn pix(self, x: int, y: int) -> Rgb {
        self.pixels@[y * self.width + x]
    }

    /// Builds a raster with every pixel set to `fill`.
    pub fn new(width: usize, height: usize, fill: Rgb) -> (r: Result<Raster, RasterError>)
        ensures
            r is Ok <==> dims_ok(width as int, height as int),
            r is Ok ==> {
                let t = r->Ok_0;
                &&& t.wf()
                &&& t.width == width
                &&& t.height == height
                &&& forall|i: int| 0 <= i < t.pixels@.len() ==> t.pixels@[i] == fill
            },
            r is Err ==> r->Err_0 == (if width == 0 || height == 0 {
                RasterError::EmptyRaster
            } else {
                RasterError::OversizedRaster
            }),
    {
        if width == 0 || height == 0 {
            return Err(RasterError::EmptyRaster);
        }
        if width > MAX_DIM || height > MAX_DIM {
            return Err(RasterError::OversizedRaster);
        }
        assert((width as u64) * (height as u64) <= 1099511627776) by (nonlinear_arith)
            requires
                1 <= width <= MAX_DIM,
                1 <= height <= MAX_DIM,
                MAX_DIM == 1048576,
        ;
        let area64: u64 = (width as u64) * (height as u64);
        if area64 > MAX_AREA as u64 {
            return Err(RasterError::OversizedRaster);
        }
        let area: usize = area64 as usize;
        let mut pixels: Vec<Rgb> = Vec::new();
        let mut i: usize = 0;
        while i < area
            invariant
                i <= area,
                pixels@.len() == i,
                forall|k: int| 0 <= k < i ==> pixels@[k] == fill,
            decreases area - i,
        {
            pixels.push(fill);
            i = i + 1;
        }
        Ok(Raster { width, height, pixels })
    }

    /// Builds a raster from an existing row-major pixel buffer.
    pub fn from_pixels(width: usize, height: usize, pixels: Vec<Rgb>) -> (r: Result<
        Raster,
        RasterError,
    >)
        ensures
            r is Ok <==> dims_ok(width as int, height as int) && pixels@.len() == width * height,
            r is Ok ==> {
                let t = r->Ok_0;
                &&& t.wf()
                &&& t.width == width
                &&& t.height == height
                &&& t.pixels@ == pixels@
            },
            r is Err ==> r->Err_0 == (if width == 0 || height == 0 {
                RasterError::EmptyRaster
            } else if !dims_ok(width as int, height as int) {
                RasterError::OversizedRaster
            } else {
                RasterError::WrongPixelCount
            }),
    {
        if width == 0 || height == 0 {
            return Err(RasterError::EmptyRaster);
        }
        if width > MAX_DIM || height > MAX_DIM {
            return Err(RasterError::OversizedRaster);
        }
        assert((width as u64) * (height as u64) <= 1099511627776) by (nonlinear_arith)
            requires
                1 <= width <= MAX_DIM,
                1 <= height <= MAX_DIM,
                MAX_DIM == 1048576,
        ;
        let area64: u64 = (width as u64) * (height as u64);
        if area64 > MAX_AREA as u64 {
            return Err(RasterError::OversizedRaster);
        }
        let area: usize = area64 as usize;
        if pixels.len() != area {
            return Err(RasterError::WrongPixelCount);
        }
        Ok(Raster { width, height, pixels })
    }

    /// In-range coordinates address an in-range buffer index.
    pub proof fn lemma_index_in_range(self, x: int, y: int)
        requires
            self.wf(),
            0 <= x < self.width,
            0 <= y < self.height,
        ensures
            0 <= y * self.width + x < self.pixels@.len(),
    {
        assert(y * self.width + x < self.width * self.height) by (nonlinear_arith)
            requires
                0 <= x < self.width,
                0 <= y < self.height,
        ;
    }

    /// Reads the pixel at `(x, y)`.
    pub fn get(&self, x: usize, y: usize) -> (c: Rgb)
        requires
            self.wf(),
            x < self.width,
            y < self.height,
        ensures
            c == self.pix(x as int, y as int),
    {
        proof {
            self.lemma_index_in_range(x as int, y as int);
        }
        let idx: usize = y * self.width + x;
        self.pixels[idx]
    }

    /// Overwrites the pixel at `(x, y)`.
    pub fn put(&mut self, x: usize, y: usize, c: Rgb)
        requires
            old(self).wf(),
            x < old(self).width,
            y < old(self).height,
        ensures
            final(self).wf(),
            final(self).width == old(self).width,
            final(self).height == old(self).height,
            final(self).pixels@ == old(self).pixels@.update(
                y * old(self).width + x,
                c,
            ),
    {
        proof {
            self.lemma_index_in_range(x as int, y as int);
        }
        let idx: usize = y * self.width + x;
        self.pixels.set(idx, c);
    }
}

/// Sum of the similarities of the first `n` pixel pairs of the target's
/// buffer and a canvas buffer.
pub open spec fn score_upto(t: Raster, canvas: Seq<Rgb>, n: int) -> int
    decreases n,
{
    if n <= 0 {
        0
    } else {
        score_upto(t, canvas, n - 1) + similarity_spec(t.pixels@[n - 1], canvas[n - 1])
    }
}

/// Aggregate similarity of a canvas buffer to the target raster.
pub open spec fn total_score_spec(t: Raster, canvas: Seq<Rgb>) -> int {
    score_upto(t, canvas, t.pixels@.len() as int)
}

pub proof fn lemma_score_upto_bounds(t: Raster, canvas: Seq<Rgb>, n: int)
    requires
        n >= 0,
    ensures
        -(n * SIM_ABS_BOUND) <= score_upto(t, canvas, n) <= n * SIM_MAX,
    decreases n,
{
    if n == 0 {
        assert(n * SIM_ABS_BOUND == 0 && n * SIM_MAX == 0) by (nonlinear_arith)
            requires
                n == 0,
        ;
    } else {
        lemma_score_upto_bounds(t, canvas, n - 1);
        lemma_similarity_bounds(t.pixels@[n - 1], canvas[n - 1]);
        assert(-(n * SIM_ABS_BOUND) <= score_upto(t, canvas, n) <= n * SIM_MAX)
            by (nonlinear_arith)
            requires
                n >= 1,
                score_upto(t, canvas, n) == score_upto(t, canvas, n - 1) + similarity_spec(
                    t.pixels@[n - 1],
                    canvas[n - 1],
                ),
                -((n - 1) * SIM_ABS_BOUND) <= score_upto(t, canvas, n - 1) <= (n - 1) * SIM_MAX,
                SIM_FLOOR < similarity_spec(t.pixels@[n - 1], canvas[n - 1]) <= SIM_MAX,
                SIM_FLOOR == -70000000,
                SIM_ABS_BOUND == 70000000,
                SIM_MAX == 6553600,
        ;
    }
}

/// The aggregate score lies within fixed bounds for any raster in range.
pub proof fn lemma_score_upto_abs(t: Raster, canvas: Seq<Rgb>, n: int)
    requires
        0 <= n <= MAX_AREA,
    ensures
        -80000000000000000 <= score_upto(t, canvas, n) <= 80000000000000000,
{
    lemma_score_upto_bounds(t, canvas, n);
    assert(n * SIM_ABS_BOUND <= 80000000000000000 && n * SIM_MAX <= 80000000000000000)
        by (nonlinear_arith)
        requires
            0 <= n <= 0x4000_0000,
            SIM_ABS_BOUND == 70000000,
            SIM_MAX == 6553600,
    ;
}

/// Changing one pixel of the canvas changes the aggregate score by the
/// difference of the two similarities at that pixel.
pub proof fn lemma_score_upto_update(t: Raster, canvas: Seq<Rgb>, idx: int, c: Rgb, n: int)
    requires
        0 <= idx < canvas.len(),
        n <= canvas.len(),
        t.pixels@.len() == canvas.len(),
    ensures
        score_upto(t, canvas.update(idx, c), n) == score_upto(t, canvas, n) + if idx < n {
            similarity_spec(t.pixels@[idx], c) - similarity_spec(t.pixels@[idx], canvas[idx])
        } else {
            0
        },
    decreases n,
{
    if n <= 0 {
    } else {
        lemma_score_upto_update(t, canvas, idx, c, n - 1);
    }
}

/// Computes the aggregate similarity of the canvas to the target.
pub fn total_similarity(t: &Raster, canvas: &Raster) -> (score: i64)
    requires
        t.wf(),
        canvas.wf(),
        canvas.width == t.width,
        canvas.height == t.height,
    ensures
        score == total_score_spec(*t, canvas.pixels@),
{
    let len: usize = t.pixels.len();
    let mut acc: i64 = 0;
    let mut i: usize = 0;
    while i < len
        invariant
            i <= len,
            len == t.pixels@.len(),
            t.wf(),
            canvas.wf(),
            canvas.pixels@.len() == t.pixels@.len(),
            acc == score_upto(*t, canvas.pixels@, i as int),
            -80000000000000000 <= acc <= 80000000000000000,
        decreases len - i,
    {
        let s = crate::color::similarity(t.pixels[i], canvas.pixels[i]);
        proof {
            assert(len <= MAX_AREA);
            lemma_score_upto_abs(*t, canvas.pixels@, (i + 1) as int);
        }
        acc = acc + s;
        i = i + 1;
    }
    acc
}

} // verus!
