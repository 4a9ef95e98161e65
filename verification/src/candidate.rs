//! Candidates: the genotype of one straight colored line.
//!
//! A candidate is a line `y = slope * x + intercept` (the slope held in
//! thousandths) with an RGB color, a derived visible x-range, and the
//! fitness and sample count accumulated by the evaluator. Candidates
//! are created at random and mutated by `reproduce`; both keep the
//! x-range invariant `0 <= xmin <= xmax <= width`.

use rand::Rng;
use vstd::prelude::*;

verus! {

use vstd::arithmetic::div_mod::{
    lemma_div_is_ordered,
    lemma_div_nonincreasing,
    lemma_fundamental_div_mod,
    lemma_fundamental_div_mod_converse,
};
use crate::color::Rgb;
use crate::raster::dims_ok;

/// Bound on the magnitude of a slope, in thousandths.
pub const SLOPE_LIMIT: i64 = 1000000;

/// Bound on the magnitude of an intercept.
pub const INTERCEPT_LIMIT: i64 = 1000000000;

/// Strict bound on the similarity gain a single pixel can contribute.
pub const GAIN_BOUND: i64 = 80000000;

/// Bound on an accumulated fitness value.
pub const FITNESS_BOUND: i64 = 100000000000000;

/// Bound on a sample count.
pub const SAMPLES_BOUND: i64 = 2000000;

/// Floor division of `n` by a positive divisor `m`.
pub fn div_floor_by(n: i64, m: i64) -> (q: i64)
    requires
        1 <= m <= 1000000000,
        -4000000000000000 <= n <= 4000000000000000,
    ensures
        q == n as int / m as int,
{
    if n >= 0 {
        let qu: u64 = (n as u64) / (m as u64);
        proof {
            lemma_div_nonincreasing(n as int, m as int);
        }
        qu as i64
    } else {
        let nm: u64 = (-n) as u64;
        let mu: u64 = m as u64;
        let q0: u64 = nm / mu;
        let r0: u64 = nm % mu;
        proof {
            lemma_div_nonincreasing(nm as int, mu as int);
            lemma_fundamental_div_mod(nm as int, mu as int);
            if r0 == 0 {
                assert(n == (-(q0 as int)) * m + 0) by (nonlinear_arith)
                    requires
                        n == -(nm as int),
                        nm == mu * (q0 as int),
                        m == mu,
                ;
                lemma_fundamental_div_mod_converse(n as int, m as int, -(q0 as int), 0);
            } else {
                assert(n == (-(q0 as int) - 1) * m + (m - r0)) by (nonlinear_arith)
                    requires
                        n == -(nm as int),
                        nm == mu * (q0 as int) + r0,
                        m == mu,
                ;
                lemma_fundamental_div_mod_converse(
                    n as int,
                    m as int,
                    -(q0 as int) - 1,
                    m - r0,
                );
            }
        }
        if r0 == 0 {
            -(q0 as i64)
        } else {
            -(q0 as i64) - 1
        }
    }
}

/// `p / 1000`, rounded to the nearest integer (halves away from zero).
pub open spec fn round_div_1000(p: int) -> int {
    if p >= 0 {
        (p + 500) / 1000
    } else {
        -((-p + 500) / 1000)
    }
}

/// The row a line crosses at column `x`.
pub open spec fn row_y_spec(slope_milli: int, intercept: int, x: int) -> int {
    round_div_1000(slope_milli * x) + intercept
}

/// Computes `row_y_spec` for a column of the raster.
pub fn row_y(slope_milli: i64, intercept: i64, x: usize) -> (y: i64)
    requires
        -SLOPE_LIMIT <= slope_milli <= SLOPE_LIMIT,
        -INTERCEPT_LIMIT <= intercept <= INTERCEPT_LIMIT,
        x <= crate::raster::MAX_DIM,
    ensures
        y == row_y_spec(slope_milli as int, intercept as int, x as int),
        -2000000000000 <= y <= 2000000000000,
{
    assert(-1100000000000 <= slope_milli * x <= 1100000000000) by (nonlinear_arith)
        requires
            -1000000 <= slope_milli <= 1000000,
            0 <= x <= 1048576,
    ;
    let p: i64 = slope_milli * (x as i64);
    if p >= 0 {
        let q: u64 = ((p as u64) + 500) / 1000;
        proof {
            lemma_div_nonincreasing(p as int + 500, 1000);
        }
        intercept + (q as i64)
    } else {
        let q: u64 = (((-p) as u64) + 500) / 1000;
        proof {
            lemma_div_nonincreasing(-(p as int) + 500, 1000);
        }
        intercept - (q as i64)
    }
}

/// Clamps a value into `[0, w]`.
pub open spec fn clamp_to_width(v: int, w: int) -> int {
    if v < 0 {
        0
    } else if v > w {
        w
    } else {
        v
    }
}

/// The visible x-range of a line: the columns (clamped to `[0, w]`)
/// where the line's y-value crosses the band `[0, h]`. A horizontal
/// line is visible across the full width when its intercept is a row
/// of the raster, and nowhere otherwise.
pub open spec fn x_range_spec(s: int, b: int, w: int, h: int) -> (int, int) {
    if s == 0 {
        if 0 <= b < h {
            (0, w)
        } else {
            (0, 0)
        }
    } else {
        let m = if s > 0 {
            s
        } else {
            -s
        };
        let lo_num = if s > 0 {
            -b * 1000
        } else {
            (b - h) * 1000
        };
        let hi_num = if s > 0 {
            (h - b) * 1000
        } else {
            b * 1000
        };
        (clamp_to_width(lo_num / m, w), clamp_to_width(hi_num / m, w))
    }
}

/// The x-range always satisfies `0 <= xmin <= xmax <= w`.
pub proof fn lemma_x_range_in_bounds(s: int, b: int, w: int, h: int)
    requires
        w >= 0,
        h >= 1,
    ensures
        0 <= x_range_spec(s, b, w, h).0 <= x_range_spec(s, b, w, h).1 <= w,
{
    if s != 0 {
        let m = if s > 0 {
            s
        } else {
            -s
        };
        let lo_num = if s > 0 {
            -b * 1000
        } else {
            (b - h) * 1000
        };
        let hi_num = if s > 0 {
            (h - b) * 1000
        } else {
            b * 1000
        };
        lemma_div_is_ordered(lo_num, hi_num, m);
    }
}

/// Computes `x_range_spec` on raster dimensions.
pub fn x_range(s: i64, b: i64, w: usize, h: usize) -> (r: (usize, usize))
    requires
        -SLOPE_LIMIT <= s <= SLOPE_LIMIT,
        -INTERCEPT_LIMIT <= b <= INTERCEPT_LIMIT,
        dims_ok(w as int, h as int),
    ensures
        (r.0 as int, r.1 as int) == x_range_spec(s as int, b as int, w as int, h as int),
        r.0 <= r.1 <= w,
{
    proof {
        lemma_x_range_in_bounds(s as int, b as int, w as int, h as int);
    }
    if s == 0 {
        if 0 <= b && b < (h as i64) {
            (0, w)
        } else {
            (0, 0)
        }
    } else {
        let m: i64 = if s > 0 {
            s
        } else {
            -s
        };
        let lo_num: i64 = if s > 0 {
            -b * 1000
        } else {
            (b - (h as i64)) * 1000
        };
        let hi_num: i64 = if s > 0 {
            ((h as i64) - b) * 1000
        } else {
            b * 1000
        };
        let lo: i64 = div_floor_by(lo_num, m);
        let hi: i64 = div_floor_by(hi_num, m);
        let wi: i64 = w as i64;
        let lo_c: i64 = if lo < 0 {
            0
        } else if lo > wi {
            wi
        } else {
            lo
        };
        let hi_c: i64 = if hi < 0 {
            0
        } else if hi > wi {
            wi
        } else {
            hi
        };
        (lo_c as usize, hi_c as usize)
    }
}

/// One line genotype with its accumulated evaluation state.
#[derive(Clone, Copy, Debug, PartialEq, Eq, Structural)]
pub struct Candidate {
    pub slope_milli: i64,
    pub intercept: i64,
    pub color: Rgb,
    pub xmin: usize,
    pub xmax: usize,
    pub fitness: i64,
    pub samples: i64,
}

/// The genotype of a candidate: two candidates are duplicates exactly
/// when intercept and slope match; color is ignored.
pub open spec fn genotype(c: Candidate) -> (int, int) {
    (c.intercept as int, c.slope_milli as int)
}

impl Candidate {
    /// Fields are in range and the x-range is the one derived from the
    /// slope and intercept on a `w` x `h` raster.
    pub open spec fn wf(self, w: int, h: int) -> bool {
        &&& -SLOPE_LIMIT <= self.slope_milli <= SLOPE_LIMIT
        &&& -INTERCEPT_LIMIT <= self.intercept <= INTERCEPT_LIMIT
        &&& (self.xmin as int, self.xmax as int) == x_range_spec(
            self.slope_milli as int,
            self.intercept as int,
            w,
            h,
        )
        &&& self.xmin <= self.xmax <= w
        &&& 0 <= self.fitness <= FITNESS_BOUND
        &&& 1 <= self.samples <= SAMPLES_BOUND
    }

    /// Draws a fresh random candidate: slope in [-5, 5] (thousandths),
    /// intercept in the slope-dependent band that keeps the line
    /// visible somewhere across the width, each channel in [0, 255].
    pub fn random(width: usize, height: usize) -> (c: Candidate)
        requires
            dims_ok(width as int, height as int),
        ensures
            c.wf(width as int, height as int),
            c.fitness == 0,
            c.samples == 1,
    {
        let slope_milli = rand_range_i64(-5000, 5000);
        let wi: i64 = width as i64;
        let intercept: i64;
        if slope_milli > 0 {
            proof {
                assert((wi as u64) * (slope_milli as u64) <= 5242880000) by (nonlinear_arith)
                    requires
                        1 <= (wi as u64) <= 1048576,
                        0 < (slope_milli as u64) <= 5000,
                ;
            }
            let steep: u64 = (wi as u64) * (slope_milli as u64);
            let rise: u64 = steep / 1000;
            proof {
                lemma_div_is_ordered(steep as int, 5242880000, 1000);
            }
            intercept = rand_range_i64(0, wi + (rise as i64) - 1);
        } else {
            proof {
                assert((wi as u64) * ((-slope_milli) as u64) <= 5242880000) by (nonlinear_arith)
                    requires
                        1 <= (wi as u64) <= 1048576,
                        0 <= ((-slope_milli) as u64) <= 5000,
                ;
            }
            let steep: u64 = (wi as u64) * ((-slope_milli) as u64);
            let fall: u64 = steep / 1000;
            proof {
                lemma_div_is_ordered(steep as int, 5242880000, 1000);
            }
            intercept = rand_range_i64(-(fall as i64), wi - 1);
        }
        let r = rand_range_i64(0, 255) as u8;
        let g = rand_range_i64(0, 255) as u8;
        let b = rand_range_i64(0, 255) as u8;
        let span = x_range(slope_milli, intercept, width, height);
        Candidate {
            slope_milli,
            intercept,
            color: Rgb { r, g, b },
            xmin: span.0,
            xmax: span.1,
            fitness: 0,
            samples: 1,
        }
    }

    /// Mutates this candidate into one offspring: the slope moves by at
    /// most 3 (thousandths: 3000), the intercept by at most 10, each
    /// color channel by at most 20, everything clamped back into range.
    /// The parent is borrowed immutably and never changes.
    pub fn reproduce(&self, width: usize, height: usize) -> (c: Candidate)
        requires
            self.wf(width as int, height as int),
            dims_ok(width as int, height as int),
        ensures
            c.wf(width as int, height as int),
            c.fitness == 0,
            c.samples == 1,
            self.slope_milli - 3000 <= c.slope_milli <= self.slope_milli + 3000,
            self.intercept - 10 <= c.intercept <= self.intercept + 10,
            self.color.r - 20 <= c.color.r <= self.color.r + 20,
            self.color.g - 20 <= c.color.g <= self.color.g + 20,
            self.color.b - 20 <= c.color.b <= self.color.b + 20,
    {
        let ds = rand_range_i64(-3000, 3000);
        let mut slope_milli: i64 = self.slope_milli + ds;
        if slope_milli > SLOPE_LIMIT {
            slope_milli = SLOPE_LIMIT;
        }
        if slope_milli < -SLOPE_LIMIT {
            slope_milli = -SLOPE_LIMIT;
        }
        let db = rand_range_i64(-10, 10);
        let mut intercept: i64 = self.intercept + db;
        if intercept > INTERCEPT_LIMIT {
            intercept = INTERCEPT_LIMIT;
        }
        if intercept < -INTERCEPT_LIMIT {
            intercept = -INTERCEPT_LIMIT;
        }
        let r = mutate_channel(self.color.r);
        let g = mutate_channel(self.color.g);
        let b = mutate_channel(self.color.b);
        let span = x_range(slope_milli, intercept, width, height);
        Candidate {
            slope_milli,
            intercept,
            color: Rgb { r, g, b },
            xmin: span.0,
            xmax: span.1,
            fitness: 0,
            samples: 1,
        }
    }
}

/// Moves one color channel by a uniform step of at most 20, clamped to
/// the channel range.
fn mutate_channel(c: u8) -> (r: u8)
    ensures
        c - 20 <= r <= c + 20,
{
    let lo: i64 = if c >= 20 {
        (c as i64) - 20
    } else {
        0
    };
    let hi: i64 = if c <= 235 {
        (c as i64) + 20
    } else {
        255
    };
    rand_range_i64(lo, hi) as u8
}

/// Relies on `rand::thread_rng` handing out the thread-local generator
/// and `rand::Rng::gen_range` drawing a value uniformly from a
/// non-empty inclusive range: the draw always lies inside the range.
#[verifier::external_body]
fn rand_range_i64(lo: i64, hi: i64) -> (r: i64)
    requires
        lo <= hi,
    ensures
        lo <= r <= hi,
{
    rand::thread_rng().gen_range(lo..=hi)
}

} // verus!
