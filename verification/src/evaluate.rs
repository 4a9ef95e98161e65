//! Fitness evaluation: walking a candidate's visible span against the
//! frozen target/canvas pair.
//!
//! For every column of its x-range whose row lands on the raster, a
//! candidate earns the (positive part of the) similarity improvement
//! its color would bring over the current canvas pixel, and counts the
//! visit. Fitness never punishes pixels the candidate would worsen.

use vstd::prelude::*;

verus! {

use crate::candidate::{Candidate, row_y_spec, row_y, GAIN_BOUND, FITNESS_BOUND};
use crate::color::{Rgb, similarity, similarity_spec, lemma_similarity_bounds};
use crate::raster::{Raster, MAX_DIM};

/// The similarity gain candidate `c` would contribute at column `x`,
/// against the frozen canvas buffer.
pub open spec fn pixel_gain_spec(c: Candidate, t: Raster, canvas: Seq<Rgb>, x: int) -> int {
    let y = row_y_spec(c.slope_milli as int, c.intercept as int, x);
    if 0 <= y < t.height {
        let tp = t.pix(x, y);
        let d = similarity_spec(tp, c.color) - similarity_spec(tp, canvas[y * t.width + x]);
        if d > 0 {
            d
        } else {
            0
        }
    } else {
        0
    }
}

/// Whether column `x` of the candidate's line lands on the raster.
pub open spec fn pixel_visited_spec(c: Candidate, t: Raster, x: int) -> bool {
    0 <= row_y_spec(c.slope_milli as int, c.intercept as int, x) < t.height
}

/// Accumulated gain over the columns `[xmin, x)`.
pub open spec fn gain_upto(c: Candidate, t: Raster, canvas: Seq<Rgb>, x: int) -> int
    decreases x - c.xmin,
{
    if x <= c.xmin {
        0
    } else {
        gain_upto(c, t, canvas, x - 1) + pixel_gain_spec(c, t, canvas, x - 1)
    }
}

/// Number of visited (in-bounds) columns in `[xmin, x)`.
pub open spec fn count_upto(c: Candidate, t: Raster, x: int) -> int
    decreases x - c.xmin,
{
    if x <= c.xmin {
        0
    } else {
        count_upto(c, t, x - 1) + if pixel_visited_spec(c, t, x - 1) {
            1int
        } else {
            0int
        }
    }
}

/// The fitness one evaluation pass gives candidate `c`.
pub open spec fn eval_gain_spec(c: Candidate, t: Raster, canvas: Seq<Rgb>) -> int {
    gain_upto(c, t, canvas, c.xmax as int)
}

/// The number of in-bounds pixels one evaluation pass visits.
pub open spec fn eval_count_spec(c: Candidate, t: Raster) -> int {
    count_upto(c, t, c.xmax as int)
}

pub proof fn lemma_pixel_gain_bounds(c: Candidate, t: Raster, canvas: Seq<Rgb>, x: int)
    ensures
        0 <= pixel_gain_spec(c, t, canvas, x) < GAIN_BOUND,
{
    let y = row_y_spec(c.slope_milli as int, c.intercept as int, x);
    if 0 <= y < t.height {
        let tp = t.pix(x, y);
        lemma_similarity_bounds(tp, c.color);
        lemma_similarity_bounds(tp, canvas[y * t.width + x]);
    }
}

pub proof fn lemma_gain_upto_bounds(c: Candidate, t: Raster, canvas: Seq<Rgb>, x: int)
    requires
        c.xmin <= x,
    ensures
        0 <= gain_upto(c, t, canvas, x) <= (x - c.xmin) * GAIN_BOUND,
    decreases x - c.xmin,
{
    if x == c.xmin {
        assert((x - c.xmin) * GAIN_BOUND == 0) by (nonlinear_arith)
            requires
                x == c.xmin,
        ;
    } else {
        lemma_gain_upto_bounds(c, t, canvas, x - 1);
        lemma_pixel_gain_bounds(c, t, canvas, x - 1);
        assert(0 <= gain_upto(c, t, canvas, x) <= (x - c.xmin) * GAIN_BOUND)
            by (nonlinear_arith)
            requires
                x > c.xmin,
                gain_upto(c, t, canvas, x) == gain_upto(c, t, canvas, x - 1) + pixel_gain_spec(
                    c,
                    t,
                    canvas,
                    x - 1,
                ),
                0 <= gain_upto(c, t, canvas, x - 1) <= (x - 1 - c.xmin) * GAIN_BOUND,
                0 <= pixel_gain_spec(c, t, canvas, x - 1) < GAIN_BOUND,
        ;
    }
}

/// The fitness of an evaluated candidate fits the fitness bound.
pub proof fn lemma_gain_upto_abs(c: Candidate, t: Raster, canvas: Seq<Rgb>, x: int)
    requires
        c.xmin <= x,
        x - c.xmin <= MAX_DIM,
    ensures
        0 <= gain_upto(c, t, canvas, x) <= FITNESS_BOUND,
{
    lemma_gain_upto_bounds(c, t, canvas, x);
    assert((x - c.xmin) * GAIN_BOUND <= 100000000000000) by (nonlinear_arith)
        requires
            0 <= x - c.xmin <= 1048576,
            GAIN_BOUND == 80000000,
    ;
}

pub proof fn lemma_count_upto_bounds(c: Candidate, t: Raster, x: int)
    requires
        c.xmin <= x,
    ensures
        0 <= count_upto(c, t, x) <= x - c.xmin,
    decreases x - c.xmin,
{
    if x == c.xmin {
    } else {
        lemma_count_upto_bounds(c, t, x - 1);
    }
}

/// Evaluates one candidate against the target and the frozen canvas:
/// its fitness becomes the accumulated gain of its span, its sample
/// count becomes one plus the number of visited pixels. The genotype,
/// color and x-range are untouched.
pub fn evaluate(c: &mut Candidate, t: &Raster, canvas: &Raster)
    requires
        t.wf(),
        canvas.wf(),
        canvas.width == t.width,
        canvas.height == t.height,
        old(c).wf(t.width as int, t.height as int),
    ensures
        final(c).slope_milli == old(c).slope_milli,
        final(c).intercept == old(c).intercept,
        final(c).color == old(c).color,
        final(c).xmin == old(c).xmin,
        final(c).xmax == old(c).xmax,
        final(c).fitness == eval_gain_spec(*old(c), *t, canvas.pixels@),
        final(c).samples == 1 + eval_count_spec(*old(c), *t),
        final(c).wf(t.width as int, t.height as int),
{
    let ghost c0 = *c;
    let mut fit: i64 = 0;
    let mut cnt: i64 = 0;
    let mut x: usize = c.xmin;
    while x < c.xmax
        invariant
            t.wf(),
            canvas.wf(),
            canvas.width == t.width,
            canvas.height == t.height,
            *c == c0,
            c0.wf(t.width as int, t.height as int),
            c0.xmin <= x <= c0.xmax,
            fit == gain_upto(c0, *t, canvas.pixels@, x as int),
            cnt == count_upto(c0, *t, x as int),
            0 <= fit <= FITNESS_BOUND,
            0 <= cnt <= x - c0.xmin,
        decreases c.xmax - x,
    {
        let y: i64 = row_y(c.slope_milli, c.intercept, x);
        proof {
            lemma_gain_upto_abs(c0, *t, canvas.pixels@, (x + 1) as int);
            lemma_pixel_gain_bounds(c0, *t, canvas.pixels@, x as int);
        }
        if 0 <= y && y < (t.height as i64) {
            let yy: usize = y as usize;
            let tp: Rgb = t.get(x, yy);
            let cp: Rgb = canvas.get(x, yy);
            proof {
                lemma_similarity_bounds(tp, c0.color);
                lemma_similarity_bounds(tp, cp);
            }
            let s_cand: i64 = similarity(tp, c.color);
            let s_canvas: i64 = similarity(tp, cp);
            let d: i64 = s_cand - s_canvas;
            if d > 0 {
                fit = fit + d;
            }
            cnt = cnt + 1;
        }
        x = x + 1;
    }
    proof {
        lemma_count_upto_bounds(c0, *t, c0.xmax as int);
    }
    c.fitness = fit;
    c.samples = 1 + cnt;
}

/// An evaluation pass over a whole candidate: already-scored candidates
/// (positive fitness from an earlier round) are frozen and passed
/// through unchanged; the rest are evaluated from scratch.
pub open spec fn evaluated_spec(c: Candidate, t: Raster, canvas: Seq<Rgb>) -> Candidate {
    if c.fitness > 0 {
        c
    } else {
        Candidate {
            fitness: eval_gain_spec(c, t, canvas) as i64,
            samples: (1 + eval_count_spec(c, t)) as i64,
            ..c
        }
    }
}

/// Evaluates every candidate of the population against the same frozen
/// target/canvas pair, skipping candidates already scored positive.
pub fn evaluate_population(pop: &mut Vec<Candidate>, t: &Raster, canvas: &Raster)
    requires
        t.wf(),
        canvas.wf(),
        canvas.width == t.width,
        canvas.height == t.height,
        forall|i: int|
            0 <= i < old(pop)@.len() ==> old(pop)@[i].wf(t.width as int, t.height as int),
    ensures
        final(pop)@.len() == old(pop)@.len(),
        forall|i: int|
            0 <= i < old(pop)@.len() ==> final(pop)@[i] == evaluated_spec(
                old(pop)@[i],
                *t,
                canvas.pixels@,
            ),
        forall|i: int|
            0 <= i < final(pop)@.len() ==> final(pop)@[i].wf(t.width as int, t.height as int),
{
    let len: usize = pop.len();
    let mut i: usize = 0;
    while i < len
        invariant
            t.wf(),
            canvas.wf(),
            canvas.width == t.width,
            canvas.height == t.height,
            i <= len,
            pop@.len() == len,
            old(pop)@.len() == len,
            forall|k: int| 0 <= k < len ==> old(pop)@[k].wf(t.width as int, t.height as int),
            forall|k: int|
                0 <= k < i ==> pop@[k] == evaluated_spec(old(pop)@[k], *t, canvas.pixels@),
            forall|k: int|
                0 <= k < i ==> pop@[k].wf(t.width as int, t.height as int),
            forall|k: int| i <= k < len ==> pop@[k] == old(pop)@[k],
        decreases len - i,
    {
        if pop[i].fitness <= 0 {
            let mut cc: Candidate = pop[i];
            evaluate(&mut cc, t, canvas);
            pop.set(i, cc);
        }
        i = i + 1;
    }
}

} // verus!
