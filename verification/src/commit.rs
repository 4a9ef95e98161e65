//! Canvas commitment: painting an epoch's elite onto the canvas.
//!
//! The elite list is ranked strongest-first; the committer paints it
//! in reverse rank order (weakest first, strongest last), so on any
//! overlapping pixel the strongest candidate wins. A pixel is only
//! overwritten where the candidate's color is strictly more similar to
//! the target than the canvas pixel, and the epoch's improvement is
//! exactly the rise of the canvas's aggregate similarity.

use vstd::prelude::*;

verus! {

use crate::candidate::{Candidate, row_y_spec, row_y};
use crate::color::{Rgb, similarity, similarity_spec, lemma_similarity_bounds,
    lemma_similarity_self};
use crate::evaluate::{pixel_gain_spec, gain_upto, eval_gain_spec};
use crate::raster::{Raster, total_score_spec, lemma_score_upto_update, lemma_score_upto_abs};

/// The canvas after candidate `c` considers column `x`: its pixel is
/// overwritten exactly where the candidate's color improves on it.
pub open spec fn paint_step(c: Candidate, t: Raster, s: Seq<Rgb>, x: int) -> Seq<Rgb> {
    let y = row_y_spec(c.slope_milli as int, c.intercept as int, x);
    if 0 <= y < t.height {
        let idx = y * t.width + x;
        let tp = t.pix(x, y);
        if similarity_spec(tp, c.color) > similarity_spec(tp, s[idx]) {
            s.update(idx, c.color)
        } else {
            s
        }
    } else {
        s
    }
}

/// The canvas after candidate `c` painted columns `[xmin, x)`.
pub open spec fn line_canvas_upto(c: Candidate, t: Raster, s: Seq<Rgb>, x: int) -> Seq<Rgb>
    decreases x - c.xmin,
{
    if x <= c.xmin {
        s
    } else {
        paint_step(c, t, line_canvas_upto(c, t, s, x - 1), x - 1)
    }
}

/// The improvement candidate `c` realized over columns `[xmin, x)`.
pub open spec fn line_gain_upto(c: Candidate, t: Raster, s: Seq<Rgb>, x: int) -> int
    decreases x - c.xmin,
{
    if x <= c.xmin {
        0
    } else {
        line_gain_upto(c, t, s, x - 1) + pixel_gain_spec(
            c,
            t,
            line_canvas_upto(c, t, s, x - 1),
            x - 1,
        )
    }
}

/// The canvas after candidate `c` painted its whole span.
pub open spec fn line_canvas(c: Candidate, t: Raster, s: Seq<Rgb>) -> Seq<Rgb> {
    line_canvas_upto(c, t, s, c.xmax as int)
}

/// The improvement candidate `c` realized over its whole span.
pub open spec fn line_gain(c: Candidate, t: Raster, s: Seq<Rgb>) -> int {
    line_gain_upto(c, t, s, c.xmax as int)
}

/// A visited column addresses an in-range canvas index.
pub proof fn lemma_paint_index(c: Candidate, t: Raster, x: int)
    requires
        t.wf(),
        c.wf(t.width as int, t.height as int),
        0 <= x < t.width,
        0 <= row_y_spec(c.slope_milli as int, c.intercept as int, x) < t.height,
    ensures
        0 <= row_y_spec(c.slope_milli as int, c.intercept as int, x) * t.width + x < t.width
            * t.height,
{
    let y = row_y_spec(c.slope_milli as int, c.intercept as int, x);
    assert(0 <= y * t.width + x < t.width * t.height) by (nonlinear_arith)
        requires
            0 <= x < t.width,
            0 <= y < t.height,
    ;
}

/// Painting one line keeps the canvas size, and its realized gain is
/// exactly the rise of the aggregate score.
pub proof fn lemma_line_telescopes(c: Candidate, t: Raster, s: Seq<Rgb>, x: int)
    requires
        t.wf(),
        c.wf(t.width as int, t.height as int),
        s.len() == t.width * t.height,
        c.xmin <= x <= c.xmax,
    ensures
        line_canvas_upto(c, t, s, x).len() == s.len(),
        line_gain_upto(c, t, s, x) == total_score_spec(t, line_canvas_upto(c, t, s, x))
            - total_score_spec(t, s),
        line_gain_upto(c, t, s, x) >= 0,
    decreases x - c.xmin,
{
    if x == c.xmin {
    } else {
        lemma_line_telescopes(c, t, s, x - 1);
        let cur = line_canvas_upto(c, t, s, x - 1);
        let y = row_y_spec(c.slope_milli as int, c.intercept as int, x - 1);
        if 0 <= y < t.height {
            lemma_paint_index(c, t, x - 1);
            let idx = y * t.width + x - 1;
            let tp = t.pix(x - 1, y);
            if similarity_spec(tp, c.color) > similarity_spec(tp, cur[idx]) {
                lemma_score_upto_update(t, cur, idx, c.color, t.pixels@.len() as int);
                assert(t.pixels@[idx] == tp);
            }
        }
    }
}

/// Along one line each visited column addresses a distinct pixel, so
/// painting a prefix of the span never disturbs the pixels of the
/// columns still ahead: on those, the canvas still reads as it did
/// before the line started.
pub proof fn lemma_line_preserves_later_columns(c: Candidate, t: Raster, s: Seq<Rgb>, x: int)
    requires
        t.wf(),
        c.wf(t.width as int, t.height as int),
        s.len() == t.width * t.height,
        c.xmin <= x <= c.xmax,
    ensures
        line_canvas_upto(c, t, s, x).len() == s.len(),
        forall|idx: int|
            0 <= idx < s.len() && idx % (t.width as int) >= x ==> line_canvas_upto(
                c,
                t,
                s,
                x,
            )[idx] == s[idx],
        line_gain_upto(c, t, s, x) == gain_upto(c, t, s, x),
    decreases x - c.xmin,
{
    lemma_line_telescopes(c, t, s, x);
    if x > c.xmin {
        lemma_line_preserves_later_columns(c, t, s, x - 1);
        let cur = line_canvas_upto(c, t, s, x - 1);
        let y = row_y_spec(c.slope_milli as int, c.intercept as int, x - 1);
        let w = t.width as int;
        if 0 <= y < t.height {
            lemma_paint_index(c, t, x - 1);
            let idx0 = y * w + (x - 1);
            assert(idx0 % w == (x - 1) % w) by {
                vstd::arithmetic::div_mod::lemma_mod_multiples_vanish(y, x - 1, w);
            }
            assert((x - 1) % w == x - 1) by {
                vstd::arithmetic::div_mod::lemma_small_mod((x - 1) as nat, w as nat);
            }
            assert(cur[idx0] == s[idx0]);
            assert forall|idx: int|
                0 <= idx < s.len() && idx % w >= x implies line_canvas_upto(c, t, s, x)[idx]
                == s[idx] by {
                assert(idx != idx0);
            }
        }
    }
}

/// Committing a single candidate onto the frozen canvas realizes
/// exactly the fitness the evaluator assigns it against that canvas.
pub proof fn lemma_line_gain_is_eval_gain(c: Candidate, t: Raster, s: Seq<Rgb>)
    requires
        t.wf(),
        c.wf(t.width as int, t.height as int),
        s.len() == t.width * t.height,
    ensures
        line_gain(c, t, s) == eval_gain_spec(c, t, s),
{
    lemma_line_preserves_later_columns(c, t, s, c.xmax as int);
}

/// The canvas and gain of an elite suffix, committed weakest-first:
/// entry `i` paints after every entry ranked below it.
pub open spec fn commit_suffix(es: Seq<Candidate>, t: Raster, s: Seq<Rgb>, i: int) -> Seq<Rgb>
    decreases es.len() - i,
{
    if i < 0 || i >= es.len() {
        s
    } else {
        line_canvas(es[i], t, commit_suffix(es, t, s, i + 1))
    }
}

/// The total improvement realized by an elite suffix.
pub open spec fn gain_suffix(es: Seq<Candidate>, t: Raster, s: Seq<Rgb>, i: int) -> int
    decreases es.len() - i,
{
    if i < 0 || i >= es.len() {
        0
    } else {
        line_gain(es[i], t, commit_suffix(es, t, s, i + 1)) + gain_suffix(es, t, s, i + 1)
    }
}

/// Committing an elite keeps the canvas size, and the accumulated
/// improvement is exactly the rise of the aggregate score.
pub proof fn lemma_commit_telescopes(es: Seq<Candidate>, t: Raster, s: Seq<Rgb>, i: int)
    requires
        t.wf(),
        s.len() == t.width * t.height,
        forall|k: int| 0 <= k < es.len() ==> #[trigger] es[k].wf(t.width as int, t.height as int),
        0 <= i <= es.len(),
    ensures
        commit_suffix(es, t, s, i).len() == s.len(),
        gain_suffix(es, t, s, i) == total_score_spec(t, commit_suffix(es, t, s, i))
            - total_score_spec(t, s),
        gain_suffix(es, t, s, i) >= 0,
    decreases es.len() - i,
{
    if i == es.len() {
    } else {
        lemma_commit_telescopes(es, t, s, i + 1);
        lemma_line_telescopes(es[i], t, commit_suffix(es, t, s, i + 1), es[i].xmax as int);
    }
}

/// A candidate whose whole-span gain against a frozen canvas is zero
/// gains nothing on any prefix of its span.
pub proof fn lemma_gain_upto_zero(c: Candidate, t: Raster, s: Seq<Rgb>, x: int)
    requires
        c.xmin <= x <= c.xmax,
        gain_upto(c, t, s, c.xmax as int) == 0,
    ensures
        gain_upto(c, t, s, x) == 0,
        x < c.xmax ==> pixel_gain_spec(c, t, s, x) == 0,
    decreases c.xmax as int - x,
{
    crate::evaluate::lemma_gain_upto_bounds(c, t, s, x);
    if x < c.xmax {
        lemma_gain_upto_zero(c, t, s, x + 1);
        crate::evaluate::lemma_pixel_gain_bounds(c, t, s, x);
    }
}

/// A candidate whose evaluated fitness against this very canvas is
/// zero paints nothing and realizes no gain.
pub proof fn lemma_line_zero_gain(c: Candidate, t: Raster, s: Seq<Rgb>, x: int)
    requires
        t.wf(),
        c.wf(t.width as int, t.height as int),
        s.len() == t.width * t.height,
        c.xmin <= x <= c.xmax,
        eval_gain_spec(c, t, s) == 0,
    ensures
        line_canvas_upto(c, t, s, x) == s,
        line_gain_upto(c, t, s, x) == 0,
    decreases x - c.xmin,
{
    if x == c.xmin {
    } else {
        lemma_line_zero_gain(c, t, s, x - 1);
        lemma_gain_upto_zero(c, t, s, x - 1);
        let y = row_y_spec(c.slope_milli as int, c.intercept as int, x - 1);
        if 0 <= y < t.height {
            lemma_paint_index(c, t, x - 1);
        }
    }
}

/// Committing an elite whose every candidate evaluates to zero fitness
/// against the canvas leaves the canvas unchanged and improves
/// nothing.
pub proof fn lemma_commit_zero_gain(es: Seq<Candidate>, t: Raster, s: Seq<Rgb>, i: int)
    requires
        t.wf(),
        s.len() == t.width * t.height,
        forall|k: int| 0 <= k < es.len() ==> #[trigger] es[k].wf(t.width as int, t.height as int),
        forall|k: int| 0 <= k < es.len() ==> eval_gain_spec(#[trigger] es[k], t, s) == 0,
        0 <= i <= es.len(),
    ensures
        commit_suffix(es, t, s, i) == s,
        gain_suffix(es, t, s, i) == 0,
    decreases es.len() - i,
{
    if i == es.len() {
    } else {
        lemma_commit_zero_gain(es, t, s, i + 1);
        lemma_line_zero_gain(es[i], t, s, es[i].xmax as int);
    }
}

/// On a canvas already identical to the target no candidate can
/// improve any pixel, so a commit changes nothing.
pub proof fn lemma_line_at_max(c: Candidate, t: Raster, s: Seq<Rgb>, x: int)
    requires
        t.wf(),
        c.wf(t.width as int, t.height as int),
        s == t.pixels@,
        c.xmin <= x <= c.xmax,
    ensures
        line_canvas_upto(c, t, s, x) == s,
        line_gain_upto(c, t, s, x) == 0,
    decreases x - c.xmin,
{
    if x > c.xmin {
        lemma_line_at_max(c, t, s, x - 1);
        let y = row_y_spec(c.slope_milli as int, c.intercept as int, x - 1);
        if 0 <= y < t.height {
            lemma_paint_index(c, t, x - 1);
            let idx = y * t.width + x - 1;
            let tp = t.pix(x - 1, y);
            lemma_similarity_self(tp);
            lemma_similarity_bounds(tp, c.color);
            assert(s[idx] == tp);
        }
    }
}

/// Committing any elite onto a canvas identical to the target leaves
/// it unchanged with zero improvement.
pub proof fn lemma_commit_at_max(es: Seq<Candidate>, t: Raster, s: Seq<Rgb>, i: int)
    requires
        t.wf(),
        s == t.pixels@,
        forall|k: int| 0 <= k < es.len() ==> #[trigger] es[k].wf(t.width as int, t.height as int),
        0 <= i <= es.len(),
    ensures
        commit_suffix(es, t, s, i) == s,
        gain_suffix(es, t, s, i) == 0,
    decreases es.len() - i,
{
    if i < es.len() {
        lemma_commit_at_max(es, t, s, i + 1);
        lemma_line_at_max(es[i], t, s, es[i].xmax as int);
    }
}

/// Paints one candidate onto the canvas, weakest-first order being the
/// caller's concern, and returns the improvement it realized.
pub fn commit_line(c: &Candidate, t: &Raster, canvas: &mut Raster) -> (g: i64)
    requires
        t.wf(),
        old(canvas).wf(),
        old(canvas).width == t.width,
        old(canvas).height == t.height,
        c.wf(t.width as int, t.height as int),
    ensures
        final(canvas).width == old(canvas).width,
        final(canvas).height == old(canvas).height,
        final(canvas).wf(),
        final(canvas).pixels@ == line_canvas(*c, *t, old(canvas).pixels@),
        g == line_gain(*c, *t, old(canvas).pixels@),
        g == eval_gain_spec(*c, *t, old(canvas).pixels@),
        g >= 0,
{
    let ghost s0 = canvas.pixels@;
    proof {
        lemma_line_gain_is_eval_gain(*c, *t, s0);
    }
    let mut g: i64 = 0;
    let mut x: usize = c.xmin;
    proof {
        lemma_score_upto_abs(*t, s0, t.pixels@.len() as int);
    }
    while x < c.xmax
        invariant
            t.wf(),
            c.wf(t.width as int, t.height as int),
            canvas.width == t.width,
            canvas.height == t.height,
            canvas.wf(),
            s0.len() == t.width * t.height,
            c.xmin <= x <= c.xmax,
            canvas.pixels@ == line_canvas_upto(*c, *t, s0, x as int),
            g == line_gain_upto(*c, *t, s0, x as int),
            0 <= g <= 200000000000000000,
        decreases c.xmax - x,
    {
        let y: i64 = row_y(c.slope_milli, c.intercept, x);
        proof {
            lemma_line_telescopes(*c, *t, s0, x as int);
            lemma_line_telescopes(*c, *t, s0, (x + 1) as int);
            lemma_score_upto_abs(*t, s0, t.pixels@.len() as int);
            lemma_score_upto_abs(*t, line_canvas_upto(*c, *t, s0, (x + 1) as int), t.pixels@.len() as int);
            if 0 <= y < t.height {
                lemma_paint_index(*c, *t, x as int);
            }
        }
        if 0 <= y && y < (t.height as i64) {
            let yy: usize = y as usize;
            let tp: Rgb = t.get(x, yy);
            let cp: Rgb = canvas.get(x, yy);
            proof {
                lemma_similarity_bounds(tp, c.color);
                lemma_similarity_bounds(tp, cp);
            }
            let s_cand: i64 = similarity(tp, c.color);
            let s_canvas: i64 = similarity(tp, cp);
            if s_cand > s_canvas {
                canvas.put(x, yy, c.color);
                g = g + (s_cand - s_canvas);
            }
        }
        x = x + 1;
    }
    g
}

/// Commits the epoch's elite onto the canvas in reverse rank order
/// (weakest first, strongest last), and returns the total improvement:
/// exactly the rise of the canvas's aggregate similarity. Committing
/// onto a canvas already identical to the target changes nothing.
pub fn commit_elite(elite: &Vec<Candidate>, t: &Raster, canvas: &mut Raster) -> (imp: i64)
    requires
        t.wf(),
        old(canvas).wf(),
        old(canvas).width == t.width,
        old(canvas).height == t.height,
        forall|k: int|
            0 <= k < elite@.len() ==> #[trigger] elite@[k].wf(t.width as int, t.height as int),
    ensures
        final(canvas).width == old(canvas).width,
        final(canvas).height == old(canvas).height,
        final(canvas).wf(),
        final(canvas).pixels@ == commit_suffix(elite@, *t, old(canvas).pixels@, 0),
        imp == gain_suffix(elite@, *t, old(canvas).pixels@, 0),
        imp == total_score_spec(*t, final(canvas).pixels@) - total_score_spec(
            *t,
            old(canvas).pixels@,
        ),
        imp >= 0,
        old(canvas).pixels@ == t.pixels@ ==> final(canvas).pixels@ == old(canvas).pixels@
            && imp == 0,
    {
    let ghost s0 = canvas.pixels@;
    let mut imp: i64 = 0;
    let mut idx: usize = elite.len();
    while idx > 0
        invariant
            t.wf(),
            canvas.width == t.width,
            canvas.height == t.height,
            canvas.wf(),
            s0.len() == t.width * t.height,
            idx <= elite@.len(),
            forall|k: int|
                0 <= k < elite@.len() ==> #[trigger] elite@[k].wf(t.width as int, t.height as int),
            canvas.pixels@ == commit_suffix(elite@, *t, s0, idx as int),
            imp == gain_suffix(elite@, *t, s0, idx as int),
            0 <= imp <= 200000000000000000,
        decreases idx,
    {
        idx = idx - 1;
        let g: i64 = commit_line(&elite[idx], t, canvas);
        proof {
            lemma_commit_telescopes(elite@, *t, s0, idx as int);
            lemma_commit_telescopes(elite@, *t, s0, idx as int + 1);
            lemma_score_upto_abs(*t, s0, t.pixels@.len() as int);
            lemma_score_upto_abs(
                *t,
                commit_suffix(elite@, *t, s0, idx as int),
                t.pixels@.len() as int,
            );
            lemma_line_telescopes(
                elite@[idx as int],
                *t,
                commit_suffix(elite@, *t, s0, idx as int + 1),
                elite@[idx as int].xmax as int,
            );
        }
        imp = imp + g;
    }
    proof {
        lemma_commit_telescopes(elite@, *t, s0, 0);
        if s0 == t.pixels@ {
            lemma_commit_at_max(elite@, *t, s0, 0);
        }
    }
    imp
}

} // verus!
