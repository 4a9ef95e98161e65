//! The epoch engine: one full evolutionary search followed by one
//! canvas commit, and the driver-facing stopping decision.
//!
//! An epoch seeds a random population, runs the evaluate-rank-select
//! protocol for `ROUNDS_PER_EPOCH` rounds against the frozen canvas,
//! selects the schedule-determined elite of the last round, and
//! commits it. The reported improvement is exactly the rise of the
//! canvas's aggregate similarity to the target, and is never negative.

use vstd::prelude::*;

verus! {

use crate::candidate::Candidate;
use crate::color::SIM_MAX;
use crate::commit::commit_elite;
use crate::evaluate::evaluate_population;
use crate::evolve::{
    sort_by_rate,
    dedup_population,
    truncate_population,
    next_population,
    select_elite,
    elite_spec,
    lemma_elite_spec_len,
    lemma_elite_spec_members,
    POP_SIZE,
    SURVIVOR_COUNT,
    ROUNDS_PER_EPOCH,
};
use crate::raster::{Raster, total_score_spec, dims_ok};

/// Every candidate of the population is well-formed for the raster.
pub open spec fn pop_wf(pop: Seq<Candidate>, w: int, h: int) -> bool {
    forall|i: int| #![trigger pop[i]] 0 <= i < pop.len() ==> pop[i].wf(w, h)
}

/// One ranking pass: sort, demote duplicates, re-sort, truncate.
fn rank_round(pop: &mut Vec<Candidate>, width: usize, height: usize)
    requires
        dims_ok(width as int, height as int),
        pop_wf(old(pop)@, width as int, height as int),
    ensures
        pop_wf(final(pop)@, width as int, height as int),
        final(pop)@.len() <= SURVIVOR_COUNT,
        final(pop)@.len() == if old(pop)@.len() < SURVIVOR_COUNT {
            old(pop)@.len() as int
        } else {
            SURVIVOR_COUNT as int
        },
{
    let ghost w = width as int;
    let ghost h = height as int;
    let ghost before_sort = pop@;
    proof {
        assert forall|i: int| 0 <= i < pop@.len() implies #[trigger] pop@[i].samples >= 1 by {
            assert(pop@[i].wf(w, h));
        }
    }
    sort_by_rate(pop);
    proof {
        assert forall|i: int| #![trigger pop@[i]] 0 <= i < pop@.len() implies pop@[i].wf(w, h)
            && pop@[i].samples >= 1 by {
            assert(pop@.contains(pop@[i]));
            let j = choose|j: int| 0 <= j < before_sort.len() && before_sort[j] == pop@[i];
            assert(before_sort[j].wf(w, h));
        }
    }
    let ghost ranked = pop@;
    dedup_population(pop);
    proof {
        assert forall|i: int| #![trigger pop@[i]] 0 <= i < pop@.len() implies pop@[i].wf(w, h)
            && pop@[i].samples >= 1 by {
            assert(ranked[i].wf(w, h));
            assert(pop@[i] == crate::evolve::dedup_spec(ranked)[i]);
        }
    }
    let ghost demoted = pop@;
    sort_by_rate(pop);
    proof {
        assert forall|i: int| #![trigger pop@[i]] 0 <= i < pop@.len() implies pop@[i].wf(w, h) by {
            assert(pop@.contains(pop@[i]));
            let j = choose|j: int| 0 <= j < demoted.len() && demoted[j] == pop@[i];
            assert(demoted[j].wf(w, h));
        }
    }
    truncate_population(pop, SURVIVOR_COUNT);
}

/// Runs one full epoch against the frozen canvas: seeds `POP_SIZE`
/// random candidates, runs the round protocol, selects the elite, and
/// commits it. Returns the elite's size and the total improvement,
/// which is exactly the rise of the canvas's aggregate similarity and
/// never negative; a canvas already identical to the target is left
/// untouched with zero improvement.
pub fn run_epoch(target: &Raster, canvas: &mut Raster, epochs: u32) -> (out: (usize, i64))
    requires
        target.wf(),
        old(canvas).wf(),
        old(canvas).width == target.width,
        old(canvas).height == target.height,
    ensures
        final(canvas).wf(),
        final(canvas).width == old(canvas).width,
        final(canvas).height == old(canvas).height,
        out.1 == total_score_spec(*target, final(canvas).pixels@) - total_score_spec(
            *target,
            old(canvas).pixels@,
        ),
        out.1 >= 0,
        old(canvas).pixels@ == target.pixels@ ==> final(canvas).pixels@ == old(canvas).pixels@
            && out.1 == 0,
        out.0 <= SURVIVOR_COUNT,
{
    let width: usize = target.width;
    let height: usize = target.height;
    let ghost w = width as int;
    let ghost h = height as int;
    let mut pop: Vec<Candidate> = Vec::new();
    while pop.len() < POP_SIZE
        invariant
            dims_ok(w, h),
            w == width,
            h == height,
            pop_wf(pop@, w, h),
        decreases POP_SIZE - pop.len(),
    {
        let fresh = Candidate::random(width, height);
        pop.push(fresh);
    }
    let mut round: usize = 1;
    while round < ROUNDS_PER_EPOCH
        invariant
            target.wf(),
            canvas.wf(),
            canvas.width == target.width,
            canvas.height == target.height,
            canvas == old(canvas),
            dims_ok(w, h),
            w == width,
            h == height,
            w == target.width,
            h == target.height,
            round <= ROUNDS_PER_EPOCH,
            pop_wf(pop@, w, h),
        decreases ROUNDS_PER_EPOCH - round,
    {
        evaluate_population(&mut pop, target, canvas);
        rank_round(&mut pop, width, height);
        pop = next_population(&pop, width, height);
        round = round + 1;
    }
    evaluate_population(&mut pop, target, canvas);
    rank_round(&mut pop, width, height);
    let elite: Vec<Candidate> = select_elite(&pop, width, epochs);
    proof {
        let n = if crate::evolve::schedule_spec(w, epochs as int) <= pop@.len() {
            crate::evolve::schedule_spec(w, epochs as int)
        } else {
            pop@.len() as int
        };
        lemma_elite_spec_len(pop@, n);
        lemma_elite_spec_members(pop@, n);
        assert forall|k: int| 0 <= k < elite@.len() implies #[trigger] elite@[k].wf(w, h) by {
            assert(elite@[k] == elite_spec(pop@, n)[k]);
        }
    }
    let imp: i64 = commit_elite(&elite, target, canvas);
    (elite.len(), imp)
}

/// Whether the epoch loop should stop: either the epoch brought no
/// improvement at all (a local optimum), or — checked every tenth
/// epoch — the canvas's aggregate similarity exceeds 98% of the
/// theoretical maximum `width * height * SIM_MAX`.
pub fn should_stop(
    improvement: i64,
    epoch_index: u32,
    total: i64,
    width: usize,
    height: usize,
) -> (stop: bool)
    requires
        dims_ok(width as int, height as int),
    ensures
        stop == (improvement == 0 || (epoch_index % 10 == 0 && 100 * total > 98 * (
        width * height * SIM_MAX))),
{
    if improvement == 0 {
        return true;
    }
    if epoch_index % 10 == 0 {
        let perfect: i128 = (width as i128) * (height as i128) * (SIM_MAX as i128);
        proof {
            assert((width as int) * (height as int) * (SIM_MAX as int) == (width as int) * (
            height as int) * SIM_MAX) by (nonlinear_arith);
            assert(0 <= (width as int) * (height as int) <= 0x4000_0000) by (nonlinear_arith)
                requires
                    1 <= width,
                    1 <= height,
                    (width as int) * (height as int) <= 0x4000_0000,
            ;
            assert(0 <= (width as int) * (height as int) * SIM_MAX <= 0x4000_0000 * 6553600)
                by (nonlinear_arith)
                requires
                    0 <= (width as int) * (height as int) <= 0x4000_0000,
                    SIM_MAX == 6553600,
            ;
        }
        return 100 * (total as i128) > 98 * perfect;
    }
    false
}

} // verus!
