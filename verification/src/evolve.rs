//! The evolutionary round protocol: ranking, deduplication,
//! truncation, reproduction and final elite selection.
//!
//! A round sorts the evaluated population by length-normalized fitness
//! (`fitness / samples`, compared exactly by cross-multiplication),
//! demotes exact genotype duplicates to fitness zero, keeps the top
//! `SURVIVOR_COUNT`, and either breeds the next round's population or,
//! in the last round of an epoch, selects the schedule-determined
//! elite set.

use vstd::prelude::*;

verus! {

use vstd::arithmetic::div_mod::lemma_div_is_ordered;
use vstd::multiset::Multiset;
use crate::candidate::{Candidate, genotype};
use crate::raster::{dims_ok, MAX_DIM};

broadcast use vstd::seq_lib::group_to_multiset_ensures;

/// Candidates per round.
pub const POP_SIZE: usize = 500;

/// Survivors kept after truncation, and offspring groups per survivor.
pub const SURVIVOR_COUNT: usize = 100;

/// Offspring bred from each surviving candidate.
pub const OFFSPRING_PER_SURVIVOR: usize = 4;

/// Evaluation rounds per epoch.
pub const ROUNDS_PER_EPOCH: usize = 100;

/// Whether `a` ranks at least as high as `b`: its length-normalized
/// fitness `fitness / samples` is at least `b`'s, compared exactly as
/// `a.fitness * b.samples >= b.fitness * a.samples`.
pub open spec fn rate_geq(a: Candidate, b: Candidate) -> bool {
    a.fitness * b.samples >= b.fitness * a.samples
}

/// Descending order by normalized fitness.
pub open spec fn sorted_by_rate(s: Seq<Candidate>) -> bool {
    forall|i: int, j: int| 0 <= i < j < s.len() ==> rate_geq(s[i], s[j])
}

/// Compares two candidates by normalized fitness, exactly.
pub fn rate_geq_exec(a: &Candidate, b: &Candidate) -> (r: bool)
    ensures
        r == rate_geq(*a, *b),
{
    proof {
        assert(-85070591730234615865843651857942052864 <= (a.fitness as int) * (b.samples as int)
            <= 85070591730234615865843651857942052864) by (nonlinear_arith)
            requires
                -9223372036854775808 <= a.fitness as int <= 9223372036854775807,
                -9223372036854775808 <= b.samples as int <= 9223372036854775807,
        ;
        assert(-85070591730234615865843651857942052864 <= (b.fitness as int) * (a.samples as int)
            <= 85070591730234615865843651857942052864) by (nonlinear_arith)
            requires
                -9223372036854775808 <= b.fitness as int <= 9223372036854775807,
                -9223372036854775808 <= a.samples as int <= 9223372036854775807,
        ;
    }
    (a.fitness as i128) * (b.samples as i128) >= (b.fitness as i128) * (a.samples as i128)
}

/// The rate order is transitive on candidates with positive sample
/// counts.
pub proof fn lemma_rate_geq_trans(a: Candidate, b: Candidate, c: Candidate)
    requires
        rate_geq(a, b),
        rate_geq(b, c),
        a.samples >= 1,
        b.samples >= 1,
        c.samples >= 1,
    ensures
        rate_geq(a, c),
{
    assert(a.fitness * c.samples >= c.fitness * a.samples) by (nonlinear_arith)
        requires
            a.fitness * b.samples >= b.fitness * a.samples,
            b.fitness * c.samples >= c.fitness * b.samples,
            a.samples >= 1,
            b.samples >= 1,
            c.samples >= 1,
    ;
}

/// Sorts the population descending by normalized fitness. The sort is
/// a selection sort that always takes the first maximal remaining
/// candidate, so the result is deterministic and stable.
pub fn sort_by_rate(pop: &mut Vec<Candidate>)
    requires
        forall|i: int| 0 <= i < old(pop)@.len() ==> #[trigger] old(pop)@[i].samples >= 1,
    ensures
        final(pop)@.len() == old(pop)@.len(),
        sorted_by_rate(final(pop)@),
        final(pop)@.to_multiset() == old(pop)@.to_multiset(),
        forall|x: Candidate| final(pop)@.contains(x) ==> old(pop)@.contains(x),
{
    let ghost orig = pop@;
    let mut out: Vec<Candidate> = Vec::new();
    while pop.len() > 0
        invariant
            out@.to_multiset().add(pop@.to_multiset()) =~= orig.to_multiset(),
            sorted_by_rate(out@),
            forall|i: int| 0 <= i < pop@.len() ==> #[trigger] pop@[i].samples >= 1,
            forall|i: int, j: int|
                0 <= i < out@.len() && 0 <= j < pop@.len() ==> rate_geq(out@[i], pop@[j]),
            forall|x: Candidate| out@.contains(x) ==> orig.contains(x),
            forall|x: Candidate| pop@.contains(x) ==> orig.contains(x),
            out@.len() + pop@.len() == orig.len(),
        decreases pop.len(),
    {
        let mut m: usize = 0;
        let mut i: usize = 1;
        while i < pop.len()
            invariant
                m < i <= pop@.len(),
                pop@.len() > 0,
                forall|k: int| 0 <= k < pop@.len() ==> #[trigger] pop@[k].samples >= 1,
                forall|k: int| 0 <= k < i ==> rate_geq(pop@[m as int], pop@[k]),
            decreases pop.len() - i,
        {
            if !rate_geq_exec(&pop[m], &pop[i]) {
                assert forall|k: int| 0 <= k < i + 1 implies rate_geq(
                    pop@[i as int],
                    pop@[k],
                ) by {
                    if k < i {
                        lemma_rate_geq_trans(pop@[i as int], pop@[m as int], pop@[k]);
                    }
                }
                m = i;
            }
            i = i + 1;
        }
        let ghost pop_before = pop@;
        let v: Candidate = pop.remove(m);
        proof {
            assert(pop_before.contains(v));
            assert(pop@.to_multiset() =~= pop_before.to_multiset().remove(v));
            assert(out@.push(v).to_multiset() =~= out@.to_multiset().insert(v));
            assert(out@.push(v).to_multiset().add(pop@.to_multiset()) =~= orig.to_multiset());
            assert(forall|j: int|
                0 <= j < pop@.len() ==> #[trigger] pop_before.contains(pop@[j]));
        }
        out.push(v);
    }
    proof {
        assert(pop@.to_multiset() =~= Multiset::<Candidate>::empty());
        assert(out@.to_multiset() =~= orig.to_multiset());
        assert(forall|x: Candidate| out@.contains(x) ==> orig.contains(x));
    }
    *pop = out;
}

/// A candidate with its fitness demoted to zero; everything else kept.
pub open spec fn zero_fitness(c: Candidate) -> Candidate {
    Candidate { fitness: 0, ..c }
}

/// Whether an earlier entry of the sequence has the same genotype.
pub open spec fn has_earlier_dup(s: Seq<Candidate>, i: int) -> bool {
    exists|j: int| 0 <= j < i && genotype(s[j]) == genotype(s[i])
}

/// The deduplicated population: the first occurrence of each genotype
/// is kept as it is, every later occurrence keeps its place but has
/// its fitness forced to zero, so the total count never changes.
pub open spec fn dedup_spec(s: Seq<Candidate>) -> Seq<Candidate> {
    Seq::new(
        s.len(),
        |i: int|
            if has_earlier_dup(s, i) {
                zero_fitness(s[i])
            } else {
                s[i]
            },
    )
}

/// Two candidates of the same genotype: after deduplication the first
/// keeps its fitness and the later one is demoted to zero, with the
/// total candidate count unchanged.
pub proof fn lemma_dedup_demotes_duplicate(s: Seq<Candidate>, i: int, j: int)
    requires
        0 <= i < j < s.len(),
        genotype(s[i]) == genotype(s[j]),
        !has_earlier_dup(s, i),
    ensures
        dedup_spec(s).len() == s.len(),
        dedup_spec(s)[i] == s[i],
        dedup_spec(s)[j] == zero_fitness(s[j]),
{
    assert(has_earlier_dup(s, j));
}

/// Checks whether the genotype of `s[i]` already occurs before `i`.
fn genotype_seen(pop: &Vec<Candidate>, i: usize) -> (r: bool)
    requires
        i < pop@.len(),
    ensures
        r == has_earlier_dup(pop@, i as int),
{
    let gi_intercept: i64 = pop[i].intercept;
    let gi_slope: i64 = pop[i].slope_milli;
    let mut j: usize = 0;
    while j < i
        invariant
            j <= i < pop@.len(),
            gi_intercept == pop@[i as int].intercept,
            gi_slope == pop@[i as int].slope_milli,
            forall|k: int| 0 <= k < j ==> genotype(pop@[k]) != genotype(pop@[i as int]),
        decreases i - j,
    {
        if pop[j].intercept == gi_intercept && pop[j].slope_milli == gi_slope {
            assert(genotype(pop@[j as int]) == genotype(pop@[i as int]));
            return true;
        }
        j = j + 1;
    }
    false
}

/// Demotes every repeated genotype to fitness zero, in rank order,
/// keeping the population's size and every candidate's place.
pub fn dedup_population(pop: &mut Vec<Candidate>)
    ensures
        final(pop)@ == dedup_spec(old(pop)@),
{
    let len: usize = pop.len();
    let mut i: usize = 0;
    while i < len
        invariant
            i <= len,
            pop@.len() == len,
            old(pop)@.len() == len,
            forall|k: int| i <= k < len ==> pop@[k] == old(pop)@[k],
            forall|k: int| 0 <= k < i ==> pop@[k] == dedup_spec(old(pop)@)[k],
            forall|k: int|
                0 <= k < len ==> genotype(pop@[k]) == genotype(old(pop)@[k]),
        decreases len - i,
    {
        proof {
            assert forall|j: int| 0 <= j < i implies (genotype(pop@[j]) == genotype(
                pop@[i as int],
            ) <==> genotype(old(pop)@[j]) == genotype(old(pop)@[i as int])) by {}
        }
        if genotype_seen(pop, i) {
            assert(has_earlier_dup(old(pop)@, i as int));
            let mut c: Candidate = pop[i];
            c.fitness = 0;
            pop.set(i, c);
            assert(pop@[i as int] == zero_fitness(old(pop)@[i as int]));
        } else {
            assert(!has_earlier_dup(old(pop)@, i as int));
        }
        i = i + 1;
    }
    proof {
        assert(pop@ =~= dedup_spec(old(pop)@));
    }
}

/// Keeps only the top `n` candidates of the ranked population.
pub fn truncate_population(pop: &mut Vec<Candidate>, n: usize)
    ensures
        final(pop)@ == if n <= old(pop)@.len() {
            old(pop)@.subrange(0, n as int)
        } else {
            old(pop)@
        },
{
    pop.truncate(n);
}

/// Index of the first zero-fitness entry, or the length if every entry
/// has positive fitness. Reproduction stops at this point: below it,
/// a descending-sorted list holds nothing with positive fitness.
pub open spec fn break_point(s: Seq<Candidate>, from: int) -> int
    decreases s.len() - from,
{
    if from < 0 || from >= s.len() {
        s.len() as int
    } else if s[from].fitness <= 0 {
        from
    } else {
        break_point(s, from + 1)
    }
}

pub proof fn lemma_break_point_range(s: Seq<Candidate>, from: int)
    requires
        0 <= from <= s.len(),
    ensures
        from <= break_point(s, from) <= s.len(),
        forall|k: int| from <= k < break_point(s, from) ==> s[k].fitness > 0,
        break_point(s, from) < s.len() ==> s[break_point(s, from)].fitness <= 0,
    decreases s.len() - from,
{
    if from < s.len() && s[from].fitness > 0 {
        lemma_break_point_range(s, from + 1);
    }
}

/// Breeds the next round's population: each survivor with positive
/// fitness (stopping at the first zero-fitness entry) is carried over
/// together with `OFFSPRING_PER_SURVIVOR` freshly mutated offspring,
/// and the population is padded with random candidates to `POP_SIZE`.
pub fn next_population(survivors: &Vec<Candidate>, width: usize, height: usize) -> (next: Vec<
    Candidate,
>)
    requires
        dims_ok(width as int, height as int),
        survivors@.len() <= SURVIVOR_COUNT,
        forall|i: int|
            0 <= i < survivors@.len() ==> #[trigger] survivors@[i].wf(
                width as int,
                height as int,
            ),
    ensures
        next@.len() == POP_SIZE,
        forall|i: int| 0 <= i < next@.len() ==> #[trigger] next@[i].wf(width as int, height as int),
        forall|i: int| 0 <= i < break_point(survivors@, 0) ==> next@[i * 5] == survivors@[i],
{
    let ghost bp = break_point(survivors@, 0);
    proof {
        lemma_break_point_range(survivors@, 0);
    }
    let mut next: Vec<Candidate> = Vec::new();
    let mut i: usize = 0;
    let mut stopped: bool = false;
    while i < survivors.len() && !stopped
        invariant
            dims_ok(width as int, height as int),
            i <= survivors@.len(),
            survivors@.len() <= SURVIVOR_COUNT,
            forall|k: int|
                0 <= k < survivors@.len() ==> #[trigger] survivors@[k].wf(
                    width as int,
                    height as int,
                ),
            bp == break_point(survivors@, 0),
            stopped ==> i == bp,
            !stopped ==> i <= bp,
            next@.len() == i * 5,
            forall|k: int|
                0 <= k < next@.len() ==> #[trigger] next@[k].wf(width as int, height as int),
            forall|k: int| 0 <= k < i ==> next@[k * 5] == survivors@[k],
        decreases survivors@.len() - i, (if stopped { 0int } else { 1int }),
    {
        let c: Candidate = survivors[i];
        proof {
            lemma_break_point_range(survivors@, 0);
            assert(survivors@[i as int].wf(width as int, height as int));
        }
        if c.fitness == 0 {
            assert(i == bp) by {
                if i < bp {
                    assert(survivors@[i as int].fitness > 0);
                }
            }
            stopped = true;
        } else {
            assert(i < bp) by {
                assert(survivors@[i as int].fitness > 0);
                if i == bp {
                    assert(bp < survivors@.len());
                    assert(survivors@[bp].fitness <= 0);
                }
            }
            next.push(c);
            let o1 = c.reproduce(width, height);
            next.push(o1);
            let o2 = c.reproduce(width, height);
            next.push(o2);
            let o3 = c.reproduce(width, height);
            next.push(o3);
            let o4 = c.reproduce(width, height);
            next.push(o4);
            i = i + 1;
            proof {
                assert(next@.len() == i * 5) by (nonlinear_arith)
                    requires
                        next@.len() == (i - 1) * 5 + 5,
                ;
                assert forall|k: int| 0 <= k < i implies next@[k * 5] == survivors@[k] by {
                    assert(0 <= k * 5 && k * 5 + 5 <= i * 5) by (nonlinear_arith)
                        requires
                            0 <= k < i,
                    ;
                }
            }
        }
    }
    proof {
        assert(i == bp) by {
            lemma_break_point_range(survivors@, 0);
        }
        assert(bp * 5 <= next@.len());
        assert(next@.len() <= 500) by (nonlinear_arith)
            requires
                next@.len() == i * 5,
                0 <= i <= 100,
        ;
    }
    while next.len() < POP_SIZE
        invariant
            dims_ok(width as int, height as int),
            next@.len() <= POP_SIZE,
            forall|k: int|
                0 <= k < next@.len() ==> #[trigger] next@[k].wf(width as int, height as int),
            forall|k: int| 0 <= k < bp ==> next@[k * 5] == survivors@[k],
            bp * 5 <= next@.len(),
        decreases POP_SIZE - next.len(),
    {
        let fresh = Candidate::random(width, height);
        next.push(fresh);
    }
    next
}

/// How many top survivors the final round of an epoch accepts: grows
/// with the image width and the number of elapsed epochs, never
/// shrinks, and is capped at `SURVIVOR_COUNT`.
pub open spec fn schedule_spec(width: int, epochs: int) -> int {
    let base = if width >= 1000 {
        width
    } else {
        1000
    };
    if (base + epochs) / 100 >= 100 {
        100
    } else {
        (base + epochs) / 100
    }
}

/// The acceptance schedule never decreases as epochs elapse.
pub proof fn lemma_schedule_monotone_in_epochs(width: int, e1: int, e2: int)
    requires
        0 <= e1 <= e2,
    ensures
        schedule_spec(width, e1) <= schedule_spec(width, e2),
{
    let base = if width >= 1000 {
        width
    } else {
        1000
    };
    lemma_div_is_ordered(base + e1, base + e2, 100);
}

/// The acceptance schedule never decreases as the image widens.
pub proof fn lemma_schedule_monotone_in_width(w1: int, w2: int, epochs: int)
    requires
        w1 <= w2,
    ensures
        schedule_spec(w1, epochs) <= schedule_spec(w2, epochs),
{
    let b1 = if w1 >= 1000 {
        w1
    } else {
        1000
    };
    let b2 = if w2 >= 1000 {
        w2
    } else {
        1000
    };
    lemma_div_is_ordered(b1 + epochs, b2 + epochs, 100);
}

/// Computes the acceptance schedule.
pub fn schedule(width: usize, epochs: u32) -> (n: usize)
    requires
        width <= MAX_DIM,
    ensures
        n == schedule_spec(width as int, epochs as int),
        1 <= n <= SURVIVOR_COUNT,
{
    let base: u64 = if width >= 1000 {
        width as u64
    } else {
        1000
    };
    let raw: u64 = (base + (epochs as u64)) / 100;
    proof {
        lemma_div_is_ordered(1000, base + epochs, 100);
    }
    if raw >= 100 {
        100
    } else {
        raw as usize
    }
}

/// The elite prefix: of the first `n` ranked survivors, those with
/// positive fitness, in rank order.
pub open spec fn elite_spec(s: Seq<Candidate>, n: int) -> Seq<Candidate>
    decreases n,
{
    if n <= 0 {
        Seq::empty()
    } else {
        let pre = elite_spec(s, n - 1);
        if s[n - 1].fitness > 0 {
            pre.push(s[n - 1])
        } else {
            pre
        }
    }
}

pub proof fn lemma_elite_spec_len(s: Seq<Candidate>, n: int)
    requires
        n >= 0,
    ensures
        elite_spec(s, n).len() <= n,
    decreases n,
{
    if n > 0 {
        lemma_elite_spec_len(s, n - 1);
    }
}

/// Every elite entry is one of the first `n` survivors.
pub proof fn lemma_elite_spec_members(s: Seq<Candidate>, n: int)
    requires
        n <= s.len(),
    ensures
        forall|k: int| #![trigger elite_spec(s, n)[k]]
            0 <= k < elite_spec(s, n).len() ==> exists|j: int|
                0 <= j < n && elite_spec(s, n)[k] == #[trigger] s[j] && s[j].fitness > 0,
    decreases n,
{
    if n > 0 {
        lemma_elite_spec_members(s, n - 1);
        let pre = elite_spec(s, n - 1);
        assert forall|k: int| #![trigger elite_spec(s, n)[k]] 0 <= k < elite_spec(s, n).len()
            implies exists|j: int|
            0 <= j < n && elite_spec(s, n)[k] == #[trigger] s[j] && s[j].fitness > 0 by {
            if k < pre.len() {
                assert(elite_spec(s, n)[k] == pre[k]);
            }
        }
    }
}

/// Selects the epoch's elite: the schedule-determined number of top
/// ranked survivors that scored positive fitness, with no reproduction
/// and no padding.
pub fn select_elite(survivors: &Vec<Candidate>, width: usize, epochs: u32) -> (elite: Vec<
    Candidate,
>)
    requires
        width <= MAX_DIM,
    ensures
        elite@ == elite_spec(
            survivors@,
            if schedule_spec(width as int, epochs as int) <= survivors@.len() {
                schedule_spec(width as int, epochs as int)
            } else {
                survivors@.len() as int
            },
        ),
{
    let quota: usize = schedule(width, epochs);
    let n: usize = if quota <= survivors.len() {
        quota
    } else {
        survivors.len()
    };
    let mut elite: Vec<Candidate> = Vec::new();
    let mut i: usize = 0;
    while i < n
        invariant
            i <= n <= survivors@.len(),
            elite@ == elite_spec(survivors@, i as int),
        decreases n - i,
    {
        if survivors[i].fitness > 0 {
            elite.push(survivors[i]);
        }
        i = i + 1;
    }
    elite
}

} // verus!
