use linevolve::candidate::Candidate;
use linevolve::evolve::{
    dedup_population, next_population, rate_geq_exec, schedule, select_elite, sort_by_rate,
    truncate_population,
};
use linevolve::Rgb;

fn line(slope_milli: i64, intercept: i64, fitness: i64, samples: i64) -> Candidate {
    // a candidate shaped for a 10 x 5 raster: a horizontal line on a
    // visible row spans the full width, any other shape here is empty.
    Candidate {
        slope_milli,
        intercept,
        color: Rgb { r: 1, g: 2, b: 3 },
        xmin: 0,
        xmax: if slope_milli == 0 && 0 <= intercept && intercept < 5 { 10 } else { 0 },
        fitness,
        samples,
    }
}

#[test]
fn sort_orders_by_normalized_fitness() {
    // rates: 10/1 = 10, 30/2 = 15, 5/1 = 5.
    let a = line(0, 0, 10, 1);
    let b = line(0, 1, 30, 2);
    let c = line(0, 2, 5, 1);
    let mut pop = vec![a, c, b];
    sort_by_rate(&mut pop);
    assert_eq!(pop.len(), 3);
    assert_eq!(pop[0].fitness, 30);
    assert_eq!(pop[1].fitness, 10);
    assert_eq!(pop[2].fitness, 5);
}

#[test]
fn sort_is_stable_for_equal_rates() {
    // equal rates keep their relative order: 10/1 and 20/2.
    let first = line(0, 0, 10, 1);
    let second = line(0, 1, 20, 2);
    let mut pop = vec![first, second];
    sort_by_rate(&mut pop);
    assert_eq!(pop[0].intercept, 0);
    assert_eq!(pop[1].intercept, 1);
}

#[test]
fn rate_comparison_is_exact() {
    let a = line(0, 0, 10, 3);
    let b = line(0, 1, 7, 2);
    // 10/3 < 7/2 exactly: 10 * 2 = 20 < 21 = 7 * 3.
    assert!(!rate_geq_exec(&a, &b));
    assert!(rate_geq_exec(&b, &a));
}

#[test]
fn dedup_demotes_later_duplicate_and_keeps_count() {
    let strong = line(250, 1, 900, 2);
    let weak = line(250, 1, 300, 1);
    let other = line(500, 2, 200, 1);
    let mut pop = vec![strong, other, weak];
    dedup_population(&mut pop);
    assert_eq!(pop.len(), 3);
    // the first occurrence keeps its fitness.
    assert_eq!(pop[0].fitness, 900);
    assert_eq!(pop[1].fitness, 200);
    // the later candidate with the same (intercept, slope) is demoted.
    assert_eq!(pop[2].fitness, 0);
    // everything else about the demoted candidate stays.
    assert_eq!(pop[2].slope_milli, 250);
    assert_eq!(pop[2].intercept, 1);
    assert_eq!(pop[2].samples, 1);
}

#[test]
fn dedup_ignores_color_differences_of_same_genotype() {
    let mut a = line(100, 0, 50, 1);
    a.color = Rgb { r: 9, g: 9, b: 9 };
    let mut b = line(100, 0, 70, 1);
    b.color = Rgb { r: 200, g: 1, b: 1 };
    let mut pop = vec![a, b];
    dedup_population(&mut pop);
    assert_eq!(pop[0].fitness, 50);
    assert_eq!(pop[1].fitness, 0);
}

#[test]
fn truncate_keeps_the_top_entries() {
    let mut pop = Vec::new();
    for i in 0..10 {
        pop.push(line(0, i, 100 - i, 1));
    }
    truncate_population(&mut pop, 3);
    assert_eq!(pop.len(), 3);
    assert_eq!(pop[0].fitness, 100);
    assert_eq!(pop[2].fitness, 98);
}

#[test]
fn next_population_breeds_and_pads_to_full_size() {
    let s1 = line(0, 1, 40, 1);
    let s2 = line(0, 2, 30, 1);
    let survivors = vec![s1, s2];
    let next = next_population(&survivors, 10, 5);
    assert_eq!(next.len(), 500);
    // each survivor leads its block of one parent plus four offspring.
    assert_eq!(next[0].fitness, 40);
    assert_eq!(next[0].intercept, 1);
    assert_eq!(next[5].fitness, 30);
    assert_eq!(next[5].intercept, 2);
    // offspring and padding start unscored.
    for i in 1..5 {
        assert_eq!(next[i].fitness, 0);
        assert_eq!(next[i].samples, 1);
    }
    for i in 10..500 {
        assert_eq!(next[i].fitness, 0);
    }
}

#[test]
fn next_population_stops_at_first_zero_fitness() {
    // ranked list with a zero in the middle: reproduction must break
    // there, not filter past it.
    let s1 = line(0, 1, 40, 1);
    let s2 = line(0, 2, 0, 1);
    let s3 = line(0, 3, 25, 1);
    let next = next_population(&vec![s1, s2, s3], 10, 5);
    assert_eq!(next.len(), 500);
    assert_eq!(next[0].intercept, 1);
    // nothing bred from s2 or s3: indices 5.. are fresh random padding.
    for i in 5..500 {
        assert_eq!(next[i].fitness, 0);
        assert_eq!(next[i].samples, 1);
    }
}

#[test]
fn schedule_grows_and_caps() {
    // width below 1000 uses the floor of 1000: 1000 / 100 = 10.
    assert_eq!(schedule(500, 0), 10);
    assert_eq!(schedule(500, 99), 10);
    assert_eq!(schedule(500, 100), 11);
    // wide images start higher.
    assert_eq!(schedule(3000, 0), 30);
    // capped at 100.
    assert_eq!(schedule(500, 1000000), 100);
    assert_eq!(schedule(1048576, 0), 100);
}

#[test]
fn schedule_is_monotone_in_epochs() {
    for w in [1usize, 500, 1000, 2000] {
        for t in 0..300u32 {
            assert!(schedule(w, t + 1) >= schedule(w, t));
        }
    }
}

#[test]
fn select_elite_keeps_positive_fitness_in_rank_order() {
    let mut survivors = Vec::new();
    for i in 0..20 {
        survivors.push(line(0, i, if i % 2 == 0 { 100 - i } else { 0 }, 1));
    }
    // schedule(500, 0) = 10: only the first 10 entries are considered.
    let elite = select_elite(&survivors, 500, 0);
    assert_eq!(elite.len(), 5);
    for (k, c) in elite.iter().enumerate() {
        assert_eq!(c.intercept as usize, 2 * k);
        assert!(c.fitness > 0);
    }
}

#[test]
fn select_elite_never_pads() {
    let survivors = vec![line(0, 1, 0, 1), line(0, 2, 0, 1)];
    let elite = select_elite(&survivors, 500, 0);
    assert_eq!(elite.len(), 0);
}
