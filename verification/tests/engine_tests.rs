use linevolve::candidate::Candidate;
use linevolve::color::{similarity, SIM_MAX};
use linevolve::commit::commit_elite;
use linevolve::engine::{run_epoch, should_stop};
use linevolve::evaluate::evaluate;
use linevolve::raster::{total_similarity, Raster, RasterError, MAX_DIM};
use linevolve::Rgb;

const BLACK: Rgb = Rgb { r: 0, g: 0, b: 0 };
const RED: Rgb = Rgb { r: 255, g: 0, b: 0 };
const BLUE: Rgb = Rgb { r: 0, g: 0, b: 255 };

/// A horizontal line on row 0 covering one column of a 1 x 1 raster.
fn dot(color: Rgb, fitness: i64) -> Candidate {
    Candidate {
        slope_milli: 0,
        intercept: 0,
        color,
        xmin: 0,
        xmax: 1,
        fitness,
        samples: 1,
    }
}

#[test]
fn raster_rejects_degenerate_dimensions() {
    assert_eq!(Raster::new(0, 5, BLACK).unwrap_err(), RasterError::EmptyRaster);
    assert_eq!(Raster::new(5, 0, BLACK).unwrap_err(), RasterError::EmptyRaster);
    assert_eq!(
        Raster::new(MAX_DIM + 1, 1, BLACK).unwrap_err(),
        RasterError::OversizedRaster
    );
    assert_eq!(
        Raster::new(1048576, 1048576, BLACK).unwrap_err(),
        RasterError::OversizedRaster
    );
    assert_eq!(
        Raster::from_pixels(2, 2, vec![BLACK; 3]).unwrap_err(),
        RasterError::WrongPixelCount
    );
}

#[test]
fn raster_round_trips_pixels() {
    let mut r = Raster::new(3, 2, BLACK).unwrap();
    r.put(2, 1, RED);
    assert_eq!(r.get(2, 1), RED);
    assert_eq!(r.get(0, 0), BLACK);
    let r2 = Raster::from_pixels(3, 2, r.pixels.clone()).unwrap();
    assert_eq!(r2.get(2, 1), RED);
}

#[test]
fn total_similarity_of_identical_rasters_is_maximal() {
    let t = Raster::new(2, 2, RED).unwrap();
    let c = Raster::new(2, 2, RED).unwrap();
    assert_eq!(total_similarity(&t, &c), 4 * SIM_MAX);
}

#[test]
fn evaluate_accumulates_exact_gain() {
    let target = Raster::new(1, 1, RED).unwrap();
    let canvas = Raster::new(1, 1, BLACK).unwrap();
    let mut c = dot(RED, 0);
    evaluate(&mut c, &target, &canvas);
    let expected = similarity(RED, RED) - similarity(RED, BLACK);
    assert_eq!(c.fitness, expected);
    assert_eq!(c.samples, 2);
    // a candidate that would worsen the pixel accrues nothing.
    let canvas_red = Raster::new(1, 1, RED).unwrap();
    let mut worse = dot(BLACK, 0);
    evaluate(&mut worse, &target, &canvas_red);
    assert_eq!(worse.fitness, 0);
    assert_eq!(worse.samples, 2);
}

#[test]
fn commit_paints_improvements_and_reports_the_score_rise() {
    let target = Raster::new(1, 1, BLUE).unwrap();
    let mut canvas = Raster::new(1, 1, BLACK).unwrap();
    let before = total_similarity(&target, &canvas);
    let elite = vec![dot(Rgb { r: 0, g: 0, b: 200 }, 10)];
    let imp = commit_elite(&elite, &target, &mut canvas);
    assert_eq!(canvas.get(0, 0), Rgb { r: 0, g: 0, b: 200 });
    let after = total_similarity(&target, &canvas);
    assert_eq!(imp, after - before);
    assert!(imp > 0);
    // a lone candidate's realized improvement is exactly the fitness
    // the evaluator assigns it against the same frozen canvas.
    let mut probe = dot(Rgb { r: 0, g: 0, b: 200 }, 0);
    let fresh = Raster::new(1, 1, BLACK).unwrap();
    evaluate(&mut probe, &target, &fresh);
    assert_eq!(imp, probe.fitness);
}

#[test]
fn commit_overlap_is_won_by_the_higher_ranked_candidate() {
    // two candidates cover the same pixel with different colors; the
    // one earlier in rank order paints last and wins.
    let target = Raster::new(1, 1, BLUE).unwrap();
    let stronger = dot(Rgb { r: 0, g: 0, b: 200 }, 100);
    let weaker = dot(Rgb { r: 0, g: 0, b: 100 }, 10);

    let mut canvas = Raster::new(1, 1, BLACK).unwrap();
    let imp = commit_elite(&vec![stronger, weaker], &target, &mut canvas);
    assert_eq!(canvas.get(0, 0), Rgb { r: 0, g: 0, b: 200 });
    // both paints count: black -> 100-blue -> 200-blue.
    let s_b100 = similarity(BLUE, Rgb { r: 0, g: 0, b: 100 });
    let s_b200 = similarity(BLUE, Rgb { r: 0, g: 0, b: 200 });
    let s_black = similarity(BLUE, BLACK);
    assert_eq!(imp, (s_b100 - s_black) + (s_b200 - s_b100));
}

#[test]
fn commit_of_zero_fitness_elite_changes_nothing() {
    // candidates whose evaluation against this canvas yields zero
    // fitness cannot paint: the canvas color already matches them.
    let target = Raster::new(2, 2, RED).unwrap();
    let mut canvas = Raster::new(2, 2, RED).unwrap();
    let before = canvas.pixels.clone();
    let mut elite = Vec::new();
    for i in 0..2i64 {
        let mut c = dot(RED, 0);
        c.intercept = i;
        c.xmax = 2;
        elite.push(c);
    }
    let imp = commit_elite(&elite, &target, &mut canvas);
    assert_eq!(imp, 0);
    assert_eq!(canvas.pixels, before);
}

#[test]
fn epoch_on_a_tiny_red_target_never_degrades_the_canvas() {
    let target = Raster::new(2, 2, RED).unwrap();
    let mut canvas = Raster::new(2, 2, BLACK).unwrap();
    let mut prev = total_similarity(&target, &canvas);
    for epoch in 0..2 {
        let (elite_count, imp) = run_epoch(&target, &mut canvas, epoch);
        let now = total_similarity(&target, &canvas);
        assert!(imp >= 0);
        assert_eq!(imp, now - prev);
        assert!(now >= prev);
        assert!(elite_count <= 100);
        prev = now;
    }
}

#[test]
fn epoch_on_a_perfect_canvas_reports_no_improvement() {
    let target = Raster::new(2, 2, RED).unwrap();
    let mut canvas = Raster::new(2, 2, RED).unwrap();
    let (_, imp) = run_epoch(&target, &mut canvas, 5);
    assert_eq!(imp, 0);
    for y in 0..2 {
        for x in 0..2 {
            assert_eq!(canvas.get(x, y), RED);
        }
    }
    // the driver stops on a zero-improvement epoch.
    assert!(should_stop(imp, 6, total_similarity(&target, &canvas), 2, 2));
}

#[test]
fn stop_decision_matches_the_policy() {
    // improvement zero always stops.
    assert!(should_stop(0, 3, 0, 10, 10));
    // positive improvement: only every tenth epoch consults the
    // high-water threshold of 98% of width * height * SIM_MAX.
    let perfect = 100 * SIM_MAX;
    assert!(!should_stop(5, 7, perfect, 10, 10));
    assert!(should_stop(5, 10, perfect, 10, 10));
    assert!(should_stop(5, 20, (perfect / 100) * 99, 10, 10));
    assert!(!should_stop(5, 20, (perfect / 100) * 97, 10, 10));
}
