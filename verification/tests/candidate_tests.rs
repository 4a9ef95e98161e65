use linevolve::candidate::{div_floor_by, row_y, x_range, Candidate};
use linevolve::Rgb;

#[test]
fn div_floor_rounds_toward_negative_infinity() {
    assert_eq!(div_floor_by(7, 2), 3);
    assert_eq!(div_floor_by(-7, 2), -4);
    assert_eq!(div_floor_by(-8, 2), -4);
    assert_eq!(div_floor_by(0, 5), 0);
    assert_eq!(div_floor_by(-1, 1000), -1);
}

#[test]
fn row_y_rounds_to_nearest() {
    // slope 1.5 at x = 3 crosses y = 4.5, rounded away from zero to 5.
    assert_eq!(row_y(1500, 0, 3), 5);
    // slope 1.4 at x = 3 crosses y = 4.2, rounded to 4.
    assert_eq!(row_y(1400, 0, 3), 4);
    // intercept shifts the row directly.
    assert_eq!(row_y(1000, 7, 2), 9);
    // negative slope.
    assert_eq!(row_y(-1500, 10, 3), 10 - 5);
    assert_eq!(row_y(0, 3, 100), 3);
}

#[test]
fn x_range_of_unit_slope() {
    // y = x on a 10 x 5 raster leaves the band [0, 5] at x = 5.
    assert_eq!(x_range(1000, 0, 10, 5), (0, 5));
    // y = x - 3: visible from x = 3 to x = 8.
    assert_eq!(x_range(1000, -3, 10, 5), (3, 8));
    // steep line through the middle is clamped to the width.
    assert_eq!(x_range(1, 2, 10, 5), (0, 10));
}

#[test]
fn x_range_of_horizontal_line() {
    // a horizontal line on a visible row spans the full width.
    assert_eq!(x_range(0, 3, 10, 5), (0, 10));
    assert_eq!(x_range(0, 0, 10, 5), (0, 10));
    // one above or below the raster is empty.
    assert_eq!(x_range(0, 5, 10, 5), (0, 0));
    assert_eq!(x_range(0, -1, 10, 5), (0, 0));
}

#[test]
fn x_range_of_negative_slope() {
    // y = -x + 5 on a 10 x 5 raster: y in [0, 5] for x in [0, 5].
    assert_eq!(x_range(-1000, 5, 10, 5), (0, 5));
}

#[test]
fn random_candidates_satisfy_the_range_invariant() {
    for (w, h) in [(1usize, 1usize), (2, 2), (640, 480), (3, 1000)] {
        for _ in 0..50 {
            let c = Candidate::random(w, h);
            assert!(c.xmin <= c.xmax);
            assert!(c.xmax <= w);
            assert_eq!(c.fitness, 0);
            assert_eq!(c.samples, 1);
            assert!(-5000 <= c.slope_milli && c.slope_milli <= 5000);
        }
    }
}

#[test]
fn reproduced_candidates_satisfy_the_range_invariant() {
    for (w, h) in [(1usize, 1usize), (2, 2), (640, 480)] {
        let mut c = Candidate::random(w, h);
        for _ in 0..60 {
            c = c.reproduce(w, h);
            assert!(c.xmin <= c.xmax);
            assert!(c.xmax <= w);
            assert_eq!(c.fitness, 0);
            assert_eq!(c.samples, 1);
        }
    }
}

#[test]
fn reproduce_never_mutates_the_parent() {
    let parent = Candidate::random(100, 100);
    let before = parent;
    for _ in 0..20 {
        let _child = parent.reproduce(100, 100);
        assert_eq!(parent.slope_milli, before.slope_milli);
        assert_eq!(parent.intercept, before.intercept);
        assert_eq!(parent.color, before.color);
        assert_eq!(parent.xmin, before.xmin);
        assert_eq!(parent.xmax, before.xmax);
        assert_eq!(parent.fitness, before.fitness);
        assert_eq!(parent.samples, before.samples);
    }
}

#[test]
fn reproduce_moves_fields_by_bounded_steps() {
    let parent = Candidate {
        slope_milli: 0,
        intercept: 3,
        color: Rgb { r: 0, g: 255, b: 128 },
        xmin: 0,
        xmax: 10,
        fitness: 5,
        samples: 2,
    };
    for _ in 0..100 {
        let child = parent.reproduce(10, 5);
        assert!((child.slope_milli - parent.slope_milli).abs() <= 3000);
        assert!((child.intercept - parent.intercept).abs() <= 10);
        // channels move by at most 20 and clamp at the channel range.
        assert!(child.color.r <= 20);
        assert!(child.color.g >= 235);
        assert!(108 <= child.color.b && child.color.b <= 148);
    }
}

#[test]
fn random_slopes_vary() {
    // A degenerate generator that ignored its range would hand every
    // candidate the same genotype.
    let first = Candidate::random(50, 50);
    let mut saw_different = false;
    for _ in 0..100 {
        let c = Candidate::random(50, 50);
        if c.slope_milli != first.slope_milli || c.intercept != first.intercept {
            saw_different = true;
        }
        assert!(c.slope_milli >= -5000 && c.slope_milli <= 5000);
    }
    assert!(saw_different);
}
