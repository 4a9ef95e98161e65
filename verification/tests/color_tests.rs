use linevolve::color::{gamma_decode, icbrt_u64, ififth_root_u128, isqrt_u64, similarity, SIM_MAX};
use linevolve::Rgb;

fn rgb(r: u8, g: u8, b: u8) -> Rgb {
    Rgb { r, g, b }
}

#[test]
fn similarity_identical_colors_is_maximal() {
    let colors = [
        rgb(0, 0, 0),
        rgb(255, 255, 255),
        rgb(255, 0, 0),
        rgb(1, 2, 3),
        rgb(128, 200, 17),
    ];
    for c in colors {
        assert_eq!(similarity(c, c), SIM_MAX);
        assert_eq!(similarity(c, c), 6553600);
    }
}

#[test]
fn similarity_is_symmetric() {
    let colors = [
        rgb(0, 0, 0),
        rgb(255, 255, 255),
        rgb(255, 0, 0),
        rgb(0, 255, 0),
        rgb(0, 0, 255),
        rgb(12, 240, 99),
        rgb(200, 100, 50),
    ];
    for a in colors {
        for b in colors {
            assert_eq!(similarity(a, b), similarity(b, a));
        }
    }
}

#[test]
fn similarity_exact_values() {
    // Black against white is the full Lab lightness distance: the
    // similarity is 100 - 100 up to fixed-point rounding (scale 65536).
    assert_eq!(similarity(rgb(0, 0, 0), rgb(255, 255, 255)), -52);
    // Saturated primaries are farther apart than 100: negative scores.
    assert_eq!(similarity(rgb(255, 0, 0), rgb(0, 0, 0)), -1138387);
    assert_eq!(similarity(rgb(255, 0, 0), rgb(0, 255, 0)), -4626965);
    // Near-misses on one channel score high.
    assert_eq!(similarity(rgb(0, 0, 255), rgb(0, 0, 200)), 4994486);
    assert_eq!(similarity(rgb(0, 0, 255), rgb(0, 0, 100)), 1922817);
    assert_eq!(similarity(rgb(255, 0, 0), rgb(200, 0, 0)), 5179128);
}

#[test]
fn similarity_never_exceeds_maximum() {
    let colors = [
        rgb(0, 0, 0),
        rgb(255, 255, 255),
        rgb(255, 0, 0),
        rgb(0, 255, 0),
        rgb(0, 0, 255),
        rgb(7, 7, 7),
    ];
    for a in colors {
        for b in colors {
            assert!(similarity(a, b) <= SIM_MAX);
            assert!(similarity(a, b) > -70000000);
        }
    }
}

#[test]
fn closer_color_scores_higher() {
    // A wrapper handing back garbage would break this ordering: the
    // nearer blue must score strictly higher against pure blue.
    let target = rgb(0, 0, 255);
    let near = similarity(target, rgb(0, 0, 200));
    let far = similarity(target, rgb(0, 0, 100));
    assert!(near > far);
    assert!(similarity(target, target) > near);
}

#[test]
fn integer_roots_are_floors() {
    assert_eq!(isqrt_u64(0), 0);
    assert_eq!(isqrt_u64(15), 3);
    assert_eq!(isqrt_u64(16), 4);
    assert_eq!(isqrt_u64(u64::MAX), 0xFFFF_FFFF);
    assert_eq!(icbrt_u64(26), 2);
    assert_eq!(icbrt_u64(27), 3);
    assert_eq!(icbrt_u64(0x1_0000_0000_0000), 0x1_0000);
    assert_eq!(ififth_root_u128(31), 1);
    assert_eq!(ififth_root_u128(32), 2);
    assert_eq!(ififth_root_u128(1 << 80), 0x1_0000);
}

#[test]
fn gamma_decode_endpoints() {
    // black maps to zero light and white to full scale exactly.
    assert_eq!(gamma_decode(0), 0);
    assert_eq!(gamma_decode(255), 65536);
    // the curve is monotone over the whole channel range.
    let mut prev = 0;
    for c in 0..=255u8 {
        let v = gamma_decode(c);
        assert!(v >= prev);
        assert!(v <= 65536);
        prev = v;
    }
}
