//! Fixed-point perceptual color metric.
//!
//! An 8-bit sRGB channel is gamma-decoded to linear light, the linear
//! triple is mapped to the Lab color space, and the similarity of two
//! colors is `100 - difference`, where `difference` is the Euclidean
//! distance of the two Lab points. All values are scaled by `SIM_UNIT`
//! (2^16) and computed exactly in integer arithmetic, so the whole
//! pipeline is a mathematical function that contracts can speak about.

use vstd::prelude::*;

verus! {

use vstd::arithmetic::div_mod::{lemma_div_is_ordered, lemma_div_pos_is_pos};

/// One pixel: an 8-bit RGB triple.
#[derive(Clone, Copy, Debug, PartialEq, Eq, Structural)]
pub struct Rgb {
    pub r: u8,
    pub g: u8,
    pub b: u8,
}

/// Fixed-point scale of linear-light, Lab and similarity values.
pub const SIM_UNIT: i64 = 65536;

/// Similarity of a color with itself: 100 in units of `SIM_UNIT`.
pub const SIM_MAX: i64 = 6553600;

/// Strict lower bound on any similarity value.
pub const SIM_FLOOR: i64 = -70000000;

/// Largest integer whose square does not exceed `n`.
pub open spec fn sqrt_floor(n: nat) -> nat
    decreases n,
{
    if n == 0 {
        0
    } else {
        let p = sqrt_floor((n - 1) as nat);
        if (p + 1) * (p + 1) <= n {
            p + 1
        } else {
            p
        }
    }
}

pub proof fn lemma_sqrt_floor_bracket(n: nat)
    ensures
        sqrt_floor(n) * sqrt_floor(n) <= n,
        n < (sqrt_floor(n) + 1) * (sqrt_floor(n) + 1),
    decreases n,
{
    if n == 0 {
        assert(sqrt_floor(n) == 0);
        assert(n < (sqrt_floor(n) + 1) * (sqrt_floor(n) + 1)) by (nonlinear_arith)
            requires
                n == 0,
                sqrt_floor(n) == 0,
        ;
    } else {
        lemma_sqrt_floor_bracket((n - 1) as nat);
        let p = sqrt_floor((n - 1) as nat);
        assert(p * p <= n - 1);
        assert(n - 1 < (p + 1) * (p + 1));
        if (p + 1) * (p + 1) <= n {
            assert(sqrt_floor(n) == p + 1);
            assert(sqrt_floor(n) * sqrt_floor(n) <= n) by (nonlinear_arith)
                requires
                    sqrt_floor(n) == p + 1,
                    (p + 1) * (p + 1) <= n,
            ;
            assert(n < (sqrt_floor(n) + 1) * (sqrt_floor(n) + 1)) by (nonlinear_arith)
                requires
                    n >= 1,
                    sqrt_floor(n) == p + 1,
                    n - 1 < (p + 1) * (p + 1),
            ;
        } else {
            assert(sqrt_floor(n) == p);
            assert(sqrt_floor(n) * sqrt_floor(n) <= n) by (nonlinear_arith)
                requires
                    n >= 1,
                    sqrt_floor(n) == p,
                    p * p <= n - 1,
            ;
            assert(n < (sqrt_floor(n) + 1) * (sqrt_floor(n) + 1)) by (nonlinear_arith)
                requires
                    sqrt_floor(n) == p,
                    !((p + 1) * (p + 1) <= n),
            ;
        }
    }
}

pub proof fn lemma_sqrt_floor_unique(n: nat, r: nat)
    requires
        r * r <= n,
        n < (r + 1) * (r + 1),
    ensures
        r == sqrt_floor(n),
{
    lemma_sqrt_floor_bracket(n);
    let s = sqrt_floor(n);
    if r < s {
        assert((r + 1) * (r + 1) <= s * s) by (nonlinear_arith)
            requires
                r + 1 <= s,
        ;
    }
    if s < r {
        assert((s + 1) * (s + 1) <= r * r) by (nonlinear_arith)
            requires
                s + 1 <= r,
        ;
    }
}

/// Integer square root of a 64-bit value.
pub fn isqrt_u64(n: u64) -> (r: u64)
    ensures
        r == sqrt_floor(n as nat),
        r * r <= n,
        n < (r + 1) * (r + 1),
{
    let mut lo: u64 = 0;
    let mut hi: u64 = if n >= 0xFFFF_FFFF {
        0x1_0000_0000
    } else {
        n + 1
    };
    proof {
        assert(lo * lo <= n) by (nonlinear_arith)
            requires
                lo == 0,
        ;
        if n >= 0xFFFF_FFFF {
            assert(n < 0x1_0000_0000 * 0x1_0000_0000) by (nonlinear_arith)
                requires
                    n <= 0xFFFF_FFFF_FFFF_FFFF,
            ;
        } else {
            assert(n < (n + 1) * (n + 1)) by (nonlinear_arith);
        }
    }
    while lo + 1 < hi
        invariant
            lo < hi,
            hi <= 0x1_0000_0000,
            lo * lo <= n,
            n < hi * hi,
        decreases hi - lo,
    {
        let mid = lo + (hi - lo) / 2;
        assert(lo < mid < hi);
        assert(mid * mid <= 0xFFFF_FFFF * 0xFFFF_FFFF) by (nonlinear_arith)
            requires
                mid <= 0xFFFF_FFFF,
        ;
        if mid * mid <= n {
            lo = mid;
        } else {
            hi = mid;
        }
    }
    proof {
        assert(n < (lo + 1) * (lo + 1)) by (nonlinear_arith)
            requires
                hi == lo + 1,
                n < hi * hi,
        ;
        lemma_sqrt_floor_unique(n as nat, lo as nat);
    }
    lo
}

/// Largest integer whose cube does not exceed `n`.
pub open spec fn cbrt_floor(n: nat) -> nat
    decreases n,
{
    if n == 0 {
        0
    } else {
        let p = cbrt_floor((n - 1) as nat);
        if (p + 1) * (p + 1) * (p + 1) <= n {
            p + 1
        } else {
            p
        }
    }
}

pub proof fn lemma_cbrt_floor_bracket(n: nat)
    ensures
        cbrt_floor(n) * cbrt_floor(n) * cbrt_floor(n) <= n,
        n < (cbrt_floor(n) + 1) * (cbrt_floor(n) + 1) * (cbrt_floor(n) + 1),
    decreases n,
{
    if n == 0 {
        assert(cbrt_floor(n) == 0);
        assert(n < (cbrt_floor(n) + 1) * (cbrt_floor(n) + 1) * (cbrt_floor(n) + 1))
            by (nonlinear_arith)
            requires
                n == 0,
                cbrt_floor(n) == 0,
        ;
    } else {
        lemma_cbrt_floor_bracket((n - 1) as nat);
        let p = cbrt_floor((n - 1) as nat);
        assert(p * p * p <= n - 1);
        assert(n - 1 < (p + 1) * (p + 1) * (p + 1));
        if (p + 1) * (p + 1) * (p + 1) <= n {
            assert(cbrt_floor(n) == p + 1);
            assert(cbrt_floor(n) * cbrt_floor(n) * cbrt_floor(n) <= n) by (nonlinear_arith)
                requires
                    cbrt_floor(n) == p + 1,
                    (p + 1) * (p + 1) * (p + 1) <= n,
            ;
            assert(n < (cbrt_floor(n) + 1) * (cbrt_floor(n) + 1) * (cbrt_floor(n) + 1))
                by (nonlinear_arith)
                requires
                    n >= 1,
                    cbrt_floor(n) == p + 1,
                    n - 1 < (p + 1) * (p + 1) * (p + 1),
            ;
        } else {
            assert(cbrt_floor(n) == p);
            assert(cbrt_floor(n) * cbrt_floor(n) * cbrt_floor(n) <= n) by (nonlinear_arith)
                requires
                    n >= 1,
                    cbrt_floor(n) == p,
                    p * p * p <= n - 1,
            ;
            assert(n < (cbrt_floor(n) + 1) * (cbrt_floor(n) + 1) * (cbrt_floor(n) + 1))
                by (nonlinear_arith)
                requires
                    cbrt_floor(n) == p,
                    !((p + 1) * (p + 1) * (p + 1) <= n),
            ;
        }
    }
}

pub proof fn lemma_cbrt_floor_unique(n: nat, r: nat)
    requires
        r * r * r <= n,
        n < (r + 1) * (r + 1) * (r + 1),
    ensures
        r == cbrt_floor(n),
{
    lemma_cbrt_floor_bracket(n);
    let s = cbrt_floor(n);
    if r < s {
        assert((r + 1) * (r + 1) * (r + 1) <= s * s * s) by (nonlinear_arith)
            requires
                r + 1 <= s,
        ;
    }
    if s < r {
        assert((s + 1) * (s + 1) * (s + 1) <= r * r * r) by (nonlinear_arith)
            requires
                s + 1 <= r,
        ;
    }
}

/// Integer cube root, for arguments up to 2^48.
pub fn icbrt_u64(n: u64) -> (r: u64)
    requires
        n <= 0x1_0000_0000_0000,
    ensures
        r == cbrt_floor(n as nat),
        r * r * r <= n,
        n < (r + 1) * (r + 1) * (r + 1),
        r <= 0x1_0000,
{
    let mut lo: u64 = 0;
    let mut hi: u64 = 0x1_0001;
    proof {
        assert(lo * lo * lo <= n) by (nonlinear_arith)
            requires
                lo == 0,
        ;
        assert(n < hi * hi * hi) by (nonlinear_arith)
            requires
                n <= 0x1_0000_0000_0000,
                hi == 0x1_0001,
        ;
    }
    while lo + 1 < hi
        invariant
            lo < hi,
            hi <= 0x1_0001,
            lo * lo * lo <= n,
            n < hi * hi * hi,
        decreases hi - lo,
    {
        let mid = lo + (hi - lo) / 2;
        assert(lo < mid < hi);
        assert(mid * mid <= 0x1_0000_0000 && mid * mid * mid <= 0x1_0000_0000_0000)
            by (nonlinear_arith)
            requires
                mid <= 0x1_0000,
        ;
        if mid * mid * mid <= n {
            lo = mid;
        } else {
            hi = mid;
        }
    }
    proof {
        assert(n < (lo + 1) * (lo + 1) * (lo + 1)) by (nonlinear_arith)
            requires
                hi == lo + 1,
                n < hi * hi * hi,
        ;
        lemma_cbrt_floor_unique(n as nat, lo as nat);
    }
    lo
}

/// Largest integer whose fifth power does not exceed `n`.
pub open spec fn fifth_root_floor(n: nat) -> nat
    decreases n,
{
    if n == 0 {
        0
    } else {
        let p = fifth_root_floor((n - 1) as nat);
        if (p + 1) * (p + 1) * (p + 1) * (p + 1) * (p + 1) <= n {
            p + 1
        } else {
            p
        }
    }
}

pub proof fn lemma_fifth_root_floor_bracket(n: nat)
    ensures
        fifth_root_floor(n) * fifth_root_floor(n) * fifth_root_floor(n) * fifth_root_floor(n)
            * fifth_root_floor(n) <= n,
        n < (fifth_root_floor(n) + 1) * (fifth_root_floor(n) + 1) * (fifth_root_floor(n) + 1) * (
        fifth_root_floor(n) + 1) * (fifth_root_floor(n) + 1),
    decreases n,
{
    if n == 0 {
        assert(fifth_root_floor(n) == 0);
        assert(n < (fifth_root_floor(n) + 1) * (fifth_root_floor(n) + 1) * (fifth_root_floor(n)
            + 1) * (fifth_root_floor(n) + 1) * (fifth_root_floor(n) + 1)) by (nonlinear_arith)
            requires
                n == 0,
                fifth_root_floor(n) == 0,
        ;
    } else {
        lemma_fifth_root_floor_bracket((n - 1) as nat);
        let p = fifth_root_floor((n - 1) as nat);
        assert(p * p * p * p * p <= n - 1);
        assert(n - 1 < (p + 1) * (p + 1) * (p + 1) * (p + 1) * (p + 1));
        if (p + 1) * (p + 1) * (p + 1) * (p + 1) * (p + 1) <= n {
            assert(fifth_root_floor(n) == p + 1);
            assert(fifth_root_floor(n) * fifth_root_floor(n) * fifth_root_floor(n)
                * fifth_root_floor(n) * fifth_root_floor(n) <= n) by (nonlinear_arith)
                requires
                    fifth_root_floor(n) == p + 1,
                    (p + 1) * (p + 1) * (p + 1) * (p + 1) * (p + 1) <= n,
            ;
            assert(n < (fifth_root_floor(n) + 1) * (fifth_root_floor(n) + 1) * (fifth_root_floor(
            n) + 1) * (fifth_root_floor(n) + 1) * (fifth_root_floor(n) + 1)) by (nonlinear_arith)
                requires
                    n >= 1,
                    fifth_root_floor(n) == p + 1,
                    n - 1 < (p + 1) * (p + 1) * (p + 1) * (p + 1) * (p + 1),
            ;
        } else {
            assert(fifth_root_floor(n) == p);
            assert(fifth_root_floor(n) * fifth_root_floor(n) * fifth_root_floor(n)
                * fifth_root_floor(n) * fifth_root_floor(n) <= n) by (nonlinear_arith)
                requires
                    n >= 1,
                    fifth_root_floor(n) == p,
                    p * p * p * p * p <= n - 1,
            ;
            assert(n < (fifth_root_floor(n) + 1) * (fifth_root_floor(n) + 1) * (fifth_root_floor(
            n) + 1) * (fifth_root_floor(n) + 1) * (fifth_root_floor(n) + 1)) by (nonlinear_arith)
                requires
                    fifth_root_floor(n) == p,
                    !((p + 1) * (p + 1) * (p + 1) * (p + 1) * (p + 1) <= n),
            ;
        }
    }
}

pub proof fn lemma_fifth_root_floor_unique(n: nat, r: nat)
    requires
        r * r * r * r * r <= n,
        n < (r + 1) * (r + 1) * (r + 1) * (r + 1) * (r + 1),
    ensures
        r == fifth_root_floor(n),
{
    lemma_fifth_root_floor_bracket(n);
    let s = fifth_root_floor(n);
    if r < s {
        assert((r + 1) * (r + 1) * (r + 1) * (r + 1) * (r + 1) <= s * s * s * s * s)
            by (nonlinear_arith)
            requires
                r + 1 <= s,
        ;
    }
    if s < r {
        assert((s + 1) * (s + 1) * (s + 1) * (s + 1) * (s + 1) <= r * r * r * r * r)
            by (nonlinear_arith)
            requires
                s + 1 <= r,
        ;
    }
}

/// Integer fifth root, for arguments up to 2^80.
pub fn ififth_root_u128(n: u128) -> (r: u128)
    requires
        n <= 0x1_0000_0000_0000_0000_0000,
    ensures
        r == fifth_root_floor(n as nat),
        r * r * r * r * r <= n,
        n < (r + 1) * (r + 1) * (r + 1) * (r + 1) * (r + 1),
        r <= 0x1_0000,
{
    let mut lo: u128 = 0;
    let mut hi: u128 = 0x1_0001;
    proof {
        assert(lo * lo * lo * lo * lo <= n) by (nonlinear_arith)
            requires
                lo == 0,
        ;
        assert(n < hi * hi * hi * hi * hi) by (nonlinear_arith)
            requires
                n <= 0x1_0000_0000_0000_0000_0000,
                hi == 0x1_0001,
        ;
    }
    while lo + 1 < hi
        invariant
            lo < hi,
            hi <= 0x1_0001,
            lo * lo * lo * lo * lo <= n,
            n < hi * hi * hi * hi * hi,
        decreases hi - lo,
    {
        let mid = lo + (hi - lo) / 2;
        assert(lo < mid < hi);
        assert(mid * mid <= 0x1_0000_0000 && mid * mid * mid <= 0x1_0000_0000_0000 && mid
            * mid * mid * mid <= 0x1_0000_0000_0000_0000 && mid * mid * mid * mid * mid
            <= 0x1_0000_0000_0000_0000_0000) by (nonlinear_arith)
            requires
                mid <= 0x1_0000,
        ;
        if mid * mid * mid * mid * mid <= n {
            lo = mid;
        } else {
            hi = mid;
        }
    }
    proof {
        assert(n < (lo + 1) * (lo + 1) * (lo + 1) * (lo + 1) * (lo + 1)) by (nonlinear_arith)
            requires
                hi == lo + 1,
                n < hi * hi * hi * hi * hi,
        ;
        lemma_fifth_root_floor_unique(n as nat, lo as nat);
    }
    lo
}

/// Linear-light value of an 8-bit sRGB channel, scaled by 2^16.
///
/// Below the small-signal threshold the sRGB curve is the straight line
/// `c / 12.92`; above it, it is `((c/255 + 0.055) / 1.055)^2.4`. The
/// exponent 2.4 is computed exactly as `u^2 * (u^2)^(1/5)` on scaled
/// integers.
pub closed spec fn gamma_decode_spec(c: u8) -> int {
    if c <= 10 {
        (c * 6553600) / 329460
    } else {
        let v = ((1000 * c + 14025) * 65536) / 269025;
        let a = v * v;
        let b5 = fifth_root_floor((a * 0x1_0000_0000_0000) as nat) as int;
        (a * b5) / 0x1_0000_0000
    }
}

pub proof fn lemma_gamma_decode_bounds(c: u8)
    ensures
        0 <= gamma_decode_spec(c) <= 65536,
{
    if c <= 10 {
        lemma_div_pos_is_pos(c * 6553600, 329460);
        lemma_div_is_ordered(c * 6553600, 65536000, 329460);
    } else {
        let v = ((1000 * c + 14025) * 65536) / 269025;
        lemma_div_pos_is_pos((1000 * c + 14025) * 65536, 269025);
        lemma_div_is_ordered((1000 * c + 14025) * 65536, (269025 * 65536) as int, 269025);
        assert(v <= 65536);
        let a = v * v;
        assert(0 <= a <= 0x1_0000_0000) by (nonlinear_arith)
            requires
                0 <= v <= 65536,
                a == v * v,
        ;
        let arg = (a * 0x1_0000_0000_0000) as nat;
        assert(arg <= 0x1_0000_0000_0000_0000_0000);
        let b5 = fifth_root_floor(arg) as int;
        lemma_fifth_root_floor_bracket(arg);
        if b5 > 0x1_0000 {
            assert(false) by (nonlinear_arith)
                requires
                    b5 >= 0x1_0001,
                    b5 * b5 * b5 * b5 * b5 <= 0x1_0000_0000_0000_0000_0000,
            ;
        }
        assert(0 <= a * b5 <= 0x1_0000_0000_0000) by (nonlinear_arith)
            requires
                0 <= a <= 0x1_0000_0000,
                0 <= b5 <= 0x1_0000,
        ;
        lemma_div_pos_is_pos(a * b5, 0x1_0000_0000);
        lemma_div_is_ordered(a * b5, 0x1_0000_0000_0000, 0x1_0000_0000);
    }
}

/// Computes `gamma_decode_spec` on 8-bit input.
pub fn gamma_decode(c: u8) -> (r: u64)
    ensures
        r == gamma_decode_spec(c),
        r <= 65536,
{
    proof {
        lemma_gamma_decode_bounds(c);
    }
    if c <= 10 {
        ((c as u64) * 6553600) / 329460
    } else {
        let v: u64 = ((1000 * (c as u64) + 14025) * 65536) / 269025;
        proof {
            lemma_div_is_ordered((1000 * c + 14025) * 65536, (269025 * 65536) as int, 269025);
        }
        assert(v * v <= 0x1_0000_0000) by (nonlinear_arith)
            requires
                v <= 65536,
        ;
        let a: u64 = v * v;
        let arg: u128 = (a as u128) * 0x1_0000_0000_0000;
        let b5: u128 = ififth_root_u128(arg);
        let b5s: u64 = b5 as u64;
        assert(a * b5s <= 0x1_0000_0000_0000) by (nonlinear_arith)
            requires
                a <= 0x1_0000_0000,
                b5s <= 0x1_0000,
        ;
        let prod: u64 = a * b5s;
        prod / 0x1_0000_0000
    }
}

/// The Lab `f` transfer function on a scaled XYZ coordinate.
///
/// For `t` above the Lab threshold (0.008856, scaled: 581) this is the
/// cube root; below it, the linear segment `7.787 t + 16/116`.
pub closed spec fn lab_f_spec(t: int) -> int {
    if t >= 581 {
        cbrt_floor((t * 0x1_0000_0000) as nat) as int
    } else {
        (7787 * t) / 1000 + 9039
    }
}

pub proof fn lemma_lab_f_bounds(t: int)
    requires
        0 <= t <= 65536,
    ensures
        0 <= lab_f_spec(t) <= 65536,
{
    if t >= 581 {
        let arg = (t * 0x1_0000_0000) as nat;
        assert(arg <= 0x1_0000_0000_0000);
        let r = cbrt_floor(arg) as int;
        lemma_cbrt_floor_bracket(arg);
        if r > 0x1_0000 {
            assert(false) by (nonlinear_arith)
                requires
                    r >= 0x1_0001,
                    r * r * r <= 0x1_0000_0000_0000,
            ;
        }
    } else {
        lemma_div_pos_is_pos(7787 * t, 1000);
        lemma_div_is_ordered(7787 * t, (7787 * 580) as int, 1000);
    }
}

/// Computes `lab_f_spec` on a scaled coordinate.
pub fn lab_f(t: u64) -> (r: u64)
    requires
        t <= 65536,
    ensures
        r == lab_f_spec(t as int),
        r <= 65536,
{
    proof {
        lemma_lab_f_bounds(t as int);
    }
    if t >= 581 {
        icbrt_u64(t * 0x1_0000_0000)
    } else {
        (7787 * t) / 1000 + 9039
    }
}

/// Scaled X coordinate of a color, divided by the D65 white point.
pub closed spec fn xyz_x_spec(c: Rgb) -> int {
    (4339 * gamma_decode_spec(c.r) + 3762 * gamma_decode_spec(c.g) + 1899 * gamma_decode_spec(
        c.b,
    )) / 10000
}

/// Scaled Y coordinate of a color.
pub closed spec fn xyz_y_spec(c: Rgb) -> int {
    (2126 * gamma_decode_spec(c.r) + 7152 * gamma_decode_spec(c.g) + 722 * gamma_decode_spec(
        c.b,
    )) / 10000
}

/// Scaled Z coordinate of a color, divided by the D65 white point.
pub closed spec fn xyz_z_spec(c: Rgb) -> int {
    (177 * gamma_decode_spec(c.r) + 1094 * gamma_decode_spec(c.g) + 8729 * gamma_decode_spec(
        c.b,
    )) / 10000
}

pub proof fn lemma_xyz_bounds(c: Rgb)
    ensures
        0 <= xyz_x_spec(c) <= 65536,
        0 <= xyz_y_spec(c) <= 65536,
        0 <= xyz_z_spec(c) <= 65536,
{
    lemma_gamma_decode_bounds(c.r);
    lemma_gamma_decode_bounds(c.g);
    lemma_gamma_decode_bounds(c.b);
    let xr = gamma_decode_spec(c.r);
    let xg = gamma_decode_spec(c.g);
    let xb = gamma_decode_spec(c.b);
    lemma_div_pos_is_pos(4339 * xr + 3762 * xg + 1899 * xb, 10000);
    lemma_div_is_ordered(4339 * xr + 3762 * xg + 1899 * xb, (10000 * 65536) as int, 10000);
    lemma_div_pos_is_pos(2126 * xr + 7152 * xg + 722 * xb, 10000);
    lemma_div_is_ordered(2126 * xr + 7152 * xg + 722 * xb, (10000 * 65536) as int, 10000);
    lemma_div_pos_is_pos(177 * xr + 1094 * xg + 8729 * xb, 10000);
    lemma_div_is_ordered(177 * xr + 1094 * xg + 8729 * xb, (10000 * 65536) as int, 10000);
}

/// Scaled Lab lightness of a color.
pub closed spec fn lab_l_spec(c: Rgb) -> int {
    116 * lab_f_spec(xyz_y_spec(c)) - 1048576
}

/// Scaled Lab green-red coordinate of a color.
pub closed spec fn lab_a_spec(c: Rgb) -> int {
    500 * (lab_f_spec(xyz_x_spec(c)) - lab_f_spec(xyz_y_spec(c)))
}

/// Scaled Lab blue-yellow coordinate of a color.
pub closed spec fn lab_b_spec(c: Rgb) -> int {
    200 * (lab_f_spec(xyz_y_spec(c)) - lab_f_spec(xyz_z_spec(c)))
}

pub proof fn lemma_lab_bounds(c: Rgb)
    ensures
        -1048576 <= lab_l_spec(c) <= 6553600,
        -32768000 <= lab_a_spec(c) <= 32768000,
        -13107200 <= lab_b_spec(c) <= 13107200,
{
    lemma_xyz_bounds(c);
    lemma_lab_f_bounds(xyz_x_spec(c));
    lemma_lab_f_bounds(xyz_y_spec(c));
    lemma_lab_f_bounds(xyz_z_spec(c));
}

/// Computes the three scaled Lab coordinates of a color.
pub fn rgb_to_lab(c: Rgb) -> (lab: (i64, i64, i64))
    ensures
        lab.0 == lab_l_spec(c),
        lab.1 == lab_a_spec(c),
        lab.2 == lab_b_spec(c),
{
    proof {
        lemma_xyz_bounds(c);
        lemma_lab_bounds(c);
    }
    let gr: u64 = gamma_decode(c.r);
    let gg: u64 = gamma_decode(c.g);
    let gb: u64 = gamma_decode(c.b);
    let x: u64 = (4339 * gr + 3762 * gg + 1899 * gb) / 10000;
    let y: u64 = (2126 * gr + 7152 * gg + 722 * gb) / 10000;
    let z: u64 = (177 * gr + 1094 * gg + 8729 * gb) / 10000;
    let fx: u64 = lab_f(x);
    let fy: u64 = lab_f(y);
    let fz: u64 = lab_f(z);
    let ll: i64 = 116 * (fy as i64) - 1048576;
    let la: i64 = 500 * ((fx as i64) - (fy as i64));
    let lb: i64 = 200 * ((fy as i64) - (fz as i64));
    (ll, la, lb)
}

/// Squared Euclidean distance of two colors in scaled Lab space.
pub closed spec fn color_dist_sq_spec(c1: Rgb, c2: Rgb) -> int {
    let dl = lab_l_spec(c1) - lab_l_spec(c2);
    let da = lab_a_spec(c1) - lab_a_spec(c2);
    let db = lab_b_spec(c1) - lab_b_spec(c2);
    dl * dl + da * da + db * db
}

pub proof fn lemma_color_dist_sq_bounds(c1: Rgb, c2: Rgb)
    ensures
        0 <= color_dist_sq_spec(c1, c2) < 5625000000000000,
{
    lemma_lab_bounds(c1);
    lemma_lab_bounds(c2);
    let dl = lab_l_spec(c1) - lab_l_spec(c2);
    let da = lab_a_spec(c1) - lab_a_spec(c2);
    let db = lab_b_spec(c1) - lab_b_spec(c2);
    assert(0 <= dl * dl <= 7602176 * 7602176) by (nonlinear_arith)
        requires
            -7602176 <= dl <= 7602176,
    ;
    assert(0 <= da * da <= 65536000 * 65536000) by (nonlinear_arith)
        requires
            -65536000 <= da <= 65536000,
    ;
    assert(0 <= db * db <= 26214400 * 26214400) by (nonlinear_arith)
        requires
            -26214400 <= db <= 26214400,
    ;
    assert(7602176 * 7602176 + 65536000 * 65536000 + 26214400 * 26214400 < 5625000000000000)
        by (nonlinear_arith);
}

/// Perceptual similarity of two colors: 100 minus their Lab-space
/// distance, in units of `SIM_UNIT`. Identical colors score `SIM_MAX`;
/// very distant colors can score below zero.
pub open spec fn similarity_spec(c1: Rgb, c2: Rgb) -> int {
    SIM_MAX - sqrt_floor(color_dist_sq_spec(c1, c2) as nat)
}

pub proof fn lemma_similarity_bounds(c1: Rgb, c2: Rgb)
    ensures
        SIM_FLOOR < similarity_spec(c1, c2) <= SIM_MAX,
{
    lemma_color_dist_sq_bounds(c1, c2);
    let d = color_dist_sq_spec(c1, c2) as nat;
    let r = sqrt_floor(d);
    lemma_sqrt_floor_bracket(d);
    if r >= 75000000 {
        assert(false) by (nonlinear_arith)
            requires
                r >= 75000000,
                r * r < 5625000000000000,
        ;
    }
}

/// Identical colors have the maximal similarity.
pub proof fn lemma_similarity_self(c: Rgb)
    ensures
        similarity_spec(c, c) == SIM_MAX,
{
    let dl = lab_l_spec(c) - lab_l_spec(c);
    assert(color_dist_sq_spec(c, c) == 0) by (nonlinear_arith)
        requires
            lab_l_spec(c) - lab_l_spec(c) == 0,
            lab_a_spec(c) - lab_a_spec(c) == 0,
            lab_b_spec(c) - lab_b_spec(c) == 0,
            color_dist_sq_spec(c, c) == (lab_l_spec(c) - lab_l_spec(c)) * (lab_l_spec(c)
                - lab_l_spec(c)) + (lab_a_spec(c) - lab_a_spec(c)) * (lab_a_spec(c) - lab_a_spec(
                c,
            )) + (lab_b_spec(c) - lab_b_spec(c)) * (lab_b_spec(c) - lab_b_spec(c)),
    ;
    lemma_sqrt_floor_bracket(0);
    let r = sqrt_floor(0);
    assert(r == 0) by (nonlinear_arith)
        requires
            r * r <= 0,
    ;
}

/// Similarity is symmetric in its two colors.
pub proof fn lemma_similarity_symmetric(c1: Rgb, c2: Rgb)
    ensures
        similarity_spec(c1, c2) == similarity_spec(c2, c1),
{
    let dl = lab_l_spec(c1) - lab_l_spec(c2);
    let da = lab_a_spec(c1) - lab_a_spec(c2);
    let db = lab_b_spec(c1) - lab_b_spec(c2);
    assert(dl * dl == (lab_l_spec(c2) - lab_l_spec(c1)) * (lab_l_spec(c2) - lab_l_spec(c1)))
        by (nonlinear_arith)
        requires
            dl == lab_l_spec(c1) - lab_l_spec(c2),
    ;
    assert(da * da == (lab_a_spec(c2) - lab_a_spec(c1)) * (lab_a_spec(c2) - lab_a_spec(c1)))
        by (nonlinear_arith)
        requires
            da == lab_a_spec(c1) - lab_a_spec(c2),
    ;
    assert(db * db == (lab_b_spec(c2) - lab_b_spec(c1)) * (lab_b_spec(c2) - lab_b_spec(c1)))
        by (nonlinear_arith)
        requires
            db == lab_b_spec(c1) - lab_b_spec(c2),
    ;
    assert(color_dist_sq_spec(c1, c2) == color_dist_sq_spec(c2, c1));
}

/// Computes the similarity of two colors.
pub fn similarity(c1: Rgb, c2: Rgb) -> (s: i64)
    ensures
        s == similarity_spec(c1, c2),
        SIM_FLOOR < s <= SIM_MAX,
{
    proof {
        lemma_color_dist_sq_bounds(c1, c2);
        lemma_similarity_bounds(c1, c2);
    }
    let (l1, a1, b1) = rgb_to_lab(c1);
    let (l2, a2, b2) = rgb_to_lab(c2);
    proof {
        lemma_lab_bounds(c1);
        lemma_lab_bounds(c2);
    }
    let dl: i64 = l1 - l2;
    let da: i64 = a1 - a2;
    let db: i64 = b1 - b2;
    assert(0 <= dl * dl <= 7602176 * 7602176) by (nonlinear_arith)
        requires
            -7602176 <= dl <= 7602176,
    ;
    assert(0 <= da * da <= 65536000 * 65536000) by (nonlinear_arith)
        requires
            -65536000 <= da <= 65536000,
    ;
    assert(0 <= db * db <= 26214400 * 26214400) by (nonlinear_arith)
        requires
            -26214400 <= db <= 26214400,
    ;
    let dist: u64 = ((dl * dl) as u64) + ((da * da) as u64) + ((db * db) as u64);
    let root: u64 = isqrt_u64(dist);
    proof {
        if root >= 75000000 {
            assert(false) by (nonlinear_arith)
                requires
                    root >= 75000000,
                    root * root < 5625000000000000,
            ;
        }
    }
    SIM_MAX - (root as i64)
}

} // verus!
