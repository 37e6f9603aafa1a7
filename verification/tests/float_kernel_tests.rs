//! The integer binary32 model held against host floating point, and the
//! distance kernels against their textbook values.

use rust_annie::float_bits::{add32, sub32, mul32, div32, sqrt32, max32, lt32, key32};
use rust_annie::transcend::{acos32, pow32};
use rust_annie::metrics::{manhattan32, chebyshev32, euclidean32, sq_norm32, hamming32, jaccard32};

fn b(x: f32) -> u32 {
    x.to_bits()
}

#[test]
fn arithmetic_matches_host_floats() {
    let samples = [
        0.0f32, -0.0, 1.0, -1.0, 0.5, 2.0, 3.0, 0.1, -0.1, 1.5, 1e-10, -1e-10, 1e10, -1e10,
        1e-40, -1e-40, 3.4e38, -3.4e38, 1.1754944e-38, 0.333333, 7.0, 1234.5678,
    ];
    for &x in samples.iter() {
        for &y in samples.iter() {
            assert_eq!(add32(b(x), b(y)), (x + y).to_bits(), "add {x} {y}");
            assert_eq!(sub32(b(x), b(y)), (x - y).to_bits(), "sub {x} {y}");
            assert_eq!(mul32(b(x), b(y)), (x * y).to_bits(), "mul {x} {y}");
            if y != 0.0 {
                assert_eq!(div32(b(x), b(y)), (x / y).to_bits(), "div {x} {y}");
            }
            assert_eq!(lt32(b(x), b(y)), x < y, "lt {x} {y}");
            assert_eq!(max32(b(x), b(y)), x.max(y).to_bits(), "max {x} {y}");
        }
        if x >= 0.0 {
            assert_eq!(sqrt32(b(x)), x.sqrt().to_bits(), "sqrt {x}");
        }
    }
}

#[test]
fn arithmetic_handles_specials() {
    let nan = f32::NAN;
    let inf = f32::INFINITY;
    // NaN operands give the canonical quiet NaN pattern
    assert_eq!(add32(b(nan), b(1.0)), 0x7fc0_0000);
    assert_eq!(mul32(b(inf), b(0.0)), 0x7fc0_0000);
    assert_eq!(sub32(b(inf), b(inf)), 0x7fc0_0000);
    assert_eq!(add32(b(inf), b(1.0)), b(inf));
    assert_eq!(mul32(b(-2.0), b(inf)), b(-inf));
    assert_eq!(div32(b(1.0), b(0.0)), b(inf));
    assert_eq!(div32(b(-1.0), b(0.0)), b(-inf));
    assert_eq!(sqrt32(b(-1.0)), 0x7fc0_0000);
    // NaN never compares below anything
    assert!(!lt32(b(nan), b(inf)));
    assert!(!lt32(b(1.0), b(nan)));
}

#[test]
fn sort_key_orders_like_total_order() {
    let vals = [-f32::INFINITY, -3.5, -0.0, 0.0, 1.0e-20, 2.5, f32::INFINITY];
    for w in vals.windows(2) {
        assert!(key32(b(w[0])) <= key32(b(w[1])));
    }
    assert_eq!(key32(b(-0.0)), key32(b(0.0)));
    for &v in vals.iter() {
        assert!(key32(b(v)) < key32(b(f32::NAN)));
    }
}

#[test]
fn kernels_match_textbook_values() {
    let a: Vec<u32> = [1.0f32, 2.0, 3.0].iter().map(|x| x.to_bits()).collect();
    let c: Vec<u32> = [4.0f32, 6.0, 3.0].iter().map(|x| x.to_bits()).collect();
    assert_eq!(f32::from_bits(manhattan32(&a, &c)), 7.0);
    assert_eq!(f32::from_bits(chebyshev32(&a, &c)), 4.0);
    let na = sq_norm32(&a);
    let nc = sq_norm32(&c);
    assert_eq!(f32::from_bits(na), 14.0);
    assert_eq!(f32::from_bits(nc), 61.0);
    let d = f32::from_bits(euclidean32(&a, &c, na, nc));
    assert!((d - 5.0).abs() < 1e-6);
    assert_eq!(f32::from_bits(hamming32(&a, &c)), 2.0);
    // under the 0.5 threshold every coordinate is set on both sides
    assert_eq!(f32::from_bits(jaccard32(&a, &c)), 0.0);
}

#[test]
fn kernel_symmetry_on_values() {
    let a: Vec<u32> = [1.5f32, -2.25, 0.125].iter().map(|x| x.to_bits()).collect();
    let c: Vec<u32> = [-0.75f32, 4.0, 9.5].iter().map(|x| x.to_bits()).collect();
    assert_eq!(manhattan32(&a, &c), manhattan32(&c, &a));
    assert_eq!(chebyshev32(&a, &c), chebyshev32(&c, &a));
    // a vector is at distance zero from itself
    let na = sq_norm32(&a);
    assert_eq!(euclidean32(&a, &a, na, na), 0);
}

#[test]
fn threshold_constants_hold_their_values() {
    // the named bit patterns in the kernels are the binary32 constants
    assert_eq!(rust_annie::metrics::EPS_HAMMING32, 1e-5f32.to_bits());
    assert_eq!(rust_annie::metrics::EPS_NORM32, 1e-12f32.to_bits());
    assert_eq!(rust_annie::metrics::FRAC_PI_2_32, std::f32::consts::FRAC_PI_2.to_bits());
    assert_eq!(rust_annie::transcend::PI32, std::f32::consts::PI.to_bits());
    assert_eq!(rust_annie::transcend::NEG_ONE32, (-1.0f32).to_bits());
    assert_eq!(rust_annie::gpu_convert::SCALE127_32, 127.0f32.to_bits());
    assert_eq!(rust_annie::gpu_convert::NEG128_32, (-128.0f32).to_bits());
    assert_eq!(rust_annie::index::DEFAULT_MAX_DELETED_RATIO, 0.2f32.to_bits());
}

#[test]
fn acos_and_pow_are_close() {
    // anchors are exact
    assert_eq!(acos32(1.0f32.to_bits()), 0);
    assert_eq!(acos32(0.0f32.to_bits()), std::f32::consts::FRAC_PI_2.to_bits());
    assert_eq!(acos32((-1.0f32).to_bits()), std::f32::consts::PI.to_bits());
    for &x in [0.5f32, -0.5, 0.9, -0.9, 0.1, 0.7071, -0.25].iter() {
        let got = f32::from_bits(acos32(x.to_bits()));
        assert!((got - x.acos()).abs() < 2e-5, "acos at {x}: {got}");
    }
    // order one is exact, other orders near the host power
    assert_eq!(pow32(3.5f32.to_bits(), 1.0f32.to_bits()), 3.5f32.to_bits());
    for &(x, p) in [(2.0f32, 2.0f32), (9.0, 0.5), (5.0, 3.0), (0.3, 2.5)].iter() {
        let got = f32::from_bits(pow32(x.to_bits(), p.to_bits()));
        let want = x.powf(p);
        assert!((got - want).abs() <= 2e-5 * want.abs().max(1.0), "pow {x}^{p}: {got} vs {want}");
    }
}
