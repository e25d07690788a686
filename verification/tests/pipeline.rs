use denoise::bounds::bounds;
use denoise::error::Error;
use denoise::filter::filter;
use denoise::fixed::{Fx, Point};
use denoise::sampler::{sample, Identity};

fn fx(m: i64) -> Fx {
    Fx::from_milli(m)
}

fn pt(x: i64, y: i64) -> Point {
    Point::new(fx(x), fx(y))
}

#[test]
fn sample_unit_grid() {
    // sample(x -> x, [0, 10), 10): step is exactly one unit.
    let (values, points) = sample(&Identity {}, (fx(0), fx(10_000)), 10).unwrap();
    let expected: Vec<Fx> = (0..10).map(|i| fx(i * 1000)).collect();
    assert_eq!(values, expected);
    let expected_points: Vec<Point> = (0..10).map(|i| pt(i * 1000, i * 1000)).collect();
    assert_eq!(points, expected_points);
}

#[test]
fn sample_equal_positive_lengths_and_monotone_x() {
    let (values, points) = sample(&Identity {}, (fx(0), fx(3141)), 100).unwrap();
    assert_eq!(values.len(), points.len());
    assert!(!values.is_empty());
    for w in points.windows(2) {
        assert!(w[0].x.m < w[1].x.m);
    }
}

#[test]
fn sample_length_may_exceed_count() {
    // Rounded-down spacing: [0, 1) at count 3 gives step 0.333 and four
    // grid points, one more than asked for.
    let (values, _) = sample(&Identity {}, (fx(0), fx(1000)), 3).unwrap();
    assert_eq!(values.len(), 4);
    assert_eq!(values, vec![fx(0), fx(333), fx(666), fx(999)]);
}

#[test]
fn sample_rejects_inverted_domain() {
    assert_eq!(
        sample(&Identity {}, (fx(5000), fx(5000)), 3),
        Err(Error::InvalidDomain)
    );
    assert_eq!(
        sample(&Identity {}, (fx(5000), fx(4000)), 3),
        Err(Error::InvalidDomain)
    );
}

#[test]
fn sample_rejects_domain_too_short_for_count() {
    // Two thousandths cannot carry five grid points.
    assert_eq!(
        sample(&Identity {}, (fx(0), fx(2)), 5),
        Err(Error::InvalidDomain)
    );
}

#[test]
fn filter_piecewise_means() {
    let samples = vec![fx(1000), fx(2000), fx(3000), fx(4000)];
    let f = filter(&samples, 2, (fx(0), fx(4000))).unwrap();
    assert_eq!(f.denoised, vec![fx(1500), fx(1500), fx(3500), fx(3500)]);
    assert_eq!(f.diagnostics, vec![pt(1000, 1500), pt(3000, 3500)]);
}

#[test]
fn filter_preserves_length() {
    let samples: Vec<Fx> = (0..7).map(|i| fx(100 * i)).collect();
    let f = filter(&samples, 3, (fx(0), fx(7000))).unwrap();
    assert_eq!(f.denoised.len(), samples.len());
    assert_eq!(f.diagnostics.len(), 3);
}

#[test]
fn filter_deterministic() {
    let samples: Vec<Fx> = (0..9).map(|i| fx((i * i) % 5 - 2)).collect();
    let f1 = filter(&samples, 4, (fx(-100), fx(800))).unwrap();
    let f2 = filter(&samples, 4, (fx(-100), fx(800))).unwrap();
    assert_eq!(f1.denoised, f2.denoised);
    assert_eq!(f1.diagnostics, f2.diagnostics);
}

#[test]
fn filter_order_changes_diagnostics() {
    let samples: Vec<Fx> = (0..10).map(|i| fx(500 - 70 * i)).collect();
    let f3 = filter(&samples, 3, (fx(0), fx(3141))).unwrap();
    let f5 = filter(&samples, 5, (fx(0), fx(3141))).unwrap();
    assert_eq!(f3.diagnostics.len(), 3);
    assert_eq!(f5.diagnostics.len(), 5);
    assert_ne!(f3.diagnostics.len(), f5.diagnostics.len());
}

#[test]
fn filter_rejects_empty_input() {
    let samples: Vec<Fx> = Vec::new();
    let r = filter(&samples, 3, (fx(0), fx(1000)));
    assert!(matches!(r, Err(Error::EmptyInput)));
}

#[test]
fn filter_rejects_invalid_domain() {
    let samples = vec![fx(1), fx(2)];
    let r = filter(&samples, 1, (fx(1000), fx(1000)));
    assert!(matches!(r, Err(Error::InvalidDomain)));
}

#[test]
fn filter_rejects_ill_conditioned_order() {
    let samples = vec![fx(1), fx(2), fx(3)];
    let r = filter(&samples, 4, (fx(0), fx(1000)));
    assert!(matches!(r, Err(Error::IllConditionedOrder)));
}

#[test]
fn filter_means_truncate_toward_zero() {
    let samples = vec![fx(-1), fx(-2)];
    let f = filter(&samples, 1, (fx(0), fx(2000))).unwrap();
    // (-1 + -2) / 2 rounds toward zero, to -1, not down to -2.
    assert_eq!(f.denoised, vec![fx(-1), fx(-1)]);
    assert_eq!(f.diagnostics, vec![pt(1000, -1)]);
}

#[test]
fn bounds_pads_by_a_tenth() {
    // bounds([(2, 3), (5, -1)]): the lower corner is anchored at
    // -|min|/10, the upper corner at max + |max|/10.
    let points = vec![pt(2000, 3000), pt(5000, -1000)];
    let (low, high) = bounds(&points).unwrap();
    assert_eq!(low, pt(-200, -100));
    assert_eq!(high, pt(5500, 3300));
}

#[test]
fn bounds_rejects_empty_input() {
    let points: Vec<Point> = Vec::new();
    assert_eq!(bounds(&points), Err(Error::EmptyInput));
}

#[test]
fn bounds_with_negative_maximum() {
    let points = vec![pt(-1000, -2000)];
    let (low, high) = bounds(&points).unwrap();
    assert_eq!(low, pt(-100, -200));
    assert_eq!(high, pt(-900, -1800));
}

#[test]
fn bounds_padding_truncates() {
    let points = vec![pt(15, 15)];
    let (low, high) = bounds(&points).unwrap();
    assert_eq!(low, pt(-1, -1));
    assert_eq!(high, pt(16, 16));
}

#[test]
fn fixed_point_constructors() {
    assert_eq!(Fx::from_units(5).milli(), 5000);
    assert_eq!(Fx::from_units(-2).milli(), -2000);
    assert_eq!(Fx::from_milli(123).milli(), 123);
}

#[test]
fn diagnostic_grid_independent_of_data() {
    let a: Vec<Fx> = (0..6).map(|i| fx(1000 * i)).collect();
    let b: Vec<Fx> = (0..6).map(|i| fx(3 - 500 * i)).collect();
    let fa = filter(&a, 3, (fx(0), fx(6000))).unwrap();
    let fb = filter(&b, 3, (fx(0), fx(6000))).unwrap();
    let ax: Vec<i64> = fa.diagnostics.iter().map(|p| p.x.m).collect();
    let bx: Vec<i64> = fb.diagnostics.iter().map(|p| p.x.m).collect();
    assert_eq!(ax, bx);
    assert_ne!(fa.denoised, fb.denoised);
}
