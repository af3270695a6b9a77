//! Splitting ink into cubic curves.

use mlkit_ink::curve::{
    control_points, fit_cubic, fit_failures, normalize_curve_time, segment, solve_coeffs,
    split_at_max_curvature, split_at_min_angle, stroke_points, sum_f32, thin_points, Cubic, Omega,
};
use mlkit_ink::float::{F32, F64};
use mlkit_ink::numerics::Numerics;
use mlkit_ink::{CurveSettings, Error, Point, Stroke};

type Root = fn(F64) -> F64;
type Planar = fn(F32, F32) -> F32;

fn f(x: f64) -> F64 {
    F64 { bits: x.to_bits() }
}

fn v(x: F64) -> f64 {
    f64::from_bits(x.bits)
}

fn g(x: f32) -> F32 {
    F32 { bits: x.to_bits() }
}

fn w(x: F32) -> f32 {
    f32::from_bits(x.bits)
}

fn root(x: F64) -> F64 {
    f(v(x).sqrt())
}

fn hypot(x: F32, y: F32) -> F32 {
    g(w(x).hypot(w(y)))
}

fn atan2(y: F32, x: F32) -> F32 {
    g(w(y).atan2(w(x)))
}

fn num() -> Numerics<Root, Planar, Planar> {
    Numerics { root, hypot, atan2 }
}

/// The curve whose coefficients, by degree, are the rows of an array.
fn omega(rows: [[f64; 3]; 4]) -> Omega {
    let column = |d: usize| Cubic {
        c0: f(rows[0][d]),
        c1: f(rows[1][d]),
        c2: f(rows[2][d]),
        c3: f(rows[3][d]),
    };
    Omega { x: column(0), y: column(1), t: column(2) }
}

/// The coefficients of a curve, by degree.
fn rows(omega: &Omega) -> [[f64; 3]; 4] {
    let row = |x: F64, y: F64, t: F64| [v(x), v(y), v(t)];
    [
        row(omega.x.c0, omega.y.c0, omega.t.c0),
        row(omega.x.c1, omega.y.c1, omega.t.c1),
        row(omega.x.c2, omega.y.c2, omega.t.c2),
        row(omega.x.c3, omega.y.c3, omega.t.c3),
    ]
}

fn fs(xs: &[f64]) -> Vec<F64> {
    xs.iter().map(|x| f(*x)).collect()
}

fn point(x: f32, y: f32, t: f32) -> Point {
    Point::new(g(x), g(y), g(t))
}

#[test]
fn qr_exact_cubic() {
    let expected = [
        [1.0, 2.0, 3.0],
        [2.0, -1.0, 4.0],
        [3.0, 2.0, -2.0],
        [4.0, 1.0, 1.0],
    ];
    let s = [0.0, 0.25, 0.5, 0.75, 1.0];
    let points: Vec<_> = s
        .iter()
        .map(|&s: &f64| {
            let p: Vec<f64> = (0..3)
                .map(|d| (0..4).map(|k| expected[k][d] * s.powi(k as i32)).sum())
                .collect();
            point(p[0] as f32, p[1] as f32, p[2] as f32)
        })
        .collect();
    let actual = rows(&solve_coeffs(&points, &fs(&s), &num()));
    for (a, e) in actual.iter().flatten().zip(expected.iter().flatten()) {
        assert!((a - e).abs() < 1e-12, "{actual:?}");
    }
}

#[test]
fn thinning_ties_and_stationary_points() {
    let p: Vec<_> = [0.0, 0.0, 1.0, 1.0, 2.0, 2.0]
        .iter()
        .map(|&x| point(x, 0.0, 0.0))
        .collect();
    assert_eq!(thin_points(&p, &num()), vec![0, 2, 5]);
    assert_eq!(thin_points(&[p[0]; 4], &num()), vec![0]);
    assert!(thin_points(&[], &num()).is_empty());
}

#[test]
fn control_points_round_trip() {
    let expected = [
        [1.0, 2.0, 3.0],
        [2.0, -1.0, 4.0],
        [3.0, 2.0, -2.0],
        [4.0, 1.0, 1.0],
    ];
    let p = rows(&control_points(&omega(expected)));
    for d in 0..3 {
        let actual = [
            p[0][d],
            3.0 * (p[1][d] - p[0][d]),
            3.0 * (p[2][d] - 2.0 * p[1][d] + p[0][d]),
            p[3][d] - 3.0 * p[2][d] + 3.0 * p[1][d] - p[0][d],
        ];
        for k in 0..4 {
            assert!((actual[k] - expected[k][d]).abs() < 1e-12);
        }
    }
}

#[test]
fn time_rescale_keeps_global_origin_and_zeroes_bad_duration() {
    let mut p = [point(0.0, 0.0, 20.0), point(3.0, 4.0, 40.0)];
    normalize_curve_time(&mut p, &num());
    assert_eq!([w(p[0].t), w(p[1].t)], [5.0, 10.0]);
    p[1].t = g(f32::NAN);
    normalize_curve_time(&mut p, &num());
    assert_eq!([w(p[0].t), w(p[1].t)], [0.0, 0.0]);
}

#[test]
fn corner_and_curvature_ties_choose_earliest() {
    let p = vec![
        point(0.0, 0.0, 0.0),
        point(1.0, 0.0, 1.0),
        point(1.0, 1.0, 2.0),
        point(2.0, 1.0, 3.0),
    ];
    assert_eq!(split_at_min_angle(&p, f(0.0), &num()), Some(1));
    assert_eq!(split_at_min_angle(&p, f(10.0), &num()), None);
    let line = omega([[0.0; 3], [1.0, 0.0, 0.0], [0.0; 3], [0.0; 3]]);
    let s = fs(&[0.0, 0.25, 0.75, 1.0]);
    assert_eq!(split_at_max_curvature(&line, &s, &num()), 1);
    assert_eq!(
        split_at_max_curvature(&omega([[0.0; 3]; 4]), &s, &num()),
        1
    );
}

#[test]
fn geometry_gate_keeps_minss_nan_source_semantics() {
    let cfg = CurveSettings::handwriting();
    let points = vec![Point::default(); 4];
    let s = fs(&[0.0, 1.0 / 3.0, 2.0 / 3.0, 1.0]);
    let fails = |p: &[Point], o: [[f64; 3]; 4], s: &[F64]| {
        fit_failures(&p.to_vec(), &omega(o), &s.to_vec(), &cfg, f(1000.0), &num()).1
    };
    // P0=0, P1=1, P2=P3=2 gives a finite source a and NaN b.
    // MINSS retains a, so a zero final leg alone does not reject geometry.
    let zero_last_leg = [[0.0; 3], [3.0, 0.0, 0.0], [0.0; 3], [-1.0, 0.0, 0.0]];
    assert!(!fails(&points, zero_last_leg, &s));
    // P0=P1=0, P2=1, P3=2 makes a NaN: reversing min operands would accept.
    let zero_first_leg = [[0.0; 3], [0.0; 3], [3.0, 0.0, 0.0], [-1.0, 0.0, 0.0]];
    assert!(fails(&points, zero_first_leg, &s));
    assert!(fails(&points, [[0.0; 3]; 4], &s));
    assert!(!fails(&points[..3], [[0.0; 3]; 4], &s[..3]));
}

#[test]
fn singleton_zeros_time_polynomial_and_includes_time_in_sse() {
    let (curve, error, s) = fit_cubic(&vec![point(2.0, 3.0, 4.0)], &num());
    assert_eq!(rows(&curve), [[2.0, 3.0, 0.0], [0.0; 3], [0.0; 3], [0.0; 3]]);
    assert_eq!(v(error), 16.0);
    assert_eq!(s, fs(&[0.0]));
}

#[test]
fn sums_are_pairwise() {
    for n in [0usize, 1, 7, 8, 9, 100, 128, 129, 500] {
        let values: Vec<f32> = (0..n).map(|i| ((i * 37 % 11) as f32 - 5.0) * 0.25).collect();
        let sum = w(sum_f32(&values.iter().map(|x| g(*x)).collect::<Vec<_>>()));
        // Quarters of small integers add up exactly in any order.
        assert_eq!(sum, values.iter().sum::<f32>(), "{n}");
    }
    // Eight interleaved lanes: the small terms meet before they meet the large one.
    let mut values = vec![g(1.0); 16];
    values[0] = g(16_777_216.0);
    assert_eq!(w(sum_f32(&values)), 16_777_230.0);
}

#[test]
fn a_corner_splits_a_stroke() {
    let n = 20;
    let mut x = Vec::new();
    let mut y = Vec::new();
    for i in 0..n {
        x.push(i as f64 * 0.1);
        y.push(0.0);
    }
    for i in 1..n {
        x.push((n - 1) as f64 * 0.1);
        y.push(i as f64 * 0.1);
    }
    let t: Vec<f64> = (0..x.len()).map(|i| i as f64).collect();
    let strokes = [Stroke::new(fs(&x), fs(&y), fs(&t))];
    let seg = segment(&strokes, &CurveSettings::handwriting(), &num()).unwrap();
    assert!(seg.num_curves() >= 2);
    let curves = &seg.strokes[0].curves;
    let kept = &seg.strokes[0].kept;
    // Curves follow each other from the first kept point to the last.
    assert_eq!(curves[0].0, 0);
    assert_eq!(curves[curves.len() - 1].1, kept.len() - 1);
    for pair in curves.windows(2) {
        assert_eq!(pair[0].1, pair[1].0);
        assert!(pair[0].0 < pair[0].1);
    }
    for pair in kept.windows(2) {
        assert!(pair[0] < pair[1]);
    }
}

#[test]
fn untimed_strokes_are_malformed() {
    let stroke = Stroke::new(fs(&[0.0, 1.0]), fs(&[0.0, 1.0]), fs(&[0.0]));
    let message = match stroke_points(&stroke, 3) {
        Err(Error::Invalid(text)) => text,
        _ => panic!("expected an error"),
    };
    assert!(message.contains("stroke=3"), "{message}");
    assert!(segment(&[stroke], &CurveSettings::handwriting(), &num()).is_err());
}

#[test]
fn time_never_decides_whether_a_curve_is_accepted() {
    let cfg = CurveSettings::handwriting();
    let shape = [(0.0, 0.0), (1.0, 2.0), (2.5, -1.0), (4.0, 0.5), (5.0, 3.0)];
    let timed = |step: f32| -> Vec<Point> {
        shape
            .iter()
            .enumerate()
            .map(|(i, p)| point(p.0, p.1, step * i as f32))
            .collect()
    };
    let (curve, _, s) = fit_cubic(&timed(1.0), &num());
    let mut late = curve;
    late.t.c0 = f(1e6);
    for d in [0.01, 1.0, 100.0] {
        assert_eq!(
            fit_failures(&timed(1.0), &curve, &s, &cfg, f(d), &num()),
            fit_failures(&timed(7.0), &late, &s, &cfg, f(d), &num())
        );
    }
}
