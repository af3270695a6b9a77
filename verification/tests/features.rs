//! Features of curves.

use mlkit_ink::curve::{fit_cubic, segment, Cubic, Omega};
use mlkit_ink::features::{curve_features, encode, extract};
use mlkit_ink::float::{F32, F64};
use mlkit_ink::mat::Mat;
use mlkit_ink::numerics::Numerics;
use mlkit_ink::settings::{handwriting_pipeline, PreprocessingStep};
use mlkit_ink::{CurveSettings, Point, Stroke};

type Root = fn(F64) -> F64;
type Planar = fn(F32, F32) -> F32;

fn f(x: f64) -> F64 {
    F64 { bits: x.to_bits() }
}

fn v(x: F64) -> f64 {
    f64::from_bits(x.bits)
}

fn g(x: f32) -> F32 {
    F32 { bits: x.to_bits() }
}

fn w(x: F32) -> f32 {
    f32::from_bits(x.bits)
}

fn root(x: F64) -> F64 {
    f(v(x).sqrt())
}

fn hypot(x: F32, y: F32) -> F32 {
    g(w(x).hypot(w(y)))
}

fn atan2(y: F32, x: F32) -> F32 {
    g(w(y).atan2(w(x)))
}

fn num() -> Numerics<Root, Planar, Planar> {
    Numerics { root, hypot, atan2 }
}

/// The curve whose coefficients, by degree, are the rows of an array.
fn omega(rows: [[f64; 3]; 4]) -> Omega {
    let column = |d: usize| Cubic {
        c0: f(rows[0][d]),
        c1: f(rows[1][d]),
        c2: f(rows[2][d]),
        c3: f(rows[3][d]),
    };
    Omega { x: column(0), y: column(1), t: column(2) }
}

/// The coefficients of a curve, by degree.
fn rows(omega: &Omega) -> [[f64; 3]; 4] {
    let row = |x: F64, y: F64, t: F64| [v(x), v(y), v(t)];
    [
        row(omega.x.c0, omega.y.c0, omega.t.c0),
        row(omega.x.c1, omega.y.c1, omega.t.c1),
        row(omega.x.c2, omega.y.c2, omega.t.c2),
        row(omega.x.c3, omega.y.c3, omega.t.c3),
    ]
}

fn fs(xs: &[f64]) -> Vec<F64> {
    xs.iter().map(|x| f(*x)).collect()
}

fn point(x: f32, y: f32, t: f32) -> Point {
    Point::new(g(x), g(y), g(t))
}

fn features(curve: &Omega, pen_up: bool, cfg: &CurveSettings) -> Vec<f32> {
    curve_features(curve, pen_up, cfg, &num()).iter().map(|x| w(*x)).collect()
}

#[test]
fn two_point_pen_up_is_a_straight_line() {
    // Endpoints chosen so both f32 control-leg subtractions give 1/3
    // exactly; arbitrary translations incur f32 cancellation.
    let points = vec![point(-1.0, 0.0, 0.0), point(2.0, 0.0, 3.0)];
    let (curve, _, _) = fit_cubic(&points, &num());
    assert_eq!(rows(&curve)[2], [0.0; 3]);
    assert_eq!(rows(&curve)[3], [0.0; 3]);
    let row = features(&curve, true, &CurveSettings::handwriting());
    assert_eq!(row[0], 0.0);
    assert_eq!(row[4], 1.0f32 / 3.0);
    assert_eq!(row[6], 1.0f32 / 3.0);
    assert!(row[3].abs() < 1e-6);
    assert!(row[5].abs() < 1e-6);
}

#[test]
fn native_layout_time_legs_and_normalization() {
    let curve = omega([
        [0.0, 0.0, 1e20],
        [3.0, 0.0, 3.0],
        [0.0, 0.0, 6.0],
        [0.0, 0.0, 9.0],
    ]);
    let mut cfg = CurveSettings::handwriting();
    let row = features(&curve, false, &cfg);
    assert_eq!(&row[7..], &[18.0, 1.0, -14.0]);
    assert_eq!(row[1], 3.0);
    assert_eq!(row[2], 0.0);
    cfg.interpolate_time = false;
    cfg.normalize_outputs_to_zero_one = true;
    let row = features(&curve, false, &cfg);
    assert_eq!(row.len(), 7);
    assert_eq!(row[1], 1.0);
    assert_eq!(row[2], 0.5);
    assert_eq!(row[3], 0.5);
    assert_eq!(row[5], 0.5);
}

#[test]
fn fixed_segmentation_encodes_changed_coordinates_without_resegmenting() {
    let mut strokes = vec![Stroke::new(fs(&[0.0, 1.0, 2.0]), fs(&[0.0, 0.0, 0.0]), fs(&[0.0, 1.0, 2.0]))];
    let cfg = CurveSettings::handwriting();
    let seg = segment(&strokes, &cfg, &num()).unwrap();
    strokes[0].y[1] = f(1.0);
    let result = encode(&strokes, &seg, &cfg, &num()).unwrap();
    assert_eq!(result.rows(), seg.num_curves());
    assert!(w(result.get(0, 3)).abs() > 0.1);
}

#[test]
fn empty_input_and_mismatched_timestamps_keep_reference_ordering() {
    let cfg = CurveSettings::handwriting();
    let unsupported = [PreprocessingStep::Unsupported {
        field: 99,
        name: "unknown".into(),
    }];
    assert_eq!(extract(&[], &cfg, &unsupported, &num()).unwrap(), Mat::zeros(0, 10));
    let stroke = Stroke::new(fs(&[0.0, 1.0]), fs(&[0.0, 1.0]), fs(&[]));
    assert!(extract(core::slice::from_ref(&stroke), &cfg, &[], &num()).is_err());
    assert_eq!(
        extract(&[stroke], &cfg, &handwriting_pipeline(), &num())
            .unwrap()
            .rows(),
        1
    );
}

#[test]
fn invalid_fixed_indices_return_errors_not_panics() {
    let strokes = [Stroke::new(fs(&[0.0, 1.0]), fs(&[0.0, 1.0]), fs(&[0.0, 1.0]))];
    let cfg = CurveSettings::handwriting();
    let mut seg = segment(&strokes, &cfg, &num()).unwrap();
    seg.strokes[0].kept[1] = 2;
    assert!(encode(&strokes, &seg, &cfg, &num()).is_err());
    seg.strokes[0].kept[1] = 0;
    assert!(encode(&strokes, &seg, &cfg, &num()).is_err());
    seg.strokes[0].kept[1] = 1;
    seg.strokes[0].curves[0] = (1, 0);
    assert!(encode(&strokes, &seg, &cfg, &num()).is_err());
    assert!(encode(&[], &seg, &cfg, &num()).is_err());
}

#[test]
fn a_segmentation_always_encodes_its_own_ink() {
    let strokes = [
        Stroke::new(fs(&[0.0, 1.0, 2.0]), fs(&[0.0, 2.0, 0.0]), fs(&[0.0, 1.0, 2.0])),
        Stroke::new(fs(&[3.0]), fs(&[1.0]), fs(&[4.0])),
        Stroke::default(),
    ];
    let cfg = CurveSettings::handwriting();
    let seg = segment(&strokes, &cfg, &num()).unwrap();
    let rows = encode(&strokes, &seg, &cfg, &num()).unwrap();
    assert_eq!((rows.rows(), rows.cols()), (seg.num_curves(), 10));
    assert_eq!(rows, extract(&strokes, &cfg, &[], &num()).unwrap());
}
