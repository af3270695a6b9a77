//! Preprocessing of ink.

use mlkit_ink::float::{F32, F64};
use mlkit_ink::preprocess::{
    add_pen_up_strokes, hallucinate_time, hallucinated_times, normalize_size, normalize_time, run,
};
use mlkit_ink::settings::{handwriting_pipeline, PreprocessingStep};
use mlkit_ink::{Error, Stroke};

fn g(x: f32) -> F32 {
    F32 { bits: x.to_bits() }
}

fn v(x: F64) -> f64 {
    f64::from_bits(x.bits)
}

fn fs(xs: &[f64]) -> Vec<F64> {
    xs.iter().map(|x| F64 { bits: x.to_bits() }).collect()
}

fn vs(xs: &[F64]) -> Vec<f64> {
    xs.iter().map(|x| v(*x)).collect()
}

fn stroke(x: &[f64], y: &[f64], t: &[f64]) -> Stroke {
    Stroke::new(fs(x), fs(y), fs(t))
}

#[test]
fn normalize_time_uses_one_origin_and_f32_subtraction() {
    let mut input = vec![
        stroke(&[1.25, 2.5], &[3.75, 4.0], &[16_777_217.0, 16_777_219.0]),
        stroke(&[5.0, 6.0], &[7.0, 8.0], &[16_777_215.0]),
        stroke(&[9.0], &[10.0], &[]),
    ];
    input[1].pen_up = true;
    let out = normalize_time(&input);
    assert_eq!(vs(&out[0].t), vec![0.0, 4.0]);
    assert_eq!(vs(&out[1].t), vec![-1.0]);
    assert!(out[2].t.is_empty());
    for (before, after) in input.iter().zip(&out) {
        assert_eq!(before.x, after.x);
        assert_eq!(before.y, after.y);
        assert_eq!(before.pen_up, after.pen_up);
    }
    assert_eq!(v(input[0].t[0]), 16_777_217.0);
}

#[test]
fn normalize_time_does_not_seek_a_later_origin() {
    let input = vec![Stroke::default(), stroke(&[1.0], &[2.0], &[0.1])];
    assert_eq!(normalize_time(&input), input);
    assert!(normalize_time(&[]).is_empty());
    let input = vec![stroke(&[], &[], &[10.0]), stroke(&[1.0], &[2.0], &[11.0])];
    let out = normalize_time(&input);
    assert_eq!(vs(&out[0].t), vec![0.0]);
    assert_eq!(vs(&out[1].t), vec![1.0]);
}

#[test]
fn hallucinate_time_regenerates_every_stroke_on_any_length_mismatch() {
    for bad_times in [vec![], vec![9.0, 10.0]] {
        let mut input = vec![
            stroke(&[1.0, 2.0], &[3.0, 4.0], &[100.0, 99.0]),
            Stroke::default(),
            stroke(&[5.0], &[6.0], &bad_times),
            stroke(&[7.0], &[8.0], &[200.0]),
        ];
        input[2].pen_up = true;
        let out = hallucinate_time(&input, g(20.0), false);
        assert_eq!(vs(&out[0].t), vec![0.0, 20.0]);
        assert!(out[1].t.is_empty());
        assert_eq!(vs(&out[2].t), vec![40.0]);
        assert_eq!(vs(&out[3].t), vec![60.0]);
        for (before, after) in input.iter().zip(&out) {
            assert_eq!(before.x, after.x);
            assert_eq!(before.y, after.y);
            assert_eq!(before.pen_up, after.pen_up);
        }
    }
}

#[test]
fn hallucinate_time_preserves_matching_arrays_bit_for_bit() {
    let input = vec![stroke(
        &[0.0; 7],
        &[0.0; 7],
        &[
            0.1,
            0.1,
            -2.0,
            f64::INFINITY,
            f64::NEG_INFINITY,
            f64::NAN,
            -0.0,
        ],
    )];
    let out = hallucinate_time(&input, g(20.0), false);
    for (before, after) in input[0].t.iter().zip(&out[0].t) {
        assert_eq!(before.bits, after.bits);
    }
}

#[test]
fn hallucinate_time_force_and_fractional_interval_use_f32() {
    let input = vec![stroke(&[0.0; 4], &[0.0; 4], &[9.0; 4])];
    let out = hallucinate_time(&input, g(0.1), true);
    assert_eq!(
        vs(&out[0].t),
        vec![0.0, 0.1f32 as f64, 0.2f32 as f64, 0.3f32 as f64]
    );
    assert!(hallucinate_time(&[], g(20.0), true).is_empty());
    // An empty stroke with extraneous timestamps still triggers regeneration.
    let input = vec![stroke(&[], &[], &[9.0]), stroke(&[0.0], &[0.0], &[8.0])];
    let out = hallucinate_time(&input, g(20.0), false);
    assert!(out[0].t.is_empty());
    assert_eq!(vs(&out[1].t), vec![0.0]);
}

#[test]
fn hallucinated_times_matches_numpy_arange_at_f32_integer_boundary() {
    assert_eq!(
        vs(&hallucinated_times(16_777_216, 3, g(1.0))),
        vec![16_777_216.0; 3]
    );
    assert_eq!(
        vs(&hallucinated_times(16_777_217, 3, g(1.0))),
        vec![16_777_216.0, 16_777_218.0, 16_777_220.0]
    );
}

#[test]
fn normalize_size_uses_global_extent_first_nonempty_origin_and_margin() {
    let mut input = vec![
        Stroke::default(),
        stroke(&[4.0, 2.0], &[2.0, 6.0], &[0.1]),
        stroke(&[8.0], &[4.0], &[]),
    ];
    input[1].pen_up = true;
    let first = normalize_size(&input, g(0.5), true);
    assert_eq!(vs(&first[1].x), vec![0.0, -0.25]);
    assert_eq!(vs(&first[1].y), vec![0.25, 0.75]);
    assert_eq!(vs(&first[2].x), vec![0.5]);
    assert_eq!(vs(&first[2].y), vec![0.5]);
    assert_eq!(first[1].t, input[1].t);
    assert!(first[1].pen_up);
    assert!(first[0].is_empty());
    let bbox = normalize_size(&input, g(0.5), false);
    assert_eq!(vs(&bbox[1].x), vec![0.5, 0.25]);
    assert_eq!(vs(&bbox[2].x), vec![1.0]);
}

#[test]
fn normalize_size_guards_stationary_and_tiny_ink_but_not_epsilon() {
    for height in [0.0, f32::EPSILON as f64 / 2.0] {
        let input = vec![stroke(&[3.0, 3.0], &[0.0, height], &[1.0, 2.0])];
        let out = normalize_size(&input, g(0.0), true);
        assert_eq!(vs(&out[0].x), vec![0.0, 0.0]);
        assert_eq!(vs(&out[0].y), vec![0.0, height]);
    }
    let input = vec![stroke(&[0.0, 0.0], &[0.0, f32::EPSILON as f64], &[])];
    assert_eq!(vs(&normalize_size(&input, g(0.0), true)[0].y), vec![0.0, 1.0]);
    let empty = vec![stroke(&[], &[], &[0.1])];
    assert_eq!(normalize_size(&empty, g(0.0), true), empty);
    assert!(normalize_size(&[], g(0.0), true).is_empty());
}

#[test]
fn normalize_size_caps_horizontal_extent_and_divides_in_f32() {
    let horizontal = vec![stroke(&[0.0, 200.0], &[3.0, 3.0], &[])];
    let out = normalize_size(&horizontal, g(0.0), true);
    assert_eq!(vs(&out[0].x), vec![0.0, 100.0]);
    assert_eq!(vs(&out[0].y), vec![0.0, 0.0]);
    let input = vec![stroke(&[0.0, 5.0], &[0.0, 6.0], &[0.1])];
    let out = normalize_size(&input, g(0.0), true);
    assert_eq!(v(out[0].x[1]), 0.8333333134651184);
    assert_ne!(v(out[0].x[1]), (5.0f32 * (1.0f32 / 6.0)) as f64);
    assert_eq!(vs(&out[0].t), vec![0.1]);
    let input = vec![stroke(&[16_777_217.0, 16_777_219.0], &[0.0, 4.0], &[])];
    assert_eq!(vs(&normalize_size(&input, g(0.0), true)[0].x), vec![0.0, 1.0]);
}

#[test]
fn normalize_size_matches_numpy_nan_reductions_and_python_max() {
    let input = vec![stroke(&[0.0, 1.0], &[f64::NAN, 1.0], &[])];
    let out = normalize_size(&input, g(0.0), true);
    assert!(out[0].x.iter().chain(&out[0].y).all(|x| v(*x).is_nan()));
    let input = vec![stroke(&[0.0, f64::NAN], &[0.0, 1.0], &[])];
    let out = normalize_size(&input, g(0.0), true);
    assert_eq!(v(out[0].x[0]), 0.0);
    assert!(v(out[0].x[1]).is_nan());
    assert_eq!(vs(&out[0].y), vec![0.0, 1.0]);
}

#[test]
fn add_pen_up_strokes_filters_empty_and_resets_input_flags() {
    let mut input = vec![
        Stroke::default(),
        stroke(&[1.0, 2.0], &[3.0, 4.0], &[5.0, 6.0]),
        Stroke::default(),
        stroke(&[7.0], &[8.0], &[9.0]),
        stroke(&[10.0], &[11.0], &[12.0]),
        Stroke::default(),
    ];
    input[1].pen_up = true;
    let out = add_pen_up_strokes(&input);
    assert_eq!(out.len(), 5);
    assert!(!out[0].pen_up);
    assert_eq!(
        out[1],
        Stroke {
            x: fs(&vec![2.0, 7.0]),
            y: fs(&vec![4.0, 8.0]),
            t: fs(&vec![6.0, 9.0]),
            pen_up: true
        }
    );
    assert_eq!(out[2], input[3]);
    assert_eq!(
        out[3],
        Stroke {
            x: fs(&vec![7.0, 10.0]),
            y: fs(&vec![8.0, 11.0]),
            t: fs(&vec![9.0, 12.0]),
            pen_up: true
        }
    );
    assert_eq!(out[4], input[4]);
    assert!(input[1].pen_up);
    assert!(add_pen_up_strokes(&[Stroke::default()]).is_empty());
    assert!(add_pen_up_strokes(&[]).is_empty());
}

#[test]
fn add_pen_up_strokes_uses_available_time_endpoints_even_if_mismatched() {
    for (left, right, expected) in [
        (vec![1.0, 2.0, 3.0], vec![4.0], vec![3.0, 4.0]),
        (vec![], vec![4.0], vec![]),
        (vec![1.0], vec![], vec![]),
    ] {
        let input = vec![
            stroke(&[0.0, 1.0], &[0.0, 1.0], &left),
            stroke(&[2.0, 3.0], &[2.0, 3.0], &right),
        ];
        let out = add_pen_up_strokes(&input);
        assert_eq!(vs(&out[1].t), expected);
        assert_eq!(vs(&out[0].t), left);
        assert_eq!(vs(&out[2].t), right);
    }
}

#[test]
fn run_applies_ordered_steps_and_writing_guide_fallback() {
    let input = vec![
        stroke(&[2.0, 4.0], &[1.0, 3.0], &[]),
        stroke(&[6.0], &[2.0], &[99.0]),
    ];
    let out = run(&input, &handwriting_pipeline()).unwrap();
    assert_eq!(
        out,
        vec![
            stroke(&[0.0, 1.0], &[0.0, 1.0], &[0.0, 20.0]),
            Stroke {
                x: fs(&vec![1.0, 2.0]),
                y: fs(&vec![1.0, 0.5]),
                t: fs(&vec![20.0, 40.0]),
                pen_up: true
            },
            stroke(&[2.0], &[0.5], &[40.0]),
        ]
    );
    let steps = [
        PreprocessingStep::AddPenUpStrokes,
        PreprocessingStep::HallucinateTime {
            interval: g(2.0),
            force: false,
        },
    ];
    let reversed = run(&input, &steps).unwrap();
    assert_eq!(vs(&reversed[1].t), vec![4.0, 6.0]);
    assert_eq!(vs(&reversed[2].t), vec![8.0]);
    for first_point_origin in [true, false] {
        let normal = PreprocessingStep::NormalizeSize {
            margin: g(0.25),
            first_point_origin,
        };
        let guide = PreprocessingStep::NormalizeSizeWritingGuideFirstStroke {
            margin: g(0.25),
            first_point_origin,
        };
        assert_eq!(
            run(&input, &[normal]).unwrap(),
            run(&input, &[guide]).unwrap()
        );
    }
    assert_eq!(run(&input, &[]).unwrap(), input);
    assert!(run(&[], &handwriting_pipeline()).unwrap().is_empty());
}

#[test]
fn run_rejects_invalid_xy_even_without_steps_but_allows_mismatched_times() {
    for invalid in [stroke(&[1.0], &[], &[]), stroke(&[], &[1.0], &[])] {
        let error = run(&[Stroke::default(), invalid], &[]).unwrap_err();
        assert!(
            matches!(error, Error::Invalid(ref message) if message.contains("stroke 1") && message.contains("x/y"))
        );
    }
    let input = vec![stroke(&[1.0, 2.0], &[3.0, 4.0], &[7.0])];
    assert_eq!(
        vs(&run(&input, &[PreprocessingStep::NormalizeTime]).unwrap()[0].t),
        vec![0.0]
    );
}

#[test]
fn run_reports_unsupported_step_name_and_field_even_for_empty_ink() {
    let steps = [PreprocessingStep::Unsupported {
        field: 42,
        name: "unrecovered_step".into(),
    }];
    let error = run(&[], &steps).unwrap_err();
    assert!(
        matches!(error, Error::Unsupported(ref message) if message.contains("unrecovered_step") && message.contains("42"))
    );
}
