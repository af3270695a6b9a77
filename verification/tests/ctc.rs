//! The CTC loss and its gradient.

use mlkit_ink::ctc::{extend, is_alignable, log_softmax, loss_and_grad, CtcLoss};
use mlkit_ink::float::{F32, F64};
use mlkit_ink::logmath::Functions;
use mlkit_ink::mat::Mat;
use mlkit_ink::Error;

type Real = fn(F64) -> F64;

fn f(x: f64) -> F64 {
    F64 { bits: x.to_bits() }
}

fn v(x: F64) -> f64 {
    f64::from_bits(x.bits)
}

fn exp(x: F64) -> F64 {
    f(v(x).exp())
}

fn ln(x: F64) -> F64 {
    f(v(x).ln())
}

fn ln_1p(x: F64) -> F64 {
    f(v(x).ln_1p())
}

fn functions() -> Functions<Real, Real, Real> {
    Functions { exp, ln, ln_1p }
}

fn mat(rows: usize, cols: usize, data: &[f32]) -> Mat {
    Mat::from_vec(rows, cols, data.iter().map(|x| F32 { bits: x.to_bits() }).collect())
}

fn loss(logits: &Mat, target: &[usize], blank: usize) -> CtcLoss {
    loss_and_grad(logits, target, blank, &functions()).unwrap()
}

#[test]
fn single_frame_single_label_is_just_the_log_probability() {
    let logits = mat(1, 3, &[0.0, 1.0, 2.0]);
    let result = loss(&logits, &[1], 2);
    let expected = -v(log_softmax(&logits, &functions())[1]);
    assert!(
        (v(result.loss) - expected).abs() < 1e-12,
        "{} vs {expected}",
        v(result.loss)
    );
}

#[test]
fn target_longer_than_the_frame_count_is_unalignable() {
    let logits = mat(2, 3, &[0.0, 1.0, 2.0, 0.5, 0.5, 0.5]);
    // "aaa" needs 5 frames: a, blank, a, blank, a.
    let result = loss(&logits, &[0, 0, 0], 2);
    assert!(v(result.loss).is_infinite());
    assert_eq!(result.grad.len(), 6);
    assert!(result.grad.iter().all(|g| v(*g) == 0.0));
}

#[test]
fn repeated_labels_need_a_separating_blank() {
    let logits = mat(3, 3, &[0.0; 9]);
    let repeated = v(loss(&logits, &[0, 0], 2).loss);
    let distinct = v(loss(&logits, &[0, 1], 2).loss);
    // With uniform logits the only alignment of "aa" is a-blank-a, while "ab" has
    // three, so "aa" must be strictly less likely.
    assert!(repeated > distinct, "{repeated} vs {distinct}");
}

#[test]
fn gradient_matches_central_differences() {
    let data: Vec<f32> = (0..4 * 5)
        .map(|i| ((i * 37 % 11) as f32 - 5.0) * 0.3)
        .collect();
    let logits = mat(4, 5, &data);
    let target = [0usize, 2, 0];
    let analytic = loss(&logits, &target, 4);

    let epsilon = 1e-4f32;
    for i in 0..data.len() {
        let mut bumped = data.clone();
        bumped[i] += epsilon;
        let up = v(loss(&mat(4, 5, &bumped), &target, 4).loss);
        bumped[i] -= 2.0 * epsilon;
        let down = v(loss(&mat(4, 5, &bumped), &target, 4).loss);
        let numeric = (up - down) / (2.0 * f64::from(epsilon));
        let delta = (numeric - v(analytic.grad[i])).abs();
        assert!(
            delta < 1e-4,
            "index {i}: analytic {} vs numeric {numeric}",
            v(analytic.grad[i])
        );
    }
}

#[test]
fn uniform_logits_count_alignments() {
    // Of 27 equally likely paths of three frames over a, b and the blank, six read "a",
    // five read "ab" and one reads "aa".
    let logits = mat(3, 3, &[0.0; 9]);
    for (target, count) in [(vec![0], 6.0), (vec![0, 1], 5.0), (vec![0, 0], 1.0)] {
        let expected = -(count / 27.0f64).ln();
        assert!((v(loss(&logits, &target, 2).loss) - expected).abs() < 1e-12);
    }
    // The empty target is read by the path of blanks alone.
    assert!((v(loss(&logits, &[], 2).loss) - 27.0f64.ln()).abs() < 1e-12);
}

#[test]
fn alignability_counts_repetitions() {
    assert!(is_alignable(&[0, 1, 0], 3));
    assert!(!is_alignable(&[0, 0, 0], 4));
    assert!(is_alignable(&[0, 0, 0], 5));
    assert!(is_alignable(&[], 1));
    assert!(!is_alignable(&[], 0));
    assert_eq!(extend(&[4, 5], 9), vec![9, 4, 9, 5, 9]);
}

#[test]
fn bad_targets_and_blanks_are_named() {
    let logits = mat(1, 3, &[0.0; 3]);
    let error = |target: &[usize], blank: usize| match loss_and_grad(
        &logits,
        target,
        blank,
        &functions(),
    ) {
        Err(Error::Invalid(text)) => text,
        _ => panic!("expected an error"),
    };
    assert_eq!(error(&[0], 3), "blank index 3 outside 3 classes");
    assert_eq!(error(&[7], 2), "target label 7 outside 3 classes");
    assert_eq!(error(&[2], 2), "target contains the CTC blank");
}

#[test]
fn no_frames_have_an_infinite_loss_and_no_gradient() {
    let result = loss(&mat(0, 3, &[]), &[0], 2);
    assert!(v(result.loss).is_infinite());
    assert!(result.grad.is_empty());
    assert_eq!((result.rows, result.cols), (0, 3));
}

#[test]
fn the_gradient_of_each_frame_adds_up_to_zero() {
    let data: Vec<f32> = (0..4 * 5)
        .map(|i| ((i * 37 % 11) as f32 - 5.0) * 0.3)
        .collect();
    for target in [vec![0, 2, 0], vec![], vec![1, 1], vec![3]] {
        let result = loss(&mat(4, 5, &data), &target, 4);
        for row in result.grad.chunks(5) {
            let sum: f64 = row.iter().map(|g| v(*g)).sum();
            assert!(sum.abs() < 1e-9, "{target:?}: {sum}");
        }
    }
}
