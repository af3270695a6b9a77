//! Gradient descent on ink.
//!
//! The optimizer's failure mode is silence: a wrong gradient still runs, still gives a
//! loss, and simply never converges. So these assert on movement of the actual
//! objective, not on the code path completing.

use mlkit_ink::decoder::Alphabet;
use mlkit_ink::float::{F32, F64};
use mlkit_ink::logmath::Functions;
use mlkit_ink::net::Squash;
use mlkit_ink::numerics::Numerics;
use mlkit_ink::optimize::{
    fit_strokes, fit_strokes_from, render, target_indices, FitOptions, FitReport,
};
use mlkit_ink::recognizer::{build_alphabet, Toolbox};
use mlkit_ink::recospec::RecoSpec;
use mlkit_ink::settings::handwriting_pipeline;
use mlkit_ink::tflite::{DirectionWeights, LayerWeights, NetworkWeights};
use mlkit_ink::{CurveSettings, DecoderSettings, Error, Recognizer, Stroke};

type Real = fn(F64) -> F64;
type Single = fn(F32) -> F32;
type Planar = fn(F32, F32) -> F32;

fn f(x: f64) -> F64 {
    F64 { bits: x.to_bits() }
}

fn v(x: F64) -> f64 {
    f64::from_bits(x.bits)
}

fn g(x: f32) -> F32 {
    F32 { bits: x.to_bits() }
}

fn w(x: F32) -> f32 {
    f32::from_bits(x.bits)
}

fn functions() -> Functions<Real, Real, Real> {
    Functions {
        exp: |x| f(v(x).exp()),
        ln: |x| f(v(x).ln()),
        ln_1p: |x| f(v(x).ln_1p()),
    }
}

fn squash() -> Squash<Single, Single> {
    Squash {
        exp: |x| g(w(x).exp()),
        tanh: |x| g(w(x).tanh()),
    }
}

fn num() -> Numerics<Real, Planar, Planar> {
    Numerics {
        root: |x| f(v(x).sqrt()),
        hypot: |x, y| g(w(x).hypot(w(y))),
        atan2: |y, x| g(w(y).atan2(w(x))),
    }
}

fn fs(xs: &[f64]) -> Vec<F64> {
    xs.iter().map(|x| f(*x)).collect()
}

/// Few steps. Enough to show the loss is being driven down, not enough to reach a
/// target.
const STEPS: usize = 12;

/// Varied numbers.
struct Random(u64);

impl Random {
    fn values(&mut self, len: usize, scale: f32) -> Vec<F32> {
        (0..len)
            .map(|_| {
                self.0 ^= self.0 << 13;
                self.0 ^= self.0 >> 7;
                self.0 ^= self.0 << 17;
                g(scale * (((self.0 >> 40) as f32 / (1u32 << 24) as f32) * 2.0 - 1.0))
            })
            .collect()
    }

    fn direction(&mut self, hidden: usize) -> DirectionWeights {
        DirectionWeights {
            input_kernels: self.values(4 * hidden * 10, 1.0),
            recurrent_kernels: self.values(4 * hidden, 0.5),
            diagonal: true,
            biases: self.values(4 * hidden, 0.3),
            initial_activation: self.values(hidden, 0.2),
            initial_cell: self.values(hidden, 0.2),
            hidden,
            input: 10,
        }
    }
}

/// A recognizer with a small network of fixed weights.
fn recognizer() -> Recognizer<'static> {
    let spec = RecoSpec {
        charset: ["h", "i", "j", "n", "Q"].map(String::from).to_vec(),
        curve_settings: CurveSettings::handwriting(),
        pipeline: handwriting_pipeline(),
        has_fst_decoder: true,
        ..RecoSpec::default()
    };
    let mut random = Random(0x831c_409f_712a_568d);
    let weights = NetworkWeights {
        layers: vec![LayerWeights {
            forward: random.direction(4),
            backward: random.direction(4),
            cell_clip: g(50.0),
            custom_options: vec![],
        }],
        fc_weights: random.values(6 * 8, 4.0),
        fc_bias: random.values(6, 0.2),
        input_size: 10,
        num_classes: 6,
    };
    let mapping = spec.ctc_mapping(6).unwrap().unwrap();
    let alphabet = build_alphabet(&mapping);
    Recognizer {
        spec,
        weights,
        mapping,
        alphabet,
        lm: None,
        char_classes: None,
        settings: DecoderSettings::default(),
    }
}

/// A stroke down, up and over an arch, and down.
fn letter_n() -> Vec<Stroke> {
    let mut points: Vec<(f64, f64)> = (0..8).map(|i| (10.0, 10.0 + 5.0 * i as f64)).collect();
    points.extend((1..12).map(|i| {
        let angle = core::f64::consts::PI * i as f64 / 12.0;
        (22.0 - 12.0 * angle.cos(), 25.0 - 14.0 * angle.sin())
    }));
    points.extend((0..6).map(|i| (34.0, 25.0 + 4.0 * i as f64)));
    vec![Stroke::new(
        points.iter().map(|p| f(p.0)).collect(),
        points.iter().map(|p| f(p.1)).collect(),
        (0..points.len()).map(|i| f(15.0 * i as f64)).collect(),
    )]
}

/// A short stroke down and a dot.
fn letter_i() -> Vec<Stroke> {
    vec![
        Stroke::new(
            vec![f(20.0); 9],
            (0..9).map(|i| f(20.0 + 3.0 * i as f64)).collect(),
            (0..9).map(|i| f(12.0 * i as f64)).collect(),
        ),
        Stroke::new(fs(&[20.0, 20.5]), fs(&[8.0, 8.5]), fs(&[300.0, 310.0])),
    ]
}

fn try_fit(
    recognizer: &Recognizer<'_>,
    ink: &[Stroke],
    target: &str,
    options: &FitOptions,
) -> Result<FitReport, Error> {
    let (log, net, geometry) = (functions(), squash(), num());
    let tools = Toolbox { log: &log, net: &net, geometry: &geometry };
    fit_strokes(recognizer, ink, target, options, &tools)
}

fn fit(rec: &Recognizer<'_>, ink: &[Stroke], target: &str, options: &FitOptions) -> FitReport {
    let report = try_fit(rec, ink, target, options).expect("fit");
    honest(&report, ink, options.steps);
    report
}

fn try_fit_from(
    recognizer: &Recognizer<'_>,
    ink: &[Stroke],
    reference: &[Stroke],
    target: &str,
    options: &FitOptions,
) -> Result<FitReport, Error> {
    let (log, net, geometry) = (functions(), squash(), num());
    let tools = Toolbox { log: &log, net: &net, geometry: &geometry };
    fit_strokes_from(recognizer, ink, reference, target, options, &tools)
}

fn fit_from(
    recognizer: &Recognizer<'_>,
    ink: &[Stroke],
    reference: &[Stroke],
    target: &str,
    options: &FitOptions,
) -> FitReport {
    try_fit_from(recognizer, ink, reference, target, options).expect("fit")
}

fn read(recognizer: &Recognizer<'_>, ink: &[Stroke]) -> String {
    let (log, net, geometry) = (functions(), squash(), num());
    let tools = Toolbox { log: &log, net: &net, geometry: &geometry };
    recognizer.recognize_greedy(ink, &tools).expect("decode").text
}

/// What an error says.
fn text(error: Error) -> String {
    match error {
        Error::Format(m) | Error::Unsupported(m) | Error::Invalid(m) => m,
        Error::NoSuchLanguage(tag) => tag,
    }
}

/// What every fit keeps to.
fn honest(report: &FitReport, start: &[Stroke], steps: usize) {
    assert!(report.history.len() <= steps + 1 && !report.history.is_empty());
    assert_eq!(report.history[0].ctc_loss, report.initial_ctc_loss);
    for (step, record) in report.history.iter().enumerate() {
        assert_eq!(record.step, step);
    }
    for ink in [&report.strokes, &report.last] {
        assert_eq!(ink.len(), start.len());
        for (moved, original) in ink.iter().zip(start) {
            assert_eq!(moved.t, original.t);
            assert_eq!(moved.pen_up, original.pen_up);
            assert_eq!(moved.x.len(), original.x.len());
            assert_eq!(moved.y.len(), original.y.len());
        }
    }
    if !report.matched {
        for record in &report.history {
            assert!(v(report.best_ctc_loss) <= v(record.ctc_loss));
        }
    }
}

#[test]
fn descent_reduces_the_ctc_loss_of_the_target() {
    let recognizer = recognizer();
    let ink = letter_n();

    let options = FitOptions {
        steps: STEPS,
        ..FitOptions::default()
    };
    let report = fit(&recognizer, &ink, "h", &options);

    assert!(
        v(report.best_ctc_loss) < v(report.initial_ctc_loss),
        "loss did not improve: {} -> {}",
        v(report.initial_ctc_loss),
        v(report.best_ctc_loss)
    );
    // A working gradient moves this a long way in a dozen steps; a broken one
    // drifts. The margin is deliberately loose, the direction is not.
    assert!(
        v(report.best_ctc_loss) < 0.6 * v(report.initial_ctc_loss),
        "loss barely moved: {} -> {}",
        v(report.initial_ctc_loss),
        v(report.best_ctc_loss)
    );
    assert_eq!(
        report.history.len(),
        STEPS + 1,
        "one evaluation per step, plus the final one"
    );
}

#[test]
fn the_result_is_the_same_ink_moved_not_a_different_ink() {
    let recognizer = recognizer();
    let ink = letter_i();
    let options = FitOptions {
        steps: STEPS,
        ..FitOptions::default()
    };
    let report = fit(&recognizer, &ink, "j", &options);

    assert_eq!(report.strokes.len(), ink.len(), "stroke count changed");
    for (after, before) in report.strokes.iter().zip(&ink) {
        assert_eq!(after.x.len(), before.x.len(), "point count changed");
        assert_eq!(after.t, before.t, "timestamps must not be touched");
        assert!(
            after.x.iter().chain(&after.y).all(|x| v(*x).is_finite()),
            "non-finite coordinate"
        );
    }
}

/// `matched` is the claim a caller will actually rely on, and it is checked
/// against a full fresh recognition rather than the frozen-structure surrogate
/// the gradient uses. Verify that independently here.
#[test]
fn a_reported_match_really_reads_as_the_target() {
    let recognizer = recognizer();
    let ink = letter_n();
    let options = FitOptions {
        steps: 60,
        ..FitOptions::default()
    };
    let report = fit(&recognizer, &ink, "h", &options);

    let text = read(&recognizer, &report.strokes);
    if report.matched {
        assert_eq!(
            text, "h",
            "reported a match that does not decode to the target"
        );
    } else {
        assert_ne!(text, "h", "a match that was not reported");
    }
}

/// A stroke whose x and y disagree in length must come back as an error, not
/// a panic: the regularizer indexes coordinates directly, so it has to run
/// after the pipeline has had its say.
#[test]
fn malformed_ink_is_an_error_not_a_panic() {
    let recognizer = recognizer();
    let ragged = vec![Stroke {
        x: fs(&[0.0, 1.0]),
        y: fs(&[0.0]),
        t: Vec::new(),
        pen_up: false,
    }];
    let options = FitOptions {
        steps: 1,
        ..FitOptions::default()
    };
    assert!(try_fit(&recognizer, &ragged, "h", &options).is_err());
}

/// A smiley: two short vertical eyes and a wide U mouth, sampled evenly.
fn smiley() -> Vec<Stroke> {
    let line = |x: f64, n: usize| -> Stroke {
        let pts: Vec<f64> = (0..n)
            .map(|i| 100.0 + 65.0 * i as f64 / (n - 1) as f64)
            .collect();
        Stroke {
            x: vec![f(x); n],
            y: fs(&pts),
            t: (0..n).map(|i| f(i as f64 * 8.0)).collect(),
            pen_up: false,
        }
    };
    let mouth: Vec<(f64, f64)> = (0..9)
        .map(|i| {
            let t = i as f64 / 8.0;
            (
                120.0 + 150.0 * t,
                205.0 + 95.0 * (core::f64::consts::PI * t).sin(),
            )
        })
        .collect();
    vec![
        line(150.0, 4),
        line(230.0, 4),
        Stroke {
            x: mouth.iter().map(|p| f(p.0)).collect(),
            y: mouth.iter().map(|p| f(p.1)).collect(),
            t: (0..mouth.len()).map(|i| f(i as f64 * 8.0)).collect(),
            pen_up: false,
        },
    ]
}

/// The regression that matters most in practice: driving the fit in small
/// chunks, as a UI must, and continuing from the wrong iterate.
///
/// Resuming from `strokes` (the best) rather than `last` makes a chunk that
/// failed to improve hand back its own input. The next chunk then starts from
/// an identical state, takes an identical step, and the loop is a fixed point -
/// the search freezes permanently. It looks exactly like "it optimised partway
/// and then stopped", and a whole-run test never sees it.
#[test]
fn chunked_fitting_does_not_freeze_on_a_plateau() {
    let recognizer = recognizer();
    let options = FitOptions {
        steps: 4,
        resegment_every: 5,
        ..FitOptions::default()
    };

    let mut current = smiley();
    let mut frozen = 0;
    for _ in 0..20 {
        let report = fit(&recognizer, &current, "Q", &options);
        if report.last == current {
            frozen += 1;
        }
        current = report.last;
        if report.matched {
            break;
        }
    }
    assert!(
        frozen <= 2,
        "chunked fitting froze on {frozen} of 20 chunks; it is resuming from the best \
         iterate instead of the last one"
    );
}

/// `last` is the final iterate and `strokes` is the best one, and they are
/// allowed to differ - that difference is the whole reason both exist.
#[test]
fn the_report_exposes_both_the_best_and_the_final_iterate() {
    let recognizer = recognizer();
    let ink = letter_n();
    let options = FitOptions {
        steps: 20,
        ..FitOptions::default()
    };
    let report = fit(&recognizer, &ink, "h", &options);

    assert_eq!(report.last.len(), ink.len());
    for (after, before) in report.last.iter().zip(&ink) {
        assert_eq!(after.x.len(), before.x.len());
        assert!(after.x.iter().chain(&after.y).all(|x| v(*x).is_finite()));
    }
    // The best was found before the end, so the two must not be the same ink.
    if report.best_step < options.steps {
        assert_ne!(
            report.last, report.strokes,
            "best and final should differ here"
        );
    }
}

/// The robustness option is opt-in, so the thing most worth pinning is that
/// leaving it off changes nothing at all - and that turning it on still
/// converges rather than averaging itself into paralysis.
#[test]
fn robustness_sampling_is_off_by_default_and_works_when_on() {
    let recognizer = recognizer();
    let ink = letter_n();
    let base = FitOptions {
        steps: STEPS,
        ..FitOptions::default()
    };
    assert_eq!(base.robust_samples, 1, "robustness must default to off");
    assert_eq!(v(base.jitter), 0.0, "jitter must default to off");

    let plain = fit(&recognizer, &ink, "h", &base);
    // One sample with no jitter has to be bit-identical to not asking at all.
    let explicit = FitOptions {
        robust_samples: 1,
        jitter: f(0.02),
        ..base
    };
    let same = fit(&recognizer, &ink, "h", &explicit);
    assert_eq!(
        plain.strokes, same.strokes,
        "one sample must skip the jitter path entirely"
    );

    let robust = FitOptions {
        robust_samples: 3,
        jitter: f(0.006),
        ..base
    };
    let averaged = fit(&recognizer, &ink, "h", &robust);
    assert!(
        v(averaged.best_ctc_loss) < v(averaged.initial_ctc_loss),
        "averaged gradient stopped making progress: {} -> {}",
        v(averaged.initial_ctc_loss),
        v(averaged.best_ctc_loss)
    );
    assert!(
        averaged
            .strokes
            .iter()
            .all(|s| s.x.iter().all(|x| v(*x).is_finite()))
    );
}

/// The penalties have to bite when a fit is resumed, which is how every live
/// caller drives it.
///
/// Passing the current ink as its own reference would make the measured deformation
/// zero at the start of each chunk, so both gradients would vanish on every applied
/// update and the anchor would silently do nothing, invisible in a whole-run test.
#[test]
fn the_anchor_still_bites_when_a_fit_is_resumed() {
    let recognizer = recognizer();
    let ink = letter_n();

    // One step per chunk, as the animation uses, holding the original ink as
    // the reference throughout.
    let chunked = |anchor: f64| -> Vec<Stroke> {
        let options = FitOptions {
            steps: 1,
            anchor_weight: f(anchor),
            resegment_every: 2,
            ..FitOptions::default()
        };
        let mut current = ink.clone();
        for _ in 0..60 {
            let report = fit_from(&recognizer, &current, &ink, "h", &options)
                ;
            current = report.last;
        }
        current
    };

    let drift = |after: &[Stroke]| -> f64 {
        let mut total = 0.0;
        for (a, b) in after.iter().zip(&ink) {
            for i in 0..a.x.len() {
                total += (v(a.x[i]) - v(b.x[i])).powi(2) + (v(a.y[i]) - v(b.y[i])).powi(2);
            }
        }
        total.sqrt()
    };

    let loose = drift(&chunked(0.0));
    let tight = drift(&chunked(40.0));
    assert!(
        tight < loose * 0.9,
        "a heavy anchor barely restrained a resumed fit ({tight:.3} vs {loose:.3}); \
         the regularization reference is probably moving with the search"
    );
}

#[test]
fn a_target_outside_the_charset_is_rejected_by_name() {
    let recognizer = recognizer();
    let ink = letter_n();
    let options = FitOptions {
        steps: 1,
        ..FitOptions::default()
    };
    // The Latin charset has no Devanagari.
    let error = try_fit(&recognizer, &ink, "\u{0915}", &options)
        .expect_err("should reject")
        .message();
    assert!(error.contains("charset"), "{error}");
}

#[test]
fn targets_are_spelled_longest_symbol_first() {
    let alphabet = Alphabet {
        blank: 4,
        labels: vec![2, 3, 4, 5, 1],
        texts: ["a", "b", "ab", " ", ""].map(String::from).to_vec(),
    };
    let spelled = target_indices(&alphabet, "aab b").unwrap();
    assert_eq!(spelled, [0, 2, 3, 1]);
    assert_eq!(render(&alphabet, &spelled), "aab b");
    assert_eq!(
        text(target_indices(&alphabet, "a\n\u{1f642}").unwrap_err()),
        "target contains '\\n', which this model's charset cannot produce"
    );
    assert!(target_indices(&alphabet, "").unwrap().is_empty());
}

#[test]
fn a_fit_refuses_what_it_cannot_start_from() {
    let rec = recognizer();
    let options = FitOptions { steps: 1, ..FitOptions::default() };
    let fails = |ink: &[Stroke], reference: &[Stroke], target: &str, options: &FitOptions| {
        text(try_fit_from(&rec, ink, reference, target, options).unwrap_err())
    };
    let two = letter_i();
    let short = Stroke::new(fs(&[0.0]), fs(&[0.0]), fs(&[0.0]));
    assert_eq!(
        fails(&two, &two[..1], "h", &options),
        "the regularization reference has 1 strokes, the ink has 2"
    );
    assert_eq!(
        fails(&two, &[two[0].clone(), short], "h", &options),
        "stroke 1: the reference has 1 samples, the ink has 2"
    );
    let ragged = Stroke::new(fs(&[0.0, 1.0]), fs(&[0.0]), fs(&[0.0, 1.0]));
    assert_eq!(
        fails(&two, &[two[0].clone(), ragged], "h", &options),
        "stroke 1: x and y must be the same length"
    );
    assert_eq!(fails(&two, &two, "", &options), "target is empty");
    let none = FitOptions { steps: 0, ..options };
    assert_eq!(fails(&two, &two, "h", &none), "steps must be positive");
    let never = FitOptions { resegment_every: 0, ..options };
    assert_eq!(
        fails(&two, &two, "h", &never),
        "resegment_every must be positive"
    );
}
