//! What the programs around the recognizer decide: packs, archive members, markup,
//! flat coordinates.

use mlkit_ink::blur::blur_along_strokes;
use mlkit_ink::catalog::{keeps_member, pick, sha1_hex, to_hex, Catalog, Pack};
use mlkit_ink::descent::{
    coordinate, coordinate_count, ink_scale, mean_spacing, set_coordinate, Momentum, Noise,
};
use mlkit_ink::float::{F32, F64};
use mlkit_ink::ink::{bbox_diagonal, build_strokes, copy_strokes};
use mlkit_ink::logmath::Functions;
use mlkit_ink::markup::escape;
use mlkit_ink::mat::Mat;
use mlkit_ink::numerics::Numerics;
use mlkit_ink::overlay::{bounds, layout, rms_shift, shifts, Bounds, Shift};
use mlkit_ink::ranking::rank;
use mlkit_ink::settings::{NATIVE_INSERTION_BONUS, NATIVE_LM_WEIGHT};
use mlkit_ink::sweep::{judge, Tally, Verdict};
use mlkit_ink::{
    Candidate, CurveSettings, DecoderSettings, Error, Point, Stroke, NUM_FEATURES,
};

type Real = fn(F64) -> F64;
type Planar = fn(F32, F32) -> F32;

fn f(x: f64) -> F64 {
    F64 { bits: x.to_bits() }
}

fn v(x: F64) -> f64 {
    f64::from_bits(x.bits)
}

fn g(x: f32) -> F32 {
    F32 { bits: x.to_bits() }
}

fn w(x: F32) -> f32 {
    f32::from_bits(x.bits)
}

fn fs(xs: &[f64]) -> Vec<F64> {
    xs.iter().map(|x| f(*x)).collect()
}

fn num() -> Numerics<Real, Planar, Planar> {
    Numerics {
        root: |x| f(v(x).sqrt()),
        hypot: |x, y| g(w(x).hypot(w(y))),
        atan2: |y, x| g(w(y).atan2(w(x))),
    }
}

fn functions() -> Functions<Real, Real, Real> {
    Functions {
        exp: |x| f(v(x).exp()),
        ln: |x| f(v(x).ln()),
        ln_1p: |x| f(v(x).ln_1p()),
    }
}

/// What an error says.
fn text(error: Error) -> String {
    match error {
        Error::Format(m) | Error::Unsupported(m) | Error::Invalid(m) => m,
        Error::NoSuchLanguage(tag) => tag,
    }
}

const HELLO: &str = "2aae6c35c94fcfb415dbe95f408b9ce91ee846ed";

fn pack() -> Pack {
    Pack {
        name: "greeting".to_string(),
        download_urls: vec!["https://example.com/a".to_string(), "b".to_string()],
        sha1_checksum: HELLO.to_string(),
    }
}

#[test]
fn digests_are_written_in_lower_hexadecimal() {
    assert_eq!(sha1_hex(b"hello world"), HELLO);
    assert_eq!(sha1_hex(b""), "da39a3ee5e6b4b0d3255bfef95601890afd80709");
    assert_eq!(to_hex(&[0, 15, 16, 255]), "000f10ff");
    assert_ne!(to_hex(&[1, 16]), to_hex(&[16, 1]));
}

#[test]
fn packs_keep_only_published_bytes() {
    let pack = pack();
    assert!(pack.is_current(b"hello world"));
    assert!(!pack.is_current(b"hello"));
    assert_eq!(pack.url().unwrap(), "https://example.com/a");
    assert_eq!(pack.accept("u", b"hello world").unwrap(), HELLO);
    assert_eq!(
        text(pack.accept("u", b"").unwrap_err()),
        format!("sha1 mismatch for u: da39a3ee5e6b4b0d3255bfef95601890afd80709 != {HELLO}")
    );
    let nowhere = Pack { download_urls: vec![], ..pack };
    assert_eq!(
        text(nowhere.url().unwrap_err()),
        "pack has no download URL"
    );
}

#[test]
fn catalogs_are_searched_by_name() {
    let other = Pack { name: "other".to_string(), ..pack() };
    let again = Pack { download_urls: vec![], ..pack() };
    let catalog = Catalog { packs: vec![other, pack(), again] };
    assert_eq!(catalog.get("greeting").unwrap(), &pack());
    assert_eq!(
        text(catalog.get("a\n\"b\"").unwrap_err()),
        "pack \"a\\n\\\"b\\\"\" is not in the catalog"
    );
}

#[test]
fn archives_must_hold_one_member_of_a_kind() {
    let members = |names: &[&str]| -> Vec<Option<String>> {
        names.iter().map(|n| Some(n.to_string())).collect()
    };
    let mut list = members(&["a.txt", "dir/x.tflite", "tflite"]);
    list.push(None);
    assert_eq!(pick(&list, ".tflite").unwrap(), 1);
    assert_eq!(
        text(pick(&list, ".fst").unwrap_err()),
        "expected one .fst artifact in the pack, found 4"
    );
    // The only member of a pack is taken whatever its name.
    assert_eq!(pick(&members(&["model"]), ".fst").unwrap(), 0);
    let two = members(&["a.tflite", "b.tflite"]);
    assert_eq!(
        text(pick(&two, ".tflite").unwrap_err()),
        "expected one .tflite artifact in the pack, found 2"
    );
    assert!(pick(&[], ".tflite").is_err());
}

#[test]
fn markup_hides_its_own_characters() {
    assert_eq!(escape("a<b>&c"), "a&lt;b&gt;&amp;c");
    assert!(!escape("<<>>&").contains(['<', '>']));
}

#[test]
fn flat_coordinates_are_cut_by_lengths() {
    let x = fs(&[1.0, 2.0, 3.0]);
    let y = fs(&[4.0, 5.0, 6.0]);
    let t = fs(&[7.0, 8.0, 9.0]);
    let strokes = build_strokes(&x, &y, Some(&t), &[2, 0, 1]).unwrap();
    assert_eq!(
        strokes,
        vec![
            Stroke::new(fs(&[1.0, 2.0]), fs(&[4.0, 5.0]), fs(&[7.0, 8.0])),
            Stroke::default(),
            Stroke::new(fs(&[3.0]), fs(&[6.0]), fs(&[9.0])),
        ]
    );
    assert_eq!(copy_strokes(&strokes), strokes);
    let untimed = build_strokes(&x, &y, None, &[3]).unwrap();
    assert!(untimed[0].t.is_empty() && !untimed[0].is_timed());
    assert_eq!(untimed[0].len(), 3);
    assert!(Stroke::default().is_empty());
    assert_eq!(
        text(build_strokes(&x, &y, None, &[2, 2]).unwrap_err()),
        "stroke lengths sum to 4, but 3 points were given"
    );
    assert_eq!(
        text(build_strokes(&x, &y, None, &[usize::MAX, usize::MAX]).unwrap_err()),
        "stroke lengths sum to 36893488147419103230, but 3 points were given"
    );
}

#[test]
fn boxes_are_measured_corner_to_corner() {
    let points = [(1.0, 1.0), (4.0, 3.0), (2.0, 5.0)].map(|(x, y)| Point::new(g(x), g(y), g(0.0)));
    assert_eq!(w(bbox_diagonal(&points, &num())), 5.0);
    assert_eq!(w(bbox_diagonal(&[], &num())), 0.0);
}

#[test]
fn ranks_are_stable() {
    let keys: Vec<i64> = [1.0, 3.0, 3.0, -2.0, 2.0].iter().map(|x| f(*x).key()).collect();
    assert_eq!(rank(&keys, 9), [1, 2, 4, 0, 3]);
    assert_eq!(rank(&keys, 2), [1, 2]);
}

#[test]
fn coordinates_are_counted_read_and_set() {
    let mut strokes = vec![
        Stroke::new(fs(&[1.0, 2.0]), fs(&[3.0, 4.0]), vec![]),
        Stroke::new(fs(&[5.0]), fs(&[6.0]), vec![]),
    ];
    assert_eq!(coordinate_count(&strokes), Some(6));
    assert_eq!(v(coordinate(&strokes[0], 1, 0)), 2.0);
    assert_eq!(v(coordinate(&strokes[0], 1, 1)), 4.0);
    set_coordinate(&mut strokes[0], 1, 1, f(9.0));
    assert_eq!(strokes[0].y, fs(&[3.0, 9.0]));
    assert_eq!(strokes[0].x, fs(&[1.0, 2.0]));
}

#[test]
fn scales_and_spacings_follow_the_ink() {
    let strokes = [Stroke::new(fs(&[0.0, 3.0, 6.0]), fs(&[0.0, 4.0, 8.0]), vec![])];
    let scale = ink_scale(&strokes, &num());
    assert_eq!(v(scale), 10.0);
    assert_eq!(v(mean_spacing(&strokes, scale, &num())), 5.0);
}

#[test]
fn noise_is_repeatable_and_bounded() {
    let mut noise = Noise::new(1);
    let mut again = Noise::new(1);
    let mut sum = 0.0;
    for _ in 0..1000 {
        let x = v(noise.next());
        assert_eq!(x, v(again.next()));
        assert!((-1.0..1.0).contains(&x));
        sum += x;
    }
    assert!((sum / 1000.0).abs() < 0.1);
    // The state a jump apart, by hand: x ^= x >> 12, x ^= x << 25, x ^= x >> 27.
    let mut x = 0x9e37_79b9_7f4a_7c15u64 | 1;
    x ^= x >> 12;
    x ^= x << 25;
    x ^= x >> 27;
    let bits = x.wrapping_mul(0x2545_f491_4f6c_dd1d);
    let expected = (bits >> 11) as f64 / (1u64 << 53) as f64 * 2.0 - 1.0;
    assert_eq!(v(Noise::new(1).next()), expected);
}

#[test]
fn momentum_steps_are_bounded_by_the_step_size() {
    let strokes = vec![Stroke::new(fs(&[0.0, 1.0]), fs(&[0.0, 1.0]), vec![])];
    let gradient = fs(&[1.0, -1.0, 0.0, 2.0]);
    let mut momentum = Momentum::new(4);
    let once = momentum.step(&strokes, &gradient, f(0.5), &num());
    assert!(v(once[0].x[0]) < 0.0 && v(once[0].y[0]) > 0.0);
    let fresh = {
        momentum.reset();
        momentum.step(&strokes, &gradient, f(0.5), &num())
    };
    assert_eq!(once, fresh);
}

#[test]
fn blurring_spreads_a_spike_along_its_stroke() {
    let strokes = vec![
        Stroke::new(fs(&[0.0, 1.0, 2.0]), fs(&[0.0; 3]), vec![]),
        Stroke::new(fs(&[0.0, 1.0]), fs(&[5.0; 2]), vec![]),
    ];
    let mut gradient = fs(&[0.0; 10]);
    gradient[2] = f(1.0);
    let blurred = blur_along_strokes(gradient, &strokes, f(1.0), &functions(), &num());
    let values: Vec<f64> = blurred.iter().map(|x| v(*x)).collect();
    assert!(values[0] > 0.0 && values[2] > values[0] && values[4] > 0.0);
    assert!(values[6..].iter().all(|x| *x == 0.0));
    assert!((0..5).all(|i| values[2 * i + 1] == 0.0));
}

#[test]
fn defaults_are_the_published_ones() {
    let d = DecoderSettings::default();
    assert_eq!(d.beam_width, 1000);
    assert_eq!(v(d.lm_weight), 0.615223527);
    assert_eq!(v(d.insertion_bonus), 1.901311993598938);
    assert_eq!(v(d.char_class_weight), 0.615223527);
    assert_eq!(v(d.acoustic_scale), 1.0);
    assert_eq!(f64::from_bits(NATIVE_LM_WEIGHT), 0.615223527);
    assert_eq!(f64::from_bits(NATIVE_INSERTION_BONUS), 1.901311993598938);
    let e = DecoderSettings::empirical();
    assert_eq!((v(e.lm_weight), v(e.char_class_weight)), (1.0, -1.0));
    assert_eq!(e.insertion_bonus, d.insertion_bonus);
    let narrow = DecoderSettings { beam_width: 7, ..d };
    assert_eq!(narrow.tuned(), DecoderSettings { beam_width: 7, ..e });
    assert_eq!(CurveSettings::handwriting().num_features(), NUM_FEATURES);
    assert_eq!(Error::Format("x".to_string()).message(), "malformed model artifact: x");
}

#[test]
fn shifts_are_measured_against_the_ink() {
    let before = [Stroke::new(fs(&[0.0, 3.0]), fs(&[0.0, 4.0]), vec![])];
    let after = [
        Stroke::new(fs(&[0.3, 3.3, 9.0]), fs(&[0.4, 4.4, 9.0]), vec![]),
        Stroke::default(),
    ];
    let moved = shifts(&before, &after);
    assert_eq!(
        moved[1],
        Shift { x1: f(3.0), y1: f(4.0), x2: f(3.3), y2: f(4.4) }
    );
    assert_eq!(moved.len(), 2);
    // Every sample moved by a half on a diagonal of five.
    let percent = v(rms_shift(&before, &after, &num()));
    assert!((percent - 10.0).abs() < 1e-9, "{percent}");
    assert_eq!(v(rms_shift(&[], &after, &num())), 0.0);
    let dot = [Stroke::new(fs(&[1.0]), fs(&[1.0]), vec![])];
    assert_eq!(v(rms_shift(&dot, &after, &num())), 0.0);
}

#[test]
fn drawings_hold_both_inks_with_a_margin() {
    let before = [Stroke::new(fs(&[1.0, 5.0]), fs(&[2.0, 3.0]), vec![])];
    let after = [Stroke::new(fs(&[f64::NAN, 11.0]), fs(&[7.0, 2.5, 100.0]), vec![])];
    let around = bounds(&before, &after);
    assert_eq!(
        around,
        Bounds { left: f(1.0), top: f(2.0), right: f(11.0), bottom: f(7.0) }
    );
    let place = layout(&before, &after);
    let pad = 0.08 * 10.0;
    assert_eq!(v(place.left), 1.0 - pad);
    assert_eq!(v(place.top), 2.0 - pad);
    assert_eq!(v(place.width), 10.0 + 2.0 * pad);
    assert_eq!(v(place.height), 5.0 + 2.0 * pad);
    assert_eq!(v(place.stroke_width), 0.012 * (10.0 + 2.0 * pad));
    assert_eq!(v(place.connector_width), 0.012 * (10.0 + 2.0 * pad) * 0.25);
    assert_eq!(v(place.caption_x), 1.0 - pad + 0.02 * (10.0 + 2.0 * pad));
    assert_eq!(v(place.caption_y), 7.0 + pad - 0.02 * (5.0 + 2.0 * pad));
    assert_eq!(v(place.caption_size), 0.055 * (10.0 + 2.0 * pad));
    let unit = Bounds { left: f(0.0), top: f(0.0), right: f(1.0), bottom: f(1.0) };
    assert_eq!(bounds(&[Stroke::default()], &[]), unit);
}

#[test]
fn verdicts_follow_the_place_of_the_truth() {
    let candidates: Vec<Candidate> = ["hi", "h", "ho"]
        .iter()
        .map(|text| Candidate { text: text.to_string(), score: f(0.0) })
        .collect();
    assert_eq!(judge("hi", &candidates), Verdict::Correct);
    assert_eq!(judge("ho", &candidates), Verdict::Ranked);
    assert_eq!(judge("x", &candidates), Verdict::Absent);
    assert_eq!(judge("", &[]), Verdict::Correct);
    assert_eq!(judge("h", &[]), Verdict::Absent);
    let mut tally = Tally::new();
    for truth in ["hi", "h", "x"] {
        tally.count(truth, &candidates);
    }
    tally.count("h", &candidates[1..]);
    assert_eq!(tally, Tally { correct: 2, singles: 1, ranked: 1, absent: 1 });
}

#[test]
fn matrices_are_row_major() {
    let cells: Vec<F32> = (0..6).map(|i| g(i as f32)).collect();
    let mut m = Mat::from_vec(2, 3, cells.clone());
    assert_eq!((m.rows(), m.cols(), m.is_empty()), (2, 3, false));
    assert_eq!(m.get(1, 0), g(3.0));
    assert_eq!(m.iter_rows(), [&cells[..3], &cells[3..]]);
    assert_eq!(m, Mat::from_rows(3, vec![cells[..3].to_vec(), cells[3..].to_vec()]));
    let before = m.clone();
    m.set(0, 2, g(9.0));
    assert_eq!(m.row(0), [g(0.0), g(1.0), g(9.0)]);
    assert_eq!(m.row(1), before.row(1));
    assert_eq!(before.into_vec(), cells);
    assert!(Mat::zeros(0, 4).is_empty());
    // A column past the row counts on; rows without columns are empty.
    assert_eq!(m.get(0, 4), g(4.0));
    assert!(Mat::zeros(2, 0).row(5).is_empty());
}

#[test]
fn members_are_kept_by_their_size() {
    assert!(keeps_member(Some(7), 7));
    assert!(!keeps_member(Some(6), 7));
    assert!(!keeps_member(None, 0));
}

#[test]
fn ink_is_compared_by_value() {
    let zero = Stroke::new(fs(&[0.0]), fs(&[-0.0]), fs(&[]));
    let other = Stroke::new(fs(&[-0.0]), fs(&[0.0]), fs(&[]));
    assert_eq!(zero, other);
    let nan = Stroke::new(fs(&[f64::NAN]), fs(&[0.0]), fs(&[]));
    assert_ne!(nan, nan.clone());
    assert_eq!(Mat::from_vec(1, 1, vec![g(-0.0)]), Mat::zeros(1, 1));
}
