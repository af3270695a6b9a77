//! Decoding: character classes, best path, beam search.

use mlkit_ink::beam::validate_cost;
use mlkit_ink::classes::{expand_class_members, parse_hex};
use mlkit_ink::decoder::{
    greedy_decode, log_softmax, prefix_beam_search, Alphabet, Candidate, CharClassRescoringLm,
    CharClassScorer, LanguageModel,
};
use mlkit_ink::float::{F32, F64};
use mlkit_ink::logmath::Functions;
use mlkit_ink::mat::Mat;
use mlkit_ink::settings::DecoderSettings;
use mlkit_ink::Error;

type Real = fn(F64) -> F64;

fn f(x: f64) -> F64 {
    F64 { bits: x.to_bits() }
}

fn v(x: F64) -> f64 {
    f64::from_bits(x.bits)
}

fn exp(x: F64) -> F64 {
    f(v(x).exp())
}

fn ln(x: F64) -> F64 {
    f(v(x).ln())
}

fn ln_1p(x: F64) -> F64 {
    f(v(x).ln_1p())
}

fn functions() -> Functions<Real, Real, Real> {
    Functions { exp, ln, ln_1p }
}

fn mat(rows: usize, cols: usize, data: &[f32]) -> Mat {
    Mat::from_vec(rows, cols, data.iter().map(|x| F32 { bits: x.to_bits() }).collect())
}

fn alphabet(texts: &[&str]) -> Alphabet {
    Alphabet {
        blank: texts.len() - 1,
        labels: (2..texts.len() as u32 + 2).collect(),
        texts: texts.iter().map(|s| (*s).to_string()).collect(),
    }
}

fn neutral() -> DecoderSettings {
    DecoderSettings {
        beam_width: 1000,
        lm_weight: f(1.0),
        insertion_bonus: f(0.0),
        char_class_weight: f(0.0),
        acoustic_scale: f(1.0),
    }
}

fn search<L: LanguageModel>(
    m: &Mat,
    a: &Alphabet,
    lm: Option<&L>,
    s: &DecoderSettings,
    nbest: usize,
) -> Result<Vec<Candidate>, Error> {
    prefix_beam_search(m, a, lm, s, nbest, &functions())
}

fn close(a: F64, b: f64) {
    assert!((v(a) - b).abs() < 1e-12, "got {}, expected {b}", v(a));
}

fn texts(candidates: &[Candidate]) -> Vec<&str> {
    candidates.iter().map(|c| c.text.as_str()).collect()
}

#[test]
fn softmax_is_f64_and_validates_frames() {
    let m = mat(2, 3, &[0.0, 0.0, 0.0, 1000.0, 1001.0, f32::NEG_INFINITY]);
    let p = log_softmax(&m, &functions()).unwrap();
    for &x in &p[..3] {
        close(x, -3.0_f64.ln());
    }
    close(p[3], -1.0 - (-1.0_f64).exp().ln_1p());
    close(p[4], -(-1.0_f64).exp().ln_1p());
    assert_eq!(v(p[5]), f64::NEG_INFINITY);
    assert!(log_softmax(&Mat::zeros(0, 3), &functions()).unwrap().is_empty());
    assert!(log_softmax(&Mat::zeros(0, 0), &functions()).is_err());
    for x in [f32::NAN, f32::INFINITY, f32::NEG_INFINITY] {
        assert!(log_softmax(&mat(1, 1, &[x]), &functions()).is_err());
    }
}

#[test]
fn class_ranges_and_malformed_literals() {
    for (input, expected) in [
        ("a[[0042]][[43-45]]é", "aBCDEé"),
        ("[[0x1f642-0x1f643]]", "\u{1f642}\u{1f643}"),
        ("[[41-]]", "A"),
        ("[[ +0X41 ]]", "A"),
        ("[[0x_4_1]]", "A"),
        ("[[++41]]", "[[++41]]"),
        ("[[4__1]]", "[[4__1]]"),
        ("[[41_]]", "[[41_]]"),
        ("[[D7FF-E000]]", "\u{d7ff}\u{e000}"),
        ("[[GG]]", "[[GG]]"),
        ("[[42-41]]", "[[42-41]]"),
        ("[[110000]]", "[[110000]]"),
        ("[[-1]]", "[[-1]]"),
        ("[[41", "[[41"),
        ("[[41-42-43]]", "[[41-42-43]]"),
        ("[[x[[41]]", "[[xA"),
    ] {
        assert_eq!(
            expand_class_members(input).into_iter().collect::<String>(),
            expected,
            "{input}"
        );
    }
}

#[test]
fn hexadecimal_numbers_end_below_two_to_the_thirty_second() {
    let hex = |text: &str| parse_hex(&text.chars().collect::<Vec<_>>());
    assert_eq!(hex("ffffffff"), Some(u32::MAX));
    assert_eq!(hex("100000000"), None);
    assert_eq!(hex("0x"), None);
    assert_eq!(hex(""), None);
    assert_eq!(hex("_1"), None);
    assert_eq!(hex("\u{3000}Ab_Cd\u{85}"), Some(0xabcd));
}

#[test]
fn classes_skip_bare_lines_truncate_suffixes_and_override() {
    let a = alphabet(&["A", "B", "C", "a", "é", "aA", "[[space]]", "\u{1f642}", ""]);
    let classes = [
        ("upper", "ABC"),
        ("upper_be", "B[[1f642]]"),
        ("lower_en_us", ""),
        ("unweighted", "C"),
        ("last", "A"),
    ]
    .map(|(name, chars)| (name.to_string(), chars.to_string()));
    let weights = [
        ("upper", 1.0),
        ("upper_", 2.0),
        ("lower_", 9.0),
        ("last", 3.0),
        ("no_char_class", -4.0),
    ]
    .map(|(name, value)| (name.to_string(), f(value)));
    let s = CharClassScorer::from_tables(&classes, &weights, &a).unwrap();
    let scores: Vec<f64> = s.scores[2..].iter().map(|x| v(*x)).collect();
    assert_eq!(scores, [3.0, 2.0, 0.0, -4.0, -4.0, -4.0, -4.0, 2.0, -4.0]);
    assert_eq!(s.empty_classes, ["lower_en_us"]);
    assert_eq!(s.unmapped_weights, ["lower_"]);
    assert_eq!(v(s.score_for_label(100)), 0.0);
    let empty = CharClassScorer::from_tables(&[], &[], &a).unwrap();
    assert!(empty.scores.iter().all(|&x| v(x) == 0.0));
    assert!(CharClassScorer::from_tables(&[], &[("x".to_string(), f(f64::NAN))], &a).is_err());
}

#[test]
fn later_weights_replace_earlier_ones_before_they_are_checked() {
    let a = alphabet(&["A", ""]);
    let classes = [("up".to_string(), "A".to_string())];
    let weights = [
        ("up".to_string(), f(f64::NAN)),
        ("zz".to_string(), f(1.0)),
        ("aa".to_string(), f(1.0)),
        ("up".to_string(), f(5.0)),
    ];
    let s = CharClassScorer::from_tables(&classes, &weights, &a).unwrap();
    assert_eq!(v(s.scores[2]), 5.0);
    assert_eq!(s.unmapped_weights, ["aa", "zz"]);
    let mut short = a.clone();
    short.texts.pop();
    assert_eq!(
        CharClassScorer::from_tables(&[], &[], &short),
        Err(Error::Invalid(
            "alphabet labels and texts have different lengths".to_string()
        ))
    );
}

struct TinyLm;

impl LanguageModel for TinyLm {
    type State = u32;

    fn start_state(&self) -> u32 {
        unreachable!("ghost")
    }

    fn next_state(&self, _: u32, _: u32) -> Option<(u32, F64)> {
        unreachable!("ghost")
    }

    fn final_cost(&self, _: u32) -> F64 {
        unreachable!("ghost")
    }

    fn start(&self) -> u32 {
        0
    }

    fn advance(&self, state: u32, label: u32) -> Option<(u32, F64)> {
        match (state, label) {
            (0, 2) => Some((1, f(0.5))),
            (1, 2) => Some((2, f(0.25))),
            // +inf is rejection even at a zero weight.
            (_, 3) => Some((state, f(f64::INFINITY))),
            _ => None,
        }
    }

    fn finish(&self, state: u32) -> F64 {
        match state {
            1 => f(0.75),
            2 => f(1.0),
            _ => f(f64::INFINITY),
        }
    }
}

#[test]
fn beam_matches_enumerated_ctc_paths_and_lm_costs() {
    let a = alphabet(&["a", "b", ""]);
    let m = Mat::zeros(3, 3);
    let result = search(&m, &a, Some(&TinyLm), &neutral(), 5).unwrap();
    assert_eq!(texts(&result), ["a", "aa"]);
    // Of 27 equiprobable paths, six collapse to a and only a-blank-a to aa.
    close(result[0].score, (6.0_f64 / 27.0).ln() - 1.25);
    close(result[1].score, (1.0_f64 / 27.0).ln() - 1.75);
    let settings = DecoderSettings {
        lm_weight: f(0.0),
        insertion_bonus: f(0.3),
        ..neutral()
    };
    let result = search(&m, &a, Some(&TinyLm), &settings, 5).unwrap();
    assert_eq!(result.len(), 2);
    close(result[0].score, (6.0_f64 / 27.0).ln() + 0.3);
    close(result[1].score, (1.0_f64 / 27.0).ln() + 0.6);
}

struct TiedLm;

impl LanguageModel for TiedLm {
    type State = bool;

    fn start_state(&self) -> bool {
        unreachable!("ghost")
    }

    fn next_state(&self, _: bool, _: u32) -> Option<(bool, F64)> {
        unreachable!("ghost")
    }

    fn final_cost(&self, _: bool) -> F64 {
        unreachable!("ghost")
    }

    fn start(&self) -> bool {
        true
    }

    fn advance(&self, first: bool, label: u32) -> Option<(bool, F64)> {
        let cost = if first && label == 2 {
            2.0_f64.ln()
        } else {
            0.0
        };
        Some((false, f(cost)))
    }

    fn finish(&self, _: bool) -> F64 {
        f(0.0)
    }
}

#[test]
fn beam_pruning_ties_follow_insertion_order_not_prefix_order() {
    let a = alphabet(&["a", "b", ""]);
    let m = mat(2, 3, &[0.0, 0.0, f32::NEG_INFINITY, 0.0, 0.0, 0.0]);
    let s = DecoderSettings {
        beam_width: 1,
        insertion_bonus: f(2.0_f64.ln()),
        ..neutral()
    };
    let out = search::<TinyLm>(&m, &a, None, &s, 5).unwrap();
    // At frame 2, continuing a (two paths) ties extending to ab (one path plus ln(2)
    // bonus). The existing prefix was inserted first and wins.
    assert_eq!(out[0].text, "a");
    let m = mat(
        2,
        3,
        &[0.0, 0.0, f32::NEG_INFINITY, 0.0, f32::NEG_INFINITY, 0.0],
    );
    let s = DecoderSettings {
        beam_width: 2,
        ..neutral()
    };
    let out = search(&m, &a, Some(&TiedLm), &s, 5).unwrap();
    // Frame 1 ranks b before a. Frame 2 inserts b, ba, a, all tied; lexicographic
    // prefix traversal would retain a instead of ba.
    assert_eq!(texts(&out), ["b", "ba"]);
}

#[test]
fn beam_merges_rendered_text_and_applies_finals_after_pruning() {
    let a = alphabet(&["a", "a", ""]);
    let result = search::<TinyLm>(&Mat::zeros(1, 3), &a, None, &neutral(), 5).unwrap();
    assert_eq!(result.len(), 2);
    assert_eq!(result[0].text, "a");
    close(result[0].score, (2.0_f64 / 3.0).ln());
    let settings = DecoderSettings {
        beam_width: 1,
        ..neutral()
    };
    // Blank is inserted first; final rejection must not rescue a pruned a.
    assert!(search(&Mat::zeros(1, 3), &a, Some(&TinyLm), &settings, 5)
        .unwrap()
        .is_empty());
    assert_eq!(
        greedy_decode(&Mat::zeros(1, 3), &a, &functions()).unwrap().text,
        "a"
    );
    let m = mat(
        4,
        3,
        &[
            0.0, -10.0, -10.0, 0.0, -10.0, -10.0, -10.0, -10.0, 0.0, 0.0, -10.0, -10.0,
        ],
    );
    assert_eq!(greedy_decode(&m, &a, &functions()).unwrap().text, "aa");
}

#[test]
fn class_wrapper_scales_only_true_extensions_and_word_final() {
    let a = alphabet(&["a", "b", ""]);
    let scorer = CharClassScorer {
        scores: vec![f(0.0), f(0.0), f(3.0), f(9.0)],
        ..Default::default()
    };
    let settings = DecoderSettings {
        lm_weight: f(2.0),
        char_class_weight: f(-0.5),
        ..neutral()
    };
    let lm = CharClassRescoringLm::new(&TinyLm, &scorer, &settings).unwrap();
    let result = search(&Mat::zeros(3, 3), &a, Some(&lm), &neutral(), 5).unwrap();
    close(result[0].score, (6.0_f64 / 27.0).ln() - 2.0 * 1.25 - 1.5);
    close(result[1].score, (1.0_f64 / 27.0).ln() - 2.0 * 1.75 - 3.0);
    let zero = DecoderSettings {
        lm_weight: f(0.0),
        ..settings
    };
    let lm = CharClassRescoringLm::new(&TinyLm, &scorer, &zero).unwrap();
    assert_eq!(lm.advance(0, 3), Some((0, f(f64::INFINITY))));
    assert_eq!(lm.finish(0), f(f64::INFINITY));
    let bad = DecoderSettings {
        char_class_weight: f(f64::NAN),
        ..settings
    };
    assert!(CharClassRescoringLm::new(&TinyLm, &scorer, &bad).is_err());
}

#[test]
fn empty_input_and_invalid_parameters() {
    let a = alphabet(&["a", "b", ""]);
    let m = Mat::zeros(0, 3);
    assert_eq!(
        greedy_decode(&m, &a, &functions()).unwrap(),
        Candidate {
            text: String::new(),
            score: f(0.0)
        }
    );
    assert_eq!(
        search::<TinyLm>(&m, &a, None, &neutral(), 1).unwrap(),
        vec![Candidate {
            text: String::new(),
            score: f(0.0)
        }]
    );
    assert!(search::<TinyLm>(&m, &a, None, &neutral(), 0).is_err());
    for settings in [
        DecoderSettings {
            beam_width: 0,
            ..neutral()
        },
        DecoderSettings {
            lm_weight: f(f64::NAN),
            ..neutral()
        },
        DecoderSettings {
            insertion_bonus: f(f64::INFINITY),
            ..neutral()
        },
        DecoderSettings {
            acoustic_scale: f(0.0),
            ..neutral()
        },
    ] {
        assert!(search::<TinyLm>(&m, &a, None, &settings, 1).is_err());
    }
    assert!(validate_cost(f(f64::NAN)).is_err());
    assert!(validate_cost(f(f64::NEG_INFINITY)).is_err());
    assert!(validate_cost(f(f64::INFINITY)).is_ok());
    let mut invalid = a.clone();
    invalid.blank = 3;
    assert!(greedy_decode(&m, &invalid, &functions()).is_err());
    invalid = a.clone();
    invalid.texts[0].clear();
    assert!(greedy_decode(&m, &invalid, &functions()).is_err());
    invalid = a;
    invalid.labels.pop();
    assert!(greedy_decode(&m, &invalid, &functions()).is_err());
}

struct BrokenLm;

impl LanguageModel for BrokenLm {
    type State = ();

    fn start_state(&self) -> () {
        unreachable!("ghost")
    }

    fn next_state(&self, _: (), _: u32) -> Option<((), F64)> {
        unreachable!("ghost")
    }

    fn final_cost(&self, _: ()) -> F64 {
        unreachable!("ghost")
    }

    fn start(&self) {}

    fn advance(&self, _: (), _: u32) -> Option<((), F64)> {
        Some(((), f(f64::NAN)))
    }

    fn finish(&self, _: ()) -> F64 {
        f(0.0)
    }
}

#[test]
fn a_cost_that_is_no_number_stops_the_search() {
    let a = alphabet(&["a", ""]);
    assert_eq!(
        search(&Mat::zeros(1, 2), &a, Some(&BrokenLm), &neutral(), 1),
        Err(Error::Invalid(
            "LM costs must be finite or +inf (rejection)".to_string()
        ))
    );
}

#[test]
fn the_acoustic_scale_applies_before_the_alignment_sum() {
    let a = alphabet(&["a", ""]);
    let m = mat(2, 2, &[0.0, 1.0, 2.0, 0.5]);
    let p = log_softmax(&m, &functions()).unwrap();
    let scale = 2.0;
    let settings = DecoderSettings {
        acoustic_scale: f(scale),
        ..neutral()
    };
    let out = search::<TinyLm>(&m, &a, None, &settings, 2).unwrap();
    let path = |x: usize, y: usize| scale * (v(p[x]) + v(p[2 + y]));
    let sum: f64 = [path(0, 0), path(0, 1), path(1, 0)].iter().map(|x| x.exp()).sum();
    let found = out.iter().find(|c| c.text == "a").unwrap();
    close(found.score, sum.ln());
}

#[test]
fn candidates_come_best_first_and_ties_by_text() {
    let a = alphabet(&["b", "a", ""]);
    let out = search::<TinyLm>(&Mat::zeros(1, 3), &a, None, &neutral(), 3).unwrap();
    assert_eq!(texts(&out), ["", "a", "b"]);
    let two = search::<TinyLm>(&Mat::zeros(1, 3), &a, None, &neutral(), 2).unwrap();
    assert_eq!(texts(&two), ["", "a"]);
}

#[test]
fn a_bad_acoustic_scale_is_named() {
    let a = alphabet(&["a", ""]);
    for (scale, text) in [(-0.25, "-0.25"), (0.0, "0"), (f64::NAN, "NaN"), (f64::INFINITY, "inf")] {
        let settings = DecoderSettings { acoustic_scale: f(scale), ..neutral() };
        assert_eq!(
            search::<TinyLm>(&Mat::zeros(1, 2), &a, None, &settings, 1),
            Err(Error::Invalid(format!(
                "acoustic_scale must be finite and positive, got {text}"
            )))
        );
    }
}

#[test]
fn the_space_symbol_prints_a_space() {
    let a = alphabet(&["[[space]]", ""]);
    let m = mat(1, 2, &[5.0, 0.0]);
    assert_eq!(greedy_decode(&m, &a, &functions()).unwrap().text, " ");
}
