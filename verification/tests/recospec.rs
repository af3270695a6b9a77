//! Recognizer specifications.

use mlkit_ink::float::{F32, F64};
use mlkit_ink::recospec::{parse_step, parse_symbol_table, text_lines, DecoderConfig, RecoSpec};
use mlkit_ink::settings::PreprocessingStep;
use mlkit_ink::{CurveSettings, Error};

fn f(x: f64) -> F64 {
    F64 { bits: x.to_bits() }
}

fn g(x: f32) -> F32 {
    F32 { bits: x.to_bits() }
}

fn varint(mut n: u64) -> Vec<u8> {
    let mut out = Vec::new();
    while n >= 128 {
        out.push(n as u8 | 128);
        n >>= 7;
    }
    out.push(n as u8);
    out
}

fn message(field: u32, body: &[u8]) -> Vec<u8> {
    let mut out = varint((u64::from(field) << 3) | 2);
    out.extend(varint(body.len() as u64));
    out.extend(body);
    out
}

fn spec_with_processor(body: &[u8]) -> Vec<u8> {
    let mut tf = message(2, body);
    tf.extend(message(4, &[]));
    message(158518157, &tf)
}

#[test]
fn requires_extension_processor_and_decoder() {
    assert!(RecoSpec::parse(&[]).is_err());
    assert!(RecoSpec::parse(&message(158518157, &[])).is_err());
    assert!(RecoSpec::parse(&message(158518157, &message(2, &[]))).is_err());
    assert!(RecoSpec::parse(&message(158518157, &message(4, &[]))).is_err());
    let spec = RecoSpec::parse(&spec_with_processor(&[])).unwrap();
    assert_eq!(spec.curve_settings, CurveSettings::default());
    assert_eq!(spec.num_features, None);
    assert!(!spec.has_fst_decoder);
    assert_eq!(spec.ctc_mapping(123).unwrap(), None);
}

#[test]
fn curve_settings_use_double_precision_and_proto_defaults() {
    let mut curve = vec![0x21]; // field 4, fixed64
    curve.extend(3.1234567890123f64.to_le_bytes());
    curve.extend([0x30, 1, 0x38, 1, 0x48, 1, 0x50, 1]);
    let spec = RecoSpec::parse(&spec_with_processor(&message(6, &curve))).unwrap();
    assert_eq!(
        spec.curve_settings,
        CurveSettings {
            max_arc_ratio: f(3.1234567890123),
            generate_second_order_features: true,
            use_angles_ratios: true,
            interpolate_time: true,
            normalize_outputs_to_zero_one: true,
            ..CurveSettings::default()
        }
    );
}

#[test]
fn pipeline_preserves_named_and_future_unsupported_steps() {
    let mut pipeline = Vec::new();
    for field in [5, 6, 2, 8, 7, 17, 31, 11] {
        pipeline.extend(message(1, &message(field, &[])));
    }
    let spec = RecoSpec::parse(&spec_with_processor(&message(12, &pipeline))).unwrap();
    assert_eq!(
        spec.pipeline,
        vec![
            PreprocessingStep::NormalizeTime,
            PreprocessingStep::HallucinateTime {
                interval: g(0.0),
                force: false
            },
            PreprocessingStep::NormalizeSize {
                margin: g(0.0),
                first_point_origin: false
            },
            PreprocessingStep::NormalizeSizeWritingGuideFirstStroke {
                margin: g(0.0),
                first_point_origin: false
            },
            PreprocessingStep::Unsupported {
                field: 7,
                name: String::from("ink_based_slope_correction")
            },
            PreprocessingStep::Unsupported {
                field: 17,
                name: String::from("filter_strokes")
            },
            PreprocessingStep::Unsupported {
                field: 31,
                name: String::from("UNKNOWN")
            },
            PreprocessingStep::AddPenUpStrokes,
        ]
    );
    assert_eq!(
        parse_step(&[]).unwrap(),
        PreprocessingStep::Unsupported {
            field: 0,
            name: String::from("UNKNOWN"),
        }
    );
}

#[test]
fn step_parameters_and_last_oneof_branch() {
    let mut params = vec![0x0d];
    params.extend(12.5f32.to_le_bytes());
    params.extend([0x10, 1]);
    assert_eq!(
        parse_step(&message(6, &params)).unwrap(),
        PreprocessingStep::HallucinateTime {
            interval: g(12.5),
            force: true
        }
    );
    assert_eq!(
        parse_step(&message(2, &params)).unwrap(),
        PreprocessingStep::NormalizeSize {
            margin: g(12.5),
            first_point_origin: true
        }
    );
    let mut branches = message(6, &params);
    branches.extend(message(6, &[0x10, 0]));
    assert_eq!(
        parse_step(&branches).unwrap(),
        PreprocessingStep::HallucinateTime {
            interval: g(12.5),
            force: false
        }
    );
    branches.extend(message(2, &[]));
    assert_eq!(
        parse_step(&branches).unwrap(),
        PreprocessingStep::NormalizeSize {
            margin: g(0.0),
            first_point_origin: false
        }
    );
    branches.extend(message(5, &[]));
    assert_eq!(
        parse_step(&branches).unwrap(),
        PreprocessingStep::NormalizeTime
    );
}

#[test]
fn class_lines_preserve_bare_empty_and_spaced_members() {
    let config = DecoderConfig {
        char_class_table: Some(String::from(
            "upper_\nlower_\r\nletters abc def\rblank \n\n space\n",
        )),
        ..DecoderConfig::default()
    };
    assert_eq!(
        config.char_classes(),
        vec![
            (String::from("upper_"), String::new()),
            (String::from("lower_"), String::new()),
            (String::from("letters"), String::from("abc def")),
            (String::from("blank"), String::new()),
            (String::new(), String::new()),
            (String::new(), String::from("space")),
        ]
    );
    assert!(DecoderConfig::default().char_classes().is_empty());
    assert_eq!(
        text_lines("a\u{85}b\u{2028}c\u{2029}d\x0be\x0cf\x1cg\x1dh\x1e"),
        vec!["a", "b", "c", "d", "e", "f", "g", "h"]
    );
}

#[test]
fn symbol_table_splits_at_last_tab_and_rejects_duplicate_ids() {
    let symbols = parse_symbol_table("a\tb\t2\r\n<reserved>\t1\n").unwrap();
    assert_eq!(symbols[&2], "a\tb");
    assert!(parse_symbol_table("a\t2\nb\t2\n").is_err());
    assert!(parse_symbol_table("a 2").is_err());
    assert!(parse_symbol_table("a\t-1").is_err());
    assert!(parse_symbol_table("a\tx").is_err());
}

#[test]
fn ctc_blank_last_with_or_without_word_lm() {
    let mut spec = RecoSpec {
        charset: vec![String::from(" "), String::from("𠮟")],
        has_fst_decoder: true,
        ..RecoSpec::default()
    };
    let mapping = spec.ctc_mapping(3).unwrap().unwrap();
    assert_eq!(mapping.net_to_fst, vec![2, 3, 1]);
    assert_eq!(mapping.net_symbols, vec!["[[space]]", "𠮟", "<reserved>"]);
    assert_eq!(mapping.blank_index, 2);
    assert!(!mapping.symbol_table_verified);
    assert!(spec.ctc_mapping(2).is_err());
    spec.decoder.symbol_table = parse_symbol_table(
        "<epsilon>\t0\n<reserved>\t1\n[[space]]\t2\n𠮟\t3\n<S>\t4\n</S>\t5\n",
    )
    .unwrap();
    assert!(spec.ctc_mapping(3).unwrap().unwrap().symbol_table_verified);
    spec.decoder.symbol_table.insert(2, String::from(" "));
    assert!(spec.ctc_mapping(3).is_err());
    spec.has_fst_decoder = false;
    assert_eq!(spec.ctc_mapping(0).unwrap(), None);
}

#[test]
fn duplicate_symbols_are_rejected_during_parse() {
    let word_lm = message(4, b"a\t2\nb\t2\n");
    let decoder = message(6, &message(3, &word_lm));
    let mut tf = message(2, &[]);
    tf.extend(message(4, &decoder));
    assert!(RecoSpec::parse(&message(158518157, &tf)).is_err());
}
