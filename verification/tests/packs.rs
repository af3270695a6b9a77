//! The catalogue of packs and the choice of a pack for a tag.

use mlkit_ink::packs::{parts, PackMapping, PackNames};
use mlkit_ink::Error;

fn bytes_field(field: u8, bytes: &[u8]) -> Vec<u8> {
    let mut out = vec![(field << 3) | 2];
    let mut len = bytes.len();
    while len >= 128 {
        out.push((len as u8 & 0x7f) | 0x80);
        len >>= 7;
    }
    out.push(len as u8);
    out.extend_from_slice(bytes);
    out
}

fn entry(tag: &str, fst: Option<&str>) -> Vec<u8> {
    let mut out = bytes_field(1, tag.as_bytes());
    out.extend(bytes_field(5, tag.as_bytes()));
    out.extend(bytes_field(6, b"net"));
    if let Some(fst) = fst {
        out.extend(bytes_field(7, fst.as_bytes()));
    }
    out
}

fn catalog(tags: &[&str]) -> PackMapping {
    let data: Vec<_> = tags
        .iter()
        .flat_map(|tag| bytes_field(1, &entry(tag, None)))
        .collect();
    PackMapping::parse(&data).unwrap()
}

fn resolves(mapping: &PackMapping, requested: &str, expected: &str) {
    assert_eq!(mapping.resolve(requested).unwrap().recospec, expected);
}

#[test]
fn parses_names_presence_unknown_fields_and_wire_order() {
    let mut first = entry("en-US", Some("words"));
    first.extend(bytes_field(9, b"ignored"));
    // Singular protobuf fields use their last occurrence.
    first.extend(bytes_field(6, b"last-net"));
    let mut data = bytes_field(1, &first);
    data.extend(bytes_field(2, b"ignored"));
    data.extend(bytes_field(1, &entry("und-x-gesture", None)));
    data.extend(bytes_field(1, &entry("fr", Some(""))));
    let mapping = PackMapping::parse(&data).unwrap();
    assert_eq!(
        mapping.tags(),
        ["en-US", "und-x-gesture", "fr"]
    );
    assert_eq!(
        mapping.resolve("en-US").unwrap(),
        &PackNames {
            recospec: String::from("en-US"),
            tflite: String::from("last-net"),
            fst: Some(String::from("words")),
        }
    );
    assert_eq!(mapping.resolve("und-x-gesture").unwrap().fst, None);
    assert_eq!(mapping.resolve("fr").unwrap().fst.as_deref(), Some(""));
    assert_eq!(PackMapping::parse(&[]).unwrap().tags().len(), 0);
    assert!(PackMapping::default().tags().is_empty());
}

#[test]
fn rejects_incomplete_duplicate_and_malformed_entries() {
    let duplicate = bytes_field(1, &entry("en", None)).repeat(2);
    let mut missing_net = bytes_field(1, b"en");
    missing_net.extend(bytes_field(5, b"spec"));
    let mut empty_spec = entry("en", None);
    empty_spec.extend(bytes_field(5, b""));
    for data in [
        duplicate,
        bytes_field(1, &entry("", None)),
        bytes_field(1, &missing_net),
        bytes_field(1, &empty_spec),
        bytes_field(1, &[]),
        vec![0x0a, 0x02, 0x0a],
        bytes_field(1, &bytes_field(1, &[0xff])),
        vec![0x08, 0x01],
    ] {
        assert!(matches!(PackMapping::parse(&data), Err(Error::Format(_))));
    }
}

#[test]
fn parts_normalize_and_take_first_script_and_region_before_private_use() {
    for (tag, language, script, region, private) in [
        (
            "SR_latn_RS_X_Gesture",
            "sr",
            Some("latn"),
            Some("rs"),
            "x-gesture",
        ),
        ("es-419", "es", None, Some("419"), ""),
        ("en-US-GB-Latn-Cyrl", "en", Some("latn"), Some("us"), ""),
        ("en-x-Latn-US", "en", None, None, "x-latn-us"),
        ("en-abc-1234-1a", "en", None, None, ""),
        ("en-x", "en", None, None, "x"),
        ("en", "en", None, None, ""),
        (" en ", " en ", None, None, ""),
        ("", "", None, None, ""),
    ] {
        let actual = parts(tag);
        assert_eq!(
            (
                actual.language.as_str(),
                actual.script.as_deref(),
                actual.region.as_deref(),
                actual.private.as_str()
            ),
            (language, script, region, private),
            "{tag}"
        );
    }
}

#[test]
fn exact_matches_normalize_requests_and_last_case_alias_wins() {
    let mapping = catalog(&["en", "en-US", "EN-us", "en-GB"]);
    resolves(&mapping, "  eN_uS\n", "EN-us");
    resolves(&mapping, "en", "en");
}

#[test]
fn private_use_never_crosses_variants_or_becomes_text() {
    let mapping = catalog(&["en", "en-x-gesture", "en-x-shapes", "und-x-emoji"]);
    resolves(&mapping, "EN_us_X_GESTURE", "en-x-gesture");
    for requested in ["en-x-emoji", "en-x", "und", "fr-x-gesture", "x-gesture", ""] {
        assert_eq!(
            mapping.resolve(requested),
            Err(Error::NoSuchLanguage(String::from(requested)))
        );
    }
}

#[test]
fn conflicting_scripts_are_excluded_but_unspecified_scripts_are_allowed() {
    let mapping = catalog(&["sr-Cyrl", "sr-Latn", "sr"]);
    resolves(&mapping, "sr-Latn-BA", "sr-Latn");
    resolves(&mapping, "sr-Arab", "sr");
    let mapping = catalog(&["sr-Cyrl"]);
    assert!(matches!(
        mapping.resolve("sr-Latn"),
        Err(Error::NoSuchLanguage(_))
    ));
}

#[test]
fn han_umbrella_uses_implicit_regions_and_explicit_regions_override_them() {
    let mapping = catalog(&["zh-Hani-CN", "zh-Hani-TW", "zh-Hani-HK"]);
    resolves(&mapping, "zh-Hans", "zh-Hani-CN");
    resolves(&mapping, "zh-Hant", "zh-Hani-TW");
    resolves(&mapping, "zh-Hans-HK", "zh-Hani-HK");
    resolves(&mapping, "zh-Hant-CN", "zh-Hani-CN");
    let competing = catalog(&["zh-Hans-SG", "zh-Hani-CN"]);
    resolves(&competing, "zh-Hans", "zh-Hani-CN");
    let directional = catalog(&["zh-Hans", "zh-Hant"]);
    assert!(matches!(
        directional.resolve("zh-Hani"),
        Err(Error::NoSuchLanguage(_))
    ));
}

#[test]
fn score_orders_region_before_script_then_specificity() {
    let mapping = catalog(&["en-Latn-GB", "en-US", "en-Latn", "en"]);
    resolves(&mapping, "en-Latn-US", "en-US");
    resolves(&mapping, "en-Latn-AU", "en-Latn");
    resolves(&mapping, "en-AU", "en");
    let han = catalog(&["zh-Hans", "zh-Hani-CN"]);
    resolves(&han, "zh-Hans-SG", "zh-Hans");
}

#[test]
fn score_ties_choose_lexicographically_largest_original_tag() {
    for tags in [["en-GB", "en-US"], ["en-US", "en-GB"]] {
        resolves(&catalog(&tags), "en-AU", "en-US");
    }
    // Original spelling, not normalized spelling, breaks the tie.
    resolves(&catalog(&["en-us", "en-zz", "en_ZZ"]), "en-AU", "en_ZZ");
    resolves(&catalog(&["en-US", "en-gb"]), "en-AU", "en-gb");
}

#[test]
fn unknown_language_keeps_original_request_in_error() {
    let requested = " ZZ_unknown ";
    assert_eq!(
        catalog(&["en"]).resolve(requested),
        Err(Error::NoSuchLanguage(String::from(requested)))
    );
}

#[test]
fn letters_outside_ascii_are_lowered_too() {
    assert_eq!(parts("\u{c9}N_\u{c5}bcd").language, "\u{e9}n");
    assert_eq!(parts("\u{c9}N_\u{c5}bcd").script.as_deref(), Some("\u{e5}bcd"));
    resolves(&catalog(&["\u{e9}n-US"]), "\u{c9}N-us", "\u{e9}n-US");
}

#[test]
fn errors_name_the_entry() {
    let text = |data: &[u8]| match PackMapping::parse(data) {
        Err(Error::Format(text)) => text,
        _ => panic!("expected a format error"),
    };
    assert_eq!(
        text(&bytes_field(1, &entry("en", None)).repeat(2)),
        "duplicate language tag \"en\""
    );
    assert_eq!(
        catalog(&["en"]).resolve("fr").unwrap_err().message(),
        "no Digital Ink model for language tag \"fr\""
    );
}

#[test]
fn a_tag_is_found_however_it_is_spelled() {
    let mapping = catalog(&["sr-Latn-RS", "zh-Hani-CN", "en", "sr-Cyrl"]);
    for tag in mapping.tags() {
        resolves(&mapping, tag, tag);
        resolves(&mapping, &tag.to_uppercase(), tag);
        resolves(&mapping, &tag.to_lowercase().replace('-', "_"), tag);
        resolves(&mapping, &format!("\t {tag}\u{2003}\n"), tag);
    }
}
