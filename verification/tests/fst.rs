//! Compact n-gram models.

use mlkit_ink::float::F64;
use mlkit_ink::fst::{Arc, BackoffLm, CompactFst};
use mlkit_ink::lm::LanguageModel;
use mlkit_ink::trie::{Trie, Words};
use mlkit_ink::Error;

fn f(x: f64) -> F64 {
    F64 { bits: x.to_bits() }
}

fn v(x: F64) -> f64 {
    f64::from_bits(x.bits)
}

// Four states: root, BOS, a, b; present external labels 0, 2, 4, missing 1, 3.
fn tiny_fst(use_final: bool) -> Vec<u8> {
    let mut body = Vec::new();
    for count in [4u64, 4, 2] {
        body.extend(count.to_le_bytes());
    }
    for bitmap in [0b0001_1101u64, 0b0101_0110, 0b1001] {
        body.extend(bitmap.to_le_bytes());
    }
    for word in [65535u16, 0, 1, 2, 0, 1, 2, 1, 2] {
        body.extend(word.to_le_bytes());
    }
    body.extend([254, 6, 3, 1, 0]); // backoffs and guard
    body.extend([4, 2]); // finals
    body.extend([4, 8, 2, 1, 0]); // futures and guard
    let mut data = 0x7eb2_fdd6u32.to_le_bytes().to_vec();
    for text in [b"compact_lm".as_slice(), b"standard".as_slice()] {
        data.extend((text.len() as i32).to_le_bytes());
        data.extend(text);
    }
    data.extend(2i32.to_le_bytes());
    data.extend(4i32.to_le_bytes());
    for field in [0u64, 1, 4, 10] {
        data.extend(field.to_le_bytes());
    }
    data.extend(5u32.to_le_bytes());
    data.extend(3u32.to_le_bytes());
    data.push(u8::from(use_final));
    data.extend(0.25f32.to_le_bytes());
    data.extend((body.len() as u64).to_le_bytes());
    data.resize(data.len().next_multiple_of(16), 0);
    data.extend(body);
    data.resize(data.len().next_multiple_of(8), 0);
    data.extend(0b10101u64.to_le_bytes());
    data.extend([254, 20, 254]); // missing labels and unused sentinel
    data
}

fn arc(label: u32, weight: f64, nextstate: u32) -> Arc {
    Arc {
        ilabel: label,
        olabel: label,
        weight: f(weight),
        nextstate,
    }
}

fn to(state: u32, cost: f64) -> Option<(u32, F64)> {
    Some((state, f(cost)))
}

#[test]
fn metadata_and_literal_arcs() {
    let bytes = tiny_fst(true);
    let fst = CompactFst::parse(&bytes).unwrap();
    assert_eq!((fst.start(), fst.num_states(), fst.num_arcs()), (1, 4, 9));
    assert_eq!(
        (fst.num_labels(), fst.num_futures(), fst.num_finals()),
        (5, 4, 2)
    );
    assert_eq!(f32::from_bits(fst.quantum().bits), 0.25);
    assert!(fst.use_final_weights());
    let expected = [
        vec![
            arc(1, f64::INFINITY, 0),
            arc(2, 1.0, 2),
            arc(3, 5.0, 0),
            arc(4, 2.0, 3),
        ],
        vec![arc(0, 1.5, 0), arc(2, 0.5, 2)],
        vec![arc(0, 0.75, 0), arc(4, 0.25, 3)],
        vec![arc(0, 0.25, 0)],
    ];
    for (state, arcs) in expected.iter().enumerate() {
        assert_eq!(&fst.arcs(state as u32).unwrap(), arcs);
    }
    assert_eq!(
        (0..4)
            .map(|s| v(fst.final_weight(s).unwrap()))
            .collect::<Vec<_>>(),
        [1.0, f64::INFINITY, f64::INFINITY, 0.5]
    );
    // The borrowed data need not begin at an aligned address.
    let mut unaligned = vec![0];
    unaligned.extend(bytes);
    assert_eq!(CompactFst::parse(&unaligned[1..]).unwrap().num_arcs(), 9);
}

#[test]
fn failure_matching_and_eos() {
    let bytes = tiny_fst(true);
    let lm = BackoffLm::new(CompactFst::parse(&bytes).unwrap());
    assert_eq!(lm.advance(lm.start(), 2), to(2, 0.5));
    assert_eq!(lm.advance(1, 4), to(3, 3.5));
    assert_eq!(lm.advance(2, 2), to(2, 1.75));
    assert_eq!(lm.advance(1, 3), to(0, 6.5));
    for label in [0, 1, 5, u32::MAX] {
        assert_eq!(lm.advance(1, label), None);
    }
    assert_eq!(v(lm.finish(1)), 2.5);
    assert_eq!(v(lm.finish(2)), 1.75);
    assert_eq!(v(lm.finish(3)), 0.5);

    // An explicit expensive/infinite n-gram must never be replaced by a cheaper
    // lower-order arc. EOS differs: infinity means back off.
    let mut bytes = tiny_fst(true);
    bytes[171] = 100; // BOS -> a costs 25, root -> a costs 1
    let lm = BackoffLm::new(CompactFst::parse(&bytes).unwrap());
    assert_eq!(lm.advance(1, 2), to(2, 25.0));
    bytes[171] = 254;
    let lm = BackoffLm::new(CompactFst::parse(&bytes).unwrap());
    assert_eq!(lm.advance(1, 2), None);
    bytes[171] = 2;
    bytes[163] = 254; // infinite BOS backoff forbids missing labels/EOS
    let lm = BackoffLm::new(CompactFst::parse(&bytes).unwrap());
    assert_eq!(lm.advance(1, 4), None);
    assert_eq!(lm.advance(1, 2), to(2, 0.5));
    assert_eq!(v(lm.finish(1)), f64::INFINITY);
}

#[test]
fn final_flag_and_float32_dequantization() {
    let mut bytes = tiny_fst(false);
    bytes[79..83].copy_from_slice(&0.1f32.to_le_bytes());
    let fst = CompactFst::parse(&bytes).unwrap();
    assert!(!fst.use_final_weights());
    for state in 0..4 {
        assert_eq!(v(fst.final_weight(state).unwrap()), 0.0);
    }
    assert_eq!(v(BackoffLm::new(fst).finish(1)), 0.0);
    // The weight of the arc from BOS to a, by its code.
    let weight = |code: u8| {
        let mut bytes = bytes.clone();
        bytes[171] = code;
        v(CompactFst::parse(&bytes).unwrap().arcs(1).unwrap()[1].weight)
    };
    assert_eq!(weight(253), f64::from(253.0f32 * 0.1f32));
    assert_eq!(weight(254), f64::INFINITY);
    assert_eq!(weight(255), f64::from(255.0f32 * 0.1f32));
    assert_ne!(weight(253), 253.0 * f64::from(0.1f32));
}

#[test]
fn context_order_and_longest_suffix_transition() {
    let words: Vec<u8> = [65535u16, 0, 1, 2, 0, 2, 1, 1, 0]
        .into_iter()
        .flat_map(u16::to_le_bytes)
        .collect();
    let trie = Trie {
        words: Words(&words),
        parents: vec![0, 0, 0, 0, 2, 2, 3, 5],
        child_starts: vec![1, 4, 4, 6, 7, 7, 8, 8, 8],
    };
    assert_eq!(trie.context(0), Vec::<u32>::new());
    assert_eq!(trie.context(6), [1, 2]);
    assert_eq!(trie.context(7), [1, 2, 1]);
    assert_eq!(trie.transition(&trie.context(6), 1), 7);
    assert_eq!(trie.transition(&trie.context(7), 2), 6);
    assert_eq!(trie.transition(&trie.context(4), 1), 2);
    assert_eq!(trie.transition(&trie.context(6), 3), 0);
    for state in 0..8 {
        for label in 0..4 {
            assert_eq!(
                trie.transition_from_state(state, label),
                trie.transition(&trie.context(state), label)
            );
        }
    }
    // No n-gram order limit or recursive traversal for unusually deep (but valid)
    // tries.
    let words: Vec<u8> = std::iter::once(65535u16)
        .chain(std::iter::once(0))
        .chain(std::iter::repeat_n(1, 32))
        .chain(std::iter::once(0))
        .flat_map(u16::to_le_bytes)
        .collect();
    let mut parents = vec![0, 0];
    parents.extend(1..33);
    parents[2] = 0;
    let mut child_starts = vec![1, 3];
    child_starts.extend(3..35);
    child_starts.push(34);
    let trie = Trie {
        words: Words(&words),
        parents,
        child_starts,
    };
    assert_eq!(trie.context(33).len(), 32);
    assert_eq!(trie.transition_from_state(33, 1), 33);
}

#[test]
fn invalid_states_reject_without_panicking() {
    let bytes = tiny_fst(true);
    let lm = BackoffLm::new(CompactFst::parse(&bytes).unwrap());
    for state in [4, u32::MAX] {
        assert!(matches!(lm.fst.final_weight(state), Err(Error::Invalid(_))));
        assert!(matches!(lm.fst.arcs(state), Err(Error::Invalid(_))));
        assert_eq!(lm.advance(state, 2), None);
        assert_eq!(v(lm.finish(state)), f64::INFINITY);
    }
}

fn malformed(bytes: &[u8]) {
    assert!(matches!(CompactFst::parse(bytes), Err(Error::Format(_))));
}

fn message(bytes: &[u8]) -> String {
    match CompactFst::parse(bytes) {
        Err(Error::Format(text)) => text,
        _ => panic!("expected a format error"),
    }
}

#[test]
fn all_truncations_and_trailing_bytes_are_rejected() {
    let mut bytes = tiny_fst(true);
    for end in 0..bytes.len() {
        malformed(&bytes[..end]);
    }
    bytes.push(0);
    malformed(&bytes);
}

#[test]
fn single_byte_mutations_never_panic() {
    let original = tiny_fst(true);
    for position in 0..original.len() {
        let mut bytes = original.clone();
        for value in 0..=255 {
            bytes[position] = value;
            if let Ok(fst) = CompactFst::parse(&bytes) {
                let mut count = 0;
                for state in 0..fst.num_states() {
                    assert!(!v(fst.final_weight(state).unwrap()).is_nan());
                    for arc in fst.arcs(state).unwrap() {
                        assert!(arc.nextstate < fst.num_states());
                        assert!(arc.ilabel < fst.num_labels());
                        assert_eq!(arc.ilabel, arc.olabel);
                        assert!(!v(arc.weight).is_nan() && v(arc.weight) >= 0.0);
                        count += 1;
                    }
                }
                assert_eq!(count, fst.num_arcs());
            }
        }
    }
}

#[test]
fn malformed_headers_counts_topology_and_labels() {
    let original = tiny_fst(true);
    for (position, value) in [
        (0, 0),
        (8, b'x'),
        (8, 255),
        (30, 3),
        (34, 0),
        (78, 2),
        (120, 0),
        (120, 0b1101_0001),
        (120, 0b0001_1011),
        (127, 1),
        (128, 0),
        (128, 1),
        (135, 128),
        (136, 0),
        (143, 1),
        (144, 0),
        (146, 1),
        (150, 1),
        (154, 0),
        (156, 9),
        (176, 0),
        (183, 1),
    ] {
        let mut bytes = original.clone();
        bytes[position] = value;
        malformed(&bytes);
    }
    for (position, value) in [
        (54, 5u64),
        (62, 9),
        (83, 0),
        (96, u64::MAX),
        (104, u64::MAX),
        (112, 5),
        (104, 1 << 32),
    ] {
        let mut bytes = original.clone();
        bytes[position..position + 8].copy_from_slice(&value.to_le_bytes());
        malformed(&bytes);
    }
    for (position, value) in [
        (4, u32::MAX),
        (4, i32::MAX as u32),
        (70, 0),
        (70, 65537),
        (74, 0),
        (74, 6),
    ] {
        let mut bytes = original.clone();
        bytes[position..position + 4].copy_from_slice(&value.to_le_bytes());
        malformed(&bytes);
    }
    for quantum in [0.0f32, -0.1, f32::NAN, f32::INFINITY, f32::NEG_INFINITY] {
        let mut bytes = original.clone();
        bytes[79..83].copy_from_slice(&quantum.to_le_bytes());
        malformed(&bytes);
    }
}

#[test]
fn every_kind_of_damage_is_named() {
    let original = tiny_fst(true);
    let with = |position: usize, value: u8| {
        let mut bytes = original.clone();
        bytes[position] = value;
        message(&bytes)
    };
    assert_eq!(message(&[]), "truncated FST at byte 0 (need 4 bytes)");
    assert_eq!(with(0, 0), "not an OpenFst binary (bad magic)");
    assert_eq!(with(7, 255), "invalid FST type string length -16777206");
    assert_eq!(with(8, 255), "non-ASCII FST type");
    assert_eq!(
        with(30, 3),
        "unsupported FST header: type [99, 111, 109, 112, 97, 99, 116, 95, 108, 109], arcs \
         [115, 116, 97, 110, 100, 97, 114, 100], version 3, flags 4"
    );
    assert_eq!(with(54, 1), "invalid compact LM states/start: 1/1");
    assert_eq!(with(78, 2), "invalid use-final flag 2");
    assert_eq!(with(82, 0xbe), "invalid weight quantum -0.25");
    assert_eq!(
        with(70, 0),
        "invalid label counts: 0 labels, 3 fallback weights"
    );
    assert_eq!(with(112, 9), "header and embedded state/arc counts disagree");
    assert_eq!(with(127, 1), "nonzero bitmap padding");
    assert_eq!(with(83, 0), "embedded storage size mismatch");
    assert_eq!(with(120, 0), "invalid context LOUDS bitmap");
    assert_eq!(with(128, 1), "invalid future LOUDS bitmap");
    assert_eq!(with(136, 0), "final count mismatch");
    assert_eq!(with(176, 0), "label bitmap count mismatch");
    assert_eq!(with(144, 0), "invalid root/BOS context labels");
    assert_eq!(with(156, 9), "compact label out of range");
    let mut longer = original.clone();
    longer.push(0);
    assert_eq!(
        message(&longer),
        format!("unexpected trailing bytes at byte {}", original.len())
    );
    let mut unsorted = original.clone();
    unsorted[156] = 1;
    unsorted[154] = 1;
    assert_eq!(message(&unsorted), "arc/context labels are not strictly sorted");
}
