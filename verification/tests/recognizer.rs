//! Loading packs and reading ink, with small networks built here.

use mlkit_ink::features::extract;
use mlkit_ink::float::{F32, F64};
use mlkit_ink::logmath::Functions;
use mlkit_ink::net::{forward, Squash};
use mlkit_ink::numerics::Numerics;
use mlkit_ink::recognizer::Toolbox;
use mlkit_ink::tflite::load_weights;
use mlkit_ink::lm::LanguageModel;
use mlkit_ink::{CurveSettings, DecoderSettings, Error, Recognizer, Stroke};

type Real = fn(F64) -> F64;
type Single = fn(F32) -> F32;
type Planar = fn(F32, F32) -> F32;

fn f(x: f64) -> F64 {
    F64 { bits: x.to_bits() }
}

fn v(x: F64) -> f64 {
    f64::from_bits(x.bits)
}

fn g(x: f32) -> F32 {
    F32 { bits: x.to_bits() }
}

fn w(x: F32) -> f32 {
    f32::from_bits(x.bits)
}

fn functions() -> Functions<Real, Real, Real> {
    Functions {
        exp: |x| f(v(x).exp()),
        ln: |x| f(v(x).ln()),
        ln_1p: |x| f(v(x).ln_1p()),
    }
}

fn squash() -> Squash<Single, Single> {
    Squash {
        exp: |x| g(w(x).exp()),
        tanh: |x| g(w(x).tanh()),
    }
}

fn num() -> Numerics<Real, Planar, Planar> {
    Numerics {
        root: |x| f(v(x).sqrt()),
        hypot: |x, y| g(w(x).hypot(w(y))),
        atan2: |y, x| g(w(y).atan2(w(x))),
    }
}

/// A flatbuffer in the making.
#[derive(Clone)]
enum Node {
    Table(Vec<(usize, Node)>),
    Tables(Vec<Node>),
    Bytes(Vec<u8>),
    Words(Vec<u32>),
    Longs(Vec<u64>),
    Byte(u8),
    Word(u32),
}

fn link(out: &mut Vec<u8>, field: usize, node: &Node) {
    let target = place(out, node);
    let distance = (target - field) as u32;
    out[field..field + 4].copy_from_slice(&distance.to_le_bytes());
}

fn place(out: &mut Vec<u8>, node: &Node) -> usize {
    match node {
        Node::Table(fields) => {
            let slots = fields.iter().map(|x| x.0).max().unwrap_or(2) + 2;
            let vtable = out.len();
            let size = 4 + 4 * fields.len();
            out.extend((slots as u16).to_le_bytes());
            out.extend((size as u16).to_le_bytes());
            out.resize(vtable + slots, 0);
            for (i, (slot, _)) in fields.iter().enumerate() {
                let at = vtable + slot;
                out[at..at + 2].copy_from_slice(&(4 + 4 * i as u16).to_le_bytes());
            }
            let table = out.len();
            out.extend((slots as u32).to_le_bytes());
            out.resize(table + size, 0);
            for (i, (_, value)) in fields.iter().enumerate() {
                let at = table + 4 + 4 * i;
                match value {
                    Node::Byte(x) => out[at] = *x,
                    Node::Word(x) => out[at..at + 4].copy_from_slice(&x.to_le_bytes()),
                    _ => link(out, at, value),
                }
            }
            table
        }
        Node::Tables(nodes) => {
            let start = out.len();
            out.extend((nodes.len() as u32).to_le_bytes());
            out.resize(start + 4 + 4 * nodes.len(), 0);
            for (i, node) in nodes.iter().enumerate() {
                link(out, start + 4 + 4 * i, node);
            }
            start
        }
        Node::Bytes(bytes) => {
            let start = out.len();
            out.extend((bytes.len() as u32).to_le_bytes());
            out.extend(bytes);
            out.push(0);
            start
        }
        Node::Words(words) => {
            let start = out.len();
            out.extend((words.len() as u32).to_le_bytes());
            words.iter().for_each(|x| out.extend(x.to_le_bytes()));
            start
        }
        Node::Longs(longs) => {
            let start = out.len();
            out.extend((longs.len() as u32).to_le_bytes());
            longs.iter().for_each(|x| out.extend(x.to_le_bytes()));
            start
        }
        Node::Byte(_) | Node::Word(_) => panic!("a number has no place of its own"),
    }
}

/// A network in the making: tensors with their buffers, and operators.
struct Net {
    tensors: Vec<Node>,
    buffers: Vec<Node>,
    codes: Vec<Node>,
    ops: Vec<Node>,
    seed: u32,
}

impl Net {
    fn new() -> Net {
        Net {
            tensors: vec![],
            buffers: vec![Node::Table(vec![])],
            codes: vec![],
            ops: vec![],
            seed: 1,
        }
    }

    fn tensor(&mut self, shape: &[u32], values: Option<Vec<f32>>) -> u32 {
        let buffer = match values {
            None => 0,
            Some(values) => {
                let bytes = values.iter().flat_map(|x| x.to_le_bytes()).collect();
                self.buffers.push(Node::Table(vec![(4, Node::Bytes(bytes))]));
                self.buffers.len() as u32 - 1
            }
        };
        self.tensors.push(Node::Table(vec![
            (4, Node::Words(shape.to_vec())),
            (8, Node::Word(buffer)),
        ]));
        self.tensors.len() as u32 - 1
    }

    fn quantized(&mut self, shape: &[u32], bytes: Vec<u8>, scale: f32, zero: i64) -> u32 {
        self.buffers.push(Node::Table(vec![(4, Node::Bytes(bytes))]));
        let quantization = Node::Table(vec![
            (8, Node::Words(vec![scale.to_bits()])),
            (10, Node::Longs(vec![zero as u64])),
        ]);
        self.tensors.push(Node::Table(vec![
            (4, Node::Words(shape.to_vec())),
            (6, Node::Byte(3)),
            (8, Node::Word(self.buffers.len() as u32 - 1)),
            (12, quantization),
        ]));
        self.tensors.len() as u32 - 1
    }

    /// A tensor of small varied numbers.
    fn varied(&mut self, shape: &[u32]) -> u32 {
        let len = shape.iter().product::<u32>();
        let values = (0..len)
            .map(|_| {
                self.seed = self.seed.wrapping_mul(1_664_525).wrapping_add(1_013_904_223);
                (self.seed >> 16) as f32 / 32_768.0 - 1.0
            })
            .collect();
        self.tensor(shape, Some(values))
    }

    fn op(&mut self, code: Node, inputs: Vec<u32>, output: u32, rest: Vec<(usize, Node)>) {
        self.codes.push(code);
        let mut fields = vec![
            (4, Node::Word(self.codes.len() as u32 - 1)),
            (6, Node::Words(inputs)),
            (8, Node::Words(vec![output])),
        ];
        fields.extend(rest);
        self.ops.push(Node::Table(fields));
    }

    fn bytes(&self, input: u32, output: u32) -> Vec<u8> {
        let graph = Node::Table(vec![
            (4, Node::Tables(self.tensors.clone())),
            (6, Node::Words(vec![input])),
            (8, Node::Words(vec![output])),
            (10, Node::Tables(self.ops.clone())),
        ]);
        let model = Node::Table(vec![
            (6, Node::Tables(self.codes.clone())),
            (8, Node::Tables(vec![graph])),
            (12, Node::Tables(self.buffers.clone())),
        ]);
        let mut out = b"\0\0\0\0TFL3".to_vec();
        link(&mut out, 0, &model);
        out
    }
}

/// One layer of either kind, then the head. Its states come without a buffer, its
/// first input kernel in eight bits.
fn network(diagonal: bool, hidden: u32, classes: u32) -> Vec<u8> {
    let mut net = Net::new();
    let input = net.tensor(&[1, 1, 10], None);
    let mut slots = vec![u32::MAX; if diagonal { 29 } else { 48 }];
    slots[0] = input;
    let places = if diagonal {
        [(1, 9, 25), (13, 21, 27)]
    } else {
        [(1, 12, 35), (18, 29, 37)]
    };
    for (start, bias, state) in places {
        for gate in 0..4 {
            slots[start + gate] = if gate == 0 {
                let bytes = (0..hidden * 10).map(|i| (i * 83 % 256) as u8).collect();
                net.quantized(&[hidden, 10], bytes, 0.0078125, 0)
            } else {
                net.varied(&[hidden, 10])
            };
            slots[start + 4 + gate] = if diagonal {
                net.varied(&[hidden])
            } else {
                net.varied(&[hidden, hidden])
            };
            slots[bias + gate] = net.varied(&[hidden]);
        }
        slots[state] = net.tensor(&[1, hidden], None);
        slots[state + 1] = net.tensor(&[1, hidden], None);
    }
    let middle = net.tensor(&[1, 1, 2 * hidden], None);
    if diagonal {
        let code = Node::Table(vec![(
            6,
            Node::Bytes(b"bidirectional_sequence_indylstm".to_vec()),
        )]);
        let options = Node::Bytes(vec![0, 0, 72, 66, 4, 1, 1, 0]);
        net.op(code, slots, middle, vec![(14, options)]);
    } else {
        let options = Node::Table(vec![
            (4, Node::Byte(4)),
            (6, Node::Word(50.0f32.to_bits())),
            (10, Node::Byte(1)),
        ]);
        let code = Node::Table(vec![(4, Node::Byte(52))]);
        net.op(code, slots, middle, vec![(10, Node::Byte(69)), (12, options)]);
    }
    let weights = net.varied(&[classes, 2 * hidden]);
    let bias = net.tensor(&[classes], Some(vec![0.0; classes as usize]));
    let output = net.tensor(&[1, 1, classes], None);
    let code = Node::Table(vec![(4, Node::Byte(9))]);
    let options = Node::Table(vec![]);
    net.op(
        code,
        vec![middle, weights, bias],
        output,
        vec![(10, Node::Byte(8)), (12, options)],
    );
    net.bytes(input, output)
}

fn varint(mut n: u64) -> Vec<u8> {
    let mut out = Vec::new();
    while n >= 128 {
        out.push(n as u8 | 128);
        n >>= 7;
    }
    out.push(n as u8);
    out
}

fn message(field: u32, body: &[u8]) -> Vec<u8> {
    let mut out = varint((u64::from(field) << 3) | 2);
    out.extend(varint(body.len() as u64));
    out.extend(body);
    out
}

fn number(field: u32, value: u64) -> Vec<u8> {
    let mut out = varint(u64::from(field) << 3);
    out.extend(varint(value));
    out
}

fn double(field: u32, value: F64) -> Vec<u8> {
    let mut out = varint((u64::from(field) << 3) | 1);
    out.extend(value.bits.to_le_bytes());
    out
}

fn spec(charset: &[&str], features: u64, decoder: &[u8]) -> Vec<u8> {
    let c = CurveSettings::handwriting();
    let mut curve = Vec::new();
    for (field, value) in [
        (1, c.tol1),
        (2, c.tol2),
        (3, c.tol3),
        (4, c.max_arc_ratio),
        (5, c.split_cos_threshold),
    ] {
        curve.extend(double(field, value));
    }
    for (field, value) in [
        (6, c.generate_second_order_features),
        (7, c.use_angles_ratios),
        (9, c.interpolate_time),
        (10, c.normalize_outputs_to_zero_one),
    ] {
        curve.extend(number(field, u64::from(value)));
    }
    let mut interval = vec![0x0d];
    interval.extend(20.0f32.to_le_bytes());
    let mut pipeline = Vec::new();
    for step in [
        message(6, &interval),
        message(5, &[]),
        message(2, &number(2, 1)),
        message(11, &[]),
    ] {
        pipeline.extend(message(1, &step));
    }
    let mut processor = Vec::new();
    for symbol in charset {
        processor.extend(message(1, symbol.as_bytes()));
    }
    processor.extend(message(6, &curve));
    processor.extend(number(7, features));
    processor.extend(message(12, &pipeline));
    let mut extension = message(2, &processor);
    extension.extend(message(4, decoder));
    message(158518157, &extension)
}

fn ctc_spec(charset: &[&str]) -> Vec<u8> {
    spec(charset, 10, &message(6, &[]))
}

/// A word model of four states over labels 2 and 4, with 3 by a fallback weight.
fn word_model() -> Vec<u8> {
    let mut body = Vec::new();
    for count in [4u64, 4, 2] {
        body.extend(count.to_le_bytes());
    }
    for bitmap in [0b0001_1101u64, 0b0101_0110, 0b1001] {
        body.extend(bitmap.to_le_bytes());
    }
    for word in [65535u16, 0, 1, 2, 0, 1, 2, 1, 2] {
        body.extend(word.to_le_bytes());
    }
    body.extend([254, 6, 3, 1, 0, 4, 2, 4, 8, 2, 1, 0]);
    let mut data = 0x7eb2_fdd6u32.to_le_bytes().to_vec();
    for text in [b"compact_lm".as_slice(), b"standard".as_slice()] {
        data.extend((text.len() as i32).to_le_bytes());
        data.extend(text);
    }
    data.extend(2i32.to_le_bytes());
    data.extend(4i32.to_le_bytes());
    for field in [0u64, 1, 4, 10] {
        data.extend(field.to_le_bytes());
    }
    data.extend(5u32.to_le_bytes());
    data.extend(3u32.to_le_bytes());
    data.push(1);
    data.extend(0.25f32.to_le_bytes());
    data.extend((body.len() as u64).to_le_bytes());
    data.resize(data.len().next_multiple_of(16), 0);
    data.extend(body);
    data.resize(data.len().next_multiple_of(8), 0);
    data.extend(0b10101u64.to_le_bytes());
    data.extend([254, 20, 254]);
    data
}

/// What an error says.
fn text(error: Error) -> String {
    match error {
        Error::Format(m) | Error::Unsupported(m) | Error::Invalid(m) => m,
        Error::NoSuchLanguage(tag) => tag,
    }
}

fn ink() -> Vec<Stroke> {
    let angle = |i: usize| i as f64 * 0.35;
    let fs = |values: Vec<f64>| values.into_iter().map(f).collect::<Vec<_>>();
    vec![
        Stroke::new(
            fs((0..18).map(|i| 40.0 * angle(i).cos()).collect()),
            fs((0..18).map(|i| 30.0 * angle(i).sin() + i as f64).collect()),
            fs((0..18).map(|i| 100.0 + 15.0 * i as f64).collect()),
        ),
        Stroke::new(
            fs((0..8).map(|i| 60.0 + i as f64).collect()),
            fs((0..8).map(|i| 5.0 * i as f64).collect()),
            fs((0..8).map(|i| 500.0 + 15.0 * i as f64).collect()),
        ),
    ]
}

#[test]
fn networks_of_both_kinds_load() {
    for diagonal in [true, false] {
        let weights = load_weights(&network(diagonal, 3, 4)).unwrap();
        assert_eq!((weights.input_size, weights.num_classes), (10, 4));
        assert_eq!(weights.layers.len(), 1);
        let layer = &weights.layers[0];
        assert_eq!(w(layer.cell_clip), 50.0);
        for direction in [&layer.forward, &layer.backward] {
            assert_eq!((direction.hidden, direction.input), (3, 10));
            assert_eq!(direction.diagonal, diagonal);
            assert_eq!(direction.input_kernels.len(), 4 * 3 * 10);
            // The first gate's kernel, from eight bits: 83 and -90 steps of 1/128.
            assert_eq!(w(direction.input_kernels[0]), 0.0);
            assert_eq!(w(direction.input_kernels[1]), 0.6484375);
            assert_eq!(w(direction.input_kernels[2]), -0.703125);
            let recurrent = if diagonal { 4 * 3 } else { 4 * 9 };
            assert_eq!(direction.recurrent_kernels.len(), recurrent);
            assert_eq!(direction.initial_cell, vec![g(0.0); 3]);
            assert_eq!(direction.initial_activation, vec![g(0.0); 3]);
        }
        assert_eq!(weights.fc_weights.len(), 4 * 6);
        let finite = |values: &[F32]| values.iter().all(|x| w(*x).is_finite());
        assert!(finite(&weights.fc_weights) && finite(&layer.forward.input_kernels));
        assert_eq!(weights.fc_bias, vec![g(0.0); 4]);
    }
}

#[test]
fn networks_cut_short_are_refused() {
    let bytes = network(true, 1, 2);
    for end in 0..bytes.len() - 4 {
        assert!(matches!(load_weights(&bytes[..end]), Err(Error::Format(_))), "{end}");
    }
}

#[test]
fn a_pack_loads_and_reads_ink() {
    let net = network(true, 3, 3);
    let rec = Recognizer::load(&ctc_spec(&["a", " "]), &net, None).unwrap();
    assert_eq!(rec.spec.curve_settings, CurveSettings::handwriting());
    assert_eq!(rec.mapping.net_to_fst, vec![2, 3, 1]);
    assert_eq!(rec.alphabet.texts, ["a", " ", "<reserved>"]);
    assert_eq!(rec.alphabet.blank, 2);
    assert!(rec.lm.is_none() && rec.char_classes.is_none());
    assert_eq!(rec.settings, DecoderSettings::default());
    let (log, net, geometry) = (functions(), squash(), num());
    let tools = Toolbox { log: &log, net: &net, geometry: &geometry };

    let features = rec.features(&ink(), &geometry).unwrap();
    let expected = extract(&ink(), &rec.spec.curve_settings, &rec.spec.pipeline, &geometry);
    assert_eq!(features, expected.unwrap());
    let logits = rec.logits(&ink(), &tools).unwrap();
    assert_eq!(logits, forward(&rec.weights, &features, &net).unwrap());
    let greedy = rec.recognize_greedy(&ink(), &tools).unwrap();
    let best = rec.recognize(&ink(), 5, &tools).unwrap();
    assert_eq!(
        best,
        rec.recognize_with(&ink(), 5, &rec.settings, &tools).unwrap()
    );
    assert_eq!(
        best,
        rec.decode_logits(&logits, 5, &rec.settings, &log).unwrap()
    );
    assert!(!best.is_empty() && best.len() <= 5);
    for pair in best.windows(2) {
        assert!(v(pair[0].score) >= v(pair[1].score));
    }
    // One path cannot outweigh all paths that read the same.
    let neutral = DecoderSettings {
        insertion_bonus: f(0.0),
        ..rec.settings
    };
    let all = rec.recognize_with(&ink(), 1000, &neutral, &tools).unwrap();
    let same = all.iter().find(|c| c.text == greedy.text).unwrap();
    assert!(v(same.score) >= v(greedy.score) - 1e-9);
}

#[test]
fn packs_that_do_not_fit_are_refused() {
    let net = network(true, 2, 3);
    let error = |spec: &[u8], fst: Option<&[u8]>| match Recognizer::load(spec, &net, fst) {
        Err(error) => text(error),
        Ok(_) => panic!("expected an error"),
    };
    assert_eq!(
        error(&ctc_spec(&["a"]), None),
        "expected 2 CTC outputs for 1 characters, got 3"
    );
    assert_eq!(
        error(&spec(&["a", "b"], 10, &[]), None),
        "this pack is a gesture/classifier model, not a CTC recognizer"
    );
    let decoder = message(6, &[]);
    assert_eq!(
        error(&spec(&["a", "b"], 7, &decoder), None),
        "recospec expects 7 input features; the Bezier encoder produces 10"
    );
    assert_eq!(
        error(&ctc_spec(&["a", "b"]), Some(&[1, 2, 3])),
        "truncated FST at byte 0 (need 4 bytes)"
    );
    assert!(Recognizer::load(&ctc_spec(&["a", "b"]), &net[..40], None).is_err());
    assert!(Recognizer::load(&[], &net, None).is_err());
}

#[test]
fn empty_ink_reads_as_nothing() {
    let net = network(false, 2, 3);
    let rec = Recognizer::load(&ctc_spec(&["a", "b"]), &net, None).unwrap();
    let (log, net, geometry) = (functions(), squash(), num());
    let tools = Toolbox { log: &log, net: &net, geometry: &geometry };
    let greedy = rec.recognize_greedy(&[], &tools).unwrap();
    assert_eq!((greedy.text.as_str(), v(greedy.score)), ("", 0.0));
    assert_eq!(rec.logits(&[], &tools).unwrap().rows(), 0);
}

#[test]
fn word_models_and_character_classes_join_the_decoder() {
    let mut weight = message(1, b"up");
    weight.extend(double(2, f(0.5)));
    let mut classes = message(2, &message(1, &weight));
    classes.extend(message(4, b"up A\nlow a\n"));
    let mut decoder = message(1, &number(1, 7));
    decoder.extend(message(9, &classes));
    let spec = spec(&["a", "A", "b"], 10, &message(6, &decoder));
    let model = word_model();
    let rec = Recognizer::load(&spec, &network(true, 3, 4), Some(&model)).unwrap();
    assert_eq!(rec.settings.beam_width, 7);
    let scorer = rec.char_classes.as_ref().unwrap();
    assert_eq!(v(scorer.score_for_label(3)), 0.5);
    assert_eq!(v(scorer.score_for_label(2)), 0.0);
    let lm = rec.lm.as_ref().unwrap();
    assert_eq!(lm.fst.num_arcs(), 9);

    let (log, net, geometry) = (functions(), squash(), num());
    let tools = Toolbox { log: &log, net: &net, geometry: &geometry };
    let settings = DecoderSettings {
        beam_width: 1000,
        lm_weight: f(1.0),
        insertion_bonus: f(0.0),
        char_class_weight: f(2.0),
        acoustic_scale: f(1.0),
    };
    let silent = DecoderSettings { lm_weight: f(0.0), char_class_weight: f(0.0), ..settings };
    let scored = rec.recognize_with(&ink(), 1000, &settings, &tools).unwrap();
    let unscored = rec.recognize_with(&ink(), 1000, &silent, &tools).unwrap();
    // Each candidate costs what the word model charges for its labels and its end,
    // less twice its character classes.
    let mut checked = 0;
    for candidate in &scored {
        let mut state = lm.start();
        let mut change = 0.0;
        for symbol in candidate.text.chars() {
            let label = match symbol {
                'a' => 2,
                'A' => 3,
                _ => 4,
            };
            let (next, cost) = lm.advance(state, label).unwrap();
            change += 2.0 * v(scorer.score_for_label(label)) - v(cost);
            state = next;
        }
        change -= v(lm.finish(state));
        let plain = unscored.iter().find(|c| c.text == candidate.text).unwrap();
        assert!((v(candidate.score) - v(plain.score) - change).abs() < 1e-9);
        checked += 1;
    }
    assert!(checked > 1);
}
