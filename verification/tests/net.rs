//! The network.

use mlkit_ink::float::F32;
use mlkit_ink::mat::Mat;
use mlkit_ink::net::{bidirectional, direction, forward, Squash};
use mlkit_ink::tflite::{DirectionWeights, LayerWeights, NetworkWeights};

type Curve = fn(F32) -> F32;

fn g(x: f32) -> F32 {
    F32 { bits: x.to_bits() }
}

fn w(x: F32) -> f32 {
    f32::from_bits(x.bits)
}

fn gs(xs: &[f32]) -> Vec<F32> {
    xs.iter().map(|x| g(*x)).collect()
}

fn exp(x: F32) -> F32 {
    g(w(x).exp())
}

fn tanh(x: F32) -> F32 {
    g(w(x).tanh())
}

fn squash() -> Squash<Curve, Curve> {
    Squash { exp, tanh }
}

fn sigmoid(x: f32) -> f32 {
    w(squash().sigmoid(g(x)))
}

fn tiny() -> DirectionWeights {
    DirectionWeights {
        input_kernels: gs(&[0.0, 0.0, 1.0, 0.0]),
        recurrent_kernels: gs(&[0.0; 4]),
        diagonal: true,
        biases: gs(&[0.0; 4]),
        initial_activation: gs(&[0.0]),
        initial_cell: gs(&[0.0]),
        hidden: 1,
        input: 1,
    }
}

fn close(actual: f32, expected: f32) {
    assert!(
        (actual - expected).abs() <= 2e-7,
        "got {actual}, expected {expected}"
    );
}

#[test]
fn extreme_sigmoid() {
    for x in [
        f32::MIN,
        -1000.0,
        -100.0,
        -50.0,
        0.0,
        50.0,
        100.0,
        1000.0,
        f32::MAX,
    ] {
        let y = sigmoid(x);
        assert!(
            y.is_finite() && (0.0..=1.0).contains(&y),
            "sigmoid({x}) = {y}"
        );
    }
    assert_eq!(sigmoid(f32::MIN), 0.0);
    assert_eq!(sigmoid(f32::MAX), 1.0);
    assert_eq!(sigmoid(0.0), 0.5);
    assert!(sigmoid(-100.0) > 0.0, "do not flush subnormals");
    assert_eq!(sigmoid(f32::NEG_INFINITY), 0.0);
    assert_eq!(sigmoid(f32::INFINITY), 1.0);
    assert!(sigmoid(f32::NAN).is_nan());
}

#[test]
fn sigmoid_is_monotone_symmetric_and_matches_known_values() {
    close(sigmoid(1.098_612_3), 0.75);
    close(sigmoid(-1.098_612_3), 0.25);
    close(sigmoid(1.0), 0.731_058_6);
    close(sigmoid(-1.0), 0.268_941_43);
    let mut previous = 0.0;
    for i in -12_000..=12_000 {
        let x = i as f32 / 1000.0;
        let value = sigmoid(x);
        assert!(value >= previous, "sigmoid is not monotone at {x}");
        close(value + sigmoid(-x), 1.0);
        previous = value;
    }
}

#[test]
fn hand_computed_one_step_and_clipping() {
    let mut weights = tiny();
    weights.initial_cell[0] = g(0.25);
    weights.initial_activation[0] = g(0.75);
    // tanh(atanh(0.5)) = 0.5; i = f = o = 0.5.
    // c = 0.5 * 0.25 + 0.5 * 0.5 = 0.375; h = tanh(c)/2.
    let x = Mat::from_vec(1, 1, gs(&[0.549_306_15]));
    close(
        w(direction(&x, &weights, g(0.0), false, &squash()).unwrap().get(0, 0)),
        0.179_178_7,
    );
    // Clip the cell, not the output: h = tanh(0.1)/2.
    close(
        w(direction(&x, &weights, g(0.1), false, &squash()).unwrap().get(0, 0)),
        0.049_833_998,
    );
    let before = weights.clone();
    assert_eq!(
        direction(&x, &weights, g(0.0), false, &squash()).unwrap(),
        direction(&x, &weights, g(0.0), false, &squash()).unwrap()
    );
    assert_eq!(weights, before);
}

#[test]
fn reverse_restores_time_and_bidirectional_concatenates_hidden() {
    let mut weights = tiny();
    weights.recurrent_kernels[2] = g(0.5);
    let x = Mat::from_vec(3, 1, gs(&[0.2, -0.4, 0.8]));
    let reversed = Mat::from_vec(3, 1, gs(&[0.8, -0.4, 0.2]));
    let backward = direction(&x, &weights, g(0.0), true, &squash()).unwrap();
    let reference = direction(&reversed, &weights, g(0.0), false, &squash()).unwrap();
    let f = direction(&x, &weights, g(0.0), false, &squash()).unwrap();
    let layer = LayerWeights {
        forward: weights.clone(),
        backward: weights,
        cell_clip: g(0.0),
        custom_options: vec![],
    };
    let both = bidirectional(&x, &layer, &squash()).unwrap();
    for t in 0..3 {
        assert_eq!(backward.get(t, 0), reference.get(2 - t, 0));
        assert_eq!(both.row(t), &[f.get(t, 0), backward.get(t, 0)]);
    }
    assert_ne!(f, backward);
}

#[test]
fn full_recurrence_uses_previous_state_and_row_major_gates() {
    let mut weights = DirectionWeights {
        input_kernels: gs(&[0.0; 8]),
        recurrent_kernels: gs(&[0.0; 16]),
        diagonal: false,
        biases: gs(&[0.0; 8]),
        initial_activation: gs(&[0.25, -0.5]),
        initial_cell: gs(&[0.0; 2]),
        hidden: 2,
        input: 1,
    };
    // Candidate rows [0, 1] and [2, 0] mix the OTHER previous unit.
    weights.recurrent_kernels[9] = g(1.0);
    weights.recurrent_kernels[10] = g(2.0);
    let x = Mat::zeros(2, 1);
    let actual = direction(&x, &weights, g(0.0), false, &squash()).unwrap();
    let mut h: [f32; 2] = [0.25, -0.5];
    let mut c: [f32; 2] = [0.0; 2];
    for t in 0..2 {
        let candidates = [h[1].tanh(), (2.0 * h[0]).tanh()];
        for j in 0..2 {
            c[j] = 0.5 * c[j] + 0.5 * candidates[j];
            h[j] = 0.5 * c[j].tanh();
            close(w(actual.get(t, j)), h[j]);
        }
    }
}

#[test]
fn diagonal_and_full_recurrence_agree() {
    let diagonal = DirectionWeights {
        input_kernels: gs(&[0.2, -0.1, 0.3, 0.4, -0.5, 0.6, 0.7, -0.8]),
        recurrent_kernels: gs(&[0.2, -0.3, 0.4, 0.5, -0.6, 0.7, 0.8, -0.9]),
        diagonal: true,
        biases: gs(&[0.1; 8]),
        initial_activation: gs(&[0.75, -0.25]),
        initial_cell: gs(&[-0.2, 0.3]),
        hidden: 2,
        input: 1,
    };
    let mut full = diagonal.clone();
    full.diagonal = false;
    full.recurrent_kernels = gs(&[0.0; 16]);
    for row in 0..8 {
        full.recurrent_kernels[row * 2 + row % 2] = diagonal.recurrent_kernels[row];
    }
    let x = Mat::from_vec(3, 1, gs(&[0.3, 0.8, -0.7]));
    for reverse in [false, true] {
        assert_eq!(
            direction(&x, &diagonal, g(0.0), reverse, &squash()).unwrap(),
            direction(&x, &full, g(0.0), reverse, &squash()).unwrap()
        );
    }
}

#[test]
fn forward_stacks_layers_and_leaves_logits_unnormalized() {
    let first = LayerWeights {
        forward: tiny(),
        backward: tiny(),
        cell_clip: g(0.0),
        custom_options: vec![],
    };
    let mut second_direction = tiny();
    second_direction.input = 2;
    second_direction.input_kernels = gs(&[0.0, 0.0, 0.0, 0.0, 1.0, -0.5, 0.0, 0.0]);
    let second = LayerWeights {
        forward: second_direction.clone(),
        backward: second_direction,
        cell_clip: g(0.0),
        custom_options: vec![],
    };
    let weights = NetworkWeights {
        layers: vec![first, second],
        fc_weights: gs(&[2.0, -3.0, 0.0, 0.0]),
        fc_bias: gs(&[1.0, -2.0]),
        input_size: 1,
        num_classes: 2,
    };
    let x = Mat::from_vec(2, 1, gs(&[0.2, 0.5]));
    let intermediate = bidirectional(&x, &weights.layers[0], &squash()).unwrap();
    let hidden = bidirectional(&intermediate, &weights.layers[1], &squash()).unwrap();
    let actual = forward(&weights, &x, &squash()).unwrap();
    for t in 0..2 {
        close(
            w(actual.get(t, 0)),
            2.0 * w(hidden.get(t, 0)) - 3.0 * w(hidden.get(t, 1)) + 1.0,
        );
        assert_eq!(w(actual.get(t, 1)), -2.0);
    }
    let empty = forward(&weights, &Mat::zeros(0, 1), &squash()).unwrap();
    assert_eq!((empty.rows(), empty.cols()), (0, 2));
}

#[test]
fn invalid_inputs_and_weights_return_errors() {
    let x = Mat::zeros(1, 1);
    for clip in [-1.0, f32::INFINITY, f32::NAN] {
        assert!(direction(&x, &tiny(), g(clip), false, &squash()).is_err());
    }
    for value in [f32::NAN, f32::INFINITY, f32::NEG_INFINITY] {
        let x = Mat::from_vec(1, 1, gs(&[value]));
        assert!(direction(&x, &tiny(), g(0.0), false, &squash()).is_err());
    }
    assert!(direction(&Mat::zeros(0, 2), &tiny(), g(0.0), false, &squash()).is_err());
    for field in 0..5 {
        let mut weights = tiny();
        match field {
            0 => weights.input_kernels.clear(),
            1 => weights.recurrent_kernels.clear(),
            2 => weights.biases.clear(),
            3 => weights.initial_activation.clear(),
            _ => weights.initial_cell.clear(),
        }
        assert!(direction(&x, &weights, g(0.0), false, &squash()).is_err());
    }
    let mut weights = tiny();
    weights.initial_cell[0] = g(f32::NAN);
    assert!(direction(&x, &weights, g(0.0), false, &squash()).is_err());
    weights.hidden = usize::MAX;
    assert!(direction(&x, &weights, g(0.0), false, &squash()).is_err());
    let mut network = NetworkWeights {
        layers: vec![],
        fc_weights: gs(&[2.0]),
        fc_bias: gs(&[1.0]),
        input_size: 1,
        num_classes: 1,
    };
    assert_eq!(forward(&network, &x, &squash()).unwrap().get(0, 0), g(1.0));
    network.fc_weights.clear();
    assert!(forward(&network, &Mat::zeros(0, 1), &squash()).is_err());
}
