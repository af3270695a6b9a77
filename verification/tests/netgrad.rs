//! Numerical checks of backpropagation to the features.

use mlkit_ink::float::{F32, F64};
use mlkit_ink::mat::Mat;
use mlkit_ink::net::{forward, Squash};
use mlkit_ink::netgrad::{
    features_gradient, forward_with_activations, gradient_if, saved_gradient, Activations,
};
use mlkit_ink::tflite::{DirectionWeights, LayerWeights, NetworkWeights, GATES};
use mlkit_ink::Error;

type Curve = fn(F32) -> F32;

fn g(x: f32) -> F32 {
    F32 { bits: x.to_bits() }
}

fn w(x: F32) -> f32 {
    f32::from_bits(x.bits)
}

fn gs(xs: &[f32]) -> Vec<F32> {
    xs.iter().map(|x| g(*x)).collect()
}

fn exp(x: F32) -> F32 {
    g(w(x).exp())
}

fn tanh(x: F32) -> F32 {
    g(w(x).tanh())
}

fn squash() -> Squash<Curve, Curve> {
    Squash { exp, tanh }
}

fn v(x: F64) -> f64 {
    f64::from_bits(x.bits)
}

fn fs(xs: &[f64]) -> Vec<F64> {
    xs.iter().map(|x| F64 { bits: x.to_bits() }).collect()
}

fn linear() -> NetworkWeights {
    NetworkWeights {
        layers: vec![],
        fc_weights: gs(&[1.0, 2.0, -3.0, 4.0]),
        fc_bias: gs(&[0.5, -0.25]),
        input_size: 2,
        num_classes: 2,
    }
}

fn back(weights: &NetworkWeights, saved: &Activations<'_>, dlogits: &[f64]) -> Vec<f64> {
    let result = features_gradient(weights, saved, &fs(dlogits)).unwrap();
    assert_eq!(result, saved_gradient(saved, &fs(dlogits)).unwrap());
    result.iter().map(|x| v(*x)).collect()
}

fn record<'w>(weights: &'w NetworkWeights, features: &Mat) -> (Mat, Activations<'w>) {
    forward_with_activations(weights, features, &squash()).unwrap()
}

fn fails(weights: &NetworkWeights, features: &Mat) -> bool {
    forward_with_activations(weights, features, &squash()).is_err()
}

#[test]
fn linear_head_and_empty_sequence() {
    let weights = linear();
    let features = Mat::from_vec(2, 2, gs(&[1.0, 2.0, 3.0, 4.0]));
    let (logits, saved) = record(&weights, &features);
    assert_eq!(logits, forward(&weights, &features, &squash()).unwrap());
    assert_eq!(
        back(&weights, &saved, &[2.0, 3.0, -1.0, 2.0]),
        [-7.0, 16.0, -7.0, 6.0]
    );
    let (logits, saved) = record(&weights, &Mat::zeros(0, 2));
    assert_eq!(logits, Mat::zeros(0, 2));
    assert!(back(&weights, &saved, &[]).is_empty());
}

#[test]
fn invalid_inputs_and_mismatched_activations_return_errors() {
    let weights = linear();
    assert!(fails(&weights, &Mat::zeros(1, 3)));
    for value in [f32::NAN, f32::INFINITY, f32::NEG_INFINITY] {
        assert!(fails(&weights, &Mat::from_vec(1, 2, gs(&[value, 0.0]))));
    }
    let (_, saved) = record(&weights, &Mat::zeros(1, 2));
    assert!(features_gradient(&weights, &saved, &fs(&[0.0])).is_err());
    for value in [f64::NAN, f64::INFINITY, f64::NEG_INFINITY] {
        assert!(features_gradient(&weights, &saved, &fs(&[value, 0.0])).is_err());
    }
    assert!(features_gradient(&weights, &saved, &fs(&[f64::MAX, f64::MAX])).is_err());
    assert!(features_gradient(&weights.clone(), &saved, &fs(&[0.0, 0.0])).is_err());
    assert_eq!(
        gradient_if(false, &saved, &fs(&[0.0])),
        Err(Error::Invalid(
            "activations belong to a different weight object".to_string()
        ))
    );
    assert_eq!(
        gradient_if(true, &saved, &fs(&[0.0])),
        Err(Error::Invalid(
            "expected 2 logit gradients, got 1".to_string()
        ))
    );
    assert_eq!(gradient_if(true, &saved, &fs(&[1.0, 0.0])), Ok(fs(&[1.0, 2.0])));
    let mut malformed = linear();
    malformed.fc_weights.pop();
    assert!(fails(&malformed, &Mat::zeros(0, 2)));
}

// A local, fixed-seed generator keeps these tests reproducible without a rand
// dependency. Use nonsymmetric weights and nonzero initial states so swapped
// gates, transposes, and accidentally discarded recurrent paths are visible.
struct Random(u64);

impl Random {
    fn value(&mut self) -> f32 {
        self.0 ^= self.0 << 13;
        self.0 ^= self.0 >> 7;
        self.0 ^= self.0 << 17;
        ((self.0 >> 40) as f32 / (1u32 << 24) as f32) * 2.0 - 1.0
    }

    fn values(&mut self, len: usize, scale: f32) -> Vec<f32> {
        (0..len).map(|_| scale * self.value()).collect()
    }

    fn unit_vector(&mut self, len: usize) -> Vec<f64> {
        let mut values: Vec<f64> = self.values(len, 1.0).into_iter().map(f64::from).collect();
        let norm = dot(&values, &values).sqrt();
        for value in &mut values {
            *value /= norm;
        }
        values
    }

    fn direction(&mut self, input: usize, hidden: usize, diagonal: bool) -> DirectionWeights {
        DirectionWeights {
            input_kernels: gs(&self.values(GATES * hidden * input, 0.6)),
            recurrent_kernels: gs(&self.values(GATES * hidden * if diagonal { 1 } else { hidden }, 0.5)),
            diagonal,
            biases: gs(&self.values(GATES * hidden, 0.3)),
            initial_activation: gs(&self.values(hidden, 0.2)),
            initial_cell: gs(&self.values(hidden, 0.2)),
            hidden,
            input,
        }
    }

    fn network(&mut self, depth: usize, diagonal: bool) -> NetworkWeights {
        let mut layers = Vec::new();
        let mut input = 3;
        for _ in 0..depth {
            // Unequal direction widths also exercise the concatenation offset.
            layers.push(LayerWeights {
                forward: self.direction(input, 2, diagonal),
                backward: self.direction(input, 3, diagonal),
                cell_clip: g(0.0),
                custom_options: vec![],
            });
            input = 5;
        }
        NetworkWeights {
            layers,
            fc_weights: gs(&self.values(4 * input, 0.7)),
            fc_bias: gs(&self.values(4, 0.2)),
            input_size: 3,
            num_classes: 4,
        }
    }
}

fn dot(a: &[f64], b: &[f64]) -> f64 {
    assert_eq!(a.len(), b.len());
    a.iter().zip(b).map(|(a, b)| a * b).sum()
}

fn weighted_logits(logits: &Mat, weights: &[f64]) -> f64 {
    assert_eq!(logits.as_slice().len(), weights.len());
    logits
        .as_slice()
        .iter()
        .zip(weights)
        .map(|(&value, weight)| f64::from(w(value)) * weight)
        .sum()
}

fn exact_forward<'w>(
    weights: &'w NetworkWeights,
    features: &Mat,
) -> (Mat, Activations<'w>) {
    let (logits, activations) = forward_with_activations(weights, features, &squash()).unwrap();
    let ordinary = forward(weights, features, &squash()).unwrap();
    assert_eq!(
        (logits.rows(), logits.cols()),
        (ordinary.rows(), ordinary.cols())
    );
    // Compare bits, not a tolerance (or float equality, which conflates +/-0).
    assert!(logits.as_slice().iter().all(|x| w(*x).is_finite()));
    assert_eq!(
        logits
            .as_slice()
            .iter()
            .map(|x| x.bits)
            .collect::<Vec<_>>(),
        ordinary
            .as_slice()
            .iter()
            .map(|x| x.bits)
            .collect::<Vec<_>>(),
        "recording activations must not change forward arithmetic"
    );
    (logits, activations)
}

fn every_feature_difference(
    weights: &NetworkWeights,
    features: &Mat,
    upstream: &[f64],
    name: &str,
) {
    let (_, activations) = exact_forward(weights, features);
    let analytic = back(weights, &activations, upstream);
    assert_eq!(analytic.len(), features.as_slice().len());
    assert!(analytic.iter().all(|v| v.is_finite()));
    let epsilon = 2e-3f32;
    for (index, &expected) in analytic.iter().enumerate() {
        let (row, col) = (index / features.cols(), index % features.cols());
        let value = w(features.get(row, col));
        let (plus, minus) = (value + epsilon, value - epsilon);
        let objective = |value: f32| {
            let mut moved = features.clone();
            moved.set(row, col, g(value));
            weighted_logits(&forward(weights, &moved, &squash()).unwrap(), upstream)
        };
        let (upper, lower) = (objective(plus), objective(minus));
        // Divide by the actual representable f32 displacement.
        let numerical = (upper - lower) / (f64::from(plus) - f64::from(minus));
        let error = (numerical - expected).abs();
        assert!(
            error <= 2e-5 + 3e-3 * expected.abs(),
            "{name} feature {index}: analytic={expected:.9e}, numerical={numerical:.9e}, epsilon={epsilon}, error={error:.9e}"
        );
    }
}

#[test]
fn synthetic_one_and_two_layers_match_every_feature_central_difference() {
    let mut random = Random(0x831c_409f_712a_568d);
    for diagonal in [true, false] {
        for depth in [1, 2] {
            let weights = random.network(depth, diagonal);
            let unchanged = weights.clone();
            let features = Mat::from_vec(5, 3, gs(&random.values(15, 0.7)));
            let upstream = random.unit_vector(5 * weights.num_classes);
            every_feature_difference(
                &weights,
                &features,
                &upstream,
                &format!("synthetic depth={depth} diagonal={diagonal}"),
            );
            assert_eq!(weights, unchanged, "backpropagation must not train weights");
        }
    }
}

fn reverse_rows(matrix: &Mat) -> Mat {
    Mat::from_rows(
        matrix.cols(),
        (0..matrix.rows()).rev().map(|t| matrix.row(t).to_vec()).collect(),
    )
}

#[test]
fn dense_backward_direction_restores_feature_gradient_time_order() {
    let mut random = Random(0x596a_a03e_6e8b_1171);
    let direction = random.direction(3, 2, false);
    let mut weights = NetworkWeights {
        layers: vec![LayerWeights {
            forward: direction.clone(),
            backward: direction,
            cell_clip: g(0.0),
            custom_options: vec![],
        }],
        fc_weights: gs(&[0.0, 0.0, 0.7, -0.4]),
        fc_bias: gs(&[0.1]),
        input_size: 3,
        num_classes: 1,
    };
    let features = Mat::from_vec(5, 3, gs(&random.values(15, 0.7)));
    let upstream = random.unit_vector(5);
    every_feature_difference(&weights, &features, &upstream, "isolated dense reverse");
    let (backward_logits, backward_cache) = exact_forward(&weights, &features);
    let backward_grad = back(&weights, &backward_cache, &upstream);

    // Select only the forward half of the very same layer, with both the input
    // and the upstream cotangent reversed. The gradients must reverse too.
    weights.fc_weights = gs(&[0.7, -0.4, 0.0, 0.0]);
    let (forward_logits, forward_cache) = exact_forward(&weights, &reverse_rows(&features));
    let reversed_upstream: Vec<f64> = upstream.iter().rev().copied().collect();
    let forward_grad =
        back(&weights, &forward_cache, &reversed_upstream);
    assert_eq!(backward_logits, reverse_rows(&forward_logits));
    for t in 0..features.rows() {
        for j in 0..features.cols() {
            assert_eq!(
                backward_grad[t * features.cols() + j],
                forward_grad[(features.rows() - 1 - t) * features.cols() + j]
            );
        }
    }
}

#[test]
fn clipped_cell_blocks_candidate_but_preserves_output_gate_and_its_recurrence() {
    for sign in [-1.0f32, 1.0] {
        for reverse in [false, true] {
            // Feature 0 enters only the candidate; feature 1 only the output
            // gate. Every raw cell is well beyond +/-0.1, away from the kink.
            let direction = DirectionWeights {
                input_kernels: gs(&[0.0, 0.0, 0.0, 0.0, 1.0, 0.0, 0.0, 1.0]),
                recurrent_kernels: gs(&[0.0, 0.0, 0.4, 0.7]),
                diagonal: true,
                biases: gs(&[1.0, 0.0, sign * 2.0, 0.0]),
                initial_activation: gs(&[0.1]),
                initial_cell: gs(&[0.0]),
                hidden: 1,
                input: 2,
            };
            let mut weights = NetworkWeights {
                layers: vec![LayerWeights {
                    forward: direction.clone(),
                    backward: direction,
                    cell_clip: g(0.1),
                    custom_options: vec![],
                }],
                fc_weights: if reverse {
                    gs(&[0.0, 1.0])
                } else {
                    gs(&[1.0, 0.0])
                },
                fc_bias: gs(&[0.0]),
                input_size: 2,
                num_classes: 1,
            };
            let one_step = Mat::from_vec(1, 2, gs(&[0.2, -0.3]));
            let (_, cache) = exact_forward(&weights, &one_step);
            let gradient = back(&weights, &cache, &[1.0]);
            let output_gate = 1.0 / (1.0 + (0.3f64 - 0.7 * 0.1).exp());
            let expected = (f64::from(sign) * 0.1).tanh() * output_gate * (1.0 - output_gate);
            assert_eq!(
                gradient[0], 0.0,
                "candidate derivative crosses a clipped cell"
            );
            assert!(
                (gradient[1] - expected).abs() < 1e-8,
                "output gate must survive clipping: {} vs {expected}",
                gradient[1]
            );
            assert!(gradient[1].abs() > 0.02);

            let features = Mat::from_vec(3, 2, gs(&[0.2, -0.3, -0.1, 0.4, 0.15, 0.1]));
            let upstream = if reverse {
                vec![1.0, 0.0, 0.0]
            } else {
                vec![0.0, 0.0, 1.0]
            };
            every_feature_difference(
                &weights,
                &features,
                &upstream,
                &format!("clipped sign={sign} reverse={reverse}"),
            );
            let (_, cache) = exact_forward(&weights, &features);
            let clipped = back(&weights, &cache, &upstream);
            for row in clipped.chunks(2) {
                assert_eq!(row[0], 0.0);
                assert!(
                    row[1].abs() > 1e-6,
                    "output-gate recurrence must cross clipped timesteps"
                );
            }
            weights.layers[0].cell_clip = g(0.0);
            let (_, cache) = exact_forward(&weights, &features);
            let unclipped = back(&weights, &cache, &upstream);
            assert!(
                unclipped.chunks(2).all(|row| row[0].abs() > 1e-5),
                "disabling clipping must restore the candidate path"
            );
        }
    }
}
