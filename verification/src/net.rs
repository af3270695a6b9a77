//! Forward pass for the stacked bidirectional IndyLSTM.
//!
//! IndyLSTM is an LSTM whose recurrent weight matrix is *diagonal*, so the
//! recurrence is an elementwise product rather than a product with a matrix. Full
//! recurrent matrices use the same gate and state updates here.
use vstd::prelude::*;

use crate::error::{first_of, invalid, text_with2, Error, ErrorView};
use crate::float::F32;
use crate::logmath::{is_function, value_of};
use crate::mat::{flatten, lemma_cell, lemma_flatten, lemma_row_bounds, Mat, MatView};
use crate::text::dec;
use crate::tflite::{
    DirectionView, DirectionWeights, LayerView, LayerWeights, NetworkView, NetworkWeights, GATES,
};

verus! {

/// The transcendental functions of the network, in binary32.
#[derive(Debug, Clone, Copy)]
pub struct Squash<E, T> {
    /// The exponential.
    pub exp: E,
    /// The hyperbolic tangent.
    pub tanh: T,
}

/// [`Squash`] as mathematical functions.
pub struct NetMath {
    pub exp: spec_fn(F32) -> F32,
    pub tanh: spec_fn(F32) -> F32,
}

impl NetMath {
    /// The logistic function. `exp(-|x|)` cannot overflow, even for extreme finite
    /// arguments.
    pub open spec fn sigmoid(self, x: F32) -> F32 {
        let one = F32 { bits: 0x3f80_0000 };
        let e = (self.exp)(
            if x.negative() {
                x
            } else {
                x.opposite()
            },
        );
        if !x.nan() && x.rank() >= 0 {
            one.quotient(one.sum(e))
        } else {
            e.quotient(one.sum(e))
        }
    }
}

impl<E: Fn(F32) -> F32, T: Fn(F32) -> F32> Squash<E, T> {
    pub open spec fn wf(&self) -> bool {
        is_function(self.exp) && is_function(self.tanh)
    }

    pub open spec fn math(&self) -> NetMath {
        NetMath {
            exp: |x: F32| value_of(self.exp, x),
            tanh: |x: F32| value_of(self.tanh, x),
        }
    }

    fn tanh(&self, x: F32) -> (r: F32)
        requires
            self.wf(),
        ensures
            r == (self.math().tanh)(x),
    {
        (self.tanh)(x)
    }

    /// The logistic function.
    pub fn sigmoid(&self, x: F32) -> (r: F32)
        requires
            self.wf(),
        ensures
            r == self.math().sigmoid(x),
    {
        let one: F32 = F32 { bits: 0x3f80_0000 };
        let e: F32 = (self.exp)(
            if x.is_negative() {
                x
            } else {
                x.negated()
            },
        );
        if x.is_nonnegative() {
            one.over(one.plus(e))
        } else {
            e.over(one.plus(e))
        }
    }
}

/// The sum of products of the first `n` numbers, from the left.
pub open spec fn dot_of(a: Seq<F32>, b: Seq<F32>, n: nat) -> F32
    decreases n,
{
    if n == 0 {
        F32 { bits: 0 }
    } else {
        dot_of(a, b, (n - 1) as nat).sum(a[n - 1].product(b[n - 1]))
    }
}

fn dot(a: &[F32], b: &[F32]) -> (r: F32)
    requires
        a@.len() == b@.len(),
    ensures
        r == dot_of(a@, b@, a@.len()),
{
    let mut total: F32 = F32 { bits: 0 };
    let mut i: usize = 0;
    while i < a.len()
        invariant
            i <= a@.len(),
            a@.len() == b@.len(),
            total == dot_of(a@, b@, i as nat),
        decreases a@.len() - i,
    {
        total = total.plus(a[i].times(b[i]));
        i += 1;
    }
    total
}

/// One row of a kernel.
pub open spec fn kernel_row(kernels: Seq<F32>, cols: nat, j: int) -> Seq<F32> {
    kernels.subrange(j * cols, (j + 1) * cols)
}

/// A linear projection of a row: the bias is added after the dot product.
pub open spec fn projection(
    input: MatView,
    kernels: Seq<F32>,
    biases: Seq<F32>,
    t: int,
    j: int,
) -> F32 {
    dot_of(kernel_row(kernels, input.cols, j), input.row(t), input.cols).sum(biases[j])
}

fn project_cell(input: &Mat, kernels: &Vec<F32>, biases: &Vec<F32>, t: usize, j: usize) -> (r: F32)
    requires
        input@.wf(),
        t < input@.rows,
        j < biases@.len(),
        kernels@.len() == biases@.len() * input@.cols,
    ensures
        r == projection(input@, kernels@, biases@, t as int, j as int),
{
    let cols: usize = input.cols();
    let total: usize = kernels.len();
    proof {
        lemma_row_bounds(biases@.len(), cols as nat, j as int);
    }
    let start: usize = j * cols;
    let row: &[F32] = vstd::slice::slice_subrange(kernels.as_slice(), start, start + cols);
    dot(row, input.row(t)).plus(biases[j])
}

/// A product of dimensions that does not fit.
pub open spec fn too_large(rows: nat, cols: nat) -> ErrorView {
    ErrorView::Invalid(
        "matrix dimensions "@ + dec(rows) + "x"@ + dec(cols) + " overflow usize"@,
    )
}

pub(crate) fn size(rows: usize, cols: usize) -> (r: Result<usize, Error>)
    ensures
        match r {
            Ok(n) => n == rows * cols,
            Err(e) => rows * cols > usize::MAX && e@ == too_large(rows as nat, cols as nat),
        },
{
    match rows.checked_mul(cols) {
        Some(n) => Ok(n),
        None => Err(
            Error::Invalid(
                text_with2("matrix dimensions ", rows as u64, "x", cols as u64, " overflow usize"),
            ),
        ),
    }
}

/// Whether all numbers are finite.
pub open spec fn all_finite(v: Seq<F32>) -> bool {
    forall|i: int| 0 <= i < v.len() ==> (#[trigger] v[i]).finite()
}

pub(crate) fn are_finite(v: &[F32]) -> (r: bool)
    ensures
        r == all_finite(v@),
{
    let mut i: usize = 0;
    while i < v.len()
        invariant
            i <= v@.len(),
            forall|k: int| 0 <= k < i ==> (#[trigger] v@[k]).finite(),
        decreases v@.len() - i,
    {
        if !v[i].is_finite() {
            return false;
        }
        i += 1;
    }
    true
}

/// What is wrong with a tensor of so many values.
pub open spec fn tensor_problem(v: Seq<F32>, expected: nat, name: Seq<char>) -> Option<ErrorView> {
    if v.len() != expected {
        Some(
            ErrorView::Invalid(
                name + ": expected "@ + dec(expected) + " values, got "@ + dec(v.len()),
            ),
        )
    } else if !all_finite(v) {
        Some(ErrorView::Invalid(name + " must be finite"@))
    } else {
        None
    }
}

pub(crate) fn tensor(v: &Vec<F32>, expected: usize, name: &str) -> (r: Result<(), Error>)
    ensures
        match (r, tensor_problem(v@, expected as nat, name@)) {
            (Ok(_), None) => true,
            (Err(e), Some(g)) => e@ == g,
            _ => false,
        },
{
    if v.len() != expected {
        let mut s: String = String::from_str(name);
        s.append(": expected ");
        crate::text::push_dec(&mut s, expected as u64);
        s.append(" values, got ");
        crate::text::push_dec(&mut s, v.len() as u64);
        return Err(Error::Invalid(s));
    }
    if !are_finite(v.as_slice()) {
        return Err(Error::Invalid(String::from_str(name).concat(" must be finite")));
    }
    Ok(())
}

/// A product of dimensions that does not fit.
pub open spec fn size_problem(rows: nat, cols: nat) -> Option<ErrorView> {
    if rows * cols > usize::MAX {
        Some(too_large(rows, cols))
    } else {
        None
    }
}

/// What is wrong with features of a width.
pub open spec fn features_problem(features: MatView, input: usize) -> Option<ErrorView> {
    if features.cols != input {
        Some(
            ErrorView::Invalid(
                "expected features [T, "@ + dec(input as nat) + "], got [T, "@ + dec(
                    features.cols,
                ) + "]"@,
            ),
        )
    } else if !all_finite(features.data) {
        Some(ErrorView::Invalid("features must be finite"@))
    } else {
        None
    }
}

pub(crate) fn check_features(features: &Mat, input: usize) -> (r: Result<(), Error>)
    ensures
        match (r, features_problem(features@, input)) {
            (Ok(_), None) => true,
            (Err(e), Some(g)) => e@ == g,
            _ => false,
        },
{
    if features.cols() != input {
        return Err(
            Error::Invalid(
                text_with2(
                    "expected features [T, ",
                    input as u64,
                    "], got [T, ",
                    features.cols() as u64,
                    "]",
                ),
            ),
        );
    }
    if !are_finite(features.as_slice()) {
        return Err(invalid("features must be finite"));
    }
    Ok(())
}

/// What is wrong with the weights of a direction.
pub open spec fn weights_problem(w: DirectionView) -> Option<ErrorView> {
    let hidden = w.hidden as nat;
    let gates = 4 * hidden;
    if w.hidden == 0 || w.input == 0 {
        Some(ErrorView::Invalid("LSTM dimensions must be positive"@))
    } else {
        first_of(
            size_problem(4, hidden),
            first_of(
                size_problem(gates, w.input as nat),
                first_of(
                    tensor_problem(w.input_kernels, gates * w.input as nat, "input kernels"@),
                    first_of(
                        if w.diagonal {
                            None
                        } else {
                            size_problem(gates, hidden)
                        },
                        first_of(
                            tensor_problem(
                                w.recurrent_kernels,
                                if w.diagonal {
                                    gates
                                } else {
                                    gates * hidden
                                },
                                "recurrent kernels"@,
                            ),
                            first_of(
                                tensor_problem(w.biases, gates, "gate biases"@),
                                first_of(
                                    tensor_problem(
                                        w.initial_activation,
                                        hidden,
                                        "initial activation"@,
                                    ),
                                    tensor_problem(w.initial_cell, hidden, "initial cell"@),
                                ),
                            ),
                        ),
                    ),
                ),
            ),
        )
    }
}

/// What is wrong with the input of a direction.
pub open spec fn direction_problem(features: MatView, w: DirectionView, clip: F32) -> Option<
    ErrorView,
> {
    first_of(
        features_problem(features, w.input),
        if !clip.finite() || (clip.negative() && clip.index() > 0) {
            Some(
                ErrorView::Invalid("cell clipping threshold must be finite and nonnegative"@),
            )
        } else {
            first_of(weights_problem(w), size_problem(features.rows, 4 * w.hidden as nat))
        },
    )
}

fn check_weights(w: &DirectionWeights) -> (r: Result<(), Error>)
    ensures
        match (r, weights_problem(w@)) {
            (Ok(_), None) => true,
            (Err(e), Some(g)) => e@ == g,
            _ => false,
        },
{
    if w.hidden == 0 || w.input == 0 {
        return Err(invalid("LSTM dimensions must be positive"));
    }
    let gates: usize = size(GATES, w.hidden)?;
    let kernels: usize = size(gates, w.input)?;
    tensor(&w.input_kernels, kernels, "input kernels")?;
    let recurrent: usize = if w.diagonal {
        gates
    } else {
        size(gates, w.hidden)?
    };
    tensor(&w.recurrent_kernels, recurrent, "recurrent kernels")?;
    tensor(&w.biases, gates, "gate biases")?;
    tensor(&w.initial_activation, w.hidden, "initial activation")?;
    tensor(&w.initial_cell, w.hidden, "initial cell")
}

pub(crate) fn check_direction(
    features: &Mat,
    w: &DirectionWeights,
    clip: F32,
) -> (r: Result<(), Error>)
    ensures
        match (r, direction_problem(features@, w@, clip)) {
            (Ok(_), None) => true,
            (Err(e), Some(g)) => e@ == g,
            _ => false,
        },
{
    check_features(features, w.input)?;
    if !clip.is_finite() || !clip.is_nonnegative() {
        return Err(invalid("cell clipping threshold must be finite and nonnegative"));
    }
    check_weights(w)?;
    let gates: usize = w.biases.len();
    size(features.rows(), gates)?;
    Ok(())
}

/// What one unit computed at one time.
#[derive(Debug, Clone, Copy, PartialEq)]
pub struct Cell {
    pub input: F32,
    pub forget: F32,
    pub candidate: F32,
    pub out: F32,
    pub previous_cell: F32,
    pub tanh_cell: F32,
    /// Whether the new cell stayed within the clipping threshold.
    pub unclipped: bool,
}

/// The activations and the cells of a direction.
pub struct States {
    pub h: Seq<F32>,
    pub c: Seq<F32>,
}

/// What the previous activations add to a gate.
pub open spec fn recurrence(w: DirectionView, h: Seq<F32>, gate: int) -> F32 {
    if w.diagonal {
        w.recurrent_kernels[gate].product(h[gate % w.hidden as int])
    } else {
        dot_of(kernel_row(w.recurrent_kernels, w.hidden as nat, gate), h, w.hidden as nat)
    }
}

/// A gate at a time: the projected features, and then the recurrence.
pub open spec fn gate_of(
    w: DirectionView,
    features: MatView,
    h: Seq<F32>,
    t: int,
    gate: int,
) -> F32 {
    projection(features, w.input_kernels, w.biases, t, gate).sum(recurrence(w, h, gate))
}

/// A number within bounds of both signs; none are zero.
pub open spec fn clipped(x: F32, clip: F32) -> F32 {
    if clip.negative() || clip.index() == 0 {
        x
    } else if x.below(clip.opposite()) {
        clip.opposite()
    } else if clip.below(x) {
        clip
    } else {
        x
    }
}

/// A cell after a time: what is kept of it, and what comes in; then clipped.
pub open spec fn next_cell(
    m: NetMath,
    w: DirectionView,
    clip: F32,
    features: MatView,
    s: States,
    t: int,
    j: int,
) -> F32 {
    let input = m.sigmoid(gate_of(w, features, s.h, t, j));
    let forget = m.sigmoid(gate_of(w, features, s.h, t, w.hidden + j));
    let candidate = (m.tanh)(gate_of(w, features, s.h, t, 2 * w.hidden + j));
    clipped(forget.product(s.c[j]).sum(input.product(candidate)), clip)
}

/// Whether a number lies within bounds of both signs, or there are none.
pub open spec fn within(x: F32, clip: F32) -> bool {
    clip.index() == 0 || (!x.nan() && !clip.nan() && clip.opposite().rank() <= x.rank()
        && x.rank() <= clip.rank())
}

/// What a unit computes at a time.
pub open spec fn cell_of(
    m: NetMath,
    w: DirectionView,
    clip: F32,
    features: MatView,
    s: States,
    t: int,
    j: int,
) -> Cell {
    let input = m.sigmoid(gate_of(w, features, s.h, t, j));
    let forget = m.sigmoid(gate_of(w, features, s.h, t, w.hidden + j));
    let candidate = (m.tanh)(gate_of(w, features, s.h, t, 2 * w.hidden + j));
    Cell {
        input,
        forget,
        candidate,
        out: m.sigmoid(gate_of(w, features, s.h, t, 3 * w.hidden + j)),
        previous_cell: s.c[j],
        tanh_cell: (m.tanh)(next_cell(m, w, clip, features, s, t, j)),
        unclipped: within(forget.product(s.c[j]).sum(input.product(candidate)), clip),
    }
}

/// All activations and cells after a time. All gates see the activations before.
pub open spec fn next_states(
    m: NetMath,
    w: DirectionView,
    clip: F32,
    features: MatView,
    s: States,
    t: int,
) -> States {
    let c = Seq::new(w.hidden as nat, |j: int| next_cell(m, w, clip, features, s, t, j));
    States {
        h: Seq::new(
            w.hidden as nat,
            |j: int|
                m.sigmoid(gate_of(w, features, s.h, t, 3 * w.hidden + j)).product(
                    (m.tanh)(c[j]),
                ),
        ),
        c,
    }
}

/// The time of a step: from the first, or from the last.
pub open spec fn time_of(rows: nat, reverse: bool, step: int) -> int {
    if reverse {
        rows - 1 - step
    } else {
        step
    }
}

/// The activations and cells after so many steps.
pub open spec fn states_after(
    m: NetMath,
    w: DirectionView,
    clip: F32,
    features: MatView,
    reverse: bool,
    steps: nat,
) -> States
    decreases steps,
{
    if steps == 0 {
        States { h: w.initial_activation, c: w.initial_cell }
    } else {
        next_states(
            m,
            w,
            clip,
            features,
            states_after(m, w, clip, features, reverse, (steps - 1) as nat),
            time_of(features.rows, reverse, steps - 1),
        )
    }
}

/// What a direction gives: for each time the activations after it, in the order of
/// time either way.
pub open spec fn direction_output(
    m: NetMath,
    w: DirectionView,
    clip: F32,
    features: MatView,
    reverse: bool,
) -> MatView {
    MatView {
        rows: features.rows,
        cols: w.hidden as nat,
        data: flatten(
            features.rows,
            w.hidden as nat,
            |t: int, j: int|
                states_after(
                    m,
                    w,
                    clip,
                    features,
                    reverse,
                    (time_of(features.rows, reverse, t) + 1) as nat,
                ).h[j],
        ),
    }
}

/// What every unit computes at every time, in the order of time.
pub open spec fn direction_cells(
    m: NetMath,
    w: DirectionView,
    clip: F32,
    features: MatView,
    reverse: bool,
) -> Seq<Cell> {
    flatten(
        features.rows,
        w.hidden as nat,
        |t: int, j: int|
            cell_of(
                m,
                w,
                clip,
                features,
                states_after(
                    m,
                    w,
                    clip,
                    features,
                    reverse,
                    time_of(features.rows, reverse, t) as nat,
                ),
                t,
                j,
            ),
    )
}

fn recur(w: &DirectionWeights, h: &Vec<F32>, gate: usize) -> (r: F32)
    requires
        w.hidden > 0,
        h@.len() == w.hidden,
        gate < 4 * w.hidden,
        w.recurrent_kernels@.len() == (if w.diagonal {
            4 * w.hidden as nat
        } else {
            4 * w.hidden as nat * w.hidden as nat
        }),
    ensures
        r == recurrence(w@, h@, gate as int),
{
    if w.diagonal {
        w.recurrent_kernels[gate].times(h[gate % w.hidden])
    } else {
        let total: usize = w.recurrent_kernels.len();
        proof {
            lemma_row_bounds((4 * w.hidden) as nat, w.hidden as nat, gate as int);
        }
        let start: usize = gate * w.hidden;
        let row: &[F32] = vstd::slice::slice_subrange(
            w.recurrent_kernels.as_slice(),
            start,
            start + w.hidden,
        );
        dot(row, h.as_slice())
    }
}

fn clip_cell(x: F32, clip: F32) -> (r: F32)
    requires
        clip.finite(),
    ensures
        r == clipped(x, clip),
{
    if !clip.is_positive() {
        x
    } else if x.less(clip.negated()) {
        clip.negated()
    } else if clip.less(x) {
        clip
    } else {
        x
    }
}

fn is_within(x: F32, clip: F32) -> (r: bool)
    ensures
        r == within(x, clip),
{
    clip.is_zero() || (!x.is_nan() && !clip.is_nan() && !x.less(clip.negated()) && !clip.less(x))
}

/// One step of a direction.
fn step<E: Fn(F32) -> F32, T: Fn(F32) -> F32>(
    f: &Squash<E, T>,
    w: &DirectionWeights,
    clip: F32,
    features: &Mat,
    t: usize,
    h: &Vec<F32>,
    c: &Vec<F32>,
) -> (r: (Vec<F32>, Vec<F32>, Vec<Cell>))
    requires
        f.wf(),
        direction_problem(features@, w@, clip) is None,
        features@.wf(),
        t < features@.rows,
        h@.len() == w.hidden,
        c@.len() == w.hidden,
    ensures
        ({
            let s = next_states(f.math(), w@, clip, features@, States { h: h@, c: c@ }, t as int);
            r.0@ == s.h && r.1@ == s.c
        }),
        r.2@ == Seq::new(
            w.hidden as nat,
            |j: int|
                cell_of(
                    f.math(),
                    w@,
                    clip,
                    features@,
                    States { h: h@, c: c@ },
                    t as int,
                    j,
                ),
        ),
{
    let ghost m = f.math();
    let ghost before = States { h: h@, c: c@ };
    let hidden: usize = w.hidden;
    let total: usize = w.biases.len();
    assert(total == 4 * hidden);
    let mut gates: Vec<F32> = Vec::new();
    let mut g: usize = 0;
    while g < total
        invariant
            g <= total,
            total == 4 * hidden,
            hidden == w.hidden,
            direction_problem(features@, w@, clip) is None,
            features@.wf(),
            t < features@.rows,
            h@.len() == hidden,
            gates@.len() == g,
            forall|k: int|
                0 <= k < g ==> #[trigger] gates@[k] == gate_of(w@, features@, h@, t as int, k),
        decreases total - g,
    {
        let sum: F32 = project_cell(features, &w.input_kernels, &w.biases, t, g).plus(
            recur(w, h, g),
        );
        gates.push(sum);
        g += 1;
    }
    let mut cells: Vec<F32> = Vec::new();
    let mut outputs: Vec<F32> = Vec::new();
    let mut saved: Vec<Cell> = Vec::new();
    let mut j: usize = 0;
    let ghost after = next_states(m, w@, clip, features@, before, t as int);
    while j < hidden
        invariant
            j <= hidden,
            hidden == w.hidden,
            total == 4 * hidden,
            gates@.len() == total,
            f.wf(),
            m == f.math(),
            clip.finite(),
            c@.len() == hidden,
            before == (States { h: h@, c: c@ }),
            after == next_states(m, w@, clip, features@, before, t as int),
            forall|k: int|
                0 <= k < total ==> #[trigger] gates@[k] == gate_of(w@, features@, h@, t as int, k),
            cells@.len() == j,
            outputs@.len() == j,
            saved@.len() == j,
            forall|k: int|
                0 <= k < j ==> #[trigger] saved@[k] == cell_of(
                    m,
                    w@,
                    clip,
                    features@,
                    before,
                    t as int,
                    k,
                ),
            forall|k: int| 0 <= k < j ==> #[trigger] cells@[k] == after.c[k],
            forall|k: int| 0 <= k < j ==> #[trigger] outputs@[k] == after.h[k],
        decreases hidden - j,
    {
        let input: F32 = f.sigmoid(gates[j]);
        let forget: F32 = f.sigmoid(gates[hidden + j]);
        let candidate: F32 = f.tanh(gates[2 * hidden + j]);
        let out: F32 = f.sigmoid(gates[3 * hidden + j]);
        let updated: F32 = forget.times(c[j]).plus(input.times(candidate));
        let cell: F32 = clip_cell(updated, clip);
        let tanh_cell: F32 = f.tanh(cell);
        assert(cell == next_cell(m, w@, clip, features@, before, t as int, j as int));
        assert(after.c[j as int] == cell);
        cells.push(cell);
        outputs.push(out.times(tanh_cell));
        saved.push(
            Cell {
                input,
                forget,
                candidate,
                out,
                previous_cell: c[j],
                tanh_cell,
                unclipped: is_within(updated, clip),
            },
        );
        j += 1;
    }
    assert(cells@ =~= after.c);
    assert(outputs@ =~= after.h);
    assert(saved@ =~= Seq::new(
        w.hidden as nat,
        |j: int| cell_of(m, w@, clip, features@, before, t as int, j),
    ));
    (outputs, cells, saved)
}

/// Rows one after the other, from the first or from the last.
fn stack<T: Copy>(rows: Vec<Vec<T>>, cols: usize, reverse: bool, cells: usize) -> (r: Vec<T>)
    requires
        rows@.len() * cols == cells,
        forall|t: int| 0 <= t < rows@.len() ==> (#[trigger] rows@[t])@.len() == cols,
    ensures
        r@ == flatten(
            rows@.len(),
            cols as nat,
            |t: int, j: int| rows@[time_of(rows@.len(), reverse, t)]@[j],
        ),
{
    let n: usize = rows.len();
    let mut data: Vec<T> = Vec::new();
    let mut t: usize = 0;
    assert(0 * cols == 0) by (nonlinear_arith);
    while t < n
        invariant
            t <= n,
            n == rows@.len(),
            n * cols == cells,
            forall|t: int| 0 <= t < rows@.len() ==> (#[trigger] rows@[t])@.len() == cols,
            data@.len() == t * cols,
            forall|u: int, j: int|
                #![trigger data@[u * cols + j]]
                0 <= u < t && 0 <= j < cols ==> data@[u * cols + j] == rows@[time_of(
                    n as nat,
                    reverse,
                    u,
                )]@[j],
        decreases n - t,
    {
        let source: usize = if reverse {
            n - 1 - t
        } else {
            t
        };
        let ghost before = data@;
        let mut j: usize = 0;
        assert(rows@[source as int]@.len() == cols);
        while j < cols
            invariant
                j <= cols,
                source < rows@.len(),
                rows@[source as int]@.len() == cols,
                before.len() == t * cols,
                data@.len() == t * cols + j,
                forall|i: int| 0 <= i < before.len() ==> data@[i] == before[i],
                forall|k: int|
                    0 <= k < j ==> #[trigger] data@[t * cols + k] == rows@[source as int]@[k],
            decreases cols - j,
        {
            data.push(rows[source][j]);
            j += 1;
        }
        proof {
            assert((t + 1) * cols == t * cols + cols) by (nonlinear_arith);
            assert forall|u: int, j: int|
                #![trigger data@[u * cols + j]]
                0 <= u < t + 1 && 0 <= j < cols implies data@[u * cols + j] == rows@[time_of(
                n as nat,
                reverse,
                u,
            )]@[j] by {
                if u < t {
                    lemma_cell(t as nat, cols as nat, u, j);
                    assert(data@[u * cols + j] == before[u * cols + j]);
                }
            }
        }
        t += 1;
    }
    proof {
        lemma_flatten(
            data@,
            n as nat,
            cols as nat,
            |t: int, j: int| rows@[time_of(rows@.len(), reverse, t)]@[j],
        );
    }
    data
}

/// Evaluates one direction on checked input: what it gives, and what each unit
/// computed on the way.
pub(crate) fn direction_saved<E: Fn(F32) -> F32, T: Fn(F32) -> F32>(
    features: &Mat,
    weights: &DirectionWeights,
    cell_clip: F32,
    reverse: bool,
    f: &Squash<E, T>,
) -> (r: (Mat, Vec<Cell>))
    requires
        f.wf(),
        direction_problem(features@, weights@, cell_clip) is None,
    ensures
        r.0@ == direction_output(f.math(), weights@, cell_clip, features@, reverse),
        r.0@.wf(),
        r.1@ == direction_cells(f.math(), weights@, cell_clip, features@, reverse),
{
    let ghost m = f.math();
    let rows: usize = features.rows();
    let hidden: usize = weights.hidden;
    let data: &[F32] = features.as_slice();
    let mut h: Vec<F32> = vstd::slice::slice_to_vec(weights.initial_activation.as_slice());
    let mut c: Vec<F32> = vstd::slice::slice_to_vec(weights.initial_cell.as_slice());
    let mut outputs: Vec<Vec<F32>> = Vec::new();
    let mut saved: Vec<Vec<Cell>> = Vec::new();
    let mut k: usize = 0;
    while k < rows
        invariant
            k <= rows,
            rows == features@.rows,
            hidden == weights.hidden,
            features@.wf(),
            f.wf(),
            m == f.math(),
            direction_problem(features@, weights@, cell_clip) is None,
            h@.len() == hidden,
            c@.len() == hidden,
            (States { h: h@, c: c@ }) == states_after(
                m,
                weights@,
                cell_clip,
                features@,
                reverse,
                k as nat,
            ),
            outputs@.len() == k,
            forall|i: int|
                0 <= i < k ==> (#[trigger] outputs@[i])@ == states_after(
                    m,
                    weights@,
                    cell_clip,
                    features@,
                    reverse,
                    (i + 1) as nat,
                ).h,
            forall|i: int| 0 <= i < k ==> (#[trigger] outputs@[i])@.len() == hidden,
            saved@.len() == k,
            forall|i: int|
                0 <= i < k ==> (#[trigger] saved@[i])@ == Seq::new(
                    hidden as nat,
                    |j: int|
                        cell_of(
                            m,
                            weights@,
                            cell_clip,
                            features@,
                            states_after(m, weights@, cell_clip, features@, reverse, i as nat),
                            time_of(rows as nat, reverse, i),
                            j,
                        ),
                ),
            forall|i: int| 0 <= i < k ==> (#[trigger] saved@[i])@.len() == hidden,
        decreases rows - k,
    {
        let t: usize = if reverse {
            rows - 1 - k
        } else {
            k
        };
        let (next_h, next_c, computed) = step(f, weights, cell_clip, features, t, &h, &c);
        outputs.push(vstd::slice::slice_to_vec(next_h.as_slice()));
        saved.push(computed);
        h = next_h;
        c = next_c;
        k += 1;
    }
    proof {
        assert(rows * hidden <= usize::MAX) by (nonlinear_arith)
            requires
                rows * (4 * hidden) <= usize::MAX,
                0 <= rows,
                0 <= hidden,
        ;
    }
    let cells: usize = rows * hidden;
    let out: Vec<F32> = stack(outputs, hidden, reverse, cells);
    let all: Vec<Cell> = stack(saved, hidden, reverse, cells);
    let r: Mat = Mat::from_vec(rows, hidden, out);
    proof {
        let wanted = direction_output(m, weights@, cell_clip, features@, reverse);
        let wanted_cells = direction_cells(m, weights@, cell_clip, features@, reverse);
        assert forall|i: int|
            #![trigger r@.data[i]]
            #![trigger all@[i]]
            0 <= i < r@.data.len() implies r@.data[i] == wanted.data[i] && all@[i]
            == wanted_cells[i] by {
            let t = i / hidden as int;
            let j = i % hidden as int;
            assert(0 <= t < rows) by (nonlinear_arith)
                requires
                    0 <= i < rows * hidden,
                    t == i / hidden as int,
                    hidden > 0,
            ;
            assert(0 <= j < hidden);
            let k = time_of(rows as nat, reverse, t);
            assert(time_of(rows as nat, reverse, k) == t);
            assert(saved@[k]@[j] == wanted_cells[i]);
        }
        assert(r@.data =~= wanted.data);
        assert(all@ =~= wanted_cells);
    }
    (r, all)
}

/// Evaluates one direction. Backward outputs are restored to original time order.
/// Cell clipping applies after the cell update and before the output's tangent.
pub fn direction<E: Fn(F32) -> F32, T: Fn(F32) -> F32>(
    features: &Mat,
    weights: &DirectionWeights,
    cell_clip: F32,
    reverse: bool,
    f: &Squash<E, T>,
) -> (r: Result<Mat, Error>)
    requires
        f.wf(),
    ensures
        match (r, direction_problem(features@, weights@, cell_clip)) {
            (Ok(out), None) => out@ == direction_output(
                f.math(),
                weights@,
                cell_clip,
                features@,
                reverse,
            ) && out@.wf(),
            (Err(e), Some(g)) => e@ == g,
            _ => false,
        },
{
    check_direction(features, weights, cell_clip)?;
    let (out, _) = direction_saved(features, weights, cell_clip, reverse, f);
    Ok(out)
}

/// Rows of two matrices side by side.
pub open spec fn beside(a: MatView, b: MatView) -> MatView {
    MatView {
        rows: a.rows,
        cols: a.cols + b.cols,
        data: flatten(
            a.rows,
            a.cols + b.cols,
            |t: int, j: int|
                if j < a.cols {
                    a.at(t, j)
                } else {
                    b.at(t, j - a.cols)
                },
        ),
    }
}

/// What is wrong with the input of a layer.
pub open spec fn layer_problem(features: MatView, layer: LayerView) -> Option<ErrorView> {
    let width = layer.forward.hidden as nat + layer.backward.hidden as nat;
    first_of(
        direction_problem(features, layer.forward, layer.cell_clip),
        first_of(
            direction_problem(features, layer.backward, layer.cell_clip),
            if width > usize::MAX {
                Some(ErrorView::Invalid("bidirectional output width overflows usize"@))
            } else {
                size_problem(features.rows, width)
            },
        ),
    )
}

/// What a layer gives.
pub open spec fn layer_output(m: NetMath, features: MatView, layer: LayerView) -> MatView {
    beside(
        direction_output(m, layer.forward, layer.cell_clip, features, false),
        direction_output(m, layer.backward, layer.cell_clip, features, true),
    )
}

/// Puts the rows of two matrices side by side.
pub(crate) fn put_beside(a: &Mat, b: &Mat, rows: usize, width: usize, cells: usize) -> (r: Mat)
    requires
        a@.wf(),
        b@.wf(),
        a@.rows == rows,
        b@.rows == rows,
        width == a@.cols + b@.cols,
        rows * width == cells,
    ensures
        r@ == beside(a@, b@),
        r@.wf(),
{
    let mut data: Vec<F32> = Vec::new();
    let mut t: usize = 0;
    assert(0 * width == 0) by (nonlinear_arith);
    while t < rows
        invariant
            t <= rows,
            rows == a@.rows,
            rows == b@.rows,
            a@.wf(),
            b@.wf(),
            width == a@.cols + b@.cols,
            rows * width == cells,
            data@.len() == t * width,
            forall|u: int, j: int|
                #![trigger data@[u * width + j]]
                0 <= u < t && 0 <= j < width ==> data@[u * width + j] == (if j < a@.cols {
                    a@.at(u, j)
                } else {
                    b@.at(u, j - a@.cols)
                }),
        decreases rows - t,
    {
        let ghost before = data@;
        let left: usize = a.cols();
        let mut j: usize = 0;
        while j < width
            invariant
                j <= width,
                t < rows,
                rows == a@.rows,
                rows == b@.rows,
                a@.wf(),
                b@.wf(),
                left == a@.cols,
                width == a@.cols + b@.cols,
                before.len() == t * width,
                data@.len() == t * width + j,
                forall|i: int| 0 <= i < before.len() ==> data@[i] == before[i],
                forall|k: int|
                    0 <= k < j ==> #[trigger] data@[t * width + k] == (if k < a@.cols {
                        a@.at(t as int, k)
                    } else {
                        b@.at(t as int, k - a@.cols)
                    }),
            decreases width - j,
        {
            let x: F32 = if j < left {
                a.get(t, j)
            } else {
                b.get(t, j - left)
            };
            data.push(x);
            j += 1;
        }
        proof {
            assert((t + 1) * width == t * width + width) by (nonlinear_arith);
            assert forall|u: int, j: int|
                #![trigger data@[u * width + j]]
                0 <= u < t + 1 && 0 <= j < width implies data@[u * width + j] == (if j < a@.cols {
                a@.at(u, j)
            } else {
                b@.at(u, j - a@.cols)
            }) by {
                if u < t {
                    lemma_cell(t as nat, width as nat, u, j);
                    assert(data@[u * width + j] == before[u * width + j]);
                }
            }
        }
        t += 1;
    }
    proof {
        lemma_flatten(
            data@,
            rows as nat,
            width as nat,
            |t: int, j: int|
                if j < a@.cols {
                    a@.at(t, j)
                } else {
                    b@.at(t, j - a@.cols)
                },
        );
    }
    let r: Mat = Mat::from_vec(rows, width, data);
    assert(r@.data =~= beside(a@, b@).data);
    r
}

/// Concatenates forward and backward hidden outputs. Never cell states.
pub fn bidirectional<E: Fn(F32) -> F32, T: Fn(F32) -> F32>(
    features: &Mat,
    layer: &LayerWeights,
    f: &Squash<E, T>,
) -> (r: Result<Mat, Error>)
    requires
        f.wf(),
    ensures
        match (r, layer_problem(features@, layer@)) {
            (Ok(out), None) => out@ == layer_output(f.math(), features@, layer@) && out@.wf(),
            (Err(e), Some(g)) => e@ == g,
            _ => false,
        },
{
    let a: Mat = direction(features, &layer.forward, layer.cell_clip, false, f)?;
    let b: Mat = direction(features, &layer.backward, layer.cell_clip, true, f)?;
    let rows: usize = features.rows();
    let width: usize = match a.cols().checked_add(b.cols()) {
        Some(width) => width,
        None => {
            return Err(invalid("bidirectional output width overflows usize"));
        },
    };
    let cells: usize = size(rows, width)?;
    Ok(put_beside(&a, &b, rows, width, cells))
}

/// What the first `k` layers give.
pub open spec fn layers_output(
    m: NetMath,
    layers: Seq<LayerView>,
    features: MatView,
    k: nat,
) -> Result<MatView, ErrorView>
    decreases k,
{
    if k == 0 {
        Ok(features)
    } else {
        match layers_output(m, layers, features, (k - 1) as nat) {
            Err(e) => Err(e),
            Ok(x) => match layer_problem(x, layers[k - 1]) {
                Some(e) => Err(e),
                None => Ok(layer_output(m, x, layers[k - 1])),
            },
        }
    }
}

/// The linear head.
pub open spec fn head_output(x: MatView, kernels: Seq<F32>, biases: Seq<F32>) -> MatView {
    MatView {
        rows: x.rows,
        cols: biases.len(),
        data: flatten(
            x.rows,
            biases.len(),
            |t: int, j: int| projection(x, kernels, biases, t, j),
        ),
    }
}

/// What is wrong with the head for an input.
pub open spec fn head_problem(x: MatView, w: NetworkView) -> Option<ErrorView> {
    let classes = w.num_classes as nat;
    first_of(
        size_problem(classes, x.cols),
        first_of(
            tensor_problem(w.fc_weights, classes * x.cols, "fully connected weights"@),
            first_of(
                tensor_problem(w.fc_bias, classes, "fully connected bias"@),
                size_problem(x.rows, classes),
            ),
        ),
    )
}

/// What a network gives for features.
pub open spec fn network_output(m: NetMath, w: NetworkView, features: MatView) -> Result<
    MatView,
    ErrorView,
> {
    match features_problem(features, w.input_size) {
        Some(e) => Err(e),
        None => if w.input_size == 0 || w.num_classes == 0 {
            Err(ErrorView::Invalid("network dimensions must be positive"@))
        } else {
            match layers_output(m, w.layers, features, w.layers.len()) {
                Err(e) => Err(e),
                Ok(x) => match head_problem(x, w) {
                    Some(e) => Err(e),
                    None => Ok(head_output(x, w.fc_weights, w.fc_bias)),
                },
            }
        },
    }
}

pub(crate) fn project(input: &Mat, kernels: &Vec<F32>, biases: &Vec<F32>, cells: usize) -> (r: Mat)
    requires
        input@.wf(),
        kernels@.len() == biases@.len() * input@.cols,
        cells == input@.rows * biases@.len(),
    ensures
        r@ == head_output(input@, kernels@, biases@),
        r@.wf(),
{
    let rows: usize = input.rows();
    let cols: usize = biases.len();
    let mut data: Vec<F32> = Vec::new();
    let mut t: usize = 0;
    assert(0 * cols == 0) by (nonlinear_arith);
    while t < rows
        invariant
            t <= rows,
            rows == input@.rows,
            cols == biases@.len(),
            input@.wf(),
            kernels@.len() == biases@.len() * input@.cols,
            cells == rows * cols,
            data@.len() == t * cols,
            forall|u: int, j: int|
                #![trigger data@[u * cols + j]]
                0 <= u < t && 0 <= j < cols ==> data@[u * cols + j] == projection(
                    input@,
                    kernels@,
                    biases@,
                    u,
                    j,
                ),
        decreases rows - t,
    {
        let ghost before = data@;
        let mut j: usize = 0;
        while j < cols
            invariant
                j <= cols,
                t < rows,
                rows == input@.rows,
                cols == biases@.len(),
                input@.wf(),
                kernels@.len() == biases@.len() * input@.cols,
                before.len() == t * cols,
                data@.len() == t * cols + j,
                forall|i: int| 0 <= i < before.len() ==> data@[i] == before[i],
                forall|k: int|
                    0 <= k < j ==> #[trigger] data@[t * cols + k] == projection(
                        input@,
                        kernels@,
                        biases@,
                        t as int,
                        k,
                    ),
            decreases cols - j,
        {
            data.push(project_cell(input, kernels, biases, t, j));
            j += 1;
        }
        proof {
            assert((t + 1) * cols == t * cols + cols) by (nonlinear_arith);
            assert forall|u: int, j: int|
                #![trigger data@[u * cols + j]]
                0 <= u < t + 1 && 0 <= j < cols implies data@[u * cols + j] == projection(
                input@,
                kernels@,
                biases@,
                u,
                j,
            ) by {
                if u < t {
                    lemma_cell(t as nat, cols as nat, u, j);
                    assert(data@[u * cols + j] == before[u * cols + j]);
                }
            }
        }
        t += 1;
    }
    proof {
        lemma_flatten(
            data@,
            rows as nat,
            cols as nat,
            |t: int, j: int| projection(input@, kernels@, biases@, t, j),
        );
    }
    Mat::from_vec(rows, cols, data)
}

/// `[T, input_size]` features to `[T, num_classes]` unnormalized logits. An empty
/// sequence gives an empty one of the right width.
pub fn forward<E: Fn(F32) -> F32, T: Fn(F32) -> F32>(
    weights: &NetworkWeights,
    features: &Mat,
    f: &Squash<E, T>,
) -> (r: Result<Mat, Error>)
    requires
        f.wf(),
    ensures
        match (r, network_output(f.math(), weights@, features@)) {
            (Ok(out), Ok(wanted)) => out@ == wanted && out@.wf(),
            (Err(e), Err(g)) => e@ == g,
            _ => false,
        },
{
    check_features(features, weights.input_size)?;
    if weights.input_size == 0 || weights.num_classes == 0 {
        return Err(invalid("network dimensions must be positive"));
    }
    let x: Mat = run_layers(weights, features, f)?;
    let total: usize = size(weights.num_classes, x.cols())?;
    tensor(&weights.fc_weights, total, "fully connected weights")?;
    tensor(&weights.fc_bias, weights.num_classes, "fully connected bias")?;
    let cells: usize = size(x.rows(), weights.num_classes)?;
    let data: &[F32] = x.as_slice();
    Ok(project(&x, &weights.fc_weights, &weights.fc_bias, cells))
}

fn run_layers<E: Fn(F32) -> F32, T: Fn(F32) -> F32>(
    weights: &NetworkWeights,
    features: &Mat,
    f: &Squash<E, T>,
) -> (r: Result<Mat, Error>)
    requires
        f.wf(),
    ensures
        match (r, layers_output(f.math(), weights@.layers, features@, weights@.layers.len())) {
            (Ok(out), Ok(wanted)) => out@ == wanted,
            (Err(e), Err(g)) => e@ == g,
            _ => false,
        },
{
    let ghost m = f.math();
    let ghost layers = weights@.layers;
    let mut x: Mat = features.clone();
    let mut k: usize = 0;
    while k < weights.layers.len()
        invariant
            k <= weights.layers@.len(),
            layers == weights@.layers,
            f.wf(),
            m == f.math(),
            layers_output(m, layers, features@, k as nat) == Ok::<MatView, ErrorView>(x@),
        decreases weights.layers@.len() - k,
    {
        assert(layers[k as int] == weights.layers@[k as int]@);
        match bidirectional(&x, &weights.layers[k], f) {
            Ok(next) => {
                x = next;
            },
            Err(e) => {
                proof {
                    lemma_layers_failed(m, layers, features@, (k + 1) as nat, layers.len());
                }
                return Err(e);
            },
        }
        k += 1;
    }
    Ok(x)
}

pub(crate) proof fn lemma_layers_failed(
    m: NetMath,
    layers: Seq<LayerView>,
    features: MatView,
    k: nat,
    n: nat,
)
    requires
        k <= n,
        layers_output(m, layers, features, k) is Err,
    ensures
        layers_output(m, layers, features, n) == layers_output(m, layers, features, k),
    decreases n,
{
    if k < n {
        lemma_layers_failed(m, layers, features, k, (n - 1) as nat);
    }
}

/// A matrix with its rows from the last to the first.
pub open spec fn upside_down(a: MatView) -> MatView {
    MatView {
        rows: a.rows,
        cols: a.cols,
        data: flatten(a.rows, a.cols, |t: int, j: int| a.at(a.rows - 1 - t, j)),
    }
}

proof fn lemma_upside_down_row(a: MatView, t: int)
    requires
        a.wf(),
        0 <= t < a.rows,
    ensures
        upside_down(a).row(t) == a.row(a.rows - 1 - t),
{
    let u = a.rows - 1 - t;
    let b = upside_down(a);
    lemma_row_bounds(a.rows, a.cols, t);
    lemma_row_bounds(a.rows, a.cols, u);
    assert forall|j: int| 0 <= j < a.cols implies b.row(t)[j] == a.row(u)[j] by {
        lemma_cell(a.rows, a.cols, t, j);
        lemma_cell(a.rows, a.cols, u, j);
    }
    assert(b.row(t) =~= a.row(u));
}

proof fn lemma_states_reversed(
    m: NetMath,
    w: DirectionView,
    clip: F32,
    features: MatView,
    steps: nat,
)
    requires
        features.wf(),
        steps <= features.rows,
    ensures
        states_after(m, w, clip, features, true, steps) == states_after(
            m,
            w,
            clip,
            upside_down(features),
            false,
            steps,
        ),
    decreases steps,
{
    if steps > 0 {
        lemma_states_reversed(m, w, clip, features, (steps - 1) as nat);
        let s = states_after(m, w, clip, features, true, (steps - 1) as nat);
        let t = features.rows - steps;
        let u = steps - 1;
        let other = upside_down(features);
        lemma_upside_down_row(features, u);
        assert forall|g: int| gate_of(w, features, s.h, t, g) == #[trigger] gate_of(
            w,
            other,
            s.h,
            u,
            g,
        ) by {}
        let a = next_states(m, w, clip, features, s, t);
        let b = next_states(m, w, clip, other, s, u);
        assert(a.c =~= b.c) by {
            assert forall|j: int| 0 <= j < w.hidden implies next_cell(
                m,
                w,
                clip,
                features,
                s,
                t,
                j,
            ) == next_cell(m, w, clip, other, s, u, j) by {}
        }
        assert(a.h =~= b.h);
    }
}

/// The backward direction is the forward one on the times from the last, put back
/// in order.
pub proof fn lemma_reverse(
    m: NetMath,
    w: DirectionView,
    clip: F32,
    features: MatView,
    t: int,
    j: int,
)
    requires
        features.wf(),
        0 <= t < features.rows,
        0 <= j < w.hidden,
    ensures
        direction_output(m, w, clip, features, true).at(t, j) == direction_output(
            m,
            w,
            clip,
            upside_down(features),
            false,
        ).at(features.rows - 1 - t, j),
{
    lemma_cell(features.rows, w.hidden as nat, t, j);
    lemma_cell(features.rows, w.hidden as nat, features.rows - 1 - t, j);
    lemma_states_reversed(m, w, clip, features, (features.rows - t) as nat);
}

} // verus!
