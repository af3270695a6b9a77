//! The units of a direction one by one: what each takes from the weights, and that
//! units without recurrent links to others do not see them.
use vstd::prelude::*;

use crate::float::F32;
use crate::mat::{lemma_cell, lemma_row_bounds, MatView};
use crate::net::{
    clipped, direction_output, dot_of, gate_of, head_output, kernel_row, layer_output, next_cell,
    next_states, states_after, time_of, NetMath, States,
};
use crate::tflite::{DirectionView, LayerView};

verus! {

/// Whether a direction's weights have the sizes that its units and features ask for.
pub open spec fn fits(w: DirectionView) -> bool {
    let rows = 4 * w.hidden;
    &&& w.hidden > 0
    &&& w.input_kernels.len() == rows * w.input
    &&& w.recurrent_kernels.len() == (if w.diagonal {
        rows
    } else {
        rows * w.hidden
    })
    &&& w.biases.len() == rows
    &&& w.initial_activation.len() == w.hidden
    &&& w.initial_cell.len() == w.hidden
}

/// The row of unit `j` at one of the four gates: input, forget, candidate, out.
pub open spec fn row_of_unit(hidden: usize, gate: int, j: int) -> int {
    gate * hidden + j
}

proof fn lemma_row_of_unit(hidden: usize, gate: int, j: int)
    requires
        0 <= gate < 4,
        0 <= j < hidden,
    ensures
        0 <= row_of_unit(hidden, gate, j) < 4 * hidden,
        row_of_unit(hidden, gate, j) % (hidden as int) == j,
{
    assert(0 <= gate * hidden && gate * hidden + hidden <= 4 * hidden) by (nonlinear_arith)
        requires
            0 <= gate < 4,
    ;
    assert(hidden * gate == gate * hidden) by (nonlinear_arith);
    vstd::arithmetic::div_mod::lemma_mod_multiples_vanish(gate, j, hidden as int);
    vstd::arithmetic::div_mod::lemma_small_mod(j as nat, hidden as nat);
}

/// What reaches unit `j` at a gate: its own row of the input kernels times the features,
/// its own bias, and, times what recurs, its own row of the recurrent kernels, which in
/// a diagonal direction is one number for its own activation.
pub proof fn lemma_gate_takes_own_row(
    w: DirectionView,
    features: MatView,
    h: Seq<F32>,
    t: int,
    gate: int,
    j: int,
)
    requires
        0 <= gate < 4,
        0 <= j < w.hidden,
    ensures
        ({
            let row = row_of_unit(w.hidden, gate, j);
            let x = features.data.subrange(t * features.cols, (t + 1) * features.cols);
            let kernel = w.input_kernels.subrange(
                row * features.cols,
                (row + 1) * features.cols,
            );
            let back = if w.diagonal {
                w.recurrent_kernels[row].product(h[j])
            } else {
                dot_of(
                    w.recurrent_kernels.subrange(row * w.hidden, (row + 1) * w.hidden),
                    h,
                    w.hidden as nat,
                )
            };
            gate_of(w, features, h, t, row) == dot_of(kernel, x, features.cols).sum(
                w.biases[row],
            ).sum(back)
        }),
{
    lemma_row_of_unit(w.hidden, gate, j);
}

/// A cell keeps the share of its past that the forget gate lets through and takes the
/// share of the candidate that the input gate lets in, clipped; the activation is the
/// share of the squashed new cell that the out gate lets through.
pub proof fn lemma_step_of_unit(
    m: NetMath,
    w: DirectionView,
    clip: F32,
    features: MatView,
    s: States,
    t: int,
    j: int,
)
    requires
        0 <= j < w.hidden,
    ensures
        ({
            let next = next_states(m, w, clip, features, s, t);
            let input = m.sigmoid(gate_of(w, features, s.h, t, row_of_unit(w.hidden, 0, j)));
            let forget = m.sigmoid(gate_of(w, features, s.h, t, row_of_unit(w.hidden, 1, j)));
            let candidate = (m.tanh)(gate_of(w, features, s.h, t, row_of_unit(w.hidden, 2, j)));
            let out = m.sigmoid(gate_of(w, features, s.h, t, row_of_unit(w.hidden, 3, j)));
            &&& next.c[j] == clipped(forget.product(s.c[j]).sum(input.product(candidate)), clip)
            &&& next.h[j] == out.product((m.tanh)(next.c[j]))
        }),
{
}

/// A direction of the one unit `j`.
pub open spec fn only_unit(w: DirectionView, j: int) -> DirectionView {
    let d = w.input as int;
    let row = |gate: int| row_of_unit(w.hidden, gate, j);
    DirectionView {
        input_kernels: Seq::new(
            (4 * d) as nat,
            |i: int| w.input_kernels[row(i / d) * d + i % d],
        ),
        recurrent_kernels: Seq::new(4, |gate: int| w.recurrent_kernels[row(gate)]),
        diagonal: true,
        biases: Seq::new(4, |gate: int| w.biases[row(gate)]),
        initial_activation: seq![w.initial_activation[j]],
        initial_cell: seq![w.initial_cell[j]],
        hidden: 1,
        input: w.input,
    }
}

proof fn lemma_dot_same(a: Seq<F32>, b: Seq<F32>, x: Seq<F32>, n: nat)
    requires
        forall|i: int| 0 <= i < n ==> #[trigger] a[i] == b[i],
    ensures
        dot_of(a, x, n) == dot_of(b, x, n),
    decreases n,
{
    if n > 0 {
        lemma_dot_same(a, b, x, (n - 1) as nat);
    }
}

proof fn lemma_gate_alone(
    w: DirectionView,
    features: MatView,
    h: Seq<F32>,
    one: Seq<F32>,
    t: int,
    gate: int,
    j: int,
)
    requires
        fits(w),
        w.diagonal,
        features.cols == w.input,
        0 <= gate < 4,
        0 <= j < w.hidden,
        one[0] == h[j],
    ensures
        gate_of(only_unit(w, j), features, one, t, gate) == gate_of(
            w,
            features,
            h,
            t,
            row_of_unit(w.hidden, gate, j),
        ),
{
    let u = only_unit(w, j);
    let row = row_of_unit(w.hidden, gate, j);
    let d = w.input as int;
    lemma_row_of_unit(w.hidden, gate, j);
    lemma_row_bounds((4 * w.hidden) as nat, features.cols, row);
    lemma_row_bounds(4, features.cols, gate);
    let a = kernel_row(u.input_kernels, features.cols, gate);
    let b = kernel_row(w.input_kernels, features.cols, row);
    assert forall|i: int| 0 <= i < d implies a[i] == b[i] by {
        lemma_cell(4, features.cols, gate, i);
        let at = gate * d + i;
        assert(a[i] == u.input_kernels[at]);
        assert(at / d == gate && at % d == i);
    }
    lemma_dot_same(a, b, features.row(t), features.cols);
    assert(gate % 1 == 0);
    assert(u.recurrent_kernels[gate] == w.recurrent_kernels[row]);
    assert(u.biases[gate] == w.biases[row]);
}

proof fn lemma_states_alone(
    m: NetMath,
    w: DirectionView,
    clip: F32,
    features: MatView,
    reverse: bool,
    steps: nat,
    j: int,
)
    requires
        fits(w),
        w.diagonal,
        features.cols == w.input,
        0 <= j < w.hidden,
    ensures
        ({
            let all = states_after(m, w, clip, features, reverse, steps);
            let one = states_after(m, only_unit(w, j), clip, features, reverse, steps);
            &&& one.h[0] == all.h[j]
            &&& one.c[0] == all.c[j]
        }),
    decreases steps,
{
    if steps > 0 {
        let before = (steps - 1) as nat;
        lemma_states_alone(m, w, clip, features, reverse, before, j);
        let u = only_unit(w, j);
        let all = states_after(m, w, clip, features, reverse, before);
        let one = states_after(m, u, clip, features, reverse, before);
        let t = time_of(features.rows, reverse, steps - 1);
        lemma_gate_alone(w, features, all.h, one.h, t, 0, j);
        lemma_gate_alone(w, features, all.h, one.h, t, 1, j);
        lemma_gate_alone(w, features, all.h, one.h, t, 2, j);
        lemma_gate_alone(w, features, all.h, one.h, t, 3, j);
        lemma_step_of_unit(m, w, clip, features, all, t, j);
        lemma_step_of_unit(m, u, clip, features, one, t, 0);
    }
}

/// A unit of a diagonal direction sees no other: it gives at every time what a direction
/// of it alone gives, which has its own row of every kernel, its own biases and its own
/// first states, and nothing of the others.
pub proof fn lemma_unit_stands_alone(
    m: NetMath,
    w: DirectionView,
    clip: F32,
    features: MatView,
    reverse: bool,
    t: int,
    j: int,
)
    requires
        fits(w),
        w.diagonal,
        features.cols == w.input,
        0 <= t < features.rows,
        0 <= j < w.hidden,
    ensures
        direction_output(m, w, clip, features, reverse).at(t, j) == direction_output(
            m,
            only_unit(w, j),
            clip,
            features,
            reverse,
        ).at(t, 0),
{
    let steps = (time_of(features.rows, reverse, t) + 1) as nat;
    lemma_cell(features.rows, w.hidden as nat, t, j);
    lemma_cell(features.rows, 1, t, 0);
    lemma_states_alone(m, w, clip, features, reverse, steps, j);
}

/// Units in another order, each with its weights.
pub open spec fn reordered(w: DirectionView, order: Seq<int>) -> DirectionView {
    let d = w.input as int;
    let n = w.hidden as int;
    let from = |row: int| row_of_unit(w.hidden, row / n, order[row % n]);
    DirectionView {
        input_kernels: Seq::new(
            (4 * n * d) as nat,
            |i: int| w.input_kernels[from(i / d) * d + i % d],
        ),
        recurrent_kernels: Seq::new((4 * n) as nat, |row: int| w.recurrent_kernels[from(row)]),
        biases: Seq::new((4 * n) as nat, |row: int| w.biases[from(row)]),
        initial_activation: Seq::new(n as nat, |j: int| w.initial_activation[order[j]]),
        initial_cell: Seq::new(n as nat, |j: int| w.initial_cell[order[j]]),
        ..w
    }
}

proof fn lemma_reordered_unit(w: DirectionView, order: Seq<int>, j: int)
    requires
        fits(w),
        w.diagonal,
        w.input > 0,
        order.len() == w.hidden,
        0 <= j < w.hidden,
    ensures
        fits(reordered(w, order)),
        only_unit(reordered(w, order), j) == only_unit(w, order[j]),
{
    let v = reordered(w, order);
    let d = w.input as int;
    let n = w.hidden as int;
    assert(4 * n * d >= 0) by (nonlinear_arith)
        requires
            n >= 0,
            d >= 0,
    ;
    let a = only_unit(v, j);
    let b = only_unit(w, order[j]);
    assert forall|gate: int| 0 <= gate < 4 implies {
        let row = #[trigger] row_of_unit(w.hidden, gate, j);
        &&& 0 <= row < 4 * n
        &&& row / n == gate
        &&& row % n == j
    } by {
        lemma_row_of_unit(w.hidden, gate, j);
        lemma_cell(4, n as nat, gate, j);
    }
    assert(a.biases =~= b.biases);
    assert(a.recurrent_kernels =~= b.recurrent_kernels);
    assert(a.initial_activation =~= b.initial_activation);
    assert(a.initial_cell =~= b.initial_cell);
    assert forall|i: int| 0 <= i < 4 * d implies a.input_kernels[i] == b.input_kernels[i] by {
        let gate = i / d;
        let col = i % d;
        assert(0 <= gate < 4 && 0 <= col < d) by (nonlinear_arith)
            requires
                0 <= i < 4 * d,
                d > 0,
                gate == i / d,
                col == i % d,
        ;
        let row = row_of_unit(w.hidden, gate, j);
        lemma_cell((4 * n) as nat, d as nat, row, col);
        let at = row * d + col;
        assert(a.input_kernels[i] == v.input_kernels[at]);
        assert(at / d == row && at % d == col);
    }
    assert(a.input_kernels =~= b.input_kernels);
}

/// Units of a diagonal direction that change places, each with its kernels, biases and
/// first states, give what they gave before, each in its new place.
pub proof fn lemma_units_change_places(
    m: NetMath,
    w: DirectionView,
    clip: F32,
    features: MatView,
    reverse: bool,
    order: Seq<int>,
    t: int,
    j: int,
)
    requires
        fits(w),
        w.diagonal,
        w.input > 0,
        features.cols == w.input,
        order.len() == w.hidden,
        0 <= t < features.rows,
        0 <= j < w.hidden,
        0 <= order[j] < w.hidden,
    ensures
        direction_output(m, reordered(w, order), clip, features, reverse).at(t, j)
            == direction_output(m, w, clip, features, reverse).at(t, order[j]),
{
    lemma_reordered_unit(w, order, j);
    lemma_unit_stands_alone(m, reordered(w, order), clip, features, reverse, t, j);
    lemma_unit_stands_alone(m, w, clip, features, reverse, t, order[j]);
}

proof fn lemma_states_follow(
    m: NetMath,
    w: DirectionView,
    clip: F32,
    a: MatView,
    b: MatView,
    steps: nat,
)
    requires
        a.cols == b.cols,
        forall|t: int| 0 <= t < steps ==> #[trigger] a.row(t) == b.row(t),
    ensures
        states_after(m, w, clip, a, false, steps) == states_after(m, w, clip, b, false, steps),
    decreases steps,
{
    if steps > 0 {
        let before = (steps - 1) as nat;
        lemma_states_follow(m, w, clip, a, b, before);
        let s = states_after(m, w, clip, a, false, before);
        let t = steps - 1;
        assert(a.row(t) == b.row(t));
        assert forall|g: int| gate_of(w, a, s.h, t, g) == #[trigger] gate_of(w, b, s.h, t, g) by {}
        let x = next_states(m, w, clip, a, s, t);
        let y = next_states(m, w, clip, b, s, t);
        assert forall|j: int| 0 <= j < w.hidden implies #[trigger] next_cell(
            m,
            w,
            clip,
            a,
            s,
            t,
            j,
        ) == next_cell(m, w, clip, b, s, t, j) by {}
        assert(x.c =~= y.c);
        assert(x.h =~= y.h);
    }
}

/// The forward direction does not look ahead: up to any time it gives the same for
/// features that are the same up to that time.
pub proof fn lemma_no_look_ahead(
    m: NetMath,
    w: DirectionView,
    clip: F32,
    a: MatView,
    b: MatView,
    t: int,
    j: int,
)
    requires
        a.cols == b.cols,
        0 <= t < a.rows,
        t < b.rows,
        0 <= j < w.hidden,
        forall|u: int| 0 <= u <= t ==> #[trigger] a.row(u) == b.row(u),
    ensures
        direction_output(m, w, clip, a, false).at(t, j) == direction_output(
            m,
            w,
            clip,
            b,
            false,
        ).at(t, j),
{
    lemma_cell(a.rows, w.hidden as nat, t, j);
    lemma_cell(b.rows, w.hidden as nat, t, j);
    lemma_states_follow(m, w, clip, a, b, (t + 1) as nat);
}

/// A layer gives at every time what its forward direction gives and, behind it, what its
/// backward direction gives.
pub proof fn lemma_directions_side_by_side(
    m: NetMath,
    features: MatView,
    layer: LayerView,
    t: int,
)
    requires
        0 <= t < features.rows,
    ensures
        ({
            let out = layer_output(m, features, layer);
            let ahead = direction_output(m, layer.forward, layer.cell_clip, features, false);
            let back = direction_output(m, layer.backward, layer.cell_clip, features, true);
            &&& out.rows == features.rows
            &&& out.row(t) == ahead.row(t) + back.row(t)
        }),
{
    let out = layer_output(m, features, layer);
    let ahead = direction_output(m, layer.forward, layer.cell_clip, features, false);
    let back = direction_output(m, layer.backward, layer.cell_clip, features, true);
    lemma_row_bounds(features.rows, out.cols, t);
    lemma_row_bounds(features.rows, ahead.cols, t);
    lemma_row_bounds(features.rows, back.cols, t);
    let joined = ahead.row(t) + back.row(t);
    assert(joined.len() == out.cols);
    assert forall|j: int| 0 <= j < out.cols implies out.row(t)[j] == joined[j] by {
        lemma_cell(features.rows, out.cols, t, j);
    }
    assert(out.row(t) =~= joined);
}

/// Every class takes its own row of the head's weights and its own bias.
pub proof fn lemma_class_takes_own_row(
    x: MatView,
    kernels: Seq<F32>,
    biases: Seq<F32>,
    t: int,
    c: int,
)
    requires
        0 <= t < x.rows,
        0 <= c < biases.len(),
    ensures
        head_output(x, kernels, biases).at(t, c) == dot_of(
            kernels.subrange(c * x.cols, (c + 1) * x.cols),
            x.data.subrange(t * x.cols, (t + 1) * x.cols),
            x.cols,
        ).sum(biases[c]),
{
    lemma_cell(x.rows, biases.len(), t, c);
}

/// Clipping with a threshold above zero leaves a cell within it on both sides and does not
/// touch one that is; a threshold of zero clips nothing.
pub proof fn lemma_clipped_within(x: F32, clip: F32)
    requires
        !x.nan(),
        clip.finite(),
        !clip.negative(),
    ensures
        clip.index() == 0 ==> clipped(x, clip) == x,
        clip.index() > 0 ==> -clip.rank() <= clipped(x, clip).rank() <= clip.rank(),
        -clip.rank() <= x.rank() <= clip.rank() ==> clipped(x, clip) == x,
{
    let low = clip.opposite();
    assert(low.index() == clip.index());
    assert(low.negative() == !clip.negative());
}

} // verus!
