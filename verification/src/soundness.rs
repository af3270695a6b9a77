//! What holds of every network that [`crate::tflite`] reads out of a file.
use vstd::prelude::*;

use crate::error::ErrorView;
use crate::flatbuffer::{
    field_of, indirect_at, table_at, table_of, vector_of, TableView, VectorView,
};
use crate::float::F32;
use crate::tflite::{
    all_finite, buffer_values, direction_of, finite_content, floats_in, gates_of, graph_network,
    head_added, head_values, indy_layer, layer_added, lstm_clip, lstm_clip_rest, lstm_layer,
    model_network, network_in, network_of, op_step, ops_followed, output_taken, quantized_of,
    recurrent_shape, shape_of, size_of_shape, sized_direction, sized_values, slot_values,
    tensor_values, weights_added, DirectionView, GraphView, LayerView, NetworkView, ProgressView,
    Slots, TensorsView, GATES,
};

verus! {

/// Whether a direction's weights have the sizes that its dimensions ask for, and are
/// finite.
pub open spec fn direction_sound(d: DirectionView, width: nat) -> bool {
    &&& d.hidden > 0
    &&& d.input == width
    &&& d.input_kernels.len() == 4 * (d.hidden * width)
    &&& d.recurrent_kernels.len() == 4 * (if d.diagonal {
        d.hidden as nat
    } else {
        d.hidden as nat * d.hidden as nat
    })
    &&& d.biases.len() == 4 * d.hidden
    &&& d.initial_activation.len() == d.hidden
    &&& d.initial_cell.len() == d.hidden
    &&& all_finite(d.input_kernels)
    &&& all_finite(d.recurrent_kernels)
    &&& all_finite(d.biases)
    &&& all_finite(d.initial_activation)
    &&& all_finite(d.initial_cell)
}

/// Whether a clipping threshold is a finite number not below zero.
pub open spec fn clip_sound(clip: F32) -> bool {
    clip.finite() && (clip.index() == 0 || !clip.negative())
}

/// How wide the input of layer `k` is: ten features, or both directions of the layer
/// before.
pub open spec fn width_before(layers: Seq<LayerView>, k: int) -> nat {
    if k <= 0 {
        10
    } else {
        layers[k - 1].forward.hidden as nat + layers[k - 1].backward.hidden as nat
    }
}

/// Whether every layer is sound and takes what the layer before gives.
pub open spec fn layers_sound(layers: Seq<LayerView>) -> bool {
    forall|k: int|
        #![trigger layers[k]]
        0 <= k < layers.len() ==> {
            &&& direction_sound(layers[k].forward, width_before(layers, k))
            &&& direction_sound(layers[k].backward, width_before(layers, k))
            &&& clip_sound(layers[k].cell_clip)
        }
}

/// Whether a head has the sizes that the layers below it ask for, and is finite.
pub open spec fn head_sound(layers: Seq<LayerView>, weights: Seq<F32>, bias: Seq<F32>) -> bool {
    &&& 0 < bias.len() <= usize::MAX
    &&& weights.len() == bias.len() * width_before(layers, layers.len() as int)
    &&& all_finite(weights)
    &&& all_finite(bias)
}

/// Whether a network takes ten features, hands them from layer to layer, ends in a head
/// of the right size, and has finite weights and clipping thresholds.
pub open spec fn network_sound(w: NetworkView) -> bool {
    &&& w.input_size == 10
    &&& w.layers.len() > 0
    &&& layers_sound(w.layers)
    &&& w.num_classes == w.fc_bias.len()
    &&& head_sound(w.layers, w.fc_weights, w.fc_bias)
}

pub(crate) proof fn lemma_vector(fb: Seq<u8>, t: TableView, slot: int, width: int)
    requires
        t.pos >= 0,
        width >= 0,
    ensures
        vector_of(fb, t, slot, width) matches Ok(v) ==> {
            &&& v.pos >= 0
            &&& v.len >= 0
            &&& v.width == width
            &&& v.len == 0 || v.pos + v.len * width <= fb.len()
        },
{
    if let Ok(Some(field)) = field_of(fb, t, slot, 4) {
        assert(field >= 0);
        if let Ok(start) = indirect_at(fb, field) {
            assert(start >= 0);
        }
    }
}

pub(crate) proof fn lemma_table(fb: Seq<u8>, v: VectorView, index: int)
    requires
        v.pos >= 0,
        v.width >= 0,
        index >= 0,
    ensures
        table_of(fb, v, index) matches Ok(t) ==> t.pos >= 0,
{
    assert(index * v.width >= 0) by (nonlinear_arith)
        requires
            index >= 0,
            v.width >= 0,
    ;
    let p = v.pos + index * v.width;
    if let Ok(q) = indirect_at(fb, p) {
        assert(q >= 0);
        if let Ok(t) = table_at(fb, q) {
            assert(t.pos == q);
        }
    }
}

proof fn lemma_values(
    fb: Seq<u8>,
    ts: TensorsView,
    index: int,
    expected: Seq<usize>,
    state: bool,
)
    requires
        ts.buffers.pos >= 0,
        ts.buffers.width >= 0,
    ensures
        tensor_values(fb, ts, index, expected, state) matches Ok(values) ==> {
            &&& size_of_shape(expected) == Some(values.len())
            &&& all_finite(values)
        },
{
    reveal(tensor_values);
    if let Ok(values) = tensor_values(fb, ts, index, expected, state) {
        let tensor = crate::tflite::tensor_of(fb, ts, index)->Ok_0;
        let count = size_of_shape(expected)->0;
        assert(sized_values(fb, ts, tensor, index, expected, count, state) == Ok::<
            Seq<F32>,
            ErrorView,
        >(values));
        let kind = crate::flatbuffer::u8_of(fb, tensor, 6, 0)->Ok_0;
        let slot = crate::flatbuffer::u32_of(fb, tensor, 8, 0)->Ok_0;
        lemma_table(fb, ts.buffers, slot as int);
        let holder = table_of(fb, ts.buffers, slot as int)->Ok_0;
        lemma_vector(fb, holder, 4, 1);
        let buffer = vector_of(fb, holder, 4, 1)->Ok_0;
        assert(buffer_values(fb, tensor, index, expected, count, state, kind, buffer) == Ok::<
            Seq<F32>,
            ErrorView,
        >(values));
        if buffer.len == 0 && state && kind == 0 {
            assert(values.len() == count);
        } else {
            let data = fb.subrange(buffer.pos, buffer.pos + buffer.len);
            assert(data.len() == buffer.len);
            assert(finite_content(fb, tensor, index, kind, buffer.pos, data) == Ok::<
                Seq<F32>,
                ErrorView,
            >(values));
            if kind == 0 {
                assert(floats_in(data).len() == count);
            } else {
                assert(quantized_of(fb, tensor, index, kind, data)->Ok_0.len() == data.len());
            }
        }
    }
}

pub(crate) proof fn lemma_shapes(a: usize, b: usize)
    ensures
        size_of_shape(seq![a]) == Some(a as nat),
        size_of_shape(seq![a, b]) matches Some(n) ==> n == a * b,
{
    let none = Seq::<usize>::empty();
    let one = seq![a];
    let two = seq![a, b];
    assert(one.drop_last() =~= none);
    assert(two.drop_last() =~= one);
    assert(size_of_shape(none) == Some(1nat));
    assert(one.last() == a && two.last() == b);
    assert(1nat * a == a) by (nonlinear_arith);
    assert(size_of_shape(one) == Some(a as nat));
}

proof fn lemma_joined(a: Seq<F32>, b: Seq<F32>)
    requires
        all_finite(a),
        all_finite(b),
    ensures
        all_finite(a + b),
{
    assert forall|i: int| 0 <= i < (a + b).len() implies (#[trigger] (a + b)[i]).finite() by {
        if i < a.len() {
            assert(a[i].finite());
        } else {
            assert(b[i - a.len()].finite());
        }
    }
}

/// How many numbers one gate's recurrent kernel has.
pub open spec fn recurrent_size(hidden: usize, diagonal: bool) -> nat {
    if diagonal {
        hidden as nat
    } else {
        hidden as nat * hidden as nat
    }
}

pub(crate) proof fn lemma_gates(
    fb: Seq<u8>,
    ts: TensorsView,
    inputs: VectorView,
    start: int,
    bias_start: int,
    hidden: usize,
    width: usize,
    diagonal: bool,
    n: nat,
)
    requires
        ts.buffers.pos >= 0,
        ts.buffers.width >= 0,
    ensures
        gates_of(fb, ts, inputs, start, bias_start, hidden, width, diagonal, n) matches Ok(
            (a, b, c),
        ) ==> {
            &&& a.len() == n * (hidden * width)
            &&& b.len() == n * recurrent_size(hidden, diagonal)
            &&& c.len() == n * hidden
            &&& all_finite(a) && all_finite(b) && all_finite(c)
        },
    decreases n,
{
    if n == 0 {
        assert(0 * (hidden * width) == 0 && 0 * recurrent_size(hidden, diagonal) == 0) by (
        nonlinear_arith);
    } else {
        let m = (n - 1) as nat;
        lemma_gates(fb, ts, inputs, start, bias_start, hidden, width, diagonal, m);
        if let Ok((a, b, c)) = gates_of(
            fb,
            ts,
            inputs,
            start,
            bias_start,
            hidden,
            width,
            diagonal,
            n,
        ) {
            let (a0, b0, c0) = gates_of(
                fb,
                ts,
                inputs,
                start,
                bias_start,
                hidden,
                width,
                diagonal,
                m,
            )->Ok_0;
            let x = slot_values(fb, ts, inputs, start + n - 1, seq![hidden, width], false)->Ok_0;
            let y = slot_values(
                fb,
                ts,
                inputs,
                start + 4 + n - 1,
                recurrent_shape(hidden, diagonal),
                false,
            )->Ok_0;
            let z = slot_values(fb, ts, inputs, bias_start + n - 1, seq![hidden], false)->Ok_0;
            lemma_slot(fb, ts, inputs, start + n - 1, seq![hidden, width], false);
            lemma_slot(
                fb,
                ts,
                inputs,
                start + 4 + n - 1,
                recurrent_shape(hidden, diagonal),
                false,
            );
            lemma_slot(fb, ts, inputs, bias_start + n - 1, seq![hidden], false);
            lemma_shapes(hidden, width);
            lemma_shapes(hidden, hidden);
            assert(a == a0 + x && b == b0 + y && c == c0 + z);
            lemma_joined(a0, x);
            lemma_joined(b0, y);
            lemma_joined(c0, z);
            let r = recurrent_size(hidden, diagonal);
            let i = (hidden * width) as nat;
            assert(m * i + i == n * i && m * r + r == n * r && m * hidden + hidden == n * hidden)
                by (nonlinear_arith)
                requires
                    m == n - 1,
            ;
        }
    }
}

pub(crate) proof fn lemma_slot(
    fb: Seq<u8>,
    ts: TensorsView,
    inputs: VectorView,
    slot: int,
    expected: Seq<usize>,
    state: bool,
)
    requires
        ts.buffers.pos >= 0,
        ts.buffers.width >= 0,
    ensures
        slot_values(fb, ts, inputs, slot, expected, state) matches Ok(values) ==> {
            &&& size_of_shape(expected) == Some(values.len())
            &&& all_finite(values)
        },
{
    if let Ok(index) = crate::flatbuffer::i32_of(fb, inputs, slot) {
        lemma_values(fb, ts, index as int, expected, state);
    }
}

proof fn lemma_direction(
    fb: Seq<u8>,
    ts: TensorsView,
    inputs: VectorView,
    slots: Slots,
    width: usize,
    diagonal: bool,
)
    requires
        ts.buffers.pos >= 0,
        ts.buffers.width >= 0,
    ensures
        direction_of(fb, ts, inputs, slots, width, diagonal) matches Ok(d) ==> direction_sound(
            d,
            width as nat,
        ),
{
    reveal(direction_of);
    if let Ok(d) = direction_of(fb, ts, inputs, slots, width, diagonal) {
        let hidden = d.hidden;
        assert(sized_direction(fb, ts, inputs, slots, hidden, width, diagonal) == Ok::<
            DirectionView,
            ErrorView,
        >(d));
        lemma_gates(
            fb,
            ts,
            inputs,
            slots.start as int,
            slots.bias_start as int,
            hidden,
            width,
            diagonal,
            GATES as nat,
        );
        lemma_slot(fb, ts, inputs, slots.state_start as int, seq![1usize, hidden], true);
        lemma_slot(fb, ts, inputs, slots.state_start + 1, seq![1usize, hidden], true);
        lemma_shapes(1, hidden);
    }
}

/// Whether the chain so far is sound: its layers, what they give, and the head, which
/// comes last.
spec fn progress_sound(s: ProgressView, last: bool) -> bool {
    &&& layers_sound(s.layers)
    &&& match s.head {
        None => s.width == width_before(s.layers, s.layers.len() as int),
        Some((weights, bias)) => last && s.layers.len() > 0 && head_sound(s.layers, weights, bias),
    }
}

proof fn lemma_layer(
    fb: Seq<u8>,
    g: GraphView,
    op: TableView,
    inputs: VectorView,
    forward: Slots,
    backward: Slots,
    diagonal: bool,
    clip: F32,
    options: Seq<u8>,
    s: ProgressView,
    last: bool,
)
    requires
        g.tensors.buffers.pos >= 0,
        g.tensors.buffers.width >= 0,
        clip_sound(clip),
        s.head is None,
        progress_sound(s, false),
    ensures
        layer_added(fb, g, op, inputs, forward, backward, diagonal, clip, options, s) matches Ok(t)
            ==> progress_sound(t, last),
{
    lemma_direction(fb, g.tensors, inputs, forward, s.width, diagonal);
    lemma_direction(fb, g.tensors, inputs, backward, s.width, diagonal);
    if let Ok(t) = layer_added(
        fb,
        g,
        op,
        inputs,
        forward,
        backward,
        diagonal,
        clip,
        options,
        s,
    ) {
        assert forall|k: int|
            #![trigger t.layers[k]]
            0 <= k < t.layers.len() implies {
            &&& direction_sound(t.layers[k].forward, width_before(t.layers, k))
            &&& direction_sound(t.layers[k].backward, width_before(t.layers, k))
            &&& clip_sound(t.layers[k].cell_clip)
        } by {
            assert(width_before(t.layers, k) == width_before(s.layers, k)) by {
                if k > 0 {
                    assert(t.layers[k - 1] == s.layers[k - 1]);
                }
            }
            if k < s.layers.len() {
                assert(t.layers[k] == s.layers[k]);
            }
        }
    }
}

proof fn lemma_head(
    fb: Seq<u8>,
    g: GraphView,
    op: TableView,
    inputs: VectorView,
    s: ProgressView,
)
    requires
        g.tensors.buffers.pos >= 0,
        g.tensors.buffers.width >= 0,
        s.head is None,
        s.layers.len() > 0,
        progress_sound(s, false),
    ensures
        head_values(fb, g, op, inputs, s) matches Ok(t) ==> progress_sound(t, true),
{
    if let Ok(t) = head_values(fb, g, op, inputs, s) {
        let index = crate::flatbuffer::i32_of(fb, inputs, 2)->Ok_0 as int;
        let shape = shape_of(fb, g.tensors, index)->Ok_0;
        assert(shape =~= seq![shape[0]]);
        lemma_values(fb, g.tensors, index, shape, false);
        lemma_slot(fb, g.tensors, inputs, 1, seq![shape[0], s.width], false);
        lemma_shapes(shape[0], s.width);
    }
}

proof fn lemma_op(fb: Seq<u8>, g: GraphView, k: int, s: ProgressView)
    requires
        g.tensors.buffers.pos >= 0,
        g.tensors.buffers.width >= 0,
        s.head is None,
        progress_sound(s, false),
        0 <= k < g.ops.len,
    ensures
        op_step(fb, g, k, s) matches Ok(t) ==> progress_sound(t, k == g.ops.len - 1),
{
    reveal(op_step);
    if let Ok(t) = op_step(fb, g, k, s) {
        let last = k == g.ops.len - 1;
        let op = table_of(fb, g.ops, k)->Ok_0;
        let slot = crate::flatbuffer::u32_of(fb, op, 4, 0)->Ok_0;
        let code = table_of(fb, g.codes, slot as int)->Ok_0;
        let (builtin, custom) = crate::tflite::code_of(fb, code)->Ok_0;
        let inputs = vector_of(fb, op, 6, 4)->Ok_0;
        let outputs = vector_of(fb, op, 8, 4)->Ok_0;
        assert(weights_added(fb, g, k, op, builtin, custom, inputs, s) is Ok);
        let m = weights_added(fb, g, k, op, builtin, custom, inputs, s)->Ok_0;
        assert(output_taken(fb, g, k, op, outputs, m) == Ok::<ProgressView, ErrorView>(t));
        assert(progress_sound(m, last)) by {
            if indy_layer(fb, g, op, inputs, s) == Ok::<ProgressView, ErrorView>(m) {
                let raw = vector_of(fb, op, 14, 1)->Ok_0;
                let options = fb.subrange(raw.pos, raw.pos + raw.len);
                let clip = crate::tflite::clip_of(options, raw.pos)->Ok_0;
                lemma_layer(
                    fb,
                    g,
                    op,
                    inputs,
                    crate::tflite::indy_forward(),
                    crate::tflite::indy_backward(),
                    true,
                    clip,
                    options,
                    s,
                    last,
                );
            } else if lstm_layer(fb, g, k, op, inputs, s) == Ok::<ProgressView, ErrorView>(m) {
                let options = crate::tflite::options_of(fb, op, 69)->Ok_0;
                let clip = lstm_clip(fb, k, options)->Ok_0;
                assert(lstm_clip_rest(fb, k, options, clip) == Ok::<F32, ErrorView>(clip));
                lemma_layer(
                    fb,
                    g,
                    op,
                    inputs,
                    crate::tflite::lstm_forward(),
                    crate::tflite::lstm_backward(),
                    false,
                    clip,
                    Seq::empty(),
                    s,
                    last,
                );
            } else {
                assert(head_added(fb, g, k, op, inputs, s) == Ok::<ProgressView, ErrorView>(m));
                lemma_head(fb, g, op, inputs, s);
            }
        }
    }
}

proof fn lemma_ops(fb: Seq<u8>, g: GraphView, start: ProgressView, n: nat)
    requires
        g.tensors.buffers.pos >= 0,
        g.tensors.buffers.width >= 0,
        start.width == 10,
        start.layers == Seq::<LayerView>::empty(),
        start.head is None,
        n <= g.ops.len,
    ensures
        ops_followed(fb, g, start, n) matches Ok(s) ==> progress_sound(s, n == g.ops.len),
    decreases n,
{
    if n > 0 {
        lemma_ops(fb, g, start, (n - 1) as nat);
        if let Ok(s) = ops_followed(fb, g, start, (n - 1) as nat) {
            assert(s.head is None);
            lemma_op(fb, g, n - 1, s);
        }
    }
}

/// Every network that loads takes ten features, hands them from layer to layer, ends in
/// a head of the right size, and has finite weights and clipping thresholds.
pub proof fn lemma_network_sound(data: Seq<u8>)
    ensures
        network_in(data) matches Ok(w) ==> network_sound(w),
{
    if let Ok(w) = network_in(data) {
        let root = indirect_at(data, 0)->Ok_0;
        let model = table_at(data, root)->Ok_0;
        assert(root >= 0 && model.pos == root);
        let graphs = vector_of(data, model, 8, 4)->Ok_0;
        let graph = table_of(data, graphs, 0)->Ok_0;
        lemma_vector(data, model, 8, 4);
        lemma_table(data, graphs, 0);
        lemma_vector(data, model, 12, 4);
        lemma_vector(data, graph, 10, 4);
        assert(model_network(data, model, graph) == Ok::<NetworkView, ErrorView>(w));
        let inputs = vector_of(data, graph, 6, 4)->Ok_0;
        let outputs = vector_of(data, graph, 8, 4)->Ok_0;
        let tensors = vector_of(data, graph, 4, 4)->Ok_0;
        let buffers = vector_of(data, model, 12, 4)->Ok_0;
        let ts = TensorsView { tensors, buffers };
        assert(graph_network(data, model, graph, inputs, outputs, ts) == Ok::<
            NetworkView,
            ErrorView,
        >(w));
        let current = crate::flatbuffer::i32_of(data, inputs, 0)->Ok_0;
        let codes = vector_of(data, model, 6, 4)->Ok_0;
        let ops = vector_of(data, graph, 10, 4)->Ok_0;
        let g = GraphView { tensors: ts, codes, ops };
        assert(network_of(data, g, graph, current, crate::tflite::entry(data, outputs, 0)) == Ok::<
            NetworkView,
            ErrorView,
        >(w));
        let start = ProgressView { current, width: 10, layers: Seq::empty(), head: None };
        lemma_ops(data, g, start, ops.len as nat);
    }
}

} // verus!
