//! Which tensors of a file the weights of its network are.
use vstd::prelude::*;

use crate::error::ErrorView;
use crate::flatbuffer::{
    i32_of, indirect_at, table_at, table_of, u32_of, vector_of, TableView, VectorView,
};
use crate::float::F32;
use crate::soundness::{
    lemma_gates, lemma_shapes, lemma_slot, lemma_table, lemma_vector, recurrent_size,
};
use crate::tflite::{
    clip_of, code_of, dequantized_all, direction_of, floats_in, gates_of, graph_network, head_added, head_values, indy_layer,
    layer_added, lstm_clip, lstm_layer, model_network, network_in, network_of, op_step,
    ops_followed, options_of, output_taken, shape_of, sized_direction, tensor_values,
    weights_added, DirectionView, GraphView, LayerView, NetworkView, ProgressView, Slots,
    TensorsView,
};

verus! {

/// The tables of a model and of its one graph.
pub open spec fn tables_in(fb: Seq<u8>) -> (TableView, TableView) {
    let model = table_at(fb, indirect_at(fb, 0)->Ok_0)->Ok_0;
    (model, table_of(fb, vector_of(fb, model, 8, 4)->Ok_0, 0)->Ok_0)
}

/// Where the tensors, the buffers, the codes and the operators of a file lie.
pub open spec fn graph_in(fb: Seq<u8>) -> GraphView {
    let (model, graph) = tables_in(fb);
    GraphView {
        tensors: TensorsView {
            tensors: vector_of(fb, graph, 4, 4)->Ok_0,
            buffers: vector_of(fb, model, 12, 4)->Ok_0,
        },
        codes: vector_of(fb, model, 6, 4)->Ok_0,
        ops: vector_of(fb, graph, 10, 4)->Ok_0,
    }
}

/// An operator's table.
pub open spec fn operator(fb: Seq<u8>, g: GraphView, k: int) -> TableView {
    table_of(fb, g.ops, k)->Ok_0
}

/// The tensors that an operator takes.
pub open spec fn inputs_of(fb: Seq<u8>, g: GraphView, k: int) -> VectorView {
    vector_of(fb, operator(fb, g, k), 6, 4)->Ok_0
}

/// Whether an operator is the custom one for layers of independent units.
#[verifier::opaque]
pub open spec fn is_custom(fb: Seq<u8>, g: GraphView, k: int) -> bool {
    let slot = u32_of(fb, operator(fb, g, k), 4, 0)->Ok_0;
    let code = table_of(fb, g.codes, slot as int)->Ok_0;
    code_of(fb, code)->Ok_0.1 == vstd::utf8::encode_utf8("bidirectional_sequence_indylstm"@)
}

/// Whether numbers are those of the tensor in an input slot.
pub open spec fn fills(
    fb: Seq<u8>,
    ts: TensorsView,
    inputs: VectorView,
    slot: int,
    shape: Seq<usize>,
    state: bool,
    values: Seq<F32>,
) -> bool {
    &&& i32_of(fb, inputs, slot) is Ok
    &&& tensor_values(fb, ts, i32_of(fb, inputs, slot)->Ok_0 as int, shape, state) == Ok::<
        Seq<F32>,
        ErrorView,
    >(values)
}

/// The numbers of one of four gates.
pub open spec fn gate_part(values: Seq<F32>, gate: int, size: nat) -> Seq<F32> {
    values.subrange(gate * size, (gate + 1) * size)
}

/// The dimensions of one gate's recurrent kernel.
pub open spec fn recurrent_dims(hidden: usize, diagonal: bool) -> Seq<usize> {
    if diagonal {
        seq![hidden]
    } else {
        seq![hidden, hidden]
    }
}

/// Whether a gate's input kernel, recurrent kernel and biases are the tensors in three
/// slots.
pub open spec fn gate_wired(
    fb: Seq<u8>,
    ts: TensorsView,
    inputs: VectorView,
    d: DirectionView,
    gate: int,
    kernel: int,
    recurrent: int,
    bias: int,
) -> bool {
    &&& fills(
        fb,
        ts,
        inputs,
        kernel,
        seq![d.hidden, d.input],
        false,
        gate_part(d.input_kernels, gate, (d.hidden * d.input) as nat),
    )
    &&& fills(
        fb,
        ts,
        inputs,
        recurrent,
        recurrent_dims(d.hidden, d.diagonal),
        false,
        gate_part(d.recurrent_kernels, gate, recurrent_size(d.hidden, d.diagonal)),
    )
    &&& fills(
        fb,
        ts,
        inputs,
        bias,
        seq![d.hidden],
        false,
        gate_part(d.biases, gate, d.hidden as nat),
    )
}

/// Whether a direction has, gate by gate, its input kernels from the slots at `kernels`,
/// its recurrent kernels from those at `recurrent` and its biases from those at `biases`,
/// and its first activation and cell from two more slots.
#[verifier::opaque]
pub open spec fn wired(
    fb: Seq<u8>,
    ts: TensorsView,
    inputs: VectorView,
    d: DirectionView,
    kernels: int,
    recurrent: int,
    biases: int,
    activation: int,
    cell: int,
) -> bool {
    &&& d.input_kernels.len() == 4 * (d.hidden * d.input)
    &&& d.recurrent_kernels.len() == 4 * recurrent_size(d.hidden, d.diagonal)
    &&& d.biases.len() == 4 * d.hidden
    &&& gate_wired(fb, ts, inputs, d, 0, kernels, recurrent, biases)
    &&& gate_wired(fb, ts, inputs, d, 1, kernels + 1, recurrent + 1, biases + 1)
    &&& gate_wired(fb, ts, inputs, d, 2, kernels + 2, recurrent + 2, biases + 2)
    &&& gate_wired(fb, ts, inputs, d, 3, kernels + 3, recurrent + 3, biases + 3)
    &&& fills(fb, ts, inputs, activation, seq![1usize, d.hidden], true, d.initial_activation)
    &&& fills(fb, ts, inputs, cell, seq![1usize, d.hidden], true, d.initial_cell)
}

/// Whether a layer is what its operator's tensors say.
#[verifier::opaque]
pub open spec fn layer_wired(fb: Seq<u8>, g: GraphView, k: int, l: LayerView) -> bool {
    let inputs = inputs_of(fb, g, k);
    if is_custom(fb, g, k) {
        &&& l.forward.diagonal && l.backward.diagonal
        &&& wired(fb, g.tensors, inputs, l.forward, 1, 5, 9, 25, 26)
        &&& wired(fb, g.tensors, inputs, l.backward, 13, 17, 21, 27, 28)
    } else {
        &&& !l.forward.diagonal && !l.backward.diagonal
        &&& wired(fb, g.tensors, inputs, l.forward, 1, 5, 12, 35, 36)
        &&& wired(fb, g.tensors, inputs, l.backward, 18, 22, 29, 37, 38)
    }
}

proof fn lemma_part(before: Seq<F32>, more: Seq<F32>, n: nat, size: nat, gate: int)
    requires
        before.len() == n * size,
        more.len() == size,
        0 <= gate <= n,
    ensures
        gate_part(before + more, gate, size) == (if gate == n {
            more
        } else {
            gate_part(before, gate, size)
        }),
{
    assert((gate + 1) * size == gate * size + size) by (nonlinear_arith);
    assert(0 <= gate * size) by (nonlinear_arith)
        requires
            0 <= gate,
    ;
    if gate == n {
        assert(gate_part(before + more, gate, size) =~= more);
    } else {
        assert((gate + 1) * size <= n * size) by (nonlinear_arith)
            requires
                gate + 1 <= n,
        ;
        assert(gate_part(before + more, gate, size) =~= gate_part(before, gate, size));
    }
}

proof fn lemma_gate_wired(
    fb: Seq<u8>,
    ts: TensorsView,
    inputs: VectorView,
    start: int,
    bias_start: int,
    hidden: usize,
    width: usize,
    diagonal: bool,
    n: nat,
    gate: int,
)
    requires
        ts.buffers.pos >= 0,
        ts.buffers.width >= 0,
        0 <= gate < n,
        gates_of(fb, ts, inputs, start, bias_start, hidden, width, diagonal, n) is Ok,
    ensures
        ({
            let (a, b, c) = gates_of(
                fb,
                ts,
                inputs,
                start,
                bias_start,
                hidden,
                width,
                diagonal,
                n,
            )->Ok_0;
            let size = (hidden * width) as nat;
            let part = recurrent_size(hidden, diagonal);
            &&& fills(
                fb,
                ts,
                inputs,
                start + gate,
                seq![hidden, width],
                false,
                gate_part(a, gate, size),
            )
            &&& fills(
                fb,
                ts,
                inputs,
                start + 4 + gate,
                recurrent_dims(hidden, diagonal),
                false,
                gate_part(b, gate, part),
            )
            &&& fills(
                fb,
                ts,
                inputs,
                bias_start + gate,
                seq![hidden],
                false,
                gate_part(c, gate, hidden as nat),
            )
        }),
    decreases n,
{
    let m = (n - 1) as nat;
    let size = (hidden * width) as nat;
    let part = recurrent_size(hidden, diagonal);
    let (a0, b0, c0) = gates_of(
        fb,
        ts,
        inputs,
        start,
        bias_start,
        hidden,
        width,
        diagonal,
        m,
    )->Ok_0;
    lemma_gates(fb, ts, inputs, start, bias_start, hidden, width, diagonal, m);
    let dims = recurrent_dims(hidden, diagonal);
    lemma_slot(fb, ts, inputs, start + n - 1, seq![hidden, width], false);
    lemma_slot(fb, ts, inputs, start + 4 + n - 1, dims, false);
    lemma_slot(fb, ts, inputs, bias_start + n - 1, seq![hidden], false);
    lemma_shapes(hidden, width);
    lemma_shapes(hidden, hidden);
    let x = crate::tflite::slot_values(
        fb,
        ts,
        inputs,
        start + n - 1,
        seq![hidden, width],
        false,
    )->Ok_0;
    let y = crate::tflite::slot_values(fb, ts, inputs, start + 4 + n - 1, dims, false)->Ok_0;
    let z = crate::tflite::slot_values(
        fb,
        ts,
        inputs,
        bias_start + n - 1,
        seq![hidden],
        false,
    )->Ok_0;
    lemma_part(a0, x, m, size, gate);
    lemma_part(b0, y, m, part, gate);
    lemma_part(c0, z, m, hidden as nat, gate);
    if gate < n - 1 {
        lemma_gate_wired(
            fb,
            ts,
            inputs,
            start,
            bias_start,
            hidden,
            width,
            diagonal,
            m,
            gate,
        );
    }
}

proof fn lemma_one_wired(
    fb: Seq<u8>,
    ts: TensorsView,
    inputs: VectorView,
    slots: Slots,
    width: usize,
    diagonal: bool,
    d: DirectionView,
    gate: int,
)
    requires
        ts.buffers.pos >= 0,
        ts.buffers.width >= 0,
        0 <= gate < 4,
        sized_direction(fb, ts, inputs, slots, d.hidden, width, diagonal) == Ok::<
            DirectionView,
            ErrorView,
        >(d),
    ensures
        gate_wired(
            fb,
            ts,
            inputs,
            d,
            gate,
            slots.start + gate,
            slots.start + 4 + gate,
            slots.bias_start + gate,
        ),
{
    lemma_gate_wired(
        fb,
        ts,
        inputs,
        slots.start as int,
        slots.bias_start as int,
        d.hidden,
        width,
        diagonal,
        4,
        gate,
    );
}

proof fn lemma_direction_wired(
    fb: Seq<u8>,
    ts: TensorsView,
    inputs: VectorView,
    slots: Slots,
    width: usize,
    diagonal: bool,
)
    requires
        ts.buffers.pos >= 0,
        ts.buffers.width >= 0,
    ensures
        direction_of(fb, ts, inputs, slots, width, diagonal) matches Ok(d) ==> d.diagonal
            == diagonal && wired(
            fb,
            ts,
            inputs,
            d,
            slots.start as int,
            slots.start + 4,
            slots.bias_start as int,
            slots.state_start as int,
            slots.state_start + 1,
        ),
{
    reveal(direction_of);
    if let Ok(d) = direction_of(fb, ts, inputs, slots, width, diagonal) {
        let hidden = d.hidden;
        assert(sized_direction(fb, ts, inputs, slots, hidden, width, diagonal) == Ok::<
            DirectionView,
            ErrorView,
        >(d));
        assert(d.input == width);
        lemma_gates(
            fb,
            ts,
            inputs,
            slots.start as int,
            slots.bias_start as int,
            hidden,
            width,
            diagonal,
            4,
        );
        lemma_one_wired(fb, ts, inputs, slots, width, diagonal, d, 0);
        lemma_one_wired(fb, ts, inputs, slots, width, diagonal, d, 1);
        lemma_one_wired(fb, ts, inputs, slots, width, diagonal, d, 2);
        lemma_one_wired(fb, ts, inputs, slots, width, diagonal, d, 3);
        reveal(wired);
    }
}

/// Whether an operator's layer clips as its options say: the custom operator's in the
/// first four bytes of its own options, the builtin's in its table of options.
#[verifier::opaque]
pub open spec fn clipped_as_told(fb: Seq<u8>, g: GraphView, k: int, l: LayerView) -> bool {
    let op = operator(fb, g, k);
    if is_custom(fb, g, k) {
        let raw = vector_of(fb, op, 14, 1)->Ok_0;
        &&& l.custom_options == fb.subrange(raw.pos, raw.pos + raw.len)
        &&& l.custom_options.len() == 8
        &&& l.cell_clip.bits == crate::bytes::le(l.custom_options.take(4))
    } else {
        &&& l.custom_options.len() == 0
        &&& u32_of(fb, options_of(fb, op, 69)->Ok_0, 6, 0) == Ok::<u32, ErrorView>(l.cell_clip.bits)
    }
}

/// Whether a head is the last operator's weights and bias.
#[verifier::opaque]
pub open spec fn head_wired(
    fb: Seq<u8>,
    g: GraphView,
    k: int,
    weights: Seq<F32>,
    bias: Seq<F32>,
    width: usize,
) -> bool {
    let inputs = inputs_of(fb, g, k);
    &&& bias.len() <= usize::MAX
    &&& fills(fb, g.tensors, inputs, 1, seq![bias.len() as usize, width], false, weights)
    &&& fills(fb, g.tensors, inputs, 2, seq![bias.len() as usize], false, bias)
}

/// How many numbers the layers so far give at each frame.
spec fn given(layers: Seq<LayerView>) -> int {
    if layers.len() == 0 {
        10
    } else {
        layers.last().forward.hidden + layers.last().backward.hidden
    }
}

/// What the first `n` operators have been followed to.
spec fn progress_wired(fb: Seq<u8>, g: GraphView, n: nat, s: ProgressView) -> bool {
    &&& forall|k: int|
        0 <= k < s.layers.len() ==> {
            &&& layer_wired(fb, g, k, #[trigger] s.layers[k])
            &&& clipped_as_told(fb, g, k, s.layers[k])
        }
    &&& match s.head {
        None => s.layers.len() == n && s.width == given(s.layers),
        Some((weights, bias)) => {
            &&& n == g.ops.len
            &&& s.layers.len() == n - 1
            &&& n > 1
            &&& given(s.layers) <= usize::MAX
            &&& head_wired(fb, g, n - 1, weights, bias, given(s.layers) as usize)
        },
    }
}

proof fn lemma_layer_wired(
    fb: Seq<u8>,
    g: GraphView,
    op: TableView,
    inputs: VectorView,
    forward: Slots,
    backward: Slots,
    diagonal: bool,
    clip: F32,
    options: Seq<u8>,
    s: ProgressView,
) -> (l: LayerView)
    requires
        g.tensors.buffers.pos >= 0,
        g.tensors.buffers.width >= 0,
        layer_added(fb, g, op, inputs, forward, backward, diagonal, clip, options, s) is Ok,
    ensures
        ({
            let t = layer_added(
                fb,
                g,
                op,
                inputs,
                forward,
                backward,
                diagonal,
                clip,
                options,
                s,
            )->Ok_0;
            &&& t.layers == s.layers.push(l)
            &&& t.head == s.head
            &&& t.width == l.forward.hidden + l.backward.hidden
        }),
        l.cell_clip == clip,
        l.custom_options == options,
        l.forward.diagonal == diagonal,
        l.backward.diagonal == diagonal,
        wired(
            fb,
            g.tensors,
            inputs,
            l.forward,
            forward.start as int,
            forward.start + 4,
            forward.bias_start as int,
            forward.state_start as int,
            forward.state_start + 1,
        ),
        wired(
            fb,
            g.tensors,
            inputs,
            l.backward,
            backward.start as int,
            backward.start + 4,
            backward.bias_start as int,
            backward.state_start as int,
            backward.state_start + 1,
        ),
{
    lemma_direction_wired(fb, g.tensors, inputs, forward, s.width, diagonal);
    lemma_direction_wired(fb, g.tensors, inputs, backward, s.width, diagonal);
    layer_added(
        fb,
        g,
        op,
        inputs,
        forward,
        backward,
        diagonal,
        clip,
        options,
        s,
    )->Ok_0.layers.last()
}

proof fn lemma_one_more(fb: Seq<u8>, g: GraphView, n: nat, s: ProgressView, t: ProgressView)
    requires
        s.head is None,
        t.head is None,
        progress_wired(fb, g, n, s),
        t.layers.len() > 0,
        t.layers == s.layers.push(t.layers.last()),
        t.width == t.layers.last().forward.hidden + t.layers.last().backward.hidden,
        layer_wired(fb, g, n as int, t.layers.last()),
        clipped_as_told(fb, g, n as int, t.layers.last()),
    ensures
        progress_wired(fb, g, n + 1, t),
{
    assert forall|k: int| 0 <= k < t.layers.len() implies {
        &&& layer_wired(fb, g, k, #[trigger] t.layers[k])
        &&& clipped_as_told(fb, g, k, t.layers[k])
    } by {
        if k < n {
            assert(t.layers[k] == s.layers[k]);
        }
    }
}

proof fn lemma_custom_wired(
    fb: Seq<u8>,
    g: GraphView,
    n: nat,
    op: TableView,
    inputs: VectorView,
    s: ProgressView,
)
    requires
        g.tensors.buffers.pos >= 0,
        g.tensors.buffers.width >= 0,
        s.head is None,
        op == operator(fb, g, n as int),
        inputs == inputs_of(fb, g, n as int),
        is_custom(fb, g, n as int),
        indy_layer(fb, g, op, inputs, s) is Ok,
        progress_wired(fb, g, n, s),
    ensures
        progress_wired(fb, g, n + 1, indy_layer(fb, g, op, inputs, s)->Ok_0),
{
    let raw = vector_of(fb, op, 14, 1)->Ok_0;
    let options = fb.subrange(raw.pos, raw.pos + raw.len);
    let clip = clip_of(options, raw.pos)->Ok_0;
    let l = lemma_layer_wired(
        fb,
        g,
        op,
        inputs,
        crate::tflite::indy_forward(),
        crate::tflite::indy_backward(),
        true,
        clip,
        options,
        s,
    );
    let t = indy_layer(fb, g, op, inputs, s)->Ok_0;
    assert(t.layers == s.layers.push(l));
    assert(layer_wired(fb, g, n as int, l)) by {
        reveal(layer_wired);
    }
    assert(clipped_as_told(fb, g, n as int, l)) by {
        reveal(clipped_as_told);
        crate::bytes::lemma_le_unfold(options.take(4));
    }
    lemma_one_more(fb, g, n, s, t);
}

proof fn lemma_builtin_wired(
    fb: Seq<u8>,
    g: GraphView,
    n: nat,
    op: TableView,
    inputs: VectorView,
    s: ProgressView,
)
    requires
        g.tensors.buffers.pos >= 0,
        g.tensors.buffers.width >= 0,
        s.head is None,
        op == operator(fb, g, n as int),
        inputs == inputs_of(fb, g, n as int),
        !is_custom(fb, g, n as int),
        lstm_layer(fb, g, n as int, op, inputs, s) is Ok,
        progress_wired(fb, g, n, s),
    ensures
        progress_wired(fb, g, n + 1, lstm_layer(fb, g, n as int, op, inputs, s)->Ok_0),
{
    let options = options_of(fb, op, 69)->Ok_0;
    let clip = lstm_clip(fb, n as int, options)->Ok_0;
    let l = lemma_layer_wired(
        fb,
        g,
        op,
        inputs,
        crate::tflite::lstm_forward(),
        crate::tflite::lstm_backward(),
        false,
        clip,
        Seq::empty(),
        s,
    );
    let t = lstm_layer(fb, g, n as int, op, inputs, s)->Ok_0;
    assert(t.layers == s.layers.push(l));
    assert(layer_wired(fb, g, n as int, l)) by {
        reveal(layer_wired);
    }
    assert(clipped_as_told(fb, g, n as int, l)) by {
        reveal(clipped_as_told);
    }
    lemma_one_more(fb, g, n, s, t);
}

proof fn lemma_head_wired(
    fb: Seq<u8>,
    g: GraphView,
    n: nat,
    op: TableView,
    inputs: VectorView,
    s: ProgressView,
)
    requires
        g.tensors.buffers.pos >= 0,
        g.tensors.buffers.width >= 0,
        s.head is None,
        progress_wired(fb, g, n, s),
        n == g.ops.len - 1,
        s.layers.len() > 0,
        inputs == inputs_of(fb, g, n as int),
        head_values(fb, g, op, inputs, s) is Ok,
    ensures
        progress_wired(fb, g, n + 1, head_values(fb, g, op, inputs, s)->Ok_0),
{
    let index = i32_of(fb, inputs, 2)->Ok_0 as int;
    let shape = shape_of(fb, g.tensors, index)->Ok_0;
    assert(shape =~= seq![shape[0]]);
    lemma_slot(fb, g.tensors, inputs, 2, shape, false);
    lemma_shapes(shape[0], s.width);
    let t = head_values(fb, g, op, inputs, s)->Ok_0;
    let (weights, bias) = t.head->0;
    assert(head_wired(fb, g, n as int, weights, bias, s.width)) by {
        reveal(head_wired);
    }
    assert(t.layers == s.layers);
    assert(given(s.layers) == s.width);
    assert(progress_wired(fb, g, n + 1, t)) by {
        assert forall|k: int| 0 <= k < t.layers.len() implies {
            &&& layer_wired(fb, g, k, #[trigger] t.layers[k])
            &&& clipped_as_told(fb, g, k, t.layers[k])
        } by {
            assert(layer_wired(fb, g, k, s.layers[k]));
        }
    }
}

proof fn lemma_op_wired(fb: Seq<u8>, g: GraphView, n: nat, s: ProgressView)
    requires
        g.tensors.buffers.pos >= 0,
        g.tensors.buffers.width >= 0,
        s.head is None,
        progress_wired(fb, g, n, s),
        n < g.ops.len,
        op_step(fb, g, n as int, s) is Ok,
    ensures
        progress_wired(fb, g, n + 1, op_step(fb, g, n as int, s)->Ok_0),
{
    reveal(op_step);
    reveal(is_custom);
    let k = n as int;
    let t = op_step(fb, g, k, s)->Ok_0;
    let op = operator(fb, g, k);
    let slot = u32_of(fb, op, 4, 0)->Ok_0;
    let code = table_of(fb, g.codes, slot as int)->Ok_0;
    let (builtin, custom) = code_of(fb, code)->Ok_0;
    let inputs = inputs_of(fb, g, k);
    let outputs = vector_of(fb, op, 8, 4)->Ok_0;
    let added = weights_added(fb, g, k, op, builtin, custom, inputs, s);
    assert(added is Ok);
    let m = added->Ok_0;
    assert(output_taken(fb, g, k, op, outputs, m) == Ok::<ProgressView, ErrorView>(t));
    if is_custom(fb, g, k) {
        assert(indy_layer(fb, g, op, inputs, s) == added);
        lemma_custom_wired(fb, g, n, op, inputs, s);
    } else if builtin == 52 {
        assert(lstm_layer(fb, g, k, op, inputs, s) == added);
        lemma_builtin_wired(fb, g, n, op, inputs, s);
    } else {
        assert(head_added(fb, g, k, op, inputs, s) == added);
        assert(head_values(fb, g, op, inputs, s) == added);
        lemma_head_wired(fb, g, n, op, inputs, s);
    }
    assert(progress_wired(fb, g, n + 1, m));
    assert(t.layers == m.layers && t.head == m.head && t.width == m.width);
}

proof fn lemma_ops_wired(fb: Seq<u8>, g: GraphView, start: ProgressView, n: nat)
    requires
        g.tensors.buffers.pos >= 0,
        g.tensors.buffers.width >= 0,
        start.width == 10,
        start.layers == Seq::<LayerView>::empty(),
        start.head is None,
        n <= g.ops.len,
        ops_followed(fb, g, start, n) is Ok,
    ensures
        progress_wired(fb, g, n, ops_followed(fb, g, start, n)->Ok_0),
    decreases n,
{
    if n > 0 {
        let before = (n - 1) as nat;
        lemma_ops_wired(fb, g, start, before);
        lemma_op_wired(fb, g, before, ops_followed(fb, g, start, before)->Ok_0);
    }
}

/// In every network that loads, each operator but the last is a layer, in the file's
/// order, and the last is the head. A layer's weights are its operator's tensors. From
/// the custom operator, the forward direction has its kernels from input slots one to
/// eight, its biases from the next four and its first states from the twenty-fifth and
/// the one behind it; the backward direction has its own from the slots that follow
/// each of these. The builtin operator has slots between them for what is not
/// supported. No two slots change places.
pub proof fn lemma_network_wired(fb: Seq<u8>)
    requires
        network_in(fb) is Ok,
    ensures
        ({
            let w = network_in(fb)->Ok_0;
            let g = graph_in(fb);
            &&& g.ops.len == w.layers.len() + 1
            &&& forall|k: int|
                0 <= k < w.layers.len() ==> {
                    &&& layer_wired(fb, g, k, #[trigger] w.layers[k])
                    &&& clipped_as_told(fb, g, k, w.layers[k])
                }
            &&& w.layers.len() > 0
            &&& w.layers.last().forward.hidden + w.layers.last().backward.hidden <= usize::MAX
            &&& head_wired(
                fb,
                g,
                w.layers.len() as int,
                w.fc_weights,
                w.fc_bias,
                (w.layers.last().forward.hidden + w.layers.last().backward.hidden) as usize,
            )
        }),
{
    let w = network_in(fb)->Ok_0;
    let root = indirect_at(fb, 0)->Ok_0;
    let (model, graph) = tables_in(fb);
    assert(root >= 0 && model.pos == root);
    let graphs = vector_of(fb, model, 8, 4)->Ok_0;
    lemma_vector(fb, model, 8, 4);
    lemma_table(fb, graphs, 0);
    lemma_vector(fb, model, 12, 4);
    lemma_vector(fb, graph, 10, 4);
    assert(model_network(fb, model, graph) == Ok::<NetworkView, ErrorView>(w));
    let inputs = vector_of(fb, graph, 6, 4)->Ok_0;
    let outputs = vector_of(fb, graph, 8, 4)->Ok_0;
    let g = graph_in(fb);
    assert(graph_network(fb, model, graph, inputs, outputs, g.tensors) == Ok::<
        NetworkView,
        ErrorView,
    >(w));
    let current = i32_of(fb, inputs, 0)->Ok_0;
    assert(network_of(fb, g, graph, current, crate::tflite::entry(fb, outputs, 0)) == Ok::<
        NetworkView,
        ErrorView,
    >(w));
    let start = ProgressView { current, width: 10, layers: Seq::empty(), head: None };
    lemma_ops_wired(fb, g, start, g.ops.len as nat);
}

/// The numbers of a float tensor are its buffer's bytes, four to the number, the lowest
/// first: no byte is left out, and each stands in its own number.
pub proof fn lemma_floats_are_bytes(data: Seq<u8>, i: int)
    requires
        data.len() % 4 == 0,
        0 <= i < data.len() / 4,
    ensures
        ({
            let bits = floats_in(data)[i].bits as int;
            &&& floats_in(data).len() * 4 == data.len()
            &&& data[4 * i] == bits % 256
            &&& data[4 * i + 1] == bits / 256 % 256
            &&& data[4 * i + 2] == bits / 65536 % 256
            &&& data[4 * i + 3] == bits / 16777216
        }),
{
    let b = data.subrange(4 * i, 4 * i + 4);
    crate::bytes::lemma_le_unfold(b);
    assert(b[0] == data[4 * i] && b[1] == data[4 * i + 1] && b[2] == data[4 * i + 2] && b[3]
        == data[4 * i + 3]);
}

/// Every number of a quantized tensor stands for its own byte: how far the byte, as a
/// signed or an unsigned one, lies from the zero point, times the scale. Bytes are signed
/// where their type says so, and also where there is no zero point.
pub proof fn lemma_quantized_are_bytes(
    data: Seq<u8>,
    kind: u8,
    scale: F32,
    zero_point: int,
    offset: int,
    i: int,
)
    requires
        0 <= i < data.len(),
        scale.finite(),
        !scale.negative(),
        scale.index() > 0,
    ensures
        dequantized_all(data, kind, scale, zero_point, offset) is Ok,
        ({
            let values = dequantized_all(data, kind, scale, zero_point, offset)->Ok_0;
            let code = if kind == 9 || zero_point == 0 {
                (data[i] as int + 128) % 256 - 128
            } else {
                data[i] as int
            };
            &&& values.len() == data.len()
            &&& values[i] == F32::of_int(code).difference(F32::of_int(zero_point)).product(scale)
        }),
{
}

} // verus!
