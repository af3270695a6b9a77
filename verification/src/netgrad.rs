//! Backpropagation through the frozen bidirectional (Indy)LSTM stack.
//!
//! The forward arithmetic stays binary32 and in the same order as [`crate::net`].
//! Only adjoints widen to binary64: rounding those at every layer and timestep
//! would lose accuracy before the gradient ever reached the ink.
use vstd::prelude::*;

use crate::error::{invalid, text_with, Error, ErrorView};
use crate::float::{F32, F64};
use crate::mat::{flatten, lemma_cell, lemma_flatten, lemma_row_bounds, Mat, MatView};
use crate::net::{
    check_direction, check_features, direction_cells, forward, layer_output, layer_problem,
    layers_output, network_output, project, put_beside, size, tensor, time_of, weights_problem,
    Cell, NetMath, Squash,
};
use crate::text::{dec, push_dec};
use crate::tflite::{
    DirectionView, DirectionWeights, LayerView, LayerWeights, NetworkView, NetworkWeights,
};

verus! {

/// Values needed to differentiate one forward pass, with the weights it used.
/// No layer inputs are retained: those are needed for weight gradients only.
#[derive(Debug)]
pub struct Activations<'w> {
    weights: &'w NetworkWeights,
    rows: usize,
    /// For each layer what the units of both directions computed, in the order of
    /// time.
    layers: Vec<(Vec<Cell>, Vec<Cell>)>,
}

/// [`Activations`] by their contents.
#[verifier::ext_equal]
pub struct ActivationsView {
    pub weights: NetworkView,
    pub rows: nat,
    pub saved: Seq<(Seq<Cell>, Seq<Cell>)>,
}

impl View for Activations<'_> {
    type V = ActivationsView;

    closed spec fn view(&self) -> ActivationsView {
        ActivationsView {
            weights: self.weights@,
            rows: self.rows as nat,
            saved: saved_view(self.layers@),
        }
    }
}

/// Saved cells by their contents.
pub open spec fn saved_view(layers: Seq<(Vec<Cell>, Vec<Cell>)>) -> Seq<(Seq<Cell>, Seq<Cell>)> {
    layers.map_values(|l: (Vec<Cell>, Vec<Cell>)| (l.0@, l.1@))
}

/// How wide the output of the first `k` layers is.
pub open spec fn width_after(w: NetworkView, k: int) -> nat {
    if k <= 0 {
        w.input_size as nat
    } else {
        w.layers[k - 1].forward.hidden as nat + w.layers[k - 1].backward.hidden as nat
    }
}

/// Whether weights have the shapes that their dimensions say, layer by layer.
pub open spec fn shapes_agree(w: NetworkView, rows: nat) -> bool {
    &&& forall|k: int|
        #![trigger w.layers[k]]
        0 <= k < w.layers.len() ==> {
            let l = w.layers[k];
            &&& weights_problem(l.forward) is None
            &&& weights_problem(l.backward) is None
            &&& l.forward.input == width_after(w, k)
            &&& l.backward.input == width_after(w, k)
        }
    &&& forall|k: int| 0 <= k <= w.layers.len() ==> #[trigger] width_after(w, k) <= usize::MAX
    &&& forall|k: int|
        0 <= k <= w.layers.len() ==> rows * (#[trigger] width_after(w, k)) <= usize::MAX
    &&& w.fc_weights.len() == w.num_classes * width_after(w, w.layers.len() as int)
    &&& rows * w.num_classes <= usize::MAX
}

impl ActivationsView {
    /// Whether the saved values fit the weights.
    pub open spec fn wf(self) -> bool {
        let w = self.weights;
        &&& shapes_agree(w, self.rows)
        &&& self.saved.len() == w.layers.len()
        &&& forall|k: int|
            #![trigger self.saved[k]]
            0 <= k < self.saved.len() ==> {
                &&& self.saved[k].0.len() == self.rows * w.layers[k].forward.hidden
                &&& self.saved[k].1.len() == self.rows * w.layers[k].backward.hidden
            }
    }
}

impl<'w> Activations<'w> {
    #[verifier::type_invariant]
    spec fn inv(&self) -> bool {
        self@.wf()
    }
}

/// What the units of the first `k` layers compute for features.
pub open spec fn saved_of(m: NetMath, layers: Seq<LayerView>, features: MatView, k: nat) -> Seq<
    (Seq<Cell>, Seq<Cell>),
> {
    Seq::new(
        k,
        |i: int|
            {
                let x = layers_output(m, layers, features, i as nat)->Ok_0;
                let l = layers[i];
                (
                    direction_cells(m, l.forward, l.cell_clip, x, false),
                    direction_cells(m, l.backward, l.cell_clip, x, true),
                )
            },
    )
}

/// A matrix without rows.
pub open spec fn no_rows(cols: nat) -> MatView {
    MatView { rows: 0, cols, data: Seq::empty() }
}

/// Runs the layers, keeping what their units compute.
fn run_saving<'w, E: Fn(F32) -> F32, T: Fn(F32) -> F32>(
    weights: &'w NetworkWeights,
    features: &Mat,
    f: &Squash<E, T>,
) -> (r: Result<(Mat, Vec<(Vec<Cell>, Vec<Cell>)>), Error>)
    requires
        f.wf(),
        features@.cols == weights.input_size,
    ensures
        match (r, layers_output(f.math(), weights@.layers, features@, weights@.layers.len())) {
            (Ok((x, saved)), Ok(wanted)) => {
                &&& x@ == wanted
                &&& x@.wf()
                &&& x@.rows == features@.rows
                &&& x@.cols == width_after(weights@, weights@.layers.len() as int)
                &&& saved_view(saved@) == saved_of(
                    f.math(),
                    weights@.layers,
                    features@,
                    weights@.layers.len(),
                )
                &&& forall|k: int|
                    #![trigger weights@.layers[k]]
                    0 <= k < weights@.layers.len() ==> {
                        let l = weights@.layers[k];
                        &&& weights_problem(l.forward) is None
                        &&& weights_problem(l.backward) is None
                        &&& l.forward.input == width_after(weights@, k)
                        &&& l.backward.input == width_after(weights@, k)
                    }
                &&& forall|k: int|
                    0 <= k <= weights@.layers.len() ==> #[trigger] width_after(weights@, k)
                        <= usize::MAX
                &&& forall|k: int|
                    0 <= k <= weights@.layers.len() ==> features@.rows * (
                    #[trigger] width_after(weights@, k)) <= usize::MAX
                &&& forall|k: int|
                    #![trigger saved@[k]]
                    0 <= k < saved@.len() ==> {
                        &&& saved@[k].0@.len() == features@.rows
                            * weights@.layers[k].forward.hidden
                        &&& saved@[k].1@.len() == features@.rows
                            * weights@.layers[k].backward.hidden
                    }
            },
            (Err(e), Err(g)) => e@ == g,
            _ => false,
        },
{
    let ghost m = f.math();
    let ghost w = weights@;
    let ghost layers = weights@.layers;
    let rows: usize = features.rows();
    let cells: usize = features.as_slice().len();
    let mut x: Mat = features.clone();
    let mut saved: Vec<(Vec<Cell>, Vec<Cell>)> = Vec::new();
    let mut k: usize = 0;
    assert(saved_view(saved@) =~= saved_of(m, layers, features@, 0));
    while k < weights.layers.len()
        invariant
            k <= weights.layers@.len(),
            w == weights@,
            layers == weights@.layers,
            rows == features@.rows,
            f.wf(),
            m == f.math(),
            layers_output(m, layers, features@, k as nat) == Ok::<MatView, ErrorView>(x@),
            x@.wf(),
            x@.rows == rows,
            x@.cols == width_after(w, k as int),
            saved_view(saved@) == saved_of(m, layers, features@, k as nat),
            saved@.len() == k,
            forall|i: int|
                #![trigger layers[i]]
                0 <= i < k ==> {
                    let l = layers[i];
                    &&& weights_problem(l.forward) is None
                    &&& weights_problem(l.backward) is None
                    &&& l.forward.input == width_after(w, i)
                    &&& l.backward.input == width_after(w, i)
                },
            forall|i: int| 0 <= i <= k ==> #[trigger] width_after(w, i) <= usize::MAX,
            forall|i: int|
                0 <= i <= k ==> rows as nat * (#[trigger] width_after(w, i)) <= usize::MAX,
            forall|i: int|
                #![trigger saved@[i]]
                0 <= i < k ==> {
                    &&& saved@[i].0@.len() == rows * layers[i].forward.hidden
                    &&& saved@[i].1@.len() == rows * layers[i].backward.hidden
                },
        decreases weights.layers@.len() - k,
    {
        let layer: &LayerWeights = &weights.layers[k];
        assert(layers[k as int] == layer@);
        match layer_saving(layer, &x, f) {
            Err(e) => {
                proof {
                    crate::net::lemma_layers_failed(
                        m,
                        layers,
                        features@,
                        (k + 1) as nat,
                        layers.len(),
                    );
                }
                return Err(e);
            },
            Ok((next, a, b)) => {
                let ghost before = saved_view(saved@);
                saved.push((a, b));
                proof {
                    assert(saved_view(saved@) =~= before.push((a@, b@)));
                    assert(saved_view(saved@) =~= saved_of(m, layers, features@, (k + 1) as nat));
                    assert(width_after(w, k + 1) == layers[k as int].forward.hidden as nat
                        + layers[k as int].backward.hidden as nat);
                }
                x = next;
            },
        }
        k += 1;
    }
    Ok((x, saved))
}

/// Runs one layer, keeping what its units compute.
fn layer_saving<E: Fn(F32) -> F32, T: Fn(F32) -> F32>(
    layer: &LayerWeights,
    x: &Mat,
    f: &Squash<E, T>,
) -> (r: Result<(Mat, Vec<Cell>, Vec<Cell>), Error>)
    requires
        f.wf(),
    ensures
        match (r, layer_problem(x@, layer@)) {
            (Ok((out, a, b)), None) => {
                &&& out@ == layer_output(f.math(), x@, layer@)
                &&& out@.wf()
                &&& out@.rows == x@.rows
                &&& out@.cols == layer.forward.hidden + layer.backward.hidden
                &&& a@ == direction_cells(f.math(), layer@.forward, layer.cell_clip, x@, false)
                &&& b@ == direction_cells(f.math(), layer@.backward, layer.cell_clip, x@, true)
                &&& x@.rows * out@.cols <= usize::MAX
            },
            (Err(e), Some(g)) => e@ == g,
            _ => false,
        },
{
    check_direction(x, &layer.forward, layer.cell_clip)?;
    check_direction(x, &layer.backward, layer.cell_clip)?;
    let width: usize = match layer.forward.hidden.checked_add(layer.backward.hidden) {
        Some(width) => width,
        None => {
            return Err(invalid("bidirectional output width overflows usize"));
        },
    };
    let cells: usize = size(x.rows(), width)?;
    let (left, a) = crate::net::direction_saved(x, &layer.forward, layer.cell_clip, false, f);
    let (right, b) = crate::net::direction_saved(x, &layer.backward, layer.cell_clip, true, f);
    let out: Mat = put_beside(&left, &right, x.rows(), width, cells);
    Ok((out, a, b))
}

/// `[T, input_size]` features to logits identical to those of
/// [`crate::net::forward`], plus the values needed by [`features_gradient`]. The
/// weights are checked first, against an empty sequence.
pub fn forward_with_activations<'w, E: Fn(F32) -> F32, T: Fn(F32) -> F32>(
    weights: &'w NetworkWeights,
    features: &Mat,
    f: &Squash<E, T>,
) -> (r: Result<(Mat, Activations<'w>), Error>)
    requires
        f.wf(),
    ensures
        match network_output(f.math(), weights@, no_rows(features@.cols)) {
            Err(g) => r is Err && r->Err_0@ == g,
            Ok(_) => match (r, network_output(f.math(), weights@, features@)) {
                (Ok((logits, saved)), Ok(wanted)) => {
                    &&& logits@ == wanted
                    &&& saved@ == (ActivationsView {
                        weights: weights@,
                        rows: features@.rows,
                        saved: saved_of(
                            f.math(),
                            weights@.layers,
                            features@,
                            weights@.layers.len(),
                        ),
                    })
                    &&& saved@.wf()
                },
                (Err(e), Err(g)) => e@ == g,
                _ => false,
            },
        },
{
    let empty: Mat = Mat::zeros(0, features.cols());
    assert(empty@ =~= no_rows(features@.cols));
    forward(weights, &empty, f)?;
    check_features(features, weights.input_size)?;
    let (x, layers) = run_saving(weights, features, f)?;
    let total: usize = size(weights.num_classes, x.cols())?;
    tensor(&weights.fc_weights, total, "fully connected weights")?;
    tensor(&weights.fc_bias, weights.num_classes, "fully connected bias")?;
    let cells: usize = size(x.rows(), weights.num_classes)?;
    let logits: Mat = project(&x, &weights.fc_weights, &weights.fc_bias, cells);
    let rows: usize = features.rows();
    proof {
        let view = saved_view(layers@);
        assert forall|k: int|
            #![trigger view[k]]
            0 <= k < view.len() implies view[k].0.len() == rows
            * weights@.layers[k].forward.hidden && view[k].1.len() == rows
            * weights@.layers[k].backward.hidden by {
            assert(view[k].0 == layers@[k].0@);
        }
        assert(shapes_agree(weights@, rows as nat));
    }
    let saved: Activations<'w> = Activations { weights, rows, layers };
    Ok((logits, saved))
}

/// One, in binary64.
pub open spec fn one() -> F64 {
    F64 { bits: 0x3ff0_0000_0000_0000 }
}

/// What the first `n` rows of weights, each times its gradient, add to a number at
/// column `c`.
pub open spec fn transposed(
    weights: Seq<F32>,
    cols: nat,
    upstream: Seq<F64>,
    c: int,
    n: nat,
    base: F64,
) -> F64
    decreases n,
{
    if n == 0 {
        base
    } else {
        transposed(weights, cols, upstream, c, (n - 1) as nat, base).sum(
            upstream[n - 1].product(weights[(n - 1) * cols + c].widened()),
        )
    }
}

/// Accumulates the transposed weights times `upstream` into a run of `out`, without
/// a transposed copy of the weights.
fn transpose_add(
    weights: &Vec<F32>,
    cols: usize,
    upstream: &[F64],
    out: &mut Vec<F64>,
    start: usize,
)
    requires
        weights@.len() == upstream@.len() * cols,
        start + cols <= old(out)@.len(),
    ensures
        final(out)@.len() == old(out)@.len(),
        forall|c: int|
            0 <= c < cols ==> #[trigger] final(out)@[start + c] == transposed(
                weights@,
                cols as nat,
                upstream@,
                c,
                upstream@.len(),
                old(out)@[start + c],
            ),
        forall|i: int|
            0 <= i < final(out)@.len() && !(start <= i < start + cols) ==> final(out)@[i] == old(
                out,
            )@[i],
{
    let ghost before = out@;
    let total: usize = weights.len();
    let size: usize = out.len();
    let mut k: usize = 0;
    while k < upstream.len()
        invariant
            k <= upstream@.len(),
            weights@.len() == upstream@.len() * cols,
            total == weights@.len(),
            size == before.len(),
            start + cols <= size,
            out@.len() == before.len(),
            forall|c: int|
                0 <= c < cols ==> #[trigger] out@[start + c] == transposed(
                    weights@,
                    cols as nat,
                    upstream@,
                    c,
                    k as nat,
                    before[start + c],
                ),
            forall|i: int|
                0 <= i < out@.len() && !(start <= i < start + cols) ==> out@[i] == before[i],
        decreases upstream@.len() - k,
    {
        let gradient: F64 = upstream[k];
        let ghost earlier = out@;
        proof {
            lemma_row_bounds(upstream@.len(), cols as nat, k as int);
        }
        let row: usize = k * cols;
        let mut c: usize = 0;
        while c < cols
            invariant
                c <= cols,
                k < upstream@.len(),
                row == k * cols,
                row + cols <= total,
                total == weights@.len(),
                gradient == upstream@[k as int],
                size == before.len(),
                start + cols <= size,
                out@.len() == size,
                earlier.len() == size,
                forall|d: int|
                    0 <= d < c ==> #[trigger] out@[start + d] == earlier[start + d].sum(
                        gradient.product(weights@[k * cols + d].widened()),
                    ),
                forall|i: int|
                    0 <= i < size && !(start <= i < start + c) ==> out@[i] == earlier[i],
            decreases cols - c,
        {
            let sum: F64 = out[start + c].plus(gradient.times(weights[row + c].widen()));
            out.set(start + c, sum);
            c += 1;
        }
        k += 1;
    }
}

/// What reaches a unit's cell: the gradient from the time after, and that of the
/// activation through the output gate; nothing where the cell was clipped. At the
/// threshold itself the inside derivative counts.
pub open spec fn cell_gradient(cell: Cell, dh: F64, dc: F64) -> F64 {
    let tanh = cell.tanh_cell.widened();
    if cell.unclipped {
        dc.sum(dh.product(cell.out.widened()).product(one().difference(tanh.product(tanh))))
    } else {
        F64 { bits: 0 }
    }
}

/// The gradients of a unit's four gates before their functions.
pub open spec fn gate_gradient(cell: Cell, dh: F64, dc: F64, gate: int) -> F64 {
    let input = cell.input.widened();
    let forget = cell.forget.widened();
    let candidate = cell.candidate.widened();
    let out = cell.out.widened();
    let tanh = cell.tanh_cell.widened();
    let update = cell_gradient(cell, dh, dc);
    if gate == 0 {
        update.product(candidate).product(input).product(one().difference(input))
    } else if gate == 1 {
        update.product(cell.previous_cell.widened()).product(forget).product(
            one().difference(forget),
        )
    } else if gate == 2 {
        update.product(input).product(one().difference(candidate.product(candidate)))
    } else {
        dh.product(tanh).product(out).product(one().difference(out))
    }
}

/// The gradients that go back through the recurrence.
pub struct Back {
    pub dh: Seq<F64>,
    pub dc: Seq<F64>,
}

/// The gradient of an activation: through the recurrence, and from above.
pub open spec fn activation_gradient(
    upstream: Seq<F64>,
    width: nat,
    offset: nat,
    back: Back,
    t: int,
    j: int,
) -> F64 {
    back.dh[j].sum(upstream[t * width + (offset + j)])
}

/// The gradients of all gates at a time, by gate and unit.
pub open spec fn gates_gradient(
    hidden: nat,
    cells: Seq<Cell>,
    upstream: Seq<F64>,
    width: nat,
    offset: nat,
    back: Back,
    t: int,
) -> Seq<F64> {
    flatten(
        4,
        hidden,
        |g: int, j: int|
            gate_gradient(
                cells[t * hidden + j],
                activation_gradient(upstream, width, offset, back, t, j),
                back.dc[j],
                g,
            ),
    )
}

/// What goes back to an activation: through its unit's gates alone, or through all.
pub open spec fn recurrent_gradient(w: DirectionView, dg: Seq<F64>, j: int) -> F64 {
    let hidden = w.hidden as nat;
    if w.diagonal {
        diagonal_gradient(w.recurrent_kernels, hidden, dg, j, 4)
    } else {
        transposed(w.recurrent_kernels, hidden, dg, j, 4 * hidden, F64 { bits: 0 })
    }
}

/// What goes back to an activation through the first `n` gates of its unit.
pub open spec fn diagonal_gradient(
    kernels: Seq<F32>,
    hidden: nat,
    dg: Seq<F64>,
    j: int,
    n: nat,
) -> F64
    decreases n,
{
    if n == 0 {
        F64 { bits: 0 }
    } else {
        let gate = (n - 1) * hidden + j;
        diagonal_gradient(kernels, hidden, dg, j, (n - 1) as nat).sum(
            dg[gate].product(kernels[gate].widened()),
        )
    }
}

/// The gradients that go back behind a time.
pub open spec fn back_through(
    w: DirectionView,
    cells: Seq<Cell>,
    upstream: Seq<F64>,
    width: nat,
    offset: nat,
    back: Back,
    t: int,
) -> Back {
    let hidden = w.hidden as nat;
    let dg = gates_gradient(hidden, cells, upstream, width, offset, back, t);
    Back {
        dh: Seq::new(hidden, |j: int| recurrent_gradient(w, dg, j)),
        dc: Seq::new(
            hidden,
            |j: int|
                cell_gradient(
                    cells[t * hidden + j],
                    activation_gradient(upstream, width, offset, back, t, j),
                    back.dc[j],
                ).product(cells[t * hidden + j].forget.widened()),
        ),
    }
}

/// The gradients that go back after so many steps, from the last time the direction
/// saw to the first.
pub open spec fn back_after(
    w: DirectionView,
    cells: Seq<Cell>,
    rows: nat,
    reverse: bool,
    upstream: Seq<F64>,
    width: nat,
    offset: nat,
    steps: nat,
) -> Back
    decreases steps,
{
    let zeros = Seq::new(w.hidden as nat, |j: int| F64 { bits: 0 });
    if steps == 0 {
        Back { dh: zeros, dc: zeros }
    } else {
        back_through(
            w,
            cells,
            upstream,
            width,
            offset,
            back_after(w, cells, rows, reverse, upstream, width, offset, (steps - 1) as nat),
            time_of(rows, !reverse, steps - 1),
        )
    }
}

/// The gradient of an input of a direction, on top of a number.
pub open spec fn input_gradient(
    w: DirectionView,
    cells: Seq<Cell>,
    rows: nat,
    reverse: bool,
    upstream: Seq<F64>,
    width: nat,
    offset: nat,
    t: int,
    c: int,
    base: F64,
) -> F64 {
    let hidden = w.hidden as nat;
    let back = back_after(
        w,
        cells,
        rows,
        reverse,
        upstream,
        width,
        offset,
        time_of(rows, !reverse, t) as nat,
    );
    transposed(
        w.input_kernels,
        w.input as nat,
        gates_gradient(hidden, cells, upstream, width, offset, back, t),
        c,
        4 * hidden,
        base,
    )
}

/// The gradients of a time's gates, and of its cells.
fn gates_back(
    hidden: usize,
    cells: &Vec<Cell>,
    upstream: &Vec<F64>,
    width: usize,
    offset: usize,
    dh: &Vec<F64>,
    dc: &Vec<F64>,
    t: usize,
    rows: usize,
    gates: usize,
) -> (r: (Vec<F64>, Vec<F64>))
    requires
        gates == 4 * hidden,
        t < rows,
        cells@.len() == rows * hidden,
        upstream@.len() == rows * width,
        offset + hidden <= width,
        dh@.len() == hidden,
        dc@.len() == hidden,
    ensures
        r.0@ == gates_gradient(
            hidden as nat,
            cells@,
            upstream@,
            width as nat,
            offset as nat,
            Back { dh: dh@, dc: dc@ },
            t as int,
        ),
        r.1@ == Seq::new(
            hidden as nat,
            |j: int|
                cell_gradient(
                    cells@[t * hidden + j],
                    activation_gradient(
                        upstream@,
                        width as nat,
                        offset as nat,
                        Back { dh: dh@, dc: dc@ },
                        t as int,
                        j,
                    ),
                    dc@[j],
                ).product(cells@[t * hidden + j].forget.widened()),
        ),
{
    let ghost back = Back { dh: dh@, dc: dc@ };
    let one: F64 = F64 { bits: 0x3ff0_0000_0000_0000 };
    let total: usize = cells.len();
    let all: usize = upstream.len();
    proof {
        lemma_row_bounds(rows as nat, hidden as nat, t as int);
        lemma_row_bounds(rows as nat, width as nat, t as int);
    }
    let row: usize = t * hidden;
    let above: usize = t * width;
    let mut d0: Vec<F64> = Vec::new();
    let mut d1: Vec<F64> = Vec::new();
    let mut d2: Vec<F64> = Vec::new();
    let mut d3: Vec<F64> = Vec::new();
    let mut next: Vec<F64> = Vec::new();
    let mut j: usize = 0;
    while j < hidden
        invariant
            j <= hidden,
            row == t * hidden,
            above == t * width,
            row + hidden <= total,
            above + width <= all,
            total == cells@.len(),
            all == upstream@.len(),
            offset + hidden <= width,
            dh@.len() == hidden,
            dc@.len() == hidden,
            back == (Back { dh: dh@, dc: dc@ }),
            one == self::one(),
            d0@.len() == j,
            d1@.len() == j,
            d2@.len() == j,
            d3@.len() == j,
            next@.len() == j,
            forall|k: int|
                #![trigger d0@[k]]
                0 <= k < j ==> d0@[k] == gate_gradient(
                    cells@[t * hidden + k],
                    activation_gradient(
                        upstream@,
                        width as nat,
                        offset as nat,
                        back,
                        t as int,
                        k,
                    ),
                    back.dc[k],
                    0,
                ),
            forall|k: int|
                #![trigger d1@[k]]
                0 <= k < j ==> d1@[k] == gate_gradient(
                    cells@[t * hidden + k],
                    activation_gradient(
                        upstream@,
                        width as nat,
                        offset as nat,
                        back,
                        t as int,
                        k,
                    ),
                    back.dc[k],
                    1,
                ),
            forall|k: int|
                #![trigger d2@[k]]
                0 <= k < j ==> d2@[k] == gate_gradient(
                    cells@[t * hidden + k],
                    activation_gradient(
                        upstream@,
                        width as nat,
                        offset as nat,
                        back,
                        t as int,
                        k,
                    ),
                    back.dc[k],
                    2,
                ),
            forall|k: int|
                #![trigger d3@[k]]
                0 <= k < j ==> d3@[k] == gate_gradient(
                    cells@[t * hidden + k],
                    activation_gradient(
                        upstream@,
                        width as nat,
                        offset as nat,
                        back,
                        t as int,
                        k,
                    ),
                    back.dc[k],
                    3,
                ),
            forall|k: int|
                #![trigger next@[k]]
                0 <= k < j ==> next@[k] == cell_gradient(
                    cells@[t * hidden + k],
                    activation_gradient(
                        upstream@,
                        width as nat,
                        offset as nat,
                        back,
                        t as int,
                        k,
                    ),
                    back.dc[k],
                ).product(cells@[t * hidden + k].forget.widened()),
        decreases hidden - j,
    {
        let cell: Cell = cells[row + j];
        let input: F64 = cell.input.widen();
        let forget: F64 = cell.forget.widen();
        let candidate: F64 = cell.candidate.widen();
        let out: F64 = cell.out.widen();
        let tanh: F64 = cell.tanh_cell.widen();
        let d: F64 = dh[j].plus(upstream[above + (offset + j)]);
        let update: F64 = if cell.unclipped {
            dc[j].plus(d.times(out).times(one.minus(tanh.times(tanh))))
        } else {
            F64 { bits: 0 }
        };
        d0.push(update.times(candidate).times(input).times(one.minus(input)));
        d1.push(update.times(cell.previous_cell.widen()).times(forget).times(one.minus(forget)));
        d2.push(update.times(input).times(one.minus(candidate.times(candidate))));
        d3.push(d.times(tanh).times(out).times(one.minus(out)));
        next.push(update.times(forget));
        j += 1;
    }
    let ghost (e0, e1, e2, e3) = (d0@, d1@, d2@, d3@);
    let mut dg: Vec<F64> = d0;
    dg.append(&mut d1);
    dg.append(&mut d2);
    dg.append(&mut d3);
    proof {
        let cell = |g: int, j: int|
            gate_gradient(
                cells@[t * hidden + j],
                activation_gradient(upstream@, width as nat, offset as nat, back, t as int, j),
                back.dc[j],
                g,
            );
        assert(dg@ == e0 + e1 + e2 + e3);
        assert forall|g: int, j: int|
            #![trigger dg@[g * hidden + j]]
            0 <= g < 4 && 0 <= j < hidden implies dg@[g * hidden + j] == cell(g, j) by {
            if g == 0 {
                assert(g * hidden == 0) by (nonlinear_arith)
                    requires
                        g == 0,
                ;
                assert(dg@[j] == e0[j]);
            } else if g == 1 {
                assert(g * hidden == hidden) by (nonlinear_arith)
                    requires
                        g == 1,
                ;
                assert(dg@[hidden + j] == e1[j]);
            } else if g == 2 {
                assert(g * hidden == 2 * hidden) by (nonlinear_arith)
                    requires
                        g == 2,
                ;
                assert(dg@[2 * hidden + j] == e2[j]);
            } else {
                assert(g * hidden == 3 * hidden) by (nonlinear_arith)
                    requires
                        g == 3,
                ;
                assert(dg@[3 * hidden + j] == e3[j]);
            }
        }
        lemma_flatten(dg@, 4, hidden as nat, cell);
        assert(dg@ =~= gates_gradient(
            hidden as nat,
            cells@,
            upstream@,
            width as nat,
            offset as nat,
            back,
            t as int,
        ));
        assert(next@ =~= Seq::new(
            hidden as nat,
            |j: int|
                cell_gradient(
                    cells@[t * hidden + j],
                    activation_gradient(
                        upstream@,
                        width as nat,
                        offset as nat,
                        back,
                        t as int,
                        j,
                    ),
                    dc@[j],
                ).product(cells@[t * hidden + j].forget.widened()),
        ));
    }
    (dg, next)
}

/// What goes back to all activations.
fn recurrent_back(w: &DirectionWeights, dg: &Vec<F64>) -> (r: Vec<F64>)
    requires
        weights_problem(w@) is None,
        dg@.len() == 4 * w.hidden,
    ensures
        r@ == Seq::new(w.hidden as nat, |j: int| recurrent_gradient(w@, dg@, j)),
{
    let hidden: usize = w.hidden;
    let total: usize = dg.len();
    let mut out: Vec<F64> = Vec::new();
    let mut j: usize = 0;
    while j < hidden
        invariant
            j <= hidden,
            out@.len() == j,
            forall|k: int| 0 <= k < j ==> out@[k] == (F64 { bits: 0 }),
        decreases hidden - j,
    {
        out.push(F64 { bits: 0 });
        j += 1;
    }
    if w.diagonal {
        let mut g: usize = 0;
        while g < 4
            invariant
                g <= 4,
                hidden == w.hidden,
                w.diagonal,
                total == 4 * hidden,
                dg@.len() == total,
                w.recurrent_kernels@.len() == total,
                out@.len() == hidden,
                forall|k: int|
                    0 <= k < hidden ==> #[trigger] out@[k] == diagonal_gradient(
                        w.recurrent_kernels@,
                        hidden as nat,
                        dg@,
                        k,
                        g as nat,
                    ),
            decreases 4 - g,
        {
            let ghost earlier = out@;
            proof {
                lemma_row_bounds(4, hidden as nat, g as int);
            }
            let row: usize = g * hidden;
            let mut j: usize = 0;
            while j < hidden
                invariant
                    j <= hidden,
                    g < 4,
                    row == g * hidden,
                    row + hidden <= total,
                    dg@.len() == total,
                    w.recurrent_kernels@.len() == total,
                    out@.len() == hidden,
                    earlier.len() == hidden,
                    forall|k: int|
                        0 <= k < j ==> #[trigger] out@[k] == earlier[k].sum(
                            dg@[g * hidden + k].product(
                                w.recurrent_kernels@[g * hidden + k].widened(),
                            ),
                        ),
                    forall|k: int| j <= k < hidden ==> out@[k] == earlier[k],
                decreases hidden - j,
            {
                let sum: F64 = out[j].plus(
                    dg[row + j].times(w.recurrent_kernels[row + j].widen()),
                );
                out.set(j, sum);
                j += 1;
            }
            g += 1;
        }
    } else {
        let ghost zeros = out@;
        transpose_add(&w.recurrent_kernels, hidden, dg.as_slice(), &mut out, 0);
        proof {
            assert forall|k: int| 0 <= k < hidden implies out@[k] == recurrent_gradient(
                w@,
                dg@,
                k,
            ) by {
                assert(out@[0 + k] == transposed(
                    w.recurrent_kernels@,
                    hidden as nat,
                    dg@,
                    k,
                    dg@.len(),
                    zeros[0 + k],
                ));
            }
        }
    }
    assert(out@ =~= Seq::new(w.hidden as nat, |j: int| recurrent_gradient(w@, dg@, j)));
    out
}

/// Adds the gradients of a direction's input.
fn backward_direction(
    w: &DirectionWeights,
    cells: &Vec<Cell>,
    rows: usize,
    reverse: bool,
    upstream: &Vec<F64>,
    width: usize,
    offset: usize,
    dx: &mut Vec<F64>,
)
    requires
        weights_problem(w@) is None,
        cells@.len() == rows * w.hidden,
        upstream@.len() == rows * width,
        offset + w.hidden <= width,
        old(dx)@.len() == rows * w.input,
    ensures
        final(dx)@.len() == old(dx)@.len(),
        forall|t: int, c: int|
            #![trigger final(dx)@[t * w.input + c]]
            0 <= t < rows && 0 <= c < w.input ==> final(dx)@[t * w.input + c] == input_gradient(
                w@,
                cells@,
                rows as nat,
                reverse,
                upstream@,
                width as nat,
                offset as nat,
                t,
                c,
                old(dx)@[t * w.input + c],
            ),
{
    let ghost base = dx@;
    let hidden: usize = w.hidden;
    let gates: usize = w.biases.len();
    let size: usize = dx.len();
    let mut dh: Vec<F64> = Vec::new();
    let mut dc: Vec<F64> = Vec::new();
    let mut j: usize = 0;
    while j < hidden
        invariant
            j <= hidden,
            dh@.len() == j,
            dc@.len() == j,
            forall|k: int| 0 <= k < j ==> dh@[k] == (F64 { bits: 0 }),
            forall|k: int| 0 <= k < j ==> dc@[k] == (F64 { bits: 0 }),
        decreases hidden - j,
    {
        dh.push(F64 { bits: 0 });
        dc.push(F64 { bits: 0 });
        j += 1;
    }
    let mut k: usize = 0;
    proof {
        let start = back_after(
            w@,
            cells@,
            rows as nat,
            reverse,
            upstream@,
            width as nat,
            offset as nat,
            0,
        );
        assert(dh@ =~= start.dh);
        assert(dc@ =~= start.dc);
    }
    while k < rows
        invariant
            k <= rows,
            weights_problem(w@) is None,
            hidden == w.hidden,
            gates == 4 * hidden,
            cells@.len() == rows * hidden,
            upstream@.len() == rows * width,
            offset + hidden <= width,
            base.len() == rows * w.input,
            size == base.len(),
            dx@.len() == base.len(),
            dh@.len() == hidden,
            dc@.len() == hidden,
            (Back { dh: dh@, dc: dc@ }) == back_after(
                w@,
                cells@,
                rows as nat,
                reverse,
                upstream@,
                width as nat,
                offset as nat,
                k as nat,
            ),
            forall|t: int, c: int|
                #![trigger dx@[t * w.input + c]]
                0 <= t < rows && 0 <= c < w.input ==> dx@[t * w.input + c] == (if time_of(
                    rows as nat,
                    !reverse,
                    t,
                ) < k {
                    input_gradient(
                        w@,
                        cells@,
                        rows as nat,
                        reverse,
                        upstream@,
                        width as nat,
                        offset as nat,
                        t,
                        c,
                        base[t * w.input + c],
                    )
                } else {
                    base[t * w.input + c]
                }),
        decreases rows - k,
    {
        let t: usize = if reverse {
            k
        } else {
            rows - 1 - k
        };
        let (dg, next_dc) = gates_back(
            hidden,
            cells,
            upstream,
            width,
            offset,
            &dh,
            &dc,
            t,
            rows,
            gates,
        );
        let ghost earlier = dx@;
        proof {
            lemma_row_bounds(rows as nat, w.input as nat, t as int);
        }
        let start: usize = t * w.input;
        transpose_add(&w.input_kernels, w.input, dg.as_slice(), dx, start);
        proof {
            assert forall|u: int, c: int|
                #![trigger dx@[u * w.input + c]]
                0 <= u < rows && 0 <= c < w.input implies dx@[u * w.input + c] == (if time_of(
                rows as nat,
                !reverse,
                u,
            ) < k + 1 {
                input_gradient(
                    w@,
                    cells@,
                    rows as nat,
                    reverse,
                    upstream@,
                    width as nat,
                    offset as nat,
                    u,
                    c,
                    base[u * w.input + c],
                )
            } else {
                base[u * w.input + c]
            }) by {
                lemma_cell(rows as nat, w.input as nat, u, c);
                assert(earlier[u * w.input + c] == (if time_of(rows as nat, !reverse, u) < k {
                    input_gradient(
                        w@,
                        cells@,
                        rows as nat,
                        reverse,
                        upstream@,
                        width as nat,
                        offset as nat,
                        u,
                        c,
                        base[u * w.input + c],
                    )
                } else {
                    base[u * w.input + c]
                }));
                if u == t {
                    assert(dx@[start + c] == transposed(
                        w.input_kernels@,
                        w.input as nat,
                        dg@,
                        c,
                        dg@.len(),
                        earlier[start + c],
                    ));
                } else {
                    let i = u * w.input + c;
                    if start <= i < start + w.input {
                        lemma_cell(rows as nat, w.input as nat, t as int, i - start);
                        assert(false);
                    }
                }
            }
        }
        dh = recurrent_back(w, &dg);
        dc = next_dc;
        proof {
            let back = back_after(
                w@,
                cells@,
                rows as nat,
                reverse,
                upstream@,
                width as nat,
                offset as nat,
                (k + 1) as nat,
            );
            assert(dh@ =~= back.dh);
            assert(dc@ =~= back.dc);
        }
        k += 1;
    }
    proof {
        assert forall|t: int, c: int|
            #![trigger dx@[t * w.input + c]]
            0 <= t < rows && 0 <= c < w.input implies dx@[t * w.input + c] == input_gradient(
            w@,
            cells@,
            rows as nat,
            reverse,
            upstream@,
            width as nat,
            offset as nat,
            t,
            c,
            base[t * w.input + c],
        ) by {
            assert(time_of(rows as nat, !reverse, t) < rows);
        }
    }
}

/// The gradients of a layer's input: those of the forward direction, and on top
/// those of the backward one.
pub open spec fn layer_gradient(
    l: LayerView,
    saved: (Seq<Cell>, Seq<Cell>),
    rows: nat,
    upstream: Seq<F64>,
) -> Seq<F64> {
    let width = l.forward.hidden as nat + l.backward.hidden as nat;
    flatten(
        rows,
        l.forward.input as nat,
        |t: int, c: int|
            input_gradient(
                l.backward,
                saved.1,
                rows,
                true,
                upstream,
                width,
                l.forward.hidden as nat,
                t,
                c,
                input_gradient(
                    l.forward,
                    saved.0,
                    rows,
                    false,
                    upstream,
                    width,
                    0,
                    t,
                    c,
                    F64 { bits: 0 },
                ),
            ),
    )
}

/// The gradients of the linear head's input.
pub open spec fn head_gradient(w: NetworkView, rows: nat, dlogits: Seq<F64>) -> Seq<F64> {
    let width = width_after(w, w.layers.len() as int);
    let classes = w.num_classes as nat;
    flatten(
        rows,
        width,
        |t: int, c: int|
            transposed(
                w.fc_weights,
                width,
                dlogits.subrange(t * classes, (t + 1) * classes),
                c,
                classes,
                F64 { bits: 0 },
            ),
    )
}

/// The gradients of what goes into layer `k`, of those of the last layer's output.
pub open spec fn gradient_at(
    w: NetworkView,
    saved: Seq<(Seq<Cell>, Seq<Cell>)>,
    rows: nat,
    top: Seq<F64>,
    k: int,
) -> Seq<F64>
    decreases w.layers.len() - k,
{
    if k < 0 || k >= w.layers.len() {
        top
    } else {
        layer_gradient(w.layers[k], saved[k], rows, gradient_at(w, saved, rows, top, k + 1))
    }
}

/// Whether all numbers are finite.
pub open spec fn all_finite64(v: Seq<F64>) -> bool {
    forall|i: int| 0 <= i < v.len() ==> (#[trigger] v[i]).finite()
}

fn are_finite64(v: &[F64]) -> (r: bool)
    ensures
        r == all_finite64(v@),
{
    let mut i: usize = 0;
    while i < v.len()
        invariant
            i <= v@.len(),
            forall|k: int| 0 <= k < i ==> (#[trigger] v@[k]).finite(),
        decreases v@.len() - i,
    {
        if !v[i].is_finite() {
            return false;
        }
        i += 1;
    }
    true
}

fn zeros(n: usize) -> (r: Vec<F64>)
    ensures
        r@.len() == n,
        forall|i: int| 0 <= i < n ==> r@[i] == (F64 { bits: 0 }),
{
    let mut out: Vec<F64> = Vec::new();
    let mut i: usize = 0;
    while i < n
        invariant
            i <= n,
            out@.len() == i,
            forall|k: int| 0 <= k < i ==> out@[k] == (F64 { bits: 0 }),
        decreases n - i,
    {
        out.push(F64 { bits: 0 });
        i += 1;
    }
    out
}

/// Goes back through one layer.
fn layer_back(
    layer: &LayerWeights,
    saved: &(Vec<Cell>, Vec<Cell>),
    rows: usize,
    upstream: &Vec<F64>,
) -> (r: Vec<F64>)
    requires
        weights_problem(layer@.forward) is None,
        weights_problem(layer@.backward) is None,
        layer.forward.input == layer.backward.input,
        saved.0@.len() == rows * layer.forward.hidden,
        saved.1@.len() == rows * layer.backward.hidden,
        layer.forward.hidden + layer.backward.hidden <= usize::MAX,
        upstream@.len() == rows * (layer.forward.hidden + layer.backward.hidden),
        rows * layer.forward.input <= usize::MAX,
    ensures
        r@ == layer_gradient(layer@, (saved.0@, saved.1@), rows as nat, upstream@),
{
    let width: usize = layer.forward.hidden + layer.backward.hidden;
    let input: usize = layer.forward.input;
    let mut dx: Vec<F64> = zeros(rows * input);
    backward_direction(&layer.forward, &saved.0, rows, false, upstream, width, 0, &mut dx);
    let ghost middle = dx@;
    backward_direction(
        &layer.backward,
        &saved.1,
        rows,
        true,
        upstream,
        width,
        layer.forward.hidden,
        &mut dx,
    );
    proof {
        let cell = |t: int, c: int|
            input_gradient(
                layer@.backward,
                saved.1@,
                rows as nat,
                true,
                upstream@,
                width as nat,
                layer.forward.hidden as nat,
                t,
                c,
                input_gradient(
                    layer@.forward,
                    saved.0@,
                    rows as nat,
                    false,
                    upstream@,
                    width as nat,
                    0,
                    t,
                    c,
                    F64 { bits: 0 },
                ),
            );
        assert forall|t: int, c: int|
            #![trigger dx@[t * input + c]]
            0 <= t < rows && 0 <= c < input implies dx@[t * input + c] == cell(t, c) by {
            lemma_cell(rows as nat, input as nat, t, c);
            assert(middle[t * layer.forward.input + c] == input_gradient(
                layer@.forward,
                saved.0@,
                rows as nat,
                false,
                upstream@,
                width as nat,
                0,
                t,
                c,
                F64 { bits: 0 },
            ));
            assert(dx@[t * layer.backward.input + c] == cell(t, c));
        }
        lemma_flatten(dx@, rows as nat, input as nat, cell);
        assert(dx@ =~= layer_gradient(layer@, (saved.0@, saved.1@), rows as nat, upstream@));
    }
    dx
}

/// Goes back through the head.
fn head_back(weights: &NetworkWeights, rows: usize, dlogits: &[F64], width: usize) -> (r: Vec<F64>)
    requires
        width == width_after(weights@, weights@.layers.len() as int),
        weights.fc_weights@.len() == weights.num_classes * width,
        dlogits@.len() == rows * weights.num_classes,
        rows * width <= usize::MAX,
    ensures
        r@ == head_gradient(weights@, rows as nat, dlogits@),
{
    let classes: usize = weights.num_classes;
    let total: usize = dlogits.len();
    let mut dx: Vec<F64> = zeros(rows * width);
    let size: usize = dx.len();
    let ghost w = weights@;
    let ghost cell = |t: int, c: int|
        transposed(
            w.fc_weights,
            width as nat,
            dlogits@.subrange(t * classes, (t + 1) * classes),
            c,
            classes as nat,
            F64 { bits: 0 },
        );
    let mut t: usize = 0;
    assert forall|u: int, c: int|
        #![trigger dx@[u * width + c]]
        0 <= u < rows && 0 <= c < width implies dx@[u * width + c] == (F64 { bits: 0 }) by {
        lemma_cell(rows as nat, width as nat, u, c);
    }
    while t < rows
        invariant
            t <= rows,
            w == weights@,
            classes == weights.num_classes,
            weights.fc_weights@.len() == classes * width,
            dlogits@.len() == rows * classes,
            total == dlogits@.len(),
            size == rows * width,
            dx@.len() == size,
            cell == (|t: int, c: int|
                transposed(
                    w.fc_weights,
                    width as nat,
                    dlogits@.subrange(t * classes, (t + 1) * classes),
                    c,
                    classes as nat,
                    F64 { bits: 0 },
                )),
            forall|u: int, c: int|
                #![trigger dx@[u * width + c]]
                0 <= u < rows && 0 <= c < width ==> dx@[u * width + c] == (if u < t {
                    cell(u, c)
                } else {
                    F64 { bits: 0 }
                }),
        decreases rows - t,
    {
        proof {
            lemma_row_bounds(rows as nat, classes as nat, t as int);
            lemma_row_bounds(rows as nat, width as nat, t as int);
        }
        let from: usize = t * classes;
        let start: usize = t * width;
        let row: &[F64] = vstd::slice::slice_subrange(dlogits, from, from + classes);
        let ghost earlier = dx@;
        transpose_add(&weights.fc_weights, width, row, &mut dx, start);
        proof {
            assert forall|u: int, c: int|
                #![trigger dx@[u * width + c]]
                0 <= u < rows && 0 <= c < width implies dx@[u * width + c] == (if u < t + 1 {
                cell(u, c)
            } else {
                F64 { bits: 0 }
            }) by {
                lemma_cell(rows as nat, width as nat, u, c);
                assert(earlier[u * width + c] == (if u < t {
                    cell(u, c)
                } else {
                    F64 { bits: 0 }
                }));
                if u == t {
                    assert(dx@[start + c] == transposed(
                        weights.fc_weights@,
                        width as nat,
                        row@,
                        c,
                        row@.len(),
                        earlier[start + c],
                    ));
                } else {
                    let i = u * width + c;
                    if start <= i < start + width {
                        lemma_cell(rows as nat, width as nat, t as int, i - start);
                        assert(false);
                    }
                }
            }
        }
        t += 1;
    }
    proof {
        lemma_flatten(dx@, rows as nat, width as nat, cell);
        assert(dx@ =~= head_gradient(weights@, rows as nat, dlogits@));
    }
    dx
}

/// How wide the output of the last layer is.
fn last_width(activations: &Activations<'_>) -> (r: usize)
    requires
        activations@.wf(),
    ensures
        r == width_after(activations@.weights, activations@.weights.layers.len() as int),
{
    let weights: &NetworkWeights = activations.weights;
    let n: usize = weights.layers.len();
    if n == 0 {
        weights.input_size
    } else {
        proof {
            assert(weights@.layers[n - 1] == weights.layers@[n - 1]@);
            assert(width_after(weights@, n as int) <= usize::MAX);
        }
        weights.layers[n - 1].forward.hidden + weights.layers[n - 1].backward.hidden
    }
}

/// Goes back through all layers.
fn layers_back(activations: &Activations<'_>, top: Vec<F64>) -> (r: Vec<F64>)
    requires
        activations@.wf(),
        top@.len() == activations@.rows * width_after(
            activations@.weights,
            activations@.weights.layers.len() as int,
        ),
    ensures
        r@ == gradient_at(
            activations@.weights,
            activations@.saved,
            activations@.rows,
            top@,
            0,
        ),
{
    let weights: &NetworkWeights = activations.weights;
    let rows: usize = activations.rows;
    let ghost w = weights@;
    let ghost saved = saved_view(activations.layers@);
    let n: usize = weights.layers.len();
    let ghost above = top@;
    let mut dx: Vec<F64> = top;
    let mut k: usize = n;
    while k > 0
        invariant
            k <= n,
            n == weights.layers@.len(),
            w == weights@,
            activations@.wf(),
            weights == activations.weights,
            rows == activations.rows,
            saved == saved_view(activations.layers@),
            dx@ == gradient_at(w, saved, rows as nat, above, k as int),
            dx@.len() == rows * width_after(w, k as int),
        decreases k,
    {
        k -= 1;
        let layer: &LayerWeights = &weights.layers[k];
        let kept: &(Vec<Cell>, Vec<Cell>) = &activations.layers[k];
        proof {
            assert(w.layers[k as int] == layer@);
            assert(saved[k as int] == (kept.0@, kept.1@));
            assert(width_after(w, k + 1) <= usize::MAX);
            assert(rows as nat * width_after(w, k as int) <= usize::MAX);
        }
        dx = layer_back(layer, kept, rows, &dx);
    }
    dx
}

/// What is wrong with the gradients of logits.
pub open spec fn logit_gradients_problem(rows: nat, classes: nat, dlogits: Seq<F64>) -> Option<
    ErrorView,
> {
    if dlogits.len() != rows * classes {
        Some(
            ErrorView::Invalid(
                "expected "@ + dec(rows * classes) + " logit gradients, got "@ + dec(
                    dlogits.len(),
                ),
            ),
        )
    } else if !all_finite64(dlogits) {
        Some(ErrorView::Invalid("logit gradients must be finite"@))
    } else {
        None
    }
}

/// What the gradient of the loss with respect to the features is, of that with
/// respect to the logits.
pub open spec fn is_gradient(
    a: ActivationsView,
    dlogits: Seq<F64>,
    r: Result<Vec<F64>, Error>,
) -> bool {
    let w = a.weights;
    let rows = a.rows;
    let wanted = gradient_at(w, a.saved, rows, head_gradient(w, rows, dlogits), 0);
    match logit_gradients_problem(rows, w.num_classes as nat, dlogits) {
        Some(g) => r is Err && r->Err_0@ == g,
        None => match r {
            Ok(dx) => all_finite64(wanted) && dx@ == wanted,
            Err(e) => !all_finite64(wanted) && e@ == ErrorView::Invalid(
                "feature gradients must be finite"@,
            ),
        },
    }
}

/// The gradient of the loss with respect to the features, of that with respect to
/// the logits, both row-major, accumulated in binary64, for the weights that the
/// activations were saved with.
///
/// At the cell-clip boundary the inside derivative (one) is taken; outside it, the
/// cell-update derivative is zero. The output gate remains differentiable.
pub fn saved_gradient(activations: &Activations<'_>, dlogits: &[F64]) -> (r: Result<
    Vec<F64>,
    Error,
>)
    ensures
        is_gradient(activations@, dlogits@, r),
{
    proof {
        use_type_invariant(activations);
    }
    let weights: &NetworkWeights = activations.weights;
    let rows: usize = activations.rows;
    let expected: usize = rows * weights.num_classes;
    if dlogits.len() != expected {
        let mut s: String = text_with("expected ", expected as u64, " logit gradients, got ");
        push_dec(&mut s, dlogits.len() as u64);
        return Err(Error::Invalid(s));
    }
    if !are_finite64(dlogits) {
        return Err(invalid("logit gradients must be finite"));
    }
    let width: usize = last_width(activations);
    assert(rows as nat * width_after(weights@, weights@.layers.len() as int) <= usize::MAX);
    let top: Vec<F64> = head_back(weights, rows, dlogits, width);
    let dx: Vec<F64> = layers_back(activations, top);
    if !are_finite64(dx.as_slice()) {
        return Err(invalid("feature gradients must be finite"));
    }
    Ok(dx)
}

/// Whether two references lead to one object, by [`core::ptr::eq`]. Claimed: what
/// lies at one address has one value. Where two equal objects lie is left open.
#[verifier::external_body]
fn same_object(a: &NetworkWeights, b: &NetworkWeights) -> (r: bool)
    ensures
        r ==> a@ == b@,
{
    core::ptr::eq(a, b)
}

/// [`saved_gradient`] where the weights are those that the activations were saved
/// with, and a refusal where they are not.
pub fn gradient_if(same: bool, activations: &Activations<'_>, dlogits: &[F64]) -> (r: Result<
    Vec<F64>,
    Error,
>)
    ensures
        if same {
            is_gradient(activations@, dlogits@, r)
        } else {
            r is Err && r->Err_0@ == ErrorView::Invalid(
                "activations belong to a different weight object"@,
            )
        },
{
    if !same {
        return Err(invalid("activations belong to a different weight object"));
    }
    saved_gradient(activations, dlogits)
}

/// [`saved_gradient`] for the weight object of [`forward_with_activations`].
/// Activations reused with other weights would silently differentiate a different
/// function, so this is checked even when the two networks are equal in all their
/// numbers. Whether two equal networks are one object is not stated, since it depends
/// on where they lie; [`gradient_if`] says what follows from either answer.
pub fn features_gradient(
    weights: &NetworkWeights,
    activations: &Activations<'_>,
    dlogits: &[F64],
) -> (r: Result<Vec<F64>, Error>)
    ensures
        (r is Err && r->Err_0@ == ErrorView::Invalid(
            "activations belong to a different weight object"@,
        )) || (weights@ == activations@.weights && is_gradient(activations@, dlogits@, r)),
{
    gradient_if(same_object(weights, activations.weights), activations, dlogits)
}

} // verus!
