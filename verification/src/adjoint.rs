//! Backpropagation as the transpose of what the network does to small moves.
//!
//! [`crate::netgrad`] goes back through the network in binary64, where sums and products
//! round. Here the same walk is stated over whatever adds and multiplies. Over real
//! numbers it is exactly the transpose of the walk forward, given the local slopes of
//! the units: however the features move, what the logits do about it, weighted by their
//! gradients, is what the features did, weighted by theirs.
use vstd::prelude::*;

use crate::float::{F32, F64};
use crate::lattice::{exact, Ring};
use crate::mat::{flatten, lemma_cell};
use crate::net::{time_of, Cell};
use crate::netgrad::{
    activation_gradient, back_after, back_through, cell_gradient, diagonal_gradient, gate_gradient,
    gates_gradient, gradient_at, head_gradient, input_gradient, layer_gradient, one,
    recurrent_gradient, transposed, width_after, Back,
};
use crate::sums::{
    lemma_blocks, lemma_parts, lemma_plus, lemma_reversed, lemma_same, lemma_scale, lemma_swap,
    lemma_zero, sum_of,
};
use crate::tflite::{DirectionView, LayerView, NetworkView};

verus! {

/// What a unit computed at a time, and what is left of each to one: of a gate its
/// complement, of a hyperbolic tangent that of its square.
#[verifier::reject_recursive_types(T)]
pub struct Slopes<T> {
    pub input: T,
    pub input_rest: T,
    pub forget: T,
    pub forget_rest: T,
    pub candidate: T,
    pub candidate_rest: T,
    pub out: T,
    pub out_rest: T,
    pub previous: T,
    pub tanh: T,
    pub tanh_rest: T,
    pub unclipped: bool,
}

/// A direction: its kernels by their places, and what its units computed.
#[verifier::reject_recursive_types(T)]
pub struct Dir<T> {
    pub hidden: nat,
    pub input: nat,
    pub diagonal: bool,
    pub kernels: spec_fn(int) -> T,
    pub recurrent: spec_fn(int) -> T,
    pub cells: spec_fn(int) -> Slopes<T>,
}

/// A network: its layers, each of two directions, and its head.
#[verifier::reject_recursive_types(T)]
pub struct Net<T> {
    pub layers: Seq<(Dir<T>, Dir<T>)>,
    pub head: spec_fn(int) -> T,
    pub input: nat,
    pub classes: nat,
}

/// What goes back through the recurrence.
#[verifier::reject_recursive_types(T)]
pub struct Pull<T> {
    pub dh: Seq<T>,
    pub dc: Seq<T>,
}

/// A number and the first `n` numbers of a row, added one by one.
pub open spec fn gathered<T>(q: Ring<T>, f: spec_fn(int) -> T, n: nat, base: T) -> T
    decreases n,
{
    if n == 0 {
        base
    } else {
        q.plus(gathered(q, f, (n - 1) as nat, base), f(n - 1))
    }
}

/// What goes back to a unit's cell.
pub open spec fn cell_pull<T>(q: Ring<T>, k: Slopes<T>, dh: T, dc: T) -> T {
    if k.unclipped {
        q.plus(dc, q.times(q.times(dh, k.out), k.tanh_rest))
    } else {
        q.none
    }
}

/// What goes back to a unit's gate.
pub open spec fn gate_pull<T>(q: Ring<T>, k: Slopes<T>, dh: T, dc: T, gate: int) -> T {
    let update = cell_pull(q, k, dh, dc);
    if gate == 0 {
        q.times(q.times(q.times(update, k.candidate), k.input), k.input_rest)
    } else if gate == 1 {
        q.times(q.times(q.times(update, k.previous), k.forget), k.forget_rest)
    } else if gate == 2 {
        q.times(q.times(update, k.input), k.candidate_rest)
    } else {
        q.times(q.times(q.times(dh, k.tanh), k.out), k.out_rest)
    }
}

/// What goes back to a unit's activation: through the recurrence, and from above.
pub open spec fn activation_pull<T>(
    q: Ring<T>,
    up: Seq<T>,
    width: nat,
    offset: nat,
    b: Pull<T>,
    t: int,
    j: int,
) -> T {
    q.plus(b.dh[j], up[t * width + (offset + j)])
}

/// What goes back to all gates at a time.
pub open spec fn gates_pull<T>(
    q: Ring<T>,
    d: Dir<T>,
    up: Seq<T>,
    width: nat,
    offset: nat,
    b: Pull<T>,
    t: int,
) -> Seq<T> {
    flatten(
        4,
        d.hidden,
        |g: int, j: int|
            gate_pull(
                q,
                (d.cells)(t * d.hidden + j),
                activation_pull(q, up, width, offset, b, t, j),
                b.dc[j],
                g,
            ),
    )
}

/// What goes back to an activation of the time before.
pub open spec fn recurrent_pull<T>(q: Ring<T>, d: Dir<T>, dg: Seq<T>, j: int) -> T {
    if d.diagonal {
        gathered(
            q,
            |g: int| q.times(dg[g * d.hidden + j], (d.recurrent)(g * d.hidden + j)),
            4,
            q.none,
        )
    } else {
        gathered(
            q,
            |r: int| q.times(dg[r], (d.recurrent)(r * d.hidden + j)),
            4 * d.hidden,
            q.none,
        )
    }
}

/// What goes back behind a time.
pub open spec fn pull_through<T>(
    q: Ring<T>,
    d: Dir<T>,
    up: Seq<T>,
    width: nat,
    offset: nat,
    b: Pull<T>,
    t: int,
) -> Pull<T> {
    let dg = gates_pull(q, d, up, width, offset, b, t);
    Pull {
        dh: Seq::new(d.hidden, |j: int| recurrent_pull(q, d, dg, j)),
        dc: Seq::new(
            d.hidden,
            |j: int|
                q.times(
                    cell_pull(
                        q,
                        (d.cells)(t * d.hidden + j),
                        activation_pull(q, up, width, offset, b, t, j),
                        b.dc[j],
                    ),
                    (d.cells)(t * d.hidden + j).forget,
                ),
        ),
    }
}

/// What goes back after so many steps, from the last time the direction saw.
pub open spec fn pull_after<T>(
    q: Ring<T>,
    d: Dir<T>,
    rows: nat,
    reverse: bool,
    up: Seq<T>,
    width: nat,
    offset: nat,
    steps: nat,
) -> Pull<T>
    decreases steps,
{
    if steps == 0 {
        Pull {
            dh: Seq::new(d.hidden, |j: int| q.none),
            dc: Seq::new(d.hidden, |j: int| q.none),
        }
    } else {
        pull_through(
            q,
            d,
            up,
            width,
            offset,
            pull_after(q, d, rows, reverse, up, width, offset, (steps - 1) as nat),
            time_of(rows, !reverse, steps - 1),
        )
    }
}

/// What goes back to an input of a direction, on top of a number.
pub open spec fn input_pull<T>(
    q: Ring<T>,
    d: Dir<T>,
    rows: nat,
    reverse: bool,
    up: Seq<T>,
    width: nat,
    offset: nat,
    t: int,
    c: int,
    base: T,
) -> T {
    let b = pull_after(
        q,
        d,
        rows,
        reverse,
        up,
        width,
        offset,
        time_of(rows, !reverse, t) as nat,
    );
    let dg = gates_pull(q, d, up, width, offset, b, t);
    gathered(q, |r: int| q.times(dg[r], (d.kernels)(r * d.input + c)), 4 * d.hidden, base)
}

/// What goes back to a layer's input.
pub open spec fn layer_pull<T>(q: Ring<T>, l: (Dir<T>, Dir<T>), rows: nat, up: Seq<T>) -> Seq<T> {
    let width = l.0.hidden + l.1.hidden;
    flatten(
        rows,
        l.0.input,
        |t: int, c: int|
            input_pull(
                q,
                l.1,
                rows,
                true,
                up,
                width,
                l.0.hidden,
                t,
                c,
                input_pull(q, l.0, rows, false, up, width, 0, t, c, q.none),
            ),
    )
}

/// How wide the output of the first `k` layers is.
pub open spec fn net_width<T>(n: Net<T>, k: int) -> nat {
    if k <= 0 {
        n.input
    } else {
        n.layers[k - 1].0.hidden + n.layers[k - 1].1.hidden
    }
}

/// What goes back to the head's input.
pub open spec fn head_pull<T>(q: Ring<T>, n: Net<T>, rows: nat, dlogits: Seq<T>) -> Seq<T> {
    let width = net_width(n, n.layers.len() as int);
    flatten(
        rows,
        width,
        |t: int, c: int|
            gathered(
                q,
                |r: int| q.times(dlogits[t * n.classes + r], (n.head)(r * width + c)),
                n.classes,
                q.none,
            ),
    )
}

/// What goes back to the input of layer `k`.
pub open spec fn net_pull<T>(q: Ring<T>, n: Net<T>, rows: nat, top: Seq<T>, k: int) -> Seq<T>
    decreases n.layers.len() - k,
{
    if k < 0 || k >= n.layers.len() {
        top
    } else {
        layer_pull(q, n.layers[k], rows, net_pull(q, n, rows, top, k + 1))
    }
}

/// How activations and cells move.
pub struct Push {
    pub h: Seq<real>,
    pub c: Seq<real>,
}

/// How a gate moves, before its function, with the inputs and the activations before.
pub open spec fn gate_push(d: Dir<real>, dx: Seq<real>, t: int, m: Push, r: int) -> real {
    sum_of(|c: int| (d.kernels)(r * d.input + c) * dx[t * d.input + c], d.input) + if d.diagonal {
        (d.recurrent)(r) * m.h[r % d.hidden as int]
    } else {
        sum_of(|i: int| (d.recurrent)(r * d.hidden + i) * m.h[i], d.hidden)
    }
}

/// How a cell moves with the cell before and the unit's gates: not at all where it was
/// clipped. The slope of a sigmoid is its value times what that leaves to one, the slope
/// of a hyperbolic tangent what its square leaves to one.
pub open spec fn cell_push(k: Slopes<real>, dc: real, g0: real, g1: real, g2: real) -> real {
    if k.unclipped {
        k.forget * dc + k.candidate * (k.input * k.input_rest * g0) + k.previous * (k.forget
            * k.forget_rest * g1) + k.input * (k.candidate_rest * g2)
    } else {
        0 as real
    }
}

/// How an activation moves with its cell and its output gate.
pub open spec fn activation_push(k: Slopes<real>, dc: real, g3: real) -> real {
    k.tanh * (k.out * k.out_rest * g3) + k.out * (k.tanh_rest * dc)
}

/// How activations and cells move over a time.
pub open spec fn push_through(d: Dir<real>, dx: Seq<real>, t: int, m: Push) -> Push {
    let c = Seq::new(
        d.hidden,
        |j: int|
            cell_push(
                (d.cells)(t * d.hidden + j),
                m.c[j],
                gate_push(d, dx, t, m, j),
                gate_push(d, dx, t, m, d.hidden + j),
                gate_push(d, dx, t, m, 2 * d.hidden + j),
            ),
    );
    Push {
        h: Seq::new(
            d.hidden,
            |j: int|
                activation_push(
                    (d.cells)(t * d.hidden + j),
                    c[j],
                    gate_push(d, dx, t, m, 3 * d.hidden + j),
                ),
        ),
        c,
    }
}

/// How activations and cells move after so many steps; at first they do not.
pub open spec fn push_after(
    d: Dir<real>,
    rows: nat,
    reverse: bool,
    dx: Seq<real>,
    steps: nat,
) -> Push
    decreases steps,
{
    if steps == 0 {
        Push {
            h: Seq::new(d.hidden, |j: int| 0 as real),
            c: Seq::new(d.hidden, |j: int| 0 as real),
        }
    } else {
        push_through(
            d,
            dx,
            time_of(rows, reverse, steps - 1),
            push_after(d, rows, reverse, dx, (steps - 1) as nat),
        )
    }
}

/// How a direction's output moves.
pub open spec fn output_push(
    d: Dir<real>,
    rows: nat,
    reverse: bool,
    dx: Seq<real>,
    t: int,
    j: int,
) -> real {
    push_after(d, rows, reverse, dx, (time_of(rows, reverse, t) + 1) as nat).h[j]
}

/// How a layer's output moves: the forward direction's beside the backward one's.
pub open spec fn layer_push(l: (Dir<real>, Dir<real>), rows: nat, dx: Seq<real>) -> Seq<real> {
    flatten(
        rows,
        l.0.hidden + l.1.hidden,
        |t: int, c: int|
            if c < l.0.hidden {
                output_push(l.0, rows, false, dx, t, c)
            } else {
                output_push(l.1, rows, true, dx, t, c - l.0.hidden)
            },
    )
}

/// How the output of the first `k` layers moves with the features.
pub open spec fn net_push(n: Net<real>, rows: nat, dx: Seq<real>, k: nat) -> Seq<real>
    decreases k,
{
    if k == 0 {
        dx
    } else {
        layer_push(n.layers[k - 1], rows, net_push(n, rows, dx, (k - 1) as nat))
    }
}

/// How the logits move with the head's input.
pub open spec fn head_push(n: Net<real>, rows: nat, dy: Seq<real>) -> Seq<real> {
    let width = net_width(n, n.layers.len() as int);
    flatten(
        rows,
        n.classes,
        |t: int, r: int| sum_of(|c: int| (n.head)(r * width + c) * dy[t * width + c], width),
    )
}

/// Two rows of numbers, row by row of a matrix, multiplied and added up.
pub open spec fn paired(a: Seq<real>, b: Seq<real>, rows: nat, cols: nat) -> real {
    sum_of(|t: int| sum_of(|c: int| a[t * cols + c] * b[t * cols + c], cols), rows)
}

proof fn lemma_gathered(f: spec_fn(int) -> real, n: nat, base: real)
    ensures
        gathered(exact(), f, n, base) == base + sum_of(f, n),
    decreases n,
{
    if n > 0 {
        lemma_gathered(f, (n - 1) as nat, base);
    }
}

/// The transpose at one unit.
proof fn lemma_unit(
    k: Slopes<real>,
    dh: real,
    dc: real,
    m: real,
    g0: real,
    g1: real,
    g2: real,
    g3: real,
)
    ensures
        ({
            let q = exact();
            let c = cell_push(k, m, g0, g1, g2);
            dh * activation_push(k, c, g3) + dc * c == gate_pull(q, k, dh, dc, 0) * g0
                + gate_pull(q, k, dh, dc, 1) * g1 + gate_pull(q, k, dh, dc, 2) * g2 + gate_pull(
                q,
                k,
                dh,
                dc,
                3,
            ) * g3 + (cell_pull(q, k, dh, dc) * k.forget) * m
        }),
{
    let q = exact();
    let u = cell_pull(q, k, dh, dc);
    let c = cell_push(k, m, g0, g1, g2);
    let a = k.tanh * (k.out * k.out_rest * g3);
    let b = k.out * (k.tanh_rest * c);
    lemma_dist(dh, a, b);
    lemma_chain(dh, k.tanh, k.out, k.out_rest, g3);
    lemma_short_chain(dh, k.out, k.tanh_rest, c);
    let back = (dh * k.out) * k.tanh_rest;
    lemma_dist(c, dc, back);
    lemma_comm(c, dc);
    lemma_comm(c, back);
    lemma_comm(c, dc + back);
    assert(dh * activation_push(k, c, g3) + dc * c == gate_pull(q, k, dh, dc, 3) * g3 + (dc + back)
        * c);
    if k.unclipped {
        let s1 = k.forget * m;
        let s2 = k.candidate * (k.input * k.input_rest * g0);
        let s3 = k.previous * (k.forget * k.forget_rest * g1);
        let s4 = k.input * (k.candidate_rest * g2);
        assert(u == dc + back);
        lemma_dist(u, s1 + s2 + s3, s4);
        lemma_dist(u, s1 + s2, s3);
        lemma_dist(u, s1, s2);
        lemma_assoc(u, k.forget, m);
        lemma_chain(u, k.candidate, k.input, k.input_rest, g0);
        lemma_chain(u, k.previous, k.forget, k.forget_rest, g1);
        lemma_short_chain(u, k.input, k.candidate_rest, g2);
    } else {
        lemma_none(dc + back);
        lemma_nothing(k.candidate, k.input, k.input_rest, g0);
        lemma_nothing(k.previous, k.forget, k.forget_rest, g1);
        lemma_nothing(k.input, k.candidate_rest, g2, g2);
        lemma_nothing(k.forget, m, m, m);
    }
}

proof fn lemma_assoc(a: real, b: real, c: real)
    ensures
        a * (b * c) == (a * b) * c,
{
    assert(a * (b * c) == (a * b) * c) by (nonlinear_arith);
}

proof fn lemma_comm(a: real, b: real)
    ensures
        a * b == b * a,
{
    assert(a * b == b * a) by (nonlinear_arith);
}

proof fn lemma_dist(a: real, b: real, c: real)
    ensures
        a * (b + c) == a * b + a * c,
{
    assert(a * (b + c) == a * b + a * c) by (nonlinear_arith);
}

proof fn lemma_none(a: real)
    ensures
        a * (0 as real) == 0 as real,
        (0 as real) * a == 0 as real,
{
    assert(a * (0 as real) == 0 as real) by (nonlinear_arith);
    lemma_comm(a, 0 as real);
}

proof fn lemma_short_chain(a: real, b: real, c: real, d: real)
    ensures
        a * (b * (c * d)) == ((a * b) * c) * d,
{
    lemma_assoc(a, b, c * d);
    lemma_assoc(a * b, c, d);
}

proof fn lemma_chain(a: real, b: real, c: real, d: real, e: real)
    ensures
        a * (b * (c * d * e)) == (((a * b) * c) * d) * e,
{
    lemma_assoc(a, b, c * d * e);
    lemma_assoc(a * b, c * d, e);
    lemma_assoc(a * b, c, d);
}

proof fn lemma_nothing(a: real, b: real, c: real, d: real)
    ensures
        ((((0 as real) * a) * b) * c) * d == 0 as real,
        (((0 as real) * a) * b) * c == 0 as real,
        ((0 as real) * a) * b == 0 as real,
{
    lemma_none(a);
    lemma_none(b);
    lemma_none(c);
    lemma_none(d);
}

/// The transpose of a matrix.
proof fn lemma_matrix(
    v: spec_fn(int) -> real,
    k: spec_fn(int, int) -> real,
    x: spec_fn(int) -> real,
    n: nat,
    m: nat,
)
    ensures
        sum_of(|r: int| v(r) * sum_of(|c: int| k(r, c) * x(c), m), n) == sum_of(
            |c: int| x(c) * sum_of(|r: int| v(r) * k(r, c), n),
            m,
        ),
{
    let f = |r: int, c: int| v(r) * (k(r, c) * x(c));
    let left = |r: int| v(r) * sum_of(|c: int| k(r, c) * x(c), m);
    let rows = |r: int| sum_of(|c: int| f(r, c), m);
    assert forall|r: int| 0 <= r < n implies #[trigger] left(r) == rows(r) by {
        let part = |c: int| k(r, c) * x(c);
        let scaled = |c: int| f(r, c);
        assert forall|c: int| 0 <= c < m implies #[trigger] scaled(c) == v(r) * part(c) by {}
        lemma_scale(part, v(r), scaled, m);
    }
    lemma_same(left, rows, n);
    lemma_swap(f, n, m);
    let right = |c: int| x(c) * sum_of(|r: int| v(r) * k(r, c), n);
    let cols = |c: int| sum_of(|r: int| f(r, c), n);
    assert forall|c: int| 0 <= c < m implies #[trigger] cols(c) == right(c) by {
        let part = |r: int| v(r) * k(r, c);
        let scaled = |r: int| f(r, c);
        assert forall|r: int| 0 <= r < n implies #[trigger] scaled(r) == x(c) * part(r) by {
            lemma_assoc(v(r), k(r, c), x(c));
            lemma_comm(v(r) * k(r, c), x(c));
        }
        lemma_scale(part, x(c), scaled, n);
    }
    lemma_same(cols, right, m);
}

/// A row over gates and units, by gate or by unit.
proof fn lemma_by_unit(f: spec_fn(int) -> real, hidden: nat)
    ensures
        sum_of(f, 4 * hidden) == sum_of(
            |j: int| sum_of(|g: int| f(g * hidden + j), 4),
            hidden,
        ),
{
    lemma_blocks(f, 4, hidden);
    let cell = |g: int, j: int| f(g * hidden + j);
    lemma_swap(cell, 4, hidden);
    let a = |g: int| sum_of(|j: int| f(g * hidden + j), hidden);
    let b = |g: int| sum_of(|j: int| cell(g, j), hidden);
    assert forall|g: int| 0 <= g < 4 implies #[trigger] a(g) == b(g) by {
        lemma_same(|j: int| f(g * hidden + j), |j: int| cell(g, j), hidden);
    }
    lemma_same(a, b, 4);
    let c = |j: int| sum_of(|g: int| cell(g, j), 4);
    let d = |j: int| sum_of(|g: int| f(g * hidden + j), 4);
    assert forall|j: int| 0 <= j < hidden implies #[trigger] c(j) == d(j) by {
        lemma_same(|g: int| cell(g, j), |g: int| f(g * hidden + j), 4);
    }
    lemma_same(c, d, hidden);
}

/// The transpose of the recurrence.
proof fn lemma_recurrence(d: Dir<real>, dg: Seq<real>, h: Seq<real>)
    ensures
        sum_of(
            |r: int|
                dg[r] * (if d.diagonal {
                    (d.recurrent)(r) * h[r % d.hidden as int]
                } else {
                    sum_of(|i: int| (d.recurrent)(r * d.hidden + i) * h[i], d.hidden)
                }),
            4 * d.hidden,
        ) == sum_of(|j: int| recurrent_pull(exact(), d, dg, j) * h[j], d.hidden),
{
    let q = exact();
    let left = |r: int|
        dg[r] * (if d.diagonal {
            (d.recurrent)(r) * h[r % d.hidden as int]
        } else {
            sum_of(|i: int| (d.recurrent)(r * d.hidden + i) * h[i], d.hidden)
        });
    let right = |j: int| recurrent_pull(q, d, dg, j) * h[j];
    let n = 4 * d.hidden;
    if d.diagonal {
        lemma_by_unit(left, d.hidden);
        let units = |j: int| sum_of(|g: int| left(g * d.hidden + j), 4);
        assert forall|j: int| 0 <= j < d.hidden implies #[trigger] units(j) == right(j) by {
            let part = |g: int| q.times(dg[g * d.hidden + j], (d.recurrent)(g * d.hidden + j));
            let whole = |g: int| left(g * d.hidden + j);
            assert forall|g: int| 0 <= g < 4 implies #[trigger] whole(g) == h[j] * part(g) by {
                lemma_cell(4, d.hidden, g, j);
                let r = g * d.hidden + j;
                lemma_assoc(dg[r], (d.recurrent)(r), h[j]);
                lemma_comm(dg[r] * (d.recurrent)(r), h[j]);
            }
            lemma_scale(part, h[j], whole, 4);
            lemma_gathered(part, 4, q.none);
            lemma_comm(h[j], sum_of(part, 4));
        }
        lemma_same(units, right, d.hidden);
    } else {
        let v = |r: int| dg[r];
        let k = |r: int, i: int| (d.recurrent)(r * d.hidden + i);
        let x = |i: int| h[i];
        lemma_matrix(v, k, x, n, d.hidden);
        let a = |r: int| v(r) * sum_of(|c: int| k(r, c) * x(c), d.hidden);
        assert forall|r: int| 0 <= r < n implies #[trigger] left(r) == a(r) by {
            lemma_same(
                |i: int| (d.recurrent)(r * d.hidden + i) * h[i],
                |c: int| k(r, c) * x(c),
                d.hidden,
            );
        }
        lemma_same(left, a, n);
        let b = |c: int| x(c) * sum_of(|r: int| v(r) * k(r, c), n);
        assert forall|j: int| 0 <= j < d.hidden implies #[trigger] b(j) == right(j) by {
            let part = |r: int| q.times(dg[r], (d.recurrent)(r * d.hidden + j));
            lemma_gathered(part, n, q.none);
            lemma_same(part, |r: int| v(r) * k(r, j), n);
            lemma_comm(x(j), sum_of(part, n));
        }
        lemma_same(b, right, d.hidden);
    }
}

/// The transpose of the inputs' part of the gates.
proof fn lemma_inputs(d: Dir<real>, dg: Seq<real>, dx: Seq<real>, t: int)
    ensures
        sum_of(
            |r: int|
                dg[r] * sum_of(
                    |c: int| (d.kernels)(r * d.input + c) * dx[t * d.input + c],
                    d.input,
                ),
            4 * d.hidden,
        ) == sum_of(
            |c: int|
                dx[t * d.input + c] * sum_of(
                    |r: int| dg[r] * (d.kernels)(r * d.input + c),
                    4 * d.hidden,
                ),
            d.input,
        ),
{
    let n = 4 * d.hidden;
    let v = |r: int| dg[r];
    let k = |r: int, c: int| (d.kernels)(r * d.input + c);
    let x = |c: int| dx[t * d.input + c];
    lemma_matrix(v, k, x, n, d.input);
    let left = |r: int|
        dg[r] * sum_of(|c: int| (d.kernels)(r * d.input + c) * dx[t * d.input + c], d.input);
    let a = |r: int| v(r) * sum_of(|c: int| k(r, c) * x(c), d.input);
    assert forall|r: int| 0 <= r < n implies #[trigger] left(r) == a(r) by {
        lemma_same(
            |c: int| (d.kernels)(r * d.input + c) * dx[t * d.input + c],
            |c: int| k(r, c) * x(c),
            d.input,
        );
    }
    lemma_same(left, a, n);
    let right = |c: int|
        dx[t * d.input + c] * sum_of(|r: int| dg[r] * (d.kernels)(r * d.input + c), n);
    let b = |c: int| x(c) * sum_of(|r: int| v(r) * k(r, c), n);
    assert forall|c: int| 0 <= c < d.input implies #[trigger] b(c) == right(c) by {
        lemma_same(
            |r: int| v(r) * k(r, c),
            |r: int| dg[r] * (d.kernels)(r * d.input + c),
            n,
        );
    }
    lemma_same(b, right, d.input);
}

/// What goes back, weighted by how activations and cells moved.
spec fn carried(b: Pull<real>, m: Push, hidden: nat) -> real {
    sum_of(|j: int| b.dh[j] * m.h[j] + b.dc[j] * m.c[j], hidden)
}

/// What comes from above at a time, weighted by how activations moved.
spec fn from_above(up: Seq<real>, width: nat, offset: nat, m: Push, t: int, hidden: nat) -> real {
    sum_of(|j: int| up[t * width + (offset + j)] * m.h[j], hidden)
}

/// How the inputs moved at a time, weighted by what goes back to them.
spec fn at_inputs(d: Dir<real>, dg: Seq<real>, dx: Seq<real>, t: int) -> real {
    sum_of(
        |c: int|
            dx[t * d.input + c] * sum_of(
                |r: int| dg[r] * (d.kernels)(r * d.input + c),
                4 * d.hidden,
            ),
        d.input,
    )
}

/// The transpose over one time.
proof fn lemma_time(
    d: Dir<real>,
    up: Seq<real>,
    width: nat,
    offset: nat,
    b: Pull<real>,
    m: Push,
    dx: Seq<real>,
    t: int,
)
    ensures
        carried(b, push_through(d, dx, t, m), d.hidden) + from_above(
            up,
            width,
            offset,
            push_through(d, dx, t, m),
            t,
            d.hidden,
        ) == carried(pull_through(exact(), d, up, width, offset, b, t), m, d.hidden) + at_inputs(
            d,
            gates_pull(exact(), d, up, width, offset, b, t),
            dx,
            t,
        ),
{
    let q = exact();
    let hidden = d.hidden;
    let next = push_through(d, dx, t, m);
    let back = pull_through(q, d, up, width, offset, b, t);
    let dg = gates_pull(q, d, up, width, offset, b, t);
    let gate = |r: int| gate_push(d, dx, t, m, r);
    let at_gate = |r: int| dg[r] * gate(r);
    let above = |j: int| up[t * width + (offset + j)] * next.h[j];
    let held = |j: int| b.dh[j] * next.h[j] + b.dc[j] * next.c[j];
    let both = |j: int| held(j) + above(j);
    assert forall|j: int| 0 <= j < hidden implies #[trigger] both(j) == held(j) + above(j) by {}
    lemma_plus(held, above, both, hidden);
    let units = |j: int| sum_of(|g: int| at_gate(g * hidden + j), 4);
    let cells = |j: int| back.dc[j] * m.c[j];
    assert forall|j: int| 0 <= j < hidden implies #[trigger] both(j) == units(j) + cells(j) by {
        lemma_one_unit(d, up, width, offset, b, m, dx, t, j);
        lemma_same(
            |g: int| at_gate(g * hidden + j),
            |g: int| dg[g * hidden + j] * gate_push(d, dx, t, m, g * hidden + j),
            4,
        );
    }
    lemma_plus(units, cells, both, hidden);
    lemma_by_unit(at_gate, hidden);
    // The gates' moves, by the inputs and by the recurrence.
    let n = 4 * hidden;
    let inputs = |r: int|
        dg[r] * sum_of(|c: int| (d.kernels)(r * d.input + c) * dx[t * d.input + c], d.input);
    let recurs = |r: int|
        dg[r] * (if d.diagonal {
            (d.recurrent)(r) * m.h[r % d.hidden as int]
        } else {
            sum_of(|i: int| (d.recurrent)(r * d.hidden + i) * m.h[i], d.hidden)
        });
    assert forall|r: int| 0 <= r < n implies #[trigger] at_gate(r) == inputs(r) + recurs(r) by {
        lemma_dist(
            dg[r],
            sum_of(|c: int| (d.kernels)(r * d.input + c) * dx[t * d.input + c], d.input),
            if d.diagonal {
                (d.recurrent)(r) * m.h[r % d.hidden as int]
            } else {
                sum_of(|i: int| (d.recurrent)(r * d.hidden + i) * m.h[i], d.hidden)
            },
        );
    }
    lemma_plus(inputs, recurs, at_gate, n);
    lemma_inputs(d, dg, dx, t);
    lemma_recurrence(d, dg, m.h);
    let through = |j: int| recurrent_pull(q, d, dg, j) * m.h[j];
    let carry = |j: int| back.dh[j] * m.h[j] + back.dc[j] * m.c[j];
    assert forall|j: int| 0 <= j < hidden implies #[trigger] carry(j) == through(j) + cells(j) by {
        assert(back.dh[j] == recurrent_pull(q, d, dg, j));
    }
    lemma_plus(through, cells, carry, hidden);
}

proof fn lemma_one_unit(
    d: Dir<real>,
    up: Seq<real>,
    width: nat,
    offset: nat,
    b: Pull<real>,
    m: Push,
    dx: Seq<real>,
    t: int,
    j: int,
)
    requires
        0 <= j < d.hidden,
    ensures
        ({
            let q = exact();
            let next = push_through(d, dx, t, m);
            let dg = gates_pull(q, d, up, width, offset, b, t);
            b.dh[j] * next.h[j] + b.dc[j] * next.c[j] + up[t * width + (offset + j)] * next.h[j]
                == sum_of(
                |g: int| dg[g * d.hidden + j] * gate_push(d, dx, t, m, g * d.hidden + j),
                4,
            ) + pull_through(q, d, up, width, offset, b, t).dc[j] * m.c[j]
        }),
{
    let q = exact();
    let hidden = d.hidden;
    let next = push_through(d, dx, t, m);
    let dg = gates_pull(q, d, up, width, offset, b, t);
    let k = (d.cells)(t * hidden + j);
    let above = up[t * width + (offset + j)];
    let act = activation_pull(q, up, width, offset, b, t, j);
    assert(act == b.dh[j] + above);
    lemma_dist(next.h[j], b.dh[j], above);
    lemma_comm(next.h[j], b.dh[j]);
    lemma_comm(next.h[j], above);
    lemma_comm(next.h[j], act);
    let f = |g: int| dg[g * hidden + j] * gate_push(d, dx, t, m, g * hidden + j);
    lemma_unit(
        k,
        act,
        b.dc[j],
        m.c[j],
        gate_push(d, dx, t, m, j),
        gate_push(d, dx, t, m, hidden + j),
        gate_push(d, dx, t, m, 2 * hidden + j),
        gate_push(d, dx, t, m, 3 * hidden + j),
    );
    lemma_cell(4, hidden, 0, j);
    lemma_cell(4, hidden, 1, j);
    lemma_cell(4, hidden, 2, j);
    lemma_cell(4, hidden, 3, j);
    assert(0 * hidden + j == j && 1 * hidden + j == hidden + j);
    assert(dg[j] == gate_pull(q, k, act, b.dc[j], 0));
    assert(dg[hidden + j] == gate_pull(q, k, act, b.dc[j], 1));
    assert(dg[2 * hidden + j] == gate_pull(q, k, act, b.dc[j], 2));
    assert(dg[3 * hidden + j] == gate_pull(q, k, act, b.dc[j], 3));
    reveal_with_fuel(sum_of, 5);
    assert(sum_of(f, 4) == f(0) + f(1) + f(2) + f(3));
}

/// How the inputs moved at the time of a step back, weighted by what goes back to them.
spec fn inputs_at(
    d: Dir<real>,
    rows: nat,
    reverse: bool,
    up: Seq<real>,
    width: nat,
    offset: nat,
    dx: Seq<real>,
    i: int,
) -> real {
    let t = time_of(rows, !reverse, i);
    let b = pull_after(exact(), d, rows, reverse, up, width, offset, i as nat);
    at_inputs(d, gates_pull(exact(), d, up, width, offset, b, t), dx, t)
}

/// What comes from above at the time of a step back, weighted by how activations moved.
spec fn above_at(
    d: Dir<real>,
    rows: nat,
    reverse: bool,
    up: Seq<real>,
    width: nat,
    offset: nat,
    dx: Seq<real>,
    i: int,
) -> real {
    let t = time_of(rows, !reverse, i);
    let m = push_after(d, rows, reverse, dx, (rows - i) as nat);
    from_above(up, width, offset, m, t, d.hidden)
}

proof fn lemma_steps(
    d: Dir<real>,
    rows: nat,
    reverse: bool,
    up: Seq<real>,
    width: nat,
    offset: nat,
    dx: Seq<real>,
    k: nat,
)
    requires
        k <= rows,
    ensures
        carried(
            pull_after(exact(), d, rows, reverse, up, width, offset, k),
            push_after(d, rows, reverse, dx, (rows - k) as nat),
            d.hidden,
        ) + sum_of(|i: int| inputs_at(d, rows, reverse, up, width, offset, dx, i), k) == sum_of(
            |i: int| above_at(d, rows, reverse, up, width, offset, dx, i),
            k,
        ),
    decreases k,
{
    let q = exact();
    if k == 0 {
        let b = pull_after(q, d, rows, reverse, up, width, offset, 0);
        let m = push_after(d, rows, reverse, dx, rows);
        let f = |j: int| b.dh[j] * m.h[j] + b.dc[j] * m.c[j];
        assert forall|j: int| 0 <= j < d.hidden implies #[trigger] f(j) == 0 as real by {
            lemma_none(m.h[j]);
            lemma_none(m.c[j]);
        }
        lemma_zero(f, d.hidden);
    } else {
        let i = (k - 1) as nat;
        lemma_steps(d, rows, reverse, up, width, offset, dx, i);
        let b = pull_after(q, d, rows, reverse, up, width, offset, i);
        let m = push_after(d, rows, reverse, dx, (rows - k) as nat);
        let t = time_of(rows, !reverse, k - 1);
        assert(t == time_of(rows, reverse, rows - k));
        lemma_time(d, up, width, offset, b, m, dx, t);
        assert(push_after(d, rows, reverse, dx, (rows - i) as nat) == push_through(d, dx, t, m));
        assert(pull_after(q, d, rows, reverse, up, width, offset, k) == pull_through(
            q,
            d,
            up,
            width,
            offset,
            b,
            t,
        ));
    }
}

/// How a direction's output moves at a time, weighted by what comes from above.
spec fn output_paired(
    d: Dir<real>,
    rows: nat,
    reverse: bool,
    up: Seq<real>,
    width: nat,
    offset: nat,
    dx: Seq<real>,
    t: int,
) -> real {
    sum_of(
        |j: int| up[t * width + (offset + j)] * output_push(d, rows, reverse, dx, t, j),
        d.hidden,
    )
}

/// How a direction's input moves at a time, weighted by what goes back to it.
spec fn input_paired(
    d: Dir<real>,
    rows: nat,
    reverse: bool,
    up: Seq<real>,
    width: nat,
    offset: nat,
    dx: Seq<real>,
    t: int,
) -> real {
    sum_of(
        |c: int|
            dx[t * d.input + c] * input_pull(
                exact(),
                d,
                rows,
                reverse,
                up,
                width,
                offset,
                t,
                c,
                0 as real,
            ),
        d.input,
    )
}

proof fn lemma_at_step(
    d: Dir<real>,
    rows: nat,
    reverse: bool,
    up: Seq<real>,
    width: nat,
    offset: nat,
    dx: Seq<real>,
    i: int,
)
    requires
        0 <= i < rows,
    ensures
        above_at(d, rows, reverse, up, width, offset, dx, i) == output_paired(
            d,
            rows,
            reverse,
            up,
            width,
            offset,
            dx,
            time_of(rows, !reverse, i),
        ),
        inputs_at(d, rows, reverse, up, width, offset, dx, i) == input_paired(
            d,
            rows,
            reverse,
            up,
            width,
            offset,
            dx,
            time_of(rows, !reverse, i),
        ),
{
    let q = exact();
    let t = time_of(rows, !reverse, i);
    let m = push_after(d, rows, reverse, dx, (rows - i) as nat);
    assert(time_of(rows, reverse, t) + 1 == rows - i);
    lemma_same(
        |j: int| up[t * width + (offset + j)] * m.h[j],
        |j: int| up[t * width + (offset + j)] * output_push(d, rows, reverse, dx, t, j),
        d.hidden,
    );
    let b = pull_after(q, d, rows, reverse, up, width, offset, i as nat);
    let dg = gates_pull(q, d, up, width, offset, b, t);
    assert(time_of(rows, !reverse, t) == i);
    let one = |c: int|
        dx[t * d.input + c] * sum_of(
            |r: int| dg[r] * (d.kernels)(r * d.input + c),
            4 * d.hidden,
        );
    let two = |c: int|
        dx[t * d.input + c] * input_pull(
            q,
            d,
            rows,
            reverse,
            up,
            width,
            offset,
            t,
            c,
            0 as real,
        );
    assert forall|c: int| 0 <= c < d.input implies #[trigger] one(c) == two(c) by {
        let f = |r: int| q.times(dg[r], (d.kernels)(r * d.input + c));
        lemma_gathered(f, 4 * d.hidden, 0 as real);
        lemma_same(f, |r: int| dg[r] * (d.kernels)(r * d.input + c), 4 * d.hidden);
    }
    lemma_same(one, two, d.input);
}

/// Over real numbers the walk back through a direction is the transpose of the walk
/// forward.
pub proof fn lemma_direction_transposed(
    d: Dir<real>,
    rows: nat,
    reverse: bool,
    up: Seq<real>,
    width: nat,
    offset: nat,
    dx: Seq<real>,
)
    ensures
        sum_of(
            |t: int|
                sum_of(
                    |j: int| up[t * width + (offset + j)] * output_push(d, rows, reverse, dx, t, j),
                    d.hidden,
                ),
            rows,
        ) == sum_of(
            |t: int|
                sum_of(
                    |c: int|
                        dx[t * d.input + c] * input_pull(
                            exact(),
                            d,
                            rows,
                            reverse,
                            up,
                            width,
                            offset,
                            t,
                            c,
                            0 as real,
                        ),
                    d.input,
                ),
            rows,
        ),
{
    let q = exact();
    lemma_steps(d, rows, reverse, up, width, offset, dx, rows);
    let b = pull_after(q, d, rows, reverse, up, width, offset, rows);
    let m = push_after(d, rows, reverse, dx, 0);
    let f = |j: int| b.dh[j] * m.h[j] + b.dc[j] * m.c[j];
    assert forall|j: int| 0 <= j < d.hidden implies #[trigger] f(j) == 0 as real by {
        lemma_none(b.dh[j]);
        lemma_none(b.dc[j]);
    }
    lemma_zero(f, d.hidden);
    let above = |i: int| above_at(d, rows, reverse, up, width, offset, dx, i);
    let inputs = |i: int| inputs_at(d, rows, reverse, up, width, offset, dx, i);
    let outs = |t: int| output_paired(d, rows, reverse, up, width, offset, dx, t);
    let ins = |t: int| input_paired(d, rows, reverse, up, width, offset, dx, t);
    if reverse {
        assert forall|i: int| 0 <= i < rows implies #[trigger] above(i) == outs(i) by {
            lemma_at_step(d, rows, reverse, up, width, offset, dx, i);
        }
        assert forall|i: int| 0 <= i < rows implies #[trigger] inputs(i) == ins(i) by {
            lemma_at_step(d, rows, reverse, up, width, offset, dx, i);
        }
        lemma_same(above, outs, rows);
        lemma_same(inputs, ins, rows);
    } else {
        assert forall|i: int| 0 <= i < rows implies #[trigger] above(i) == outs(rows - 1 - i) by {
            lemma_at_step(d, rows, reverse, up, width, offset, dx, i);
        }
        assert forall|i: int| 0 <= i < rows implies #[trigger] inputs(i) == ins(rows - 1 - i) by {
            lemma_at_step(d, rows, reverse, up, width, offset, dx, i);
        }
        lemma_reversed(outs, above, rows);
        lemma_reversed(ins, inputs, rows);
    }
    lemma_same(
        outs,
        |t: int|
            sum_of(
                |j: int| up[t * width + (offset + j)] * output_push(d, rows, reverse, dx, t, j),
                d.hidden,
            ),
        rows,
    );
    lemma_same(
        ins,
        |t: int|
            sum_of(
                |c: int|
                    dx[t * d.input + c] * input_pull(
                        q,
                        d,
                        rows,
                        reverse,
                        up,
                        width,
                        offset,
                        t,
                        c,
                        0 as real,
                    ),
                d.input,
            ),
        rows,
    );
}

proof fn lemma_layer_outputs(l: (Dir<real>, Dir<real>), rows: nat, up: Seq<real>, dx: Seq<real>)
    ensures
        paired(up, layer_push(l, rows, dx), rows, l.0.hidden + l.1.hidden) == sum_of(
            |t: int| output_paired(l.0, rows, false, up, l.0.hidden + l.1.hidden, 0, dx, t),
            rows,
        ) + sum_of(
            |t: int|
                output_paired(
                    l.1,
                    rows,
                    true,
                    up,
                    l.0.hidden + l.1.hidden,
                    l.0.hidden,
                    dx,
                    t,
                ),
            rows,
        ),
{
    let (a, b) = (l.0.hidden, l.1.hidden);
    let width = a + b;
    let dy = layer_push(l, rows, dx);
    let whole = |t: int| sum_of(|c: int| up[t * width + c] * dy[t * width + c], width);
    let left = |t: int| output_paired(l.0, rows, false, up, width, 0, dx, t);
    let right = |t: int| output_paired(l.1, rows, true, up, width, a, dx, t);
    assert forall|t: int| 0 <= t < rows implies #[trigger] whole(t) == left(t) + right(t) by {
        let f = |c: int| up[t * width + c] * dy[t * width + c];
        let g = |j: int| up[t * width + (a + j)] * output_push(l.1, rows, true, dx, t, j);
        let h = |j: int| up[t * width + (0 + j)] * output_push(l.0, rows, false, dx, t, j);
        assert forall|j: int| 0 <= j < b implies #[trigger] g(j) == f(a + j) by {
            lemma_cell(rows, width, t, a + j);
        }
        lemma_parts(f, g, a, b);
        assert forall|j: int| 0 <= j < a implies #[trigger] f(j) == h(j) by {
            lemma_cell(rows, width, t, j);
        }
        lemma_same(f, h, a);
        assert(left(t) == sum_of(
            |j: int| up[t * width + (0nat + j)] * output_push(l.0, rows, false, dx, t, j),
            a,
        ));
        lemma_same(
            h,
            |j: int| up[t * width + (0nat + j)] * output_push(l.0, rows, false, dx, t, j),
            a,
        );
    }
    lemma_plus(left, right, whole, rows);
}

proof fn lemma_layer_inputs(l: (Dir<real>, Dir<real>), rows: nat, up: Seq<real>, dx: Seq<real>)
    requires
        l.0.input == l.1.input,
    ensures
        paired(dx, layer_pull(exact(), l, rows, up), rows, l.0.input) == sum_of(
            |t: int| input_paired(l.0, rows, false, up, l.0.hidden + l.1.hidden, 0, dx, t),
            rows,
        ) + sum_of(
            |t: int|
                input_paired(
                    l.1,
                    rows,
                    true,
                    up,
                    l.0.hidden + l.1.hidden,
                    l.0.hidden,
                    dx,
                    t,
                ),
            rows,
        ),
{
    let q = exact();
    let (a, b) = (l.0.hidden, l.1.hidden);
    let width = a + b;
    let input = l.0.input;
    let g = layer_pull(q, l, rows, up);
    let whole = |t: int| sum_of(|c: int| dx[t * input + c] * g[t * input + c], input);
    let left = |t: int| input_paired(l.0, rows, false, up, width, 0, dx, t);
    let right = |t: int| input_paired(l.1, rows, true, up, width, a, dx, t);
    assert forall|t: int| 0 <= t < rows implies #[trigger] whole(t) == left(t) + right(t) by {
        let f = |c: int| dx[t * input + c] * g[t * input + c];
        let one = |c: int|
            dx[t * l.0.input + c] * input_pull(
                q,
                l.0,
                rows,
                false,
                up,
                width,
                0,
                t,
                c,
                0 as real,
            );
        let two = |c: int|
            dx[t * l.1.input + c] * input_pull(
                q,
                l.1,
                rows,
                true,
                up,
                width,
                a,
                t,
                c,
                0 as real,
            );
        assert forall|c: int| 0 <= c < input implies #[trigger] f(c) == one(c) + two(c) by {
            lemma_cell(rows, input, t, c);
            let base = input_pull(q, l.0, rows, false, up, width, 0, t, c, 0 as real);
            let top = input_pull(q, l.1, rows, true, up, width, a, t, c, 0 as real);
            assert(g[t * input + c] == base + top) by {
                let back = pull_after(
                    q,
                    l.1,
                    rows,
                    true,
                    up,
                    width,
                    a,
                    time_of(rows, !true, t) as nat,
                );
                let dg = gates_pull(q, l.1, up, width, a, back, t);
                let k = |r: int| q.times(dg[r], (l.1.kernels)(r * l.1.input + c));
                lemma_gathered(k, 4 * b, base);
                lemma_gathered(k, 4 * b, 0 as real);
            }
            lemma_dist(dx[t * input + c], base, top);
        }
        lemma_plus(one, two, f, input);
    }
    lemma_plus(left, right, whole, rows);
}

/// Over real numbers the walk back through a layer is the transpose of the walk forward.
pub proof fn lemma_layer_transposed(
    l: (Dir<real>, Dir<real>),
    rows: nat,
    up: Seq<real>,
    dx: Seq<real>,
)
    requires
        l.0.input == l.1.input,
    ensures
        paired(up, layer_push(l, rows, dx), rows, l.0.hidden + l.1.hidden) == paired(
            dx,
            layer_pull(exact(), l, rows, up),
            rows,
            l.0.input,
        ),
{
    let width = l.0.hidden + l.1.hidden;
    lemma_layer_outputs(l, rows, up, dx);
    lemma_layer_inputs(l, rows, up, dx);
    lemma_directions_paired(l.0, rows, false, up, width, 0, dx);
    lemma_directions_paired(l.1, rows, true, up, width, l.0.hidden, dx);
}

proof fn lemma_directions_paired(
    d: Dir<real>,
    rows: nat,
    reverse: bool,
    up: Seq<real>,
    width: nat,
    offset: nat,
    dx: Seq<real>,
)
    ensures
        sum_of(|t: int| output_paired(d, rows, reverse, up, width, offset, dx, t), rows) == sum_of(
            |t: int| input_paired(d, rows, reverse, up, width, offset, dx, t),
            rows,
        ),
{
    lemma_direction_transposed(d, rows, reverse, up, width, offset, dx);
    lemma_same(
        |t: int| output_paired(d, rows, reverse, up, width, offset, dx, t),
        |t: int|
            sum_of(
                |j: int| up[t * width + (offset + j)] * output_push(d, rows, reverse, dx, t, j),
                d.hidden,
            ),
        rows,
    );
    lemma_same(
        |t: int| input_paired(d, rows, reverse, up, width, offset, dx, t),
        |t: int|
            sum_of(
                |c: int|
                    dx[t * d.input + c] * input_pull(
                        exact(),
                        d,
                        rows,
                        reverse,
                        up,
                        width,
                        offset,
                        t,
                        c,
                        0 as real,
                    ),
                d.input,
            ),
        rows,
    );
}

proof fn lemma_paired_swapped(a: Seq<real>, b: Seq<real>, rows: nat, cols: nat)
    ensures
        paired(a, b, rows, cols) == paired(b, a, rows, cols),
{
    let f = |t: int| sum_of(|c: int| a[t * cols + c] * b[t * cols + c], cols);
    let g = |t: int| sum_of(|c: int| b[t * cols + c] * a[t * cols + c], cols);
    assert forall|t: int| 0 <= t < rows implies #[trigger] f(t) == g(t) by {
        let x = |c: int| a[t * cols + c] * b[t * cols + c];
        let y = |c: int| b[t * cols + c] * a[t * cols + c];
        assert forall|c: int| 0 <= c < cols implies #[trigger] x(c) == y(c) by {
            lemma_comm(a[t * cols + c], b[t * cols + c]);
        }
        lemma_same(x, y, cols);
    }
    lemma_same(f, g, rows);
}

proof fn lemma_head_transposed(n: Net<real>, rows: nat, dlogits: Seq<real>, dy: Seq<real>)
    ensures
        paired(dlogits, head_push(n, rows, dy), rows, n.classes) == paired(
            dy,
            head_pull(exact(), n, rows, dlogits),
            rows,
            net_width(n, n.layers.len() as int),
        ),
{
    let q = exact();
    let classes = n.classes;
    let width = net_width(n, n.layers.len() as int);
    let out = head_push(n, rows, dy);
    let back = head_pull(q, n, rows, dlogits);
    let f = |t: int| sum_of(|r: int| dlogits[t * classes + r] * out[t * classes + r], classes);
    let g = |t: int| sum_of(|c: int| dy[t * width + c] * back[t * width + c], width);
    assert forall|t: int| 0 <= t < rows implies #[trigger] f(t) == g(t) by {
        let v = |r: int| dlogits[t * classes + r];
        let k = |r: int, c: int| (n.head)(r * width + c);
        let x = |c: int| dy[t * width + c];
        lemma_matrix(v, k, x, classes, width);
        let left = |r: int| dlogits[t * classes + r] * out[t * classes + r];
        let a = |r: int| v(r) * sum_of(|c: int| k(r, c) * x(c), width);
        assert forall|r: int| 0 <= r < classes implies #[trigger] left(r) == a(r) by {
            lemma_cell(rows, classes, t, r);
            lemma_same(
                |c: int| (n.head)(r * width + c) * dy[t * width + c],
                |c: int| k(r, c) * x(c),
                width,
            );
        }
        lemma_same(left, a, classes);
        let right = |c: int| dy[t * width + c] * back[t * width + c];
        let b = |c: int| x(c) * sum_of(|r: int| v(r) * k(r, c), classes);
        assert forall|c: int| 0 <= c < width implies #[trigger] b(c) == right(c) by {
            lemma_cell(rows, width, t, c);
            let part = |r: int| q.times(dlogits[t * classes + r], (n.head)(r * width + c));
            lemma_gathered(part, classes, q.none);
            lemma_same(part, |r: int| v(r) * k(r, c), classes);
        }
        lemma_same(b, right, width);
    }
    lemma_same(f, g, rows);
}

/// Whether each layer takes what the one before gives.
pub open spec fn is_chained<T>(n: Net<T>) -> bool {
    forall|k: int|
        #![trigger n.layers[k]]
        0 <= k < n.layers.len() ==> n.layers[k].0.input == net_width(n, k) && n.layers[k].1.input
            == net_width(n, k)
}

proof fn lemma_layers_transposed(n: Net<real>, rows: nat, top: Seq<real>, dx: Seq<real>, k: nat)
    requires
        is_chained(n),
        k <= n.layers.len(),
    ensures
        paired(net_push(n, rows, dx, k), net_pull(exact(), n, rows, top, k as int), rows, net_width(
            n,
            k as int,
        )) == paired(dx, net_pull(exact(), n, rows, top, 0), rows, n.input),
    decreases k,
{
    if k > 0 {
        let i = (k - 1) as nat;
        lemma_layers_transposed(n, rows, top, dx, i);
        let l = n.layers[i as int];
        let up = net_pull(exact(), n, rows, top, k as int);
        let before = net_push(n, rows, dx, i);
        lemma_layer_transposed(l, rows, up, before);
        lemma_paired_swapped(up, layer_push(l, rows, before), rows, l.0.hidden + l.1.hidden);
    }
}

/// Over real numbers the walk back through a network is the transpose of the walk
/// forward: however the features move, what the logits do, weighted by their gradients,
/// is what the features did, weighted by theirs.
pub proof fn lemma_network_transposed(
    n: Net<real>,
    rows: nat,
    dlogits: Seq<real>,
    dx: Seq<real>,
)
    requires
        is_chained(n),
    ensures
        paired(
            dlogits,
            head_push(n, rows, net_push(n, rows, dx, n.layers.len())),
            rows,
            n.classes,
        ) == paired(
            dx,
            net_pull(exact(), n, rows, head_pull(exact(), n, rows, dlogits), 0),
            rows,
            n.input,
        ),
{
    let dy = net_push(n, rows, dx, n.layers.len());
    let top = head_pull(exact(), n, rows, dlogits);
    lemma_head_transposed(n, rows, dlogits, dy);
    lemma_layers_transposed(n, rows, top, dx, n.layers.len());
}

/// Adding and multiplying in binary64.
pub open spec fn rounded() -> Ring<F64> {
    Ring {
        none: F64 { bits: 0 },
        unit: one(),
        either: |a: F64, b: F64| a.sum(b),
        both: |a: F64, b: F64| a.product(b),
    }
}

/// What a unit computed, in binary64.
pub open spec fn slopes_of(c: Cell) -> Slopes<F64> {
    let candidate = c.candidate.widened();
    let tanh = c.tanh_cell.widened();
    Slopes {
        input: c.input.widened(),
        input_rest: one().difference(c.input.widened()),
        forget: c.forget.widened(),
        forget_rest: one().difference(c.forget.widened()),
        candidate,
        candidate_rest: one().difference(candidate.product(candidate)),
        out: c.out.widened(),
        out_rest: one().difference(c.out.widened()),
        previous: c.previous_cell.widened(),
        tanh,
        tanh_rest: one().difference(tanh.product(tanh)),
        unclipped: c.unclipped,
    }
}

/// A direction and what its units computed, in binary64.
pub open spec fn direction_in(w: DirectionView, cells: Seq<Cell>) -> Dir<F64> {
    Dir {
        hidden: w.hidden as nat,
        input: w.input as nat,
        diagonal: w.diagonal,
        kernels: |i: int| w.input_kernels[i].widened(),
        recurrent: |i: int| w.recurrent_kernels[i].widened(),
        cells: |i: int| slopes_of(cells[i]),
    }
}

/// A network and what its units computed, in binary64.
pub open spec fn network_of(w: NetworkView, saved: Seq<(Seq<Cell>, Seq<Cell>)>) -> Net<F64> {
    Net {
        layers: Seq::new(
            w.layers.len(),
            |k: int|
                (
                    direction_in(w.layers[k].forward, saved[k].0),
                    direction_in(w.layers[k].backward, saved[k].1),
                ),
        ),
        head: |i: int| w.fc_weights[i].widened(),
        input: w.input_size as nat,
        classes: w.num_classes as nat,
    }
}

proof fn lemma_transposed(
    weights: Seq<F32>,
    cols: nat,
    up: Seq<F64>,
    c: int,
    f: spec_fn(int) -> F64,
    n: nat,
    base: F64,
)
    requires
        forall|r: int|
            0 <= r < n ==> #[trigger] f(r) == up[r].product(weights[r * cols + c].widened()),
    ensures
        transposed(weights, cols, up, c, n, base) == gathered(rounded(), f, n, base),
    decreases n,
{
    if n > 0 {
        lemma_transposed(weights, cols, up, c, f, (n - 1) as nat, base);
        assert(f(n - 1) == up[n - 1].product(weights[(n - 1) * cols + c].widened()));
    }
}

proof fn lemma_diagonal(
    kernels: Seq<F32>,
    hidden: nat,
    dg: Seq<F64>,
    j: int,
    f: spec_fn(int) -> F64,
    n: nat,
)
    requires
        forall|g: int|
            0 <= g < n ==> #[trigger] f(g) == dg[g * hidden + j].product(
                kernels[g * hidden + j].widened(),
            ),
    ensures
        diagonal_gradient(kernels, hidden, dg, j, n) == gathered(
            rounded(),
            f,
            n,
            F64 { bits: 0 },
        ),
    decreases n,
{
    if n > 0 {
        lemma_diagonal(kernels, hidden, dg, j, f, (n - 1) as nat);
        assert(f(n - 1) == dg[(n - 1) * hidden + j].product(
            kernels[(n - 1) * hidden + j].widened(),
        ));
    }
}

/// Whether what goes back is the same, unit by unit.
spec fn same_pull(a: Back, b: Pull<F64>) -> bool {
    a.dh == b.dh && a.dc == b.dc
}

proof fn lemma_gates_same(
    w: DirectionView,
    cells: Seq<Cell>,
    up: Seq<F64>,
    width: nat,
    offset: nat,
    a: Back,
    b: Pull<F64>,
    t: int,
)
    requires
        same_pull(a, b),
    ensures
        gates_gradient(w.hidden as nat, cells, up, width, offset, a, t) == gates_pull(
            rounded(),
            direction_in(w, cells),
            up,
            width,
            offset,
            b,
            t,
        ),
{
    let hidden = w.hidden as nat;
    let d = direction_in(w, cells);
    let left = gates_gradient(hidden, cells, up, width, offset, a, t);
    let right = gates_pull(rounded(), d, up, width, offset, b, t);
    assert forall|i: int| 0 <= i < left.len() implies #[trigger] left[i] == right[i] by {
        let (g, j) = (i / hidden as int, i % hidden as int);
        let c = cells[t * hidden + j];
        let dh = activation_gradient(up, width, offset, a, t, j);
        assert(dh == activation_pull(rounded(), up, width, offset, b, t, j));
        lemma_unit_same(c, dh, a.dc[j], g);
    }
    assert(left =~= right);
}

proof fn lemma_unit_same(c: Cell, dh: F64, dc: F64, gate: int)
    ensures
        cell_gradient(c, dh, dc) == cell_pull(rounded(), slopes_of(c), dh, dc),
        gate_gradient(c, dh, dc, gate) == gate_pull(rounded(), slopes_of(c), dh, dc, gate),
{
}

proof fn lemma_through_same(
    w: DirectionView,
    cells: Seq<Cell>,
    up: Seq<F64>,
    width: nat,
    offset: nat,
    a: Back,
    b: Pull<F64>,
    t: int,
)
    requires
        same_pull(a, b),
    ensures
        same_pull(
            back_through(w, cells, up, width, offset, a, t),
            pull_through(rounded(), direction_in(w, cells), up, width, offset, b, t),
        ),
{
    let q = rounded();
    let hidden = w.hidden as nat;
    let d = direction_in(w, cells);
    lemma_gates_same(w, cells, up, width, offset, a, b, t);
    let dg = gates_gradient(hidden, cells, up, width, offset, a, t);
    let left = back_through(w, cells, up, width, offset, a, t);
    let right = pull_through(q, d, up, width, offset, b, t);
    assert forall|j: int| 0 <= j < hidden implies #[trigger] left.dh[j] == right.dh[j] by {
        assert(left.dh[j] == recurrent_gradient(w, dg, j));
        if w.diagonal {
            lemma_diagonal(
                w.recurrent_kernels,
                hidden,
                dg,
                j,
                |g: int| q.times(dg[g * d.hidden + j], (d.recurrent)(g * d.hidden + j)),
                4,
            );
        } else {
            lemma_transposed(
                w.recurrent_kernels,
                hidden,
                dg,
                j,
                |r: int| q.times(dg[r], (d.recurrent)(r * d.hidden + j)),
                4 * hidden,
                F64 { bits: 0 },
            );
        }
    }
    assert forall|j: int| 0 <= j < hidden implies #[trigger] left.dc[j] == right.dc[j] by {
        let dh = activation_gradient(up, width, offset, a, t, j);
        assert(dh == activation_pull(q, up, width, offset, b, t, j));
        lemma_unit_same(cells[t * hidden + j], dh, a.dc[j], 0);
    }
    assert(left.dh =~= right.dh);
    assert(left.dc =~= right.dc);
}

proof fn lemma_after_same(
    w: DirectionView,
    cells: Seq<Cell>,
    rows: nat,
    reverse: bool,
    up: Seq<F64>,
    width: nat,
    offset: nat,
    steps: nat,
)
    ensures
        same_pull(
            back_after(w, cells, rows, reverse, up, width, offset, steps),
            pull_after(
                rounded(),
                direction_in(w, cells),
                rows,
                reverse,
                up,
                width,
                offset,
                steps,
            ),
        ),
    decreases steps,
{
    let a = back_after(w, cells, rows, reverse, up, width, offset, steps);
    let b = pull_after(
        rounded(),
        direction_in(w, cells),
        rows,
        reverse,
        up,
        width,
        offset,
        steps,
    );
    if steps == 0 {
        assert(a.dh =~= b.dh);
        assert(a.dc =~= b.dc);
    } else {
        let k = (steps - 1) as nat;
        lemma_after_same(w, cells, rows, reverse, up, width, offset, k);
        lemma_through_same(
            w,
            cells,
            up,
            width,
            offset,
            back_after(w, cells, rows, reverse, up, width, offset, k),
            pull_after(rounded(), direction_in(w, cells), rows, reverse, up, width, offset, k),
            time_of(rows, !reverse, steps - 1),
        );
    }
}

proof fn lemma_input_same(
    w: DirectionView,
    cells: Seq<Cell>,
    rows: nat,
    reverse: bool,
    up: Seq<F64>,
    width: nat,
    offset: nat,
    t: int,
    c: int,
    base: F64,
)
    ensures
        input_gradient(w, cells, rows, reverse, up, width, offset, t, c, base) == input_pull(
            rounded(),
            direction_in(w, cells),
            rows,
            reverse,
            up,
            width,
            offset,
            t,
            c,
            base,
        ),
{
    let q = rounded();
    let d = direction_in(w, cells);
    let steps = time_of(rows, !reverse, t) as nat;
    lemma_after_same(w, cells, rows, reverse, up, width, offset, steps);
    let a = back_after(w, cells, rows, reverse, up, width, offset, steps);
    let b = pull_after(q, d, rows, reverse, up, width, offset, steps);
    lemma_gates_same(w, cells, up, width, offset, a, b, t);
    let dg = gates_pull(q, d, up, width, offset, b, t);
    lemma_transposed(
        w.input_kernels,
        w.input as nat,
        dg,
        c,
        |r: int| q.times(dg[r], (d.kernels)(r * d.input + c)),
        4 * w.hidden as nat,
        base,
    );
}

proof fn lemma_layer_same(
    l: LayerView,
    saved: (Seq<Cell>, Seq<Cell>),
    rows: nat,
    up: Seq<F64>,
)
    ensures
        layer_gradient(l, saved, rows, up) == layer_pull(
            rounded(),
            (direction_in(l.forward, saved.0), direction_in(l.backward, saved.1)),
            rows,
            up,
        ),
{
    let q = rounded();
    let pair = (direction_in(l.forward, saved.0), direction_in(l.backward, saved.1));
    let left = layer_gradient(l, saved, rows, up);
    let right = layer_pull(q, pair, rows, up);
    let width = l.forward.hidden as nat + l.backward.hidden as nat;
    assert forall|i: int| 0 <= i < left.len() implies #[trigger] left[i] == right[i] by {
        let input = l.forward.input as nat;
        let (t, c) = (i / input as int, i % input as int);
        lemma_input_same(l.forward, saved.0, rows, false, up, width, 0, t, c, F64 { bits: 0 });
        let base = input_gradient(
            l.forward,
            saved.0,
            rows,
            false,
            up,
            width,
            0,
            t,
            c,
            F64 { bits: 0 },
        );
        lemma_input_same(
            l.backward,
            saved.1,
            rows,
            true,
            up,
            width,
            l.forward.hidden as nat,
            t,
            c,
            base,
        );
    }
    assert(left =~= right);
}

proof fn lemma_layers_same(
    w: NetworkView,
    saved: Seq<(Seq<Cell>, Seq<Cell>)>,
    rows: nat,
    top: Seq<F64>,
    k: int,
)
    requires
        0 <= k,
    ensures
        gradient_at(w, saved, rows, top, k) == net_pull(
            rounded(),
            network_of(w, saved),
            rows,
            top,
            k,
        ),
    decreases w.layers.len() - k,
{
    if k < w.layers.len() {
        lemma_layers_same(w, saved, rows, top, k + 1);
        lemma_layer_same(w.layers[k], saved[k], rows, gradient_at(w, saved, rows, top, k + 1));
    }
}

/// What the gradient of the features computes is this walk back, in binary64.
pub proof fn lemma_walk_back(
    w: NetworkView,
    saved: Seq<(Seq<Cell>, Seq<Cell>)>,
    rows: nat,
    dlogits: Seq<F64>,
)
    requires
        dlogits.len() == rows * w.num_classes,
    ensures
        gradient_at(w, saved, rows, head_gradient(w, rows, dlogits), 0) == net_pull(
            rounded(),
            network_of(w, saved),
            rows,
            head_pull(rounded(), network_of(w, saved), rows, dlogits),
            0,
        ),
{
    let q = rounded();
    let n = network_of(w, saved);
    let classes = w.num_classes as nat;
    let width = width_after(w, w.layers.len() as int);
    assert(width == net_width(n, n.layers.len() as int));
    let left = head_gradient(w, rows, dlogits);
    let right = head_pull(q, n, rows, dlogits);
    assert forall|i: int| 0 <= i < left.len() implies #[trigger] left[i] == right[i] by {
        let (t, c) = (i / width as int, i % width as int);
        lemma_place(rows, width, i);
        crate::mat::lemma_row_bounds(rows, classes, t);
        let row = dlogits.subrange(t * classes, (t + 1) * classes);
        let f = |r: int| q.times(dlogits[t * n.classes + r], (n.head)(r * width + c));
        assert forall|r: int| 0 <= r < classes implies #[trigger] f(r) == row[r].product(
            w.fc_weights[r * width + c].widened(),
        ) by {
            assert(row[r] == dlogits[t * classes + r]);
        }
        lemma_transposed(w.fc_weights, width, row, c, f, classes, F64 { bits: 0 });
    }
    assert(left =~= right);
    lemma_layers_same(w, saved, rows, left, 0);
}

proof fn lemma_place(rows: nat, cols: nat, i: int)
    requires
        0 <= i < rows * cols,
    ensures
        0 <= i / cols as int,
        i / (cols as int) < rows,
{
    assert(cols > 0) by (nonlinear_arith)
        requires
            0 <= i < rows * cols,
    ;
    assert(0 <= i / (cols as int) < rows) by (nonlinear_arith)
        requires
            0 <= i < rows * cols,
            cols > 0,
    ;
}

} // verus!
