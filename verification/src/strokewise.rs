//! What is done to an ink is done to every stroke: each sample of each stroke by the same
//! rule, and no stroke by another's samples.
use vstd::prelude::*;

use crate::blur::{blurred_entry, blurred_gradient, blurred_upto, is_width};
use crate::descent::{
    anchored, bend_at, coordinate_total, coordinates_before, inner_coordinates,
    noise_of, penalized, shaken, shaken_strokes, smoothed, stirred,
    Penalized, Penalty,
};
use crate::float::{F32, F64};
use crate::ink::StrokeView;
use crate::logmath::LogMath;
use crate::numerics::GeoMath;
use crate::optimize::Task;
use crate::preprocess::{
    all_x, all_y, first_nonempty, framed, lower_bound, size_normalized, time_normalized,
    upper_bound,
};

verus! {

proof fn lemma_blur_long(
    g: GeoMath,
    m: LogMath,
    gradient: Seq<F64>,
    strokes: Seq<StrokeView>,
    sigma: F64,
    k: nat,
)
    requires
        k <= strokes.len(),
    ensures
        blurred_upto(g, m, gradient, strokes, sigma, k).len() == coordinates_before(
            strokes,
            k as int,
        ),
    decreases k,
{
    if k > 0 {
        lemma_blur_long(g, m, gradient, strokes, sigma, (k - 1) as nat);
    }
}

proof fn lemma_blur_at(
    g: GeoMath,
    m: LogMath,
    gradient: Seq<F64>,
    strokes: Seq<StrokeView>,
    sigma: F64,
    n: nat,
    k: int,
    q: int,
)
    requires
        n <= strokes.len(),
        0 <= k < n,
        0 <= q < 2 * strokes[k].x.len(),
    ensures
        coordinates_before(strokes, k) + q < coordinates_before(strokes, n as int),
        blurred_upto(g, m, gradient, strokes, sigma, n)[coordinates_before(strokes, k) + q]
            == blurred_entry(
            g,
            m,
            gradient,
            strokes[k],
            coordinates_before(strokes, k) as int,
            sigma,
            q,
        ),
    decreases n,
{
    lemma_blur_long(g, m, gradient, strokes, sigma, (n - 1) as nat);
    if k < n - 1 {
        lemma_blur_at(g, m, gradient, strokes, sigma, (n - 1) as nat, k, q);
    }
}

/// The gradient of stroke `k`.
pub open spec fn part_of(gradient: Seq<F64>, strokes: Seq<StrokeView>, k: int) -> Seq<F64> {
    gradient.subrange(
        coordinates_before(strokes, k) as int,
        coordinates_before(strokes, k + 1) as int,
    )
}

/// A blur treats every stroke as if it were the only one: what it makes of a stroke's
/// gradient is what it makes of it in an ink of that stroke alone.
pub proof fn lemma_blur_is_strokewise(
    g: GeoMath,
    m: LogMath,
    gradient: Seq<F64>,
    strokes: Seq<StrokeView>,
    sigma: F64,
    k: int,
)
    requires
        gradient.len() == coordinate_total(strokes),
        0 <= k < strokes.len(),
    ensures
        blurred_gradient(g, m, gradient, strokes, sigma).len() == gradient.len(),
        part_of(blurred_gradient(g, m, gradient, strokes, sigma), strokes, k) == blurred_gradient(
            g,
            m,
            part_of(gradient, strokes, k),
            seq![strokes[k]],
            sigma,
        ),
{
    let own = part_of(gradient, strokes, k);
    let alone = seq![strokes[k]];
    let base = coordinates_before(strokes, k) as int;
    crate::descent::lemma_coordinates_grow(strokes, k + 1, strokes.len() as int);
    assert(coordinates_before(alone, 1) == coordinates_before(alone, 0) + 2 * alone[0].x.len());
    if is_width(sigma) {
        let all = blurred_gradient(g, m, gradient, strokes, sigma);
        let one = blurred_gradient(g, m, own, alone, sigma);
        lemma_blur_long(g, m, gradient, strokes, sigma, strokes.len());
        lemma_blur_long(g, m, own, alone, sigma, 1);
        assert forall|q: int| 0 <= q < 2 * strokes[k].x.len() implies all[base + q] == one[q] by {
            lemma_blur_at(g, m, gradient, strokes, sigma, strokes.len(), k, q);
            lemma_blur_at(g, m, own, alone, sigma, 1, 0, q);
            let s = strokes[k];
            let n = s.x.len();
            assert(crate::blur::axis_of(gradient, base, n, q % 2) =~= crate::blur::axis_of(
                own,
                0,
                n,
                q % 2,
            ));
        }
        assert(part_of(all, strokes, k) =~= one);
    }
}

/// Strokes of fewer than three samples keep their gradient, and so does every stroke
/// where the blur has no width.
pub proof fn lemma_blur_leaves_short(
    g: GeoMath,
    m: LogMath,
    gradient: Seq<F64>,
    strokes: Seq<StrokeView>,
    sigma: F64,
    k: int,
)
    requires
        gradient.len() == coordinate_total(strokes),
        0 <= k < strokes.len(),
        strokes[k].x.len() < 3 || !is_width(sigma),
    ensures
        part_of(blurred_gradient(g, m, gradient, strokes, sigma), strokes, k) == part_of(
            gradient,
            strokes,
            k,
        ),
{
    crate::descent::lemma_coordinates_grow(strokes, k + 1, strokes.len() as int);
    if is_width(sigma) {
        let all = blurred_gradient(g, m, gradient, strokes, sigma);
        let base = coordinates_before(strokes, k) as int;
        lemma_blur_long(g, m, gradient, strokes, sigma, strokes.len());
        let (x, y) = (part_of(all, strokes, k), part_of(gradient, strokes, k));
        assert forall|q: int| 0 <= q < 2 * strokes[k].x.len() implies x[q] == y[q] by {
            lemma_blur_at(g, m, gradient, strokes, sigma, strokes.len(), k, q);
            assert(x[q] == all[base + q] && y[q] == gradient[base + q]);
        }
        assert(x =~= y);
    }
}

proof fn lemma_stroke_slopes(
    task: Task,
    strokes: Seq<StrokeView>,
    seg: Seq<crate::curve::SegmentsView>,
    rows: nat,
    d: Seq<F64>,
    epsilon: F64,
    i: int,
    n: nat,
)
    requires
        task.stroke_slopes(strokes, seg, rows, d, epsilon, i, n) is Ok,
    ensures
        task.stroke_slopes(strokes, seg, rows, d, epsilon, i, n)->Ok_0.len() == n,
        forall|q: int|
            0 <= q < n ==> Ok::<F64, crate::error::ErrorView>(
                #[trigger] task.stroke_slopes(strokes, seg, rows, d, epsilon, i, n)->Ok_0[q],
            ) == task.slope(strokes, seg, rows, d, epsilon, i, q),
    decreases n,
{
    if n > 0 {
        lemma_stroke_slopes(task, strokes, seg, rows, d, epsilon, i, (n - 1) as nat);
    }
}

/// Every coordinate of every stroke has its own slope in a gradient, at its own place:
/// what the loss does when that coordinate alone is moved to both sides.
pub proof fn lemma_gradient_has_every_slope(
    task: Task,
    strokes: Seq<StrokeView>,
    seg: Seq<crate::curve::SegmentsView>,
    rows: nat,
    d: Seq<F64>,
    epsilon: F64,
    n: nat,
    k: int,
    q: int,
)
    requires
        n <= strokes.len(),
        task.slopes(strokes, seg, rows, d, epsilon, n) is Ok,
        0 <= k < n,
        0 <= q < 2 * strokes[k].x.len(),
    ensures
        task.slopes(strokes, seg, rows, d, epsilon, n)->Ok_0.len() == coordinates_before(
            strokes,
            n as int,
        ),
        coordinates_before(strokes, k) + q < coordinates_before(strokes, n as int),
        Ok::<F64, crate::error::ErrorView>(
            task.slopes(strokes, seg, rows, d, epsilon, n)->Ok_0[coordinates_before(strokes, k)
                + q],
        ) == task.slope(strokes, seg, rows, d, epsilon, k, q),
    decreases n,
{
    let before = (n - 1) as nat;
    lemma_stroke_slopes(
        task,
        strokes,
        seg,
        rows,
        d,
        epsilon,
        n - 1,
        2 * strokes[n - 1].x.len(),
    );
    lemma_slopes_long(task, strokes, seg, rows, d, epsilon, before);
    if k < n - 1 {
        lemma_gradient_has_every_slope(task, strokes, seg, rows, d, epsilon, before, k, q);
    } else {
        let g = task.stroke_slopes(
            strokes,
            seg,
            rows,
            d,
            epsilon,
            k,
            2 * strokes[k].x.len(),
        )->Ok_0;
        assert(Ok::<F64, crate::error::ErrorView>(g[q]) == task.slope(
            strokes,
            seg,
            rows,
            d,
            epsilon,
            k,
            q,
        ));
    }
}

proof fn lemma_slopes_long(
    task: Task,
    strokes: Seq<StrokeView>,
    seg: Seq<crate::curve::SegmentsView>,
    rows: nat,
    d: Seq<F64>,
    epsilon: F64,
    n: nat,
)
    requires
        n <= strokes.len(),
        task.slopes(strokes, seg, rows, d, epsilon, n) is Ok,
    ensures
        task.slopes(strokes, seg, rows, d, epsilon, n)->Ok_0.len() == coordinates_before(
            strokes,
            n as int,
        ),
    decreases n,
{
    if n > 0 {
        lemma_slopes_long(task, strokes, seg, rows, d, epsilon, (n - 1) as nat);
        lemma_stroke_slopes(
            task,
            strokes,
            seg,
            rows,
            d,
            epsilon,
            n - 1,
            2 * strokes[n - 1].x.len(),
        );
    }
}

/// The noise behind so many draws.
pub open spec fn stream(state: u64, draws: nat) -> u64
    decreases draws,
{
    if draws == 0 {
        state
    } else {
        stirred(stream(state, (draws - 1) as nat))
    }
}

proof fn lemma_stream_on(state: u64, a: nat, b: nat)
    ensures
        stream(stream(state, a), b) == stream(state, a + b),
    decreases b,
{
    if b > 0 {
        lemma_stream_on(state, a, (b - 1) as nat);
        assert((a + b - 1) as nat == a + (b - 1) as nat);
    }
}

proof fn lemma_shaken_each(v: Seq<F64>, state: u64, spread: F64, n: nat)
    ensures
        shaken(v, state, spread, n).0.len() == n,
        shaken(v, state, spread, n).1 == stream(state, n),
        forall|i: int|
            0 <= i < n ==> #[trigger] shaken(v, state, spread, n).0[i] == v[i].sum(
                noise_of(stream(state, (i + 1) as nat)).product(spread),
            ),
    decreases n,
{
    if n > 0 {
        lemma_shaken_each(v, state, spread, (n - 1) as nat);
        assert(stream(state, n) == stirred(stream(state, (n - 1) as nat)));
    }
}

/// How much noise the first `k` strokes take.
pub open spec fn drawn(strokes: Seq<StrokeView>, k: int) -> nat
    decreases k,
{
    if k <= 0 {
        0
    } else {
        drawn(strokes, k - 1) + strokes[k - 1].x.len() + strokes[k - 1].y.len()
    }
}

proof fn lemma_shaken_upto(strokes: Seq<StrokeView>, state: u64, spread: F64, n: nat)
    requires
        n <= strokes.len(),
    ensures
        shaken_strokes(strokes, state, spread, n).0.len() == n,
        shaken_strokes(strokes, state, spread, n).1 == stream(state, drawn(strokes, n as int)),
    decreases n,
{
    if n > 0 {
        let before = (n - 1) as nat;
        lemma_shaken_upto(strokes, state, spread, before);
        let s = shaken_strokes(strokes, state, spread, before).1;
        let stroke = strokes[n - 1];
        lemma_shaken_each(stroke.x, s, spread, stroke.x.len());
        let t = stream(s, stroke.x.len());
        lemma_shaken_each(stroke.y, t, spread, stroke.y.len());
        lemma_stream_on(state, drawn(strokes, before as int), stroke.x.len());
        lemma_stream_on(
            state,
            drawn(strokes, before as int) + stroke.x.len(),
            stroke.y.len(),
        );
    }
}

/// Shaking moves every coordinate of every stroke by a draw of its own, times the spread;
/// no draw is used twice. Times and pens stay.
pub proof fn lemma_shaken_everywhere(
    strokes: Seq<StrokeView>,
    state: u64,
    spread: F64,
    n: nat,
    k: int,
)
    requires
        n <= strokes.len(),
        0 <= k < n,
    ensures
        ({
            let now = shaken_strokes(strokes, state, spread, n).0[k];
            let was = strokes[k];
            let first = drawn(strokes, k);
            &&& now.t == was.t
            &&& now.pen_up == was.pen_up
            &&& now.x.len() == was.x.len()
            &&& now.y.len() == was.y.len()
            &&& forall|i: int|
                0 <= i < was.x.len() ==> #[trigger] now.x[i] == was.x[i].sum(
                    noise_of(stream(state, (first + i + 1) as nat)).product(spread),
                )
            &&& forall|i: int|
                0 <= i < was.y.len() ==> #[trigger] now.y[i] == was.y[i].sum(
                    noise_of(stream(state, (first + was.x.len() + i + 1) as nat)).product(spread),
                )
        }),
    decreases n,
{
    let before = (n - 1) as nat;
    lemma_shaken_upto(strokes, state, spread, before);
    if k < n - 1 {
        lemma_shaken_everywhere(strokes, state, spread, before, k);
    } else {
        let s = shaken_strokes(strokes, state, spread, before).1;
        let was = strokes[k];
        let first = drawn(strokes, k);
        lemma_shaken_each(was.x, s, spread, was.x.len());
        let t = stream(s, was.x.len());
        lemma_shaken_each(was.y, t, spread, was.y.len());
        lemma_stream_on(state, first, was.x.len());
        let now = shaken_strokes(strokes, state, spread, n).0[k];
        assert forall|i: int| 0 <= i < was.x.len() implies #[trigger] now.x[i] == was.x[i].sum(
            noise_of(stream(state, (first + i + 1) as nat)).product(spread),
        ) by {
            lemma_stream_on(state, first, (i + 1) as nat);
            assert(now.x[i] == shaken(was.x, s, spread, was.x.len()).0[i]);
        }
        assert forall|i: int| 0 <= i < was.y.len() implies #[trigger] now.y[i] == was.y[i].sum(
            noise_of(stream(state, (first + was.x.len() + i + 1) as nat)).product(spread),
        ) by {
            lemma_stream_on(state, first + was.x.len(), (i + 1) as nat);
            assert(now.y[i] == shaken(was.y, t, spread, was.y.len()).0[i]);
        }
    }
}

/// How far a coordinate has moved from its source.
pub open spec fn strayed(s: StrokeView, source: StrokeView, point: int, axis: int) -> F64 {
    if axis == 0 {
        s.x[point].difference(source.x[point])
    } else {
        s.y[point].difference(source.y[point])
    }
}

/// The second difference of a row of numbers: the neighbours less twice the middle.
pub open spec fn second_difference(v: Seq<F64>, point: int) -> F64 {
    v[point - 1].difference((F64 { bits: 0x4000_0000_0000_0000 }).product(v[point])).sum(
        v[point + 1],
    )
}

/// What bend has been added at an inner sample.
pub open spec fn bent(s: StrokeView, source: StrokeView, point: int, axis: int) -> F64 {
    if axis == 0 {
        second_difference(s.x, point).difference(second_difference(source.x, point))
    } else {
        second_difference(s.y, point).difference(second_difference(source.y, point))
    }
}

proof fn lemma_anchored_each(
    p: Penalty,
    s: Penalized,
    base: int,
    stroke: StrokeView,
    source: StrokeView,
    q: nat,
)
    requires
        0 <= base,
        base + q <= s.gradient.len(),
    ensures
        ({
            let out = anchored(p, s, base, stroke, source, q);
            &&& out.gradient.len() == s.gradient.len()
            &&& forall|i: int|
                0 <= i < s.gradient.len() ==> #[trigger] out.gradient[i] == (if base <= i < base
                    + q {
                    s.gradient[i].sum(
                        p.anchor.product(strayed(stroke, source, (i - base) / 2, (i - base) % 2)),
                    )
                } else {
                    s.gradient[i]
                })
        }),
    decreases q,
{
    if q > 0 {
        lemma_anchored_each(p, s, base, stroke, source, (q - 1) as nat);
    }
}

/// What bending adds to the gradient at coordinate `j` of a stroke, from the first `q`
/// inner coordinates: from the sample before, from its own and from the one behind.
pub open spec fn bend_added(
    p: Penalty,
    g: F64,
    stroke: StrokeView,
    source: StrokeView,
    j: int,
    q: int,
) -> F64 {
    let (point, axis) = (j / 2, j % 2);
    let one = if 0 <= j - 4 < q {
        g.sum(p.smoothness.product(bent(stroke, source, point - 1, axis)))
    } else {
        g
    };
    let two = if 0 <= j - 2 < q {
        one.difference(
            (F64 { bits: 0x4000_0000_0000_0000 }).product(
                p.smoothness.product(bent(stroke, source, point, axis)),
            ),
        )
    } else {
        one
    };
    if 0 <= j < q {
        two.sum(p.smoothness.product(bent(stroke, source, point + 1, axis)))
    } else {
        two
    }
}

proof fn lemma_smoothed_each(
    p: Penalty,
    s: Penalized,
    base: int,
    stroke: StrokeView,
    source: StrokeView,
    q: nat,
)
    requires
        0 <= base,
        q > 0 ==> base + q + 4 <= s.gradient.len(),
    ensures
        ({
            let out = smoothed(p, s, base, stroke, source, q);
            &&& out.gradient.len() == s.gradient.len()
            &&& forall|i: int|
                0 <= i < s.gradient.len() ==> #[trigger] out.gradient[i] == (if base <= i {
                    bend_added(p, s.gradient[i], stroke, source, i - base, q as int)
                } else {
                    s.gradient[i]
                })
        }),
    decreases q,
{
    if q > 0 {
        let m = (q - 1) as nat;
        lemma_smoothed_each(p, s, base, stroke, source, m);
        let before = smoothed(p, s, base, stroke, source, m);
        let out = smoothed(p, s, base, stroke, source, q);
        let point = (q - 1) as int / 2 + 1;
        let axis = (q - 1) as int % 2;
        let added = bend_at(stroke, point, axis).difference(bend_at(source, point, axis));
        assert(added == bent(stroke, source, point, axis));
        let at = base + (q - 1);
        assert forall|i: int| 0 <= i < s.gradient.len() implies #[trigger] out.gradient[i] == (
        if base <= i {
            bend_added(p, s.gradient[i], stroke, source, i - base, q as int)
        } else {
            s.gradient[i]
        }) by {
            assert(before.gradient[i] == (if base <= i {
                bend_added(p, s.gradient[i], stroke, source, i - base, m as int)
            } else {
                s.gradient[i]
            }));
            if i == at + 4 {
                assert((i - base) / 2 - 1 == point && (i - base) % 2 == axis);
            } else if i == at + 2 {
                assert((i - base) / 2 == point && (i - base) % 2 == axis);
            } else if i == at {
                assert((i - base) / 2 + 1 == point && (i - base) % 2 == axis);
            }
        }
    }
}

/// The gradient that keeping in shape gives a coordinate of a stroke: what it had, the
/// anchor's pull by how far it has strayed, and the bends that it takes part in.
pub open spec fn held_back(
    p: Penalty,
    g: F64,
    stroke: StrokeView,
    source: StrokeView,
    j: int,
) -> F64 {
    bend_added(
        p,
        g.sum(p.anchor.product(strayed(stroke, source, j / 2, j % 2))),
        stroke,
        source,
        j,
        inner_coordinates(stroke) as int,
    )
}

/// Keeping in shape reaches every coordinate of every stroke: each of the first `n`
/// strokes by its own source, and those behind not yet.
pub proof fn lemma_held_back_everywhere(
    p: Penalty,
    gradient: Seq<F64>,
    current: Seq<StrokeView>,
    original: Seq<StrokeView>,
    n: nat,
)
    requires
        n <= current.len(),
        gradient.len() == coordinate_total(current),
    ensures
        ({
            let out = penalized(p, gradient, current, original, n).gradient;
            &&& out.len() == gradient.len()
            &&& forall|k: int, j: int|
                0 <= k < current.len() && 0 <= j < 2 * current[k].x.len() ==> #[trigger] out[
                coordinates_before(current, k) + j] == (if k < n {
                    held_back(
                        p,
                        gradient[coordinates_before(current, k) + j],
                        current[k],
                        original[k],
                        j,
                    )
                } else {
                    gradient[coordinates_before(current, k) + j]
                })
        }),
    decreases n,
{
    if n > 0 {
        let m = (n - 1) as nat;
        lemma_held_back_everywhere(p, gradient, current, original, m);
        let before = penalized(p, gradient, current, original, m);
        let base = coordinates_before(current, n - 1) as int;
        let (stroke, source) = (current[n - 1], original[n - 1]);
        crate::descent::lemma_coordinates_grow(current, n as int, current.len() as int);
        assert(coordinates_before(current, n as int) == base + 2 * stroke.x.len());
        let mid = anchored(p, before, base, stroke, source, 2 * stroke.x.len());
        let inner = inner_coordinates(stroke);
        lemma_anchored_each(p, before, base, stroke, source, 2 * stroke.x.len());
        lemma_smoothed_each(p, mid, base, stroke, source, inner);
        let out = penalized(p, gradient, current, original, n).gradient;
        assert forall|k: int, j: int|
            0 <= k < current.len() && 0 <= j < 2 * current[k].x.len() implies #[trigger] out[
        coordinates_before(current, k) + j] == (if k < n {
            held_back(
                p,
                gradient[coordinates_before(current, k) + j],
                current[k],
                original[k],
                j,
            )
        } else {
            gradient[coordinates_before(current, k) + j]
        }) by {
            let i = coordinates_before(current, k) + j;
            crate::descent::lemma_coordinates_grow(current, k + 1, current.len() as int);
            assert(coordinates_before(current, k + 1) == coordinates_before(current, k) + 2
                * current[k].x.len());
            assert(before.gradient[i] == before.gradient[coordinates_before(current, k) + j]);
            if k < n - 1 {
                crate::descent::lemma_coordinates_grow(current, k + 1, n - 1);
            } else if k > n - 1 {
                crate::descent::lemma_coordinates_grow(current, n as int, k);
                assert(bend_added(p, mid.gradient[i], stroke, source, i - base, inner as int)
                    == mid.gradient[i]);
            }
        }
    }
}

/// Whether an ink is another with one map for all places across and one for all places
/// up, which have one size: a shift of their own, and the same division.
pub open spec fn placed_by(
    now: Seq<StrokeView>,
    was: Seq<StrokeView>,
    x0: F32,
    y0: F32,
    size: F32,
) -> bool {
    &&& now.len() == was.len()
    &&& forall|k: int|
        0 <= k < was.len() ==> {
            &&& (#[trigger] now[k]).x.len() == was[k].x.len()
            &&& now[k].y.len() == was[k].y.len()
            &&& now[k].t == was[k].t
            &&& now[k].pen_up == was[k].pen_up
            &&& forall|i: int|
                0 <= i < was[k].x.len() ==> #[trigger] now[k].x[i]
                    == was[k].x[i].narrowed().difference(x0).quotient(size).widened()
            &&& forall|i: int|
                0 <= i < was[k].y.len() ==> #[trigger] now[k].y[i]
                    == was[k].y[i].narrowed().difference(y0).quotient(size).widened()
        }
}

/// Normalizing sizes keeps an ink's shape: it maps every sample of every stroke by one
/// shift and one scale, the same scale across and up.
pub proof fn lemma_one_scale(strokes: Seq<StrokeView>, margin: F32, first_point_origin: bool)
    ensures
        first_nonempty(strokes, 0) is None ==> size_normalized(
            strokes,
            margin,
            first_point_origin,
        ) == strokes,
        first_nonempty(strokes, 0) is Some ==> exists|x0: F32, y0: F32, size: F32| #[trigger]
            placed_by(
                size_normalized(strokes, margin, first_point_origin),
                strokes,
                x0,
                y0,
                size,
            ),
{
    if let Some(first) = first_nonempty(strokes, 0) {
        let f = crate::preprocess::frame_of(
            all_x(strokes, strokes.len() as int),
            all_y(strokes, strokes.len() as int),
            strokes[first].x[0],
            margin,
            first_point_origin,
        );
        let now = size_normalized(strokes, margin, first_point_origin);
        assert forall|k: int| 0 <= k < strokes.len() implies {
            &&& (#[trigger] now[k]).x.len() == strokes[k].x.len()
            &&& now[k].y.len() == strokes[k].y.len()
            &&& now[k].t == strokes[k].t
            &&& now[k].pen_up == strokes[k].pen_up
            &&& forall|i: int|
                0 <= i < strokes[k].x.len() ==> #[trigger] now[k].x[i]
                    == strokes[k].x[i].narrowed().difference(f.x0).quotient(
                    f.denominator,
                ).widened()
            &&& forall|i: int|
                0 <= i < strokes[k].y.len() ==> #[trigger] now[k].y[i]
                    == strokes[k].y[i].narrowed().difference(f.y0).quotient(
                    f.denominator,
                ).widened()
        } by {
            assert forall|i: int| 0 <= i < strokes[k].x.len() implies #[trigger] now[k].x[i]
                == framed(strokes[k].x[i], f.x0, f.denominator) by {}
            assert forall|i: int| 0 <= i < strokes[k].y.len() implies #[trigger] now[k].y[i]
                == framed(strokes[k].y[i], f.y0, f.denominator) by {}
        }
        assert(placed_by(now, strokes, f.x0, f.y0, f.denominator));
    }
}

/// Normalizing times takes the first stroke's first time from every time of every stroke,
/// and touches nothing else.
pub proof fn lemma_one_clock(strokes: Seq<StrokeView>, k: int)
    requires
        strokes.len() > 0,
        strokes[0].t.len() > 0,
        0 <= k < strokes.len(),
    ensures
        ({
            let now = time_normalized(strokes);
            &&& now.len() == strokes.len()
            &&& now[k].x == strokes[k].x
            &&& now[k].y == strokes[k].y
            &&& now[k].pen_up == strokes[k].pen_up
            &&& now[k].t.len() == strokes[k].t.len()
            &&& forall|i: int|
                0 <= i < strokes[k].t.len() ==> #[trigger] now[k].t[i]
                    == strokes[k].t[i].narrowed().difference(strokes[0].t[0].narrowed()).widened()
        }),
{
}

/// Made-up times go on from stroke to stroke: a sample's time counts all samples before
/// it, those of the strokes before included.
pub proof fn lemma_times_go_on(strokes: Seq<StrokeView>, interval: F32, force: bool, k: int)
    requires
        crate::preprocess::needs_times(strokes, force),
        0 <= k < strokes.len(),
    ensures
        ({
            let now = crate::preprocess::time_filled(strokes, interval, force);
            let start = F32::of_int(crate::preprocess::samples(strokes, k) as int);
            let step = F32::of_int(crate::preprocess::samples(strokes, k) as int + 1).difference(
                start,
            );
            &&& now.len() == strokes.len()
            &&& now[k].x == strokes[k].x
            &&& now[k].y == strokes[k].y
            &&& now[k].pen_up == strokes[k].pen_up
            &&& now[k].t.len() == strokes[k].x.len()
            &&& forall|i: int|
                0 <= i < strokes[k].x.len() ==> #[trigger] now[k].t[i] == start.sum(
                    F32::of_int(i).product(step),
                ).product(interval).widened()
        }),
{
}

proof fn lemma_bounds_of(v: Seq<F64>)
    requires
        v.len() > 0,
        forall|i: int| 0 <= i < v.len() ==> !(#[trigger] v[i]).narrowed().nan(),
    ensures
        !lower_bound(v).nan(),
        !upper_bound(v).nan(),
        forall|i: int|
            0 <= i < v.len() ==> lower_bound(v).rank() <= (#[trigger] v[i]).narrowed().rank()
                <= upper_bound(v).rank(),
        exists|i: int| 0 <= i < v.len() && (#[trigger] v[i]).narrowed() == lower_bound(v),
        exists|i: int| 0 <= i < v.len() && (#[trigger] v[i]).narrowed() == upper_bound(v),
    decreases v.len(),
{
    let rest = v.drop_last();
    let last = v[v.len() - 1].narrowed();
    assert(!last.nan());
    if rest.len() > 0 {
        assert forall|i: int| 0 <= i < rest.len() implies !(#[trigger] rest[i]).narrowed().nan() by {
            assert(rest[i] == v[i]);
        }
        lemma_bounds_of(rest);
        assert forall|i: int| 0 <= i < v.len() implies lower_bound(v).rank() <= (
        #[trigger] v[i]).narrowed().rank() <= upper_bound(v).rank() by {
            if i < rest.len() {
                assert(rest[i] == v[i]);
            }
        }
        let a = choose|i: int|
            0 <= i < rest.len() && (#[trigger] rest[i]).narrowed() == lower_bound(rest);
        let b = choose|i: int|
            0 <= i < rest.len() && (#[trigger] rest[i]).narrowed() == upper_bound(rest);
        assert(rest[a] == v[a] && rest[b] == v[b]);
        assert(v[a].narrowed() == lower_bound(v) || v[v.len() - 1].narrowed() == lower_bound(v));
        assert(v[b].narrowed() == upper_bound(v) || v[v.len() - 1].narrowed() == upper_bound(v));
    } else {
        assert(rest =~= Seq::empty());
        let top = F32 { bits: crate::float::TOP32 };
        let bottom = F32 { bits: 0xff80_0000 };
        assert(lower_bound(rest) == top && upper_bound(rest) == bottom);
        assert(!top.nan() && top.rank() == crate::float::TOP32);
        assert(!bottom.nan() && bottom.rank() == -crate::float::TOP32);
        assert(!top.below(last) && !last.below(bottom));
        assert(v[0].narrowed() == last);
        assert(lower_bound(v) == last);
        assert(upper_bound(v) == last);
    }
}

proof fn lemma_all_x_holds(strokes: Seq<StrokeView>, n: int, k: int, i: int)
    requires
        0 <= k < n <= strokes.len(),
        0 <= i < strokes[k].x.len(),
    ensures
        all_x(strokes, n).contains(strokes[k].x[i]),
    decreases n,
{
    let before = all_x(strokes, n - 1);
    let all = all_x(strokes, n);
    if k < n - 1 {
        lemma_all_x_holds(strokes, n - 1, k, i);
        let j = choose|j: int| 0 <= j < before.len() && before[j] == strokes[k].x[i];
        assert(all[j] == strokes[k].x[i]);
    } else {
        assert(all[before.len() + i] == strokes[k].x[i]);
    }
}

proof fn lemma_all_y_holds(strokes: Seq<StrokeView>, n: int, k: int, i: int)
    requires
        0 <= k < n <= strokes.len(),
        strokes[k].placed(),
        0 <= i < strokes[k].y.len(),
    ensures
        all_y(strokes, n).contains(strokes[k].y[i]),
    decreases n,
{
    let before = all_y(strokes, n - 1);
    let all = all_y(strokes, n);
    if k < n - 1 {
        lemma_all_y_holds(strokes, n - 1, k, i);
        let j = choose|j: int| 0 <= j < before.len() && before[j] == strokes[k].y[i];
        assert(all[j] == strokes[k].y[i]);
    } else {
        assert(all[before.len() + i] == strokes[k].y[i]);
    }
}

/// The frame of an ink is that of all its strokes: no sample of any stroke lies outside
/// the bounds across and up, as far as all of them are numbers.
pub proof fn lemma_bounds_hold_all(strokes: Seq<StrokeView>, k: int, i: int)
    requires
        0 <= k < strokes.len(),
        strokes[k].placed(),
        0 <= i < strokes[k].x.len(),
        forall|j: int|
            0 <= j < all_x(strokes, strokes.len() as int).len() ==> !(#[trigger] all_x(
                strokes,
                strokes.len() as int,
            )[j]).narrowed().nan(),
        forall|j: int|
            0 <= j < all_y(strokes, strokes.len() as int).len() ==> !(#[trigger] all_y(
                strokes,
                strokes.len() as int,
            )[j]).narrowed().nan(),
    ensures
        ({
            let x = all_x(strokes, strokes.len() as int);
            let y = all_y(strokes, strokes.len() as int);
            &&& lower_bound(x).rank() <= strokes[k].x[i].narrowed().rank() <= upper_bound(x).rank()
            &&& lower_bound(y).rank() <= strokes[k].y[i].narrowed().rank() <= upper_bound(y).rank()
            &&& exists|j: int| 0 <= j < x.len() && (#[trigger] x[j]).narrowed() == lower_bound(x)
            &&& exists|j: int| 0 <= j < x.len() && (#[trigger] x[j]).narrowed() == upper_bound(x)
            &&& exists|j: int| 0 <= j < y.len() && (#[trigger] y[j]).narrowed() == lower_bound(y)
            &&& exists|j: int| 0 <= j < y.len() && (#[trigger] y[j]).narrowed() == upper_bound(y)
        }),
{
    let n = strokes.len() as int;
    let x = all_x(strokes, n);
    let y = all_y(strokes, n);
    lemma_all_x_holds(strokes, n, k, i);
    lemma_all_y_holds(strokes, n, k, i);
    let a = choose|j: int| 0 <= j < x.len() && x[j] == strokes[k].x[i];
    let b = choose|j: int| 0 <= j < y.len() && y[j] == strokes[k].y[i];
    lemma_bounds_of(x);
    lemma_bounds_of(y);
    assert(lower_bound(x).rank() <= x[a].narrowed().rank());
    assert(lower_bound(y).rank() <= y[b].narrowed().rank());
}

} // verus!
