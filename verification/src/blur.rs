//! Blur of a descent direction along strokes.
use vstd::prelude::*;

use crate::descent::{coordinate_total, coordinates_before, lemma_coordinates_grow};
use crate::float::{F32, F64};
use crate::ink::{strokes_view, Stroke, StrokeView};
use crate::logmath::{Functions, LogMath};
use crate::numerics::{GeoMath, Numerics};
use crate::preprocess::all_placed;

verus! {

/// Whether a width blurs: finite, and above zero.
pub open spec fn is_width(sigma: F64) -> bool {
    sigma.finite() && sigma.rank() > 0
}

/// The length of the way to each sample of a stroke.
pub open spec fn arc_to(m: GeoMath, s: StrokeView, i: int) -> F64
    decreases i,
{
    if i <= 0 {
        F64 { bits: 0 }
    } else {
        let dx = s.x[i].difference(s.x[i - 1]);
        let dy = s.y[i].difference(s.y[i - 1]);
        arc_to(m, s, i - 1).sum((m.root)(dx.product(dx).sum(dy.product(dy))))
    }
}

/// The weighted values of the first `n` places as seen from place `i`, and the weights,
/// both summed from the left; places far off count for nothing.
pub open spec fn weighted(
    m: LogMath,
    values: Seq<F64>,
    arc: Seq<F64>,
    sigma: F64,
    i: int,
    n: nat,
) -> (F64, F64)
    decreases n,
{
    if n == 0 {
        (F64 { bits: 0 }, F64 { bits: 0 })
    } else {
        let (total, weight) = weighted(m, values, arc, sigma, i, (n - 1) as nat);
        let cutoff = (F64 { bits: 0x4008_0000_0000_0000 }).product(sigma);
        let denominator = (F64 { bits: 0x4000_0000_0000_0000 }).product(sigma).product(sigma);
        let distance = arc[i].difference(arc[n - 1]);
        if cutoff.below(distance.unsigned()) {
            (total, weight)
        } else {
            let w = (m.exp)(distance.opposite().product(distance).quotient(denominator));
            (total.sum(w.product(values[n - 1])), weight.sum(w))
        }
    }
}

/// A value blurred along the way.
pub open spec fn blurred_at(
    m: LogMath,
    values: Seq<F64>,
    arc: Seq<F64>,
    sigma: F64,
    i: int,
) -> F64 {
    let (total, weight) = weighted(m, values, arc, sigma, i, values.len());
    if !weight.nan() && weight.rank() > 0 {
        total.quotient(weight)
    } else {
        values[i]
    }
}

/// Values blurred along the way, the kernel cut off and normalized at the ends.
pub open spec fn blurred(m: LogMath, values: Seq<F64>, arc: Seq<F64>, sigma: F64) -> Seq<F64> {
    if is_width(sigma) {
        Seq::new(values.len(), |i: int| blurred_at(m, values, arc, sigma, i))
    } else {
        values
    }
}

/// Gaussian blur of a scalar field along arc length, renormalized at the ends.
pub fn blur_scalars<E: Fn(F64) -> F64, L: Fn(F64) -> F64, S: Fn(F64) -> F64>(
    values: &Vec<F64>,
    arc: &Vec<F64>,
    sigma: F64,
    f: &Functions<E, L, S>,
) -> (r: Vec<F64>)
    requires
        f.wf(),
        values@.len() == arc@.len(),
    ensures
        r@ == blurred(f.math(), values@, arc@, sigma),
{
    let ghost m = f.math();
    let mut out: Vec<F64> = Vec::new();
    if !sigma.is_finite() || !sigma.is_positive() {
        return vstd::slice::slice_to_vec(values.as_slice());
    }
    let cutoff: F64 = (F64 { bits: 0x4008_0000_0000_0000 }).times(sigma);
    let denominator: F64 = (F64 { bits: 0x4000_0000_0000_0000 }).times(sigma).times(sigma);
    let n: usize = values.len();
    let mut i: usize = 0;
    while i < n
        invariant
            i <= n,
            n == values@.len(),
            n == arc@.len(),
            f.wf(),
            m == f.math(),
            cutoff == (F64 { bits: 0x4008_0000_0000_0000 }).product(sigma),
            denominator == (F64 { bits: 0x4000_0000_0000_0000 }).product(sigma).product(sigma),
            out@.len() == i,
            forall|k: int|
                0 <= k < i ==> #[trigger] out@[k] == blurred_at(m, values@, arc@, sigma, k),
        decreases n - i,
    {
        let mut total: F64 = F64 { bits: 0 };
        let mut weight: F64 = F64 { bits: 0 };
        let mut j: usize = 0;
        while j < n
            invariant
                j <= n,
                i < n,
                n == values@.len(),
                n == arc@.len(),
                f.wf(),
                m == f.math(),
                cutoff == (F64 { bits: 0x4008_0000_0000_0000 }).product(sigma),
                denominator == (F64 { bits: 0x4000_0000_0000_0000 }).product(sigma).product(sigma),
                (total, weight) == weighted(m, values@, arc@, sigma, i as int, j as nat),
            decreases n - j,
        {
            let distance: F64 = arc[i].minus(arc[j]);
            if !cutoff.less(distance.abs()) {
                let w: F64 = f.exp(distance.negated().times(distance).over(denominator));
                total = total.plus(w.times(values[j]));
                weight = weight.plus(w);
            }
            j += 1;
        }
        if weight.is_positive() {
            out.push(total.over(weight));
        } else {
            out.push(values[i]);
        }
        i += 1;
    }
    assert(out@ =~= blurred(m, values@, arc@, sigma));
    out
}

/// One axis of a stroke's part of a gradient.
pub open spec fn axis_of(gradient: Seq<F64>, base: int, n: nat, axis: int) -> Seq<F64> {
    Seq::new(n, |i: int| gradient[base + 2 * i + axis])
}

/// The way to all samples of a stroke.
pub open spec fn arcs_of(m: GeoMath, s: StrokeView) -> Seq<F64> {
    Seq::new(s.x.len(), |i: int| arc_to(m, s, i))
}

/// A gradient's entry, blurred along its stroke. Strokes of fewer than three samples
/// stay as they are.
pub open spec fn blurred_entry(
    g: GeoMath,
    m: LogMath,
    gradient: Seq<F64>,
    s: StrokeView,
    base: int,
    sigma: F64,
    q: int,
) -> F64 {
    if s.x.len() < 3 {
        gradient[base + q]
    } else {
        blurred(m, axis_of(gradient, base, s.x.len(), q % 2), arcs_of(g, s), sigma)[q / 2]
    }
}

/// The entries of the first `k` strokes, blurred.
pub open spec fn blurred_upto(
    g: GeoMath,
    m: LogMath,
    gradient: Seq<F64>,
    strokes: Seq<StrokeView>,
    sigma: F64,
    k: nat,
) -> Seq<F64>
    decreases k,
{
    if k == 0 {
        Seq::empty()
    } else {
        let s = strokes[k - 1];
        let base = coordinates_before(strokes, k - 1) as int;
        blurred_upto(g, m, gradient, strokes, sigma, (k - 1) as nat) + Seq::new(
            2 * s.x.len(),
            |q: int| blurred_entry(g, m, gradient, s, base, sigma, q),
        )
    }
}

/// A gradient blurred along each stroke on its own; unchanged where the width does not
/// blur.
pub open spec fn blurred_gradient(
    g: GeoMath,
    m: LogMath,
    gradient: Seq<F64>,
    strokes: Seq<StrokeView>,
    sigma: F64,
) -> Seq<F64> {
    if is_width(sigma) {
        blurred_upto(g, m, gradient, strokes, sigma, strokes.len())
    } else {
        gradient
    }
}

fn arcs<R: Fn(F64) -> F64, H: Fn(F32, F32) -> F32, A: Fn(F32, F32) -> F32>(
    s: &Stroke,
    num: &Numerics<R, H, A>,
) -> (r: Vec<F64>)
    requires
        num.wf(),
        s@.placed(),
    ensures
        r@ == arcs_of(num.math(), s@),
{
    let ghost m = num.math();
    let mut out: Vec<F64> = Vec::new();
    let mut i: usize = 0;
    while i < s.x.len()
        invariant
            i <= s.x@.len(),
            s@.placed(),
            num.wf(),
            m == num.math(),
            out@.len() == i,
            forall|k: int| 0 <= k < i ==> #[trigger] out@[k] == arc_to(m, s@, k),
        decreases s.x@.len() - i,
    {
        if i == 0 {
            out.push(F64 { bits: 0 });
        } else {
            let dx: F64 = s.x[i].minus(s.x[i - 1]);
            let dy: F64 = s.y[i].minus(s.y[i - 1]);
            let way: F64 = out[i - 1].plus(num.root(dx.times(dx).plus(dy.times(dy))));
            out.push(way);
        }
        i += 1;
    }
    assert(out@ =~= arcs_of(m, s@));
    out
}

fn take_axis(gradient: &Vec<F64>, base: usize, n: usize, axis: usize) -> (r: Vec<F64>)
    requires
        axis < 2,
        base + 2 * n <= gradient@.len(),
    ensures
        r@ == axis_of(gradient@, base as int, n as nat, axis as int),
{
    let total: usize = gradient.len();
    let mut out: Vec<F64> = Vec::new();
    let mut i: usize = 0;
    while i < n
        invariant
            i <= n,
            axis < 2,
            total == gradient@.len(),
            base + 2 * n <= total,
            out@.len() == i,
            forall|k: int| 0 <= k < i ==> #[trigger] out@[k] == gradient@[base + 2 * k + axis],
        decreases n - i,
    {
        out.push(gradient[base + 2 * i + axis]);
        i += 1;
    }
    assert(out@ =~= axis_of(gradient@, base as int, n as nat, axis as int));
    out
}

/// Blurs a descent direction along each stroke with a Gaussian of the given arc-length
/// width. Each stroke is blurred on its own: a pen lift is a real discontinuity.
pub fn blur_along_strokes<
    E: Fn(F64) -> F64,
    L: Fn(F64) -> F64,
    S: Fn(F64) -> F64,
    R: Fn(F64) -> F64,
    H: Fn(F32, F32) -> F32,
    A: Fn(F32, F32) -> F32,
>(
    gradient: Vec<F64>,
    strokes: &Vec<Stroke>,
    sigma: F64,
    f: &Functions<E, L, S>,
    num: &Numerics<R, H, A>,
) -> (r: Vec<F64>)
    requires
        f.wf(),
        num.wf(),
        all_placed(strokes_view(strokes@)),
        gradient@.len() == coordinate_total(strokes_view(strokes@)),
    ensures
        r@ == blurred_gradient(num.math(), f.math(), gradient@, strokes_view(strokes@), sigma),
        r@.len() == gradient@.len(),
{
    let ghost g = num.math();
    let ghost m = f.math();
    let ghost all = strokes_view(strokes@);
    if !sigma.is_finite() || !sigma.is_positive() {
        return gradient;
    }
    let total: usize = gradient.len();
    let mut out: Vec<F64> = Vec::new();
    let mut k: usize = 0;
    while k < strokes.len()
        invariant
            k <= strokes@.len(),
            f.wf(),
            num.wf(),
            g == num.math(),
            m == f.math(),
            all == strokes_view(strokes@),
            all_placed(all),
            total == gradient@.len(),
            total == coordinate_total(all),
            out@ == blurred_upto(g, m, gradient@, all, sigma, k as nat),
            out@.len() == coordinates_before(all, k as int),
        decreases strokes@.len() - k,
    {
        let s: &Stroke = &strokes[k];
        proof {
            assert(all[k as int] == s@);
            assert(all[k as int].placed());
            lemma_coordinates_grow(all, k + 1, all.len() as int);
        }
        let base: usize = out.len();
        let n: usize = s.x.len();
        let ghost before = out@;
        let ghost wanted = Seq::new(
            2 * n as nat,
            |q: int| blurred_entry(g, m, gradient@, s@, base as int, sigma, q),
        );
        if n < 3 {
            let mut q: usize = 0;
            while q < 2 * n
                invariant
                    q <= 2 * n,
                    n == s@.x.len(),
                    n < 3,
                    total == gradient@.len(),
                    base + 2 * n <= total,
                    out@.len() == base + q,
                    before.len() == base,
                    wanted == Seq::new(
                        2 * n as nat,
                        |q: int| blurred_entry(g, m, gradient@, s@, base as int, sigma, q),
                    ),
                    out@ =~= before + wanted.take(q as int),
                decreases 2 * n - q,
            {
                out.push(gradient[base + q]);
                q += 1;
            }
        } else {
            let arc: Vec<F64> = arcs(s, num);
            let xs: Vec<F64> = blur_scalars(&take_axis(&gradient, base, n, 0), &arc, sigma, f);
            let ys: Vec<F64> = blur_scalars(&take_axis(&gradient, base, n, 1), &arc, sigma, f);
            let mut i: usize = 0;
            while i < n
                invariant
                    i <= n,
                    n == s@.x.len(),
                    n >= 3,
                    base + 2 * n <= total,
                    total == gradient@.len(),
                    before.len() == base,
                    xs@.len() == n,
                    ys@.len() == n,
                    xs@ == blurred(
                        m,
                        axis_of(gradient@, base as int, n as nat, 0),
                        arcs_of(g, s@),
                        sigma,
                    ),
                    ys@ == blurred(
                        m,
                        axis_of(gradient@, base as int, n as nat, 1),
                        arcs_of(g, s@),
                        sigma,
                    ),
                    wanted == Seq::new(
                        2 * n as nat,
                        |q: int| blurred_entry(g, m, gradient@, s@, base as int, sigma, q),
                    ),
                    out@ =~= before + wanted.take(2 * i),
                decreases n - i,
            {
                out.push(xs[i]);
                out.push(ys[i]);
                proof {
                    assert(wanted[2 * i] == xs@[i as int]);
                    assert(wanted[2 * i + 1] == ys@[i as int]);
                    assert(wanted.take(2 * (i + 1)) =~= wanted.take(2 * i).push(
                        xs@[i as int],
                    ).push(ys@[i as int]));
                }
                i += 1;
            }
        }
        proof {
            assert(wanted.take(2 * n as int) =~= wanted);
            assert(out@ =~= before + wanted);
        }
        k += 1;
    }
    out
}

} // verus!
