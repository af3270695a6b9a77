//! The parts of gradient descent on ink: coordinates, what keeps ink in shape, noise,
//! momentum and blur.
use vstd::prelude::*;

use crate::float::{F32, F64};
use crate::ink::{bbox_diagonal, copy_numbers, diagonal, strokes_view, Point, Stroke, StrokeView};
use crate::numerics::{GeoMath, Numerics};
use crate::preprocess::all_placed;

verus! {

/// How many coordinates the first `k` strokes have.
pub open spec fn coordinates_before(strokes: Seq<StrokeView>, k: int) -> nat
    decreases k,
{
    if k <= 0 {
        0
    } else {
        coordinates_before(strokes, k - 1) + 2 * strokes[k - 1].x.len()
    }
}

/// How many coordinates strokes have.
pub open spec fn coordinate_total(strokes: Seq<StrokeView>) -> nat {
    coordinates_before(strokes, strokes.len() as int)
}

pub proof fn lemma_coordinates_grow(strokes: Seq<StrokeView>, i: int, k: int)
    requires
        0 <= i <= k <= strokes.len(),
    ensures
        coordinates_before(strokes, i) <= coordinates_before(strokes, k),
    decreases k - i,
{
    if i < k {
        lemma_coordinates_grow(strokes, i, k - 1);
    }
}

/// Strokes with the same numbers of samples have the same numbers of coordinates.
pub proof fn lemma_coordinates_same(a: Seq<StrokeView>, b: Seq<StrokeView>, k: int)
    requires
        a.len() == b.len(),
        0 <= k <= a.len(),
        forall|i: int| 0 <= i < a.len() ==> (#[trigger] a[i]).x.len() == b[i].x.len(),
    ensures
        coordinates_before(a, k) == coordinates_before(b, k),
    decreases k,
{
    if k > 0 {
        lemma_coordinates_same(a, b, k - 1);
        assert(a[k - 1].x.len() == b[k - 1].x.len());
    }
}

/// How many coordinates strokes have, where a machine number holds them.
pub fn coordinate_count(strokes: &[Stroke]) -> (r: Option<usize>)
    ensures
        match r {
            Some(n) => n == coordinate_total(strokes_view(strokes@)),
            None => coordinate_total(strokes_view(strokes@)) > usize::MAX,
        },
{
    let ghost all = strokes_view(strokes@);
    let mut total: usize = 0;
    let mut i: usize = 0;
    while i < strokes.len()
        invariant
            i <= strokes@.len(),
            all == strokes_view(strokes@),
            total == coordinates_before(all, i as int),
        decreases strokes@.len() - i,
    {
        proof {
            lemma_coordinates_grow(all, i + 1, strokes@.len() as int);
            assert(all[i as int] == strokes@[i as int]@);
        }
        let n: usize = strokes[i].x.len();
        if n > (usize::MAX - total) / 2 {
            return None;
        }
        total = total + 2 * n;
        i += 1;
    }
    Some(total)
}

/// A coordinate of a stroke: x or y.
pub open spec fn coordinate_of(s: StrokeView, point: int, axis: int) -> F64 {
    if axis == 0 {
        s.x[point]
    } else {
        s.y[point]
    }
}

/// A stroke with one coordinate changed.
pub open spec fn with_coordinate(s: StrokeView, point: int, axis: int, value: F64) -> StrokeView {
    if axis == 0 {
        StrokeView { x: s.x.update(point, value), ..s }
    } else {
        StrokeView { y: s.y.update(point, value), ..s }
    }
}

pub fn coordinate(stroke: &Stroke, point: usize, axis: usize) -> (r: F64)
    requires
        point < stroke@.x.len(),
        point < stroke@.y.len(),
    ensures
        r == coordinate_of(stroke@, point as int, axis as int),
{
    if axis == 0 {
        stroke.x[point]
    } else {
        stroke.y[point]
    }
}

pub fn set_coordinate(stroke: &mut Stroke, point: usize, axis: usize, value: F64)
    requires
        point < old(stroke)@.x.len(),
        point < old(stroke)@.y.len(),
    ensures
        final(stroke)@ == with_coordinate(old(stroke)@, point as int, axis as int, value),
{
    let ghost before = stroke@;
    if axis == 0 {
        stroke.x.set(point, value);
    } else {
        stroke.y.set(point, value);
    }
    assert(stroke@ =~= with_coordinate(before, point as int, axis as int, value));
}

/// The samples of an ink as points without times, as far as they have both
/// coordinates.
pub open spec fn plane_points(strokes: Seq<StrokeView>, k: int) -> Seq<Point>
    decreases k,
{
    if k <= 0 {
        Seq::empty()
    } else {
        let s = strokes[k - 1];
        let n = if s.x.len() < s.y.len() {
            s.x.len()
        } else {
            s.y.len()
        };
        plane_points(strokes, k - 1) + Seq::new(
            n,
            |i: int| Point { x: s.x[i].narrowed(), y: s.y[i].narrowed(), t: F32 { bits: 0 } },
        )
    }
}

/// The diagonal of the whole ink, or one where that is no positive number: the scale
/// of step sizes and penalties.
pub open spec fn scale_of(m: GeoMath, strokes: Seq<StrokeView>) -> F64 {
    let d = diagonal(m, plane_points(strokes, strokes.len() as int)).widened();
    if d.finite() && d.rank() > 0 {
        d
    } else {
        F64 { bits: 0x3ff0_0000_0000_0000 }
    }
}

pub fn ink_scale<R: Fn(F64) -> F64, H: Fn(F32, F32) -> F32, A: Fn(F32, F32) -> F32>(
    strokes: &[Stroke],
    num: &Numerics<R, H, A>,
) -> (r: F64)
    requires
        num.wf(),
    ensures
        r == scale_of(num.math(), strokes_view(strokes@)),
{
    let ghost all = strokes_view(strokes@);
    let mut points: Vec<Point> = Vec::new();
    let mut i: usize = 0;
    while i < strokes.len()
        invariant
            i <= strokes@.len(),
            all == strokes_view(strokes@),
            points@ == plane_points(all, i as int),
        decreases strokes@.len() - i,
    {
        let s: &Stroke = &strokes[i];
        assert(s@ == all[i as int]);
        let n: usize = if s.x.len() < s.y.len() {
            s.x.len()
        } else {
            s.y.len()
        };
        let ghost before = points@;
        let mut k: usize = 0;
        while k < n
            invariant
                k <= n,
                n <= s.x@.len(),
                n <= s.y@.len(),
                points@.len() == before.len() + k,
                forall|j: int| 0 <= j < before.len() ==> points@[j] == before[j],
                forall|j: int|
                    0 <= j < k ==> #[trigger] points@[before.len() + j] == (Point {
                        x: s.x@[j].narrowed(),
                        y: s.y@[j].narrowed(),
                        t: F32 { bits: 0 },
                    }),
            decreases n - k,
        {
            points.push(Point::new(s.x[k].narrow(), s.y[k].narrow(), F32 { bits: 0 }));
            k += 1;
        }
        proof {
            let added = Seq::new(
                n as nat,
                |i: int|
                    Point {
                        x: s@.x[i].narrowed(),
                        y: s@.y[i].narrowed(),
                        t: F32 { bits: 0 },
                    },
            );
            assert forall|j: int| 0 <= j < points@.len() implies points@[j] == (before
                + added)[j] by {
                if j >= before.len() {
                    assert(points@[before.len() + (j - before.len())] == added[j - before.len()]);
                }
            }
            assert(points@ =~= before + added);
        }
        i += 1;
    }
    let d: F64 = bbox_diagonal(points.as_slice(), num).widen();
    if d.is_finite() && d.is_positive() {
        d
    } else {
        F64 { bits: 0x3ff0_0000_0000_0000 }
    }
}

/// The sum and the number of the steps between neighbouring samples of the first `k`
/// strokes.
pub open spec fn steps_before(m: GeoMath, strokes: Seq<StrokeView>, k: int) -> (F64, nat)
    decreases k,
{
    if k <= 0 {
        (F64 { bits: 0 }, 0)
    } else {
        stroke_steps(m, strokes[k - 1], steps_before(m, strokes, k - 1), steps_in(strokes[k - 1]))
    }
}

/// How many steps a stroke has.
pub open spec fn steps_in(s: StrokeView) -> nat {
    let n = if s.x.len() < s.y.len() {
        s.x.len()
    } else {
        s.y.len()
    };
    if n == 0 {
        0
    } else {
        (n - 1) as nat
    }
}

/// The first `n` steps of a stroke, on top of a sum and a number.
pub open spec fn stroke_steps(m: GeoMath, s: StrokeView, base: (F64, nat), n: nat) -> (F64, nat)
    decreases n,
{
    if n == 0 {
        base
    } else {
        let (total, count) = stroke_steps(m, s, base, (n - 1) as nat);
        let dx = s.x[n as int].difference(s.x[n - 1]);
        let dy = s.y[n as int].difference(s.y[n - 1]);
        (total.sum((m.root)(dx.product(dx).sum(dy.product(dy)))), count + 1)
    }
}

/// The mean distance between adjacent samples, or the scale where there is none.
pub open spec fn spacing_of(m: GeoMath, strokes: Seq<StrokeView>, scale: F64) -> F64 {
    let (total, count) = steps_before(m, strokes, strokes.len() as int);
    if count == 0 || (!total.nan() && total.rank() <= 0) {
        scale
    } else {
        total.quotient(F64::of_int(count as int))
    }
}

proof fn lemma_step_count(m: GeoMath, s: StrokeView, base: (F64, nat), n: nat)
    ensures
        stroke_steps(m, s, base, n).1 == base.1 + n,
    decreases n,
{
    if n > 0 {
        lemma_step_count(m, s, base, (n - 1) as nat);
    }
}

proof fn lemma_steps_bounded(m: GeoMath, strokes: Seq<StrokeView>, k: int)
    requires
        0 <= k <= strokes.len(),
    ensures
        2 * steps_before(m, strokes, k).1 <= coordinates_before(strokes, k),
    decreases k,
{
    if k > 0 {
        lemma_steps_bounded(m, strokes, k - 1);
        lemma_step_count(
            m,
            strokes[k - 1],
            steps_before(m, strokes, k - 1),
            steps_in(strokes[k - 1]),
        );
    }
}

pub fn mean_spacing<R: Fn(F64) -> F64, H: Fn(F32, F32) -> F32, A: Fn(F32, F32) -> F32>(
    strokes: &[Stroke],
    scale: F64,
    num: &Numerics<R, H, A>,
) -> (r: F64)
    requires
        num.wf(),
        coordinate_total(strokes_view(strokes@)) <= usize::MAX,
    ensures
        r == spacing_of(num.math(), strokes_view(strokes@), scale),
{
    let ghost m = num.math();
    let ghost all = strokes_view(strokes@);
    let mut total: F64 = F64 { bits: 0 };
    let mut count: u64 = 0;
    let mut i: usize = 0;
    while i < strokes.len()
        invariant
            i <= strokes@.len(),
            num.wf(),
            m == num.math(),
            all == strokes_view(strokes@),
            coordinate_total(all) <= usize::MAX,
            (total, count as nat) == steps_before(m, all, i as int),
        decreases strokes@.len() - i,
    {
        let s: &Stroke = &strokes[i];
        assert(s@ == all[i as int]);
        let n: usize = if s.x.len() < s.y.len() {
            s.x.len()
        } else {
            s.y.len()
        };
        let ghost base = (total, count as nat);
        proof {
            lemma_steps_bounded(m, all, i + 1);
            lemma_coordinates_grow(all, i + 1, all.len() as int);
            lemma_step_count(m, s@, base, steps_in(s@));
        }
        let mut k: usize = 1;
        while k < n
            invariant
                1 <= k,
                k <= n || k == 1,
                n <= s.x@.len(),
                n <= s.y@.len(),
                num.wf(),
                m == num.math(),
                n > 0 ==> base.1 + n - 1 <= u64::MAX,
                (total, count as nat) == stroke_steps(m, s@, base, (k - 1) as nat),
                count == base.1 + k - 1,
            decreases n - k,
        {
            let dx: F64 = s.x[k].minus(s.x[k - 1]);
            let dy: F64 = s.y[k].minus(s.y[k - 1]);
            total = total.plus(num.root(dx.times(dx).plus(dy.times(dy))));
            count = count + 1;
            k += 1;
        }
        i += 1;
    }
    if count == 0 || (!total.is_nan() && !total.is_positive()) {
        scale
    } else {
        total.over(F64::from_nat(count))
    }
}

/// A tiny deterministic noise source.
///
/// Deterministic on purpose: a fit that cannot be reproduced cannot be debugged, and
/// the point of the jitter is to sample a neighbourhood, not to be unpredictable.
#[derive(Debug, Clone, Copy, PartialEq, Eq, Structural)]
pub struct Noise(pub u64);

/// The state that a seed gives: never zero.
pub open spec fn seeded(seed: u64) -> u64 {
    ((seed * 0x9e37_79b9_7f4a_7c15) % 0x1_0000_0000_0000_0000) as u64 | 1
}

/// The next state.
pub open spec fn stirred(state: u64) -> u64 {
    let a = state ^ (state >> 12);
    let b = a ^ (a << 25);
    b ^ (b >> 27)
}

/// The number of a state, from minus one to one.
pub open spec fn noise_of(state: u64) -> F64 {
    let bits = ((state * 0x2545_f491_4f6c_dd1d) % 0x1_0000_0000_0000_0000) as u64;
    F64::of_int((bits >> 11) as int).quotient(F64 { bits: 0x4340_0000_0000_0000 }).product(
        F64 { bits: 0x4000_0000_0000_0000 },
    ).difference(F64 { bits: 0x3ff0_0000_0000_0000 })
}

/// A noise source is never stuck at zero.
pub proof fn lemma_noise_alive(state: u64)
    requires
        state != 0,
    ensures
        stirred(state) != 0,
{
    assert(state ^ (state >> 12) != 0) by (bit_vector)
        requires
            state != 0,
    ;
    let a = state ^ (state >> 12);
    assert(a ^ (a << 25) != 0) by (bit_vector)
        requires
            a != 0,
    ;
    let b = a ^ (a << 25);
    assert(b ^ (b >> 27) != 0) by (bit_vector)
        requires
            b != 0,
    ;
}

/// The first `n` numbers with noise added, and the state behind them.
pub open spec fn shaken(v: Seq<F64>, state: u64, spread: F64, n: nat) -> (Seq<F64>, u64)
    decreases n,
{
    if n == 0 {
        (Seq::empty(), state)
    } else {
        let (before, s) = shaken(v, state, spread, (n - 1) as nat);
        let next = stirred(s);
        (before.push(v[n - 1].sum(noise_of(next).product(spread))), next)
    }
}

/// The first `k` strokes with noise added, x before y, and the state behind them.
pub open spec fn shaken_strokes(
    strokes: Seq<StrokeView>,
    state: u64,
    spread: F64,
    k: nat,
) -> (Seq<StrokeView>, u64)
    decreases k,
{
    if k == 0 {
        (Seq::empty(), state)
    } else {
        let (before, s) = shaken_strokes(strokes, state, spread, (k - 1) as nat);
        let stroke = strokes[k - 1];
        let (x, t) = shaken(stroke.x, s, spread, stroke.x.len());
        let (y, u) = shaken(stroke.y, t, spread, stroke.y.len());
        (before.push(StrokeView { x, y, ..stroke }), u)
    }
}

impl Noise {
    pub fn new(seed: u64) -> (r: Self)
        ensures
            r.0 == seeded(seed),
            r.0 != 0,
    {
        let x: u64 = seed.wrapping_mul(0x9e37_79b9_7f4a_7c15);
        assert(x | 1 != 0) by (bit_vector);
        Noise(x | 1)
    }

    /// Plenty for jittering a few hundred points.
    pub fn next(&mut self) -> (r: F64)
        ensures
            final(self).0 == stirred(old(self).0),
            r == noise_of(final(self).0),
    {
        let a: u64 = self.0 ^ (self.0 >> 12);
        let b: u64 = a ^ (a << 25);
        let c: u64 = b ^ (b >> 27);
        self.0 = c;
        let bits: u64 = c.wrapping_mul(0x2545_f491_4f6c_dd1d);
        F64::from_nat(bits >> 11).over(F64 { bits: 0x4340_0000_0000_0000 }).times(
            F64 { bits: 0x4000_0000_0000_0000 },
        ).minus(F64 { bits: 0x3ff0_0000_0000_0000 })
    }

    fn shake_all(&mut self, v: &Vec<F64>, spread: F64) -> (r: Vec<F64>)
        ensures
            (r@, final(self).0) == shaken(v@, old(self).0, spread, v@.len()),
    {
        let ghost state = self.0;
        let mut out: Vec<F64> = Vec::new();
        let mut i: usize = 0;
        assert(out@ =~= Seq::empty());
        while i < v.len()
            invariant
                i <= v@.len(),
                (out@, self.0) == shaken(v@, state, spread, i as nat),
            decreases v@.len() - i,
        {
            let n: F64 = self.next();
            out.push(v[i].plus(n.times(spread)));
            i += 1;
        }
        out
    }

    /// An ink with noise on all its coordinates.
    pub fn shake(&mut self, strokes: &[Stroke], spread: F64) -> (r: Vec<Stroke>)
        ensures
            (strokes_view(r@), final(self).0) == shaken_strokes(
                strokes_view(strokes@),
                old(self).0,
                spread,
                strokes@.len(),
            ),
    {
        let ghost all = strokes_view(strokes@);
        let ghost state = self.0;
        let mut out: Vec<Stroke> = Vec::new();
        let mut i: usize = 0;
        assert(strokes_view(out@) =~= Seq::empty());
        while i < strokes.len()
            invariant
                i <= strokes@.len(),
                all == strokes_view(strokes@),
                (strokes_view(out@), self.0) == shaken_strokes(all, state, spread, i as nat),
            decreases strokes@.len() - i,
        {
            let s: &Stroke = &strokes[i];
            assert(s@ == all[i as int]);
            let ghost before = strokes_view(out@);
            let x: Vec<F64> = self.shake_all(&s.x, spread);
            let y: Vec<F64> = self.shake_all(&s.y, spread);
            let moved: Stroke = Stroke { x, y, t: copy_numbers(&s.t), pen_up: s.pen_up };
            let ghost view = moved@;
            out.push(moved);
            assert(strokes_view(out@) =~= before.push(view));
            i += 1;
        }
        out
    }
}

/// What keeps the result recognizable as the ink it started from: how much each
/// sample's move counts, and each new kink.
///
/// Both terms are means, measured against a stated deformation, so that a weight
/// means the same whatever the number of samples and the units.
#[derive(Debug, Clone, Copy, PartialEq)]
pub struct Penalty {
    pub anchor: F64,
    pub smoothness: F64,
}

/// Anchor reference deformation, 0.1 of the ink's diagonal, as bits of binary64.
pub const ANCHOR_REFERENCE: u64 = 0x3fb9_9999_9999_999a;

/// Smoothness reference kink, 0.2 of the mean sample spacing, as bits of binary64.
pub const SMOOTHNESS_REFERENCE: u64 = 0x3fc9_9999_9999_999a;

/// The penalty of weights for an ink.
pub open spec fn penalty_of(
    m: GeoMath,
    original: Seq<StrokeView>,
    scale: F64,
    anchor_weight: F64,
    smoothness_weight: F64,
) -> Penalty {
    let points = coordinate_total(original) / 2;
    let count = F64::of_int(
        if points < 1 {
            1
        } else {
            points as int
        },
    );
    let reference = (F64 { bits: ANCHOR_REFERENCE }).product(scale);
    let kink = (F64 { bits: SMOOTHNESS_REFERENCE }).product(spacing_of(m, original, scale));
    Penalty {
        anchor: anchor_weight.quotient(count.product(reference).product(reference)),
        smoothness: smoothness_weight.quotient(count.product(kink).product(kink)),
    }
}

impl Penalty {
    pub fn new<R: Fn(F64) -> F64, H: Fn(F32, F32) -> F32, A: Fn(F32, F32) -> F32>(
        original: &[Stroke],
        total: usize,
        scale: F64,
        anchor_weight: F64,
        smoothness_weight: F64,
        num: &Numerics<R, H, A>,
    ) -> (r: Self)
        requires
            num.wf(),
            total == coordinate_total(strokes_view(original@)),
        ensures
            r == penalty_of(
                num.math(),
                strokes_view(original@),
                scale,
                anchor_weight,
                smoothness_weight,
            ),
    {
        let points: usize = total / 2;
        let count: F64 = F64::from_nat(
            if points < 1 {
                1
            } else {
                points as u64
            },
        );
        let reference: F64 = (F64 { bits: ANCHOR_REFERENCE }).times(scale);
        let kink: F64 = (F64 { bits: SMOOTHNESS_REFERENCE }).times(
            mean_spacing(original, scale, num),
        );
        Penalty {
            anchor: anchor_weight.over(count.times(reference).times(reference)),
            smoothness: smoothness_weight.over(count.times(kink).times(kink)),
        }
    }
}

/// A gradient on its way, and the loss of the penalty so far.
pub struct Penalized {
    pub gradient: Seq<F64>,
    pub loss: F64,
}

/// The anchor terms of the first `q` coordinates of a stroke.
pub open spec fn anchored(
    p: Penalty,
    s: Penalized,
    base: int,
    stroke: StrokeView,
    source: StrokeView,
    q: nat,
) -> Penalized
    decreases q,
{
    if q == 0 {
        s
    } else {
        let before = anchored(p, s, base, stroke, source, (q - 1) as nat);
        let point = (q - 1) as int / 2;
        let axis = (q - 1) as int % 2;
        let delta = coordinate_of(stroke, point, axis).difference(
            coordinate_of(source, point, axis),
        );
        let i = base + (q - 1);
        Penalized {
            gradient: before.gradient.update(
                i,
                before.gradient[i].sum(p.anchor.product(delta)),
            ),
            loss: before.loss.sum(
                (F64 { bits: 0x3fe0_0000_0000_0000 }).product(p.anchor).product(delta).product(
                    delta,
                ),
            ),
        }
    }
}

/// How a coordinate bends between its neighbours.
pub open spec fn bend_at(s: StrokeView, point: int, axis: int) -> F64 {
    coordinate_of(s, point - 1, axis).difference(
        (F64 { bits: 0x4000_0000_0000_0000 }).product(coordinate_of(s, point, axis)),
    ).sum(coordinate_of(s, point + 1, axis))
}

/// The smoothness terms of the first `q` inner coordinates of a stroke: the change of
/// the bend, not the bend itself.
pub open spec fn smoothed(
    p: Penalty,
    s: Penalized,
    base: int,
    stroke: StrokeView,
    source: StrokeView,
    q: nat,
) -> Penalized
    decreases q,
{
    if q == 0 {
        s
    } else {
        let before = smoothed(p, s, base, stroke, source, (q - 1) as nat);
        let point = (q - 1) as int / 2 + 1;
        let axis = (q - 1) as int % 2;
        let added = bend_at(stroke, point, axis).difference(bend_at(source, point, axis));
        let scaled = p.smoothness.product(added);
        let i = base + (q - 1);
        let g = before.gradient;
        let g1 = g.update(i, g[i].sum(scaled));
        let g2 = g1.update(
            i + 2,
            g1[i + 2].difference((F64 { bits: 0x4000_0000_0000_0000 }).product(scaled)),
        );
        Penalized {
            gradient: g2.update(i + 4, g2[i + 4].sum(scaled)),
            loss: before.loss.sum(
                (F64 { bits: 0x3fe0_0000_0000_0000 }).product(p.smoothness).product(
                    added,
                ).product(added),
            ),
        }
    }
}

/// How many inner coordinates a stroke has.
pub open spec fn inner_coordinates(s: StrokeView) -> nat {
    if s.x.len() <= 2 {
        0
    } else {
        (2 * (s.x.len() - 2)) as nat
    }
}

/// The terms of the first `k` strokes.
pub open spec fn penalized(
    p: Penalty,
    gradient: Seq<F64>,
    current: Seq<StrokeView>,
    original: Seq<StrokeView>,
    k: nat,
) -> Penalized
    decreases k,
{
    if k == 0 {
        Penalized { gradient, loss: F64 { bits: 0 } }
    } else {
        let before = penalized(p, gradient, current, original, (k - 1) as nat);
        let base = coordinates_before(current, k - 1) as int;
        let (stroke, source) = (current[k - 1], original[k - 1]);
        smoothed(
            p,
            anchored(p, before, base, stroke, source, 2 * stroke.x.len()),
            base,
            stroke,
            source,
            inner_coordinates(stroke),
        )
    }
}

/// Whether two inks have the same numbers of samples, each with its place.
pub open spec fn alike(a: Seq<StrokeView>, b: Seq<StrokeView>) -> bool {
    &&& a.len() == b.len()
    &&& forall|i: int|
        0 <= i < a.len() ==> (#[trigger] a[i]).placed() && b[i].placed() && a[i].x.len()
            == b[i].x.len()
}

impl Penalty {
    fn add_anchor(
        &self,
        gradient: &mut Vec<F64>,
        loss: F64,
        base: usize,
        stroke: &Stroke,
        source: &Stroke,
        n: usize,
    ) -> (r: F64)
        requires
            n == 2 * stroke@.x.len(),
            stroke@.placed(),
            source@.placed(),
            stroke@.x.len() == source@.x.len(),
            base + n <= old(gradient)@.len(),
        ensures
            ({
                let s = anchored(
                    *self,
                    Penalized { gradient: old(gradient)@, loss },
                    base as int,
                    stroke@,
                    source@,
                    n as nat,
                );
                final(gradient)@ == s.gradient && r == s.loss
            }),
            final(gradient)@.len() == old(gradient)@.len(),
    {
        let ghost start = Penalized { gradient: gradient@, loss };
        let size: usize = gradient.len();
        let mut total: F64 = loss;
        let mut q: usize = 0;
        while q < n
            invariant
                q <= n,
                n == 2 * stroke@.x.len(),
                stroke@.placed(),
                source@.placed(),
                stroke@.x.len() == source@.x.len(),
                base + n <= size,
                size == gradient@.len(),
                ({
                    let s = anchored(*self, start, base as int, stroke@, source@, q as nat);
                    gradient@ == s.gradient && total == s.loss
                }),
            decreases n - q,
        {
            let point: usize = q / 2;
            let axis: usize = q % 2;
            let delta: F64 = coordinate(stroke, point, axis).minus(coordinate(source, point, axis));
            total = total.plus(
                (F64 { bits: 0x3fe0_0000_0000_0000 }).times(self.anchor).times(delta).times(delta),
            );
            let sum: F64 = gradient[base + q].plus(self.anchor.times(delta));
            gradient.set(base + q, sum);
            q += 1;
        }
        total
    }

    fn add_smoothness(
        &self,
        gradient: &mut Vec<F64>,
        loss: F64,
        base: usize,
        stroke: &Stroke,
        source: &Stroke,
        n: usize,
    ) -> (r: F64)
        requires
            n == 2 * stroke@.x.len(),
            stroke@.placed(),
            source@.placed(),
            stroke@.x.len() == source@.x.len(),
            base + n <= old(gradient)@.len(),
        ensures
            ({
                let s = smoothed(
                    *self,
                    Penalized { gradient: old(gradient)@, loss },
                    base as int,
                    stroke@,
                    source@,
                    inner_coordinates(stroke@),
                );
                final(gradient)@ == s.gradient && r == s.loss
            }),
            final(gradient)@.len() == old(gradient)@.len(),
    {
        let ghost start = Penalized { gradient: gradient@, loss };
        let size: usize = gradient.len();
        let mut total: F64 = loss;
        let inner: usize = if n <= 4 {
            0
        } else {
            n - 4
        };
        let mut q: usize = 0;
        while q < inner
            invariant
                q <= inner,
                inner == inner_coordinates(stroke@),
                inner > 0 ==> inner + 4 == n,
                n == 2 * stroke@.x.len(),
                stroke@.placed(),
                source@.placed(),
                stroke@.x.len() == source@.x.len(),
                base + n <= size,
                size == gradient@.len(),
                ({
                    let s = smoothed(*self, start, base as int, stroke@, source@, q as nat);
                    gradient@ == s.gradient && total == s.loss
                }),
            decreases inner - q,
        {
            let point: usize = q / 2 + 1;
            let axis: usize = q % 2;
            let two: F64 = F64 { bits: 0x4000_0000_0000_0000 };
            let bend: F64 = coordinate(stroke, point - 1, axis).minus(
                two.times(coordinate(stroke, point, axis)),
            ).plus(coordinate(stroke, point + 1, axis));
            let before: F64 = coordinate(source, point - 1, axis).minus(
                two.times(coordinate(source, point, axis)),
            ).plus(coordinate(source, point + 1, axis));
            let added: F64 = bend.minus(before);
            total = total.plus(
                (F64 { bits: 0x3fe0_0000_0000_0000 }).times(self.smoothness).times(added).times(
                    added,
                ),
            );
            let scaled: F64 = self.smoothness.times(added);
            let i: usize = base + q;
            let a: F64 = gradient[i].plus(scaled);
            gradient.set(i, a);
            let b: F64 = gradient[i + 2].minus(two.times(scaled));
            gradient.set(i + 2, b);
            let c: F64 = gradient[i + 4].plus(scaled);
            gradient.set(i + 4, c);
            q += 1;
        }
        total
    }

    /// Adds the gradient of the penalty, and gives its loss.
    pub fn add(&self, gradient: &mut Vec<F64>, current: &[Stroke], original: &[Stroke]) -> (r: F64)
        requires
            alike(strokes_view(current@), strokes_view(original@)),
            old(gradient)@.len() == coordinate_total(strokes_view(current@)),
        ensures
            ({
                let s = penalized(
                    *self,
                    old(gradient)@,
                    strokes_view(current@),
                    strokes_view(original@),
                    current@.len(),
                );
                final(gradient)@ == s.gradient && r == s.loss
            }),
            final(gradient)@.len() == old(gradient)@.len(),
    {
        let ghost all = strokes_view(current@);
        let ghost first = strokes_view(original@);
        let ghost start = gradient@;
        let size: usize = gradient.len();
        let mut loss: F64 = F64 { bits: 0 };
        let mut base: usize = 0;
        let mut k: usize = 0;
        while k < current.len()
            invariant
                k <= current@.len(),
                all == strokes_view(current@),
                first == strokes_view(original@),
                alike(all, first),
                size == coordinate_total(all),
                gradient@.len() == size,
                base == coordinates_before(all, k as int),
                ({
                    let s = penalized(*self, start, all, first, k as nat);
                    gradient@ == s.gradient && loss == s.loss
                }),
            decreases current@.len() - k,
        {
            proof {
                assert(all[k as int].placed());
                assert(all[k as int] == current@[k as int]@);
                assert(first[k as int] == original@[k as int]@);
                lemma_coordinates_grow(all, k + 1, all.len() as int);
            }
            let n: usize = 2 * current[k].x.len();
            loss = self.add_anchor(gradient, loss, base, &current[k], &original[k], n);
            loss = self.add_smoothness(gradient, loss, base, &current[k], &original[k], n);
            base = base + n;
            k += 1;
        }
        loss
    }
}

/// Momentum, with a single global normalization of the step length: one scale for
/// the whole ink keeps the direction's shape along the stroke.
#[derive(Debug)]
pub struct Momentum {
    pub velocity: Vec<F64>,
    /// The decay to the power of the steps taken, for the bias correction.
    pub decay: F64,
}

/// [`Momentum`] by its contents.
pub struct MomentumView {
    pub velocity: Seq<F64>,
    pub decay: F64,
}

impl View for Momentum {
    type V = MomentumView;

    open spec fn view(&self) -> MomentumView {
        MomentumView { velocity: self.velocity@, decay: self.decay }
    }
}

/// Momentum at rest.
pub open spec fn at_rest(size: nat) -> MomentumView {
    MomentumView {
        velocity: Seq::new(size, |i: int| F64 { bits: 0 }),
        decay: F64 { bits: 0x3ff0_0000_0000_0000 },
    }
}

/// The velocity behind a gradient.
pub open spec fn pushed(m: MomentumView, gradient: Seq<F64>) -> MomentumView {
    let one = F64 { bits: 0x3ff0_0000_0000_0000 };
    let beta = F64 { bits: 0x3fec_cccc_cccc_cccd };
    MomentumView {
        velocity: Seq::new(
            m.velocity.len(),
            |i: int|
                beta.product(m.velocity[i]).sum(one.difference(beta).product(gradient[i])),
        ),
        decay: m.decay.product(beta),
    }
}

/// The squares of the first `n` corrected velocities, summed from the left.
pub open spec fn square_sum(velocity: Seq<F64>, bias: F64, n: nat) -> F64
    decreases n,
{
    if n == 0 {
        F64 { bits: 0 }
    } else {
        let corrected = velocity[n - 1].quotient(bias);
        square_sum(velocity, bias, (n - 1) as nat).sum(corrected.product(corrected))
    }
}

/// What a step multiplies every velocity by: the step size over their root mean
/// square.
pub open spec fn step_scale(m: GeoMath, velocity: Seq<F64>, bias: F64, step_size: F64) -> F64 {
    let count = if velocity.len() < 1 {
        1
    } else {
        velocity.len() as int
    };
    let rms = (m.root)(
        square_sum(velocity, bias, velocity.len()).quotient(F64::of_int(count)),
    );
    step_size.quotient(rms.sum(F64 { bits: 0x3d71_9799_812d_ea11 }))
}

/// A stroke moved against a velocity.
pub open spec fn moved_stroke(
    s: StrokeView,
    velocity: Seq<F64>,
    base: int,
    scale: F64,
    bias: F64,
) -> StrokeView {
    StrokeView {
        x: Seq::new(
            s.x.len(),
            |i: int|
                s.x[i].difference(scale.product(velocity[base + 2 * i]).quotient(bias)),
        ),
        y: Seq::new(
            s.y.len(),
            |i: int|
                s.y[i].difference(scale.product(velocity[base + 2 * i + 1]).quotient(bias)),
        ),
        ..s
    }
}

/// An ink moved against a velocity.
pub open spec fn moved_ink(
    strokes: Seq<StrokeView>,
    velocity: Seq<F64>,
    scale: F64,
    bias: F64,
) -> Seq<StrokeView> {
    Seq::new(
        strokes.len(),
        |k: int|
            moved_stroke(
                strokes[k],
                velocity,
                coordinates_before(strokes, k) as int,
                scale,
                bias,
            ),
    )
}

/// An ink one step on.
pub open spec fn stepped_ink(
    m: GeoMath,
    after: MomentumView,
    strokes: Seq<StrokeView>,
    step_size: F64,
) -> Seq<StrokeView> {
    let bias = (F64 { bits: 0x3ff0_0000_0000_0000 }).difference(after.decay);
    moved_ink(strokes, after.velocity, step_scale(m, after.velocity, bias, step_size), bias)
}

fn move_stroke(s: &Stroke, velocity: &Vec<F64>, base: usize, scale: F64, bias: F64) -> (r: Stroke)
    requires
        s@.placed(),
        base + 2 * s@.x.len() <= velocity@.len(),
    ensures
        r@ == moved_stroke(s@, velocity@, base as int, scale, bias),
{
    let total: usize = velocity.len();
    let mut x: Vec<F64> = Vec::new();
    let mut y: Vec<F64> = Vec::new();
    let mut i: usize = 0;
    let ghost wanted = moved_stroke(s@, velocity@, base as int, scale, bias);
    while i < s.x.len()
        invariant
            i <= s.x@.len(),
            s@.placed(),
            total == velocity@.len(),
            base + 2 * s@.x.len() <= total,
            wanted == moved_stroke(s@, velocity@, base as int, scale, bias),
            x@.len() == i,
            y@.len() == i,
            forall|k: int| 0 <= k < i ==> #[trigger] x@[k] == wanted.x[k],
            forall|k: int| 0 <= k < i ==> #[trigger] y@[k] == wanted.y[k],
        decreases s.x@.len() - i,
    {
        x.push(s.x[i].minus(scale.times(velocity[base + 2 * i]).over(bias)));
        y.push(s.y[i].minus(scale.times(velocity[base + 2 * i + 1]).over(bias)));
        i += 1;
    }
    let r: Stroke = Stroke { x, y, t: copy_numbers(&s.t), pen_up: s.pen_up };
    assert(r@ =~= wanted);
    r
}

impl Momentum {
    pub fn new(size: usize) -> (r: Self)
        ensures
            r@ == at_rest(size as nat),
    {
        let mut velocity: Vec<F64> = Vec::new();
        let mut i: usize = 0;
        while i < size
            invariant
                i <= size,
                velocity@.len() == i,
                forall|k: int| 0 <= k < i ==> velocity@[k] == (F64 { bits: 0 }),
            decreases size - i,
        {
            velocity.push(F64 { bits: 0 });
            i += 1;
        }
        assert(velocity@ =~= at_rest(size as nat).velocity);
        Momentum { velocity, decay: F64 { bits: 0x3ff0_0000_0000_0000 } }
    }

    /// Forgets all velocity.
    pub fn reset(&mut self)
        ensures
            final(self)@ == at_rest(old(self)@.velocity.len()),
    {
        let size: usize = self.velocity.len();
        *self = Momentum::new(size);
    }

    /// Takes one step down a gradient.
    pub fn step<R: Fn(F64) -> F64, H: Fn(F32, F32) -> F32, A: Fn(F32, F32) -> F32>(
        &mut self,
        strokes: &Vec<Stroke>,
        gradient: &Vec<F64>,
        step_size: F64,
        num: &Numerics<R, H, A>,
    ) -> (r: Vec<Stroke>)
        requires
            num.wf(),
            all_placed(strokes_view(strokes@)),
            old(self)@.velocity.len() == coordinate_total(strokes_view(strokes@)),
            gradient@.len() == old(self)@.velocity.len(),
        ensures
            final(self)@ == pushed(old(self)@, gradient@),
            strokes_view(r@) == stepped_ink(
                num.math(),
                final(self)@,
                strokes_view(strokes@),
                step_size,
            ),
    {
        let ghost m = num.math();
        let ghost before = self@;
        let ghost after = pushed(before, gradient@);
        let one: F64 = F64 { bits: 0x3ff0_0000_0000_0000 };
        let beta: F64 = F64 { bits: 0x3fec_cccc_cccc_cccd };
        self.decay = self.decay.times(beta);
        let bias: F64 = one.minus(self.decay);
        let n: usize = self.velocity.len();
        let mut magnitude: F64 = F64 { bits: 0 };
        let mut velocity: Vec<F64> = Vec::new();
        let mut i: usize = 0;
        while i < n
            invariant
                i <= n,
                n == before.velocity.len(),
                self.velocity@ == before.velocity,
                gradient@.len() == n,
                one == (F64 { bits: 0x3ff0_0000_0000_0000 }),
                beta == (F64 { bits: 0x3fec_cccc_cccc_cccd }),
                after == pushed(before, gradient@),
                velocity@.len() == i,
                forall|k: int| 0 <= k < i ==> #[trigger] velocity@[k] == after.velocity[k],
                magnitude == square_sum(after.velocity, bias, i as nat),
            decreases n - i,
        {
            let v: F64 = beta.times(self.velocity[i]).plus(one.minus(beta).times(gradient[i]));
            assert(v == after.velocity[i as int]);
            velocity.push(v);
            let corrected: F64 = v.over(bias);
            magnitude = magnitude.plus(corrected.times(corrected));
            i += 1;
        }
        assert(velocity@ =~= after.velocity);
        let count: u64 = if n < 1 {
            1
        } else {
            n as u64
        };
        let rms: F64 = num.root(magnitude.over(F64::from_nat(count)));
        let scale: F64 = step_size.over(rms.plus(F64 { bits: 0x3d71_9799_812d_ea11 }));
        assert(scale == step_scale(m, after.velocity, bias, step_size));
        let ghost all = strokes_view(strokes@);
        let mut out: Vec<Stroke> = Vec::new();
        let mut base: usize = 0;
        let mut k: usize = 0;
        while k < strokes.len()
            invariant
                k <= strokes@.len(),
                all == strokes_view(strokes@),
                all_placed(all),
                velocity@ == after.velocity,
                velocity@.len() == coordinate_total(all),
                n == velocity@.len(),
                base == coordinates_before(all, k as int),
                out@.len() == k,
                forall|j: int|
                    0 <= j < k ==> (#[trigger] out@[j])@ == moved_ink(
                        all,
                        after.velocity,
                        scale,
                        bias,
                    )[j],
            decreases strokes@.len() - k,
        {
            proof {
                assert(all[k as int] == strokes@[k as int]@);
                assert(all[k as int].placed());
                lemma_coordinates_grow(all, k + 1, all.len() as int);
            }
            out.push(move_stroke(&strokes[k], &velocity, base, scale, bias));
            base = base + 2 * strokes[k].x.len();
            k += 1;
        }
        assert(strokes_view(out@) =~= moved_ink(all, after.velocity, scale, bias));
        self.velocity = velocity;
        out
    }
}

} // verus!
