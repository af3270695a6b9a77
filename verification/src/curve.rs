//! Thin, split and merge: raw samples to a sequence of curves.
//!
//! The discrete decisions (which samples survive thinning, where a stroke is cut)
//! are separated from the numeric ones (the least-squares fit) and returned as a
//! [`Segmentation`], so that the structure can be held fixed while coordinates move.
//! The numeric ones are those of [`crate::fit`].
use vstd::prelude::*;

use crate::error::{Error, ErrorView};
use crate::fit::{bend_of, failures, fitted, sharpest};
pub use crate::fit::{
    control_points, control_points_f32, fit_cubic, fit_failures, solve_coeffs,
    split_at_max_curvature, split_at_min_angle, Control, Cubic, Omega,
};
use crate::float::{F32, F64};
use crate::ink::{bbox_diagonal, diagonal, strokes_view, Point, Stroke, StrokeView};
use crate::numerics::{GeoMath, Numerics};
use crate::settings::CurveSettings;
use crate::text::{dec, push_dec};
use crate::thinning::{
    best_end, chain_length, chain_to, covers, earliest, lemma_chain_to, lemma_covers_all,
    lemma_earliest_range, lemma_length_bound, lemma_longest,
};

verus! {

/// Which samples of one preprocessed stroke survive, and how they group into
/// curves.
#[derive(Debug, Clone, PartialEq)]
pub struct StrokeSegments {
    pub pen_up: bool,
    /// Indices into the preprocessed stroke that survived thinning, ascending.
    pub kept: Vec<usize>,
    /// Inclusive `[start, end]` ranges into `kept`. Adjacent curves share an
    /// endpoint.
    pub curves: Vec<(usize, usize)>,
}

/// [`StrokeSegments`] by its contents.
#[verifier::ext_equal]
pub struct SegmentsView {
    pub pen_up: bool,
    pub kept: Seq<usize>,
    pub curves: Seq<(usize, usize)>,
}

impl View for StrokeSegments {
    type V = SegmentsView;

    open spec fn view(&self) -> SegmentsView {
        SegmentsView { pen_up: self.pen_up, kept: self.kept@, curves: self.curves@ }
    }
}

/// The discrete structure chosen for a whole ink.
#[derive(Debug, Clone, PartialEq)]
pub struct Segmentation {
    pub strokes: Vec<StrokeSegments>,
}

impl View for Segmentation {
    type V = Seq<SegmentsView>;

    open spec fn view(&self) -> Seq<SegmentsView> {
        self.strokes@.map_values(|s: StrokeSegments| s@)
    }
}

impl Default for Segmentation {
    fn default() -> (r: Self)
        ensures
            r@ == Seq::<SegmentsView>::empty(),
    {
        let r: Segmentation = Segmentation { strokes: Vec::new() };
        assert(r@ =~= Seq::empty());
        r
    }
}

/// How many curves strokes have together.
pub open spec fn curve_count(strokes: Seq<SegmentsView>) -> nat
    decreases strokes.len(),
{
    if strokes.len() == 0 {
        0
    } else {
        curve_count(strokes.drop_last()) + strokes.last().curves.len()
    }
}

pub(crate) proof fn lemma_curve_count_grows(strokes: Seq<SegmentsView>, k: int)
    requires
        0 <= k <= strokes.len(),
    ensures
        curve_count(strokes.take(k)) <= curve_count(strokes),
    decreases strokes.len() - k,
{
    if k < strokes.len() {
        assert(strokes.take(k + 1).drop_last() =~= strokes.take(k));
        lemma_curve_count_grows(strokes, k + 1);
    } else {
        assert(strokes.take(k) =~= strokes);
    }
}

impl Segmentation {
    /// Total number of curves, i.e. the time dimension of the feature matrix.
    pub fn num_curves(&self) -> (r: usize)
        requires
            curve_count(self@) <= usize::MAX,
        ensures
            r == curve_count(self@),
    {
        let mut total: usize = 0;
        let mut i: usize = 0;
        assert(self@.take(0) =~= Seq::empty());
        while i < self.strokes.len()
            invariant
                i <= self.strokes@.len(),
                curve_count(self@) <= usize::MAX,
                total == curve_count(self@.take(i as int)),
            decreases self.strokes@.len() - i,
        {
            proof {
                assert(self@.take(i + 1).drop_last() =~= self@.take(i as int));
                assert(self@.take(i + 1).last() == self.strokes@[i as int]@);
                lemma_curve_count_grows(self@, i + 1);
            }
            total = total + self.strokes[i].curves.len();
            i += 1;
        }
        assert(self@.take(i as int) =~= self@);
        total
    }
}

/// The samples of a stroke in the precision of the fitter.
pub open spec fn points_of(s: StrokeView) -> Seq<Point> {
    Seq::new(
        s.x.len(),
        |i: int| Point { x: s.x[i].narrowed(), y: s.y[i].narrowed(), t: s.t[i].narrowed() },
    )
}

/// What is said of a stroke whose samples lack coordinates.
pub open spec fn malformed(s: StrokeView, index: nat) -> ErrorView {
    ErrorView::Invalid(
        "Malformed input (x.size != t.size). stroke="@ + dec(index) + ": x="@ + dec(s.x.len())
            + ", y="@ + dec(s.y.len()) + ", t="@ + dec(s.t.len()),
    )
}

/// The samples of a stroke in the precision of the fitter.
pub fn stroke_points(stroke: &Stroke, index: usize) -> (r: Result<Vec<Point>, Error>)
    ensures
        match r {
            Ok(points) => stroke@.timed() && points@ == points_of(stroke@),
            Err(e) => !stroke@.timed() && e@ == malformed(stroke@, index as nat),
        },
{
    if !stroke.is_timed() {
        let mut s: String = String::from_str("Malformed input (x.size != t.size). stroke=");
        push_dec(&mut s, index as u64);
        s.append(": x=");
        push_dec(&mut s, stroke.x.len() as u64);
        s.append(", y=");
        push_dec(&mut s, stroke.y.len() as u64);
        s.append(", t=");
        push_dec(&mut s, stroke.t.len() as u64);
        return Err(Error::Invalid(s));
    }
    let mut out: Vec<Point> = Vec::new();
    let mut i: usize = 0;
    while i < stroke.x.len()
        invariant
            i <= stroke.x@.len(),
            stroke@.timed(),
            out@.len() == i,
            forall|k: int| 0 <= k < i ==> #[trigger] out@[k] == points_of(stroke@)[k],
        decreases stroke.x@.len() - i,
    {
        out.push(Point::new(stroke.x[i].narrow(), stroke.y[i].narrow(), stroke.t[i].narrow()));
        i += 1;
    }
    assert(out@ =~= points_of(stroke@));
    Ok(out)
}

/// The distance of two points.
pub open spec fn distance_of(m: GeoMath, a: Point, b: Point) -> F32 {
    m.length(a.x.difference(b.x), a.y.difference(b.y))
}

pub(crate) fn distance<R: Fn(F64) -> F64, H: Fn(F32, F32) -> F32, A: Fn(F32, F32) -> F32>(
    num: &Numerics<R, H, A>,
    a: Point,
    b: Point,
) -> (r: F32)
    requires
        num.wf(),
    ensures
        r == distance_of(num.math(), a, b),
{
    num.length(a.x.minus(b.x), a.y.minus(b.y))
}

/// The length of the way to a point.
pub open spec fn travelled(m: GeoMath, points: Seq<Point>, i: int) -> F32
    decreases i,
{
    if i <= 0 {
        F32 { bits: 0 }
    } else {
        travelled(m, points, i - 1).sum(distance_of(m, points[i], points[i - 1]))
    }
}

/// The least spacing: a fixed share of the diagonal.
pub open spec fn least_spacing(m: GeoMath, points: Seq<Point>) -> F32 {
    diagonal(m, points).product(F32 { bits: 0x39b5_04f3 })
}

/// Whether point `i` is far enough from point `j`, both along the way and as the
/// crow flies.
pub open spec fn is_spaced(m: GeoMath, points: Seq<Point>, i: int, j: int) -> bool {
    let e = least_spacing(m, points);
    let dx = points[i].x.difference(points[j].x);
    let dy = points[i].y.difference(points[j].y);
    &&& e.below(travelled(m, points, i).difference(travelled(m, points, j)))
    &&& e.product(e).below(dx.product(dx).sum(dy.product(dy)))
}

/// [`is_spaced`] for given points.
pub open spec fn spacing(m: GeoMath, points: Seq<Point>) -> spec_fn(int, int) -> bool {
    |i: int, j: int| is_spaced(m, points, i, j)
}

/// The samples that thinning keeps: a longest chain of samples that are far enough
/// apart.
pub open spec fn thinned(m: GeoMath, points: Seq<Point>) -> Seq<int> {
    if points.len() < 2 {
        Seq::new(points.len(), |i: int| i)
    } else {
        chain_to(spacing(m, points), best_end(spacing(m, points), points.len() as int))
    }
}

/// Indices as mathematical numbers.
pub open spec fn indices(v: Seq<usize>) -> Seq<int> {
    v.map_values(|i: usize| i as int)
}

/// What thinning compares.
struct Gates {
    cumulative: Vec<F32>,
    e: F32,
    e2: F32,
}

impl Gates {
    spec fn wf(&self, m: GeoMath, points: Seq<Point>) -> bool {
        &&& self.cumulative@.len() == points.len()
        &&& forall|i: int|
            0 <= i < points.len() ==> #[trigger] self.cumulative@[i] == travelled(m, points, i)
        &&& self.e == least_spacing(m, points)
        &&& self.e2 == self.e.product(self.e)
    }

    fn new<R: Fn(F64) -> F64, H: Fn(F32, F32) -> F32, A: Fn(F32, F32) -> F32>(
        points: &[Point],
        num: &Numerics<R, H, A>,
    ) -> (r: Self)
        requires
            num.wf(),
            points@.len() > 0,
        ensures
            r.wf(num.math(), points@),
    {
        let mut cumulative: Vec<F32> = Vec::new();
        cumulative.push(F32 { bits: 0 });
        let mut i: usize = 1;
        while i < points.len()
            invariant
                1 <= i <= points@.len(),
                num.wf(),
                cumulative@.len() == i,
                forall|k: int|
                    0 <= k < i ==> #[trigger] cumulative@[k] == travelled(num.math(), points@, k),
            decreases points@.len() - i,
        {
            let next: F32 = cumulative[i - 1].plus(distance(num, points[i], points[i - 1]));
            cumulative.push(next);
            i += 1;
        }
        let e: F32 = bbox_diagonal(points, num).times(F32 { bits: 0x39b5_04f3 });
        Gates { cumulative, e, e2: e.times(e) }
    }

    fn open(
        &self,
        points: &[Point],
        i: usize,
        j: usize,
        Ghost(m): Ghost<GeoMath>,
    ) -> (r: bool)
        requires
            self.wf(m, points@),
            i < points@.len(),
            j < points@.len(),
        ensures
            r == spacing(m, points@)(i as int, j as int),
    {
        if !self.e.less(self.cumulative[i].minus(self.cumulative[j])) {
            return false;
        }
        let dx: F32 = points[i].x.minus(points[j].x);
        let dy: F32 = points[i].y.minus(points[j].y);
        self.e2.less(dx.times(dx).plus(dy.times(dy)))
    }
}

/// The longest chain to place `i`, from the longest chains to the places before:
/// its length, and the place before.
fn follow(
    gates: &Gates,
    points: &[Point],
    i: usize,
    length: &Vec<usize>,
    best_length: &Vec<usize>,
    Ghost(m): Ghost<GeoMath>,
) -> (r: (usize, usize))
    requires
        gates.wf(m, points@),
        1 <= i < points@.len(),
        length@.len() == i,
        best_length@.len() == i,
        forall|k: int|
            0 <= k < i ==> #[trigger] length@[k] == chain_length(spacing(m, points@), k),
        forall|k: int| 0 <= k < i ==> 1 <= #[trigger] length@[k] <= k + 1,
        forall|j: int, k: int|
            0 <= k <= j < i ==> #[trigger] length@[k] <= #[trigger] best_length@[j],
        forall|k: int| 0 <= k < i ==> #[trigger] best_length@[k] <= k + 1,
    ensures
        r.0 == chain_length(spacing(m, points@), i as int),
        r.1 == earliest(spacing(m, points@), i as int, 0),
        1 <= r.0 <= i + 1,
{
    let ghost gate = spacing(m, points@);
    let n: usize = points.len();
    let mut longest: usize = 1;
    let mut before: usize = i;
    let mut j: usize = i;
    while j > 0 && longest <= best_length[j - 1] + 1
        invariant
            j <= i,
            gate == spacing(m, points@),
            gates.wf(m, points@),
            1 <= i < n,
            n == points@.len(),
            length@.len() == i,
            best_length@.len() == i,
            forall|k: int| 0 <= k < i ==> #[trigger] length@[k] == chain_length(gate, k),
            forall|k: int| 0 <= k < i ==> 1 <= #[trigger] length@[k] <= k + 1,
            forall|k: int| 0 <= k < i ==> #[trigger] best_length@[k] <= k + 1,
            covers(gate, i as int, j as int, longest as nat, before as int),
            longest <= i + 1,
        decreases j,
    {
        j -= 1;
        let candidate: usize = length[j] + 1;
        assert(length@[j as int] == chain_length(gate, j as int));
        if candidate >= longest && gates.open(points, i, j, Ghost(m)) {
            longest = candidate;
            before = j;
        }
        proof {
            assert forall|k: int| j <= k < i && gate(i as int, k) implies #[trigger] chain_length(
                gate,
                k,
            ) + 1 <= longest by {}
        }
    }
    proof {
        if j > 0 {
            assert forall|k: int| 0 <= k < i && gate(i as int, k) implies #[trigger] chain_length(
                gate,
                k,
            ) + 1 <= longest by {
                if k < j {
                    assert(length@[k] <= best_length@[j - 1]);
                    assert(length@[k] == chain_length(gate, k));
                }
            }
            assert forall|k: int| 0 <= k < before implies !(gate(i as int, k)
                && #[trigger] chain_length(gate, k) + 1 == longest) by {
                if k < j {
                    assert(length@[k] <= best_length@[j - 1]);
                    assert(length@[k] == chain_length(gate, k));
                }
            }
        }
        assert(covers(gate, i as int, 0, longest as nat, before as int));
        lemma_covers_all(gate, i as int, longest as nat, before as int);
    }
    (longest, before)
}

/// For each place the place before on a longest chain, and where the longest of
/// all ends.
fn chains<R: Fn(F64) -> F64, H: Fn(F32, F32) -> F32, A: Fn(F32, F32) -> F32>(
    points: &[Point],
    num: &Numerics<R, H, A>,
) -> (r: (Vec<usize>, usize))
    requires
        num.wf(),
        points@.len() >= 1,
    ensures
        r.0@.len() == points@.len(),
        r.1 < points@.len(),
        r.1 == best_end(spacing(num.math(), points@), points@.len() as int),
        forall|k: int|
            0 <= k < points@.len() ==> #[trigger] r.0@[k] == earliest(
                spacing(num.math(), points@),
                k,
                0,
            ),
{
    let n: usize = points.len();
    let ghost gate = spacing(num.math(), points@);
    let gates: Gates = Gates::new(points, num);
    let mut length: Vec<usize> = Vec::new();
    let mut before: Vec<usize> = Vec::new();
    let mut best_length: Vec<usize> = Vec::new();
    let mut best: usize = 0;
    length.push(1);
    before.push(0);
    best_length.push(1);
    assert(chain_length(gate, 0) == 1);
    assert(earliest(gate, 0, 0) == 0);
    let mut i: usize = 1;
    while i < n
        invariant
            1 <= i <= n,
            n == points@.len(),
            gate == spacing(num.math(), points@),
            gates.wf(num.math(), points@),
            length@.len() == i,
            before@.len() == i,
            best_length@.len() == i,
            best < i,
            best == best_end(gate, i as int),
            forall|k: int| 0 <= k < i ==> #[trigger] length@[k] == chain_length(gate, k),
            forall|k: int| 0 <= k < i ==> 1 <= #[trigger] length@[k] <= k + 1,
            forall|k: int| 0 <= k < i ==> #[trigger] before@[k] == earliest(gate, k, 0),
            forall|k: int| 0 <= k < i ==> #[trigger] length@[k] <= length@[best as int],
            forall|j: int, k: int|
                0 <= k <= j < i ==> #[trigger] length@[k] <= #[trigger] best_length@[j],
            forall|k: int| 0 <= k < i ==> #[trigger] best_length@[k] <= k + 1,
        decreases n - i,
    {
        let (longest, previous) = follow(
            &gates,
            points,
            i,
            &length,
            &best_length,
            Ghost(num.math()),
        );
        let top: usize = length[best];
        let ghost old_length = length@;
        assert(length@[best as int] == chain_length(gate, best as int));
        length.push(longest);
        before.push(previous);
        if longest > 1 && longest >= top {
            best = i;
        }
        best_length.push(length[best]);
        proof {
            assert forall|k: int| 0 <= k < i + 1 implies #[trigger] length@[k]
                <= length@[best as int] by {
                if k < i {
                    assert(old_length[k] == length@[k]);
                }
            }
        }
        i += 1;
    }
    (before, best)
}

/// Indices from the last to the first.
pub open spec fn backwards(v: Seq<usize>) -> Seq<int> {
    Seq::new(v.len(), |k: int| v[v.len() - 1 - k] as int)
}

/// The chain to a place, by the places before.
fn trace(before: &Vec<usize>, end: usize, Ghost(gate): Ghost<spec_fn(int, int) -> bool>) -> (r: Vec<
    usize,
>)
    requires
        end < before@.len(),
        forall|k: int| 0 <= k < before@.len() ==> #[trigger] before@[k] == earliest(gate, k, 0),
    ensures
        indices(r@) == chain_to(gate, end as int),
{
    let mut passed: Vec<usize> = Vec::new();
    let mut at: usize = end;
    assert(chain_to(gate, end as int) =~= chain_to(gate, at as int) + backwards(passed@));
    while before[at] != at
        invariant
            at < before@.len(),
            forall|k: int| 0 <= k < before@.len() ==> #[trigger] before@[k] == earliest(gate, k, 0),
            chain_to(gate, end as int) == chain_to(gate, at as int) + backwards(passed@),
        decreases at,
    {
        let ghost behind = backwards(passed@);
        let previous: usize = before[at];
        proof {
            lemma_earliest_range(gate, at as int);
            assert(before@[at as int] == earliest(gate, at as int, 0));
        }
        passed.push(at);
        assert(backwards(passed@) =~= seq![at as int] + behind);
        assert(chain_to(gate, previous as int).push(at as int) + behind =~= chain_to(
            gate,
            previous as int,
        ) + backwards(passed@));
        at = previous;
    }
    assert(before@[at as int] == earliest(gate, at as int, 0));
    let ghost behind = backwards(passed@);
    passed.push(at);
    assert(backwards(passed@) =~= seq![at as int] + behind);
    assert(chain_to(gate, end as int) =~= backwards(passed@));
    let n: usize = passed.len();
    let mut out: Vec<usize> = Vec::new();
    while out.len() < n
        invariant
            out@.len() <= n,
            n == passed@.len(),
            forall|k: int| 0 <= k < out@.len() ==> #[trigger] out@[k] == passed@[n - 1 - k],
        decreases n - out@.len(),
    {
        out.push(passed[n - 1 - out.len()]);
    }
    assert(indices(out@) =~= backwards(passed@));
    out
}

/// The maximum-cardinality chain of samples with a minimum spacing. Of chains of
/// the same length, predecessors are as early as possible and the end as late; if
/// no two samples are far enough apart, the first is kept.
pub fn thin_points<R: Fn(F64) -> F64, H: Fn(F32, F32) -> F32, A: Fn(F32, F32) -> F32>(
    points: &[Point],
    num: &Numerics<R, H, A>,
) -> (r: Vec<usize>)
    requires
        num.wf(),
    ensures
        indices(r@) == thinned(num.math(), points@),
        forall|k: int| 0 <= k < r@.len() ==> (#[trigger] r@[k]) < points@.len(),
        points@.len() > 0 ==> r@.len() > 0,
        r@.len() <= points@.len(),
{
    let n: usize = points.len();
    if n < 2 {
        let mut all: Vec<usize> = Vec::new();
        if n == 1 {
            all.push(0);
        }
        assert(indices(all@) =~= thinned(num.math(), points@));
        return all;
    }
    let (before, best) = chains(points, num);
    let ghost gate = spacing(num.math(), points@);
    let out: Vec<usize> = trace(&before, best, Ghost(gate));
    proof {
        lemma_longest(gate, n as int);
        lemma_chain_to(gate, best as int);
        lemma_length_bound(gate, best as int);
        assert forall|k: int| 0 <= k < out@.len() implies (#[trigger] out@[k]) < points@.len() by {
            assert(indices(out@)[k] == chain_to(gate, best as int)[k]);
        }
        assert(indices(out@).len() == out@.len());
    }
    out
}

/// A sum from the left, on top of a number.
pub open spec fn running_sum(base: F32, v: Seq<F32>) -> F32
    decreases v.len(),
{
    if v.len() == 0 {
        base
    } else {
        running_sum(base, v.drop_last()).sum(v.last())
    }
}

/// The sum of every eighth number: those at `j`, `8 + j` and so on, `k` of them
/// behind the first.
pub open spec fn lane(v: Seq<F32>, j: int, k: nat) -> F32
    decreases k,
{
    if k == 0 {
        v[j]
    } else {
        lane(v, j, (k - 1) as nat).sum(v[8 * k + j])
    }
}

/// The sums of eight lanes, in pairs.
pub open spec fn eight_lanes(v: Seq<F32>, k: nat) -> F32 {
    lane(v, 0, k).sum(lane(v, 1, k)).sum(lane(v, 2, k).sum(lane(v, 3, k))).sum(
        lane(v, 4, k).sum(lane(v, 5, k)).sum(lane(v, 6, k).sum(lane(v, 7, k))),
    )
}

/// The sum of a block: eight lanes, and what is left over from the left.
pub open spec fn block_sum(v: Seq<F32>) -> F32 {
    let whole = v.len() as int / 8;
    running_sum(eight_lanes(v, (whole - 1) as nat), v.skip(8 * whole))
}

/// A sum by halves: few numbers from the left, a block in eight lanes, and more
/// than a block as the sum of its halves, the first a multiple of eight long.
pub open spec fn pairwise_sum(v: Seq<F32>) -> F32
    decreases v.len(),
{
    if v.len() < 8 {
        running_sum(F32 { bits: 0x8000_0000 }, v)
    } else if v.len() <= 128 {
        block_sum(v)
    } else {
        let half = (v.len() / 2) / 8 * 8;
        pairwise_sum(v.take(half as int)).sum(pairwise_sum(v.skip(half as int)))
    }
}

fn sum_from_left(base: F32, v: &[F32]) -> (r: F32)
    ensures
        r == running_sum(base, v@),
{
    let mut total: F32 = base;
    let mut i: usize = 0;
    while i < v.len()
        invariant
            i <= v@.len(),
            total == running_sum(base, v@.take(i as int)),
        decreases v@.len() - i,
    {
        assert(v@.take(i + 1).drop_last() =~= v@.take(i as int));
        total = total.plus(v[i]);
        i += 1;
    }
    assert(v@.take(i as int) =~= v@);
    total
}

fn sum_lane(v: &[F32], j: usize, k: usize) -> (r: F32)
    requires
        j < 8,
        8 * k + 8 <= v@.len(),
    ensures
        r == lane(v@, j as int, k as nat),
{
    let n: usize = v.len();
    let mut total: F32 = v[j];
    let mut i: usize = 0;
    while i < k
        invariant
            i <= k,
            j < 8,
            8 * k + 8 <= n,
            n == v@.len(),
            total == lane(v@, j as int, i as nat),
        decreases k - i,
    {
        total = total.plus(v[8 * (i + 1) + j]);
        i += 1;
    }
    total
}

/// Sums numbers pairwise. A sum from the left would round otherwise, change the
/// time fit, and sometimes the segmentation.
pub fn sum_f32(v: &[F32]) -> (r: F32)
    ensures
        r == pairwise_sum(v@),
    decreases v@.len(),
{
    let n: usize = v.len();
    if n < 8 {
        return sum_from_left(F32 { bits: 0x8000_0000 }, v);
    }
    if n <= 128 {
        let whole: usize = n / 8;
        let k: usize = whole - 1;
        let low: F32 = sum_lane(v, 0, k).plus(sum_lane(v, 1, k)).plus(
            sum_lane(v, 2, k).plus(sum_lane(v, 3, k)),
        );
        let high: F32 = sum_lane(v, 4, k).plus(sum_lane(v, 5, k)).plus(
            sum_lane(v, 6, k).plus(sum_lane(v, 7, k)),
        );
        let rest: &[F32] = vstd::slice::slice_subrange(v, 8 * whole, n);
        assert(rest@ =~= v@.skip(8 * whole as int));
        return sum_from_left(low.plus(high), rest);
    }
    let half: usize = (n / 2) / 8 * 8;
    let left: &[F32] = vstd::slice::slice_subrange(v, 0, half);
    let right: &[F32] = vstd::slice::slice_subrange(v, half, n);
    assert(left@ =~= v@.take(half as int));
    assert(right@ =~= v@.skip(half as int));
    sum_f32(left).plus(sum_f32(right))
}

/// The distances of neighbours.
pub open spec fn steps_of(m: GeoMath, points: Seq<Point>) -> Seq<F32> {
    Seq::new(
        (points.len() - 1) as nat,
        |i: int| distance_of(m, points[i + 1], points[i]),
    )
}

/// Points with times in units of length: scaled by the way over the duration, or
/// zero where the duration is not positive.
pub open spec fn time_scaled(m: GeoMath, points: Seq<Point>) -> Seq<Point> {
    if points.len() == 0 {
        points
    } else {
        let duration = points.last().t.difference(points[0].t);
        if !duration.nan() && duration.rank() > 0 {
            let scale = pairwise_sum(steps_of(m, points)).quotient(duration);
            points.map_values(|p: Point| Point { t: p.t.product(scale), ..p })
        } else {
            points.map_values(|p: Point| Point { t: F32 { bits: 0 }, ..p })
        }
    }
}

/// Per-stroke rescale of time, after thinning and before splitting. A duration
/// that is not positive zeroes the whole column; no local origin is subtracted.
pub fn normalize_curve_time<R: Fn(F64) -> F64, H: Fn(F32, F32) -> F32, A: Fn(F32, F32) -> F32>(
    points: &mut [Point],
    num: &Numerics<R, H, A>,
)
    requires
        num.wf(),
    ensures
        final(points)@ == time_scaled(num.math(), old(points)@),
{
    let n: usize = points.len();
    if n == 0 {
        return ;
    }
    let ghost before = points@;
    let duration: F32 = points[n - 1].t.minus(points[0].t);
    if duration.is_positive() {
        let mut steps: Vec<F32> = Vec::new();
        let mut i: usize = 1;
        while i < n
            invariant
                1 <= i <= n,
                n == points@.len(),
                num.wf(),
                steps@.len() == i - 1,
                forall|k: int|
                    0 <= k < i - 1 ==> #[trigger] steps@[k] == steps_of(num.math(), points@)[k],
            decreases n - i,
        {
            steps.push(distance(num, points[i], points[i - 1]));
            i += 1;
        }
        assert(steps@ =~= steps_of(num.math(), points@));
        let scale: F32 = sum_f32(steps.as_slice()).over(duration);
        let mut k: usize = 0;
        while k < n
            invariant
                k <= n,
                n == points@.len(),
                before.len() == n,
                forall|j: int|
                    0 <= j < k ==> #[trigger] points@[j] == (Point {
                        t: before[j].t.product(scale),
                        ..before[j]
                    }),
                forall|j: int| k <= j < n ==> points@[j] == before[j],
            decreases n - k,
        {
            let p: Point = points[k];
            points[k] = Point { x: p.x, y: p.y, t: p.t.times(scale) };
            k += 1;
        }
        assert(points@ =~= time_scaled(num.math(), before));
    } else {
        let mut k: usize = 0;
        while k < n
            invariant
                k <= n,
                n == points@.len(),
                before.len() == n,
                forall|j: int|
                    0 <= j < k ==> #[trigger] points@[j] == (Point {
                        t: F32 { bits: 0 },
                        ..before[j]
                    }),
                forall|j: int| k <= j < n ==> points@[j] == before[j],
            decreases n - k,
        {
            let p: Point = points[k];
            points[k] = Point { x: p.x, y: p.y, t: F32 { bits: 0 } };
            k += 1;
        }
        assert(points@ =~= time_scaled(num.math(), before));
    }
}


/// What curves are judged by.
pub struct Rules {
    pub m: GeoMath,
    pub cfg: CurveSettings,
}

impl Rules {
    /// Whether the best curve strays from points, and whether it bends too much.
    #[verifier::opaque]
    pub open spec fn judged(self, points: Seq<Point>, d: F64) -> (bool, bool) {
        let fit = fitted(self.m, points);
        failures(self.m, points, fit.omega, fit.s, self.cfg, d)
    }

    /// Where to cut points, counted from the first: at a corner where the best curve
    /// strays; else where it bends most, if it bends too much.
    #[verifier::opaque]
    pub open spec fn cut(self, points: Seq<Point>, d: F64) -> Option<usize> {
        let fit = fitted(self.m, points);
        let (wrong, bend) = self.judged(points, d);
        let corner = if wrong {
            sharpest(self.m, points, self.cfg.tol1.product(d).narrowed(), points.len() - 1).1
        } else {
            None
        };
        match corner {
            Some(i) => Some(i),
            None => if bend {
                Some(bend_of(self.m, fit.omega, fit.s))
            } else {
                None
            },
        }
    }
}

/// The settings and the functions that curves are fitted with.
struct Fitter<'a, R, H, A> {
    num: &'a Numerics<R, H, A>,
    cfg: &'a CurveSettings,
}

impl<'a, R: Fn(F64) -> F64, H: Fn(F32, F32) -> F32, A: Fn(F32, F32) -> F32> Fitter<'a, R, H, A> {
    spec fn wf(&self) -> bool {
        self.num.wf()
    }

    spec fn rules(&self) -> Rules {
        Rules { m: self.num.math(), cfg: *self.cfg }
    }

    fn judge(&self, points: &Vec<Point>, d: F64) -> (r: (bool, bool))
        requires
            self.wf(),
            ensures
            r == self.rules().judged(points@, d),
    {
        proof {
            reveal(Rules::judged);
        }
        let (omega, _, s) = fit_cubic(points, self.num);
        fit_failures(points, &omega, &s, self.cfg, d, self.num)
    }

    fn cut(&self, points: &Vec<Point>, d: F64) -> (r: Option<usize>)
        requires
            self.wf(),
            points@.len() >= 4,
        ensures
            r == self.rules().cut(points@, d),
    {
        proof {
            reveal(Rules::judged);
            reveal(Rules::cut);
        }
        let (omega, _, s) = fit_cubic(points, self.num);
        let (wrong, bend) = fit_failures(points, &omega, &s, self.cfg, d, self.num);
        let corner: Option<usize> = if wrong {
            split_at_min_angle(points, self.cfg.tol1.times(d), self.num)
        } else {
            None
        };
        match corner {
            Some(i) => Some(i),
            None => if bend {
                Some(split_at_max_curvature(&omega, &s, self.num))
            } else {
                None
            },
        }
    }
}

/// A place within a run of at least three, not at its ends.
pub open spec fn inner(i: usize, len: int) -> int {
    if i < 1 {
        1
    } else if i > len - 2 {
        len - 2
    } else {
        i as int
    }
}

/// The curves of the points from `lo` to `hi`: one where they are fewer than four
/// or the best curve is accepted, else those of both sides of the cut, which
/// belongs to both.
pub open spec fn split_curves(
    f: Rules,
    points: Seq<Point>,
    d: F64,
    lo: int,
    hi: int,
) -> Seq<(usize, usize)>
    decreases hi - lo,
{
    let whole = seq![(lo as usize, hi as usize)];
    if hi - lo + 1 < 4 {
        whole
    } else {
        match f.cut(points.subrange(lo, hi + 1), d) {
            None => whole,
            Some(i) => {
                let at = lo + inner(i, hi - lo + 1);
                split_curves(f, points, d, lo, at) + split_curves(f, points, d, at, hi)
            },
        }
    }
}

/// One pass that joins neighbouring curves, from the first on, where one curve
/// fits both.
pub open spec fn merge_from(
    f: Rules,
    points: Seq<Point>,
    d: F64,
    curves: Seq<(usize, usize)>,
    i: int,
) -> Seq<(usize, usize)>
    decreases curves.len() - i,
{
    if i < 0 || i >= curves.len() {
        Seq::empty()
    } else if i + 1 < curves.len() && joins(f, points, d, curves[i], curves[i + 1]) {
        seq![(curves[i].0, curves[i + 1].1)] + merge_from(f, points, d, curves, i + 2)
    } else {
        seq![curves[i]] + merge_from(f, points, d, curves, i + 1)
    }
}

/// Whether one curve fits two neighbours.
pub open spec fn joins(
    f: Rules,
    points: Seq<Point>,
    d: F64,
    a: (usize, usize),
    b: (usize, usize),
) -> bool {
    f.judged(points.subrange(a.0 as int, b.1 + 1), d) == (false, false)
}

proof fn lemma_merge_shorter(
    f: Rules,
    points: Seq<Point>,
    d: F64,
    curves: Seq<(usize, usize)>,
    i: int,
)
    requires
        0 <= i,
    ensures
        i <= curves.len() ==> merge_from(f, points, d, curves, i).len() <= curves.len() - i,
    decreases curves.len() - i,
{
    if i < curves.len() {
        lemma_merge_shorter(f, points, d, curves, i + 1);
        if i + 1 < curves.len() {
            lemma_merge_shorter(f, points, d, curves, i + 2);
        }
    }
}

/// Passes until one joins nothing.
pub open spec fn merged_curves(
    f: Rules,
    points: Seq<Point>,
    d: F64,
    curves: Seq<(usize, usize)>,
) -> Seq<(usize, usize)>
    decreases curves.len(),
{
    let pass = merge_from(f, points, d, curves, 0);
    if pass.len() < curves.len() {
        merged_curves(f, points, d, pass)
    } else {
        pass
    }
}

/// Whether curves lead from `lo` to `hi`, each from where the one before ends, and
/// none backwards.
pub open spec fn leads(curves: Seq<(usize, usize)>, lo: int, hi: int) -> bool {
    &&& curves.len() > 0
    &&& curves[0].0 == lo
    &&& curves.last().1 == hi
    &&& forall|k: int| 0 <= k < curves.len() ==> (#[trigger] curves[k]).0 <= curves[k].1
    &&& forall|k: int| 0 <= k < curves.len() - 1 ==> (#[trigger] curves[k]).1 == curves[k + 1].0
}

proof fn lemma_leads_join(
    a: Seq<(usize, usize)>,
    b: Seq<(usize, usize)>,
    lo: int,
    at: int,
    hi: int,
)
    requires
        leads(a, lo, at),
        leads(b, at, hi),
    ensures
        leads(a + b, lo, hi),
{
    let c = a + b;
    assert forall|k: int| 0 <= k < c.len() implies (#[trigger] c[k]).0 <= c[k].1 by {
        if k < a.len() {
            assert(a[k].0 <= a[k].1);
        } else {
            assert(b[k - a.len()].0 <= b[k - a.len()].1);
        }
    }
    assert forall|k: int| 0 <= k < c.len() - 1 implies (#[trigger] c[k]).1 == c[k + 1].0 by {
        if k < a.len() - 1 {
            assert(a[k].1 == a[k + 1].0);
        } else if k == a.len() - 1 {
            assert(a.last() == c[k]);
        } else {
            assert(b[k - a.len()].1 == b[k + 1 - a.len()].0);
        }
    }
    assert(c.last() == b.last());
}

/// The curves of a run lead from its first point to its last.
pub proof fn lemma_split_leads(f: Rules, points: Seq<Point>, d: F64, lo: int, hi: int)
    requires
        0 <= lo <= hi <= usize::MAX,
    ensures
        leads(split_curves(f, points, d, lo, hi), lo, hi),
    decreases hi - lo,
{
    if hi - lo + 1 >= 4 {
        if let Some(i) = f.cut(points.subrange(lo, hi + 1), d) {
            let at = lo + inner(i, hi - lo + 1);
            lemma_split_leads(f, points, d, lo, at);
            lemma_split_leads(f, points, d, at, hi);
            lemma_leads_join(
                split_curves(f, points, d, lo, at),
                split_curves(f, points, d, at, hi),
                lo,
                at,
                hi,
            );
        }
    }
}

pub(crate) proof fn lemma_lead_on(curves: Seq<(usize, usize)>, i: int, lo: int, hi: int)
    requires
        leads(curves, lo, hi),
        0 <= i < curves.len(),
    ensures
        leads(curves.skip(i), curves[i].0 as int, hi),
        curves[i].0 <= hi,
    decreases curves.len() - i,
{
    let rest = curves.skip(i);
    assert(curves[i].0 <= curves[i].1);
    if i < curves.len() - 1 {
        lemma_lead_on(curves, i + 1, lo, hi);
        assert(curves[i].1 == curves[i + 1].0);
    } else {
        assert(curves.last() == curves[i]);
    }
    assert forall|k: int| 0 <= k < rest.len() implies (#[trigger] rest[k]).0 <= rest[k].1 by {
        assert(curves[i + k].0 <= curves[i + k].1);
    }
    assert forall|k: int| 0 <= k < rest.len() - 1 implies (#[trigger] rest[k]).1 == rest[k
        + 1].0 by {
        assert(curves[i + k].1 == curves[i + k + 1].0);
    }
}

proof fn lemma_merge_leads(
    f: Rules,
    points: Seq<Point>,
    d: F64,
    curves: Seq<(usize, usize)>,
    i: int,
    lo: int,
    hi: int,
)
    requires
        leads(curves, lo, hi),
        0 <= i < curves.len(),
    ensures
        leads(merge_from(f, points, d, curves, i), curves[i].0 as int, hi),
    decreases curves.len() - i,
{
    lemma_lead_on(curves, i, lo, hi);
    let out = merge_from(f, points, d, curves, i);
    if i + 1 < curves.len() && joins(f, points, d, curves[i], curves[i + 1]) {
        let head = seq![(curves[i].0, curves[i + 1].1)];
        assert(curves[i].0 <= curves[i].1);
        assert(curves[i].1 == curves[i + 1].0);
        assert(curves[i + 1].0 <= curves[i + 1].1);
        if i + 2 < curves.len() {
            assert(curves[i + 1].1 == curves[i + 2].0);
            lemma_merge_leads(f, points, d, curves, i + 2, lo, hi);
            assert(leads(head, curves[i].0 as int, curves[i + 1].1 as int));
            lemma_leads_join(
                head,
                merge_from(f, points, d, curves, i + 2),
                curves[i].0 as int,
                curves[i + 1].1 as int,
                hi,
            );
        } else {
            assert(merge_from(f, points, d, curves, i + 2) =~= Seq::empty());
            assert(out =~= head);
            assert(curves.last() == curves[i + 1]);
        }
    } else {
        let head = seq![curves[i]];
        assert(curves[i].0 <= curves[i].1);
        if i + 1 < curves.len() {
            assert(curves[i].1 == curves[i + 1].0);
            lemma_merge_leads(f, points, d, curves, i + 1, lo, hi);
            assert(leads(head, curves[i].0 as int, curves[i].1 as int));
            lemma_leads_join(
                head,
                merge_from(f, points, d, curves, i + 1),
                curves[i].0 as int,
                curves[i].1 as int,
                hi,
            );
        } else {
            assert(merge_from(f, points, d, curves, i + 1) =~= Seq::empty());
            assert(out =~= head);
            assert(curves.last() == curves[i]);
        }
    }
}

/// Merging keeps curves leading from the first point to the last.
pub proof fn lemma_merged_leads(
    f: Rules,
    points: Seq<Point>,
    d: F64,
    curves: Seq<(usize, usize)>,
    lo: int,
    hi: int,
)
    requires
        leads(curves, lo, hi),
    ensures
        leads(merged_curves(f, points, d, curves), lo, hi),
    decreases curves.len(),
{
    lemma_merge_leads(f, points, d, curves, 0, lo, hi);
    let pass = merge_from(f, points, d, curves, 0);
    if pass.len() < curves.len() {
        lemma_merged_leads(f, points, d, pass, lo, hi);
    }
}

proof fn lemma_no_join(f: Rules, points: Seq<Point>, d: F64, curves: Seq<(usize, usize)>, i: int)
    requires
        0 <= i <= curves.len(),
        merge_from(f, points, d, curves, i).len() == curves.len() - i,
    ensures
        merge_from(f, points, d, curves, i) == curves.skip(i),
        forall|k: int|
            i <= k < curves.len() - 1 ==> !joins(f, points, d, #[trigger] curves[k], curves[k + 1]),
    decreases curves.len() - i,
{
    if i < curves.len() {
        if i + 1 < curves.len() && joins(f, points, d, curves[i], curves[i + 1]) {
            lemma_merge_shorter(f, points, d, curves, i + 2);
            assert(false);
        }
        lemma_no_join(f, points, d, curves, i + 1);
        assert(seq![curves[i]] + curves.skip(i + 1) =~= curves.skip(i));
    } else {
        assert(curves.skip(i) =~= Seq::empty());
    }
}

/// After merging, no one curve fits two neighbours.
pub proof fn lemma_merged_settled(f: Rules, points: Seq<Point>, d: F64, curves: Seq<(usize, usize)>)
    ensures
        forall|k: int|
            0 <= k < merged_curves(f, points, d, curves).len() - 1 ==> !joins(
                f,
                points,
                d,
                #[trigger] merged_curves(f, points, d, curves)[k],
                merged_curves(f, points, d, curves)[k + 1],
            ),
        merged_curves(f, points, d, curves).len() <= curves.len(),
    decreases curves.len(),
{
    let pass = merge_from(f, points, d, curves, 0);
    lemma_merge_shorter(f, points, d, curves, 0);
    if pass.len() < curves.len() {
        lemma_merged_settled(f, points, d, pass);
    } else {
        lemma_no_join(f, points, d, curves, 0);
        assert(curves.skip(0) =~= curves);
    }
}

fn run_of(points: &Vec<Point>, lo: usize, hi: usize) -> (r: Vec<Point>)
    requires
        lo <= hi < points@.len(),
    ensures
        r@ == points@.subrange(lo as int, hi + 1),
{
    let count: usize = points.len();
    assert(hi < count);
    vstd::slice::slice_to_vec(vstd::slice::slice_subrange(points.as_slice(), lo, hi + 1))
}

/// Cuts the points from `lo` to `hi` into curves.
fn split_points<R: Fn(F64) -> F64, H: Fn(F32, F32) -> F32, A: Fn(F32, F32) -> F32>(
    f: &Fitter<R, H, A>,
    points: &Vec<Point>,
    d: F64,
    lo: usize,
    hi: usize,
) -> (r: Vec<(usize, usize)>)
    requires
        f.wf(),
        lo <= hi < points@.len(),
    ensures
        r@ == split_curves(f.rules(), points@, d, lo as int, hi as int),
    decreases hi - lo,
{
    let mut out: Vec<(usize, usize)> = Vec::new();
    if hi - lo < 3 {
        out.push((lo, hi));
        assert(out@ =~= split_curves(f.rules(), points@, d, lo as int, hi as int));
        return out;
    }
    let ghost run = points@.subrange(lo as int, hi + 1);
    let cut: Option<usize> = f.cut(&run_of(points, lo, hi), d);
    match cut {
        None => {
            out.push((lo, hi));
            assert(out@ =~= split_curves(f.rules(), points@, d, lo as int, hi as int));
            out
        },
        Some(i) => {
            let at: usize = lo + (if i < 1 {
                1
            } else if i > hi - lo - 1 {
                hi - lo - 1
            } else {
                i
            });
            let mut left: Vec<(usize, usize)> = split_points(f, points, d, lo, at);
            let mut right: Vec<(usize, usize)> = split_points(f, points, d, at, hi);
            left.append(&mut right);
            assert(left@ =~= split_curves(f.rules(), points@, d, lo as int, hi as int));
            left
        },
    }
}

/// One pass of merging.
#[verifier::rlimit(40)]
fn merge_pass<R: Fn(F64) -> F64, H: Fn(F32, F32) -> F32, A: Fn(F32, F32) -> F32>(
    f: &Fitter<R, H, A>,
    points: &Vec<Point>,
    d: F64,
    curves: &Vec<(usize, usize)>,
) -> (r: Vec<(usize, usize)>)
    requires
        f.wf(),
        points@.len() > 0,
        leads(curves@, 0, points@.len() - 1),
    ensures
        r@ == merge_from(f.rules(), points@, d, curves@, 0),
{
    let n: usize = points.len();
    let mut out: Vec<(usize, usize)> = Vec::new();
    let mut i: usize = 0;
    assert(out@ + merge_from(f.rules(), points@, d, curves@, 0) =~= merge_from(
        f.rules(),
        points@,
        d,
        curves@,
        0,
    ));
    while i < curves.len()
        invariant
            i <= curves@.len(),
            f.wf(),
            n == points@.len(),
            n > 0,
            leads(curves@, 0, n - 1),
            out@ + merge_from(f.rules(), points@, d, curves@, i as int) == merge_from(
                f.rules(),
                points@,
                d,
                curves@,
                0,
            ),
        decreases curves@.len() - i,
    {
        let ghost before = out@;
        if curves.len() - i > 1 {
            let lo: usize = curves[i].0;
            let hi: usize = curves[i + 1].1;
            proof {
                let k = i as int;
                lemma_lead_on(curves@, k, 0, n - 1);
                lemma_lead_on(curves@, k + 1, 0, n - 1);
                assert(curves@[k].0 <= curves@[k].1);
                assert(curves@[k].1 == curves@[k + 1].0);
                assert(curves@[k + 1].0 <= curves@[k + 1].1);
                if k + 2 < curves@.len() {
                    lemma_lead_on(curves@, k + 2, 0, n - 1);
                    assert(curves@[k + 1].1 == curves@[k + 2].0);
                } else {
                    assert(curves@.last() == curves@[k + 1]);
                }
            }
            let (wrong, bend) = f.judge(&run_of(points, lo, hi), d);
            if !wrong && !bend {
                assert(joins(f.rules(), points@, d, curves@[i as int], curves@[i + 1]));
                out.push((lo, hi));
                assert(out@ + merge_from(f.rules(), points@, d, curves@, i + 2) =~= before + (seq![
                    (lo, hi),
                ] + merge_from(f.rules(), points@, d, curves@, i + 2)));
                i += 2;
                continue ;
            }
            assert(!joins(f.rules(), points@, d, curves@[i as int], curves@[i + 1]));
        }
        out.push(curves[i]);
        assert(out@ + merge_from(f.rules(), points@, d, curves@, i + 1) =~= before + (seq![
            curves@[i as int],
        ] + merge_from(f.rules(), points@, d, curves@, i + 1)));
        i += 1;
    }
    assert(out@ + merge_from(f.rules(), points@, d, curves@, i as int) =~= out@);
    out
}

/// Merges until nothing changes.
fn merge_curves<R: Fn(F64) -> F64, H: Fn(F32, F32) -> F32, A: Fn(F32, F32) -> F32>(
    f: &Fitter<R, H, A>,
    points: &Vec<Point>,
    d: F64,
    curves: Vec<(usize, usize)>,
) -> (r: Vec<(usize, usize)>)
    requires
        f.wf(),
        points@.len() > 0,
        leads(curves@, 0, points@.len() - 1),
    ensures
        r@ == merged_curves(f.rules(), points@, d, curves@),
{
    let mut now: Vec<(usize, usize)> = curves;
    loop
        invariant
            f.wf(),
            points@.len() > 0,
            leads(now@, 0, points@.len() - 1),
            merged_curves(f.rules(), points@, d, now@) == merged_curves(
                f.rules(),
                points@,
                d,
                curves@,
            ),
        decreases now@.len(),
    {
        let pass: Vec<(usize, usize)> = merge_pass(f, points, d, &now);
        proof {
            lemma_merge_leads(f.rules(), points@, d, now@, 0, 0, points@.len() - 1);
        }
        if pass.len() >= now.len() {
            return pass;
        }
        now = pass;
    }
}

/// The structure of one stroke: the kept samples, and the curves through them once
/// their times are scaled. The diagonal is that of all samples.
pub open spec fn segments_of(f: Rules, s: StrokeView) -> SegmentsView {
    let raw = points_of(s);
    let kept = thinned(f.m, raw);
    let points = time_scaled(f.m, kept.map_values(|i: int| raw[i]));
    let d = diagonal(f.m, raw).widened();
    SegmentsView {
        pen_up: s.pen_up,
        kept: kept.map_values(|i: int| i as usize),
        curves: if points.len() == 0 {
            Seq::empty()
        } else {
            merged_curves(f, points, d, split_curves(f, points, d, 0, points.len() - 1))
        },
    }
}

/// The first stroke from `i` on whose samples lack coordinates.
pub open spec fn first_untimed(strokes: Seq<StrokeView>, i: int) -> Option<int>
    decreases strokes.len() - i,
{
    if i < 0 || i >= strokes.len() {
        None
    } else if !strokes[i].timed() {
        Some(i)
    } else {
        first_untimed(strokes, i + 1)
    }
}

/// The points at indices.
pub(crate) fn pick_points(raw: &Vec<Point>, kept: &Vec<usize>) -> (r: Vec<Point>)
    requires
        forall|k: int| 0 <= k < kept@.len() ==> (#[trigger] kept@[k]) < raw@.len(),
    ensures
        r@ == kept@.map_values(|i: usize| raw@[i as int]),
{
    let mut out: Vec<Point> = Vec::new();
    let mut k: usize = 0;
    while k < kept.len()
        invariant
            k <= kept@.len(),
            forall|k: int| 0 <= k < kept@.len() ==> (#[trigger] kept@[k]) < raw@.len(),
            out@.len() == k,
            forall|j: int| 0 <= j < k ==> #[trigger] out@[j] == raw@[kept@[j] as int],
        decreases kept@.len() - k,
    {
        out.push(raw[kept[k]]);
        k += 1;
    }
    assert(out@ =~= kept@.map_values(|i: usize| raw@[i as int]));
    out
}

fn segment_stroke<R: Fn(F64) -> F64, H: Fn(F32, F32) -> F32, A: Fn(F32, F32) -> F32>(
    stroke: &Stroke,
    index: usize,
    f: &Fitter<R, H, A>,
) -> (r: Result<
    StrokeSegments,
    Error,
>)
    requires
                f.wf(),
    ensures
        match r {
            Ok(s) => stroke@.timed() && s@ == segments_of(f.rules(), stroke@),
            Err(e) => !stroke@.timed() && e@ == malformed(stroke@, index as nat),
        },
{
    let raw: Vec<Point> = stroke_points(stroke, index)?;
    let d: F64 = bbox_diagonal(raw.as_slice(), f.num).widen();
    let kept: Vec<usize> = thin_points(raw.as_slice(), f.num);
    let mut points: Vec<Point> = pick_points(&raw, &kept);
    proof {
        assert(kept@ =~= thinned(f.num.math(), raw@).map_values(|i: int| i as usize)) by {
            assert forall|k: int| 0 <= k < kept@.len() implies kept@[k] == thinned(
                f.num.math(),
                raw@,
            )[k] by {
                assert(indices(kept@)[k] == kept@[k]);
            }
            assert(indices(kept@).len() == kept@.len());
        }
        assert(points@ =~= thinned(f.num.math(), raw@).map_values(|i: int| raw@[i])) by {
            assert forall|k: int| 0 <= k < kept@.len() implies points@[k] == raw@[thinned(
                f.num.math(),
                raw@,
            )[k]] by {
                assert(indices(kept@)[k] == kept@[k]);
            }
            assert(indices(kept@).len() == kept@.len());
        }
    }
    normalize_curve_time(points.as_mut_slice(), f.num);
    let curves: Vec<(usize, usize)> = if points.len() == 0 {
        Vec::new()
    } else {
        let hi: usize = points.len() - 1;
        proof {
            lemma_split_leads(f.rules(), points@, d, 0, hi as int);
        }
        let cut: Vec<(usize, usize)> = split_points(f, &points, d, 0, hi);
        merge_curves(f, &points, d, cut)
    };
    let r: StrokeSegments = StrokeSegments { pen_up: stroke.pen_up, kept, curves };
    assert(r@ =~= segments_of(f.rules(), stroke@));
    Ok(r)
}

/// Chooses thinning and split points for every stroke of a *preprocessed* ink.
pub fn segment<R: Fn(F64) -> F64, H: Fn(F32, F32) -> F32, A: Fn(F32, F32) -> F32>(
    strokes: &[Stroke],
    cfg: &CurveSettings,
    num: &Numerics<R, H, A>,
) -> (r: Result<Segmentation, Error>)
    requires
        num.wf(),
    ensures
        match (r, first_untimed(strokes_view(strokes@), 0)) {
            (Ok(s), None) => s@ == segments_of_all(
                Rules { m: num.math(), cfg: *cfg },
                strokes_view(strokes@),
            ),
            (Err(e), Some(i)) => e@ == malformed(strokes_view(strokes@)[i], i as nat),
            _ => false,
        },
{
    let ghost all = strokes_view(strokes@);
    let f: Fitter<R, H, A> = Fitter { num, cfg };
    let ghost rules = f.rules();
    let mut out: Segmentation = Segmentation { strokes: Vec::new() };
    let mut i: usize = 0;
    while i < strokes.len()
        invariant
            i <= strokes@.len(),
            all == strokes_view(strokes@),
            f.wf(),
            rules == f.rules(),
            first_untimed(all, 0) == first_untimed(all, i as int),
            out.strokes@.len() == i,
            forall|k: int|
                0 <= k < i ==> (#[trigger] out.strokes@[k])@ == segments_of(rules, all[k]),
        decreases strokes@.len() - i,
    {
        assert(all[i as int] == strokes@[i as int]@);
        let s: StrokeSegments = segment_stroke(&strokes[i], i, &f)?;
        out.strokes.push(s);
        i += 1;
    }
    assert(out@ =~= segments_of_all(rules, all));
    Ok(out)
}

/// The structure of an ink, stroke by stroke.
pub open spec fn segments_of_all(f: Rules, strokes: Seq<StrokeView>) -> Seq<SegmentsView> {
    strokes.map_values(|x: StrokeView| segments_of(f, x))
}

/// Whether structure fits a stroke of so many samples: kept samples that are there
/// and rise, and curves that lead through all of them.
pub open spec fn fits(s: SegmentsView, samples: nat) -> bool {
    &&& forall|k: int| 0 <= k < s.kept.len() ==> (#[trigger] s.kept[k]) < samples
    &&& forall|k: int| 0 <= k < s.kept.len() - 1 ==> (#[trigger] s.kept[k]) < s.kept[k + 1]
    &&& s.kept.len() == 0 <==> samples == 0
    &&& s.kept.len() == 0 ==> s.curves.len() == 0
    &&& s.kept.len() > 0 ==> leads(s.curves, 0, s.kept.len() - 1)
}

/// The structure of a stroke fits it: samples in order, none twice, and curves
/// from the first kept sample to the last, neighbours sharing an end.
pub proof fn lemma_segments_fit(f: Rules, s: StrokeView)
    requires
        s.x.len() <= usize::MAX,
    ensures
        fits(segments_of(f, s), s.x.len()),
{
    let raw = points_of(s);
    let n = raw.len() as int;
    let kept = thinned(f.m, raw);
    let out = segments_of(f, s);
    let gate = spacing(f.m, raw);
    assert((forall|k: int| 0 <= k < kept.len() ==> 0 <= #[trigger] kept[k] < n) && (forall|k: int|
        0 <= k < kept.len() - 1 ==> (#[trigger] kept[k]) < kept[k + 1]) && (kept.len() == 0 <==> n
        == 0) && kept.len() <= n) by {
        if n >= 2 {
            lemma_longest(gate, n);
            let best = best_end(gate, n);
            assert(best >= 0) by {
                crate::thinning::lemma_best_end(gate, n);
            }
            lemma_chain_to(gate, best);
            assert forall|k: int| 0 <= k < kept.len() - 1 implies (#[trigger] kept[k]) < kept[k
                + 1] by {
                assert(crate::thinning::is_chain(gate, kept));
            }
            lemma_length_bound(gate, best);
            crate::thinning::lemma_best_end(gate, n);
        }
    }
    assert forall|k: int| 0 <= k < out.kept.len() implies (#[trigger] out.kept[k]) < s.x.len() by {
        assert(0 <= kept[k] < n);
    }
    assert forall|k: int| 0 <= k < out.kept.len() - 1 implies (#[trigger] out.kept[k])
        < out.kept[k + 1] by {
        assert(kept[k] < kept[k + 1]);
        assert(0 <= kept[k] < n && 0 <= kept[k + 1] < n);
    }
    let points = time_scaled(f.m, kept.map_values(|i: int| raw[i]));
    assert(points.len() == kept.len());
    if kept.len() > 0 {
        let d = diagonal(f.m, raw).widened();
        lemma_split_leads(f, points, d, 0, points.len() - 1);
        lemma_merged_leads(
            f,
            points,
            d,
            split_curves(f, points, d, 0, points.len() - 1),
            0,
            points.len() - 1,
        );
    }
}

} // verus!
