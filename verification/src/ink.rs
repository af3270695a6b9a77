//! Input ink: strokes of (x, y, t) samples.
//!
//! Timestamps are deliberately optional and are *not* validated on construction.
//! A stroke whose `t` length disagrees with its `x` length is the trigger to
//! regenerate timestamps for the entire ink (see
//! [`crate::preprocess::hallucinate_time`]), not an input error, so the mismatch
//! has to survive until preprocessing runs.
use vstd::prelude::*;

use crate::error::{Error, ErrorView};
use crate::float::{F32, F64};
use crate::numerics::{GeoMath, Numerics};
use crate::text::{dec, push_dec, push_dec_wide};

verus! {

/// One pen trace.
#[derive(Debug, PartialEq)]
pub struct Stroke {
    pub x: Vec<F64>,
    pub y: Vec<F64>,
    /// Empty when the caller supplied no timestamps.
    pub t: Vec<F64>,
    /// True for the synthetic strokes that bridge a gap between two real ones.
    /// Their pen-down feature is zero where a real trace has one.
    pub pen_up: bool,
}

/// A [`Stroke`] by its contents.
#[verifier::ext_equal]
pub struct StrokeView {
    pub x: Seq<F64>,
    pub y: Seq<F64>,
    pub t: Seq<F64>,
    pub pen_up: bool,
}

impl View for Stroke {
    type V = StrokeView;

    open spec fn view(&self) -> StrokeView {
        StrokeView { x: self.x@, y: self.y@, t: self.t@, pen_up: self.pen_up }
    }
}

/// Strokes by their contents.
pub open spec fn strokes_view(s: Seq<Stroke>) -> Seq<StrokeView> {
    s.map_values(|x: Stroke| x@)
}

/// Copies numbers.
pub fn copy_numbers(v: &Vec<F64>) -> (r: Vec<F64>)
    ensures
        r@ == v@,
{
    vstd::slice::slice_to_vec(v.as_slice())
}

impl Clone for Stroke {
    fn clone(&self) -> (r: Self)
        ensures
            r@ == self@,
    {
        Stroke {
            x: copy_numbers(&self.x),
            y: copy_numbers(&self.y),
            t: copy_numbers(&self.t),
            pen_up: self.pen_up,
        }
    }
}

impl Default for Stroke {
    fn default() -> (r: Self)
        ensures
            r@ == (StrokeView {
                x: Seq::empty(),
                y: Seq::empty(),
                t: Seq::empty(),
                pen_up: false,
            }),
    {
        let r: Stroke = Stroke { x: Vec::new(), y: Vec::new(), t: Vec::new(), pen_up: false };
        assert(r@ =~= (StrokeView {
            x: Seq::empty(),
            y: Seq::empty(),
            t: Seq::empty(),
            pen_up: false,
        }));
        r
    }
}

impl Stroke {
    pub fn new(x: Vec<F64>, y: Vec<F64>, t: Vec<F64>) -> (r: Self)
        ensures
            r@ == (StrokeView { x: x@, y: y@, t: t@, pen_up: false }),
    {
        Stroke { x, y, t, pen_up: false }
    }

    pub fn len(&self) -> (r: usize)
        ensures
            r == self@.x.len(),
    {
        self.x.len()
    }

    pub fn is_empty(&self) -> (r: bool)
        ensures
            r == (self@.x.len() == 0),
    {
        self.x.len() == 0
    }

    /// True once `t` has been completed by preprocessing.
    pub fn is_timed(&self) -> (r: bool)
        ensures
            r == self@.timed(),
    {
        self.t.len() == self.x.len() && self.x.len() == self.y.len()
    }
}

impl StrokeView {
    /// Whether every sample has its three coordinates.
    pub open spec fn timed(self) -> bool {
        self.t.len() == self.x.len() && self.x.len() == self.y.len()
    }

    /// Whether every sample has its place.
    pub open spec fn placed(self) -> bool {
        self.x.len() == self.y.len()
    }
}

/// Copies an ink.
pub fn copy_strokes(strokes: &[Stroke]) -> (r: Vec<Stroke>)
    ensures
        strokes_view(r@) == strokes_view(strokes@),
{
    let mut out: Vec<Stroke> = Vec::new();
    let mut i: usize = 0;
    while i < strokes.len()
        invariant
            i <= strokes@.len(),
            out@.len() == i,
            forall|k: int| 0 <= k < i ==> (#[trigger] out@[k])@ == strokes@[k]@,
        decreases strokes@.len() - i,
    {
        out.push(strokes[i].clone());
        i += 1;
    }
    assert(strokes_view(out@) =~= strokes_view(strokes@));
    out
}

/// One (x, y, t) sample, in the binary32 precision of the curve fitter.
#[derive(Debug, Clone, Copy, PartialEq)]
pub struct Point {
    pub x: F32,
    pub y: F32,
    pub t: F32,
}

impl Default for Point {
    fn default() -> (r: Self)
        ensures
            r == (Point { x: F32 { bits: 0 }, y: F32 { bits: 0 }, t: F32 { bits: 0 } }),
    {
        Point { x: F32 { bits: 0 }, y: F32 { bits: 0 }, t: F32 { bits: 0 } }
    }
}

impl Point {
    pub fn new(x: F32, y: F32, t: F32) -> (r: Self)
        ensures
            r == (Point { x, y, t }),
    {
        Point { x, y, t }
    }
}

/// The least of numbers; what is no number counts as less than all.
pub open spec fn least(v: Seq<F32>) -> F32
    decreases v.len(),
{
    if v.len() <= 1 {
        v[0]
    } else {
        let before = least(v.drop_last());
        if v.last().below(before) || v.last().nan() {
            v.last()
        } else {
            before
        }
    }
}

/// The greatest of numbers; what is no number counts as greater than all.
pub open spec fn most(v: Seq<F32>) -> F32
    decreases v.len(),
{
    if v.len() <= 1 {
        v[0]
    } else {
        let before = most(v.drop_last());
        if before.below(v.last()) || v.last().nan() {
            v.last()
        } else {
            before
        }
    }
}

/// The coordinates of points.
pub open spec fn xs(points: Seq<Point>) -> Seq<F32> {
    points.map_values(|p: Point| p.x)
}

pub open spec fn ys(points: Seq<Point>) -> Seq<F32> {
    points.map_values(|p: Point| p.y)
}

/// The diagonal of the box around points; zero without points.
pub open spec fn diagonal(m: GeoMath, points: Seq<Point>) -> F32 {
    if points.len() == 0 {
        F32 { bits: 0 }
    } else {
        m.length(
            most(xs(points)).difference(least(xs(points))),
            most(ys(points)).difference(least(ys(points))),
        )
    }
}

/// Bounding-box diagonal of the spatial extent, the scale every acceptance gate is
/// measured against. A coordinate that is no number makes the diagonal none: every
/// comparison with it is then false.
pub fn bbox_diagonal<R: Fn(F64) -> F64, H: Fn(F32, F32) -> F32, A: Fn(F32, F32) -> F32>(
    points: &[Point],
    num: &Numerics<R, H, A>,
) -> (r: F32)
    requires
        num.wf(),
    ensures
        r == diagonal(num.math(), points@),
{
    if points.len() == 0 {
        return F32 { bits: 0 };
    }
    let mut x0: F32 = points[0].x;
    let mut x1: F32 = points[0].x;
    let mut y0: F32 = points[0].y;
    let mut y1: F32 = points[0].y;
    let ghost ax = xs(points@);
    let ghost ay = ys(points@);
    let mut i: usize = 1;
    while i < points.len()
        invariant
            1 <= i <= points@.len(),
            ax == xs(points@),
            ay == ys(points@),
            x0 == least(ax.take(i as int)),
            x1 == most(ax.take(i as int)),
            y0 == least(ay.take(i as int)),
            y1 == most(ay.take(i as int)),
        decreases points@.len() - i,
    {
        let p: Point = points[i];
        assert(ax.take(i + 1).drop_last() =~= ax.take(i as int));
        assert(ay.take(i + 1).drop_last() =~= ay.take(i as int));
        if p.x.less(x0) || p.x.is_nan() {
            x0 = p.x;
        }
        if x1.less(p.x) || p.x.is_nan() {
            x1 = p.x;
        }
        if p.y.less(y0) || p.y.is_nan() {
            y0 = p.y;
        }
        if y1.less(p.y) || p.y.is_nan() {
            y1 = p.y;
        }
        i += 1;
    }
    assert(ax.take(i as int) =~= ax);
    assert(ay.take(i as int) =~= ay);
    num.length(x1.minus(x0), y1.minus(y0))
}

/// The first `k` lengths together.
pub open spec fn total_of(lengths: Seq<usize>, k: int) -> nat
    decreases k,
{
    if k <= 0 {
        0
    } else {
        total_of(lengths, k - 1) + lengths[k - 1] as nat
    }
}

/// One stroke of flat coordinates.
pub open spec fn slice_stroke(
    x: Seq<F64>,
    y: Seq<F64>,
    t: Option<Seq<F64>>,
    from: int,
    to: int,
) -> StrokeView {
    StrokeView {
        x: x.subrange(from, to),
        y: y.subrange(from, to),
        t: match t {
            Some(t) => t.subrange(from, to),
            None => Seq::empty(),
        },
        pen_up: false,
    }
}

fn part(v: &[F64], from: usize, to: usize) -> (r: Vec<F64>)
    requires
        from <= to <= v@.len(),
    ensures
        r@ == v@.subrange(from as int, to as int),
{
    vstd::slice::slice_to_vec(vstd::slice::slice_subrange(v, from, to))
}

proof fn lemma_total_grows(lengths: Seq<usize>, i: int, k: int)
    requires
        0 <= i <= k <= lengths.len(),
    ensures
        total_of(lengths, i) <= total_of(lengths, k),
    decreases k - i,
{
    if i < k {
        lemma_total_grows(lengths, i, k - 1);
    }
}

/// Cuts flat coordinates into strokes by their lengths, which must add up to the number
/// of points.
pub fn build_strokes(x: &[F64], y: &[F64], t: Option<&[F64]>, lengths: &[usize]) -> (r: Result<
    Vec<Stroke>,
    Error,
>)
    requires
        y@.len() == x@.len(),
        t is Some ==> t->0@.len() == x@.len(),
    ensures
        match r {
            Ok(strokes) => {
                &&& total_of(lengths@, lengths@.len() as int) == x@.len()
                &&& strokes_view(strokes@) == cut_strokes(
                    x@,
                    y@,
                    match t {
                        Some(t) => Some(t@),
                        None => None,
                    },
                    lengths@,
                )
            },
            Err(e) => {
                &&& total_of(lengths@, lengths@.len() as int) != x@.len()
                &&& e@ == ErrorView::Invalid(
                    "stroke lengths sum to "@ + dec(
                        total_of(lengths@, lengths@.len() as int),
                    ) + ", but "@ + dec(x@.len()) + " points were given"@,
                )
            },
        },
{
    let n: usize = lengths.len();
    let mut total: u128 = 0;
    let mut i: usize = 0;
    while i < n
        invariant
            i <= n,
            n == lengths@.len(),
            total == total_of(lengths@, i as int),
            total <= i * 0xffff_ffff_ffff_ffff,
        decreases n - i,
    {
        proof {
            assert((i + 1) * 0xffff_ffff_ffff_ffff <= 0xffff_ffff_ffff_ffff
                * 0xffff_ffff_ffff_ffff) by (nonlinear_arith)
                requires
                    i + 1 <= 0xffff_ffff_ffff_ffff,
            ;
        }
        total = total + lengths[i] as u128;
        i += 1;
    }
    if total != x.len() as u128 {
        let mut s: String = String::from_str("stroke lengths sum to ");
        push_dec_wide(&mut s, total);
        s.append(", but ");
        push_dec(&mut s, x.len() as u64);
        s.append(" points were given");
        return Err(Error::Invalid(s));
    }
    let mut out: Vec<Stroke> = Vec::new();
    let mut start: usize = 0;
    let mut k: usize = 0;
    let ghost times: Option<Seq<F64>> = match t {
        Some(t) => Some(t@),
        None => None,
    };
    while k < n
        invariant
            k <= n,
            n == lengths@.len(),
            y@.len() == x@.len(),
            t is Some ==> t->0@.len() == x@.len(),
            times == (match t {
                Some(t) => Some(t@),
                None => None::<Seq<F64>>,
            }),
            total_of(lengths@, n as int) == x@.len(),
            start == total_of(lengths@, k as int),
            out@.len() == k,
            forall|j: int|
                0 <= j < k ==> (#[trigger] out@[j])@ == slice_stroke(
                    x@,
                    y@,
                    times,
                    total_of(lengths@, j) as int,
                    total_of(lengths@, j + 1) as int,
                ),
        decreases n - k,
    {
        proof {
            lemma_total_grows(lengths@, k + 1, n as int);
        }
        let all: usize = x.len();
        let end: usize = start + lengths[k];
        let s: Stroke = Stroke {
            x: part(x, start, end),
            y: part(y, start, end),
            t: match t {
                Some(t) => part(t, start, end),
                None => Vec::new(),
            },
            pen_up: false,
        };
        assert(s@ =~= slice_stroke(x@, y@, times, start as int, end as int));
        out.push(s);
        start = end;
        k += 1;
    }
    assert(strokes_view(out@) =~= Seq::new(
        lengths@.len(),
        |k: int|
            slice_stroke(
                x@,
                y@,
                times,
                total_of(lengths@, k) as int,
                total_of(lengths@, k + 1) as int,
            ),
    ));
    Ok(out)
}

/// What the first `k` strokes hold of x, one after the other.
pub open spec fn joined_x(strokes: Seq<StrokeView>, k: int) -> Seq<F64>
    decreases k,
{
    if k <= 0 {
        Seq::empty()
    } else {
        joined_x(strokes, k - 1) + strokes[k - 1].x
    }
}

/// What the first `k` strokes hold of y, one after the other.
pub open spec fn joined_y(strokes: Seq<StrokeView>, k: int) -> Seq<F64>
    decreases k,
{
    if k <= 0 {
        Seq::empty()
    } else {
        joined_y(strokes, k - 1) + strokes[k - 1].y
    }
}

/// What the first `k` strokes hold of t, one after the other.
pub open spec fn joined_t(strokes: Seq<StrokeView>, k: int) -> Seq<F64>
    decreases k,
{
    if k <= 0 {
        Seq::empty()
    } else {
        joined_t(strokes, k - 1) + strokes[k - 1].t
    }
}

/// Strokes cut out of flat coordinates.
pub open spec fn cut_strokes(
    x: Seq<F64>,
    y: Seq<F64>,
    t: Option<Seq<F64>>,
    lengths: Seq<usize>,
) -> Seq<StrokeView> {
    Seq::new(
        lengths.len(),
        |k: int|
            slice_stroke(x, y, t, total_of(lengths, k) as int, total_of(lengths, k + 1) as int),
    )
}

/// Strokes that were cut out of flat coordinates hold them all, in order.
pub proof fn lemma_cut_joins(
    x: Seq<F64>,
    y: Seq<F64>,
    t: Seq<F64>,
    lengths: Seq<usize>,
    k: int,
)
    requires
        x.len() == total_of(lengths, lengths.len() as int),
        y.len() == x.len(),
        t.len() == x.len(),
        0 <= k <= lengths.len(),
    ensures
        ({
            let strokes = cut_strokes(x, y, Some(t), lengths);
            let end = total_of(lengths, k) as int;
            &&& joined_x(strokes, k) == x.take(end)
            &&& joined_y(strokes, k) == y.take(end)
            &&& joined_t(strokes, k) == t.take(end)
        }),
        ({
            let strokes = cut_strokes(x, y, None, lengths);
            let end = total_of(lengths, k) as int;
            &&& joined_x(strokes, k) == x.take(end)
            &&& joined_y(strokes, k) == y.take(end)
            &&& joined_t(strokes, k) == Seq::<F64>::empty()
        }),
        total_of(lengths, k) <= x.len(),
    decreases k,
{
    lemma_total_grows(lengths, k, lengths.len() as int);
    let timed = cut_strokes(x, y, Some(t), lengths);
    let untimed = cut_strokes(x, y, None, lengths);
    if k > 0 {
        lemma_cut_joins(x, y, t, lengths, k - 1);
        let from = total_of(lengths, k - 1) as int;
        let end = total_of(lengths, k) as int;
        assert(x.take(end) =~= x.take(from) + x.subrange(from, end));
        assert(y.take(end) =~= y.take(from) + y.subrange(from, end));
        assert(t.take(end) =~= t.take(from) + t.subrange(from, end));
        assert(joined_t(untimed, k) =~= Seq::<F64>::empty());
    } else {
        assert(joined_x(timed, k) =~= x.take(0));
        assert(joined_y(timed, k) =~= y.take(0));
        assert(joined_t(timed, k) =~= t.take(0));
        assert(joined_x(untimed, k) =~= x.take(0));
        assert(joined_y(untimed, k) =~= y.take(0));
    }
}

} // verus!
