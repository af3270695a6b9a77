//! The named preprocessing steps that a specification lists, and the driver that
//! applies them in order.
use vstd::prelude::*;

use crate::division::{lemma_difference_self, lemma_zero_over, lemma_zero_widened};
use crate::error::{Error, ErrorView};
use crate::float::{F32, F64, TOP32};
use crate::ink::{copy_numbers, copy_strokes, strokes_view, Stroke, StrokeView};
use crate::settings::{steps_view, PreprocessingStep, StepView};
use crate::text::{dec, push_dec, quoted, quoted_text};

verus! {

/// A timestamp from an origin, in binary32.
pub open spec fn since(origin: F32, t: F64) -> F64 {
    t.narrowed().difference(origin).widened()
}

/// Strokes with all timestamps from the first.
pub open spec fn time_normalized(strokes: Seq<StrokeView>) -> Seq<StrokeView> {
    if strokes.len() == 0 || strokes[0].t.len() == 0 {
        strokes
    } else {
        let origin = strokes[0].t[0].narrowed();
        strokes.map_values(
            |s: StrokeView| StrokeView { t: s.t.map_values(|t: F64| since(origin, t)), ..s },
        )
    }
}

fn times_since(t: &Vec<F64>, origin: F32) -> (r: Vec<F64>)
    ensures
        r@ == t@.map_values(|t: F64| since(origin, t)),
{
    let mut out: Vec<F64> = Vec::new();
    let mut i: usize = 0;
    while i < t.len()
        invariant
            i <= t@.len(),
            out@.len() == i,
            forall|k: int| 0 <= k < i ==> #[trigger] out@[k] == since(origin, t@[k]),
        decreases t@.len() - i,
    {
        out.push(t[i].narrow().minus(origin).widen());
        i += 1;
    }
    assert(out@ =~= t@.map_values(|t: F64| since(origin, t)));
    out
}

/// Subtracts the first stroke's first timestamp once, in binary32, across all
/// strokes. Time is neither scaled nor put in order.
pub fn normalize_time(strokes: &[Stroke]) -> (r: Vec<Stroke>)
    ensures
        strokes_view(r@) == time_normalized(strokes_view(strokes@)),
{
    if strokes.len() == 0 || strokes[0].t.len() == 0 {
        return copy_strokes(strokes);
    }
    let origin: F32 = strokes[0].t[0].narrow();
    let ghost wanted = time_normalized(strokes_view(strokes@));
    let mut out: Vec<Stroke> = Vec::new();
    let mut i: usize = 0;
    while i < strokes.len()
        invariant
            i <= strokes@.len(),
            strokes@.len() > 0,
            strokes@[0].t@.len() > 0,
            origin == strokes@[0].t@[0].narrowed(),
            wanted == time_normalized(strokes_view(strokes@)),
            out@.len() == i,
            forall|k: int| 0 <= k < i ==> (#[trigger] out@[k])@ == wanted[k],
        decreases strokes@.len() - i,
    {
        let s: &Stroke = &strokes[i];
        out.push(
            Stroke {
                x: copy_numbers(&s.x),
                y: copy_numbers(&s.y),
                t: times_since(&s.t, origin),
                pen_up: s.pen_up,
            },
        );
        assert(out@[i as int]@ == wanted[i as int]);
        i += 1;
    }
    assert(strokes_view(out@) =~= wanted);
    out
}

/// How many samples the first `k` strokes have.
pub open spec fn samples(strokes: Seq<StrokeView>, k: int) -> nat
    decreases k,
{
    if k <= 0 {
        0
    } else {
        samples(strokes, k - 1) + strokes[k - 1].x.len()
    }
}

/// Timestamps at a fixed interval from a sample on. The sample's number is rounded
/// to binary32, and the step is the rounded difference to the next.
pub open spec fn times_from(index: nat, len: nat, interval: F32) -> Seq<F64> {
    let start = F32::of_int(index as int);
    let step = F32::of_int(index as int + 1).difference(start);
    Seq::new(
        len,
        |i: int| start.sum(F32::of_int(i).product(step)).product(interval).widened(),
    )
}

/// Whether timestamps are to be regenerated.
pub open spec fn needs_times(strokes: Seq<StrokeView>, force: bool) -> bool {
    force || exists|i: int|
        0 <= i < strokes.len() && (#[trigger] strokes[i]).t.len() != strokes[i].x.len()
}

/// Strokes with timestamps for all their samples.
pub open spec fn time_filled(strokes: Seq<StrokeView>, interval: F32, force: bool) -> Seq<
    StrokeView,
> {
    if needs_times(strokes, force) {
        Seq::new(
            strokes.len(),
            |i: int|
                StrokeView {
                    t: times_from(samples(strokes, i), strokes[i].x.len(), interval),
                    ..strokes[i]
                },
        )
    } else {
        strokes
    }
}

/// Timestamps of samples from number `index` on, at a fixed interval.
pub fn hallucinated_times(index: u64, len: usize, interval: F32) -> (r: Vec<F64>)
    requires
        index + len < i64::MAX,
    ensures
        r@ == times_from(index as nat, len as nat, interval),
{
    let start: F32 = F32::from_int(index as i64);
    let step: F32 = F32::from_int(index as i64 + 1).minus(start);
    let mut out: Vec<F64> = Vec::new();
    let mut i: usize = 0;
    while i < len
        invariant
            i <= len,
            index + len < i64::MAX,
            start == F32::of_int(index as int),
            step == F32::of_int(index as int + 1).difference(start),
            out@.len() == i,
            forall|k: int|
                0 <= k < i ==> #[trigger] out@[k] == times_from(
                    index as nat,
                    len as nat,
                    interval,
                )[k],
        decreases len - i,
    {
        out.push(start.plus(F32::from_int(i as i64).times(step)).times(interval).widen());
        i += 1;
    }
    assert(out@ =~= times_from(index as nat, len as nat, interval));
    out
}

proof fn lemma_samples_grow(strokes: Seq<StrokeView>, i: int, k: int)
    requires
        0 <= i <= k <= strokes.len(),
    ensures
        samples(strokes, i) <= samples(strokes, k),
    decreases k - i,
{
    if i < k {
        lemma_samples_grow(strokes, i, k - 1);
    }
}

/// If any stroke's timestamp count mismatches its point count, regenerates all
/// timestamps at a global fixed step. Matching arrays are untouched even when times
/// are constant, decreasing or not finite.
pub fn hallucinate_time(strokes: &[Stroke], interval: F32, force: bool) -> (r: Vec<Stroke>)
    requires
        samples(strokes_view(strokes@), strokes@.len() as int) < i64::MAX,
    ensures
        strokes_view(r@) == time_filled(strokes_view(strokes@), interval, force),
{
    let ghost all = strokes_view(strokes@);
    if !force {
        let mut matching: bool = true;
        let mut i: usize = 0;
        while i < strokes.len() && matching
            invariant
                i <= strokes@.len(),
                all == strokes_view(strokes@),
                matching ==> forall|k: int|
                    0 <= k < i ==> (#[trigger] all[k]).t.len() == all[k].x.len(),
                !matching ==> exists|k: int|
                    0 <= k < all.len() && (#[trigger] all[k]).t.len() != all[k].x.len(),
            decreases strokes@.len() - i + (if matching { 1int } else { 0 }),
        {
            if strokes[i].t.len() != strokes[i].x.len() {
                assert(all[i as int].t.len() != all[i as int].x.len());
                matching = false;
            } else {
                i += 1;
            }
        }
        if matching {
            return copy_strokes(strokes);
        }
    }
    let mut out: Vec<Stroke> = Vec::new();
    let mut index: u64 = 0;
    let mut i: usize = 0;
    while i < strokes.len()
        invariant
            i <= strokes@.len(),
            all == strokes_view(strokes@),
            samples(all, strokes@.len() as int) < i64::MAX,
            needs_times(all, force),
            index == samples(all, i as int),
            out@.len() == i,
            forall|k: int|
                0 <= k < i ==> (#[trigger] out@[k])@ == time_filled(all, interval, force)[k],
        decreases strokes@.len() - i,
    {
        let s: &Stroke = &strokes[i];
        assert(s@ == all[i as int]);
        proof {
            lemma_samples_grow(all, i + 1, strokes@.len() as int);
        }
        out.push(
            Stroke {
                x: copy_numbers(&s.x),
                y: copy_numbers(&s.y),
                t: hallucinated_times(index, s.x.len(), interval),
                pen_up: s.pen_up,
            },
        );
        assert(out@[i as int]@ == time_filled(all, interval, force)[i as int]);
        index = index + s.x.len() as u64;
        i += 1;
    }
    assert(strokes_view(out@) =~= time_filled(all, interval, force));
    out
}

/// The x coordinates of the first `k` strokes.
pub open spec fn all_x(strokes: Seq<StrokeView>, k: int) -> Seq<F64>
    decreases k,
{
    if k <= 0 {
        Seq::empty()
    } else {
        all_x(strokes, k - 1) + strokes[k - 1].x
    }
}

/// The y coordinates of the first `k` strokes, but for those without an x.
pub open spec fn all_y(strokes: Seq<StrokeView>, k: int) -> Seq<F64>
    decreases k,
{
    if k <= 0 {
        Seq::empty()
    } else if strokes[k - 1].x.len() == 0 {
        all_y(strokes, k - 1)
    } else {
        all_y(strokes, k - 1) + strokes[k - 1].y
    }
}

/// The least of numbers, or infinity; what is no number takes over.
pub open spec fn lower_bound(v: Seq<F64>) -> F32
    decreases v.len(),
{
    if v.len() == 0 {
        F32 { bits: TOP32 }
    } else {
        let before = lower_bound(v.drop_last());
        let value = v.last().narrowed();
        if value.nan() || (!before.nan() && !before.below(value)) {
            value
        } else {
            before
        }
    }
}

/// The greatest of numbers, or negative infinity; what is no number takes over.
pub open spec fn upper_bound(v: Seq<F64>) -> F32
    decreases v.len(),
{
    if v.len() == 0 {
        F32 { bits: 0xff80_0000 }
    } else {
        let before = upper_bound(v.drop_last());
        let value = v.last().narrowed();
        if value.nan() || (!before.nan() && !value.below(before)) {
            value
        } else {
            before
        }
    }
}

/// Takes more numbers into a pair of bounds.
fn coordinate_bounds(
    min: F32,
    max: F32,
    values: &Vec<F64>,
    Ghost(before): Ghost<Seq<F64>>,
) -> (r: (F32, F32))
    requires
        min == lower_bound(before),
        max == upper_bound(before),
    ensures
        r.0 == lower_bound(before + values@),
        r.1 == upper_bound(before + values@),
{
    let mut low: F32 = min;
    let mut high: F32 = max;
    let mut i: usize = 0;
    assert(before + values@.take(0) =~= before);
    while i < values.len()
        invariant
            i <= values@.len(),
            low == lower_bound(before + values@.take(i as int)),
            high == upper_bound(before + values@.take(i as int)),
        decreases values@.len() - i,
    {
        let value: F32 = values[i].narrow();
        assert((before + values@.take(i + 1)).drop_last() =~= before + values@.take(i as int));
        if value.is_nan() || (!low.is_nan() && !low.less(value)) {
            low = value;
        }
        if value.is_nan() || (!high.is_nan() && !value.less(high)) {
            high = value;
        }
        i += 1;
    }
    assert(values@.take(i as int) =~= values@);
    (low, high)
}

/// The frame that coordinates are brought into: where it begins, and what it
/// measures.
#[derive(Debug, Clone, Copy, PartialEq)]
pub struct Frame {
    pub x0: F32,
    pub y0: F32,
    pub denominator: F32,
}

/// The frame of an ink: as high as the ink, or a hundredth of its width where
/// that is more, or one where both are next to nothing; and a margin on all sides.
pub open spec fn frame_of(
    x: Seq<F64>,
    y: Seq<F64>,
    first_x: F64,
    margin: F32,
    first_point_origin: bool,
) -> Frame {
    let (xmin, xmax) = (lower_bound(x), upper_bound(x));
    let (ymin, ymax) = (lower_bound(y), upper_bound(y));
    let tall = ymax.difference(ymin);
    let wide = xmax.difference(xmin).quotient(F32 { bits: 0x42c8_0000 });
    let extent = if tall.below(wide) {
        wide
    } else {
        tall
    };
    let height = if extent.below(F32 { bits: 0x3400_0000 }) {
        F32 { bits: 0x3f80_0000 }
    } else {
        extent
    };
    let edge = margin.product(height);
    Frame {
        x0: if first_point_origin {
            first_x.narrowed()
        } else {
            xmin.difference(edge)
        },
        y0: ymin.difference(edge),
        denominator: height.sum((F32 { bits: 0x4000_0000 }).product(edge)),
    }
}

fn frame(
    x: (F32, F32),
    y: (F32, F32),
    first_x: F64,
    margin: F32,
    first_point_origin: bool,
    Ghost(all_x): Ghost<Seq<F64>>,
    Ghost(all_y): Ghost<Seq<F64>>,
) -> (r: Frame)
    requires
        x.0 == lower_bound(all_x),
        x.1 == upper_bound(all_x),
        y.0 == lower_bound(all_y),
        y.1 == upper_bound(all_y),
    ensures
        r == frame_of(all_x, all_y, first_x, margin, first_point_origin),
{
    let mut height: F32 = y.1.minus(y.0);
    let wide: F32 = x.1.minus(x.0).over(F32 { bits: 0x42c8_0000 });
    if height.less(wide) {
        height = wide;
    }
    if height.less(F32 { bits: 0x3400_0000 }) {
        height = F32 { bits: 0x3f80_0000 };
    }
    let edge: F32 = margin.times(height);
    Frame {
        x0: if first_point_origin {
            first_x.narrow()
        } else {
            x.0.minus(edge)
        },
        y0: y.0.minus(edge),
        denominator: height.plus((F32 { bits: 0x4000_0000 }).times(edge)),
    }
}

/// A coordinate in a frame.
pub open spec fn framed(v: F64, origin: F32, denominator: F32) -> F64 {
    v.narrowed().difference(origin).quotient(denominator).widened()
}

fn frame_all(v: &Vec<F64>, origin: F32, denominator: F32) -> (r: Vec<F64>)
    ensures
        r@ == v@.map_values(|v: F64| framed(v, origin, denominator)),
{
    let mut out: Vec<F64> = Vec::new();
    let mut i: usize = 0;
    while i < v.len()
        invariant
            i <= v@.len(),
            out@.len() == i,
            forall|k: int| 0 <= k < i ==> #[trigger] out@[k] == framed(v@[k], origin, denominator),
        decreases v@.len() - i,
    {
        out.push(v[i].narrow().minus(origin).over(denominator).widen());
        i += 1;
    }
    assert(out@ =~= v@.map_values(|v: F64| framed(v, origin, denominator)));
    out
}

/// The first stroke with a sample.
pub open spec fn first_nonempty(strokes: Seq<StrokeView>, i: int) -> Option<int>
    decreases strokes.len() - i,
{
    if i < 0 || i >= strokes.len() {
        None
    } else if strokes[i].x.len() > 0 {
        Some(i)
    } else {
        first_nonempty(strokes, i + 1)
    }
}

/// Strokes in the frame of the ink.
pub open spec fn size_normalized(
    strokes: Seq<StrokeView>,
    margin: F32,
    first_point_origin: bool,
) -> Seq<StrokeView> {
    match first_nonempty(strokes, 0) {
        None => strokes,
        Some(first) => {
            let f = frame_of(
                all_x(strokes, strokes.len() as int),
                all_y(strokes, strokes.len() as int),
                strokes[first].x[0],
                margin,
                first_point_origin,
            );
            strokes.map_values(
                |s: StrokeView|
                    StrokeView {
                        x: s.x.map_values(|v: F64| framed(v, f.x0, f.denominator)),
                        y: s.y.map_values(|v: F64| framed(v, f.y0, f.denominator)),
                        ..s
                    },
            )
        },
    }
}

/// Brings x and y into a frame with the divisor `max(height, width / 100)`; a
/// division, not a multiplication by the reciprocal.
pub fn normalize_size(strokes: &[Stroke], margin: F32, first_point_origin: bool) -> (r: Vec<
    Stroke,
>)
    ensures
        strokes_view(r@) == size_normalized(strokes_view(strokes@), margin, first_point_origin),
{
    let ghost all = strokes_view(strokes@);
    let mut first: usize = 0;
    while first < strokes.len() && strokes[first].x.len() == 0
        invariant
            first <= strokes@.len(),
            all == strokes_view(strokes@),
            first_nonempty(all, 0) == first_nonempty(all, first as int),
        decreases strokes@.len() - first,
    {
        first += 1;
    }
    if first == strokes.len() {
        return copy_strokes(strokes);
    }
    assert(first_nonempty(all, 0) == Some(first as int));
    let mut x: (F32, F32) = (F32 { bits: TOP32 }, F32 { bits: 0xff80_0000 });
    let mut y: (F32, F32) = x;
    let mut i: usize = 0;
    while i < strokes.len()
        invariant
            i <= strokes@.len(),
            all == strokes_view(strokes@),
            x.0 == lower_bound(all_x(all, i as int)),
            x.1 == upper_bound(all_x(all, i as int)),
            y.0 == lower_bound(all_y(all, i as int)),
            y.1 == upper_bound(all_y(all, i as int)),
        decreases strokes@.len() - i,
    {
        let s: &Stroke = &strokes[i];
        assert(s@ == all[i as int]);
        x = coordinate_bounds(x.0, x.1, &s.x, Ghost(all_x(all, i as int)));
        if s.x.len() > 0 {
            y = coordinate_bounds(y.0, y.1, &s.y, Ghost(all_y(all, i as int)));
        }
        i += 1;
    }
    let f: Frame = frame(
        x,
        y,
        strokes[first].x[0],
        margin,
        first_point_origin,
        Ghost(all_x(all, all.len() as int)),
        Ghost(all_y(all, all.len() as int)),
    );
    let ghost wanted = size_normalized(all, margin, first_point_origin);
    let mut out: Vec<Stroke> = Vec::new();
    i = 0;
    while i < strokes.len()
        invariant
            i <= strokes@.len(),
            first < strokes@.len(),
            all == strokes_view(strokes@),
            first_nonempty(all, 0) == Some(first as int),
            f == frame_of(
                all_x(all, all.len() as int),
                all_y(all, all.len() as int),
                all[first as int].x[0],
                margin,
                first_point_origin,
            ),
            wanted == size_normalized(all, margin, first_point_origin),
            out@.len() == i,
            forall|k: int| 0 <= k < i ==> (#[trigger] out@[k])@ == wanted[k],
        decreases strokes@.len() - i,
    {
        let s: &Stroke = &strokes[i];
        assert(s@ == all[i as int]);
        out.push(
            Stroke {
                x: frame_all(&s.x, f.x0, f.denominator),
                y: frame_all(&s.y, f.y0, f.denominator),
                t: copy_numbers(&s.t),
                pen_up: s.pen_up,
            },
        );
        assert(out@[i as int]@ == wanted[i as int]);
        i += 1;
    }
    assert(strokes_view(out@) =~= wanted);
    out
}

/// A stroke that is drawn.
pub open spec fn pen_down(s: StrokeView) -> StrokeView {
    StrokeView { pen_up: false, ..s }
}

/// The stroke that leads from the end of one to the start of the next; with
/// timestamps where both have one there.
pub open spec fn bridge(a: StrokeView, b: StrokeView) -> StrokeView {
    StrokeView {
        x: seq![a.x.last(), b.x[0]],
        y: seq![a.y[a.x.len() - 1], b.y[0]],
        t: if a.t.len() > 0 && b.t.len() > 0 {
            seq![a.t.last(), b.t[0]]
        } else {
            Seq::empty()
        },
        pen_up: true,
    }
}

/// The strokes with samples.
pub open spec fn nonempty(strokes: Seq<StrokeView>) -> Seq<StrokeView>
    decreases strokes.len(),
{
    if strokes.len() == 0 {
        Seq::empty()
    } else {
        let before = nonempty(strokes.drop_last());
        if strokes.last().x.len() > 0 {
            before.push(strokes.last())
        } else {
            before
        }
    }
}

/// Strokes with a bridge between each two.
pub open spec fn bridged(drawn: Seq<StrokeView>) -> Seq<StrokeView>
    decreases drawn.len(),
{
    if drawn.len() == 0 {
        Seq::empty()
    } else if drawn.len() == 1 {
        seq![pen_down(drawn[0])]
    } else {
        bridged(drawn.drop_last()).push(bridge(drawn[drawn.len() - 2], drawn.last())).push(
            pen_down(drawn.last()),
        )
    }
}

/// Every stroke has an x and a y for each sample.
pub open spec fn all_placed(strokes: Seq<StrokeView>) -> bool {
    forall|i: int| 0 <= i < strokes.len() ==> (#[trigger] strokes[i]).placed()
}

fn bridge_stroke(a: &Stroke, b: &Stroke) -> (r: Stroke)
    requires
        a@.placed(),
        b@.placed(),
        a@.x.len() > 0,
        b@.x.len() > 0,
    ensures
        r@ == bridge(a@, b@),
{
    let last: usize = a.x.len() - 1;
    let mut x: Vec<F64> = Vec::new();
    x.push(a.x[last]);
    x.push(b.x[0]);
    let mut y: Vec<F64> = Vec::new();
    y.push(a.y[last]);
    y.push(b.y[0]);
    let mut t: Vec<F64> = Vec::new();
    if a.t.len() > 0 && b.t.len() > 0 {
        t.push(a.t[a.t.len() - 1]);
        t.push(b.t[0]);
    }
    let r: Stroke = Stroke { x, y, t, pen_up: true };
    assert(r@ =~= bridge(a@, b@));
    r
}

/// Inserts synthetic strokes bridging each stroke's end to the next one's start.
/// Empty strokes are removed and all retained input strokes become pen-down.
/// Coordinate lengths must agree; [`run`] validates this for pipeline callers.
pub fn add_pen_up_strokes(strokes: &[Stroke]) -> (r: Vec<Stroke>)
    requires
        all_placed(strokes_view(strokes@)),
    ensures
        strokes_view(r@) == bridged(nonempty(strokes_view(strokes@))),
{
    let ghost all = strokes_view(strokes@);
    let mut out: Vec<Stroke> = Vec::new();
    let mut previous: Option<usize> = None;
    let mut i: usize = 0;
    assert(strokes_view(out@) =~= bridged(nonempty(all.take(0))));
    while i < strokes.len()
        invariant
            i <= strokes@.len(),
            all == strokes_view(strokes@),
            all_placed(all),
            strokes_view(out@) == bridged(nonempty(all.take(i as int))),
            match previous {
                None => nonempty(all.take(i as int)).len() == 0,
                Some(p) => {
                    &&& p < i
                    &&& all[p as int].x.len() > 0
                    &&& nonempty(all.take(i as int)).len() > 0
                    &&& nonempty(all.take(i as int)).last() == all[p as int]
                },
            },
        decreases strokes@.len() - i,
    {
        let s: &Stroke = &strokes[i];
        assert(s@ == all[i as int]);
        let ghost drawn = nonempty(all.take(i as int));
        let ghost before = strokes_view(out@);
        proof {
            assert(all.take(i + 1).drop_last() =~= all.take(i as int));
            assert(all[i as int].placed());
        }
        if s.x.len() > 0 {
            proof {
                assert(nonempty(all.take(i + 1)) == drawn.push(all[i as int]));
                assert(drawn.push(all[i as int]).drop_last() =~= drawn);
            }
            if let Some(p) = previous {
                assert(strokes@[p as int]@ == all[p as int]);
                assert(all[p as int].placed());
                out.push(bridge_stroke(&strokes[p], s));
            }
            let mut down: Stroke = s.clone();
            down.pen_up = false;
            assert(down@ =~= pen_down(s@));
            out.push(down);
            proof {
                let longer = drawn.push(all[i as int]);
                if previous is Some {
                    assert(longer[longer.len() - 2] == drawn.last());
                    assert(strokes_view(out@) =~= before.push(
                        bridge(drawn.last(), all[i as int]),
                    ).push(pen_down(all[i as int])));
                } else {
                    assert(longer =~= seq![all[i as int]]);
                    assert(before =~= Seq::empty());
                    assert(strokes_view(out@) =~= seq![pen_down(all[i as int])]);
                }
            }
            previous = Some(i);
        }
        i += 1;
    }
    assert(all.take(i as int) =~= all);
    out
}

/// What one step makes of strokes.
pub open spec fn step_result(strokes: Seq<StrokeView>, step: StepView) -> Result<
    Seq<StrokeView>,
    ErrorView,
> {
    match step {
        StepView::NormalizeTime => Ok(time_normalized(strokes)),
        StepView::HallucinateTime { interval, force } => if samples(strokes, strokes.len() as int)
            < i64::MAX {
            Ok(time_filled(strokes, interval, force))
        } else {
            Err(ErrorView::Invalid("too many samples"@))
        },
        StepView::NormalizeSize { margin, first_point_origin } => Ok(
            size_normalized(strokes, margin, first_point_origin),
        ),
        StepView::NormalizeSizeWritingGuideFirstStroke { margin, first_point_origin } => Ok(
            size_normalized(strokes, margin, first_point_origin),
        ),
        StepView::AddPenUpStrokes => Ok(bridged(nonempty(strokes))),
        StepView::Unsupported { field, name } => Err(
            ErrorView::Unsupported(
                "preprocessing step "@ + quoted_text(name) + " (field "@ + dec(field as nat)
                    + ")"@,
            ),
        ),
    }
}

/// What steps make of strokes, one after the other.
pub open spec fn steps_result(strokes: Seq<StrokeView>, steps: Seq<StepView>) -> Result<
    Seq<StrokeView>,
    ErrorView,
>
    decreases steps.len(),
{
    if steps.len() == 0 {
        Ok(strokes)
    } else {
        match steps_result(strokes, steps.drop_last()) {
            Err(e) => Err(e),
            Ok(before) => step_result(before, steps.last()),
        }
    }
}

/// The first stroke from `i` on whose coordinates do not agree.
pub open spec fn first_misplaced(strokes: Seq<StrokeView>, i: int) -> Option<int>
    decreases strokes.len() - i,
{
    if i < 0 || i >= strokes.len() {
        None
    } else if !strokes[i].placed() {
        Some(i)
    } else {
        first_misplaced(strokes, i + 1)
    }
}

/// What a pipeline makes of strokes.
pub open spec fn run_result(strokes: Seq<StrokeView>, steps: Seq<StepView>) -> Result<
    Seq<StrokeView>,
    ErrorView,
> {
    match first_misplaced(strokes, 0) {
        Some(i) => Err(
            ErrorView::Invalid(
                "stroke "@ + dec(i as nat) + ": x/y lengths differ ("@ + dec(strokes[i].x.len())
                    + " vs "@ + dec(strokes[i].y.len()) + ")"@,
            ),
        ),
        None => steps_result(strokes, steps),
    }
}

proof fn lemma_nonempty_placed(strokes: Seq<StrokeView>)
    requires
        all_placed(strokes),
    ensures
        all_placed(nonempty(strokes)),
        forall|i: int|
            0 <= i < nonempty(strokes).len() ==> (#[trigger] nonempty(strokes)[i]).x.len() > 0,
    decreases strokes.len(),
{
    if strokes.len() > 0 {
        assert(all_placed(strokes.drop_last())) by {
            assert forall|i: int| 0 <= i < strokes.drop_last().len() implies (
            #[trigger] strokes.drop_last()[i]).placed() by {
                assert(strokes[i].placed());
            }
        }
        lemma_nonempty_placed(strokes.drop_last());
        assert(strokes[strokes.len() - 1].placed());
    }
}

/// With bridges, strokes and bridges alternate: each stroke drawn, each bridge
/// not, in the order of the strokes.
pub proof fn lemma_bridged(drawn: Seq<StrokeView>)
    ensures
        drawn.len() == 0 ==> bridged(drawn).len() == 0,
        drawn.len() > 0 ==> bridged(drawn).len() == 2 * drawn.len() - 1,
        forall|k: int|
            0 <= k < drawn.len() ==> #[trigger] bridged(drawn)[2 * k] == pen_down(drawn[k]),
        forall|k: int|
            0 <= k < drawn.len() - 1 ==> #[trigger] bridged(drawn)[2 * k + 1] == bridge(
                drawn[k],
                drawn[k + 1],
            ),
    decreases drawn.len(),
{
    if drawn.len() > 1 {
        let rest = drawn.drop_last();
        lemma_bridged(rest);
        let out = bridged(drawn);
        assert forall|k: int| 0 <= k < drawn.len() implies #[trigger] out[2 * k] == pen_down(
            drawn[k],
        ) by {
            if k < rest.len() {
                assert(bridged(rest)[2 * k] == pen_down(rest[k]));
            }
        }
        assert forall|k: int| 0 <= k < drawn.len() - 1 implies #[trigger] out[2 * k + 1] == bridge(
            drawn[k],
            drawn[k + 1],
        ) by {
            if k < rest.len() - 1 {
                assert(bridged(rest)[2 * k + 1] == bridge(rest[k], rest[k + 1]));
            }
        }
    }
}

proof fn lemma_bridged_stroke(drawn: Seq<StrokeView>, i: int) -> (k: int)
    requires
        0 <= i < bridged(drawn).len(),
    ensures
        0 <= k < drawn.len(),
        i == 2 * k || (i == 2 * k + 1 && k < drawn.len() - 1),
        i == 2 * k ==> bridged(drawn)[i] == pen_down(drawn[k]),
        i == 2 * k + 1 ==> bridged(drawn)[i] == bridge(drawn[k], drawn[k + 1]),
{
    lemma_bridged(drawn);
    let k = i / 2;
    if i == 2 * k {
        assert(bridged(drawn)[2 * k] == pen_down(drawn[k]));
    } else {
        assert(bridged(drawn)[2 * k + 1] == bridge(drawn[k], drawn[k + 1]));
    }
    k
}

/// Every step keeps coordinate lengths in agreement.
pub proof fn lemma_step_placed(strokes: Seq<StrokeView>, step: StepView)
    requires
        all_placed(strokes),
    ensures
        step_result(strokes, step) is Ok ==> all_placed(step_result(strokes, step)->Ok_0),
{
    if let Ok(out) = step_result(strokes, step) {
        assert forall|i: int| 0 <= i < out.len() implies (#[trigger] out[i]).placed() by {
            if step == StepView::AddPenUpStrokes {
                let drawn = nonempty(strokes);
                lemma_nonempty_placed(strokes);
                let k = lemma_bridged_stroke(drawn, i);
                assert(drawn[k].placed());
            } else {
                assert(strokes[i].placed());
            }
        }
    }
}

/// A pipeline keeps coordinate lengths in agreement.
pub proof fn lemma_run_placed(strokes: Seq<StrokeView>, steps: Seq<StepView>)
    requires
        all_placed(strokes),
    ensures
        steps_result(strokes, steps) is Ok ==> all_placed(steps_result(strokes, steps)->Ok_0),
    decreases steps.len(),
{
    if steps.len() > 0 {
        lemma_run_placed(strokes, steps.drop_last());
        if let Ok(before) = steps_result(strokes, steps.drop_last()) {
            lemma_step_placed(before, steps.last());
        }
    }
}

/// Every stroke has three coordinates for each sample.
pub open spec fn all_timed(strokes: Seq<StrokeView>) -> bool {
    forall|i: int| 0 <= i < strokes.len() ==> (#[trigger] strokes[i]).timed()
}

/// Filling in times gives every sample one, and every later step keeps it so.
pub proof fn lemma_step_timed(strokes: Seq<StrokeView>, step: StepView)
    requires
        all_placed(strokes),
        step is HallucinateTime || all_timed(strokes),
    ensures
        step_result(strokes, step) is Ok ==> all_timed(step_result(strokes, step)->Ok_0),
{
    if let Ok(out) = step_result(strokes, step) {
        assert forall|i: int| 0 <= i < out.len() implies (#[trigger] out[i]).timed() by {
            if step == StepView::AddPenUpStrokes {
                let drawn = nonempty(strokes);
                lemma_nonempty_timed(strokes);
                let k = lemma_bridged_stroke(drawn, i);
                assert(drawn[k].timed());
                if i == 2 * k + 1 {
                    assert(drawn[k + 1].timed());
                    assert(drawn[k].x.len() > 0 && drawn[k + 1].x.len() > 0);
                }
            } else {
                assert(strokes[i].placed());
                if all_timed(strokes) {
                    assert(strokes[i].timed());
                }
            }
        }
    }
}

proof fn lemma_nonempty_timed(strokes: Seq<StrokeView>)
    requires
        all_timed(strokes),
    ensures
        all_timed(nonempty(strokes)),
        forall|i: int|
            0 <= i < nonempty(strokes).len() ==> (#[trigger] nonempty(strokes)[i]).x.len() > 0,
    decreases strokes.len(),
{
    if strokes.len() > 0 {
        assert(all_timed(strokes.drop_last())) by {
            assert forall|i: int| 0 <= i < strokes.drop_last().len() implies (
            #[trigger] strokes.drop_last()[i]).timed() by {
                assert(strokes[i].timed());
            }
        }
        lemma_nonempty_timed(strokes.drop_last());
        assert(strokes[strokes.len() - 1].timed());
    }
}

/// A pipeline with a step that fills in times leaves every sample with one.
pub proof fn lemma_run_timed(strokes: Seq<StrokeView>, steps: Seq<StepView>, k: int)
    requires
        all_placed(strokes),
        0 <= k < steps.len(),
        steps[k] is HallucinateTime,
    ensures
        steps_result(strokes, steps) is Ok ==> all_timed(steps_result(strokes, steps)->Ok_0),
    decreases steps.len(),
{
    let rest = steps.drop_last();
    lemma_run_placed(strokes, rest);
    if k < rest.len() {
        lemma_run_timed(strokes, rest, k);
    }
    if let Ok(before) = steps_result(strokes, rest) {
        lemma_step_timed(before, steps.last());
    }
}

fn count_samples(strokes: &[Stroke]) -> (r: bool)
    ensures
        r == (samples(strokes_view(strokes@), strokes@.len() as int) < i64::MAX),
{
    let ghost all = strokes_view(strokes@);
    let mut total: u64 = 0;
    let mut i: usize = 0;
    while i < strokes.len()
        invariant
            i <= strokes@.len(),
            all == strokes_view(strokes@),
            total == samples(all, i as int),
            total < i64::MAX,
        decreases strokes@.len() - i,
    {
        let n: u64 = strokes[i].x.len() as u64;
        proof {
            lemma_samples_grow(all, i + 1, strokes@.len() as int);
            assert(samples(all, i + 1) == samples(all, i as int) + n);
        }
        if n >= 0x7fff_ffff_ffff_ffff - total {
            return false;
        }
        total = total + n;
        i += 1;
    }
    true
}

fn misplaced(index: usize, stroke: &Stroke) -> (r: Error)
    ensures
        r@ == ErrorView::Invalid(
            "stroke "@ + dec(index as nat) + ": x/y lengths differ ("@ + dec(stroke@.x.len())
                + " vs "@ + dec(stroke@.y.len()) + ")"@,
        ),
{
    let mut s: String = String::from_str("stroke ");
    push_dec(&mut s, index as u64);
    s.append(": x/y lengths differ (");
    push_dec(&mut s, stroke.x.len() as u64);
    s.append(" vs ");
    push_dec(&mut s, stroke.y.len() as u64);
    s.append(")");
    Error::Invalid(s)
}

fn apply(strokes: &Vec<Stroke>, step: &PreprocessingStep) -> (r: Result<Vec<Stroke>, Error>)
    requires
        all_placed(strokes_view(strokes@)),
    ensures
        match (r, step_result(strokes_view(strokes@), step@)) {
            (Ok(out), Ok(wanted)) => strokes_view(out@) == wanted,
            (Err(e), Err(g)) => e@ == g,
            _ => false,
        },
{
    match step {
        PreprocessingStep::NormalizeTime => Ok(normalize_time(strokes.as_slice())),
        PreprocessingStep::HallucinateTime { interval, force } => {
            if !count_samples(strokes.as_slice()) {
                return Err(crate::error::invalid("too many samples"));
            }
            Ok(hallucinate_time(strokes.as_slice(), *interval, *force))
        },
        PreprocessingStep::NormalizeSize { margin, first_point_origin } => Ok(
            normalize_size(strokes.as_slice(), *margin, *first_point_origin),
        ),
        PreprocessingStep::NormalizeSizeWritingGuideFirstStroke {
            margin,
            first_point_origin,
        } => Ok(normalize_size(strokes.as_slice(), *margin, *first_point_origin)),
        PreprocessingStep::AddPenUpStrokes => Ok(add_pen_up_strokes(strokes.as_slice())),
        PreprocessingStep::Unsupported { field, name } => {
            let mut s: String = String::from_str("preprocessing step ");
            s.append(quoted(name.as_str()).as_str());
            s.append(" (field ");
            push_dec(&mut s, *field as u64);
            s.append(")");
            Err(Error::Unsupported(s))
        },
    }
}

/// Applies an ordered pipeline, rejecting mismatched x/y lengths but preserving
/// timestamp mismatches until a step that fills in times handles them.
pub fn run(strokes: &[Stroke], steps: &[PreprocessingStep]) -> (r: Result<Vec<Stroke>, Error>)
    ensures
        match (r, run_result(strokes_view(strokes@), steps_view(steps@))) {
            (Ok(out), Ok(wanted)) => strokes_view(out@) == wanted,
            (Err(e), Err(g)) => e@ == g,
            _ => false,
        },
{
    let ghost all = strokes_view(strokes@);
    let ghost plan = steps_view(steps@);
    let mut i: usize = 0;
    while i < strokes.len()
        invariant
            i <= strokes@.len(),
            all == strokes_view(strokes@),
            plan == steps_view(steps@),
            first_misplaced(all, 0) == first_misplaced(all, i as int),
            forall|k: int| 0 <= k < i ==> (#[trigger] all[k]).placed(),
        decreases strokes@.len() - i,
    {
        assert(strokes@[i as int]@ == all[i as int]);
        if strokes[i].x.len() != strokes[i].y.len() {
            return Err(misplaced(i, &strokes[i]));
        }
        i += 1;
    }
    let mut out: Vec<Stroke> = copy_strokes(strokes);
    let mut k: usize = 0;
    assert(plan.take(0) =~= Seq::empty());
    while k < steps.len()
        invariant
            k <= steps@.len(),
            all == strokes_view(strokes@),
            plan == steps_view(steps@),
            all_placed(all),
            first_misplaced(all, 0) is None,
            steps_result(all, plan.take(k as int)) == Ok::<Seq<StrokeView>, ErrorView>(
                strokes_view(out@),
            ),
        decreases steps@.len() - k,
    {
        proof {
            lemma_run_placed(all, plan.take(k as int));
            assert(plan.take(k + 1).drop_last() =~= plan.take(k as int));
            assert(plan.take(k + 1).last() == steps@[k as int]@);
        }
        match apply(&out, &steps[k]) {
            Ok(next) => {
                out = next;
            },
            Err(e) => {
                proof {
                    lemma_steps_failed(all, plan, k + 1);
                }
                return Err(e);
            },
        }
        k += 1;
    }
    assert(plan.take(k as int) =~= plan);
    Ok(out)
}

proof fn lemma_steps_failed(strokes: Seq<StrokeView>, steps: Seq<StepView>, k: int)
    requires
        0 <= k <= steps.len(),
        steps_result(strokes, steps.take(k)) is Err,
    ensures
        steps_result(strokes, steps) == steps_result(strokes, steps.take(k)),
    decreases steps.len() - k,
{
    if k < steps.len() {
        assert(steps.take(k + 1).drop_last() =~= steps.take(k));
        lemma_steps_failed(strokes, steps, k + 1);
    } else {
        assert(steps.take(k) =~= steps);
    }
}

/// After [`normalize_time`] the first timestamp is zero, if it was a number that
/// binary32 holds.
pub proof fn lemma_time_from_zero(strokes: Seq<StrokeView>)
    requires
        strokes.len() > 0,
        strokes[0].t.len() > 0,
        strokes[0].t[0].narrowed().finite(),
    ensures
        time_normalized(strokes)[0].t[0] == (F64 { bits: 0 }),
{
    let origin = strokes[0].t[0].narrowed();
    lemma_difference_self(origin);
    lemma_zero_widened(F32 { bits: 0 });
    let r = since(origin, strokes[0].t[0]);
    assert(r.index() == 0 && !r.negative());
    assert(time_normalized(strokes)[0].t[0] == r);
}

/// With the first point as its origin, [`normalize_size`] puts the first sample's x at
/// zero, if it was a number that binary32 holds and the frame has a size.
pub proof fn lemma_first_point_origin(strokes: Seq<StrokeView>, margin: F32)
    requires
        first_nonempty(strokes, 0) is Some,
        ({
            let first = first_nonempty(strokes, 0)->0;
            let f = frame_of(
                all_x(strokes, strokes.len() as int),
                all_y(strokes, strokes.len() as int),
                strokes[first].x[0],
                margin,
                true,
            );
            &&& strokes[first].x[0].narrowed().finite()
            &&& !f.denominator.nan()
            &&& f.denominator.index() > 0
        }),
    ensures
        ({
            let first = first_nonempty(strokes, 0)->0;
            size_normalized(strokes, margin, true)[first].x[0].index() == 0
        }),
{
    lemma_first_nonempty(strokes, 0);
    let first = first_nonempty(strokes, 0)->0;
    let f = frame_of(
        all_x(strokes, strokes.len() as int),
        all_y(strokes, strokes.len() as int),
        strokes[first].x[0],
        margin,
        true,
    );
    lemma_difference_self(f.x0);
    lemma_zero_over(f.denominator);
    lemma_zero_widened((F32 { bits: 0 }).quotient(f.denominator));
    assert(size_normalized(strokes, margin, true)[first].x[0] == framed(
        strokes[first].x[0],
        f.x0,
        f.denominator,
    ));
}

proof fn lemma_first_nonempty(strokes: Seq<StrokeView>, i: int)
    requires
        0 <= i,
        first_nonempty(strokes, i) is Some,
    ensures
        0 <= first_nonempty(strokes, i)->0 < strokes.len(),
        strokes[first_nonempty(strokes, i)->0].x.len() > 0,
    decreases strokes.len() - i,
{
    if i < strokes.len() && strokes[i].x.len() == 0 {
        lemma_first_nonempty(strokes, i + 1);
    }
}

/// Without a writing guide, normalizing by it is normalizing by the ink.
pub proof fn lemma_guide_is_size(
    strokes: Seq<StrokeView>,
    margin: F32,
    first_point_origin: bool,
)
    ensures
        step_result(
            strokes,
            StepView::NormalizeSizeWritingGuideFirstStroke { margin, first_point_origin },
        ) == step_result(strokes, StepView::NormalizeSize { margin, first_point_origin }),
{
}

} // verus!
