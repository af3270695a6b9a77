//! Where the rows of [`crate::features`] come from: which curve of which stroke each
//! row tells of, and what it tells of the pen and of time.
use vstd::prelude::*;

use crate::curve::{
    curve_count, points_of, segments_of, segments_of_all, time_scaled, Rules, SegmentsView,
};
use crate::features::{
    all_rows, curve_rows, encoded, extracted, features_of, raw_features, stroke_rows, width_of,
};
use crate::fit::{fitted, Cubic, Omega};
use crate::float::{F32, F64};
use crate::ink::{Point, StrokeView};
use crate::numerics::GeoMath;
use crate::preprocess::run_result;
use crate::settings::{CurveSettings, StepView};

verus! {

/// The first feature of a curve is one where it was drawn with the pen down and zero
/// where it bridges two strokes, and that is all that a row has of the pen: the rows
/// of a drawn and of a bridging curve of one shape differ in it and nowhere else.
pub proof fn lemma_pen_is_first(m: GeoMath, omega: Omega, cfg: CurveSettings)
    ensures
        features_of(m, omega, false, cfg).len() == width_of(cfg),
        features_of(m, omega, false, cfg)[0] == (F32 { bits: 0x3f80_0000 }),
        features_of(m, omega, true, cfg) == features_of(m, omega, false, cfg).update(
            0,
            F32 { bits: 0 },
        ),
{
    let drawn = features_of(m, omega, false, cfg);
    let bridge = features_of(m, omega, true, cfg);
    assert(raw_features(m, omega, true, cfg) =~= raw_features(m, omega, false, cfg).update(
        0,
        F32 { bits: 0 },
    ));
    assert(bridge =~= drawn.update(0, F32 { bits: 0 }));
}

/// A curve's row does not tell when the curve began: one that lies elsewhere in time
/// has the same row.
pub proof fn lemma_no_clock(m: GeoMath, omega: Omega, begin: F64, pen_up: bool, cfg: CurveSettings)
    ensures
        features_of(
            m,
            Omega { t: Cubic { c0: begin, ..omega.t }, ..omega },
            pen_up,
            cfg,
        ) == features_of(m, omega, pen_up, cfg),
{
}

/// Rows without time are the first seven features of those with it.
pub proof fn lemma_time_is_last(m: GeoMath, omega: Omega, pen_up: bool, cfg: CurveSettings)
    ensures
        features_of(m, omega, pen_up, CurveSettings { interpolate_time: false, ..cfg })
            == features_of(
            m,
            omega,
            pen_up,
            CurveSettings { interpolate_time: true, ..cfg },
        ).take(7),
{
    let short = features_of(m, omega, pen_up, CurveSettings { interpolate_time: false, ..cfg });
    let long = features_of(m, omega, pen_up, CurveSettings { interpolate_time: true, ..cfg });
    assert(short =~= long.take(7));
}

/// The points of a stroke that a structure keeps, with time as the curves measure it.
pub open spec fn kept_points(m: GeoMath, stroke: StrokeView, s: SegmentsView) -> Seq<Point> {
    time_scaled(m, s.kept.map_values(|i: usize| points_of(stroke)[i as int]))
}

/// A row of numbers, `width` to the row.
pub open spec fn row_of(data: Seq<F32>, width: nat, i: int) -> Seq<F32> {
    data.subrange(i * width, (i + 1) * width)
}

proof fn lemma_row_span(rows: nat, width: nat, i: int)
    requires
        0 <= i < rows,
    ensures
        0 <= i * width,
        i * width <= (i + 1) * width,
        (i + 1) * width <= rows * width,
        (i + 1) * width == i * width + width,
{
    assert(0 <= i * width) by (nonlinear_arith)
        requires
            0 <= i,
    ;
    assert((i + 1) * width == i * width + width) by (nonlinear_arith);
    assert((i + 1) * width <= rows * width) by (nonlinear_arith)
        requires
            i + 1 <= rows,
    ;
}

/// The features of the curve between two points.
#[verifier::opaque]
pub open spec fn span_features(
    m: GeoMath,
    cfg: CurveSettings,
    points: Seq<Point>,
    span: (usize, usize),
    pen_up: bool,
) -> Seq<F32> {
    features_of(m, fitted(m, points.subrange(span.0 as int, span.1 + 1)).omega, pen_up, cfg)
}

proof fn lemma_rows_grow(
    m: GeoMath,
    cfg: CurveSettings,
    index: nat,
    points: Seq<Point>,
    s: SegmentsView,
    n: nat,
)
    requires
        n > 0,
        curve_rows(m, cfg, index, points, s, n) is Ok,
    ensures
        curve_rows(m, cfg, index, points, s, (n - 1) as nat) is Ok,
        curve_rows(m, cfg, index, points, s, n)->Ok_0 == curve_rows(
            m,
            cfg,
            index,
            points,
            s,
            (n - 1) as nat,
        )->Ok_0 + span_features(m, cfg, points, s.curves[n - 1], s.pen_up),
        span_features(m, cfg, points, s.curves[n - 1], s.pen_up).len() == width_of(cfg),
{
    reveal(span_features);
    let omega = fitted(
        m,
        points.subrange(s.curves[n - 1].0 as int, s.curves[n - 1].1 + 1),
    ).omega;
    lemma_pen_is_first(m, omega, cfg);
}

proof fn lemma_curve_rows_long(
    m: GeoMath,
    cfg: CurveSettings,
    index: nat,
    points: Seq<Point>,
    s: SegmentsView,
    n: nat,
)
    requires
        curve_rows(m, cfg, index, points, s, n) is Ok,
    ensures
        curve_rows(m, cfg, index, points, s, n)->Ok_0.len() == n * width_of(cfg),
    decreases n,
{
    let width = width_of(cfg);
    if n > 0 {
        lemma_rows_grow(m, cfg, index, points, s, n);
        lemma_curve_rows_long(m, cfg, index, points, s, (n - 1) as nat);
        lemma_row_span(n, width, n - 1);
    } else {
        assert(0 * width == 0) by (nonlinear_arith);
    }
}

proof fn lemma_curve_row(
    m: GeoMath,
    cfg: CurveSettings,
    index: nat,
    points: Seq<Point>,
    s: SegmentsView,
    n: nat,
    c: int,
)
    requires
        curve_rows(m, cfg, index, points, s, n) is Ok,
        0 <= c < n,
    ensures
        row_of(curve_rows(m, cfg, index, points, s, n)->Ok_0, width_of(cfg), c) == span_features(
            m,
            cfg,
            points,
            s.curves[c],
            s.pen_up,
        ),
    decreases n,
{
    let width = width_of(cfg);
    lemma_rows_grow(m, cfg, index, points, s, n);
    lemma_curve_rows_long(m, cfg, index, points, s, (n - 1) as nat);
    let before = curve_rows(m, cfg, index, points, s, (n - 1) as nat)->Ok_0;
    let data = curve_rows(m, cfg, index, points, s, n)->Ok_0;
    let last = span_features(m, cfg, points, s.curves[n - 1], s.pen_up);
    lemma_row_span(n, width, n - 1);
    if c < n - 1 {
        lemma_curve_row(m, cfg, index, points, s, (n - 1) as nat, c);
        lemma_row_span((n - 1) as nat, width, c);
        assert(row_of(data, width, c) =~= row_of(before, width, c));
    } else {
        assert(row_of(data, width, c) =~= last);
    }
}

proof fn lemma_count_drop(seg: Seq<SegmentsView>, k: int)
    requires
        0 < k <= seg.len(),
    ensures
        curve_count(seg.take(k)) == curve_count(seg.take(k - 1)) + seg[k - 1].curves.len(),
{
    assert(seg.take(k).drop_last() =~= seg.take(k - 1));
}

proof fn lemma_stroke_rows(
    m: GeoMath,
    cfg: CurveSettings,
    index: nat,
    stroke: StrokeView,
    s: SegmentsView,
)
    requires
        stroke_rows(m, cfg, index, stroke, s) is Ok,
    ensures
        stroke_rows(m, cfg, index, stroke, s) == curve_rows(
            m,
            cfg,
            index,
            kept_points(m, stroke, s),
            s,
            s.curves.len(),
        ),
        stroke_rows(m, cfg, index, stroke, s)->Ok_0.len() == s.curves.len() * width_of(cfg),
{
    let raw = points_of(stroke);
    assert(s.kept.map_values(|i: usize| points_of(stroke)[i as int]) =~= s.kept.map_values(
        |i: usize| raw[i as int],
    ));
    lemma_curve_rows_long(m, cfg, index, kept_points(m, stroke, s), s, s.curves.len());
}

proof fn lemma_all_rows_long(
    m: GeoMath,
    cfg: CurveSettings,
    strokes: Seq<StrokeView>,
    seg: Seq<SegmentsView>,
    n: nat,
)
    requires
        n <= strokes.len(),
        strokes.len() == seg.len(),
        all_rows(m, cfg, strokes, seg, n) is Ok,
    ensures
        all_rows(m, cfg, strokes, seg, n)->Ok_0.len() == curve_count(seg.take(n as int))
            * width_of(cfg),
    decreases n,
{
    let width = width_of(cfg);
    if n == 0 {
        assert(seg.take(0) =~= Seq::empty());
        assert(0 * width == 0) by (nonlinear_arith);
    } else {
        lemma_all_rows_long(m, cfg, strokes, seg, (n - 1) as nat);
        lemma_count_drop(seg, n as int);
        lemma_stroke_rows(m, cfg, (n - 1) as nat, strokes[n - 1], seg[n - 1]);
        let base = curve_count(seg.take(n - 1));
        let count = seg[n - 1].curves.len();
        assert((base + count) * width == base * width + count * width) by (nonlinear_arith);
    }
}

proof fn lemma_all_grow(
    m: GeoMath,
    cfg: CurveSettings,
    strokes: Seq<StrokeView>,
    seg: Seq<SegmentsView>,
    n: nat,
) -> (r: (Seq<F32>, Seq<F32>))
    requires
        0 < n <= strokes.len(),
        strokes.len() == seg.len(),
        all_rows(m, cfg, strokes, seg, n) is Ok,
    ensures
        all_rows(m, cfg, strokes, seg, (n - 1) as nat) is Ok,
        r.0 == all_rows(m, cfg, strokes, seg, (n - 1) as nat)->Ok_0,
        all_rows(m, cfg, strokes, seg, n)->Ok_0 == r.0 + r.1,
        r.1.len() == seg[n - 1].curves.len() * width_of(cfg),
        curve_rows(
            m,
            cfg,
            (n - 1) as nat,
            kept_points(m, strokes[n - 1], seg[n - 1]),
            seg[n - 1],
            seg[n - 1].curves.len(),
        ) == Ok::<Seq<F32>, crate::error::ErrorView>(r.1),
{
    lemma_stroke_rows(m, cfg, (n - 1) as nat, strokes[n - 1], seg[n - 1]);
    (
        all_rows(m, cfg, strokes, seg, (n - 1) as nat)->Ok_0,
        stroke_rows(m, cfg, (n - 1) as nat, strokes[n - 1], seg[n - 1])->Ok_0,
    )
}

proof fn lemma_row_joined(a: Seq<F32>, b: Seq<F32>, n: nat, m: nat, width: nat, i: int)
    requires
        a.len() == n * width,
        b.len() == m * width,
        0 <= i < n + m,
    ensures
        row_of(a + b, width, i) == (if i < n {
            row_of(a, width, i)
        } else {
            row_of(b, width, i - n)
        }),
{
    if i < n {
        lemma_row_span(n, width, i);
        assert(row_of(a + b, width, i) =~= row_of(a, width, i));
    } else {
        lemma_row_span(m, width, i - n);
        assert(i * width == n * width + (i - n) * width) by (nonlinear_arith);
        assert((i + 1) * width == n * width + (i - n + 1) * width) by (nonlinear_arith);
        assert(row_of(a + b, width, i) =~= row_of(b, width, i - n));
    }
}

proof fn lemma_all_row(
    m: GeoMath,
    cfg: CurveSettings,
    strokes: Seq<StrokeView>,
    seg: Seq<SegmentsView>,
    n: nat,
    k: int,
    c: int,
)
    requires
        n <= strokes.len(),
        strokes.len() == seg.len(),
        all_rows(m, cfg, strokes, seg, n) is Ok,
        0 <= k < n,
        0 <= c < seg[k].curves.len(),
    ensures
        curve_count(seg.take(k)) + c < curve_count(seg.take(n as int)),
        row_of(
            all_rows(m, cfg, strokes, seg, n)->Ok_0,
            width_of(cfg),
            curve_count(seg.take(k)) + c,
        ) == span_features(
            m,
            cfg,
            kept_points(m, strokes[k], seg[k]),
            seg[k].curves[c],
            seg[k].pen_up,
        ),
    decreases n,
{
    let p = (n - 1) as nat;
    let (before, rows) = lemma_all_grow(m, cfg, strokes, seg, n);
    lemma_all_rows_long(m, cfg, strokes, seg, p);
    lemma_count_drop(seg, n as int);
    let base = curve_count(seg.take(n - 1));
    let count = seg[n - 1].curves.len();
    let at = curve_count(seg.take(k)) + c;
    if k < n - 1 {
        lemma_all_row(m, cfg, strokes, seg, p, k, c);
    } else {
        lemma_curve_row(m, cfg, p, kept_points(m, strokes[k], seg[k]), seg[k], count, c);
    }
    lemma_row_joined(before, rows, base, count, width_of(cfg), at);
}

/// Every curve of every stroke has one row, stroke by stroke, and the row tells of
/// that curve: its features are those of the cubic fitted to the points of its own
/// stroke between its own ends.
pub proof fn lemma_row_is_curve(
    m: GeoMath,
    cfg: CurveSettings,
    strokes: Seq<StrokeView>,
    seg: Seq<SegmentsView>,
    k: int,
    c: int,
)
    requires
        encoded(m, cfg, strokes, seg) is Ok,
        0 <= k < seg.len(),
        0 <= c < seg[k].curves.len(),
    ensures
        ({
            let out = encoded(m, cfg, strokes, seg)->Ok_0;
            let at = curve_count(seg.take(k)) + c;
            &&& out.data.len() == out.rows * out.cols
            &&& at < out.rows
            &&& row_of(out.data, out.cols, at) == features_of(
                m,
                fitted(
                    m,
                    kept_points(m, strokes[k], seg[k]).subrange(
                        seg[k].curves[c].0 as int,
                        seg[k].curves[c].1 + 1,
                    ),
                ).omega,
                seg[k].pen_up,
                cfg,
            )
        }),
{
    lemma_all_rows_long(m, cfg, strokes, seg, strokes.len());
    lemma_all_row(m, cfg, strokes, seg, strokes.len(), k, c);
    assert(seg.take(seg.len() as int) =~= seg);
    reveal(span_features);
}

/// The first number of a curve's row is one where its stroke was drawn with the pen
/// down and zero where its stroke is a bridge.
pub proof fn lemma_row_tells_pen(
    m: GeoMath,
    cfg: CurveSettings,
    strokes: Seq<StrokeView>,
    seg: Seq<SegmentsView>,
    k: int,
    c: int,
)
    requires
        encoded(m, cfg, strokes, seg) is Ok,
        0 <= k < seg.len(),
        0 <= c < seg[k].curves.len(),
    ensures
        ({
            let out = encoded(m, cfg, strokes, seg)->Ok_0;
            let at = curve_count(seg.take(k)) + c;
            &&& 0 <= at * out.cols < out.data.len()
            &&& out.data[at * out.cols] == (if seg[k].pen_up {
                F32 { bits: 0 }
            } else {
                F32 { bits: 0x3f80_0000 }
            })
        }),
{
    lemma_row_is_curve(m, cfg, strokes, seg, k, c);
    let out = encoded(m, cfg, strokes, seg)->Ok_0;
    let at = curve_count(seg.take(k)) + c;
    lemma_row_span(out.rows, out.cols, at);
    let omega = fitted(
        m,
        kept_points(m, strokes[k], seg[k]).subrange(
            seg[k].curves[c].0 as int,
            seg[k].curves[c].1 + 1,
        ),
    ).omega;
    lemma_pen_is_first(m, omega, cfg);
    assert(row_of(out.data, out.cols, at)[0] == out.data[at * out.cols]);
}

/// In the features of raw ink the first number of every row tells the pen of the
/// preprocessed stroke that the row's curve belongs to.
pub proof fn lemma_ink_tells_pen(
    m: GeoMath,
    cfg: CurveSettings,
    strokes: Seq<StrokeView>,
    steps: Seq<StepView>,
    k: int,
    c: int,
)
    requires
        strokes.len() > 0,
        extracted(m, cfg, strokes, steps) is Ok,
        0 <= k < run_result(strokes, steps)->Ok_0.len(),
        0 <= c < segments_of(
            Rules { m, cfg },
            run_result(strokes, steps)->Ok_0[k],
        ).curves.len(),
    ensures
        ({
            let out = extracted(m, cfg, strokes, steps)->Ok_0;
            let done = run_result(strokes, steps)->Ok_0;
            let at = curve_count(segments_of_all(Rules { m, cfg }, done).take(k)) + c;
            &&& 0 <= at * out.cols < out.data.len()
            &&& out.data[at * out.cols] == (if done[k].pen_up {
                F32 { bits: 0 }
            } else {
                F32 { bits: 0x3f80_0000 }
            })
        }),
{
    let done = run_result(strokes, steps)->Ok_0;
    let seg = segments_of_all(Rules { m, cfg }, done);
    assert(seg[k] == segments_of(Rules { m, cfg }, done[k]));
    lemma_row_tells_pen(m, cfg, done, seg, k, c);
}

} // verus!
