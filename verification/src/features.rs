//! The Bezier features of curves, in the layout that the encoder uses:
//!
//! ```text
//! (pen_down, dx, dy, a1, d1, a2, d2, dt, start_time_leg, end_time_leg)
//! ```
//!
//! Angles are signed radians, ratios use the fixed corresponding endpoint, and the
//! time features are computed straight from the power-basis coefficients, so that
//! they never cancel against the absolute timestamp.
use vstd::prelude::*;

use crate::curve::{
    curve_count, first_untimed, leads, lemma_lead_on, lemma_segments_fit, malformed,
    normalize_curve_time, points_of, segment, segments_of, segments_of_all, stroke_points,
    time_scaled, Rules, Segmentation, SegmentsView, StrokeSegments,
};
use crate::error::{unsupported, Error, ErrorView};
use crate::fit::{control_of, control_points_f32, fit_cubic, fitted, Control, Omega};
use crate::float::{F32, F64};
use crate::ink::{strokes_view, Point, Stroke, StrokeView};
use crate::mat::{Mat, MatView};
use crate::numerics::{GeoMath, Numerics};
use crate::preprocess::{run, run_result};
use crate::settings::{steps_view, CurveSettings, PreprocessingStep, StepView};
use crate::text::{dec, push_dec};

verus! {

/// How many features a curve has.
pub open spec fn width_of(cfg: CurveSettings) -> nat {
    if cfg.interpolate_time {
        10
    } else {
        7
    }
}

/// A number within zero and one.
pub open spec fn unit_clamped(x: F32) -> F32 {
    if x.below(F32 { bits: 0 }) {
        F32 { bits: 0 }
    } else if (F32 { bits: 0x3f80_0000 }).below(x) {
        F32 { bits: 0x3f80_0000 }
    } else {
        x
    }
}

fn clamp_unit(x: F32) -> (r: F32)
    ensures
        r == unit_clamped(x),
{
    if x.less(F32 { bits: 0 }) {
        F32 { bits: 0 }
    } else if (F32 { bits: 0x3f80_0000 }).less(x) {
        F32 { bits: 0x3f80_0000 }
    } else {
        x
    }
}

/// A feature brought into zero and one: offsets and times from minus one and one,
/// angles from a full turn, ratios cut off.
pub open spec fn squashed(i: int, x: F32) -> F32 {
    let one = F32 { bits: 0x3f80_0000 };
    let two = F32 { bits: 0x4000_0000 };
    let pi = F32 { bits: 0x4049_0fdb };
    if i == 0 {
        x
    } else if i == 3 || i == 5 {
        unit_clamped(x.sum(pi).quotient(two.product(pi)))
    } else if i == 4 || i == 6 {
        unit_clamped(x)
    } else {
        unit_clamped(x.sum(one).quotient(two))
    }
}

fn squash(i: usize, x: F32) -> (r: F32)
    ensures
        r == squashed(i as int, x),
{
    let one: F32 = F32 { bits: 0x3f80_0000 };
    let two: F32 = F32 { bits: 0x4000_0000 };
    let pi: F32 = F32 { bits: 0x4049_0fdb };
    if i == 0 {
        x
    } else if i == 3 || i == 5 {
        clamp_unit(x.plus(pi).over(two.times(pi)))
    } else if i == 4 || i == 6 {
        clamp_unit(x)
    } else {
        clamp_unit(x.plus(one).over(two))
    }
}

/// A leg's length over the chord's; zero without a chord.
pub open spec fn leg_ratio(m: GeoMath, x: F32, y: F32, chord: F32) -> F32 {
    if (F32 { bits: 0 }).below(chord) {
        m.length(x, y).quotient(chord)
    } else {
        F32 { bits: 0 }
    }
}

/// The features of a curve, as they come. The second angle is measured from the
/// reversed chord.
pub open spec fn raw_features(
    m: GeoMath,
    omega: Omega,
    pen_up: bool,
    cfg: CurveSettings,
) -> Seq<F32> {
    let (x, y) = (control_of(omega.x), control_of(omega.y));
    let (dx, dy) = (x.p3.difference(x.p0), y.p3.difference(y.p0));
    let (vx, vy) = (x.p1.difference(x.p0), y.p1.difference(y.p0));
    let (wx, wy) = (x.p2.difference(x.p3), y.p2.difference(y.p3));
    let chord = m.length(dx, dy);
    let a1 = (m.atan2)(
        dx.product(vy).difference(dy.product(vx)),
        dx.product(vx).sum(dy.product(vy)),
    );
    let a2 = (m.atan2)(
        dy.product(wx).difference(dx.product(wy)),
        dx.opposite().product(wx).difference(dy.product(wy)),
    );
    let three = F32 { bits: 0x4040_0000 };
    let (g1, g2, g3) = (
        omega.t.c1.narrowed(),
        omega.t.c2.narrowed(),
        omega.t.c3.narrowed(),
    );
    let shape = seq![
        if pen_up {
            F32 { bits: 0 }
        } else {
            F32 { bits: 0x3f80_0000 }
        },
        dx,
        dy,
        a1,
        leg_ratio(m, vx, vy, chord),
        a2,
        leg_ratio(m, wx, wy, chord),
    ];
    if cfg.interpolate_time {
        shape + seq![
            g1.sum(g2).sum(g3),
            g1.quotient(three),
            g1.opposite().quotient(three).difference(
                (F32 { bits: 0x4000_0000 }).product(g2).quotient(three),
            ).difference(g3),
        ]
    } else {
        shape
    }
}

/// The features of a curve.
pub open spec fn features_of(
    m: GeoMath,
    omega: Omega,
    pen_up: bool,
    cfg: CurveSettings,
) -> Seq<F32> {
    let raw = raw_features(m, omega, pen_up, cfg);
    if cfg.normalize_outputs_to_zero_one {
        Seq::new(raw.len(), |i: int| squashed(i, raw[i]))
    } else {
        raw
    }
}

fn ratio<R: Fn(F64) -> F64, H: Fn(F32, F32) -> F32, A: Fn(F32, F32) -> F32>(
    x: F32,
    y: F32,
    chord: F32,
    num: &Numerics<R, H, A>,
) -> (r: F32)
    requires
        num.wf(),
    ensures
        r == leg_ratio(num.math(), x, y, chord),
{
    if (F32 { bits: 0 }).less(chord) {
        num.length(x, y).over(chord)
    } else {
        F32 { bits: 0 }
    }
}

/// One curve to its feature row.
pub fn curve_features<R: Fn(F64) -> F64, H: Fn(F32, F32) -> F32, A: Fn(F32, F32) -> F32>(
    omega: &Omega,
    pen_up: bool,
    cfg: &CurveSettings,
    num: &Numerics<R, H, A>,
) -> (r: Vec<F32>)
    requires
        num.wf(),
    ensures
        r@ == features_of(num.math(), *omega, pen_up, *cfg),
        r@.len() == width_of(*cfg),
{
    let ghost m = num.math();
    let x: Control = control_points_f32(omega.x);
    let y: Control = control_points_f32(omega.y);
    let dx: F32 = x.p3.minus(x.p0);
    let dy: F32 = y.p3.minus(y.p0);
    let vx: F32 = x.p1.minus(x.p0);
    let vy: F32 = y.p1.minus(y.p0);
    let wx: F32 = x.p2.minus(x.p3);
    let wy: F32 = y.p2.minus(y.p3);
    let chord: F32 = num.length(dx, dy);
    let a1: F32 = num.atan2(dx.times(vy).minus(dy.times(vx)), dx.times(vx).plus(dy.times(vy)));
    let a2: F32 = num.atan2(
        dy.times(wx).minus(dx.times(wy)),
        dx.negated().times(wx).minus(dy.times(wy)),
    );
    let mut raw: Vec<F32> = Vec::new();
    raw.push(
        if pen_up {
            F32 { bits: 0 }
        } else {
            F32 { bits: 0x3f80_0000 }
        },
    );
    raw.push(dx);
    raw.push(dy);
    raw.push(a1);
    raw.push(ratio(vx, vy, chord, num));
    raw.push(a2);
    raw.push(ratio(wx, wy, chord, num));
    if cfg.interpolate_time {
        let three: F32 = F32 { bits: 0x4040_0000 };
        let g1: F32 = omega.t.c1.narrow();
        let g2: F32 = omega.t.c2.narrow();
        let g3: F32 = omega.t.c3.narrow();
        raw.push(g1.plus(g2).plus(g3));
        raw.push(g1.over(three));
        raw.push(
            g1.negated().over(three).minus((F32 { bits: 0x4000_0000 }).times(g2).over(three)).minus(
                g3,
            ),
        );
    }
    assert(raw@ =~= raw_features(m, *omega, pen_up, *cfg));
    if !cfg.normalize_outputs_to_zero_one {
        return raw;
    }
    let mut out: Vec<F32> = Vec::new();
    let mut i: usize = 0;
    while i < raw.len()
        invariant
            i <= raw@.len(),
            out@.len() == i,
            forall|k: int| 0 <= k < i ==> #[trigger] out@[k] == squashed(k, raw@[k]),
        decreases raw@.len() - i,
    {
        out.push(squash(i, raw[i]));
        i += 1;
    }
    assert(out@ =~= features_of(m, *omega, pen_up, *cfg));
    out
}

/// The first kept index from `k` on that is no sample.
pub open spec fn first_outside(kept: Seq<usize>, samples: nat, k: int) -> Option<usize>
    decreases kept.len() - k,
{
    if k < 0 || k >= kept.len() {
        None
    } else if kept[k] >= samples {
        Some(kept[k])
    } else {
        first_outside(kept, samples, k + 1)
    }
}

/// Whether indices rise.
pub open spec fn rises(kept: Seq<usize>) -> bool {
    forall|k: int| 0 <= k < kept.len() - 1 ==> (#[trigger] kept[k]) < kept[k + 1]
}

/// The rows of the first `n` curves of a stroke, one after the other.
pub open spec fn curve_rows(
    m: GeoMath,
    cfg: CurveSettings,
    index: nat,
    points: Seq<Point>,
    s: SegmentsView,
    n: nat,
) -> Result<Seq<F32>, ErrorView>
    decreases n,
{
    if n == 0 {
        Ok(Seq::empty())
    } else {
        match curve_rows(m, cfg, index, points, s, (n - 1) as nat) {
            Err(e) => Err(e),
            Ok(before) => {
                let (start, end) = s.curves[n - 1];
                if start <= end && end < points.len() {
                    let fit = fitted(m, points.subrange(start as int, end + 1));
                    Ok(before + features_of(m, fit.omega, s.pen_up, cfg))
                } else {
                    Err(
                        ErrorView::Invalid(
                            "stroke "@ + dec(index) + ": invalid inclusive curve range ("@ + dec(
                                start as nat,
                            ) + ", "@ + dec(end as nat) + ") for "@ + dec(points.len())
                                + " retained points"@,
                        ),
                    )
                }
            },
        }
    }
}

/// The rows of a stroke with a given structure. Only the structure is given:
/// coordinates, times and coefficients are computed anew.
pub open spec fn stroke_rows(
    m: GeoMath,
    cfg: CurveSettings,
    index: nat,
    stroke: StrokeView,
    s: SegmentsView,
) -> Result<Seq<F32>, ErrorView> {
    let raw = points_of(stroke);
    if !stroke.timed() {
        Err(malformed(stroke, index))
    } else if first_outside(s.kept, raw.len(), 0) is Some {
        Err(
            ErrorView::Invalid(
                "stroke "@ + dec(index) + ": kept index "@ + dec(
                    first_outside(s.kept, raw.len(), 0)->0 as nat,
                ) + " outside "@ + dec(raw.len()) + " samples"@,
            ),
        )
    } else if !rises(s.kept) {
        Err(
            ErrorView::Invalid(
                "stroke "@ + dec(index) + ": kept indices must increase strictly"@,
            ),
        )
    } else {
        curve_rows(
            m,
            cfg,
            index,
            time_scaled(m, s.kept.map_values(|i: usize| raw[i as int])),
            s,
            s.curves.len(),
        )
    }
}

/// The rows of the first `k` strokes.
pub open spec fn all_rows(
    m: GeoMath,
    cfg: CurveSettings,
    strokes: Seq<StrokeView>,
    seg: Seq<SegmentsView>,
    k: nat,
) -> Result<Seq<F32>, ErrorView>
    decreases k,
{
    if k == 0 {
        Ok(Seq::empty())
    } else {
        match all_rows(m, cfg, strokes, seg, (k - 1) as nat) {
            Err(e) => Err(e),
            Ok(before) => match stroke_rows(
                m,
                cfg,
                (k - 1) as nat,
                strokes[k - 1],
                seg[k - 1],
            ) {
                Err(e) => Err(e),
                Ok(rows) => Ok(before + rows),
            },
        }
    }
}

/// The features of strokes with a given structure.
pub open spec fn encoded(
    m: GeoMath,
    cfg: CurveSettings,
    strokes: Seq<StrokeView>,
    seg: Seq<SegmentsView>,
) -> Result<MatView, ErrorView> {
    if !cfg.use_angles_ratios {
        Err(ErrorView::Unsupported("only angles/ratios curve features are implemented"@))
    } else if cfg.generate_second_order_features {
        Err(ErrorView::Unsupported("second-order curve features are not implemented"@))
    } else if strokes.len() != seg.len() {
        Err(
            ErrorView::Invalid(
                "segmentation has "@ + dec(seg.len()) + " strokes for "@ + dec(strokes.len())
                    + " input strokes"@,
            ),
        )
    } else if curve_count(seg) * width_of(cfg) > usize::MAX {
        Err(ErrorView::Invalid("too many curves"@))
    } else {
        match all_rows(m, cfg, strokes, seg, strokes.len()) {
            Err(e) => Err(e),
            Ok(data) => Ok(MatView { rows: curve_count(seg), cols: width_of(cfg), data }),
        }
    }
}

fn stroke_label(index: usize) -> (r: String)
    ensures
        r@ == "stroke "@ + dec(index as nat),
{
    let mut s: String = String::from_str("stroke ");
    push_dec(&mut s, index as u64);
    s
}

fn check_kept(kept: &Vec<usize>, samples: usize, index: usize) -> (r: Result<(), Error>)
    ensures
        match first_outside(kept@, samples as nat, 0) {
            Some(i) => r is Err && r->Err_0@ == ErrorView::Invalid(
                "stroke "@ + dec(index as nat) + ": kept index "@ + dec(i as nat) + " outside "@
                    + dec(samples as nat) + " samples"@,
            ),
            None => match r {
                Ok(_) => rises(kept@) && forall|k: int|
                    0 <= k < kept@.len() ==> (#[trigger] kept@[k]) < samples,
                Err(e) => !rises(kept@) && e@ == ErrorView::Invalid(
                    "stroke "@ + dec(index as nat) + ": kept indices must increase strictly"@,
                ),
            },
        },
{
    let mut k: usize = 0;
    while k < kept.len()
        invariant
            k <= kept@.len(),
            first_outside(kept@, samples as nat, 0) == first_outside(
                kept@,
                samples as nat,
                k as int,
            ),
            forall|j: int| 0 <= j < k ==> (#[trigger] kept@[j]) < samples,
        decreases kept@.len() - k,
    {
        if kept[k] >= samples {
            let mut s: String = stroke_label(index);
            s.append(": kept index ");
            push_dec(&mut s, kept[k] as u64);
            s.append(" outside ");
            push_dec(&mut s, samples as u64);
            s.append(" samples");
            return Err(Error::Invalid(s));
        }
        k += 1;
    }
    let mut j: usize = 1;
    while j < kept.len()
        invariant
            1 <= j,
            j <= kept@.len() || j == 1,
            first_outside(kept@, samples as nat, 0) is None,
            forall|i: int| 0 <= i < j - 1 && i < kept@.len() - 1 ==> (#[trigger] kept@[i])
                < kept@[i + 1],
        decreases kept@.len() - j,
    {
        if kept[j - 1] >= kept[j] {
            proof {
                let i = j - 1;
                assert(!(kept@[i] < kept@[i + 1]));
            }
            let mut s: String = stroke_label(index);
            s.append(": kept indices must increase strictly");
            return Err(Error::Invalid(s));
        }
        j += 1;
    }
    Ok(())
}

fn encode_curves<R: Fn(F64) -> F64, H: Fn(F32, F32) -> F32, A: Fn(F32, F32) -> F32>(
    cfg: &CurveSettings,
    index: usize,
    points: &Vec<Point>,
    structure: &StrokeSegments,
    num: &Numerics<R, H, A>,
) -> (r: Result<Vec<F32>, Error>)
    requires
        num.wf(),
    ensures
        match (
            r,
            curve_rows(
                num.math(),
                *cfg,
                index as nat,
                points@,
                structure@,
                structure@.curves.len(),
            ),
        ) {
            (Ok(out), Ok(wanted)) => out@ == wanted && out@.len() == structure@.curves.len()
                * width_of(*cfg),
            (Err(e), Err(g)) => e@ == g,
            _ => false,
        },
{
    let ghost m = num.math();
    let mut out: Vec<F32> = Vec::new();
    let mut k: usize = 0;
    assert(0 * width_of(*cfg) == 0) by (nonlinear_arith);
    while k < structure.curves.len()
        invariant
            k <= structure.curves@.len(),
            num.wf(),
            m == num.math(),
            curve_rows(m, *cfg, index as nat, points@, structure@, k as nat) == Ok::<
                Seq<F32>,
                ErrorView,
            >(out@),
            out@.len() == k * width_of(*cfg),
        decreases structure.curves@.len() - k,
    {
        let (start, end) = structure.curves[k];
        if !(start <= end && end < points.len()) {
            let mut s: String = stroke_label(index);
            s.append(": invalid inclusive curve range (");
            push_dec(&mut s, start as u64);
            s.append(", ");
            push_dec(&mut s, end as u64);
            s.append(") for ");
            push_dec(&mut s, points.len() as u64);
            s.append(" retained points");
            proof {
                lemma_rows_failed(
                    m,
                    *cfg,
                    index as nat,
                    points@,
                    structure@,
                    (k + 1) as nat,
                    structure@.curves.len(),
                );
            }
            return Err(Error::Invalid(s));
        }
        let run: Vec<Point> = vstd::slice::slice_to_vec(
            vstd::slice::slice_subrange(points.as_slice(), start, end + 1),
        );
        let (omega, _, _) = fit_cubic(&run, num);
        let mut row: Vec<F32> = curve_features(&omega, structure.pen_up, cfg, num);
        let ghost before = out@;
        let ghost added = row@;
        out.append(&mut row);
        proof {
            assert(out@ =~= before + added);
            assert((k + 1) * width_of(*cfg) == k * width_of(*cfg) + width_of(*cfg))
                by (nonlinear_arith);
        }
        k += 1;
    }
    Ok(out)
}

proof fn lemma_rows_failed(
    m: GeoMath,
    cfg: CurveSettings,
    index: nat,
    points: Seq<Point>,
    s: SegmentsView,
    k: nat,
    n: nat,
)
    requires
        k <= n,
        curve_rows(m, cfg, index, points, s, k) is Err,
    ensures
        curve_rows(m, cfg, index, points, s, n) == curve_rows(m, cfg, index, points, s, k),
    decreases n,
{
    if k < n {
        lemma_rows_failed(m, cfg, index, points, s, k, (n - 1) as nat);
    }
}

fn encode_stroke<R: Fn(F64) -> F64, H: Fn(F32, F32) -> F32, A: Fn(F32, F32) -> F32>(
    cfg: &CurveSettings,
    index: usize,
    stroke: &Stroke,
    structure: &StrokeSegments,
    num: &Numerics<R, H, A>,
) -> (r: Result<Vec<F32>, Error>)
    requires
        num.wf(),
    ensures
        match (r, stroke_rows(num.math(), *cfg, index as nat, stroke@, structure@)) {
            (Ok(out), Ok(wanted)) => out@ == wanted && out@.len() == structure@.curves.len()
                * width_of(*cfg),
            (Err(e), Err(g)) => e@ == g,
            _ => false,
        },
{
    let raw: Vec<Point> = stroke_points(stroke, index)?;
    check_kept(&structure.kept, raw.len(), index)?;
    let mut points: Vec<Point> = crate::curve::pick_points(&raw, &structure.kept);
    normalize_curve_time(points.as_mut_slice(), num);
    encode_curves(cfg, index, &points, structure, num)
}

/// How many curves a structure has, where rows of that many features fit.
fn fitting_curves(seg: &Segmentation, width: usize) -> (r: Option<usize>)
    requires
        0 < width <= 10,
    ensures
        match r {
            Some(n) => n == curve_count(seg@) && n * width <= usize::MAX,
            None => curve_count(seg@) * width > usize::MAX,
        },
{
    let mut total: usize = 0;
    let mut i: usize = 0;
    assert(seg@.take(0) =~= Seq::empty());
    assert(0 * width == 0) by (nonlinear_arith);
    while i < seg.strokes.len()
        invariant
            i <= seg.strokes@.len(),
            0 < width <= 10,
            total == curve_count(seg@.take(i as int)),
            total * width <= usize::MAX,
        decreases seg.strokes@.len() - i,
    {
        let n: usize = seg.strokes[i].curves.len();
        proof {
            assert(seg@.take(i + 1).drop_last() =~= seg@.take(i as int));
            assert(seg@.take(i + 1).last() == seg.strokes@[i as int]@);
            crate::curve::lemma_curve_count_grows(seg@, i + 1);
        }
        let most: usize = usize::MAX / width;
        if total > most || n > most - total {
            proof {
                let c = curve_count(seg@) as int;
                assert(c * width > usize::MAX) by (nonlinear_arith)
                    requires
                        c >= total + n,
                        total + n > most,
                        most == usize::MAX / width,
                        0 < width,
                ;
            }
            return None;
        }
        total = total + n;
        proof {
            assert(total * width <= usize::MAX) by (nonlinear_arith)
                requires
                    0 <= total <= most,
                    most == usize::MAX / width,
                    0 < width,
            ;
        }
        i += 1;
    }
    assert(seg@.take(i as int) =~= seg@);
    Some(total)
}

/// Preprocessed strokes plus a fixed segmentation to `[T, num_features]`.
#[verifier::rlimit(60)]
pub fn encode<R: Fn(F64) -> F64, H: Fn(F32, F32) -> F32, A: Fn(F32, F32) -> F32>(
    strokes: &[Stroke],
    seg: &Segmentation,
    cfg: &CurveSettings,
    num: &Numerics<R, H, A>,
) -> (r: Result<Mat, Error>)
    requires
        num.wf(),
    ensures
        match (r, encoded(num.math(), *cfg, strokes_view(strokes@), seg@)) {
            (Ok(out), Ok(wanted)) => out@ == wanted && out@.wf(),
            (Err(e), Err(g)) => e@ == g,
            _ => false,
        },
{
    let ghost m = num.math();
    let ghost all = strokes_view(strokes@);
    if !cfg.use_angles_ratios {
        return Err(unsupported("only angles/ratios curve features are implemented"));
    }
    if cfg.generate_second_order_features {
        return Err(unsupported("second-order curve features are not implemented"));
    }
    if strokes.len() != seg.strokes.len() {
        return Err(
            Error::Invalid(
                crate::error::text_with2(
                    "segmentation has ",
                    seg.strokes.len() as u64,
                    " strokes for ",
                    strokes.len() as u64,
                    " input strokes",
                ),
            ),
        );
    }
    let width: usize = cfg.num_features();
    let rows: usize = match fitting_curves(seg, width) {
        Some(rows) => rows,
        None => {
            return Err(crate::error::invalid("too many curves"));
        },
    };
    let mut data: Vec<F32> = Vec::new();
    let mut k: usize = 0;
    assert(seg@.take(0) =~= Seq::empty());
    assert(0 * width == 0) by (nonlinear_arith);
    while k < strokes.len()
        invariant
            k <= strokes@.len(),
            strokes@.len() == seg.strokes@.len(),
            num.wf(),
            m == num.math(),
            all == strokes_view(strokes@),
            width == width_of(*cfg),
            cfg.use_angles_ratios,
            !cfg.generate_second_order_features,
            curve_count(seg@) * width <= usize::MAX,
            all_rows(m, *cfg, all, seg@, k as nat) == Ok::<Seq<F32>, ErrorView>(data@),
            data@.len() == curve_count(seg@.take(k as int)) * width,
        decreases strokes@.len() - k,
    {
        assert(all[k as int] == strokes@[k as int]@);
        assert(seg@[k as int] == seg.strokes@[k as int]@);
        match encode_stroke(cfg, k, &strokes[k], &seg.strokes[k], num) {
            Ok(mut rows) => {
                let ghost before = data@;
                let ghost added = rows@;
                data.append(&mut rows);
                proof {
                    assert(data@ =~= before + added);
                    assert(seg@.take(k + 1).drop_last() =~= seg@.take(k as int));
                    let a = curve_count(seg@.take(k as int)) as int;
                    let b = seg@[k as int].curves.len() as int;
                    assert((a + b) * width == a * width + b * width) by (nonlinear_arith);
                }
            },
            Err(e) => {
                proof {
                    lemma_all_failed(m, *cfg, all, seg@, (k + 1) as nat, all.len());
                }
                return Err(e);
            },
        }
        k += 1;
    }
    assert(seg@.take(k as int) =~= seg@);
    Ok(Mat::from_vec(rows, width, data))
}

proof fn lemma_all_failed(
    m: GeoMath,
    cfg: CurveSettings,
    strokes: Seq<StrokeView>,
    seg: Seq<SegmentsView>,
    k: nat,
    n: nat,
)
    requires
        k <= n,
        all_rows(m, cfg, strokes, seg, k) is Err,
    ensures
        all_rows(m, cfg, strokes, seg, n) == all_rows(m, cfg, strokes, seg, k),
    decreases n,
{
    if k < n {
        lemma_all_failed(m, cfg, strokes, seg, k, (n - 1) as nat);
    }
}

/// The features of raw ink: preprocessed, segmented and encoded. An ink without
/// strokes has none, whatever the pipeline.
pub open spec fn extracted(
    m: GeoMath,
    cfg: CurveSettings,
    strokes: Seq<StrokeView>,
    steps: Seq<StepView>,
) -> Result<MatView, ErrorView> {
    if strokes.len() == 0 {
        Ok(MatView { rows: 0, cols: width_of(cfg), data: Seq::empty() })
    } else {
        match run_result(strokes, steps) {
            Err(e) => Err(e),
            Ok(done) => match first_untimed(done, 0) {
                Some(i) => Err(malformed(done[i], i as nat)),
                None => encoded(m, cfg, done, segments_of_all(Rules { m, cfg }, done)),
            },
        }
    }
}

/// Raw ink to `[T, num_features]`. Runs preprocessing, segmentation and encoding.
pub fn extract<R: Fn(F64) -> F64, H: Fn(F32, F32) -> F32, A: Fn(F32, F32) -> F32>(
    strokes: &[Stroke],
    cfg: &CurveSettings,
    pipeline: &[PreprocessingStep],
    num: &Numerics<R, H, A>,
) -> (r: Result<Mat, Error>)
    requires
        num.wf(),
    ensures
        match (
            r,
            extracted(num.math(), *cfg, strokes_view(strokes@), steps_view(pipeline@)),
        ) {
            (Ok(out), Ok(wanted)) => out@ == wanted,
            (Err(e), Err(g)) => e@ == g,
            _ => false,
        },
{
    if strokes.len() == 0 {
        let empty: Mat = Mat::zeros(0, cfg.num_features());
        assert(empty@.data =~= Seq::empty());
        return Ok(empty);
    }
    let done: Vec<Stroke> = run(strokes, pipeline)?;
    let seg: Segmentation = segment(done.as_slice(), cfg, num)?;
    encode(done.as_slice(), &seg, cfg, num)
}

proof fn lemma_range_inside(s: SegmentsView, k: int)
    requires
        s.kept.len() > 0,
        leads(s.curves, 0, s.kept.len() - 1),
        0 <= k < s.curves.len(),
    ensures
        s.curves[k].0 <= s.curves[k].1,
        s.curves[k].1 < s.kept.len(),
{
    assert(s.curves[k].0 <= s.curves[k].1);
    if k < s.curves.len() - 1 {
        lemma_lead_on(s.curves, k + 1, 0, s.kept.len() - 1);
        assert(s.curves[k].1 == s.curves[k + 1].0);
    } else {
        assert(s.curves.last() == s.curves[k]);
    }
}

proof fn lemma_curve_rows_ok(
    m: GeoMath,
    cfg: CurveSettings,
    index: nat,
    points: Seq<Point>,
    s: SegmentsView,
    n: nat,
)
    requires
        points.len() == s.kept.len(),
        s.kept.len() == 0 ==> s.curves.len() == 0,
        s.kept.len() > 0 ==> leads(s.curves, 0, s.kept.len() - 1),
        n <= s.curves.len(),
    ensures
        curve_rows(m, cfg, index, points, s, n) is Ok,
    decreases n,
{
    if n > 0 {
        lemma_curve_rows_ok(m, cfg, index, points, s, (n - 1) as nat);
        lemma_range_inside(s, n - 1);
    }
}

proof fn lemma_none_outside(kept: Seq<usize>, samples: nat, k: int)
    requires
        0 <= k,
        forall|j: int| 0 <= j < kept.len() ==> (#[trigger] kept[j]) < samples,
    ensures
        first_outside(kept, samples, k) is None,
    decreases kept.len() - k,
{
    if k < kept.len() {
        lemma_none_outside(kept, samples, k + 1);
    }
}

proof fn lemma_own_rows(
    m: GeoMath,
    cfg: CurveSettings,
    strokes: Seq<StrokeView>,
    k: nat,
)
    requires
        k <= strokes.len(),
        forall|i: int|
            0 <= i < strokes.len() ==> (#[trigger] strokes[i]).timed() && strokes[i].x.len()
                <= usize::MAX,
    ensures
        all_rows(m, cfg, strokes, segments_of_all(Rules { m, cfg }, strokes), k) is Ok,
    decreases k,
{
    if k > 0 {
        let rules = Rules { m, cfg };
        lemma_own_rows(m, cfg, strokes, (k - 1) as nat);
        let stroke = strokes[k - 1];
        assert(stroke.timed());
        let s = segments_of(rules, stroke);
        lemma_segments_fit(rules, stroke);
        let raw = points_of(stroke);
        lemma_none_outside(s.kept, raw.len(), 0);
        let points = time_scaled(m, s.kept.map_values(|i: usize| raw[i as int]));
        lemma_curve_rows_ok(m, cfg, (k - 1) as nat, points, s, s.curves.len());
    }
}

/// The structure chosen for an ink always encodes that ink: with the implemented
/// features, and as many curves as fit, no other error is left.
pub proof fn lemma_own_structure_encodes(
    m: GeoMath,
    cfg: CurveSettings,
    strokes: Seq<StrokeView>,
)
    requires
        cfg.use_angles_ratios,
        !cfg.generate_second_order_features,
        forall|i: int|
            0 <= i < strokes.len() ==> (#[trigger] strokes[i]).timed() && strokes[i].x.len()
                <= usize::MAX,
        curve_count(segments_of_all(Rules { m, cfg }, strokes)) * width_of(cfg) <= usize::MAX,
    ensures
        encoded(m, cfg, strokes, segments_of_all(Rules { m, cfg }, strokes)) is Ok,
        encoded(m, cfg, strokes, segments_of_all(Rules { m, cfg }, strokes))->Ok_0.rows
            == curve_count(segments_of_all(Rules { m, cfg }, strokes)),
{
    lemma_own_rows(m, cfg, strokes, strokes.len());
}

} // verus!
