//! How far ink moved, and where a drawing of it before and after goes.
use vstd::prelude::*;

use crate::float::{F32, F64};
use crate::ink::{strokes_view, Stroke, StrokeView};
use crate::numerics::{GeoMath, Numerics};

verus! {

/// One sample before and after.
#[derive(Debug, Clone, Copy, PartialEq)]
pub struct Shift {
    pub x1: F64,
    pub y1: F64,
    pub x2: F64,
    pub y2: F64,
}

/// A box in the plane by its corners.
#[derive(Debug, Clone, Copy, PartialEq)]
pub struct Bounds {
    pub left: F64,
    pub top: F64,
    pub right: F64,
    pub bottom: F64,
}

/// The samples that two strokes share.
pub open spec fn shared(a: StrokeView, b: StrokeView) -> Seq<Shift> {
    Seq::new(
        if a.x.len() < b.x.len() {
            a.x.len()
        } else {
            b.x.len()
        },
        |i: int| Shift { x1: a.x[i], y1: a.y[i], x2: b.x[i], y2: b.y[i] },
    )
}

/// The samples that the first `n` strokes of two inks share.
pub open spec fn shared_before(before: Seq<StrokeView>, after: Seq<StrokeView>, n: int) -> Seq<
    Shift,
>
    decreases n,
{
    if n <= 0 {
        Seq::empty()
    } else {
        shared_before(before, after, n - 1) + shared(before[n - 1], after[n - 1])
    }
}

/// The samples that two inks share.
pub open spec fn shared_samples(before: Seq<StrokeView>, after: Seq<StrokeView>) -> Seq<Shift> {
    shared_before(
        before,
        after,
        if before.len() < after.len() {
            before.len() as int
        } else {
            after.len() as int
        },
    )
}

/// Whether every sample that two inks share has both coordinates in both.
pub open spec fn comparable(before: Seq<StrokeView>, after: Seq<StrokeView>) -> bool {
    forall|i: int|
        0 <= i < before.len() && i < after.len() ==> {
            &&& shared(#[trigger] before[i], after[i]).len() <= before[i].y.len()
            &&& shared(before[i], after[i]).len() <= after[i].y.len()
        }
}

/// The samples that two inks share, stroke by stroke.
pub fn shifts(before: &[Stroke], after: &[Stroke]) -> (r: Vec<Shift>)
    requires
        comparable(strokes_view(before@), strokes_view(after@)),
    ensures
        r@ == shared_samples(strokes_view(before@), strokes_view(after@)),
{
    let ghost was = strokes_view(before@);
    let ghost is = strokes_view(after@);
    let n: usize = if before.len() < after.len() {
        before.len()
    } else {
        after.len()
    };
    let mut out: Vec<Shift> = Vec::new();
    let mut i: usize = 0;
    while i < n
        invariant
            i <= n,
            n <= before@.len(),
            n <= after@.len(),
            was == strokes_view(before@),
            is == strokes_view(after@),
            comparable(was, is),
            out@ == shared_before(was, is, i as int),
        decreases n - i,
    {
        let a: &Stroke = &before[i];
        let b: &Stroke = &after[i];
        assert(a@ == was[i as int] && b@ == is[i as int]);
        let ghost start = out@;
        let ghost wanted = shared(a@, b@);
        let m: usize = if a.x.len() < b.x.len() {
            a.x.len()
        } else {
            b.x.len()
        };
        let mut k: usize = 0;
        while k < m
            invariant
                k <= m,
                m <= a@.x.len(),
                m <= b@.x.len(),
                m <= a@.y.len(),
                m <= b@.y.len(),
                wanted == shared(a@, b@),
                wanted.len() == m,
                out@ == start + wanted.take(k as int),
            decreases m - k,
        {
            out.push(Shift { x1: a.x[k], y1: a.y[k], x2: b.x[k], y2: b.y[k] });
            k += 1;
            assert(wanted.take(k as int) =~= wanted.take(k - 1).push(wanted[k - 1]));
            assert(out@ =~= start + wanted.take(k as int));
        }
        assert(wanted.take(k as int) =~= wanted);
        i += 1;
    }
    out
}

/// The lesser of two numbers; the other one where one is not a number.
pub open spec fn lesser(a: F64, b: F64) -> F64 {
    if a.nan() || b.below(a) {
        b
    } else {
        a
    }
}

/// The greater of two numbers; the other one where one is not a number.
pub open spec fn greater(a: F64, b: F64) -> F64 {
    if a.nan() || a.below(b) {
        b
    } else {
        a
    }
}

fn min_of(a: F64, b: F64) -> (r: F64)
    ensures
        r == lesser(a, b),
{
    if a.is_nan() || b.less(a) {
        b
    } else {
        a
    }
}

fn max_of(a: F64, b: F64) -> (r: F64)
    ensures
        r == greater(a, b),
{
    if a.is_nan() || a.less(b) {
        b
    } else {
        a
    }
}

impl Bounds {
    /// The box around nothing: every point is outside.
    pub open spec fn nothing() -> Bounds {
        Bounds {
            left: F64 { bits: 0x7fef_ffff_ffff_ffff },
            top: F64 { bits: 0x7fef_ffff_ffff_ffff },
            right: F64 { bits: 0xffef_ffff_ffff_ffff },
            bottom: F64 { bits: 0xffef_ffff_ffff_ffff },
        }
    }

    /// The box around this one and a point.
    pub open spec fn around(self, x: F64, y: F64) -> Bounds {
        Bounds {
            left: lesser(self.left, x),
            top: lesser(self.top, y),
            right: greater(self.right, x),
            bottom: greater(self.bottom, y),
        }
    }

    fn empty() -> (r: Bounds)
        ensures
            r == Bounds::nothing(),
    {
        Bounds {
            left: F64 { bits: 0x7fef_ffff_ffff_ffff },
            top: F64 { bits: 0x7fef_ffff_ffff_ffff },
            right: F64 { bits: 0xffef_ffff_ffff_ffff },
            bottom: F64 { bits: 0xffef_ffff_ffff_ffff },
        }
    }

    fn take_in(self, x: F64, y: F64) -> (r: Bounds)
        ensures
            r == self.around(x, y),
    {
        Bounds {
            left: min_of(self.left, x),
            top: min_of(self.top, y),
            right: max_of(self.right, x),
            bottom: max_of(self.bottom, y),
        }
    }
}

/// The squares of the distances that the first `n` samples moved, added up.
pub open spec fn squares(s: Seq<Shift>, n: nat) -> F64
    decreases n,
{
    if n == 0 {
        F64 { bits: 0 }
    } else {
        let k = s[n - 1];
        let dx = k.x2.difference(k.x1);
        let dy = k.y2.difference(k.y1);
        squares(s, (n - 1) as nat).sum(dx.product(dx).sum(dy.product(dy)))
    }
}

/// The box around where the first `n` samples were.
pub open spec fn origin_box(s: Seq<Shift>, n: nat) -> Bounds
    decreases n,
{
    if n == 0 {
        Bounds::nothing()
    } else {
        origin_box(s, (n - 1) as nat).around(s[n - 1].x1, s[n - 1].y1)
    }
}

/// The root mean square of the distances that samples moved, in percent of the
/// diagonal of the box around where they were.
pub open spec fn shift_of(m: GeoMath, s: Seq<Shift>) -> F64 {
    if s.len() == 0 {
        F64 { bits: 0 }
    } else {
        let b = origin_box(s, s.len());
        let w = b.right.difference(b.left);
        let h = b.bottom.difference(b.top);
        let diagonal = (m.root)(w.product(w).sum(h.product(h)));
        if !diagonal.nan() && diagonal.rank() > 0 {
            F64 { bits: 0x4059_0000_0000_0000 }.product(
                (m.root)(squares(s, s.len()).quotient(F64::of_int(s.len() as int))),
            ).quotient(diagonal)
        } else {
            F64 { bits: 0 }
        }
    }
}

/// How far the ink actually moved, as a percentage of its own diagonal: the number
/// that says whether a successful fit is a nudge or a rewrite.
pub fn rms_shift<R: Fn(F64) -> F64, H: Fn(F32, F32) -> F32, A: Fn(F32, F32) -> F32>(
    before: &[Stroke],
    after: &[Stroke],
    num: &Numerics<R, H, A>,
) -> (r: F64)
    requires
        num.wf(),
        comparable(strokes_view(before@), strokes_view(after@)),
    ensures
        r == shift_of(num.math(), shared_samples(strokes_view(before@), strokes_view(after@))),
{
    let moved: Vec<Shift> = shifts(before, after);
    if moved.len() == 0 {
        return F64 { bits: 0 };
    }
    let mut total: F64 = F64 { bits: 0 };
    let mut around: Bounds = Bounds::empty();
    let mut i: usize = 0;
    while i < moved.len()
        invariant
            i <= moved@.len(),
            total == squares(moved@, i as nat),
            around == origin_box(moved@, i as nat),
        decreases moved@.len() - i,
    {
        let s: Shift = moved[i];
        let dx: F64 = s.x2.minus(s.x1);
        let dy: F64 = s.y2.minus(s.y1);
        total = total.plus(dx.times(dx).plus(dy.times(dy)));
        around = around.take_in(s.x1, s.y1);
        i += 1;
    }
    let w: F64 = around.right.minus(around.left);
    let h: F64 = around.bottom.minus(around.top);
    let diagonal: F64 = num.root(w.times(w).plus(h.times(h)));
    if diagonal.is_positive() {
        F64 { bits: 0x4059_0000_0000_0000 }.times(
            num.root(total.over(F64::from_nat(moved.len() as u64))),
        ).over(diagonal)
    } else {
        F64 { bits: 0 }
    }
}

/// A box grown by the first `n` samples of a stroke.
pub open spec fn grown(b: Bounds, s: StrokeView, n: nat) -> Bounds
    decreases n,
{
    if n == 0 {
        b
    } else {
        grown(b, s, (n - 1) as nat).around(s.x[n - 1], s.y[n - 1])
    }
}

/// How many samples of a stroke have both coordinates.
pub open spec fn drawn(s: StrokeView) -> nat {
    if s.x.len() < s.y.len() {
        s.x.len()
    } else {
        s.y.len()
    }
}

/// A box grown by the first `n` strokes of an ink.
pub open spec fn grown_by(b: Bounds, strokes: Seq<StrokeView>, n: nat) -> Bounds
    decreases n,
{
    if n == 0 {
        b
    } else {
        let s = strokes[n - 1];
        grown(grown_by(b, strokes, (n - 1) as nat), s, drawn(s))
    }
}

/// Whether an ink has a sample to draw.
pub open spec fn draws(strokes: Seq<StrokeView>) -> bool {
    exists|i: int| 0 <= i < strokes.len() && drawn(#[trigger] strokes[i]) > 0
}

/// The box around two inks; the unit square where there is nothing to draw.
pub open spec fn box_of(before: Seq<StrokeView>, after: Seq<StrokeView>) -> Bounds {
    if draws(before) || draws(after) {
        grown_by(grown_by(Bounds::nothing(), before, before.len()), after, after.len())
    } else {
        Bounds {
            left: F64 { bits: 0 },
            top: F64 { bits: 0 },
            right: F64 { bits: 0x3ff0_0000_0000_0000 },
            bottom: F64 { bits: 0x3ff0_0000_0000_0000 },
        }
    }
}

/// Grows a box by an ink, and says whether it had a sample.
fn grow(from: Bounds, strokes: &[Stroke]) -> (r: (Bounds, bool))
    ensures
        r.0 == grown_by(from, strokes_view(strokes@), strokes@.len()),
        r.1 == draws(strokes_view(strokes@)),
{
    let ghost all = strokes_view(strokes@);
    let mut around: Bounds = from;
    let mut seen: bool = false;
    let mut i: usize = 0;
    while i < strokes.len()
        invariant
            i <= strokes@.len(),
            all == strokes_view(strokes@),
            around == grown_by(from, all, i as nat),
            seen == exists|j: int| 0 <= j < i && drawn(#[trigger] all[j]) > 0,
        decreases strokes@.len() - i,
    {
        let s: &Stroke = &strokes[i];
        assert(s@ == all[i as int]);
        let ghost base = around;
        let n: usize = if s.x.len() < s.y.len() {
            s.x.len()
        } else {
            s.y.len()
        };
        let mut k: usize = 0;
        while k < n
            invariant
                k <= n,
                n <= s@.x.len(),
                n <= s@.y.len(),
                around == grown(base, s@, k as nat),
            decreases n - k,
        {
            around = around.take_in(s.x[k], s.y[k]);
            k += 1;
        }
        if n > 0 {
            assert(drawn(all[i as int]) > 0);
            seen = true;
        }
        i += 1;
    }
    (around, seen)
}

/// The box around two inks.
pub fn bounds(before: &[Stroke], after: &[Stroke]) -> (r: Bounds)
    ensures
        r == box_of(strokes_view(before@), strokes_view(after@)),
{
    let (first, drawn_before) = grow(Bounds::empty(), before);
    let (both, drawn_after) = grow(first, after);
    if drawn_before || drawn_after {
        both
    } else {
        Bounds {
            left: F64 { bits: 0 },
            top: F64 { bits: 0 },
            right: F64 { bits: 0x3ff0_0000_0000_0000 },
            bottom: F64 { bits: 0x3ff0_0000_0000_0000 },
        }
    }
}

/// Where a drawing goes: its frame, how wide its lines are, and where its caption
/// stands.
#[derive(Debug, Clone, Copy, PartialEq)]
pub struct Layout {
    pub left: F64,
    pub top: F64,
    pub width: F64,
    pub height: F64,
    pub stroke_width: F64,
    pub connector_width: F64,
    pub caption_x: F64,
    pub caption_y: F64,
    pub caption_size: F64,
}

/// The layout around a box: a margin of 8 % of its longer side (at least 0.08), lines
/// of 1.2 % and a caption of 5.5 % of the longer side with the margin.
pub open spec fn layout_of(b: Bounds) -> Layout {
    let w = b.right.difference(b.left);
    let h = b.bottom.difference(b.top);
    let pad = F64 { bits: 0x3fb4_7ae1_47ae_147b }.product(
        greater(greater(w, h), F64 { bits: 0x3ff0_0000_0000_0000 }),
    );
    let pads = F64 { bits: 0x4000_0000_0000_0000 }.product(pad);
    let width = w.sum(pads);
    let height = h.sum(pads);
    let stroke_width = F64 { bits: 0x3f88_9374_bc6a_7efa }.product(greater(width, height));
    let small = F64 { bits: 0x3f94_7ae1_47ae_147b };
    Layout {
        left: b.left.difference(pad),
        top: b.top.difference(pad),
        width,
        height,
        stroke_width,
        connector_width: stroke_width.product(F64 { bits: 0x3fd0_0000_0000_0000 }),
        caption_x: b.left.difference(pad).sum(small.product(width)),
        caption_y: b.bottom.sum(pad).difference(small.product(height)),
        caption_size: F64 { bits: 0x3fac_28f5_c28f_5c29 }.product(greater(height, width)),
    }
}

/// The layout of a drawing of two inks.
pub fn layout(before: &[Stroke], after: &[Stroke]) -> (r: Layout)
    ensures
        r == layout_of(box_of(strokes_view(before@), strokes_view(after@))),
{
    let b: Bounds = bounds(before, after);
    let w: F64 = b.right.minus(b.left);
    let h: F64 = b.bottom.minus(b.top);
    let pad: F64 = F64 { bits: 0x3fb4_7ae1_47ae_147b }.times(
        max_of(max_of(w, h), F64 { bits: 0x3ff0_0000_0000_0000 }),
    );
    let pads: F64 = F64 { bits: 0x4000_0000_0000_0000 }.times(pad);
    let width: F64 = w.plus(pads);
    let height: F64 = h.plus(pads);
    let stroke_width: F64 = F64 { bits: 0x3f88_9374_bc6a_7efa }.times(max_of(width, height));
    let small: F64 = F64 { bits: 0x3f94_7ae1_47ae_147b };
    Layout {
        left: b.left.minus(pad),
        top: b.top.minus(pad),
        width,
        height,
        stroke_width,
        connector_width: stroke_width.times(F64 { bits: 0x3fd0_0000_0000_0000 }),
        caption_x: b.left.minus(pad).plus(small.times(width)),
        caption_y: b.bottom.plus(pad).minus(small.times(height)),
        caption_size: F64 { bits: 0x3fac_28f5_c28f_5c29 }.times(max_of(height, width)),
    }
}

/// Whether a point lies in a box whose sides are numbers.
pub open spec fn holds(b: Bounds, x: F64, y: F64) -> bool {
    &&& !b.left.nan() && !b.top.nan() && !b.right.nan() && !b.bottom.nan()
    &&& !x.below(b.left) && !b.right.below(x)
    &&& !y.below(b.top) && !b.bottom.below(y)
}

proof fn lemma_grown_keeps(b: Bounds, s: StrokeView, n: nat, x: F64, y: F64)
    requires
        holds(b, x, y),
    ensures
        holds(grown(b, s, n), x, y),
    decreases n,
{
    if n > 0 {
        lemma_grown_keeps(b, s, (n - 1) as nat, x, y);
    }
}

proof fn lemma_grown_holds(b: Bounds, s: StrokeView, n: nat, i: int)
    requires
        0 <= i < n <= drawn(s),
        !s.x[i].nan(),
        !s.y[i].nan(),
    ensures
        holds(grown(b, s, n), s.x[i], s.y[i]),
    decreases n,
{
    if i < n - 1 {
        lemma_grown_holds(b, s, (n - 1) as nat, i);
    }
}

proof fn lemma_ink_keeps(b: Bounds, strokes: Seq<StrokeView>, n: nat, x: F64, y: F64)
    requires
        holds(b, x, y),
    ensures
        holds(grown_by(b, strokes, n), x, y),
    decreases n,
{
    if n > 0 {
        lemma_ink_keeps(b, strokes, (n - 1) as nat, x, y);
        let s = strokes[n - 1];
        lemma_grown_keeps(grown_by(b, strokes, (n - 1) as nat), s, drawn(s), x, y);
    }
}

proof fn lemma_ink_holds(b: Bounds, strokes: Seq<StrokeView>, n: nat, k: int, i: int)
    requires
        0 <= k < n <= strokes.len(),
        0 <= i < drawn(strokes[k]),
        !strokes[k].x[i].nan(),
        !strokes[k].y[i].nan(),
    ensures
        holds(grown_by(b, strokes, n), strokes[k].x[i], strokes[k].y[i]),
    decreases n,
{
    let before = grown_by(b, strokes, (n - 1) as nat);
    let s = strokes[n - 1];
    if k < n - 1 {
        lemma_ink_holds(b, strokes, (n - 1) as nat, k, i);
        lemma_grown_keeps(before, s, drawn(s), strokes[k].x[i], strokes[k].y[i]);
    } else {
        lemma_grown_holds(before, s, drawn(s), i);
    }
}

/// Every sample of two inks whose coordinates are numbers lies in the box around them.
pub proof fn lemma_box_holds(before: Seq<StrokeView>, after: Seq<StrokeView>, k: int, i: int)
    ensures
        ({
            let s = before[k];
            0 <= k < before.len() && 0 <= i < drawn(s) && !s.x[i].nan() && !s.y[i].nan()
                ==> holds(box_of(before, after), s.x[i], s.y[i])
        }),
        ({
            let s = after[k];
            0 <= k < after.len() && 0 <= i < drawn(s) && !s.x[i].nan() && !s.y[i].nan()
                ==> holds(box_of(before, after), s.x[i], s.y[i])
        }),
{
    let first = grown_by(Bounds::nothing(), before, before.len());
    if 0 <= k < before.len() && 0 <= i < drawn(before[k]) && !before[k].x[i].nan()
        && !before[k].y[i].nan() {
        let s = before[k];
        lemma_ink_holds(Bounds::nothing(), before, before.len(), k, i);
        lemma_ink_keeps(first, after, after.len(), s.x[i], s.y[i]);
        assert(draws(before));
    }
    if 0 <= k < after.len() && 0 <= i < drawn(after[k]) && !after[k].x[i].nan()
        && !after[k].y[i].nan() {
        lemma_ink_holds(first, after, after.len(), k, i);
        assert(draws(after));
    }
}

} // verus!
