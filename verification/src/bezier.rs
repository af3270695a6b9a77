//! Cubic curves over whatever adds, multiplies and divides: what [`crate::fit`] and
//! [`crate::features`] compute with rounding, and what holds of it without.
use vstd::prelude::*;

use crate::features::raw_features;
use crate::fit::{bends, control64_of, control_of, powers, slopes, value_at, Control, Cubic, Omega};
use crate::float::{F32, F64};
use crate::numerics::GeoMath;
use crate::settings::CurveSettings;

verus! {

/// Arithmetic with the few whole numbers that cubic curves need.
#[verifier::reject_recursive_types(T)]
pub struct Field<T> {
    pub zero: T,
    pub one: T,
    pub two: T,
    pub three: T,
    pub six: T,
    pub plus: spec_fn(T, T) -> T,
    pub minus: spec_fn(T, T) -> T,
    pub times: spec_fn(T, T) -> T,
    pub over: spec_fn(T, T) -> T,
    pub negative: spec_fn(T) -> T,
}

/// Four numbers: the coefficients of a polynomial, or its control values.
pub struct Four<T> {
    pub c0: T,
    pub c1: T,
    pub c2: T,
    pub c3: T,
}

impl<T> Field<T> {
    /// Coefficients times a basis.
    pub open spec fn combined(self, c: Four<T>, b: Four<T>) -> T {
        let (p, t) = (self.plus, self.times);
        p(p(p(t(b.c0, c.c0), t(b.c1, c.c1)), t(b.c2, c.c2)), t(b.c3, c.c3))
    }

    /// The powers of a parameter.
    pub open spec fn powers(self, s: T) -> Four<T> {
        let t = self.times;
        Four { c0: self.one, c1: s, c2: t(s, s), c3: t(t(s, s), s) }
    }

    /// Their slopes.
    pub open spec fn slopes(self, s: T) -> Four<T> {
        let t = self.times;
        Four { c0: self.zero, c1: self.one, c2: t(self.two, s), c3: t(t(self.three, s), s) }
    }

    /// The slopes of the slopes.
    pub open spec fn bends(self, s: T) -> Four<T> {
        Four { c0: self.zero, c1: self.zero, c2: self.two, c3: (self.times)(self.six, s) }
    }

    /// The control values of a polynomial.
    pub open spec fn control(self, c: Four<T>) -> Four<T> {
        let (p, d) = (self.plus, self.over);
        Four {
            c0: c.c0,
            c1: p(c.c0, d(c.c1, self.three)),
            c2: p(p(c.c0, d((self.times)(self.two, c.c1), self.three)), d(c.c2, self.three)),
            c3: p(p(p(c.c0, c.c1), c.c2), c.c3),
        }
    }

    /// The share `s` of the way from one number to another.
    pub open spec fn between(self, s: T, a: T, b: T) -> T {
        (self.plus)(a, (self.times)(s, (self.minus)(b, a)))
    }

    /// The value of a Bezier curve: shares of the way between control values, shares of
    /// the way between those, and once more.
    pub open spec fn cast(self, p: Four<T>, s: T) -> T {
        let (a, b, c) = (
            self.between(s, p.c0, p.c1),
            self.between(s, p.c1, p.c2),
            self.between(s, p.c2, p.c3),
        );
        self.between(s, self.between(s, a, b), self.between(s, b, c))
    }

    /// The first leg against the chord: what turns it out of the chord, and what runs along.
    pub open spec fn first_turn(self, x: Four<T>, y: Four<T>) -> (T, T) {
        let (p, m, t) = (self.plus, self.minus, self.times);
        let (dx, dy) = (m(x.c3, x.c0), m(y.c3, y.c0));
        let (vx, vy) = (m(x.c1, x.c0), m(y.c1, y.c0));
        (m(t(dx, vy), t(dy, vx)), p(t(dx, vx), t(dy, vy)))
    }

    /// The last leg against the reversed chord.
    pub open spec fn last_turn(self, x: Four<T>, y: Four<T>) -> (T, T) {
        let (m, t) = (self.minus, self.times);
        let (dx, dy) = (m(x.c3, x.c0), m(y.c3, y.c0));
        let (wx, wy) = (m(x.c2, x.c3), m(y.c2, y.c3));
        (m(t(dy, wx), t(dx, wy)), m(t((self.negative)(dx), wx), t(dy, wy)))
    }

    /// The three features of a curve's time: how long it takes, its first leg and its
    /// last.
    pub open spec fn time_legs(self, g: Four<T>) -> (T, T, T) {
        let (p, m, t, d) = (self.plus, self.minus, self.times, self.over);
        (
            p(p(g.c1, g.c2), g.c3),
            d(g.c1, self.three),
            m(
                m(d((self.negative)(g.c1), self.three), d(t(self.two, g.c2), self.three)),
                g.c3,
            ),
        )
    }
}

/// Binary64.
pub open spec fn field64() -> Field<F64> {
    Field {
        zero: F64 { bits: 0 },
        one: F64 { bits: 0x3ff0_0000_0000_0000 },
        two: F64 { bits: 0x4000_0000_0000_0000 },
        three: F64 { bits: 0x4008_0000_0000_0000 },
        six: F64 { bits: 0x4018_0000_0000_0000 },
        plus: |a: F64, b: F64| a.sum(b),
        minus: |a: F64, b: F64| a.difference(b),
        times: |a: F64, b: F64| a.product(b),
        over: |a: F64, b: F64| a.quotient(b),
        negative: |a: F64| a.opposite(),
    }
}

/// Binary32.
pub open spec fn field32() -> Field<F32> {
    Field {
        zero: F32 { bits: 0 },
        one: F32 { bits: 0x3f80_0000 },
        two: F32 { bits: 0x4000_0000 },
        three: F32 { bits: 0x4040_0000 },
        six: F32 { bits: 0x40c0_0000 },
        plus: |a: F32, b: F32| a.sum(b),
        minus: |a: F32, b: F32| a.difference(b),
        times: |a: F32, b: F32| a.product(b),
        over: |a: F32, b: F32| a.quotient(b),
        negative: |a: F32| a.opposite(),
    }
}

/// The real numbers.
pub open spec fn reals() -> Field<real> {
    Field {
        zero: 0 as real,
        one: 1 as real,
        two: 2 as real,
        three: 3 as real,
        six: 6 as real,
        plus: |a: real, b: real| a + b,
        minus: |a: real, b: real| a - b,
        times: |a: real, b: real| a * b,
        over: |a: real, b: real| a / b,
        negative: |a: real| -a,
    }
}

/// A polynomial as four numbers.
pub open spec fn four(c: Cubic) -> Four<F64> {
    Four { c0: c.c0, c1: c.c1, c2: c.c2, c3: c.c3 }
}

/// A polynomial as four numbers of binary32.
pub open spec fn four32(c: Cubic) -> Four<F32> {
    Four { c0: c.c0.narrowed(), c1: c.c1.narrowed(), c2: c.c2.narrowed(), c3: c.c3.narrowed() }
}

/// What is computed of cubic curves with binary64 is what is computed over any field.
pub proof fn lemma_curves64(c: Cubic, s: F64)
    ensures
        value_at(c, powers(s)) == field64().combined(four(c), field64().powers(s)),
        value_at(c, slopes(s)) == field64().combined(four(c), field64().slopes(s)),
        value_at(c, bends(s)) == field64().combined(four(c), field64().bends(s)),
        four(control64_of(c)) == field64().control(four(c)),
{
}

/// What is computed of cubic curves with binary32 is what is computed over any field: the
/// control values, and the features of a curve's shape and time.
pub proof fn lemma_curves32(m: GeoMath, omega: Omega, pen_up: bool, cfg: CurveSettings)
    ensures
        ({
            let f = field32();
            let (x, y) = (f.control(four32(omega.x)), f.control(four32(omega.y)));
            let row = raw_features(m, omega, pen_up, cfg);
            let first = f.first_turn(x, y);
            let last = f.last_turn(x, y);
            let legs = f.time_legs(four32(omega.t));
            let chord = m.length(row[1], row[2]);
            &&& control_of(omega.x) == (Control { p0: x.c0, p1: x.c1, p2: x.c2, p3: x.c3 })
            &&& row[1] == x.c3.difference(x.c0)
            &&& row[2] == y.c3.difference(y.c0)
            &&& row[3] == (m.atan2)(first.0, first.1)
            &&& row[5] == (m.atan2)(last.0, last.1)
            &&& (F32 { bits: 0 }).below(chord) ==> row[4] == m.length(
                x.c1.difference(x.c0),
                y.c1.difference(y.c0),
            ).quotient(chord)
            &&& (F32 { bits: 0 }).below(chord) ==> row[6] == m.length(
                x.c2.difference(x.c3),
                y.c2.difference(y.c3),
            ).quotient(chord)
            &&& !(F32 { bits: 0 }).below(chord) ==> row[4] == (F32 { bits: 0 }) && row[6] == (F32 {
                bits: 0,
            })
            &&& cfg.interpolate_time ==> row[7] == legs.0 && row[8] == legs.1 && row[9] == legs.2
        }),
{
}

proof fn lemma_spread(a: real, b: real, c: real)
    ensures
        a * (b + c) == a * b + a * c,
        a * (b - c) == a * b - a * c,
        a * b == b * a,
        a * (b * c) == (a * b) * c,
        (-a) * b == -(a * b),
        a * (-b) == -(a * b),
{
    assert(a * (b + c) == a * b + a * c) by (nonlinear_arith);
    assert(a * (b - c) == a * b - a * c) by (nonlinear_arith);
    assert(a * b == b * a) by (nonlinear_arith);
    assert(a * (b * c) == (a * b) * c) by (nonlinear_arith);
    assert((-a) * b == -(a * b)) by (nonlinear_arith);
    assert(a * (-b) == -(a * b)) by (nonlinear_arith);
}

proof fn lemma_thirds(a: real) -> (third: real)
    ensures
        a / (3 as real) == third,
        a == third + third + third,
        (2 as real * a) / (3 as real) == third + third,
{
    let third = a / (3 as real);
    assert(third * (3 as real) == a) by (nonlinear_arith)
        requires
            third == a / (3 as real),
    ;
    let both = (2 as real * a) / (3 as real);
    assert(both * (3 as real) == 2 as real * a) by (nonlinear_arith)
        requires
            both == (2 as real * a) / (3 as real),
    ;
    third
}

/// The Bezier curve with a polynomial's control values is the polynomial.
pub proof fn lemma_control_values_draw_the_curve(c: Four<real>, s: real)
    ensures
        reals().cast(reals().control(c), s) == reals().combined(c, reals().powers(s)),
{
    let f = reals();
    let a = lemma_thirds(c.c1);
    let b = lemma_thirds(c.c2);
    let p = f.control(c);
    assert(p.c1 == c.c0 + a);
    assert(p.c2 == c.c0 + (a + a) + b);
    assert(p.c3 == c.c0 + (a + a + a) + (b + b + b) + c.c3);
    // Shares between control values.
    assert(p.c1 - p.c0 == a && p.c2 - p.c1 == a + b && p.c3 - p.c2 == a + (b + b) + c.c3);
    let q0 = p.c0 + s * a;
    let q1 = p.c1 + s * (a + b);
    let q2 = p.c2 + s * (a + (b + b) + c.c3);
    lemma_spread(s, a, b);
    lemma_spread(s, a + (b + b), c.c3);
    lemma_spread(s, a, b + b);
    lemma_spread(s, b, b);
    let (sa, sb, sc) = (s * a, s * b, s * c.c3);
    assert(q1 - q0 == a + sb);
    assert(q2 - q1 == a + b + sb + sc);
    let r0 = q0 + s * (a + sb);
    let r1 = q1 + s * (a + b + sb + sc);
    lemma_spread(s, a, sb);
    lemma_spread(s, a + b + sb, sc);
    lemma_spread(s, a + b, sb);
    let (ssb, ssc) = (s * sb, s * sc);
    assert(r1 - r0 == a + sb + sb + ssc);
    let v = r0 + s * (a + sb + sb + ssc);
    lemma_spread(s, a + sb + sb, ssc);
    lemma_spread(s, a + sb, sb);
    assert(v == c.c0 + (sa + sa + sa) + (ssb + ssb + ssb) + s * ssc);
    // The polynomial.
    lemma_spread(s, a + a, a);
    lemma_spread(s, a, a);
    assert(s * c.c1 == sa + sa + sa);
    lemma_spread(s, s, b);
    lemma_spread(s * s, b + b, b);
    lemma_spread(s * s, b, b);
    assert((s * s) * c.c2 == ssb + ssb + ssb);
    lemma_spread(s, s, c.c3);
    lemma_spread(s, s * s, c.c3);
    lemma_spread(s, s, s);
    assert(((s * s) * s) * c.c3 == s * ssc) by {
        lemma_spread(s * s, s, c.c3);
        lemma_spread(s, s, s * c.c3);
    }
    assert((1 as real) * c.c0 == c.c0) by (nonlinear_arith);
    assert(f.cast(p, s) == v);
}

proof fn lemma_square_of_sum(s: real, h: real)
    ensures
        (s + h) * (s + h) == s * s + (s * h + s * h) + h * h,
        ((s + h) * (s + h)) * (s + h) == (s * s) * s + ((s * s) * h + (s * s) * h + (s * s) * h) + (
        (s * h) * h + (s * h) * h + (s * h) * h) + (h * h) * h,
{
    assert((s + h) * (s + h) == s * s + (s * h + s * h) + h * h) by (nonlinear_arith);
    assert(((s + h) * (s + h)) * (s + h) == (s * s) * s + ((s * s) * h + (s * s) * h + (s * s) * h)
        + ((s * h) * h + (s * h) * h + (s * h) * h) + (h * h) * h) by (nonlinear_arith);
}

/// Slopes and bends are those of the curve: where the parameter goes on by `h`, the value
/// goes on by `h` times the slope, half of `h` squared times the bend, and the cube of `h`
/// times the last coefficient.
pub proof fn lemma_slopes_and_bends(c: Four<real>, s: real, h: real)
    ensures
        ({
            let f = reals();
            f.combined(c, f.powers(s + h)) == f.combined(c, f.powers(s)) + h * f.combined(
                c,
                f.slopes(s),
            ) + (h * h) * (f.combined(c, f.bends(s)) / (2 as real)) + ((h * h) * h) * c.c3
        }),
{
    let f = reals();
    let (c1, c2, c3) = (c.c1, c.c2, c.c3);
    lemma_square_of_sum(s, h);
    let (ss, sh, hh) = (s * s, s * h, h * h);
    let (sss, ssh, shh, hhh) = ((s * s) * s, (s * s) * h, (s * h) * h, (h * h) * h);
    assert((1 as real) * c.c0 == c.c0) by (nonlinear_arith);
    assert((0 as real) * c.c0 == 0 as real) by (nonlinear_arith);
    assert((0 as real) * c1 == 0 as real) by (nonlinear_arith);
    assert((1 as real) * c1 == c1) by (nonlinear_arith);
    let d1 = f.combined(c, f.slopes(s));
    let d2 = f.combined(c, f.bends(s));
    let (sc2, ssc3, sc3) = (s * c2, ss * c3, s * c3);
    assert((2 as real * s) * c2 == sc2 + sc2) by (nonlinear_arith)
        requires
            sc2 == s * c2,
    ;
    assert(((3 as real * s) * s) * c3 == ssc3 + ssc3 + ssc3) by (nonlinear_arith)
        requires
            ssc3 == (s * s) * c3,
    ;
    assert(d1 == c1 + (sc2 + sc2) + (ssc3 + ssc3 + ssc3));
    assert((6 as real * s) * c3 == sc3 + sc3 + sc3 + sc3 + sc3 + sc3) by (nonlinear_arith)
        requires
            sc3 == s * c3,
    ;
    let half = d2 / (2 as real);
    assert(half * (2 as real) == d2) by (nonlinear_arith)
        requires
            half == d2 / (2 as real),
    ;
    assert(d2 == (2 as real) * c2 + (sc3 + sc3 + sc3 + sc3 + sc3 + sc3));
    assert(half == c2 + (sc3 + sc3 + sc3));
    // Every part times its step.
    lemma_spread(h, c1 + (sc2 + sc2), ssc3 + ssc3 + ssc3);
    lemma_spread(h, c1, sc2 + sc2);
    lemma_spread(h, sc2, sc2);
    lemma_spread(h, ssc3 + ssc3, ssc3);
    lemma_spread(h, ssc3, ssc3);
    lemma_spread(hh, c2, sc3 + sc3 + sc3);
    lemma_spread(hh, sc3 + sc3, sc3);
    lemma_spread(hh, sc3, sc3);
    let (hsc2, hssc3, hhsc3) = (h * sc2, h * ssc3, hh * sc3);
    assert(sh * c2 == hsc2) by (nonlinear_arith)
        requires
            sh == s * h,
            sc2 == s * c2,
            hsc2 == h * sc2,
    ;
    assert(ssh * c3 == hssc3) by (nonlinear_arith)
        requires
            ssh == ss * h,
            ssc3 == ss * c3,
            hssc3 == h * ssc3,
    ;
    assert(shh * c3 == hhsc3) by (nonlinear_arith)
        requires
            shh == (s * h) * h,
            hh == h * h,
            sc3 == s * c3,
            hhsc3 == hh * sc3,
    ;
    lemma_spread(c1, s, h);
    lemma_spread(c2, ss + (sh + sh), hh);
    lemma_spread(c2, ss, sh + sh);
    lemma_spread(c2, sh, sh);
    lemma_spread(c3, sss + (ssh + ssh + ssh) + (shh + shh + shh), hhh);
    lemma_spread(c3, sss + (ssh + ssh + ssh), shh + shh + shh);
    lemma_spread(c3, sss, ssh + ssh + ssh);
    lemma_spread(c3, ssh + ssh, ssh);
    lemma_spread(c3, ssh, ssh);
    lemma_spread(c3, shh + shh, shh);
    lemma_spread(c3, shh, shh);
    lemma_spread((s + h), c1, c1);
    lemma_spread((s + h) * (s + h), c2, c2);
    lemma_spread(((s + h) * (s + h)) * (s + h), c3, c3);
    lemma_spread(ss, c2, c2);
    lemma_spread(sss, c3, c3);
    lemma_spread(hh, c2, c2);
    lemma_spread(hhh, c3, c3);
    lemma_spread(h, c1, c1);
    lemma_spread(s, c1, c1);
    lemma_spread(sh, c2, c2);
    lemma_spread(ssh, c3, c3);
    lemma_spread(shh, c3, c3);
}

/// The control values of the curve drawn the other way.
pub open spec fn backwards<T>(p: Four<T>) -> Four<T> {
    Four { c0: p.c3, c1: p.c2, c2: p.c1, c3: p.c0 }
}

/// Drawn the other way, a curve has its first turn where it had its last, and its last
/// where it had its first.
pub proof fn lemma_turns_change_places(x: Four<real>, y: Four<real>)
    ensures
        reals().first_turn(backwards(x), backwards(y)) == reals().last_turn(x, y),
        reals().last_turn(backwards(x), backwards(y)) == reals().first_turn(x, y),
{
    let (dx, dy) = (x.c3 - x.c0, y.c3 - y.c0);
    let (vx, vy) = (x.c1 - x.c0, y.c1 - y.c0);
    let (wx, wy) = (x.c2 - x.c3, y.c2 - y.c3);
    assert(x.c0 - x.c3 == -dx && y.c0 - y.c3 == -dy);
    lemma_spread(dx, wy, wx);
    lemma_spread(dx, wx, wx);
    lemma_spread(dy, wx, wx);
    lemma_spread(dy, wy, wy);
    lemma_spread(dx, vy, vy);
    lemma_spread(dx, vx, vx);
    lemma_spread(dy, vx, vx);
    lemma_spread(dy, vy, vy);
    assert(-(-dx) == dx);
}

/// A leg along the chord does not turn: nothing turns it out of the chord, and it runs
/// along by the share of the chord that it is, which is not below zero.
pub proof fn lemma_straight_leg(x: Four<real>, y: Four<real>, share: real)
    requires
        x.c1 - x.c0 == share * (x.c3 - x.c0),
        y.c1 - y.c0 == share * (y.c3 - y.c0),
        share >= 0 as real,
    ensures
        reals().first_turn(x, y).0 == 0 as real,
        reals().first_turn(x, y).1 >= 0 as real,
{
    let (dx, dy) = (x.c3 - x.c0, y.c3 - y.c0);
    assert(dx * (share * dy) == dy * (share * dx)) by (nonlinear_arith);
    assert(dx * (share * dx) >= 0 as real) by (nonlinear_arith)
        requires
            share >= 0 as real,
    ;
    assert(dy * (share * dy) >= 0 as real) by (nonlinear_arith)
        requires
            share >= 0 as real,
    ;
}

/// A leg that turns to the left of the chord has a turn above zero, one that turns to the
/// right has one below: a leg across the chord by so much turns by as much of the chord's
/// square.
pub proof fn lemma_turn_tells_side(x: Four<real>, y: Four<real>, across: real)
    requires
        x.c1 - x.c0 == -(across * (y.c3 - y.c0)),
        y.c1 - y.c0 == across * (x.c3 - x.c0),
    ensures
        ({
            let (dx, dy) = (x.c3 - x.c0, y.c3 - y.c0);
            reals().first_turn(x, y) == (across * (dx * dx + dy * dy), 0 as real)
        }),
{
    let (dx, dy) = (x.c3 - x.c0, y.c3 - y.c0);
    lemma_spread(across, dx * dx, dy * dy);
    assert(dx * (across * dx) == across * (dx * dx)) by (nonlinear_arith);
    assert(dy * (-(across * dy)) == -(across * (dy * dy))) by (nonlinear_arith);
    assert(dx * (-(across * dy)) + dy * (across * dx) == 0 as real) by (nonlinear_arith);
}

/// The time features are those of the control values: how long the curve takes from its
/// first to its last, and how far the inner ones lie from those.
pub proof fn lemma_time_legs_are_control_legs(g: Four<real>)
    ensures
        ({
            let p = reals().control(g);
            reals().time_legs(g) == (p.c3 - p.c0, p.c1 - p.c0, p.c2 - p.c3)
        }),
{
    let a = lemma_thirds(g.c1);
    let b = lemma_thirds(g.c2);
    assert((-g.c1) / (3 as real) == -a) by (nonlinear_arith)
        requires
            a == g.c1 / (3 as real),
    ;
}

} // verus!
