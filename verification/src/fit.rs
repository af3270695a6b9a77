//! The least-squares fit of one cubic to a run of points.
use vstd::prelude::*;

use crate::curve::{distance, distance_of};
use crate::float::{F32, F64};
use crate::ink::Point;
use crate::numerics::{GeoMath, Numerics};
use crate::settings::CurveSettings;

verus! {

/// A polynomial of the third degree by its coefficients.
#[derive(Debug, Clone, Copy, PartialEq)]
pub struct Cubic {
    pub c0: F64,
    pub c1: F64,
    pub c2: F64,
    pub c3: F64,
}

/// Power-basis coefficients of one cubic curve, one polynomial for each of its
/// three components. The least-squares solve runs in binary64; what is computed in
/// binary32 rounds on the way in.
#[derive(Debug, Clone, Copy, PartialEq)]
pub struct Omega {
    pub x: Cubic,
    pub y: Cubic,
    pub t: Cubic,
}

/// The value of a polynomial, given the powers of the parameter.
pub open spec fn value_at(c: Cubic, b: Cubic) -> F64 {
    b.c0.product(c.c0).sum(b.c1.product(c.c1)).sum(b.c2.product(c.c2)).sum(b.c3.product(c.c3))
}

fn evaluate(c: Cubic, b: Cubic) -> (r: F64)
    ensures
        r == value_at(c, b),
{
    b.c0.times(c.c0).plus(b.c1.times(c.c1)).plus(b.c2.times(c.c2)).plus(b.c3.times(c.c3))
}

/// The powers of a parameter.
pub open spec fn powers(s: F64) -> Cubic {
    Cubic {
        c0: F64 { bits: 0x3ff0_0000_0000_0000 },
        c1: s,
        c2: s.product(s),
        c3: s.product(s).product(s),
    }
}

/// The derivatives of the powers of a parameter.
pub open spec fn slopes(s: F64) -> Cubic {
    Cubic {
        c0: F64 { bits: 0 },
        c1: F64 { bits: 0x3ff0_0000_0000_0000 },
        c2: (F64 { bits: 0x4000_0000_0000_0000 }).product(s),
        c3: (F64 { bits: 0x4008_0000_0000_0000 }).product(s).product(s),
    }
}

/// The second derivatives of the powers of a parameter.
pub open spec fn bends(s: F64) -> Cubic {
    Cubic {
        c0: F64 { bits: 0 },
        c1: F64 { bits: 0 },
        c2: F64 { bits: 0x4000_0000_0000_0000 },
        c3: (F64 { bits: 0x4018_0000_0000_0000 }).product(s),
    }
}

fn vandermonde(s: F64) -> (r: Cubic)
    ensures
        r == powers(s),
{
    Cubic {
        c0: F64 { bits: 0x3ff0_0000_0000_0000 },
        c1: s,
        c2: s.times(s),
        c3: s.times(s).times(s),
    }
}

/// The sum of products of the first `n` numbers, from the left.
pub open spec fn dot64(a: Seq<F64>, b: Seq<F64>, n: nat) -> F64
    decreases n,
{
    if n == 0 {
        F64 { bits: 0x8000_0000_0000_0000 }
    } else {
        dot64(a, b, (n - 1) as nat).sum(a[n - 1].product(b[n - 1]))
    }
}

fn dot(a: &[F64], b: &[F64]) -> (r: F64)
    requires
        a@.len() == b@.len(),
    ensures
        r == dot64(a@, b@, a@.len()),
{
    let mut total: F64 = F64 { bits: 0x8000_0000_0000_0000 };
    let mut i: usize = 0;
    while i < a.len()
        invariant
            i <= a@.len(),
            a@.len() == b@.len(),
            total == dot64(a@, b@, i as nat),
        decreases a@.len() - i,
    {
        total = total.plus(a[i].times(b[i]));
        i += 1;
    }
    total
}

/// The reflector of a column from row `k` on: with the value that takes its place
/// there.
pub open spec fn reflector(m: GeoMath, column: Seq<F64>, k: int) -> (F64, Seq<F64>) {
    let tail = column.skip(k);
    let norm = (m.root)(dot64(tail, tail, tail.len()));
    let alpha = norm.with_sign(!column[k].negative());
    (alpha, tail.update(0, column[k].difference(alpha)))
}

/// A column behind a reflection from row `k` on.
pub open spec fn reflected(column: Seq<F64>, v: Seq<F64>, vv: F64, k: int) -> Seq<F64> {
    let tail = column.skip(k);
    let scale = (F64 { bits: 0x4000_0000_0000_0000 }).product(dot64(v, tail, v.len())).quotient(
        vv,
    );
    Seq::new(
        column.len(),
        |i: int|
            if i < k {
                column[i]
            } else {
                column[i].difference(scale.product(v[i - k]))
            },
    )
}

/// A system of equations by its columns: those of the unknowns, and the right-hand
/// sides.
pub struct System {
    pub unknowns: Seq<Seq<F64>>,
    pub sides: Seq<Seq<F64>>,
}

/// A system behind the reflection that clears unknown `k` below its row.
pub open spec fn eliminate(m: GeoMath, s: System, k: int) -> System {
    let (alpha, v) = reflector(m, s.unknowns[k], k);
    let vv = dot64(v, v, v.len());
    if vv.index() == 0 {
        s
    } else {
        System {
            unknowns: Seq::new(
                s.unknowns.len(),
                |j: int|
                    if j < k {
                        s.unknowns[j]
                    } else if j == k {
                        s.unknowns[k].update(k, alpha)
                    } else {
                        reflected(s.unknowns[j], v, vv, k)
                    },
            ),
            sides: Seq::new(s.sides.len(), |d: int| reflected(s.sides[d], v, vv, k)),
        }
    }
}

/// A system with its first `k` unknowns cleared.
pub open spec fn eliminated(m: GeoMath, s: System, k: nat) -> System
    decreases k,
{
    if k == 0 {
        s
    } else {
        eliminate(m, eliminated(m, s, (k - 1) as nat), k - 1)
    }
}

/// Row `k` of the unknowns from `j` on.
pub open spec fn row_from(unknowns: Seq<Seq<F64>>, k: int, j: int) -> Seq<F64> {
    Seq::new((unknowns.len() - j) as nat, |i: int| unknowns[j + i][k])
}

/// The unknowns from `k` on, by substitution from the last.
pub open spec fn substituted(unknowns: Seq<Seq<F64>>, side: Seq<F64>, k: int) -> Seq<F64>
    decreases unknowns.len() - k,
{
    if k < 0 || k >= unknowns.len() {
        Seq::empty()
    } else {
        let rest = substituted(unknowns, side, k + 1);
        let row = row_from(unknowns, k, k + 1);
        seq![side[k].difference(dot64(row, rest, row.len())).quotient(unknowns[k][k])] + rest
    }
}

/// A polynomial of its first coefficients, the rest zero.
pub open spec fn padded(c: Seq<F64>) -> Cubic {
    let zero = F64 { bits: 0 };
    Cubic {
        c0: if c.len() > 0 {
            c[0]
        } else {
            zero
        },
        c1: if c.len() > 1 {
            c[1]
        } else {
            zero
        },
        c2: if c.len() > 2 {
            c[2]
        } else {
            zero
        },
        c3: if c.len() > 3 {
            c[3]
        } else {
            zero
        },
    }
}

/// The powers of all parameters, as a column.
pub open spec fn power_column(s: Seq<F64>, j: int) -> Seq<F64> {
    s.map_values(
        |x: F64|
            if j == 0 {
                powers(x).c0
            } else if j == 1 {
                powers(x).c1
            } else if j == 2 {
                powers(x).c2
            } else {
                powers(x).c3
            },
    )
}

/// The system that a cubic through points solves as well as it can; with fewer than
/// four points, one of as low a degree as they allow.
pub open spec fn system_of(points: Seq<Point>, s: Seq<F64>) -> System {
    System {
        unknowns: Seq::new(
            if points.len() < 4 {
                points.len()
            } else {
                4
            },
            |j: int| power_column(s, j),
        ),
        sides: seq![
            points.map_values(|p: Point| p.x.widened()),
            points.map_values(|p: Point| p.y.widened()),
            points.map_values(|p: Point| p.t.widened()),
        ],
    }
}

/// The curve that fits points best at given parameters. A single point has no
/// time.
pub open spec fn solved(m: GeoMath, points: Seq<Point>, s: Seq<F64>) -> Omega {
    let zero = padded(Seq::empty());
    if points.len() == 0 {
        Omega { x: zero, y: zero, t: zero }
    } else if points.len() == 1 {
        Omega {
            x: padded(seq![points[0].x.widened()]),
            y: padded(seq![points[0].y.widened()]),
            t: zero,
        }
    } else {
        let start = system_of(points, s);
        let end = eliminated(m, start, start.unknowns.len());
        Omega {
            x: padded(substituted(end.unknowns, end.sides[0], 0)),
            y: padded(substituted(end.unknowns, end.sides[1], 0)),
            t: padded(substituted(end.unknowns, end.sides[2], 0)),
        }
    }
}

/// Columns by their contents.
pub open spec fn columns_view(c: Seq<Vec<F64>>) -> Seq<Seq<F64>> {
    c.map_values(|v: Vec<F64>| v@)
}

fn tail_of(column: &Vec<F64>, k: usize) -> (r: &[F64])
    requires
        k <= column@.len(),
    ensures
        r@ == column@.skip(k as int),
{
    let r: &[F64] = vstd::slice::slice_subrange(column.as_slice(), k, column.len());
    assert(r@ =~= column@.skip(k as int));
    r
}

fn reflect(column: &Vec<F64>, v: &Vec<F64>, vv: F64, k: usize) -> (r: Vec<F64>)
    requires
        k <= column@.len(),
        v@.len() == column@.len() - k,
    ensures
        r@ == reflected(column@, v@, vv, k as int),
{
    let scale: F64 = (F64 { bits: 0x4000_0000_0000_0000 }).times(
        dot(v.as_slice(), tail_of(column, k)),
    ).over(vv);
    let mut out: Vec<F64> = Vec::new();
    let mut i: usize = 0;
    while i < column.len()
        invariant
            i <= column@.len(),
            k <= column@.len(),
            v@.len() == column@.len() - k,
            out@.len() == i,
            scale == (F64 { bits: 0x4000_0000_0000_0000 }).product(
                dot64(v@, column@.skip(k as int), v@.len()),
            ).quotient(vv),
            forall|j: int|
                0 <= j < i ==> #[trigger] out@[j] == reflected(column@, v@, vv, k as int)[j],
        decreases column@.len() - i,
    {
        if i < k {
            out.push(column[i]);
        } else {
            out.push(column[i].minus(scale.times(v[i - k])));
        }
        i += 1;
    }
    assert(out@ =~= reflected(column@, v@, vv, k as int));
    out
}

/// Every column has `n` rows.
pub open spec fn all_long(columns: Seq<Seq<F64>>, n: nat) -> bool {
    forall|j: int| 0 <= j < columns.len() ==> (#[trigger] columns[j]).len() == n
}

/// Clears one unknown.
fn eliminate_one<R: Fn(F64) -> F64, H: Fn(F32, F32) -> F32, A: Fn(F32, F32) -> F32>(
    num: &Numerics<R, H, A>,
    unknowns: &mut Vec<Vec<F64>>,
    sides: &mut Vec<Vec<F64>>,
    k: usize,
    n: usize,
)
    requires
        num.wf(),
        k < old(unknowns)@.len(),
        k < n,
        all_long(columns_view(old(unknowns)@), n as nat),
        all_long(columns_view(old(sides)@), n as nat),
    ensures
        ({
            let s = eliminate(
                num.math(),
                System {
                    unknowns: columns_view(old(unknowns)@),
                    sides: columns_view(old(sides)@),
                },
                k as int,
            );
            &&& columns_view(final(unknowns)@) == s.unknowns
            &&& columns_view(final(sides)@) == s.sides
        }),
        all_long(columns_view(final(unknowns)@), n as nat),
        all_long(columns_view(final(sides)@), n as nat),
        final(unknowns)@.len() == old(unknowns)@.len(),
        final(sides)@.len() == old(sides)@.len(),
{
    let ghost m = num.math();
    let ghost u = columns_view(unknowns@);
    let ghost b = columns_view(sides@);
    let ghost s = eliminate(m, System { unknowns: u, sides: b }, k as int);
    assert(u[k as int] == unknowns@[k as int]@);
    assert(u[k as int].len() == n);
    let tail: &[F64] = tail_of(&unknowns[k], k);
    let norm: F64 = num.root(dot(tail, tail));
    let head: F64 = unknowns[k][k];
    let alpha: F64 = norm.signed_as(!head.is_negative());
    let mut v: Vec<F64> = vstd::slice::slice_to_vec(tail);
    v.set(0, head.minus(alpha));
    assert(v@ =~= reflector(m, u[k as int], k as int).1);
    let vv: F64 = dot(v.as_slice(), v.as_slice());
    if vv.abs().bits == 0 {
        assert(vv.index() == 0);
        return ;
    }
    assert(vv.index() != 0);
    let mut j: usize = k + 1;
    unknowns[k].set(k, alpha);
    let ghost first = columns_view(unknowns@);
    assert(first =~= u.update(k as int, u[k as int].update(k as int, alpha)));
    while j < unknowns.len()
        invariant
            k < j <= unknowns@.len(),
            k < n,
            unknowns@.len() == u.len(),
            all_long(u, n as nat),
            v@.len() == n - k,
            first =~= u.update(k as int, u[k as int].update(k as int, alpha)),
            forall|i: int|
                0 <= i < u.len() ==> (#[trigger] unknowns@[i])@ == (if k < i < j {
                    reflected(u[i], v@, vv, k as int)
                } else {
                    first[i]
                }),
        decreases unknowns@.len() - j,
    {
        assert(unknowns@[j as int]@ == first[j as int]);
        assert(u[j as int].len() == n);
        let next: Vec<F64> = reflect(&unknowns[j], &v, vv, k);
        unknowns.set(j, next);
        j += 1;
    }
    assert(columns_view(unknowns@) =~= s.unknowns);
    let mut d: usize = 0;
    while d < sides.len()
        invariant
            d <= sides@.len(),
            k < n,
            sides@.len() == b.len(),
            all_long(b, n as nat),
            v@.len() == n - k,
            forall|i: int|
                0 <= i < b.len() ==> (#[trigger] sides@[i])@ == (if i < d {
                    reflected(b[i], v@, vv, k as int)
                } else {
                    b[i]
                }),
        decreases sides@.len() - d,
    {
        assert(sides@[d as int]@ == b[d as int]);
        assert(b[d as int].len() == n);
        let next: Vec<F64> = reflect(&sides[d], &v, vv, k);
        sides.set(d, next);
        d += 1;
    }
    assert(columns_view(sides@) =~= s.sides);
}

/// The unknowns, by substitution.
fn substitute(unknowns: &Vec<Vec<F64>>, side: &Vec<F64>, n: usize) -> (r: Vec<F64>)
    requires
        all_long(columns_view(unknowns@), n as nat),
        side@.len() == n,
        unknowns@.len() <= n,
    ensures
        r@ == substituted(columns_view(unknowns@), side@, 0),
        r@.len() == unknowns@.len(),
{
    let ghost u = columns_view(unknowns@);
    let p: usize = unknowns.len();
    let mut rest: Vec<F64> = Vec::new();
    let mut k: usize = p;
    while k > 0
        invariant
            k <= p,
            p == unknowns@.len(),
            p <= n,
            u == columns_view(unknowns@),
            all_long(u, n as nat),
            side@.len() == n,
            rest@ == substituted(u, side@, k as int),
            rest@.len() == p - k,
        decreases k,
    {
        k -= 1;
        let mut row: Vec<F64> = Vec::new();
        let mut j: usize = k + 1;
        assert(u[k as int] == unknowns@[k as int]@);
        assert(u[k as int].len() == n);
        while j < p
            invariant
                k < j <= p,
                p == unknowns@.len(),
                p <= n,
                k < n,
                u == columns_view(unknowns@),
                all_long(u, n as nat),
                row@.len() == j - k - 1,
                forall|i: int|
                    0 <= i < row@.len() ==> #[trigger] row@[i] == u[k + 1 + i][k as int],
            decreases p - j,
        {
            assert(u[j as int] == unknowns@[j as int]@);
            assert(u[j as int].len() == n);
            row.push(unknowns[j][k]);
            j += 1;
        }
        assert(row@ =~= row_from(u, k as int, k + 1));
        let x: F64 = side[k].minus(dot(row.as_slice(), rest.as_slice())).over(unknowns[k][k]);
        let ghost before = rest@;
        rest.insert(0, x);
        assert(rest@ =~= seq![x] + before);
    }
    rest
}

fn pad(c: &Vec<F64>) -> (r: Cubic)
    ensures
        r == padded(c@),
{
    let zero: F64 = F64 { bits: 0 };
    Cubic {
        c0: if c.len() > 0 {
            c[0]
        } else {
            zero
        },
        c1: if c.len() > 1 {
            c[1]
        } else {
            zero
        },
        c2: if c.len() > 2 {
            c[2]
        } else {
            zero
        },
        c3: if c.len() > 3 {
            c[3]
        } else {
            zero
        },
    }
}

fn column(s: &Vec<F64>, j: usize) -> (r: Vec<F64>)
    ensures
        r@ == power_column(s@, j as int),
{
    let mut out: Vec<F64> = Vec::new();
    let mut i: usize = 0;
    while i < s.len()
        invariant
            i <= s@.len(),
            out@.len() == i,
            forall|k: int| 0 <= k < i ==> #[trigger] out@[k] == power_column(s@, j as int)[k],
        decreases s@.len() - i,
    {
        let p: Cubic = vandermonde(s[i]);
        out.push(
            if j == 0 {
                p.c0
            } else if j == 1 {
                p.c1
            } else if j == 2 {
                p.c2
            } else {
                p.c3
            },
        );
        i += 1;
    }
    assert(out@ =~= power_column(s@, j as int));
    out
}

fn sides_of(points: &Vec<Point>) -> (r: Vec<Vec<F64>>)
    ensures
        columns_view(r@) == system_of(points@, Seq::empty()).sides,
        r@.len() == 3,
{
    let mut x: Vec<F64> = Vec::new();
    let mut y: Vec<F64> = Vec::new();
    let mut t: Vec<F64> = Vec::new();
    let mut i: usize = 0;
    while i < points.len()
        invariant
            i <= points@.len(),
            x@.len() == i,
            y@.len() == i,
            t@.len() == i,
            forall|k: int| 0 <= k < i ==> #[trigger] x@[k] == points@[k].x.widened(),
            forall|k: int| 0 <= k < i ==> #[trigger] y@[k] == points@[k].y.widened(),
            forall|k: int| 0 <= k < i ==> #[trigger] t@[k] == points@[k].t.widened(),
        decreases points@.len() - i,
    {
        x.push(points[i].x.widen());
        y.push(points[i].y.widen());
        t.push(points[i].t.widen());
        i += 1;
    }
    let ghost wanted = system_of(points@, Seq::empty()).sides;
    assert(x@ =~= wanted[0]);
    assert(y@ =~= wanted[1]);
    assert(t@ =~= wanted[2]);
    let mut out: Vec<Vec<F64>> = Vec::new();
    out.push(x);
    out.push(y);
    out.push(t);
    assert(columns_view(out@) =~= wanted);
    out
}

/// Householder QR, applying each reflector to all three right-hand sides. With
/// fewer than four points the degree is one less than their number, and the rest
/// zero: not the cubic of least norm.
pub fn solve_coeffs<R: Fn(F64) -> F64, H: Fn(F32, F32) -> F32, A: Fn(F32, F32) -> F32>(
    points: &Vec<Point>,
    s: &Vec<F64>,
    num: &Numerics<R, H, A>,
) -> (r: Omega)
    requires
        num.wf(),
        s@.len() == points@.len(),
    ensures
        r == solved(num.math(), points@, s@),
{
    let ghost m = num.math();
    let n: usize = points.len();
    let zero: F64 = F64 { bits: 0 };
    let nothing: Cubic = Cubic { c0: zero, c1: zero, c2: zero, c3: zero };
    if n == 0 {
        return Omega { x: nothing, y: nothing, t: nothing };
    }
    if n == 1 {
        return Omega {
            x: Cubic { c0: points[0].x.widen(), c1: zero, c2: zero, c3: zero },
            y: Cubic { c0: points[0].y.widen(), c1: zero, c2: zero, c3: zero },
            t: nothing,
        };
    }
    let p: usize = if n < 4 {
        n
    } else {
        4
    };
    let ghost start = system_of(points@, s@);
    let mut unknowns: Vec<Vec<F64>> = Vec::new();
    let mut j: usize = 0;
    while j < p
        invariant
            j <= p,
            unknowns@.len() == j,
            forall|k: int| 0 <= k < j ==> (#[trigger] unknowns@[k])@ == power_column(s@, k),
        decreases p - j,
    {
        unknowns.push(column(s, j));
        j += 1;
    }
    assert(columns_view(unknowns@) =~= start.unknowns);
    let mut sides: Vec<Vec<F64>> = sides_of(points);
    assert(columns_view(sides@) =~= start.sides);
    assert(all_long(start.unknowns, n as nat));
    assert(all_long(start.sides, n as nat));
    let mut k: usize = 0;
    while k < p
        invariant
            k <= p,
            p <= n,
            p == start.unknowns.len(),
            num.wf(),
            m == num.math(),
            unknowns@.len() == p,
            sides@.len() == 3,
            columns_view(unknowns@) == eliminated(m, start, k as nat).unknowns,
            columns_view(sides@) == eliminated(m, start, k as nat).sides,
            all_long(columns_view(unknowns@), n as nat),
            all_long(columns_view(sides@), n as nat),
        decreases p - k,
    {
        eliminate_one(num, &mut unknowns, &mut sides, k, n);
        k += 1;
    }
    proof {
        assert(columns_view(sides@)[0] == sides@[0]@);
        assert(columns_view(sides@)[1] == sides@[1]@);
        assert(columns_view(sides@)[2] == sides@[2]@);
        assert(columns_view(sides@)[0].len() == n);
        assert(columns_view(sides@)[1].len() == n);
        assert(columns_view(sides@)[2].len() == n);
    }
    Omega {
        x: pad(&substitute(&unknowns, &sides[0], n)),
        y: pad(&substitute(&unknowns, &sides[1], n)),
        t: pad(&substitute(&unknowns, &sides[2], n)),
    }
}

/// How far a point is from a curve, component by component.
pub open spec fn residual(p: F32, c: Cubic, s: F64) -> F64 {
    p.widened().difference(value_at(c, powers(s)))
}

/// The squared distance of a point from a curve, time included.
pub open spec fn squared_error(p: Point, omega: Omega, s: F64) -> F64 {
    let rx = residual(p.x, omega.x, s);
    let ry = residual(p.y, omega.y, s);
    let rt = residual(p.t, omega.t, s);
    (F64 { bits: 0x8000_0000_0000_0000 }).sum(rx.product(rx)).sum(ry.product(ry)).sum(
        rt.product(rt),
    )
}

/// The squared distances of the first `n` points, summed from the left.
pub open spec fn error_sum(points: Seq<Point>, omega: Omega, s: Seq<F64>, n: nat) -> F64
    decreases n,
{
    if n == 0 {
        F64 { bits: 0x8000_0000_0000_0000 }
    } else {
        error_sum(points, omega, s, (n - 1) as nat).sum(
            squared_error(points[n - 1], omega, s[n - 1]),
        )
    }
}

fn sse(points: &Vec<Point>, omega: &Omega, s: &Vec<F64>) -> (r: F64)
    requires
        points@.len() == s@.len(),
    ensures
        r == error_sum(points@, *omega, s@, points@.len()),
{
    let mut total: F64 = F64 { bits: 0x8000_0000_0000_0000 };
    let mut i: usize = 0;
    while i < points.len()
        invariant
            i <= points@.len(),
            points@.len() == s@.len(),
            total == error_sum(points@, *omega, s@, i as nat),
        decreases points@.len() - i,
    {
        let p: Point = points[i];
        let b: Cubic = vandermonde(s[i]);
        let rx: F64 = p.x.widen().minus(evaluate(omega.x, b));
        let ry: F64 = p.y.widen().minus(evaluate(omega.y, b));
        let rt: F64 = p.t.widen().minus(evaluate(omega.t, b));
        let squared: F64 = (F64 { bits: 0x8000_0000_0000_0000 }).plus(rx.times(rx)).plus(
            ry.times(ry),
        ).plus(rt.times(rt));
        total = total.plus(squared);
        i += 1;
    }
    total
}

/// The length of the way to a point, in binary32.
pub open spec fn way_to(m: GeoMath, points: Seq<Point>, i: int) -> F32
    decreases i,
{
    if i <= 0 {
        F32 { bits: 0 }
    } else {
        way_to(m, points, i - 1).sum(
            (m.hypot)(
                points[i].x.difference(points[i - 1].x),
                points[i].y.difference(points[i - 1].y),
            ),
        )
    }
}

/// The first parameters: the share of the way, or of the points where the way is
/// next to nothing. The way is widened before it is divided.
pub open spec fn first_parameters(m: GeoMath, points: Seq<Point>) -> Seq<F64> {
    let n = points.len();
    let total = if n == 0 {
        F64 { bits: 0 }
    } else {
        way_to(m, points, n - 1).widened()
    };
    Seq::new(
        n,
        |i: int|
            if (F64 { bits: 0x3d71_9799_812d_ea11 }).below(total) {
                way_to(m, points, i).widened().quotient(total)
            } else if n > 1 {
                F64::of_int(i).quotient(F64::of_int(n - 1))
            } else {
                F64 { bits: 0 }
            },
    )
}

fn initial_s<R: Fn(F64) -> F64, H: Fn(F32, F32) -> F32, A: Fn(F32, F32) -> F32>(
    points: &Vec<Point>,
    num: &Numerics<R, H, A>,
) -> (r: Vec<F64>)
    requires
        num.wf(),
    ensures
        r@ == first_parameters(num.math(), points@),
{
    let ghost m = num.math();
    let n: usize = points.len();
    let mut ways: Vec<F64> = Vec::new();
    let mut way: F32 = F32 { bits: 0 };
    let mut i: usize = 0;
    while i < n
        invariant
            i <= n,
            n == points@.len(),
            num.wf(),
            m == num.math(),
            ways@.len() == i,
            i == 0 ==> way == (F32 { bits: 0 }),
            i > 0 ==> way == way_to(m, points@, i - 1),
            forall|k: int| 0 <= k < i ==> #[trigger] ways@[k] == way_to(m, points@, k).widened(),
        decreases n - i,
    {
        if i > 0 {
            let dx: F32 = points[i].x.minus(points[i - 1].x);
            let dy: F32 = points[i].y.minus(points[i - 1].y);
            way = way.plus(num.hypot(dx, dy));
        }
        ways.push(way.widen());
        i += 1;
    }
    let total: F64 = if n == 0 {
        F64 { bits: 0 }
    } else {
        ways[n - 1]
    };
    let mut out: Vec<F64> = Vec::new();
    i = 0;
    while i < n
        invariant
            i <= n,
            n == points@.len(),
            ways@.len() == n,
            n > 0 ==> total == way_to(m, points@, n - 1).widened(),
            forall|k: int| 0 <= k < n ==> #[trigger] ways@[k] == way_to(m, points@, k).widened(),
            out@.len() == i,
            forall|k: int| 0 <= k < i ==> #[trigger] out@[k] == first_parameters(m, points@)[k],
        decreases n - i,
    {
        let share: F64 = if (F64 { bits: 0x3d71_9799_812d_ea11 }).less(total) {
            ways[i].over(total)
        } else if n > 1 {
            F64::from_nat(i as u64).over(F64::from_nat((n - 1) as u64))
        } else {
            F64 { bits: 0 }
        };
        out.push(share);
        i += 1;
    }
    assert(out@ =~= first_parameters(m, points@));
    out
}

/// A parameter within zero and one.
pub open spec fn clamped(s: F64) -> F64 {
    if s.below(F64 { bits: 0 }) {
        F64 { bits: 0 }
    } else if (F64 { bits: 0x3ff0_0000_0000_0000 }).below(s) {
        F64 { bits: 0x3ff0_0000_0000_0000 }
    } else {
        s
    }
}

/// A Newton step of a parameter towards the foot of the point on the curve.
pub open spec fn stepped(p: Point, omega: Omega, s: F64) -> F64 {
    let rx = residual(p.x, omega.x, s);
    let ry = residual(p.y, omega.y, s);
    let d1x = value_at(omega.x, slopes(s));
    let d1y = value_at(omega.y, slopes(s));
    let d2x = value_at(omega.x, bends(s));
    let d2y = value_at(omega.y, bends(s));
    let f = d1x.product(rx).sum(d1y.product(ry));
    let fp = d2x.product(rx).sum(d2y.product(ry)).difference(
        d1x.product(d1x).sum(d1y.product(d1y)),
    );
    let step = if (F64 { bits: 0x3d71_9799_812d_ea11 }).below(fp.unsigned()) {
        f.quotient(fp)
    } else {
        F64 { bits: 0 }
    };
    clamped(s.difference(step))
}

fn newton(p: Point, omega: &Omega, s: F64) -> (r: F64)
    ensures
        r == stepped(p, *omega, s),
{
    let b: Cubic = vandermonde(s);
    let first: Cubic = Cubic {
        c0: F64 { bits: 0 },
        c1: F64 { bits: 0x3ff0_0000_0000_0000 },
        c2: (F64 { bits: 0x4000_0000_0000_0000 }).times(s),
        c3: (F64 { bits: 0x4008_0000_0000_0000 }).times(s).times(s),
    };
    let second: Cubic = Cubic {
        c0: F64 { bits: 0 },
        c1: F64 { bits: 0 },
        c2: F64 { bits: 0x4000_0000_0000_0000 },
        c3: (F64 { bits: 0x4018_0000_0000_0000 }).times(s),
    };
    let rx: F64 = p.x.widen().minus(evaluate(omega.x, b));
    let ry: F64 = p.y.widen().minus(evaluate(omega.y, b));
    let d1x: F64 = evaluate(omega.x, first);
    let d1y: F64 = evaluate(omega.y, first);
    let d2x: F64 = evaluate(omega.x, second);
    let d2y: F64 = evaluate(omega.y, second);
    let f: F64 = d1x.times(rx).plus(d1y.times(ry));
    let fp: F64 = d2x.times(rx).plus(d2y.times(ry)).minus(d1x.times(d1x).plus(d1y.times(d1y)));
    let step: F64 = if (F64 { bits: 0x3d71_9799_812d_ea11 }).less(fp.abs()) {
        f.over(fp)
    } else {
        F64 { bits: 0 }
    };
    let moved: F64 = s.minus(step);
    if moved.less(F64 { bits: 0 }) {
        F64 { bits: 0 }
    } else if (F64 { bits: 0x3ff0_0000_0000_0000 }).less(moved) {
        F64 { bits: 0x3ff0_0000_0000_0000 }
    } else {
        moved
    }
}

/// A fitted curve, its squared error, and the parameters of the points.
pub struct FitView {
    pub omega: Omega,
    pub error: F64,
    pub s: Seq<F64>,
}

/// The parameters of all points, one step on.
pub open spec fn all_stepped(points: Seq<Point>, omega: Omega, s: Seq<F64>) -> Seq<F64> {
    Seq::new(points.len(), |i: int| stepped(points[i], omega, s[i]))
}

/// At most so many rounds of steps and solves, up to the first that gains next to
/// nothing.
pub open spec fn refined(m: GeoMath, points: Seq<Point>, fit: FitView, rounds: nat) -> FitView
    decreases rounds,
{
    if rounds == 0 {
        fit
    } else {
        let s = all_stepped(points, fit.omega, fit.s);
        let omega = solved(m, points, s);
        let error = error_sum(points, omega, s, points.len());
        if fit.error.difference(F64 { bits: 0x3d71_9799_812d_ea11 }).below(error) {
            fit
        } else {
            refined(m, points, FitView { omega, error, s }, (rounds - 1) as nat)
        }
    }
}

/// The cubic that fits points best, by least squares and Newton steps in turn.
pub open spec fn fitted(m: GeoMath, points: Seq<Point>) -> FitView {
    let s = first_parameters(m, points);
    let omega = solved(m, points, s);
    let fit = FitView { omega, error: error_sum(points, omega, s, points.len()), s };
    if points.len() <= 1 {
        fit
    } else {
        refined(m, points, fit, 8)
    }
}

/// Fits one cubic by alternating least squares with Newton reprojection. Gives
/// coefficients, the squared error (time included), and the final parameters.
pub fn fit_cubic<R: Fn(F64) -> F64, H: Fn(F32, F32) -> F32, A: Fn(F32, F32) -> F32>(
    points: &Vec<Point>,
    num: &Numerics<R, H, A>,
) -> (r: (Omega, F64, Vec<F64>))
    requires
        num.wf(),
    ensures
        ({
            let fit = fitted(num.math(), points@);
            r.0 == fit.omega && r.1 == fit.error && r.2@ == fit.s
        }),
        r.2@.len() == points@.len(),
{
    let ghost m = num.math();
    let mut s: Vec<F64> = initial_s(points, num);
    let mut omega: Omega = solve_coeffs(points, &s, num);
    let mut error: F64 = sse(points, &omega, &s);
    if points.len() <= 1 {
        return (omega, error, s);
    }
    let mut round: usize = 0;
    while round < 8
        invariant
            round <= 8,
            num.wf(),
            m == num.math(),
            points@.len() > 1,
            s@.len() == points@.len(),
            fitted(m, points@) == refined(
                m,
                points@,
                FitView { omega, error, s: s@ },
                (8 - round) as nat,
            ),
        decreases 8 - round,
    {
        let mut updated: Vec<F64> = Vec::new();
        let mut i: usize = 0;
        while i < points.len()
            invariant
                i <= points@.len(),
                s@.len() == points@.len(),
                updated@.len() == i,
                forall|k: int|
                    0 <= k < i ==> #[trigger] updated@[k] == stepped(points@[k], omega, s@[k]),
            decreases points@.len() - i,
        {
            updated.push(newton(points[i], &omega, s[i]));
            i += 1;
        }
        assert(updated@ =~= all_stepped(points@, omega, s@));
        let next: Omega = solve_coeffs(points, &updated, num);
        let next_error: F64 = sse(points, &next, &updated);
        if error.minus(F64 { bits: 0x3d71_9799_812d_ea11 }).less(next_error) {
            return (omega, error, s);
        }
        s = updated;
        omega = next;
        error = next_error;
        round += 1;
    }
    (omega, error, s)
}

/// A control point's coordinates in binary32.
#[derive(Debug, Clone, Copy, PartialEq)]
pub struct Control {
    pub p0: F32,
    pub p1: F32,
    pub p2: F32,
    pub p3: F32,
}

/// The Bezier control values of a polynomial, computed in binary32.
pub open spec fn control_of(c: Cubic) -> Control {
    let (w0, w1, w2, w3) = (c.c0.narrowed(), c.c1.narrowed(), c.c2.narrowed(), c.c3.narrowed());
    let two = F32 { bits: 0x4000_0000 };
    let three = F32 { bits: 0x4040_0000 };
    Control {
        p0: w0,
        p1: w0.sum(w1.quotient(three)),
        p2: w0.sum(two.product(w1).quotient(three)).sum(w2.quotient(three)),
        p3: w0.sum(w1).sum(w2).sum(w3),
    }
}

/// The Bezier control values of a polynomial, computed in binary32 throughout.
pub fn control_points_f32(c: Cubic) -> (r: Control)
    ensures
        r == control_of(c),
{
    let w0: F32 = c.c0.narrow();
    let w1: F32 = c.c1.narrow();
    let w2: F32 = c.c2.narrow();
    let w3: F32 = c.c3.narrow();
    let two: F32 = F32 { bits: 0x4000_0000 };
    let three: F32 = F32 { bits: 0x4040_0000 };
    Control {
        p0: w0,
        p1: w0.plus(w1.over(three)),
        p2: w0.plus(two.times(w1).over(three)).plus(w2.over(three)),
        p3: w0.plus(w1).plus(w2).plus(w3),
    }
}

/// The Bezier control values of a polynomial.
pub open spec fn control64_of(c: Cubic) -> Cubic {
    let two = F64 { bits: 0x4000_0000_0000_0000 };
    let three = F64 { bits: 0x4008_0000_0000_0000 };
    Cubic {
        c0: c.c0,
        c1: c.c0.sum(c.c1.quotient(three)),
        c2: c.c0.sum(two.product(c.c1).quotient(three)).sum(c.c2.quotient(three)),
        c3: c.c0.sum(c.c1).sum(c.c2).sum(c.c3),
    }
}

fn control64(c: Cubic) -> (r: Cubic)
    ensures
        r == control64_of(c),
{
    let two: F64 = F64 { bits: 0x4000_0000_0000_0000 };
    let three: F64 = F64 { bits: 0x4008_0000_0000_0000 };
    Cubic {
        c0: c.c0,
        c1: c.c0.plus(c.c1.over(three)),
        c2: c.c0.plus(two.times(c.c1).over(three)).plus(c.c2.over(three)),
        c3: c.c0.plus(c.c1).plus(c.c2).plus(c.c3),
    }
}

/// Power basis to Bezier control points, for each component the four of them.
pub fn control_points(omega: &Omega) -> (r: Omega)
    ensures
        r == (Omega {
            x: control64_of(omega.x),
            y: control64_of(omega.y),
            t: control64_of(omega.t),
        }),
{
    Omega { x: control64(omega.x), y: control64(omega.y), t: control64(omega.t) }
}

/// The squared distance of a point from a curve in the plane.
pub open spec fn plane_error(p: Point, omega: Omega, s: F64) -> F64 {
    let dx = residual(p.x, omega.x, s);
    let dy = residual(p.y, omega.y, s);
    dx.product(dx).sum(dy.product(dy))
}

/// The greatest of the first `n` squared distances, and their sum.
pub open spec fn plane_errors(points: Seq<Point>, omega: Omega, s: Seq<F64>, n: nat) -> (F64, F64)
    decreases n,
{
    if n == 0 {
        (F64 { bits: 0 }, F64 { bits: 0 })
    } else {
        let (most, total) = plane_errors(points, omega, s, (n - 1) as nat);
        let squared = plane_error(points[n - 1], omega, s[n - 1]);
        (
            if most.below(squared) || squared.nan() {
                squared
            } else {
                most
            },
            total.sum(squared),
        )
    }
}

/// Whether a curve strays from points: at one of them, or on the whole. Time
/// influences the fit, but never this.
pub open spec fn strays(
    m: GeoMath,
    points: Seq<Point>,
    omega: Omega,
    s: Seq<F64>,
    cfg: CurveSettings,
    d: F64,
) -> bool {
    let (most, total) = plane_errors(points, omega, s, points.len());
    ||| cfg.tol2.product(d).below((m.root)(most))
    ||| cfg.tol3.product(d).below((m.root)(total.quotient(F64::of_int(points.len() as int))))
}

/// The product of two vectors in the plane.
pub open spec fn plane_dot(ax: F32, ay: F32, bx: F32, by: F32) -> F32 {
    ax.product(bx).sum(ay.product(by))
}

/// Whether a curve bends too much: its legs are too long against its chord, or one
/// of them turns back.
pub open spec fn turns(m: GeoMath, omega: Omega, cfg: CurveSettings) -> bool {
    let (x, y) = (control_of(omega.x), control_of(omega.y));
    let (vx, vy) = (x.p1.difference(x.p0), y.p1.difference(y.p0));
    let (mx, my) = (x.p2.difference(x.p1), y.p2.difference(y.p1));
    let (wx, wy) = (x.p2.difference(x.p3), y.p2.difference(y.p3));
    let lv = m.root32(plane_dot(vx, vy, vx, vy));
    let lm = m.root32(plane_dot(mx, my, mx, my));
    let lw = m.root32(plane_dot(wx, wy, wx, wy));
    let (cx, cy) = (x.p3.difference(x.p0), y.p3.difference(y.p0));
    let chord = m.root32(plane_dot(cx, cy, cx, cy));
    let ratio = lv.sum(lm).sum(lw).quotient(chord);
    let a = plane_dot(vx, vy, mx, my).quotient(lv);
    let b = plane_dot(wx, wy, mx, my).opposite().quotient(lw);
    let least = if b.below(a) {
        b
    } else {
        a
    };
    let score = least.quotient(lm);
    !((F32 { bits: 0 }).below(chord) && ratio.at_most(cfg.max_arc_ratio.narrowed())
        && cfg.split_cos_threshold.narrowed().at_most(score))
}

fn dot32(ax: F32, ay: F32, bx: F32, by: F32) -> (r: F32)
    ensures
        r == plane_dot(ax, ay, bx, by),
{
    ax.times(bx).plus(ay.times(by))
}

fn is_turning<R: Fn(F64) -> F64, H: Fn(F32, F32) -> F32, A: Fn(F32, F32) -> F32>(
    omega: &Omega,
    cfg: &CurveSettings,
    num: &Numerics<R, H, A>,
) -> (r: bool)
    requires
        num.wf(),
    ensures
        r == turns(num.math(), *omega, *cfg),
{
    let x: Control = control_points_f32(omega.x);
    let y: Control = control_points_f32(omega.y);
    let vx: F32 = x.p1.minus(x.p0);
    let vy: F32 = y.p1.minus(y.p0);
    let mx: F32 = x.p2.minus(x.p1);
    let my: F32 = y.p2.minus(y.p1);
    let wx: F32 = x.p2.minus(x.p3);
    let wy: F32 = y.p2.minus(y.p3);
    let lv: F32 = num.root32(dot32(vx, vy, vx, vy));
    let lm: F32 = num.root32(dot32(mx, my, mx, my));
    let lw: F32 = num.root32(dot32(wx, wy, wx, wy));
    let cx: F32 = x.p3.minus(x.p0);
    let cy: F32 = y.p3.minus(y.p0);
    let chord: F32 = num.root32(dot32(cx, cy, cx, cy));
    let ratio: F32 = lv.plus(lm).plus(lw).over(chord);
    let a: F32 = dot32(vx, vy, mx, my).over(lv);
    let b: F32 = dot32(wx, wy, mx, my).negated().over(lw);
    let least: F32 = if b.less(a) {
        b
    } else {
        a
    };
    let score: F32 = least.over(lm);
    !((F32 { bits: 0 }).less(chord) && ratio.no_more(cfg.max_arc_ratio.narrow())
        && cfg.split_cos_threshold.narrow().no_more(score))
}

/// What a fitted curve fails: whether it strays, and, with at least four points,
/// whether it bends too much.
pub open spec fn failures(
    m: GeoMath,
    points: Seq<Point>,
    omega: Omega,
    s: Seq<F64>,
    cfg: CurveSettings,
    d: F64,
) -> (bool, bool) {
    (
        strays(m, points, omega, s, cfg, d),
        points.len() >= 4 && turns(m, omega, cfg),
    )
}

proof fn lemma_errors_ignore_time(
    a: Seq<Point>,
    b: Seq<Point>,
    f: Omega,
    g: Omega,
    s: Seq<F64>,
    n: nat,
)
    requires
        n <= a.len(),
        a.len() == b.len(),
        forall|i: int| 0 <= i < a.len() ==> (#[trigger] a[i]).x == b[i].x && a[i].y == b[i].y,
        f.x == g.x,
        f.y == g.y,
    ensures
        plane_errors(a, f, s, n) == plane_errors(b, g, s, n),
    decreases n,
{
    if n > 0 {
        lemma_errors_ignore_time(a, b, f, g, s, (n - 1) as nat);
        assert(a[n - 1].x == b[n - 1].x && a[n - 1].y == b[n - 1].y);
    }
}

/// Time never decides whether a curve is accepted: points and curves that differ in
/// time alone fail alike.
pub proof fn lemma_failures_ignore_time(
    m: GeoMath,
    a: Seq<Point>,
    b: Seq<Point>,
    f: Omega,
    g: Omega,
    s: Seq<F64>,
    cfg: CurveSettings,
    d: F64,
)
    requires
        a.len() == b.len(),
        forall|i: int| 0 <= i < a.len() ==> (#[trigger] a[i]).x == b[i].x && a[i].y == b[i].y,
        f.x == g.x,
        f.y == g.y,
    ensures
        failures(m, a, f, s, cfg, d) == failures(m, b, g, s, cfg, d),
{
    lemma_errors_ignore_time(a, b, f, g, s, a.len());
}

/// What a fitted curve fails.
pub fn fit_failures<R: Fn(F64) -> F64, H: Fn(F32, F32) -> F32, A: Fn(F32, F32) -> F32>(
    points: &Vec<Point>,
    omega: &Omega,
    s: &Vec<F64>,
    cfg: &CurveSettings,
    d: F64,
    num: &Numerics<R, H, A>,
) -> (r: (bool, bool))
    requires
        num.wf(),
        s@.len() == points@.len(),
    ensures
        r == failures(num.math(), points@, *omega, s@, *cfg, d),
{
    let mut most: F64 = F64 { bits: 0 };
    let mut total: F64 = F64 { bits: 0 };
    let mut i: usize = 0;
    while i < points.len()
        invariant
            i <= points@.len(),
            s@.len() == points@.len(),
            (most, total) == plane_errors(points@, *omega, s@, i as nat),
        decreases points@.len() - i,
    {
        let b: Cubic = vandermonde(s[i]);
        let dx: F64 = points[i].x.widen().minus(evaluate(omega.x, b));
        let dy: F64 = points[i].y.widen().minus(evaluate(omega.y, b));
        let squared: F64 = dx.times(dx).plus(dy.times(dy));
        if most.less(squared) || squared.is_nan() {
            most = squared;
        }
        total = total.plus(squared);
        i += 1;
    }
    let wrong: bool = cfg.tol2.times(d).less(num.root(most)) || cfg.tol3.times(d).less(
        num.root(total.over(F64::from_nat(points.len() as u64))),
    );
    (wrong, points.len() >= 4 && is_turning(omega, cfg, num))
}

/// The last place before `i`, from `j` down, that is not near point `i`; below zero
/// where all are.
pub open spec fn far_before(m: GeoMath, points: Seq<Point>, i: int, radius: F32, j: int) -> int
    decreases j + 1,
{
    if j < 0 {
        -1
    } else if distance_of(m, points[i], points[j]).below(radius) {
        far_before(m, points, i, radius, j - 1)
    } else {
        j
    }
}

/// The first place behind `i`, from `j` on, that is not near point `i`; the end where
/// all are.
pub open spec fn far_behind(m: GeoMath, points: Seq<Point>, i: int, radius: F32, j: int) -> int
    decreases points.len() - j,
{
    if j >= points.len() {
        points.len() as int
    } else if distance_of(m, points[j], points[i]).below(radius) {
        far_behind(m, points, i, radius, j + 1)
    } else {
        j
    }
}

/// The cosine of the way's turn at a point; none where a side has no far point.
pub open spec fn turn_at(m: GeoMath, points: Seq<Point>, i: int, radius: F32) -> Option<F32> {
    let l = far_before(m, points, i, radius, i - 1);
    let r = far_behind(m, points, i, radius, i + 1);
    if l < 0 || r >= points.len() {
        None
    } else {
        let (ax, ay) = (
            points[i].x.difference(points[l].x),
            points[i].y.difference(points[l].y),
        );
        let (bx, by) = (
            points[r].x.difference(points[i].x),
            points[r].y.difference(points[i].y),
        );
        Some(
            plane_dot(ax, ay, bx, by).quotient(
                m.root32(plane_dot(ax, ay, ax, ay)).product(
                    m.root32(plane_dot(bx, by, bx, by)),
                ),
            ),
        )
    }
}

/// The least cosine among the inner points before `n`, and the first that has it;
/// none where no cosine is below one.
pub open spec fn sharpest(m: GeoMath, points: Seq<Point>, radius: F32, n: int) -> (
    F32,
    Option<usize>,
)
    decreases n,
{
    if n <= 1 {
        (F32 { bits: 0x3f80_0000 }, None)
    } else {
        let (best, at) = sharpest(m, points, radius, n - 1);
        match turn_at(m, points, n - 1, radius) {
            Some(score) => if score.below(best) {
                (score, Some((n - 1) as usize))
            } else {
                (best, at)
            },
            None => (best, at),
        }
    }
}

fn turn<R: Fn(F64) -> F64, H: Fn(F32, F32) -> F32, A: Fn(F32, F32) -> F32>(
    points: &Vec<Point>,
    i: usize,
    radius: F32,
    num: &Numerics<R, H, A>,
) -> (r: Option<F32>)
    requires
        num.wf(),
        i < points@.len(),
    ensures
        r == turn_at(num.math(), points@, i as int, radius),
{
    let ghost m = num.math();
    let n: usize = points.len();
    let mut before: usize = i;
    while before > 0 && distance(num, points[i], points[before - 1]).less(radius)
        invariant
            before <= i,
            i < points@.len(),
            num.wf(),
            m == num.math(),
            far_before(m, points@, i as int, radius, i - 1) == far_before(
                m,
                points@,
                i as int,
                radius,
                before - 1,
            ),
        decreases before,
    {
        before -= 1;
    }
    let mut behind: usize = i + 1;
    while behind < points.len() && distance(num, points[behind], points[i]).less(radius)
        invariant
            i < behind <= points@.len(),
            num.wf(),
            m == num.math(),
            far_behind(m, points@, i as int, radius, i + 1) == far_behind(
                m,
                points@,
                i as int,
                radius,
                behind as int,
            ),
        decreases points@.len() - behind,
    {
        behind += 1;
    }
    if before == 0 || behind >= points.len() {
        return None;
    }
    let l: usize = before - 1;
    let ax: F32 = points[i].x.minus(points[l].x);
    let ay: F32 = points[i].y.minus(points[l].y);
    let bx: F32 = points[behind].x.minus(points[i].x);
    let by: F32 = points[behind].y.minus(points[i].y);
    Some(
        dot32(ax, ay, bx, by).over(
            num.root32(dot32(ax, ay, ax, ay)).times(num.root32(dot32(bx, by, bx, by))),
        ),
    )
}

/// The sharpest corner of points: the earliest of the least cosines, none where none
/// is below one.
pub fn split_at_min_angle<R: Fn(F64) -> F64, H: Fn(F32, F32) -> F32, A: Fn(F32, F32) -> F32>(
    points: &Vec<Point>,
    radius: F64,
    num: &Numerics<R, H, A>,
) -> (r: Option<usize>)
    requires
        num.wf(),
        points@.len() > 0,
    ensures
        r == sharpest(num.math(), points@, radius.narrowed(), points@.len() - 1).1,
{
    let ghost m = num.math();
    let near: F32 = radius.narrow();
    let mut best_score: F32 = F32 { bits: 0x3f80_0000 };
    let mut best: Option<usize> = None;
    let mut i: usize = 1;
    while i < points.len() - 1
        invariant
            1 <= i,
            points@.len() > 0,
            i < points@.len() || i == 1,
            num.wf(),
            m == num.math(),
            near == radius.narrowed(),
            (best_score, best) == sharpest(m, points@, near, i as int),
        decreases points@.len() - i,
    {
        if let Some(score) = turn(points, i, near, num) {
            if score.less(best_score) {
                best_score = score;
                best = Some(i);
            }
        }
        i += 1;
    }
    best
}

/// A parameter among a hundred from the second to the last but one, evenly spaced
/// from the end that is nearer to zero.
pub open spec fn sample_at(a: F32, b: F32, j: int) -> F32 {
    let h = b.difference(a).quotient(F32 { bits: 0x42c6_0000 });
    if a.unsigned().at_most(b.unsigned()) {
        if j == 99 {
            b
        } else {
            a.sum(F32::of_int(j).product(h))
        }
    } else if j == 0 {
        a
    } else {
        b.sum(F32::of_int(j).difference(F32 { bits: 0x42c6_0000 }).product(h))
    }
}

/// The first and the second derivative of a polynomial, in binary32.
pub open spec fn derivatives(c: Cubic, t: F32) -> (F32, F32) {
    let zero = F32 { bits: 0 };
    let two = F32 { bits: 0x4000_0000 };
    let (w0, w1, w2, w3) = (c.c0.narrowed(), c.c1.narrowed(), c.c2.narrowed(), c.c3.narrowed());
    (
        zero.product(w0).sum(w1).sum(two.product(t).product(w2)).sum(
            (F32 { bits: 0x4040_0000 }).product(t).product(t).product(w3),
        ),
        zero.product(w0).sum(zero.product(w1)).sum(two.product(w2)).sum(
            (F32 { bits: 0x40c0_0000 }).product(t).product(w3),
        ),
    )
}

/// The curvature of a curve, zero where it stands still.
pub open spec fn curvature(m: GeoMath, omega: Omega, t: F32) -> F32 {
    let (x1, x2) = derivatives(omega.x, t);
    let (y1, y2) = derivatives(omega.y, t);
    let num = x1.product(y2).difference(y1.product(x2)).unsigned();
    let speed = plane_dot(x1, y1, x1, y1);
    let den = m.root32(speed.product(speed).product(speed));
    if (F32 { bits: 0 }).below(den) {
        num.quotient(den)
    } else {
        F32 { bits: 0 }
    }
}

/// The greatest curvature of the first `n` samples, and the first parameter that has
/// it.
pub open spec fn most_curved(m: GeoMath, omega: Omega, a: F32, b: F32, n: nat) -> (F32, F32)
    decreases n,
{
    if n == 0 {
        (F32 { bits: 0xbf80_0000 }, a)
    } else {
        let (best, star) = most_curved(m, omega, a, b, (n - 1) as nat);
        let t = sample_at(a, b, n - 1);
        let kappa = curvature(m, omega, t);
        if best.below(kappa) || (kappa.nan() && !best.nan()) {
            (kappa, t)
        } else {
            (best, star)
        }
    }
}

/// The parameter nearest to another among the inner ones before `n`, and its place.
pub open spec fn closest(s: Seq<F64>, star: F32, n: int) -> (F32, usize)
    decreases n,
{
    if n <= 2 {
        (s[1].narrowed().difference(star).unsigned(), 1)
    } else {
        let (best, at) = closest(s, star, n - 1);
        let delta = s[n - 1].narrowed().difference(star).unsigned();
        if delta.below(best) || (delta.nan() && !best.nan()) {
            (delta, (n - 1) as usize)
        } else {
            (best, at)
        }
    }
}

/// The place whose parameter is nearest to that of the greatest curvature.
pub open spec fn bend_of(m: GeoMath, omega: Omega, s: Seq<F64>) -> usize {
    let a = s[1].narrowed();
    let b = s[s.len() - 2].narrowed();
    closest(s, most_curved(m, omega, a, b, 100).1, s.len() - 1).1
}

fn sample(a: F32, b: F32, j: i64) -> (r: F32)
    ensures
        r == sample_at(a, b, j as int),
{
    let h: F32 = b.minus(a).over(F32 { bits: 0x42c6_0000 });
    if a.abs().no_more(b.abs()) {
        if j == 99 {
            b
        } else {
            a.plus(F32::from_int(j).times(h))
        }
    } else if j == 0 {
        a
    } else {
        b.plus(F32::from_int(j).minus(F32 { bits: 0x42c6_0000 }).times(h))
    }
}

fn derive(c: Cubic, t: F32) -> (r: (F32, F32))
    ensures
        r == derivatives(c, t),
{
    let zero: F32 = F32 { bits: 0 };
    let two: F32 = F32 { bits: 0x4000_0000 };
    let w0: F32 = c.c0.narrow();
    let w1: F32 = c.c1.narrow();
    let w2: F32 = c.c2.narrow();
    let w3: F32 = c.c3.narrow();
    (
        zero.times(w0).plus(w1).plus(two.times(t).times(w2)).plus(
            (F32 { bits: 0x4040_0000 }).times(t).times(t).times(w3),
        ),
        zero.times(w0).plus(zero.times(w1)).plus(two.times(w2)).plus(
            (F32 { bits: 0x40c0_0000 }).times(t).times(w3),
        ),
    )
}

/// Where a curve bends most, as the place of the nearest parameter; never an end.
/// Even where it bends nowhere there is such a place.
pub fn split_at_max_curvature<
    R: Fn(F64) -> F64,
    H: Fn(F32, F32) -> F32,
    A: Fn(F32, F32) -> F32,
>(omega: &Omega, s: &Vec<F64>, num: &Numerics<R, H, A>) -> (r: usize)
    requires
        num.wf(),
        s@.len() >= 3,
    ensures
        r == bend_of(num.math(), *omega, s@),
{
    let ghost m = num.math();
    let n: usize = s.len();
    let a: F32 = s[1].narrow();
    let b: F32 = s[n - 2].narrow();
    let mut best: F32 = F32 { bits: 0xbf80_0000 };
    let mut star: F32 = a;
    let mut j: i64 = 0;
    while j < 100
        invariant
            0 <= j <= 100,
            num.wf(),
            m == num.math(),
            (best, star) == most_curved(m, *omega, a, b, j as nat),
        decreases 100 - j,
    {
        let t: F32 = sample(a, b, j);
        let (x1, x2) = derive(omega.x, t);
        let (y1, y2) = derive(omega.y, t);
        let size: F32 = x1.times(y2).minus(y1.times(x2)).abs();
        let speed: F32 = dot32(x1, y1, x1, y1);
        let den: F32 = num.root32(speed.times(speed).times(speed));
        let kappa: F32 = if (F32 { bits: 0 }).less(den) {
            size.over(den)
        } else {
            F32 { bits: 0 }
        };
        if best.less(kappa) || (kappa.is_nan() && !best.is_nan()) {
            best = kappa;
            star = t;
        }
        j += 1;
    }
    let mut at: usize = 1;
    let mut nearest: F32 = s[1].narrow().minus(star).abs();
    let mut i: usize = 2;
    while i < n - 1
        invariant
            2 <= i,
            n == s@.len(),
            n >= 3,
            i <= n - 1 || i == 2,
            (nearest, at) == closest(s@, star, i as int),
        decreases n - i,
    {
        let delta: F32 = s[i].narrow().minus(star).abs();
        if delta.less(nearest) || (delta.is_nan() && !nearest.is_nan()) {
            nearest = delta;
            at = i;
        }
        i += 1;
    }
    at
}

} // verus!
