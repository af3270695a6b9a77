//! The least squares of [`crate::fit`] over whatever adds, multiplies, divides and has
//! roots: what is solved there with rounding has, without it, a residual that stands at a
//! right angle to every column of the unknowns.
use vstd::prelude::*;

use crate::bezier::{field64, reals, Field};
use crate::fit::{
    dot64, eliminate, eliminated, reflected, reflector, row_from, solved, substituted, system_of,
    System,
};
use crate::float::F64;
use crate::ink::Point;
use crate::numerics::GeoMath;

verus! {

/// What systems are solved with.
#[verifier::reject_recursive_types(T)]
pub struct Solver<T> {
    pub field: Field<T>,
    /// What a sum of products starts from.
    pub seed: T,
    pub root: spec_fn(T) -> T,
    /// A length with the sign that a number does not have.
    pub against: spec_fn(T, T) -> T,
    pub null: spec_fn(T) -> bool,
}

/// A system by its columns.
pub struct Table<T> {
    pub unknowns: Seq<Seq<T>>,
    pub sides: Seq<Seq<T>>,
}

impl<T> Solver<T> {
    /// The sum of the products of the first `n` numbers.
    pub open spec fn dot(self, a: Seq<T>, b: Seq<T>, n: nat) -> T
        decreases n,
    {
        if n == 0 {
            self.seed
        } else {
            (self.field.plus)(
                self.dot(a, b, (n - 1) as nat),
                (self.field.times)(a[n - 1], b[n - 1]),
            )
        }
    }

    pub open spec fn reflector(self, column: Seq<T>, k: int) -> (T, Seq<T>) {
        let tail = column.skip(k);
        let alpha = (self.against)((self.root)(self.dot(tail, tail, tail.len())), column[k]);
        (alpha, tail.update(0, (self.field.minus)(column[k], alpha)))
    }

    pub open spec fn reflected(self, column: Seq<T>, v: Seq<T>, vv: T, k: int) -> Seq<T> {
        let f = self.field;
        let scale = (f.over)((f.times)(f.two, self.dot(v, column.skip(k), v.len())), vv);
        Seq::new(
            column.len(),
            |i: int|
                if i < k {
                    column[i]
                } else {
                    (f.minus)(column[i], (f.times)(scale, v[i - k]))
                },
        )
    }

    pub open spec fn eliminate(self, s: Table<T>, k: int) -> Table<T> {
        let (alpha, v) = self.reflector(s.unknowns[k], k);
        let vv = self.dot(v, v, v.len());
        if (self.null)(vv) {
            s
        } else {
            Table {
                unknowns: Seq::new(
                    s.unknowns.len(),
                    |j: int|
                        if j < k {
                            s.unknowns[j]
                        } else if j == k {
                            s.unknowns[k].update(k, alpha)
                        } else {
                            self.reflected(s.unknowns[j], v, vv, k)
                        },
                ),
                sides: Seq::new(s.sides.len(), |d: int| self.reflected(s.sides[d], v, vv, k)),
            }
        }
    }

    pub open spec fn eliminated(self, s: Table<T>, k: nat) -> Table<T>
        decreases k,
    {
        if k == 0 {
            s
        } else {
            self.eliminate(self.eliminated(s, (k - 1) as nat), k - 1)
        }
    }

    pub open spec fn row_from(self, unknowns: Seq<Seq<T>>, k: int, j: int) -> Seq<T> {
        Seq::new((unknowns.len() - j) as nat, |i: int| unknowns[j + i][k])
    }

    pub open spec fn substituted(self, unknowns: Seq<Seq<T>>, side: Seq<T>, k: int) -> Seq<T>
        decreases unknowns.len() - k,
    {
        if k < 0 || k >= unknowns.len() {
            Seq::empty()
        } else {
            let rest = self.substituted(unknowns, side, k + 1);
            let row = self.row_from(unknowns, k, k + 1);
            seq![
                (self.field.over)(
                    (self.field.minus)(side[k], self.dot(row, rest, row.len())),
                    unknowns[k][k],
                ),
            ] + rest
        }
    }

    /// The unknowns of a system, for one of its sides.
    pub open spec fn solution(self, s: Table<T>, d: int) -> Seq<T> {
        let end = self.eliminated(s, s.unknowns.len());
        self.substituted(end.unknowns, end.sides[d], 0)
    }
}

/// Solving with binary64.
pub open spec fn solver64(m: GeoMath) -> Solver<F64> {
    Solver {
        field: field64(),
        seed: F64 { bits: 0x8000_0000_0000_0000 },
        root: m.root,
        against: |length: F64, x: F64| length.with_sign(!x.negative()),
        null: |x: F64| x.index() == 0,
    }
}

/// A system as a table.
pub open spec fn table(s: System) -> Table<F64> {
    Table { unknowns: s.unknowns, sides: s.sides }
}

proof fn lemma_dot64(m: GeoMath, a: Seq<F64>, b: Seq<F64>, n: nat)
    ensures
        dot64(a, b, n) == solver64(m).dot(a, b, n),
    decreases n,
{
    if n > 0 {
        lemma_dot64(m, a, b, (n - 1) as nat);
    }
}

proof fn lemma_reflected64(m: GeoMath, column: Seq<F64>, v: Seq<F64>, vv: F64, k: int)
    ensures
        reflected(column, v, vv, k) == solver64(m).reflected(column, v, vv, k),
{
    lemma_dot64(m, v, column.skip(k), v.len());
    assert(reflected(column, v, vv, k) =~= solver64(m).reflected(column, v, vv, k));
}

proof fn lemma_eliminate64(m: GeoMath, s: System, k: int)
    ensures
        table(eliminate(m, s, k)) == solver64(m).eliminate(table(s), k),
{
    let tail = s.unknowns[k].skip(k);
    lemma_dot64(m, tail, tail, tail.len());
    let (alpha, v) = reflector(m, s.unknowns[k], k);
    assert((alpha, v) == solver64(m).reflector(s.unknowns[k], k));
    lemma_dot64(m, v, v, v.len());
    let vv = dot64(v, v, v.len());
    assert forall|c: Seq<F64>| #[trigger]
        reflected(c, v, vv, k) == solver64(m).reflected(c, v, vv, k) by {
        lemma_reflected64(m, c, v, vv, k);
    }
    let (a, b) = (table(eliminate(m, s, k)), solver64(m).eliminate(table(s), k));
    if vv.index() != 0 {
        assert forall|j: int| 0 <= j < a.unknowns.len() implies a.unknowns[j] == b.unknowns[j] by {
            lemma_reflected64(m, s.unknowns[j], v, vv, k);
        }
        assert forall|d: int| 0 <= d < a.sides.len() implies a.sides[d] == b.sides[d] by {
            lemma_reflected64(m, s.sides[d], v, vv, k);
        }
        assert(a.unknowns =~= b.unknowns);
        assert(a.sides =~= b.sides);
    }
}

proof fn lemma_eliminated64(m: GeoMath, s: System, k: nat)
    ensures
        table(eliminated(m, s, k)) == solver64(m).eliminated(table(s), k),
    decreases k,
{
    if k > 0 {
        lemma_eliminated64(m, s, (k - 1) as nat);
        lemma_eliminate64(m, eliminated(m, s, (k - 1) as nat), k - 1);
    }
}

proof fn lemma_substituted64(m: GeoMath, unknowns: Seq<Seq<F64>>, side: Seq<F64>, k: int)
    ensures
        substituted(unknowns, side, k) == solver64(m).substituted(unknowns, side, k),
    decreases unknowns.len() - k,
{
    if 0 <= k < unknowns.len() {
        lemma_substituted64(m, unknowns, side, k + 1);
        let rest = substituted(unknowns, side, k + 1);
        let row = row_from(unknowns, k, k + 1);
        assert(row =~= solver64(m).row_from(unknowns, k, k + 1));
        lemma_dot64(m, row, rest, row.len());
    }
}

/// The coefficients of a curve are the solutions of one system, the powers of the points'
/// parameters, for the points' places across, their places up and their times.
pub proof fn lemma_curve_is_solution(m: GeoMath, points: Seq<Point>, s: Seq<F64>)
    requires
        points.len() >= 2,
    ensures
        ({
            let w = solver64(m);
            let t = table(system_of(points, s));
            let omega = solved(m, points, s);
            &&& t.sides[0] == points.map_values(|p: Point| p.x.widened())
            &&& t.sides[1] == points.map_values(|p: Point| p.y.widened())
            &&& t.sides[2] == points.map_values(|p: Point| p.t.widened())
            &&& omega.x == crate::fit::padded(w.solution(t, 0))
            &&& omega.y == crate::fit::padded(w.solution(t, 1))
            &&& omega.t == crate::fit::padded(w.solution(t, 2))
        }),
{
    let start = system_of(points, s);
    let end = eliminated(m, start, start.unknowns.len());
    lemma_eliminated64(m, start, start.unknowns.len());
    lemma_substituted64(m, end.unknowns, end.sides[0], 0);
    lemma_substituted64(m, end.unknowns, end.sides[1], 0);
    lemma_substituted64(m, end.unknowns, end.sides[2], 0);
}

/// Solving with real numbers.
pub open spec fn exact_solver(root: spec_fn(real) -> real) -> Solver<real> {
    Solver {
        field: reals(),
        seed: 0 as real,
        root,
        against: |length: real, x: real|
            if x < 0 as real {
                length
            } else {
                -length
            },
        null: |x: real| x == 0 as real,
    }
}

/// Whether a function is the square root.
pub open spec fn is_root(root: spec_fn(real) -> real) -> bool {
    forall|x: real| x >= 0 as real ==> #[trigger] root(x) * root(x) == x
}

proof fn lemma_ring(a: real, b: real, c: real)
    ensures
        a * (b + c) == a * b + a * c,
        a * (b - c) == a * b - a * c,
        (a + b) * c == a * c + b * c,
        (a - b) * c == a * c - b * c,
        a * b == b * a,
        a * (b * c) == (a * b) * c,
        a * (0 as real) == 0 as real,
        (0 as real) * a == 0 as real,
{
    assert(a * (b + c) == a * b + a * c) by (nonlinear_arith);
    assert(a * (b - c) == a * b - a * c) by (nonlinear_arith);
    assert((a + b) * c == a * c + b * c) by (nonlinear_arith);
    assert((a - b) * c == a * c - b * c) by (nonlinear_arith);
    assert(a * b == b * a) by (nonlinear_arith);
    assert(a * (b * c) == (a * b) * c) by (nonlinear_arith);
    assert(a * (0 as real) == 0 as real) by (nonlinear_arith);
    assert((0 as real) * a == 0 as real) by (nonlinear_arith);
}

impl Solver<real> {
    proof fn lemma_dot_flip(self, a: Seq<real>, b: Seq<real>, n: nat)
        requires
            self.field == reals(),
        ensures
            self.dot(a, b, n) == self.dot(b, a, n),
        decreases n,
    {
        if n > 0 {
            self.lemma_dot_flip(a, b, (n - 1) as nat);
            lemma_ring(a[n - 1], b[n - 1], b[n - 1]);
        }
    }

    /// Numbers that agree wherever they count have the same products.
    proof fn lemma_dot_agree(self, a: Seq<real>, b: Seq<real>, c: Seq<real>, n: nat)
        requires
            self.field == reals(),
            forall|i: int|
                0 <= i < n ==> #[trigger] b[i] == c[i] || a[i] == 0 as real,
        ensures
            self.dot(a, b, n) == self.dot(a, c, n),
        decreases n,
    {
        if n > 0 {
            self.lemma_dot_agree(a, b, c, (n - 1) as nat);
            lemma_ring(b[n - 1], b[n - 1], b[n - 1]);
            lemma_ring(c[n - 1], c[n - 1], c[n - 1]);
            assert(b[n - 1] == c[n - 1] || a[n - 1] == 0 as real);
        }
    }

    /// A multiple taken away.
    proof fn lemma_dot_less(
        self,
        a: Seq<real>,
        v: Seq<real>,
        s: real,
        c: Seq<real>,
        b: Seq<real>,
        n: nat,
    )
        requires
            self.field == reals(),
            self.seed == 0 as real,
            forall|i: int| 0 <= i < n ==> #[trigger] c[i] == a[i] - s * v[i],
        ensures
            self.dot(c, b, n) == self.dot(a, b, n) - s * self.dot(v, b, n),
        decreases n,
    {
        if n == 0 {
            lemma_ring(s, s, s);
        } else {
            let m = (n - 1) as nat;
            self.lemma_dot_less(a, v, s, c, b, m);
            assert(c[n - 1] == a[n - 1] - s * v[n - 1]);
            lemma_ring(a[n - 1], s * v[n - 1], b[n - 1]);
            lemma_ring(s, v[n - 1], b[n - 1]);
            lemma_ring(s, self.dot(v, b, m), v[n - 1] * b[n - 1]);
        }
    }

    proof fn lemma_dot_split(self, a: Seq<real>, b: Seq<real>, k: nat, n: nat)
        requires
            self.field == reals(),
            self.seed == 0 as real,
            k <= n,
            n <= a.len(),
            n <= b.len(),
        ensures
            self.dot(a, b, n) == self.dot(a, b, k) + self.dot(
                a.skip(k as int),
                b.skip(k as int),
                (n - k) as nat,
            ),
        decreases n,
    {
        if n > k {
            self.lemma_dot_split(a, b, k, (n - 1) as nat);
            assert(a.skip(k as int)[n - 1 - k] == a[n - 1]);
            assert(b.skip(k as int)[n - 1 - k] == b[n - 1]);
            assert((n - k - 1) as nat == (n - 1 - k) as nat);
        }
    }

    proof fn lemma_dot_square(self, a: Seq<real>, n: nat)
        requires
            self.field == reals(),
            self.seed == 0 as real,
        ensures
            self.dot(a, a, n) >= 0 as real,
            self.dot(a, a, n) == 0 as real ==> forall|i: int|
                0 <= i < n ==> #[trigger] a[i] == 0 as real,
        decreases n,
    {
        if n > 0 {
            self.lemma_dot_square(a, (n - 1) as nat);
            let x = a[n - 1];
            assert(x * x >= 0 as real) by (nonlinear_arith);
            assert(x * x == 0 as real ==> x == 0 as real) by (nonlinear_arith);
        }
    }

    /// A reflection keeps the products of what it reflects.
    proof fn lemma_reflection_keeps(
        self,
        x: Seq<real>,
        y: Seq<real>,
        v: Seq<real>,
        vv: real,
        k: nat,
    )
        requires
            self.field == reals(),
            self.seed == 0 as real,
            x.len() == y.len(),
            k <= x.len(),
            v.len() == x.len() - k,
            vv == self.dot(v, v, v.len()),
            vv != 0 as real,
        ensures
            self.dot(
                self.reflected(x, v, vv, k as int),
                self.reflected(y, v, vv, k as int),
                x.len(),
            ) == self.dot(x, y, x.len()),
    {
        let n = x.len();
        let q = v.len();
        let (hx, hy) = (self.reflected(x, v, vv, k as int), self.reflected(y, v, vv, k as int));
        let (tx, ty) = (x.skip(k as int), y.skip(k as int));
        let (ux, uy) = (hx.skip(k as int), hy.skip(k as int));
        let a = self.dot(v, tx, q);
        let b = self.dot(v, ty, q);
        let s = (2 as real * a) / vv;
        let t = (2 as real * b) / vv;
        self.lemma_dot_split(x, y, k, n);
        self.lemma_dot_split(hx, hy, k, n);
        self.lemma_dot_agree(x, y, hy, k);
        self.lemma_dot_flip(x, hy, k);
        self.lemma_dot_agree(hy, x, hx, k);
        self.lemma_dot_flip(hy, hx, k);
        assert(self.dot(x, y, k) == self.dot(hx, hy, k));
        assert forall|i: int| 0 <= i < q implies #[trigger] ux[i] == tx[i] - s * v[i] by {}
        assert forall|i: int| 0 <= i < q implies #[trigger] uy[i] == ty[i] - t * v[i] by {}
        self.lemma_dot_less(tx, v, s, ux, uy, q);
        self.lemma_dot_flip(tx, uy, q);
        self.lemma_dot_flip(v, uy, q);
        self.lemma_dot_less(ty, v, t, uy, tx, q);
        self.lemma_dot_less(ty, v, t, uy, v, q);
        self.lemma_dot_flip(ty, tx, q);
        self.lemma_dot_flip(ty, v, q);
        // What is taken away and what is added again.
        assert(s * vv == 2 as real * a) by (nonlinear_arith)
            requires
                s == (2 as real * a) / vv,
                vv != 0 as real,
        ;
        assert(t * vv == 2 as real * b) by (nonlinear_arith)
            requires
                t == (2 as real * b) / vv,
                vv != 0 as real,
        ;
        assert(self.dot(ux, uy, q) == self.dot(tx, ty, q) - t * a - s * (b - t * vv));
        assert(s * (b - t * vv) == -(s * b)) by (nonlinear_arith)
            requires
                t * vv == 2 as real * b,
        ;
        assert(s * b == t * a) by (nonlinear_arith)
            requires
                s * vv == 2 as real * a,
                t * vv == 2 as real * b,
                vv != 0 as real,
        ;
    }

    /// Nothing is reflected to nothing.
    proof fn lemma_nothing_reflected(self, x: Seq<real>, v: Seq<real>, vv: real, k: nat)
        requires
            self.field == reals(),
            self.seed == 0 as real,
            k <= x.len(),
            v.len() == x.len() - k,
            vv != 0 as real,
            forall|i: int| k <= i < x.len() ==> #[trigger] x[i] == 0 as real,
        ensures
            self.reflected(x, v, vv, k as int) == x,
    {
        let tail = x.skip(k as int);
        let none = Seq::new(v.len(), |i: int| 0 as real);
        self.lemma_dot_flip(v, tail, v.len());
        assert forall|i: int| 0 <= i < v.len() implies tail[i] == 0 as real by {
            assert(tail[i] == x[k + i]);
        }
        assert forall|i: int| 0 <= i < v.len() implies #[trigger] v[i] == none[i] || tail[i]
            == 0 as real by {}
        self.lemma_dot_agree(tail, v, none, v.len());
        self.lemma_dot_zero(tail, none, v.len());
        let a = self.dot(v, tail, v.len());
        assert(a == 0 as real);
        let s = (2 as real * a) / vv;
        assert(s == 0 as real) by (nonlinear_arith)
            requires
                s == (2 as real * a) / vv,
                a == 0 as real,
                vv != 0 as real,
        ;
        let out = self.reflected(x, v, vv, k as int);
        assert forall|i: int| 0 <= i < x.len() implies out[i] == x[i] by {
            if i >= k {
                lemma_ring(v[i - k], s, s);
                assert(out[i] == x[i] - s * v[i - k]);
            }
        }
        assert(out =~= x);
    }

    proof fn lemma_dot_zero(self, a: Seq<real>, none: Seq<real>, n: nat)
        requires
            self.field == reals(),
            self.seed == 0 as real,
            forall|i: int| 0 <= i < n ==> #[trigger] none[i] == 0 as real,
        ensures
            self.dot(a, none, n) == 0 as real,
        decreases n,
    {
        if n > 0 {
            self.lemma_dot_zero(a, none, (n - 1) as nat);
            assert(none[n - 1] == 0 as real);
            lemma_ring(a[n - 1], a[n - 1], a[n - 1]);
        }
    }

    /// With the first number changed.
    proof fn lemma_dot_first(self, a: Seq<real>, alpha: real, v: Seq<real>, b: Seq<real>, n: nat)
        requires
            self.field == reals(),
            0 < n <= a.len(),
            v == a.update(0, a[0] - alpha),
        ensures
            self.dot(v, b, n) == self.dot(a, b, n) - alpha * b[0],
        decreases n,
    {
        if n == 1 {
            lemma_ring(a[0], alpha, b[0]);
            assert(self.dot(v, b, 0) == self.dot(a, b, 0));
        } else {
            self.lemma_dot_first(a, alpha, v, b, (n - 1) as nat);
            assert(v[n - 1] == a[n - 1]);
        }
    }

    /// The column that a reflection is made for is cleared below its row.
    proof fn lemma_cleared(self, x: Seq<real>, k: nat)
        requires
            self == exact_solver(self.root),
            is_root(self.root),
            k < x.len(),
        ensures
            ({
                let (alpha, v) = self.reflector(x, k as int);
                let vv = self.dot(v, v, v.len());
                &&& v.len() == x.len() - k
                &&& vv == 0 as real ==> forall|i: int|
                    k < i < x.len() ==> #[trigger] x[i] == 0 as real
                &&& vv != 0 as real ==> self.reflected(x, v, vv, k as int) == Seq::new(
                    x.len(),
                    |i: int|
                        if i < k {
                            x[i]
                        } else if i == k {
                            alpha
                        } else {
                            0 as real
                        },
                )
            }),
    {
        let tail = x.skip(k as int);
        let q = tail.len();
        let square = self.dot(tail, tail, q);
        self.lemma_dot_square(tail, q);
        let norm = (self.root)(square);
        let (alpha, v) = self.reflector(x, k as int);
        assert(tail[0] == x[k as int]);
        assert(v == tail.update(0, tail[0] - alpha));
        assert(alpha * alpha == square) by {
            assert(norm * norm == square);
            assert((-norm) * (-norm) == norm * norm) by (nonlinear_arith);
        }
        let vv = self.dot(v, v, q);
        self.lemma_dot_first(tail, alpha, v, tail, q);
        self.lemma_dot_first(tail, alpha, v, v, q);
        self.lemma_dot_flip(tail, v, q);
        let a = self.dot(v, tail, q);
        assert(a == square - alpha * tail[0]);
        lemma_ring(alpha, tail[0], alpha);
        assert(vv == a - alpha * (tail[0] - alpha));
        assert(vv == 2 as real * a);
        if vv == 0 as real {
            self.lemma_dot_square(v, q);
            assert forall|i: int| k < i < x.len() implies #[trigger] x[i] == 0 as real by {
                assert(v[i - k] == 0 as real);
                assert(tail[i - k] == x[i]);
            }
        } else {
            let s = (2 as real * a) / vv;
            assert(s == 1 as real) by (nonlinear_arith)
                requires
                    s == (2 as real * a) / vv,
                    vv == 2 as real * a,
                    vv != 0 as real,
            ;
            let out = self.reflected(x, v, vv, k as int);
            let wanted = Seq::new(
                x.len(),
                |i: int|
                    if i < k {
                        x[i]
                    } else if i == k {
                        alpha
                    } else {
                        0 as real
                    },
            );
            assert forall|i: int| 0 <= i < x.len() implies out[i] == wanted[i] by {
                if i >= k {
                    assert(tail[i - k] == x[i]);
                    assert(out[i] == x[i] - s * v[i - k]);
                    assert((1 as real) * v[i - k] == v[i - k]) by (nonlinear_arith);
                }
            }
            assert(out =~= wanted);
        }
    }
}

/// A column of a table with its first `k` unknowns cleared, as it stands without what is
/// left over below the rows of those.
pub open spec fn true_column(unknowns: Seq<Seq<real>>, k: nat, j: int) -> Seq<real> {
    if j < k {
        Seq::new(
            unknowns[j].len(),
            |i: int|
                if i <= j {
                    unknowns[j][i]
                } else {
                    0 as real
                },
        )
    } else {
        unknowns[j]
    }
}

/// Whether all columns of a table are `n` long, and there are no more unknowns than that.
pub open spec fn is_long(s: Table<real>, n: nat) -> bool {
    &&& s.unknowns.len() <= n
    &&& forall|j: int| 0 <= j < s.unknowns.len() ==> (#[trigger] s.unknowns[j]).len() == n
    &&& forall|d: int| 0 <= d < s.sides.len() ==> (#[trigger] s.sides[d]).len() == n
}

impl Solver<real> {
    proof fn lemma_eliminate_column(self, s: Table<real>, n: nat, k: nat, j: int)
        requires
            self == exact_solver(self.root),
            is_root(self.root),
            is_long(s, n),
            k < s.unknowns.len(),
            0 <= j < s.unknowns.len(),
        ensures
            ({
                let (alpha, v) = self.reflector(s.unknowns[k as int], k as int);
                let vv = self.dot(v, v, v.len());
                let t = self.eliminate(s, k as int);
                &&& v.len() == n - k
                &&& vv == 0 as real ==> true_column(t.unknowns, k + 1, j) == true_column(
                    s.unknowns,
                    k,
                    j,
                )
                &&& vv != 0 as real ==> true_column(t.unknowns, k + 1, j) == self.reflected(
                    true_column(s.unknowns, k, j),
                    v,
                    vv,
                    k as int,
                )
            }),
    {
        let column = s.unknowns[k as int];
        assert(column.len() == n);
        assert(s.unknowns[j].len() == n);
        let (alpha, v) = self.reflector(column, k as int);
        let vv = self.dot(v, v, v.len());
        let t = self.eliminate(s, k as int);
        self.lemma_cleared(column, k);
        let was = true_column(s.unknowns, k, j);
        let now = true_column(t.unknowns, k + 1, j);
        if vv == 0 as real {
            assert(now =~= was);
        } else if j < k {
            self.lemma_nothing_reflected(was, v, vv, k);
            assert(t.unknowns[j] == s.unknowns[j]);
            assert(now =~= was);
        } else if j == k {
            assert(t.unknowns[j] == column.update(k as int, alpha));
            assert(now =~= self.reflected(was, v, vv, k as int));
        }
    }

    proof fn lemma_eliminate_long(self, s: Table<real>, n: nat, k: nat)
        requires
            is_long(s, n),
            k < s.unknowns.len(),
        ensures
            is_long(self.eliminate(s, k as int), n),
            self.eliminate(s, k as int).unknowns.len() == s.unknowns.len(),
            self.eliminate(s, k as int).sides.len() == s.sides.len(),
    {
        let t = self.eliminate(s, k as int);
        assert forall|j: int| 0 <= j < t.unknowns.len() implies (#[trigger] t.unknowns[j]).len()
            == n by {
            assert(s.unknowns[j].len() == n);
        }
        assert forall|d: int| 0 <= d < t.sides.len() implies (#[trigger] t.sides[d]).len() == n by {
            assert(s.sides[d].len() == n);
        }
    }

    /// Clearing unknowns keeps the products of columns with one another and with sides.
    proof fn lemma_eliminated_keeps(
        self,
        s: Table<real>,
        n: nat,
        k: nat,
        i: int,
        j: int,
        d: int,
    )
        requires
            self == exact_solver(self.root),
            is_root(self.root),
            is_long(s, n),
            k <= s.unknowns.len(),
            0 <= i < s.unknowns.len(),
            0 <= j < s.unknowns.len(),
            0 <= d < s.sides.len(),
        ensures
            ({
                let t = self.eliminated(s, k);
                &&& is_long(t, n)
                &&& t.unknowns.len() == s.unknowns.len()
                &&& t.sides.len() == s.sides.len()
                &&& self.dot(true_column(t.unknowns, k, i), true_column(t.unknowns, k, j), n)
                    == self.dot(s.unknowns[i], s.unknowns[j], n)
                &&& self.dot(true_column(t.unknowns, k, i), t.sides[d], n) == self.dot(
                    s.unknowns[i],
                    s.sides[d],
                    n,
                )
            }),
        decreases k,
    {
        if k > 0 {
            let m = (k - 1) as nat;
            let before = self.eliminated(s, m);
            self.lemma_eliminated_keeps(s, n, m, i, j, d);
            self.lemma_eliminate_long(before, n, m);
            self.lemma_eliminate_column(before, n, m, i);
            self.lemma_eliminate_column(before, n, m, j);
            let (alpha, v) = self.reflector(before.unknowns[m as int], m as int);
            let vv = self.dot(v, v, v.len());
            let (x, y) = (
                true_column(before.unknowns, m, i),
                true_column(before.unknowns, m, j),
            );
            assert(before.unknowns[i].len() == n && before.unknowns[j].len() == n);
            assert(before.sides[d].len() == n);
            if vv != 0 as real {
                self.lemma_reflection_keeps(x, y, v, vv, m);
                self.lemma_reflection_keeps(x, before.sides[d], v, vv, m);
            }
        }
    }

    /// What the unknowns before `m` give together in a row.
    pub open spec fn given(self, columns: Seq<Seq<real>>, x: Seq<real>, r: int, m: nat) -> real
        decreases m,
    {
        if m == 0 {
            0 as real
        } else {
            self.given(columns, x, r, (m - 1) as nat) + columns[m - 1][r] * x[m - 1]
        }
    }

    /// What the unknowns give together, row by row.
    pub open spec fn blend(self, columns: Seq<Seq<real>>, x: Seq<real>, n: nat) -> Seq<real> {
        Seq::new(n, |r: int| self.given(columns, x, r, columns.len()))
    }

    /// The sum of the products of a column with those that the unknowns multiply.
    pub open spec fn gram(
        self,
        columns: Seq<Seq<real>>,
        x: Seq<real>,
        i: int,
        n: nat,
        m: nat,
    ) -> real
        decreases m,
    {
        if m == 0 {
            0 as real
        } else {
            self.gram(columns, x, i, n, (m - 1) as nat) + self.dot(columns[i], columns[m - 1], n)
                * x[m - 1]
        }
    }

    proof fn lemma_gram_upto(
        self,
        columns: Seq<Seq<real>>,
        x: Seq<real>,
        i: int,
        n: nat,
        m: nat,
    )
        requires
            self.field == reals(),
            self.seed == 0 as real,
            m <= columns.len(),
        ensures
            self.gram(columns, x, i, n, m) == self.dot(
                columns[i],
                Seq::new(n, |r: int| self.given(columns, x, r, m)),
                n,
            ),
        decreases m,
    {
        let now = Seq::new(n, |r: int| self.given(columns, x, r, m));
        if m == 0 {
            self.lemma_dot_zero(columns[i], now, n);
        } else {
            let p = (m - 1) as nat;
            self.lemma_gram_upto(columns, x, i, n, p);
            let before = Seq::new(n, |r: int| self.given(columns, x, r, p));
            let (v, s) = (columns[m - 1], -x[m - 1]);
            assert forall|r: int| 0 <= r < n implies #[trigger] now[r] == before[r] - s * v[r] by {
                lemma_ring(v[r], x[m - 1], x[m - 1]);
                assert((-x[m - 1]) * v[r] == -(x[m - 1] * v[r])) by (nonlinear_arith);
            }
            self.lemma_dot_less(before, v, s, now, columns[i], n);
            self.lemma_dot_flip(now, columns[i], n);
            self.lemma_dot_flip(before, columns[i], n);
            self.lemma_dot_flip(v, columns[i], n);
            let dot = self.dot(columns[i], v, n);
            assert((-x[m - 1]) * dot == -(dot * x[m - 1])) by (nonlinear_arith);
        }
    }

    proof fn lemma_solution_long(self, unknowns: Seq<Seq<real>>, side: Seq<real>, k: int)
        requires
            0 <= k <= unknowns.len(),
        ensures
            self.substituted(unknowns, side, k).len() == unknowns.len() - k,
            forall|j: int|
                k <= j <= unknowns.len() ==> #[trigger] self.substituted(unknowns, side, j)
                    == self.substituted(unknowns, side, k).skip(j - k),
        decreases unknowns.len() - k,
    {
        let x = self.substituted(unknowns, side, k);
        if k < unknowns.len() {
            self.lemma_solution_long(unknowns, side, k + 1);
            let rest = self.substituted(unknowns, side, k + 1);
            assert forall|j: int| k <= j <= unknowns.len() implies #[trigger] self.substituted(
                unknowns,
                side,
                j,
            ) == x.skip(j - k) by {
                if j == k {
                    assert(x.skip(0) =~= x);
                } else {
                    assert(rest.skip(j - k - 1) =~= x.skip(j - k));
                }
            }
        } else {
            assert(x.skip(0) =~= x);
        }
    }

    /// Every row of what is left is met.
    proof fn lemma_row_met(self, unknowns: Seq<Seq<real>>, side: Seq<real>, n: nat, r: int, m: nat)
        requires
            self.field == reals(),
            self.seed == 0 as real,
            0 <= r < unknowns.len(),
            m <= unknowns.len(),
            unknowns.len() <= n,
            forall|j: int| 0 <= j < unknowns.len() ==> (#[trigger] unknowns[j]).len() == n,
        ensures
            ({
                let x = self.substituted(unknowns, side, 0);
                let columns = Seq::new(
                    unknowns.len(),
                    |j: int| true_column(unknowns, unknowns.len(), j),
                );
                let row = self.row_from(unknowns, r, r + 1);
                self.given(columns, x, r, m) == (if m <= r {
                    0 as real
                } else {
                    unknowns[r][r] * x[r] + self.dot(row, x.skip(r + 1), (m - r - 1) as nat)
                })
            }),
        decreases m,
    {
        let x = self.substituted(unknowns, side, 0);
        let columns = Seq::new(
            unknowns.len(),
            |j: int| true_column(unknowns, unknowns.len(), j),
        );
        let row = self.row_from(unknowns, r, r + 1);
        self.lemma_solution_long(unknowns, side, 0);
        if m > 0 {
            let p = (m - 1) as nat;
            self.lemma_row_met(unknowns, side, n, r, p);
            assert(unknowns[m - 1].len() == n);
            lemma_ring(x[m - 1], x[m - 1], x[m - 1]);
            if m - 1 < r {
                assert(columns[m - 1][r] == 0 as real);
            } else {
                assert(columns[m - 1][r] == unknowns[m - 1][r]);
                if m - 1 > r {
                    assert(row[m - 1 - (r + 1)] == unknowns[m - 1][r]);
                    assert(x.skip(r + 1)[m - 1 - (r + 1)] == x[m - 1]);
                    assert((m - r - 1 - 1) as nat == (p - r - 1) as nat);
                }
            }
        }
    }

    /// What solves a system meets its normal equations: the products of each column with
    /// what the unknowns give together are its products with the side. So what is left
    /// over stands at a right angle to every column.
    pub proof fn lemma_normal_equations(self, s: Table<real>, n: nat, d: int, i: int)
        requires
            self == exact_solver(self.root),
            is_root(self.root),
            is_long(s, n),
            0 <= d < s.sides.len(),
            0 <= i < s.unknowns.len(),
            forall|k: int|
                0 <= k < s.unknowns.len() ==> (#[trigger] self.eliminated(
                    s,
                    s.unknowns.len(),
                ).unknowns[k])[k] != 0 as real,
        ensures
            self.dot(
                s.unknowns[i],
                self.blend(s.unknowns, self.solution(s, d), n),
                n,
            ) == self.dot(s.unknowns[i], s.sides[d], n),
    {
        let size = s.unknowns.len();
        let t = self.eliminated(s, size);
        let x = self.solution(s, d);
        let columns = Seq::new(size, |j: int| true_column(t.unknowns, size, j));
        self.lemma_eliminated_keeps(s, n, size, i, i, d);
        let side = t.sides[d];
        // The products with what the unknowns give.
        self.lemma_gram_upto(s.unknowns, x, i, n, size);
        self.lemma_gram_upto(columns, x, i, n, size);
        self.lemma_gram_same(s, n, x, i, d, size);
        let whole = Seq::new(n, |r: int| self.given(columns, x, r, size));
        assert(self.blend(s.unknowns, x, n) =~= Seq::new(
            n,
            |r: int| self.given(s.unknowns, x, r, size),
        ));
        // Each row that counts is met.
        let own = columns[i];
        assert(t.unknowns[i].len() == n);
        assert forall|r: int| 0 <= r < n implies #[trigger] whole[r] == side[r] || own[r]
            == 0 as real by {
            if r <= i {
                self.lemma_row_met(t.unknowns, side, n, r, size);
                self.lemma_solution_long(t.unknowns, side, 0);
                let row = self.row_from(t.unknowns, r, r + 1);
                let rest = self.substituted(t.unknowns, side, r + 1);
                assert(rest == x.skip(r + 1));
                let dot = self.dot(row, rest, row.len());
                assert(row.len() == (size - r - 1) as nat);
                let pivot = t.unknowns[r][r];
                assert(pivot != 0 as real);
                let value = (side[r] - dot) / pivot;
                assert(self.substituted(t.unknowns, side, r)[0] == value);
                assert(x.skip(r)[0] == x[r]);
                assert(x[r] == value);
                assert(pivot * value == side[r] - dot) by (nonlinear_arith)
                    requires
                        value == (side[r] - dot) / pivot,
                        pivot != 0 as real,
                ;
            }
        }
        self.lemma_dot_agree(own, whole, side, n);
    }

    proof fn lemma_gram_same(
        self,
        s: Table<real>,
        n: nat,
        x: Seq<real>,
        i: int,
        d: int,
        m: nat,
    )
        requires
            self == exact_solver(self.root),
            is_root(self.root),
            is_long(s, n),
            0 <= d < s.sides.len(),
            0 <= i < s.unknowns.len(),
            m <= s.unknowns.len(),
        ensures
            ({
                let size = s.unknowns.len();
                let t = self.eliminated(s, size);
                let columns = Seq::new(size, |j: int| true_column(t.unknowns, size, j));
                self.gram(s.unknowns, x, i, n, m) == self.gram(columns, x, i, n, m)
            }),
        decreases m,
    {
        if m > 0 {
            self.lemma_gram_same(s, n, x, i, d, (m - 1) as nat);
            self.lemma_eliminated_keeps(s, n, s.unknowns.len(), i, m - 1, d);
        }
    }

    /// What is left of a side when the unknowns have given what they give.
    pub open spec fn left_over(self, s: Table<real>, d: int, x: Seq<real>, n: nat) -> Seq<real> {
        Seq::new(n, |r: int| s.sides[d][r] - self.blend(s.unknowns, x, n)[r])
    }

    proof fn lemma_right_angle(
        self,
        columns: Seq<Seq<real>>,
        y: Seq<real>,
        r: Seq<real>,
        n: nat,
        m: nat,
    )
        requires
            self.field == reals(),
            self.seed == 0 as real,
            m <= columns.len(),
            forall|j: int|
                0 <= j < m ==> self.dot(r, #[trigger] columns[j], n) == 0 as real,
        ensures
            self.dot(r, Seq::new(n, |i: int| self.given(columns, y, i, m)), n) == 0 as real,
        decreases m,
    {
        let now = Seq::new(n, |i: int| self.given(columns, y, i, m));
        if m == 0 {
            self.lemma_dot_zero(r, now, n);
        } else {
            let p = (m - 1) as nat;
            self.lemma_right_angle(columns, y, r, n, p);
            let before = Seq::new(n, |i: int| self.given(columns, y, i, p));
            let (v, s) = (columns[m - 1], -y[m - 1]);
            assert forall|i: int| 0 <= i < n implies #[trigger] now[i] == before[i] - s * v[i] by {
                lemma_ring(v[i], y[m - 1], y[m - 1]);
                assert((-y[m - 1]) * v[i] == -(y[m - 1] * v[i])) by (nonlinear_arith);
            }
            self.lemma_dot_less(before, v, s, now, r, n);
            self.lemma_dot_flip(now, r, n);
            self.lemma_dot_flip(before, r, n);
            self.lemma_dot_flip(v, r, n);
            assert(self.dot(r, columns[m - 1], n) == 0 as real);
            lemma_ring(s, s, s);
        }
    }

    /// What solves a system leaves the least: no other unknowns leave a smaller sum of
    /// squares.
    pub proof fn lemma_least_squares(self, s: Table<real>, n: nat, d: int, other: Seq<real>)
        requires
            self == exact_solver(self.root),
            is_root(self.root),
            is_long(s, n),
            0 <= d < s.sides.len(),
            forall|k: int|
                0 <= k < s.unknowns.len() ==> (#[trigger] self.eliminated(
                    s,
                    s.unknowns.len(),
                ).unknowns[k])[k] != 0 as real,
        ensures
            ({
                let best = self.left_over(s, d, self.solution(s, d), n);
                let rest = self.left_over(s, d, other, n);
                self.dot(best, best, n) <= self.dot(rest, rest, n)
            }),
    {
        let x = self.solution(s, d);
        let columns = s.unknowns;
        let size = columns.len();
        let side = s.sides[d];
        let (a, b) = (self.blend(columns, x, n), self.blend(columns, other, n));
        let (r, q) = (self.left_over(s, d, x, n), self.left_over(s, d, other, n));
        let one = 1 as real;
        assert forall|i: int| 0 <= i < n implies #[trigger] r[i] == side[i] - one * a[i] by {
            assert(one * a[i] == a[i]) by (nonlinear_arith)
                requires
                    one == 1 as real,
            ;
        }
        assert forall|j: int| 0 <= j < size implies self.dot(r, #[trigger] columns[j], n)
            == 0 as real by {
            self.lemma_normal_equations(s, n, d, j);
            self.lemma_dot_less(side, a, one, r, columns[j], n);
            self.lemma_dot_flip(side, columns[j], n);
            self.lemma_dot_flip(a, columns[j], n);
            let dot = self.dot(a, columns[j], n);
            assert(one * dot == dot) by (nonlinear_arith)
                requires
                    one == 1 as real,
            ;
        }
        self.lemma_right_angle(columns, x, r, n, size);
        self.lemma_right_angle(columns, other, r, n, size);
        assert(a =~= Seq::new(n, |i: int| self.given(columns, x, i, size)));
        assert(b =~= Seq::new(n, |i: int| self.given(columns, other, i, size)));
        // How the one left over differs from the other.
        let e = Seq::new(n, |i: int| a[i] - b[i]);
        let minus = -(1 as real);
        assert forall|i: int| 0 <= i < n implies #[trigger] e[i] == a[i] - one * b[i] by {
            assert(one * b[i] == b[i]) by (nonlinear_arith)
                requires
                    one == 1 as real,
            ;
        }
        assert forall|i: int| 0 <= i < n implies #[trigger] q[i] == r[i] - minus * e[i] by {
            assert(minus * e[i] == -e[i]) by (nonlinear_arith)
                requires
                    minus == -(1 as real),
            ;
        }
        self.lemma_dot_less(a, b, one, e, r, n);
        self.lemma_dot_flip(a, r, n);
        self.lemma_dot_flip(b, r, n);
        lemma_ring(one, one, one);
        assert(self.dot(e, r, n) == 0 as real);
        self.lemma_dot_less(r, e, minus, q, q, n);
        self.lemma_dot_flip(r, q, n);
        self.lemma_dot_flip(e, q, n);
        self.lemma_dot_less(r, e, minus, q, r, n);
        self.lemma_dot_less(r, e, minus, q, e, n);
        self.lemma_dot_flip(r, e, n);
        self.lemma_dot_square(e, n);
        let square = self.dot(e, e, n);
        assert(minus * square == -square) by (nonlinear_arith)
            requires
                minus == -(1 as real),
        ;
        lemma_ring(minus, minus, minus);
        assert(self.dot(q, e, n) == square);
        assert(self.dot(q, q, n) == self.dot(r, r, n) + square);
    }
}

} // verus!
