//! What is chosen among many is the best of them all, and what is added up is all of it.
use vstd::prelude::*;

use crate::curve::{
    block_sum, eight_lanes, inner, lane, pairwise_sum, running_sum, split_curves, Rules,
};
use crate::fit::{
    closest, curvature, most_curved, plane_error, plane_errors, sample_at, sharpest, turn_at, Omega,
};
use crate::float::{F32, F64};
use crate::ink::{least, most, Point};
use crate::lattice::Ring;
use crate::numerics::GeoMath;

verus! {

/// The sharpest corner is no blunter than any inner point of the points before `n`; where
/// there is one, it is the first of its sharpness.
pub proof fn lemma_sharpest_of_all(m: GeoMath, points: Seq<Point>, radius: F32, n: int)
    requires
        n <= points.len(),
        points.len() <= usize::MAX,
    ensures
        ({
            let (best, at) = sharpest(m, points, radius, n);
            &&& !best.nan()
            &&& forall|i: int|
                1 <= i < n ==> match #[trigger] turn_at(m, points, i, radius) {
                    Some(score) => !score.below(best),
                    None => true,
                }
            &&& match at {
                Some(k) => {
                    &&& 1 <= k < n
                    &&& turn_at(m, points, k as int, radius) == Some(best)
                    &&& forall|i: int|
                        1 <= i < k ==> #[trigger] turn_at(m, points, i, radius) != Some(best)
                },
                None => best == (F32 { bits: 0x3f80_0000 }),
            }
        }),
    decreases n,
{
    if n > 1 {
        lemma_sharpest_of_all(m, points, radius, n - 1);
    } else {
        assert(!(F32 { bits: 0x3f80_0000 }).nan());
    }
}

/// The most curved sample is no straighter than any of the first `n`, as far as their
/// curvatures are numbers, and it is one of them.
pub proof fn lemma_most_curved_of_all(m: GeoMath, omega: Omega, a: F32, b: F32, n: nat)
    requires
        n > 0,
        forall|j: int|
            0 <= j < n ==> {
                let kappa = curvature(m, omega, #[trigger] sample_at(a, b, j));
                !kappa.nan() && kappa.rank() >= 0
            },
    ensures
        ({
            let (best, star) = most_curved(m, omega, a, b, n);
            &&& !best.nan()
            &&& best == curvature(m, omega, star)
            &&& exists|j: int| 0 <= j < n && star == #[trigger] sample_at(a, b, j)
            &&& forall|j: int|
                0 <= j < n ==> !best.below(curvature(m, omega, #[trigger] sample_at(a, b, j)))
        }),
    decreases n,
{
    let t = sample_at(a, b, n - 1);
    let kappa = curvature(m, omega, t);
    assert(!kappa.nan() && kappa.rank() >= 0);
    if n > 1 {
        lemma_most_curved_of_all(m, omega, a, b, (n - 1) as nat);
        let (best, star) = most_curved(m, omega, a, b, (n - 1) as nat);
        let j = choose|j: int| 0 <= j < n - 1 && star == #[trigger] sample_at(a, b, j);
        assert(sample_at(a, b, j) == star);
    } else {
        let first = F32 { bits: 0xbf80_0000 };
        assert(!first.nan() && first.rank() < 0);
        assert(most_curved(m, omega, a, b, 0) == (first, a));
    }
    let (best, star) = most_curved(m, omega, a, b, n);
    assert(star == t ==> star == sample_at(a, b, n - 1));
}

/// The closest inner parameter is no farther than any other inner one before `n`, as far
/// as the distances are numbers.
pub proof fn lemma_closest_of_all(s: Seq<F64>, star: F32, n: int)
    requires
        2 <= n <= s.len(),
        s.len() <= usize::MAX,
        forall|i: int|
            1 <= i < n ==> !(#[trigger] s[i]).narrowed().difference(star).unsigned().nan(),
    ensures
        ({
            let (best, at) = closest(s, star, n);
            &&& 1 <= at < n
            &&& best == s[at as int].narrowed().difference(star).unsigned()
            &&& forall|i: int|
                1 <= i < n ==> !(#[trigger] s[i]).narrowed().difference(star).unsigned().below(
                    best,
                )
        }),
    decreases n,
{
    assert(!s[1].narrowed().difference(star).unsigned().nan());
    assert(!s[n - 1].narrowed().difference(star).unsigned().nan());
    if n > 2 {
        lemma_closest_of_all(s, star, n - 1);
    }
}

/// The greatest distance from a curve is no less than that of any of the first `n`
/// points, and is that of one of them.
pub proof fn lemma_greatest_error_of_all(points: Seq<Point>, omega: Omega, s: Seq<F64>, n: nat)
    requires
        n <= points.len(),
        forall|i: int|
            0 <= i < n ==> {
                let e = plane_error(#[trigger] points[i], omega, s[i]);
                !e.nan() && e.rank() >= 0
            },
    ensures
        ({
            let worst = plane_errors(points, omega, s, n).0;
            &&& !worst.nan()
            &&& worst.rank() >= 0
            &&& forall|i: int|
                0 <= i < n ==> plane_error(#[trigger] points[i], omega, s[i]).rank()
                    <= worst.rank()
            &&& n > 0 ==> exists|i: int|
                0 <= i < n && plane_error(#[trigger] points[i], omega, s[i]).rank()
                    == worst.rank()
        }),
    decreases n,
{
    if n > 0 {
        lemma_greatest_error_of_all(points, omega, s, (n - 1) as nat);
        let before = plane_errors(points, omega, s, (n - 1) as nat).0;
        let last = plane_error(points[n - 1], omega, s[n - 1]);
        assert(!last.nan() && last.rank() >= 0);
        if n > 1 {
            let i = choose|i: int|
                0 <= i < n - 1 && plane_error(#[trigger] points[i], omega, s[i]).rank()
                    == before.rank();
            assert(plane_error(points[i], omega, s[i]).rank() == before.rank());
        } else {
            assert(before == (F64 { bits: 0 }));
            assert(before.rank() == 0);
        }
        let worst = plane_errors(points, omega, s, n).0;
        assert(plane_error(points[n - 1], omega, s[n - 1]) == last);
    } else {
        assert((F64 { bits: 0 }).rank() == 0);
    }
}

/// The least and the most of a row of numbers bound them all, and are among them.
pub proof fn lemma_bounds_of_all(v: Seq<F32>)
    requires
        v.len() > 0,
        forall|i: int| 0 <= i < v.len() ==> !(#[trigger] v[i]).nan(),
    ensures
        v.contains(least(v)),
        v.contains(most(v)),
        forall|i: int|
            0 <= i < v.len() ==> least(v).rank() <= (#[trigger] v[i]).rank() <= most(v).rank(),
    decreases v.len(),
{
    assert(v[v.len() - 1] == v.last());
    if v.len() > 1 {
        let rest = v.drop_last();
        assert forall|i: int| 0 <= i < rest.len() implies !(#[trigger] rest[i]).nan() by {
            assert(rest[i] == v[i]);
        }
        lemma_bounds_of_all(rest);
        let a = choose|i: int| 0 <= i < rest.len() && rest[i] == least(rest);
        let b = choose|i: int| 0 <= i < rest.len() && rest[i] == most(rest);
        assert(v[a] == least(rest) && v[b] == most(rest));
        assert forall|i: int| 0 <= i < v.len() implies least(v).rank() <= (#[trigger] v[i]).rank()
            <= most(v).rank() by {
            assert(!least(rest).nan() && !most(rest).nan());
            if i < rest.len() {
                assert(rest[i] == v[i]);
            }
        }
    } else {
        assert(v[0] == least(v));
    }
}

/// Splitting stops only where it may: every curve that is left has fewer than four
/// points, or the best curve through its points is not to be cut.
pub proof fn lemma_split_settled(f: Rules, points: Seq<Point>, d: F64, lo: int, hi: int, k: int)
    requires
        0 <= lo <= hi < points.len(),
        points.len() <= usize::MAX,
        0 <= k < split_curves(f, points, d, lo, hi).len(),
    ensures
        ({
            let (a, b) = split_curves(f, points, d, lo, hi)[k];
            &&& lo <= a <= b <= hi
            &&& b - a + 1 < 4 || f.cut(points.subrange(a as int, b + 1), d) is None
        }),
    decreases hi - lo,
{
    if hi - lo + 1 >= 4 {
        if let Some(i) = f.cut(points.subrange(lo, hi + 1), d) {
            let at = lo + inner(i, hi - lo + 1);
            let left = split_curves(f, points, d, lo, at);
            let right = split_curves(f, points, d, at, hi);
            if k < left.len() {
                lemma_split_settled(f, points, d, lo, at, k);
            } else {
                lemma_split_settled(f, points, d, at, hi, k - left.len());
            }
        }
    }
}

impl<T> Ring<T> {
    /// A sum from the left, on top of a number.
    pub open spec fn running(self, base: T, v: Seq<T>) -> T
        decreases v.len(),
    {
        if v.len() == 0 {
            base
        } else {
            self.plus(self.running(base, v.drop_last()), v.last())
        }
    }

    /// The sum of every eighth number.
    pub open spec fn lane(self, v: Seq<T>, j: int, k: nat) -> T
        decreases k,
    {
        if k == 0 {
            v[j]
        } else {
            self.plus(self.lane(v, j, (k - 1) as nat), v[8 * k + j])
        }
    }

    /// The sums of eight lanes, in pairs.
    pub open spec fn lanes(self, v: Seq<T>, k: nat) -> T {
        self.plus(
            self.plus(
                self.plus(self.lane(v, 0, k), self.lane(v, 1, k)),
                self.plus(self.lane(v, 2, k), self.lane(v, 3, k)),
            ),
            self.plus(
                self.plus(self.lane(v, 4, k), self.lane(v, 5, k)),
                self.plus(self.lane(v, 6, k), self.lane(v, 7, k)),
            ),
        )
    }

    /// A sum by halves and lanes.
    pub open spec fn halved(self, v: Seq<T>) -> T
        decreases v.len(),
    {
        if v.len() < 8 {
            self.running(self.none, v)
        } else if v.len() <= 128 {
            let whole = v.len() as int / 8;
            self.running(self.lanes(v, (whole - 1) as nat), v.skip(8 * whole))
        } else {
            let half = (v.len() / 2) / 8 * 8;
            self.plus(self.halved(v.take(half as int)), self.halved(v.skip(half as int)))
        }
    }

    proof fn lemma_running(self, base: T, v: Seq<T>)
        requires
            self.lawful(),
        ensures
            self.running(base, v) == self.plus(base, self.running(self.none, v)),
        decreases v.len(),
    {
        self.lemma_plus(base, self.none, self.none, self.none);
        if v.len() > 0 {
            let rest = v.drop_last();
            self.lemma_running(base, rest);
            self.lemma_plus(base, self.running(self.none, rest), v.last(), self.none);
        }
    }

    proof fn lemma_running_joined(self, a: Seq<T>, b: Seq<T>)
        requires
            self.lawful(),
        ensures
            self.running(self.none, a + b) == self.plus(
                self.running(self.none, a),
                self.running(self.none, b),
            ),
        decreases b.len(),
    {
        self.lemma_plus(self.running(self.none, a), self.none, self.none, self.none);
        if b.len() == 0 {
            assert(a + b =~= a);
        } else {
            let rest = b.drop_last();
            assert((a + b).drop_last() =~= a + rest);
            self.lemma_running_joined(a, rest);
            self.lemma_plus(
                self.running(self.none, a),
                self.running(self.none, rest),
                b.last(),
                self.none,
            );
        }
    }

    /// One more row of eight.
    proof fn lemma_lanes(self, v: Seq<T>, k: nat)
        requires
            self.lawful(),
            v.len() >= 8 * (k + 1),
        ensures
            self.lanes(v, k) == self.running(self.none, v.take(8 * k as int + 8)),
        decreases k,
    {
        let row = v.subrange(8 * k as int, 8 * k as int + 8);
        self.lemma_row(row);
        if k == 0 {
            assert(v.take(8) =~= row);
        } else {
            let before = (k - 1) as nat;
            self.lemma_lanes(v, before);
            assert(v.take(8 * k as int + 8) =~= v.take(8 * k as int) + row);
            self.lemma_running_joined(v.take(8 * k as int), row);
            self.lemma_eight_pairs(
                Seq::new(8, |j: int| self.lane(v, j, before)),
                row,
            );
        }
    }

    /// Eight numbers in pairs.
    spec fn paired(self, v: Seq<T>) -> T {
        self.plus(
            self.plus(self.plus(v[0], v[1]), self.plus(v[2], v[3])),
            self.plus(self.plus(v[4], v[5]), self.plus(v[6], v[7])),
        )
    }

    proof fn lemma_row(self, v: Seq<T>)
        requires
            self.lawful(),
            v.len() == 8,
        ensures
            self.paired(v) == self.running(self.none, v),
    {
        let none = self.none;
        let a = v.take(2);
        let b = v.subrange(2, 4);
        let c = v.subrange(4, 6);
        let d = v.subrange(6, 8);
        self.lemma_pair(a);
        self.lemma_pair(b);
        self.lemma_pair(c);
        self.lemma_pair(d);
        self.lemma_running_joined(a, b);
        self.lemma_running_joined(c, d);
        self.lemma_running_joined(a + b, c + d);
        assert((a + b) + (c + d) =~= v);
    }

    proof fn lemma_pair(self, v: Seq<T>)
        requires
            self.lawful(),
            v.len() == 2,
        ensures
            self.plus(v[0], v[1]) == self.running(self.none, v),
    {
        let one = v.drop_last();
        assert(one.drop_last() =~= Seq::empty());
        assert(self.running(self.none, one.drop_last()) == self.none);
        self.lemma_plus(v[0], self.none, self.none, self.none);
        assert(self.running(self.none, one) == v[0]);
    }

    proof fn lemma_eight_pairs(self, a: Seq<T>, b: Seq<T>)
        requires
            self.lawful(),
            a.len() == 8,
            b.len() == 8,
        ensures
            self.paired(Seq::new(8, |j: int| self.plus(a[j], b[j]))) == self.plus(
                self.paired(a),
                self.paired(b),
            ),
    {
        self.lemma_plus(a[0], b[0], a[1], b[1]);
        self.lemma_plus(a[2], b[2], a[3], b[3]);
        self.lemma_plus(a[4], b[4], a[5], b[5]);
        self.lemma_plus(a[6], b[6], a[7], b[7]);
        self.lemma_plus(
            self.plus(a[0], a[1]),
            self.plus(b[0], b[1]),
            self.plus(a[2], a[3]),
            self.plus(b[2], b[3]),
        );
        self.lemma_plus(
            self.plus(a[4], a[5]),
            self.plus(b[4], b[5]),
            self.plus(a[6], a[7]),
            self.plus(b[6], b[7]),
        );
        self.lemma_plus(
            self.plus(self.plus(a[0], a[1]), self.plus(a[2], a[3])),
            self.plus(self.plus(b[0], b[1]), self.plus(b[2], b[3])),
            self.plus(self.plus(a[4], a[5]), self.plus(a[6], a[7])),
            self.plus(self.plus(b[4], b[5]), self.plus(b[6], b[7])),
        );
    }

    /// A sum by halves and lanes is the sum of all numbers, each once, where adding is
    /// exact.
    pub proof fn lemma_halved_is_sum(self, v: Seq<T>)
        requires
            self.lawful(),
        ensures
            self.halved(v) == self.sum(|i: int| v[i], v.len()),
        decreases v.len(),
    {
        self.lemma_running_sum(v, v.len());
        assert(v.take(v.len() as int) =~= v);
        if v.len() >= 8 {
            if v.len() <= 128 {
                let whole = v.len() as int / 8;
                let (a, b) = (v.take(8 * whole), v.skip(8 * whole));
                self.lemma_lanes(v, (whole - 1) as nat);
                self.lemma_running(self.lanes(v, (whole - 1) as nat), b);
                self.lemma_running_joined(a, b);
                assert(a + b =~= v);
            } else {
                let half = (v.len() / 2) / 8 * 8;
                let (a, b) = (v.take(half as int), v.skip(half as int));
                self.lemma_halved_is_sum(a);
                self.lemma_halved_is_sum(b);
                self.lemma_running_sum(a, a.len());
                self.lemma_running_sum(b, b.len());
                assert(a.take(a.len() as int) =~= a);
                assert(b.take(b.len() as int) =~= b);
                self.lemma_running_joined(a, b);
                assert(a + b =~= v);
            }
        }
    }

    proof fn lemma_running_sum(self, v: Seq<T>, n: nat)
        requires
            n <= v.len(),
        ensures
            self.running(self.none, v.take(n as int)) == self.sum(|i: int| v[i], n),
        decreases n,
    {
        if n > 0 {
            self.lemma_running_sum(v, (n - 1) as nat);
            assert(v.take(n as int).drop_last() =~= v.take(n - 1));
        }
    }
}

/// Adding with binary32.
pub open spec fn ring32() -> Ring<F32> {
    Ring {
        none: F32 { bits: 0x8000_0000 },
        unit: F32 { bits: 0x3f80_0000 },
        either: |a: F32, b: F32| a.sum(b),
        both: |a: F32, b: F32| a.product(b),
    }
}

proof fn lemma_running32(base: F32, v: Seq<F32>)
    ensures
        running_sum(base, v) == ring32().running(base, v),
    decreases v.len(),
{
    if v.len() > 0 {
        lemma_running32(base, v.drop_last());
    }
}

proof fn lemma_lane32(v: Seq<F32>, j: int, k: nat)
    ensures
        lane(v, j, k) == ring32().lane(v, j, k),
    decreases k,
{
    if k > 0 {
        lemma_lane32(v, j, (k - 1) as nat);
    }
}

/// The sum of binary32 numbers is taken by halves and lanes as over any ring: so it is the
/// sum of all of them, but for rounding.
pub proof fn lemma_sum_by_halves(v: Seq<F32>)
    ensures
        pairwise_sum(v) == ring32().halved(v),
    decreases v.len(),
{
    if v.len() < 8 {
        lemma_running32(F32 { bits: 0x8000_0000 }, v);
    } else if v.len() <= 128 {
        let whole = v.len() as int / 8;
        let k = (whole - 1) as nat;
        lemma_lane32(v, 0, k);
        lemma_lane32(v, 1, k);
        lemma_lane32(v, 2, k);
        lemma_lane32(v, 3, k);
        lemma_lane32(v, 4, k);
        lemma_lane32(v, 5, k);
        lemma_lane32(v, 6, k);
        lemma_lane32(v, 7, k);
        assert(eight_lanes(v, k) == ring32().lanes(v, k));
        lemma_running32(eight_lanes(v, k), v.skip(8 * whole));
        assert(pairwise_sum(v) == block_sum(v));
    } else {
        let half = (v.len() / 2) / 8 * 8;
        lemma_sum_by_halves(v.take(half as int));
        lemma_sum_by_halves(v.skip(half as int));
    }
}

} // verus!
