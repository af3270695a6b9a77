//! The alignments of a target as a lattice, over whatever adds and multiplies.
//!
//! The loss of [`crate::ctc`] walks this lattice with log probabilities, where adding
//! rounds. What its gradient rests on is exact where adding and multiplying are: that
//! the alignments through all positions of any frame are all the alignments, and that
//! they change by the same share with each probability.
use vstd::prelude::*;

use crate::ctc::{alpha, at_frame, beta, likelihood, may_follow, occupancy};
use crate::float::F64;
use crate::logmath::{void, LogMath};

verus! {

/// Adding and multiplying, with what adds nothing and what multiplies by one.
#[verifier::reject_recursive_types(T)]
pub struct Ring<T> {
    pub none: T,
    pub unit: T,
    pub either: spec_fn(T, T) -> T,
    pub both: spec_fn(T, T) -> T,
}

impl<T> Ring<T> {
    pub open spec fn plus(self, a: T, b: T) -> T {
        (self.either)(a, b)
    }

    pub open spec fn times(self, a: T, b: T) -> T {
        (self.both)(a, b)
    }

    /// A number under a condition.
    pub open spec fn when(self, c: bool, a: T) -> T {
        if c {
            a
        } else {
            self.none
        }
    }

    /// Whether adding and multiplying obey the laws of arithmetic.
    #[verifier::opaque]
    pub open spec fn lawful(self) -> bool {
        &&& forall|a: T, b: T| #[trigger] self.plus(a, b) == self.plus(b, a)
        &&& forall|a: T, b: T, c: T| #[trigger]
            self.plus(self.plus(a, b), c) == self.plus(a, self.plus(b, c))
        &&& forall|a: T| #[trigger] self.plus(a, self.none) == a
        &&& forall|a: T, b: T| #[trigger] self.times(a, b) == self.times(b, a)
        &&& forall|a: T, b: T, c: T| #[trigger]
            self.times(self.times(a, b), c) == self.times(a, self.times(b, c))
        &&& forall|a: T| #[trigger] self.times(a, self.unit) == a
        &&& forall|a: T| #[trigger] self.times(a, self.none) == self.none
        &&& forall|a: T, b: T, c: T| #[trigger]
            self.times(self.plus(a, b), c) == self.plus(self.times(a, c), self.times(b, c))
    }

    /// The sum of the first `n` numbers of a row.
    pub open spec fn sum(self, f: spec_fn(int) -> T, n: nat) -> T
        decreases n,
    {
        if n == 0 {
            self.none
        } else {
            self.plus(self.sum(f, (n - 1) as nat), f(n - 1))
        }
    }

    pub(crate) proof fn lemma_plus(self, a: T, b: T, c: T, d: T)
        requires
            self.lawful(),
        ensures
            self.plus(a, b) == self.plus(b, a),
            self.plus(self.plus(a, b), c) == self.plus(a, self.plus(b, c)),
            self.plus(a, self.none) == a,
            self.plus(self.none, a) == a,
            self.plus(self.plus(a, b), self.plus(c, d)) == self.plus(
                self.plus(a, c),
                self.plus(b, d),
            ),
    {
        reveal(Ring::lawful);
        assert(self.plus(self.none, a) == self.plus(a, self.none));
        let left = self.plus(self.plus(a, b), self.plus(c, d));
        assert(left == self.plus(a, self.plus(b, self.plus(c, d))));
        assert(self.plus(self.plus(b, c), d) == self.plus(b, self.plus(c, d)));
        assert(self.plus(b, c) == self.plus(c, b));
        assert(self.plus(self.plus(c, b), d) == self.plus(c, self.plus(b, d)));
        assert(self.plus(self.plus(a, c), self.plus(b, d)) == self.plus(
            a,
            self.plus(c, self.plus(b, d)),
        ));
    }

    pub(crate) proof fn lemma_times(self, a: T, b: T, c: T)
        requires
            self.lawful(),
        ensures
            self.times(a, b) == self.times(b, a),
            self.times(self.times(a, b), c) == self.times(a, self.times(b, c)),
            self.times(self.times(a, b), c) == self.times(self.times(a, c), b),
            self.times(a, self.unit) == a,
            self.times(self.unit, a) == a,
            self.times(a, self.none) == self.none,
            self.times(self.none, a) == self.none,
            self.times(self.plus(a, b), c) == self.plus(self.times(a, c), self.times(b, c)),
            self.times(c, self.plus(a, b)) == self.plus(self.times(c, a), self.times(c, b)),
    {
        reveal(Ring::lawful);
        assert(self.times(self.unit, a) == self.times(a, self.unit));
        assert(self.times(self.none, a) == self.times(a, self.none));
        assert(self.times(c, self.plus(a, b)) == self.times(self.plus(a, b), c));
        assert(self.times(c, a) == self.times(a, c));
        assert(self.times(c, b) == self.times(b, c));
        assert(self.times(self.times(a, c), b) == self.times(a, self.times(c, b)));
    }

    pub(crate) proof fn lemma_sum_same(self, f: spec_fn(int) -> T, g: spec_fn(int) -> T, n: nat)
        requires
            forall|i: int| 0 <= i < n ==> #[trigger] f(i) == g(i),
        ensures
            self.sum(f, n) == self.sum(g, n),
        decreases n,
    {
        if n > 0 {
            self.lemma_sum_same(f, g, (n - 1) as nat);
            assert(f(n - 1) == g(n - 1));
        }
    }

    pub(crate) proof fn lemma_sum_plus(self, f: spec_fn(int) -> T, g: spec_fn(int) -> T, n: nat)
        requires
            self.lawful(),
        ensures
            self.sum(|i: int| self.plus(f(i), g(i)), n) == self.plus(
                self.sum(f, n),
                self.sum(g, n),
            ),
        decreases n,
    {
        if n == 0 {
            self.lemma_plus(self.none, self.none, self.none, self.none);
        } else {
            self.lemma_sum_plus(f, g, (n - 1) as nat);
            self.lemma_plus(
                self.sum(f, (n - 1) as nat),
                self.sum(g, (n - 1) as nat),
                f(n - 1),
                g(n - 1),
            );
        }
    }

    pub(crate) proof fn lemma_sum_times(self, f: spec_fn(int) -> T, g: spec_fn(int) -> T, a: T, n: nat)
        requires
            self.lawful(),
            forall|i: int| 0 <= i < n ==> #[trigger] g(i) == self.times(a, f(i)),
        ensures
            self.sum(g, n) == self.times(a, self.sum(f, n)),
        decreases n,
    {
        if n == 0 {
            self.lemma_times(a, a, a);
        } else {
            self.lemma_sum_times(f, g, a, (n - 1) as nat);
            self.lemma_times(self.sum(f, (n - 1) as nat), f(n - 1), a);
            assert(g(n - 1) == self.times(a, f(n - 1)));
        }
    }

    pub(crate) proof fn lemma_sum_none(self, f: spec_fn(int) -> T, n: nat)
        requires
            self.lawful(),
            forall|i: int| 0 <= i < n ==> #[trigger] f(i) == self.none,
        ensures
            self.sum(f, n) == self.none,
        decreases n,
    {
        if n > 0 {
            self.lemma_sum_none(f, (n - 1) as nat);
            self.lemma_plus(self.none, self.none, self.none, self.none);
            assert(f(n - 1) == self.none);
        }
    }

    /// Only one number of a row counts.
    pub(crate) proof fn lemma_sum_one(self, k: int, a: T, n: nat)
        requires
            self.lawful(),
            0 <= k < n,
        ensures
            self.sum(|i: int| self.when(i == k, a), n) == a,
        decreases n,
    {
        let f = |i: int| self.when(i == k, a);
        self.lemma_plus(a, self.none, self.none, self.none);
        if k == n - 1 {
            self.lemma_sum_none(f, (n - 1) as nat);
        } else {
            self.lemma_sum_one(k, a, (n - 1) as nat);
        }
    }

    proof fn lemma_sum_behind(self, f: spec_fn(int) -> T, g: spec_fn(int) -> T, n: nat)
        requires
            self.lawful(),
            g(0) == self.none,
            forall|i: int| 0 <= i < n ==> #[trigger] f(i) == g(i + 1),
        ensures
            self.sum(f, n) == self.sum(g, n + 1),
        decreases n,
    {
        self.lemma_plus(self.none, self.none, self.none, self.none);
        if n > 0 {
            self.lemma_sum_behind(f, g, (n - 1) as nat);
            assert(f(n - 1) == g(n as int));
        } else {
            assert(self.sum(g, 1) == self.plus(self.sum(g, 0), g(0)));
        }
    }

    /// A row moved on by one place has the same sum, if nothing falls off its end.
    proof fn lemma_sum_moved(self, f: spec_fn(int) -> T, g: spec_fn(int) -> T, n: nat)
        requires
            self.lawful(),
            n > 0,
            g(0) == self.none,
            f(n - 1) == self.none,
            forall|i: int| 0 <= i < n - 1 ==> #[trigger] f(i) == g(i + 1),
        ensures
            self.sum(f, n) == self.sum(g, n),
    {
        self.lemma_sum_behind(f, g, (n - 1) as nat);
        self.lemma_plus(self.sum(f, (n - 1) as nat), self.none, self.none, self.none);
    }
}

/// A target's positions, blanks between its labels, and what each class counts at each
/// frame.
#[verifier::reject_recursive_types(T)]
pub struct Lattice<T> {
    pub ring: Ring<T>,
    pub p: spec_fn(int, usize) -> T,
    pub z: Seq<usize>,
    pub blank: usize,
}

impl<T> Lattice<T> {
    /// What all ways into position `s` at frame `t` count before that frame.
    pub open spec fn arrive(self, t: int, s: int) -> T
        decreases t, 0int,
    {
        let q = self.ring;
        if t <= 0 {
            q.when(s <= 1, q.unit)
        } else {
            let stay = self.fwd(t - 1, s);
            let one = if s >= 1 {
                q.plus(stay, self.fwd(t - 1, s - 1))
            } else {
                stay
            };
            if s >= 2 && may_follow(self.z, self.blank, s - 2, s) {
                q.plus(one, self.fwd(t - 1, s - 2))
            } else {
                one
            }
        }
    }

    /// What all ways to stand at position `s` at frame `t` count up to that frame.
    pub open spec fn fwd(self, t: int, s: int) -> T
        decreases t, 1int,
    {
        if t <= 0 {
            self.ring.when(s <= 1, (self.p)(0, self.z[s]))
        } else {
            self.ring.times(self.arrive(t, s), (self.p)(t, self.z[s]))
        }
    }

    /// What all ways on from position `s` at frame `t` count behind that frame.
    pub open spec fn bwd(self, last: int, t: int, s: int) -> T
        decreases last - t,
    {
        let q = self.ring;
        if t >= last {
            q.when(s >= self.z.len() - 2, q.unit)
        } else {
            let stay = q.times(self.bwd(last, t + 1, s), (self.p)(t + 1, self.z[s]));
            let one = if s + 1 < self.z.len() {
                q.plus(
                    stay,
                    q.times(self.bwd(last, t + 1, s + 1), (self.p)(t + 1, self.z[s + 1])),
                )
            } else {
                stay
            };
            if s + 2 < self.z.len() && may_follow(self.z, self.blank, s, s + 2) {
                q.plus(
                    one,
                    q.times(self.bwd(last, t + 1, s + 2), (self.p)(t + 1, self.z[s + 2])),
                )
            } else {
                one
            }
        }
    }

    /// What all alignments count.
    pub open spec fn total(self, last: int) -> T {
        let n = self.z.len();
        let end = self.fwd(last, n - 1);
        if n > 1 {
            self.ring.plus(end, self.fwd(last, n - 2))
        } else {
            end
        }
    }

    /// What all alignments through position `s` at frame `t` count.
    pub open spec fn through(self, last: int, t: int, s: int) -> T {
        self.ring.times(self.fwd(t, s), self.bwd(last, t, s))
    }

    /// What all alignments with class `k` at frame `t` count, over the first `n`
    /// positions.
    pub open spec fn having(self, last: int, t: int, k: usize, n: nat) -> T
        decreases n,
    {
        if n == 0 {
            self.ring.none
        } else {
            let before = self.having(last, t, k, (n - 1) as nat);
            if self.z[n - 1] == k && self.through(last, t, n - 1) != self.ring.none {
                self.ring.plus(before, self.through(last, t, n - 1))
            } else {
                before
            }
        }
    }

    /// What all alignments through position `s` at frame `t` count but for that frame,
    /// where the position has class `k`.
    pub open spec fn around(self, last: int, t: int, k: usize, s: int) -> T {
        self.ring.when(
            self.z[s] == k,
            self.ring.times(self.arrive(t, s), self.bwd(last, t, s)),
        )
    }

    /// How what all alignments count changes with what class `k` counts at frame `t`.
    pub open spec fn change(self, last: int, t: int, k: usize) -> T {
        self.ring.sum(|s: int| self.around(last, t, k, s), self.z.len())
    }

    /// The same lattice with something added to what class `k` counts at frame `t`.
    pub open spec fn bumped(self, t: int, k: usize, h: T) -> Lattice<T> {
        Lattice {
            p: |u: int, c: usize|
                if u == t && c == k {
                    self.ring.plus((self.p)(u, c), h)
                } else {
                    (self.p)(u, c)
                },
            ..self
        }
    }

    proof fn lemma_fwd(self, t: int, s: int)
        requires
            self.ring.lawful(),
            0 <= t,
        ensures
            self.fwd(t, s) == self.ring.times(self.arrive(t, s), (self.p)(t, self.z[s])),
    {
        self.ring.lemma_times((self.p)(0, self.z[s]), self.ring.unit, self.ring.unit);
    }

    /// The next frame's ways in, as a sum of three.
    proof fn lemma_arrive(self, t: int, s: int)
        requires
            self.ring.lawful(),
            0 <= t,
        ensures
            self.arrive(t + 1, s) == self.ring.plus(
                self.ring.plus(self.fwd(t, s), self.ring.when(s >= 1, self.fwd(t, s - 1))),
                self.ring.when(
                    s >= 2 && may_follow(self.z, self.blank, s - 2, s),
                    self.fwd(t, s - 2),
                ),
            ),
    {
        let q = self.ring;
        q.lemma_plus(self.fwd(t, s), q.none, q.none, q.none);
        q.lemma_plus(q.plus(self.fwd(t, s), self.fwd(t, s - 1)), q.none, q.none, q.none);
    }

    /// What goes on through a position at the next frame.
    spec fn onward(self, last: int, t: int, s: int) -> T {
        self.ring.times(self.bwd(last, t + 1, s), (self.p)(t + 1, self.z[s]))
    }

    /// The ways on, as a sum of three.
    proof fn lemma_bwd(self, last: int, t: int, s: int)
        requires
            self.ring.lawful(),
            t < last,
        ensures
            self.bwd(last, t, s) == self.ring.plus(
                self.ring.plus(
                    self.onward(last, t, s),
                    self.ring.when(s + 1 < self.z.len(), self.onward(last, t, s + 1)),
                ),
                self.ring.when(
                    s + 2 < self.z.len() && may_follow(self.z, self.blank, s, s + 2),
                    self.onward(last, t, s + 2),
                ),
            ),
    {
        let q = self.ring;
        let a = self.onward(last, t, s);
        q.lemma_plus(a, q.none, q.none, q.none);
        q.lemma_plus(q.plus(a, self.onward(last, t, s + 1)), q.none, q.none, q.none);
    }

    /// What goes from position `s` at frame `t` to `d` positions on.
    spec fn edge(self, last: int, t: int, d: int, s: int) -> T {
        self.ring.when(
            0 <= s && s + d < self.z.len() && (d < 2 || may_follow(self.z, self.blank, s, s + d)),
            self.ring.times(self.fwd(t, s), self.onward(last, t, s + d)),
        )
    }

    proof fn lemma_out(self, last: int, t: int, s: int)
        requires
            self.ring.lawful(),
            t < last,
            0 <= s < self.z.len(),
        ensures
            self.through(last, t, s) == self.ring.plus(
                self.ring.plus(self.edge(last, t, 0, s), self.edge(last, t, 1, s)),
                self.edge(last, t, 2, s),
            ),
    {
        let q = self.ring;
        let f = self.fwd(t, s);
        let a = self.onward(last, t, s);
        let b = q.when(s + 1 < self.z.len(), self.onward(last, t, s + 1));
        let c = q.when(
            s + 2 < self.z.len() && may_follow(self.z, self.blank, s, s + 2),
            self.onward(last, t, s + 2),
        );
        self.lemma_bwd(last, t, s);
        q.lemma_times(q.plus(a, b), c, f);
        q.lemma_times(a, b, f);
        q.lemma_times(f, f, f);
    }

    proof fn lemma_in(self, last: int, t: int, s: int)
        requires
            self.ring.lawful(),
            0 <= t < last,
            0 <= s < self.z.len(),
        ensures
            self.through(last, t + 1, s) == self.ring.plus(
                self.ring.plus(self.edge(last, t, 0, s), self.edge(last, t, 1, s - 1)),
                self.edge(last, t, 2, s - 2),
            ),
    {
        let q = self.ring;
        let w = self.onward(last, t, s);
        let a = self.fwd(t, s);
        let b = q.when(s >= 1, self.fwd(t, s - 1));
        let c = q.when(
            s >= 2 && may_follow(self.z, self.blank, s - 2, s),
            self.fwd(t, s - 2),
        );
        self.lemma_arrive(t, s);
        let p = (self.p)(t + 1, self.z[s]);
        let back = self.bwd(last, t + 1, s);
        q.lemma_times(self.arrive(t + 1, s), p, back);
        q.lemma_times(p, back, back);
        assert(self.through(last, t + 1, s) == q.times(self.arrive(t + 1, s), w));
        q.lemma_times(q.plus(a, b), c, w);
        q.lemma_times(a, b, w);
        q.lemma_times(w, w, w);
    }

    /// The edges between two frames, by where they start or by where they end.
    proof fn lemma_edges(self, last: int, t: int)
        requires
            self.ring.lawful(),
            self.z.len() > 0,
        ensures
            self.ring.sum(|s: int| self.edge(last, t, 1, s), self.z.len()) == self.ring.sum(
                |s: int| self.edge(last, t, 1, s - 1),
                self.z.len(),
            ),
            self.ring.sum(|s: int| self.edge(last, t, 2, s), self.z.len()) == self.ring.sum(
                |s: int| self.edge(last, t, 2, s - 2),
                self.z.len(),
            ),
    {
        let n = self.z.len();
        self.ring.lemma_sum_moved(
            |s: int| self.edge(last, t, 1, s),
            |s: int| self.edge(last, t, 1, s - 1),
            n,
        );
        self.ring.lemma_sum_moved(
            |s: int| self.edge(last, t, 2, s),
            |s: int| self.edge(last, t, 2, s - 1),
            n,
        );
        self.ring.lemma_sum_moved(
            |s: int| self.edge(last, t, 2, s - 1),
            |s: int| self.edge(last, t, 2, s - 2),
            n,
        );
    }

    proof fn lemma_next_frame(self, last: int, t: int)
        requires
            self.ring.lawful(),
            self.z.len() > 0,
            0 <= t < last,
        ensures
            self.ring.sum(|s: int| self.through(last, t, s), self.z.len()) == self.ring.sum(
                |s: int| self.through(last, t + 1, s),
                self.z.len(),
            ),
    {
        let q = self.ring;
        let n = self.z.len();
        let e0 = |s: int| self.edge(last, t, 0, s);
        let e1 = |s: int| self.edge(last, t, 1, s);
        let e2 = |s: int| self.edge(last, t, 2, s);
        let f1 = |s: int| self.edge(last, t, 1, s - 1);
        let f2 = |s: int| self.edge(last, t, 2, s - 2);
        let e01 = |s: int| q.plus(e0(s), e1(s));
        let f01 = |s: int| q.plus(e0(s), f1(s));
        let out = |s: int| q.plus(e01(s), e2(s));
        let into = |s: int| q.plus(f01(s), f2(s));
        let here = |s: int| self.through(last, t, s);
        let next = |s: int| self.through(last, t + 1, s);
        assert forall|s: int| 0 <= s < n implies #[trigger] here(s) == out(s) by {
            self.lemma_out(last, t, s);
        }
        q.lemma_sum_same(here, out, n);
        assert forall|s: int| 0 <= s < n implies #[trigger] next(s) == into(s) by {
            self.lemma_in(last, t, s);
        }
        q.lemma_sum_same(next, into, n);
        q.lemma_sum_plus(e01, e2, n);
        q.lemma_sum_plus(e0, e1, n);
        q.lemma_sum_plus(f01, f2, n);
        q.lemma_sum_plus(e0, f1, n);
        self.lemma_edges(last, t);
    }

    proof fn lemma_last_frame(self, last: int)
        requires
            self.ring.lawful(),
            self.z.len() > 0,
        ensures
            self.ring.sum(|s: int| self.through(last, last, s), self.z.len()) == self.total(last),
    {
        let q = self.ring;
        let n = self.z.len();
        let f = |s: int| self.through(last, last, s);
        assert forall|s: int| 0 <= s < n implies #[trigger] f(s) == q.when(
            s >= n - 2,
            self.fwd(last, s),
        ) by {
            q.lemma_times(self.fwd(last, s), q.unit, q.unit);
        }
        if n == 1 {
            q.lemma_plus(f(0), q.none, q.none, q.none);
            assert(q.sum(f, 1) == q.plus(q.sum(f, 0), f(0)));
        } else {
            q.lemma_sum_none(f, (n - 2) as nat);
            q.lemma_plus(f(n - 2), f(n - 1), q.none, q.none);
            assert(q.sum(f, n) == q.plus(q.sum(f, (n - 1) as nat), f(n - 1)));
            assert(q.sum(f, (n - 1) as nat) == q.plus(q.sum(f, (n - 2) as nat), f(n - 2)));
        }
    }

    /// At every frame the alignments through all positions are all the alignments.
    pub proof fn lemma_every_frame(self, last: int, t: int)
        requires
            self.ring.lawful(),
            self.z.len() > 0,
            0 <= t <= last,
        ensures
            self.ring.sum(|s: int| self.through(last, t, s), self.z.len()) == self.total(last),
        decreases last - t,
    {
        if t < last {
            self.lemma_every_frame(last, t + 1);
            self.lemma_next_frame(last, t);
        } else {
            self.lemma_last_frame(last);
        }
    }

    /// What has a class, as a sum.
    proof fn lemma_having(self, last: int, t: int, k: usize, n: nat)
        requires
            self.ring.lawful(),
        ensures
            self.having(last, t, k, n) == self.ring.sum(
                |s: int| self.ring.when(self.z[s] == k, self.through(last, t, s)),
                n,
            ),
        decreases n,
    {
        if n > 0 {
            self.lemma_having(last, t, k, (n - 1) as nat);
            self.ring.lemma_plus(
                self.having(last, t, k, (n - 1) as nat),
                self.ring.none,
                self.ring.none,
                self.ring.none,
            );
        }
    }

    proof fn lemma_classes(self, last: int, t: int, cols: nat, n: nat)
        requires
            self.ring.lawful(),
            n <= self.z.len(),
            cols <= usize::MAX,
            forall|s: int| 0 <= s < self.z.len() ==> (#[trigger] self.z[s]) < cols,
        ensures
            self.ring.sum(|k: int| self.having(last, t, k as usize, n), cols) == self.ring.sum(
                |s: int| self.through(last, t, s),
                n,
            ),
        decreases n,
    {
        let q = self.ring;
        if n == 0 {
            q.lemma_sum_none(|k: int| self.having(last, t, k as usize, n), cols);
        } else {
            let m = (n - 1) as nat;
            let here = self.through(last, t, n - 1);
            let label = self.z[n - 1];
            self.lemma_classes(last, t, cols, m);
            let before = |k: int| self.having(last, t, k as usize, m);
            let one = |k: int| q.when(k == label as int, here);
            let both = |k: int| q.plus(before(k), one(k));
            let all = |k: int| self.having(last, t, k as usize, n);
            assert forall|k: int| 0 <= k < cols implies #[trigger] all(k) == both(k) by {
                q.lemma_plus(before(k), q.none, q.none, q.none);
            }
            q.lemma_sum_same(all, both, cols);
            q.lemma_sum_plus(before, one, cols);
            q.lemma_sum_one(label as int, here, cols);
        }
    }

    /// At every frame the alignments with each class are together all the alignments.
    pub proof fn lemma_classes_share(self, last: int, t: int, cols: nat)
        requires
            self.ring.lawful(),
            self.z.len() > 0,
            0 <= t <= last,
            cols <= usize::MAX,
            forall|s: int| 0 <= s < self.z.len() ==> (#[trigger] self.z[s]) < cols,
        ensures
            self.ring.sum(
                |k: int| self.having(last, t, k as usize, self.z.len()),
                cols,
            ) == self.total(last),
    {
        self.lemma_classes(last, t, cols, self.z.len());
        self.lemma_every_frame(last, t);
    }

    /// What comes before a frame does not depend on what counts at it.
    proof fn lemma_before(self, t: int, k: usize, h: T, u: int, s: int)
        requires
            0 <= u <= t,
        ensures
            self.arrive(u, s) == self.bumped(t, k, h).arrive(u, s),
            u < t ==> self.fwd(u, s) == self.bumped(t, k, h).fwd(u, s),
        decreases u,
    {
        if u > 0 {
            self.lemma_before(t, k, h, u - 1, s);
            self.lemma_before(t, k, h, u - 1, s - 1);
            self.lemma_before(t, k, h, u - 1, s - 2);
        }
    }

    /// What comes behind a frame does not depend on what counts at it.
    proof fn lemma_behind(self, last: int, t: int, k: usize, h: T, u: int, s: int)
        requires
            u >= t,
        ensures
            self.bwd(last, u, s) == self.bumped(t, k, h).bwd(last, u, s),
        decreases last - u,
    {
        if u < last {
            self.lemma_behind(last, t, k, h, u + 1, s);
            self.lemma_behind(last, t, k, h, u + 1, s + 1);
            self.lemma_behind(last, t, k, h, u + 1, s + 2);
        }
    }

    /// What all alignments count grows evenly with what a class counts at a frame; and
    /// that growth, times what the class counts there, is what the alignments with the
    /// class there count.
    pub proof fn lemma_change(self, last: int, t: int, k: usize, h: T)
        requires
            self.ring.lawful(),
            self.z.len() > 0,
            0 <= t <= last,
        ensures
            self.bumped(t, k, h).total(last) == self.ring.plus(
                self.total(last),
                self.ring.times(h, self.change(last, t, k)),
            ),
            self.having(last, t, k, self.z.len()) == self.ring.times(
                (self.p)(t, k),
                self.change(last, t, k),
            ),
    {
        let q = self.ring;
        let n = self.z.len();
        let other = self.bumped(t, k, h);
        let part = |s: int| self.around(last, t, k, s);
        let base = |s: int| self.through(last, t, s);
        let more = |s: int| q.times(h, part(s));
        let own = |s: int| q.times((self.p)(t, k), part(s));
        let moved = |s: int| other.through(last, t, s);
        let grown = |s: int| q.plus(base(s), more(s));
        assert forall|s: int| 0 <= s < n implies #[trigger] moved(s) == grown(s) by {
            self.lemma_before(t, k, h, t, s);
            self.lemma_behind(last, t, k, h, t, s);
            self.lemma_fwd(t, s);
            other.lemma_fwd(t, s);
            let a = self.arrive(t, s);
            let b = self.bwd(last, t, s);
            let p = (self.p)(t, self.z[s]);
            q.lemma_times(h, h, h);
            q.lemma_plus(base(s), q.none, q.none, q.none);
            if self.z[s] == k {
                q.lemma_times(p, h, a);
                q.lemma_times(q.times(a, p), q.times(a, h), b);
                q.lemma_times(h, a, b);
                q.lemma_times(a, h, b);
            }
        }
        q.lemma_sum_same(moved, grown, n);
        q.lemma_sum_plus(base, more, n);
        q.lemma_sum_times(part, more, h, n);
        assert(q.sum(part, n) == self.change(last, t, k));
        self.lemma_every_frame(last, t);
        other.lemma_every_frame(last, t);
        assert(q.sum(moved, n) == other.total(last));
        assert(q.sum(base, n) == self.total(last));
        let held = |s: int| self.ring.when(self.z[s] == k, self.through(last, t, s));
        assert forall|s: int| 0 <= s < n implies #[trigger] held(s) == own(s) by {
            self.lemma_fwd(t, s);
            let a = self.arrive(t, s);
            let b = self.bwd(last, t, s);
            let p = (self.p)(t, self.z[s]);
            q.lemma_times((self.p)(t, k), a, b);
            q.lemma_times(a, p, b);
        }
        q.lemma_sum_same(held, own, n);
        q.lemma_sum_times(part, own, (self.p)(t, k), n);
        self.lemma_having(last, t, k, n);
    }
}

/// The lattice of a target over log probabilities, as the loss walks it.
pub open spec fn log_lattice(
    m: LogMath,
    probs: Seq<F64>,
    cols: int,
    z: Seq<usize>,
    blank: usize,
) -> Lattice<F64> {
    Lattice {
        ring: Ring {
            none: void(),
            unit: F64 { bits: 0 },
            either: |a: F64, b: F64| m.log_add(a, b),
            both: |a: F64, b: F64| a.sum(b),
        },
        p: |t: int, k: usize| at_frame(probs, cols, t, k),
        z,
        blank,
    }
}

proof fn lemma_log_alpha(
    m: LogMath,
    probs: Seq<F64>,
    cols: int,
    z: Seq<usize>,
    blank: usize,
    t: int,
    s: int,
)
    ensures
        alpha(m, probs, cols, z, blank, t, s) == log_lattice(m, probs, cols, z, blank).fwd(t, s),
    decreases t,
{
    if t > 0 {
        lemma_log_alpha(m, probs, cols, z, blank, t - 1, s);
        lemma_log_alpha(m, probs, cols, z, blank, t - 1, s - 1);
        lemma_log_alpha(m, probs, cols, z, blank, t - 1, s - 2);
    }
}

proof fn lemma_log_beta(
    m: LogMath,
    probs: Seq<F64>,
    cols: int,
    z: Seq<usize>,
    blank: usize,
    last: int,
    t: int,
    s: int,
)
    ensures
        beta(m, probs, cols, z, blank, last, t, s) == log_lattice(m, probs, cols, z, blank).bwd(
            last,
            t,
            s,
        ),
    decreases last - t,
{
    if t < last {
        lemma_log_beta(m, probs, cols, z, blank, last, t + 1, s);
        lemma_log_beta(m, probs, cols, z, blank, last, t + 1, s + 1);
        lemma_log_beta(m, probs, cols, z, blank, last, t + 1, s + 2);
    }
}

/// What the loss computes is this lattice, walked with log probabilities.
pub proof fn lemma_log_domain(
    m: LogMath,
    probs: Seq<F64>,
    cols: int,
    z: Seq<usize>,
    blank: usize,
    last: int,
    t: int,
    k: usize,
    n: nat,
)
    ensures
        likelihood(m, probs, cols, z, blank, last) == log_lattice(
            m,
            probs,
            cols,
            z,
            blank,
        ).total(last),
        occupancy(m, probs, cols, z, blank, last, t, k, n) == log_lattice(
            m,
            probs,
            cols,
            z,
            blank,
        ).having(last, t, k, n),
    decreases n,
{
    lemma_log_alpha(m, probs, cols, z, blank, last, z.len() - 1);
    lemma_log_alpha(m, probs, cols, z, blank, last, z.len() - 2);
    if n > 0 {
        lemma_log_domain(m, probs, cols, z, blank, last, t, k, (n - 1) as nat);
        lemma_log_alpha(m, probs, cols, z, blank, t, n - 1);
        lemma_log_beta(m, probs, cols, z, blank, last, t, n - 1);
    }
}

/// Adding and multiplying real numbers.
pub open spec fn exact() -> Ring<real> {
    Ring {
        none: 0 as real,
        unit: 1 as real,
        either: |a: real, b: real| a + b,
        both: |a: real, b: real| a * b,
    }
}

/// Real numbers obey the laws of arithmetic.
pub proof fn lemma_exact_lawful()
    ensures
        exact().lawful(),
{
    reveal(Ring::lawful);
    let q = exact();
    assert forall|a: real, b: real| #[trigger] q.times(a, b) == q.times(b, a) by {
        assert(a * b == b * a) by (nonlinear_arith);
    }
    assert forall|a: real, b: real, c: real| #[trigger]
        q.times(q.times(a, b), c) == q.times(a, q.times(b, c)) by {
        assert((a * b) * c == a * (b * c)) by (nonlinear_arith);
    }
    assert forall|a: real| #[trigger] q.times(a, q.unit) == a by {
        assert(a * (1 as real) == a) by (nonlinear_arith);
    }
    assert forall|a: real| #[trigger] q.times(a, q.none) == q.none by {
        assert(a * (0 as real) == 0 as real) by (nonlinear_arith);
    }
    assert forall|a: real, b: real, c: real| #[trigger]
        q.times(q.plus(a, b), c) == q.plus(q.times(a, c), q.times(b, c)) by {
        assert((a + b) * c == a * c + b * c) by (nonlinear_arith);
    }
}

impl Lattice<real> {
    /// The gradient of the loss at a logit: the class's probability less the share of
    /// alignments that have the class there.
    pub open spec fn slope(self, last: int, t: int, k: usize) -> real {
        (self.p)(t, k) - self.having(last, t, k, self.z.len()) / self.total(last)
    }

    /// Over real numbers the gradient adds up to zero at each frame whose probabilities
    /// add up to one.
    pub proof fn lemma_slopes_cancel(self, last: int, t: int, cols: nat)
        requires
            self.ring == exact(),
            self.z.len() > 0,
            0 <= t <= last,
            cols <= usize::MAX,
            forall|s: int| 0 <= s < self.z.len() ==> (#[trigger] self.z[s]) < cols,
            self.total(last) != 0 as real,
            self.ring.sum(|k: int| (self.p)(t, k as usize), cols) == 1 as real,
        ensures
            self.ring.sum(|k: int| self.slope(last, t, k as usize), cols) == 0 as real,
    {
        lemma_exact_lawful();
        let total = self.total(last);
        self.lemma_classes_share(last, t, cols);
        self.lemma_slopes_sum(last, t, cols);
        assert(total / total == 1 as real) by (nonlinear_arith)
            requires
                total != 0 as real,
        ;
    }

    proof fn lemma_slopes_sum(self, last: int, t: int, cols: nat)
        requires
            self.ring == exact(),
            self.total(last) != 0 as real,
        ensures
            self.ring.sum(|k: int| self.slope(last, t, k as usize), cols) == self.ring.sum(
                |k: int| (self.p)(t, k as usize),
                cols,
            ) - self.ring.sum(
                |k: int| self.having(last, t, k as usize, self.z.len()),
                cols,
            ) / self.total(last),
        decreases cols,
    {
        let total = self.total(last);
        if cols == 0 {
            assert((0 as real) / total == 0 as real) by (nonlinear_arith)
                requires
                    total != 0 as real,
            ;
        } else {
            self.lemma_slopes_sum(last, t, (cols - 1) as nat);
            let a = self.ring.sum(
                |k: int| self.having(last, t, k as usize, self.z.len()),
                (cols - 1) as nat,
            );
            let b = self.having(last, t, (cols - 1) as usize, self.z.len());
            assert((a + b) / total == a / total + b / total) by (nonlinear_arith)
                requires
                    total != 0 as real,
            ;
        }
    }

    /// Over real numbers the difference that a step in one probability makes to the
    /// likelihood is, whatever the step, that step times the share of the alignments
    /// with the class there: what the gradient takes from the probability.
    pub proof fn lemma_difference(self, last: int, t: int, k: usize, h: real)
        requires
            self.ring == exact(),
            self.z.len() > 0,
            0 <= t <= last,
        ensures
            (self.p)(t, k) * (self.bumped(t, k, h).total(last) - self.total(last)) == h
                * self.having(last, t, k, self.z.len()),
    {
        lemma_exact_lawful();
        self.lemma_change(last, t, k, h);
        let p = (self.p)(t, k);
        let c = self.change(last, t, k);
        let d = self.bumped(t, k, h).total(last) - self.total(last);
        assert(d == h * c);
        assert(p * (h * c) == h * (p * c)) by (nonlinear_arith);
    }
}

} // verus!
