//! What a search of prefixes adds up: all paths that read a prefix, over whatever adds
//! and multiplies.
//!
//! The search of [`crate::beam`] keeps two log probabilities for each prefix and carries
//! them from frame to frame, where adding rounds. Where adding and multiplying are exact
//! and nothing is dropped, the two are sums over all paths of one class per frame that
//! read the prefix: over those that end in a blank, and over those that end in the
//! prefix's last token.
use vstd::prelude::*;

use crate::beam::lemma_path_end;
use crate::ctc::collapse;
use crate::lattice::Ring;
use crate::text::text_less;

verus! {

/// A hypothesis: tokens, the two masses of the paths that read them, and what else goes
/// with the tokens.
pub struct Hypothesis<T, R> {
    pub tokens: Seq<usize>,
    pub rest: R,
    pub p_blank: T,
    pub p_nonblank: T,
}

/// A text and what it counts.
pub struct Scored<T> {
    pub text: Seq<char>,
    pub score: T,
}

/// What a search goes by: what each class counts at each frame, which class is the blank,
/// and what becomes of what goes with the tokens when one more is taken, or that it is
/// not taken.
#[verifier::reject_recursive_types(T)]
#[verifier::reject_recursive_types(R)]
pub struct Reader<T, R> {
    pub ring: Ring<T>,
    pub p: spec_fn(int, int) -> T,
    pub cols: nat,
    pub blank: usize,
    pub first: R,
    pub take: spec_fn(R, usize) -> Option<R>,
}

/// Where the hypothesis with these tokens stands.
pub open spec fn place_of<T, R>(next: Seq<Hypothesis<T, R>>, tokens: Seq<usize>) -> Option<int>
    decreases next.len(),
{
    if next.len() == 0 {
        None
    } else if next.last().tokens == tokens {
        Some(next.len() - 1)
    } else {
        place_of(next.drop_last(), tokens)
    }
}

proof fn lemma_place<T, R>(next: Seq<Hypothesis<T, R>>, tokens: Seq<usize>)
    ensures
        match place_of(next, tokens) {
            Some(i) => 0 <= i < next.len() && next[i].tokens == tokens,
            None => forall|s: int| 0 <= s < next.len() ==> (#[trigger] next[s]).tokens != tokens,
        },
    decreases next.len(),
{
    if next.len() > 0 && next.last().tokens != tokens {
        let rest = next.drop_last();
        lemma_place(rest, tokens);
        if place_of(next, tokens) is None {
            assert forall|s: int| 0 <= s < next.len() implies (#[trigger] next[s]).tokens
                != tokens by {
                if s < rest.len() {
                    assert(rest[s] == next[s]);
                }
            }
        }
    }
}

proof fn lemma_place_update<T, R>(
    next: Seq<Hypothesis<T, R>>,
    i: int,
    p: Hypothesis<T, R>,
    tokens: Seq<usize>,
)
    requires
        0 <= i < next.len(),
        p.tokens == next[i].tokens,
    ensures
        place_of(next.update(i, p), tokens) == place_of(next, tokens),
    decreases next.len(),
{
    let other = next.update(i, p);
    assert(other.last().tokens == next.last().tokens);
    if next.last().tokens != tokens {
        if i < next.len() - 1 {
            assert(other.drop_last() =~= next.drop_last().update(i, p));
            lemma_place_update(next.drop_last(), i, p, tokens);
        } else {
            assert(other.drop_last() =~= next.drop_last());
        }
    }
}

proof fn lemma_place_push<T, R>(
    next: Seq<Hypothesis<T, R>>,
    p: Hypothesis<T, R>,
    tokens: Seq<usize>,
)
    ensures
        place_of(next.push(p), tokens) == (if p.tokens == tokens {
            Some(next.len() as int)
        } else {
            place_of(next, tokens)
        }),
{
    assert(next.push(p).drop_last() =~= next);
}

/// Whether no two hypotheses have the same tokens.
pub open spec fn distinct<T, R>(next: Seq<Hypothesis<T, R>>) -> bool {
    forall|a: int, b: int|
        0 <= a < b < next.len() ==> (#[trigger] next[a]).tokens != (#[trigger] next[b]).tokens
}

proof fn lemma_place_only<T, R>(next: Seq<Hypothesis<T, R>>, i: int)
    requires
        distinct(next),
        0 <= i < next.len(),
    ensures
        place_of(next, next[i].tokens) == Some(i),
{
    lemma_place(next, next[i].tokens);
    if let Some(j) = place_of(next, next[i].tokens) {
        if i < j {
            assert(next[i].tokens != next[j].tokens);
        } else if j < i {
            assert(next[j].tokens != next[i].tokens);
        }
    }
}

/// Whether hypotheses are the same in some other order.
pub open spec fn rearranged<T, R>(a: Seq<Hypothesis<T, R>>, b: Seq<Hypothesis<T, R>>) -> bool {
    exists|order: Seq<int>| #[trigger] orders(order, a, b)
}

/// Whether an order brings hypotheses into that of others.
pub open spec fn orders<T, R>(
    order: Seq<int>,
    a: Seq<Hypothesis<T, R>>,
    b: Seq<Hypothesis<T, R>>,
) -> bool {
    &&& order.len() == a.len()
    &&& order.len() == b.len()
    &&& forall|i: int| 0 <= i < order.len() ==> 0 <= #[trigger] order[i] < a.len()
    &&& forall|i: int, j: int|
        0 <= i < j < order.len() ==> #[trigger] order[i] != #[trigger] order[j]
    &&& forall|k: int| 0 <= k < a.len() ==> #[trigger] order.contains(k)
    &&& forall|i: int| 0 <= i < order.len() ==> #[trigger] b[i] == a[order[i]]
}

/// What a path counts with one more class.
pub open spec fn then_class<T>(f: spec_fn(Seq<usize>) -> T, c: usize) -> spec_fn(
    Seq<usize>,
) -> T {
    |path: Seq<usize>| f(path.push(c))
}

impl<T, R> Reader<T, R> {
    /// What all paths of a hypothesis count.
    pub open spec fn mass(self, h: Hypothesis<T, R>) -> T {
        self.ring.plus(h.p_blank, h.p_nonblank)
    }

    /// What is left of a hypothesis when a blank follows.
    pub open spec fn blank_mass(self, t: int, h: Hypothesis<T, R>) -> T {
        self.ring.times(self.mass(h), (self.p)(t, self.blank as int))
    }

    /// What is left of a hypothesis when its last token goes on.
    pub open spec fn repeat_mass(self, t: int, h: Hypothesis<T, R>) -> T {
        if h.tokens.len() == 0 {
            self.ring.none
        } else {
            self.ring.times(h.p_nonblank, (self.p)(t, h.tokens.last() as int))
        }
    }

    /// A frame that adds no token to a hypothesis.
    pub open spec fn stay(
        self,
        t: int,
        next: Seq<Hypothesis<T, R>>,
        h: Hypothesis<T, R>,
    ) -> Seq<Hypothesis<T, R>> {
        let b = self.blank_mass(t, h);
        let r = self.repeat_mass(t, h);
        if b == self.ring.none && r == self.ring.none {
            next
        } else {
            match place_of(next, h.tokens) {
                Some(i) => next.update(
                    i,
                    Hypothesis {
                        p_blank: self.ring.plus(next[i].p_blank, b),
                        p_nonblank: self.ring.plus(next[i].p_nonblank, r),
                        ..next[i]
                    },
                ),
                None => next.push(Hypothesis { p_blank: b, p_nonblank: r, ..h }),
            }
        }
    }

    /// What a token can follow: a repeated one only what ends in a blank.
    pub open spec fn source(self, h: Hypothesis<T, R>, index: usize) -> T {
        if h.tokens.len() > 0 && h.tokens.last() == index {
            h.p_blank
        } else {
            self.mass(h)
        }
    }

    /// A frame that adds a token to a hypothesis.
    pub open spec fn extend_by(
        self,
        t: int,
        next: Seq<Hypothesis<T, R>>,
        h: Hypothesis<T, R>,
        index: usize,
    ) -> Seq<Hypothesis<T, R>> {
        let source = self.source(h, index);
        let emission = (self.p)(t, index as int);
        if index == self.blank || emission == self.ring.none || source == self.ring.none {
            next
        } else {
            let tokens = h.tokens.push(index);
            let mass = self.ring.times(source, emission);
            match place_of(next, tokens) {
                Some(i) => next.update(
                    i,
                    Hypothesis {
                        p_nonblank: self.ring.plus(next[i].p_nonblank, mass),
                        ..next[i]
                    },
                ),
                None => match (self.take)(h.rest, index) {
                    None => next,
                    Some(rest) => next.push(
                        Hypothesis {
                            tokens,
                            rest,
                            p_blank: self.ring.none,
                            p_nonblank: mass,
                        },
                    ),
                },
            }
        }
    }

    /// A frame that adds one of the first `n` tokens to a hypothesis.
    pub open spec fn extend_upto(
        self,
        t: int,
        next: Seq<Hypothesis<T, R>>,
        h: Hypothesis<T, R>,
        n: nat,
    ) -> Seq<Hypothesis<T, R>>
        decreases n,
    {
        if n == 0 {
            next
        } else {
            self.extend_by(t, self.extend_upto(t, next, h, (n - 1) as nat), h, (n - 1) as usize)
        }
    }

    /// All that a frame makes of the first `k` hypotheses.
    pub open spec fn fan_out(
        self,
        t: int,
        beam: Seq<Hypothesis<T, R>>,
        k: nat,
    ) -> Seq<Hypothesis<T, R>>
        decreases k,
    {
        if k == 0 {
            Seq::empty()
        } else {
            let h = beam[k - 1];
            self.extend_upto(
                t,
                self.stay(t, self.fan_out(t, beam, (k - 1) as nat), h),
                h,
                self.cols,
            )
        }
    }

    /// The one hypothesis before any frame.
    pub open spec fn start(self) -> Seq<Hypothesis<T, R>> {
        seq![
            Hypothesis {
                tokens: Seq::empty(),
                rest: self.first,
                p_blank: self.ring.unit,
                p_nonblank: self.ring.none,
            },
        ]
    }

    /// Whether hypotheses come from frame to frame, none dropped, in any order.
    pub open spec fn follows(self, beams: Seq<Seq<Hypothesis<T, R>>>) -> bool {
        &&& beams.len() > 0
        &&& beams[0] == self.start()
        &&& forall|t: int|
            0 <= t < beams.len() - 1 ==> rearranged(
                self.fan_out(t, #[trigger] beams[t], beams[t].len()),
                beams[t + 1],
            )
    }

    /// What goes with tokens; none where one of them is not taken.
    pub open spec fn along(self, tokens: Seq<usize>) -> Option<R>
        decreases tokens.len(),
    {
        if tokens.len() == 0 {
            Some(self.first)
        } else {
            match self.along(tokens.drop_last()) {
                None => None,
                Some(rest) => (self.take)(rest, tokens.last()),
            }
        }
    }

    /// Whether tokens are classes other than the blank, each of which is taken.
    pub open spec fn readable(self, tokens: Seq<usize>) -> bool {
        &&& self.along(tokens) is Some
        &&& forall|k: int|
            0 <= k < tokens.len() ==> (#[trigger] tokens[k]) < self.cols && tokens[k]
                != self.blank
    }

    /// What the paths count that read tokens and end in a blank, as hypotheses hold it.
    pub open spec fn held_blank(self, next: Seq<Hypothesis<T, R>>, tokens: Seq<usize>) -> T {
        match place_of(next, tokens) {
            Some(i) => next[i].p_blank,
            None => self.ring.none,
        }
    }

    /// What the paths count that read tokens and end in their last, as hypotheses hold it.
    pub open spec fn held_nonblank(self, next: Seq<Hypothesis<T, R>>, tokens: Seq<usize>) -> T {
        match place_of(next, tokens) {
            Some(i) => next[i].p_nonblank,
            None => self.ring.none,
        }
    }

    /// Whether hypotheses hold what goes with their tokens, no two the same tokens.
    pub open spec fn sound(self, next: Seq<Hypothesis<T, R>>) -> bool {
        &&& distinct(next)
        &&& forall|s: int|
            0 <= s < next.len() ==> {
                &&& self.readable((#[trigger] next[s]).tokens)
                &&& self.along(next[s].tokens) == Some(next[s].rest)
            }
    }

    /// The sum over all paths of `t` classes.
    pub open spec fn over_paths(self, t: nat, f: spec_fn(Seq<usize>) -> T) -> T
        decreases t, self.cols + 1,
    {
        if t == 0 {
            f(Seq::empty())
        } else {
            self.over_last(t, f, self.cols)
        }
    }

    /// The sum over all paths of `t` classes, the last of which is one of the first `n`.
    pub open spec fn over_last(self, t: nat, f: spec_fn(Seq<usize>) -> T, n: nat) -> T
        decreases t, n,
    {
        if t == 0 || n == 0 {
            self.ring.none
        } else {
            self.ring.plus(
                self.over_last(t, f, (n - 1) as nat),
                self.over_paths((t - 1) as nat, then_class(f, (n - 1) as usize)),
            )
        }
    }

    /// The sum over the paths of `t` classes that end in class `c`.
    spec fn ending(self, t: nat, f: spec_fn(Seq<usize>) -> T, c: int) -> T {
        self.over_paths((t - 1) as nat, then_class(f, c as usize))
    }

    proof fn lemma_over_last_sum(self, t: nat, f: spec_fn(Seq<usize>) -> T, n: nat)
        requires
            t > 0,
        ensures
            self.over_last(t, f, n) == self.ring.sum(|c: int| self.ending(t, f, c), n),
        decreases n,
    {
        if n > 0 {
            self.lemma_over_last_sum(t, f, (n - 1) as nat);
        }
    }

    /// The product of what a path's classes count, each at its frame.
    pub open spec fn weight(self, path: Seq<usize>) -> T
        decreases path.len(),
    {
        if path.len() == 0 {
            self.ring.unit
        } else {
            self.ring.times(
                self.weight(path.drop_last()),
                (self.p)(path.len() - 1, path.last() as int),
            )
        }
    }

    /// The sum, over all paths of `t` classes that read tokens, of their products.
    pub open spec fn total(self, t: nat, tokens: Seq<usize>) -> T {
        self.over_paths(
            t,
            |path: Seq<usize>|
                self.ring.when(collapse(path, self.blank) == tokens, self.weight(path)),
        )
    }

    /// The same over the paths that end in a blank, or have not begun.
    pub open spec fn total_blank(self, t: nat, tokens: Seq<usize>) -> T {
        self.over_paths(
            t,
            |path: Seq<usize>|
                self.ring.when(
                    collapse(path, self.blank) == tokens && (path.len() == 0 || path.last()
                        == self.blank),
                    self.weight(path),
                ),
        )
    }

    /// The same over the paths that end in a token.
    pub open spec fn total_nonblank(self, t: nat, tokens: Seq<usize>) -> T {
        self.over_paths(
            t,
            |path: Seq<usize>|
                self.ring.when(
                    collapse(path, self.blank) == tokens && path.len() > 0 && path.last()
                        != self.blank,
                    self.weight(path),
                ),
        )
    }

    proof fn lemma_over_same(
        self,
        t: nat,
        f: spec_fn(Seq<usize>) -> T,
        g: spec_fn(Seq<usize>) -> T,
    )
        requires
            forall|path: Seq<usize>| path.len() == t ==> #[trigger] f(path) == g(path),
        ensures
            self.over_paths(t, f) == self.over_paths(t, g),
        decreases t,
    {
        if t == 0 {
            assert(f(Seq::empty()) == g(Seq::empty()));
        } else {
            let before = (t - 1) as nat;
            self.lemma_over_last_sum(t, f, self.cols);
            self.lemma_over_last_sum(t, g, self.cols);
            let x = |c: int| self.ending(t, f, c);
            let y = |c: int| self.ending(t, g, c);
            assert forall|c: int| 0 <= c < self.cols implies #[trigger] x(c) == y(c) by {
                let u = then_class(f, c as usize);
                let v = then_class(g, c as usize);
                assert forall|path: Seq<usize>| path.len() == before implies #[trigger] u(path)
                    == v(path) by {
                    assert(f(path.push(c as usize)) == g(path.push(c as usize)));
                }
                self.lemma_over_same(before, u, v);
            }
            self.ring.lemma_sum_same(x, y, self.cols);
        }
    }

    proof fn lemma_over_none(self, t: nat, f: spec_fn(Seq<usize>) -> T)
        requires
            self.ring.lawful(),
            forall|path: Seq<usize>| path.len() == t ==> #[trigger] f(path) == self.ring.none,
        ensures
            self.over_paths(t, f) == self.ring.none,
        decreases t,
    {
        if t > 0 {
            let before = (t - 1) as nat;
            self.lemma_over_last_sum(t, f, self.cols);
            let x = |c: int| self.ending(t, f, c);
            assert forall|c: int| 0 <= c < self.cols implies #[trigger] x(c)
                == self.ring.none by {
                let u = then_class(f, c as usize);
                assert forall|path: Seq<usize>| path.len() == before implies #[trigger] u(path)
                    == self.ring.none by {
                    assert(f(path.push(c as usize)) == self.ring.none);
                }
                self.lemma_over_none(before, u);
            }
            self.ring.lemma_sum_none(x, self.cols);
        } else {
            assert(f(Seq::empty()) == self.ring.none);
        }
    }

    proof fn lemma_over_plus(
        self,
        t: nat,
        f: spec_fn(Seq<usize>) -> T,
        g: spec_fn(Seq<usize>) -> T,
        h: spec_fn(Seq<usize>) -> T,
    )
        requires
            self.ring.lawful(),
            forall|path: Seq<usize>|
                path.len() == t ==> #[trigger] h(path) == self.ring.plus(f(path), g(path)),
        ensures
            self.over_paths(t, h) == self.ring.plus(self.over_paths(t, f), self.over_paths(t, g)),
        decreases t,
    {
        if t == 0 {
            assert(h(Seq::empty()) == self.ring.plus(f(Seq::empty()), g(Seq::empty())));
        } else {
            let before = (t - 1) as nat;
            self.lemma_over_last_sum(t, f, self.cols);
            self.lemma_over_last_sum(t, g, self.cols);
            self.lemma_over_last_sum(t, h, self.cols);
            let x = |c: int| self.ending(t, f, c);
            let y = |c: int| self.ending(t, g, c);
            let z = |c: int| self.ending(t, h, c);
            let both = |c: int| self.ring.plus(x(c), y(c));
            assert forall|c: int| 0 <= c < self.cols implies #[trigger] z(c) == both(c) by {
                let u = then_class(f, c as usize);
                let v = then_class(g, c as usize);
                let w = then_class(h, c as usize);
                assert forall|path: Seq<usize>| path.len() == before implies #[trigger] w(path)
                    == self.ring.plus(u(path), v(path)) by {
                    assert(h(path.push(c as usize)) == self.ring.plus(
                        f(path.push(c as usize)),
                        g(path.push(c as usize)),
                    ));
                }
                self.lemma_over_plus(before, u, v, w);
            }
            self.ring.lemma_sum_same(z, both, self.cols);
            self.ring.lemma_sum_plus(x, y, self.cols);
        }
    }

    proof fn lemma_over_times(
        self,
        t: nat,
        f: spec_fn(Seq<usize>) -> T,
        g: spec_fn(Seq<usize>) -> T,
        a: T,
    )
        requires
            self.ring.lawful(),
            forall|path: Seq<usize>|
                path.len() == t ==> #[trigger] g(path) == self.ring.times(f(path), a),
        ensures
            self.over_paths(t, g) == self.ring.times(self.over_paths(t, f), a),
        decreases t,
    {
        if t == 0 {
            assert(g(Seq::empty()) == self.ring.times(f(Seq::empty()), a));
        } else {
            let before = (t - 1) as nat;
            self.lemma_over_last_sum(t, f, self.cols);
            self.lemma_over_last_sum(t, g, self.cols);
            let x = |c: int| self.ending(t, f, c);
            let y = |c: int| self.ending(t, g, c);
            assert forall|c: int| 0 <= c < self.cols implies #[trigger] y(c) == self.ring.times(
                a,
                x(c),
            ) by {
                let u = then_class(f, c as usize);
                let v = then_class(g, c as usize);
                assert forall|path: Seq<usize>| path.len() == before implies #[trigger] v(path)
                    == self.ring.times(u(path), a) by {
                    assert(g(path.push(c as usize)) == self.ring.times(
                        f(path.push(c as usize)),
                        a,
                    ));
                }
                self.lemma_over_times(before, u, v, a);
                self.ring.lemma_times(x(c), a, a);
            }
            self.ring.lemma_sum_times(x, y, a, self.cols);
            self.ring.lemma_times(self.over_paths(t, f), a, a);
        }
    }

    /// Of the paths that are one class longer, only those with one last class count.
    proof fn lemma_over_last(
        self,
        t: nat,
        f: spec_fn(Seq<usize>) -> T,
        last: usize,
        g: spec_fn(Seq<usize>) -> T,
    )
        requires
            self.ring.lawful(),
            t > 0,
            last < self.cols,
            self.cols <= usize::MAX,
            forall|path: Seq<usize>, c: usize|
                path.len() == t - 1 ==> #[trigger] f(path.push(c)) == (if c == last {
                    g(path)
                } else {
                    self.ring.none
                }),
        ensures
            self.over_paths(t, f) == self.over_paths((t - 1) as nat, g),
    {
        let before = (t - 1) as nat;
        self.lemma_over_last_sum(t, f, self.cols);
        let x = |c: int| self.ending(t, f, c);
        let a = self.over_paths(before, g);
        let y = |c: int| self.ring.when(c == last as int, a);
        assert forall|c: int| 0 <= c < self.cols implies #[trigger] x(c) == y(c) by {
            let u = then_class(f, c as usize);
            if c == last {
                assert forall|path: Seq<usize>| path.len() == before implies #[trigger] u(path)
                    == g(path) by {
                    assert(f(path.push(c as usize)) == g(path));
                }
                self.lemma_over_same(before, u, g);
            } else {
                assert(c as usize != last);
                assert forall|path: Seq<usize>| path.len() == before implies #[trigger] u(path)
                    == self.ring.none by {
                    assert(f(path.push(c as usize)) == self.ring.none);
                }
                self.lemma_over_none(before, u);
            }
        }
        self.ring.lemma_sum_same(x, y, self.cols);
        self.ring.lemma_sum_one(last as int, a, self.cols);
        let z = |i: int| self.ring.when(i == last as int, a);
        self.ring.lemma_sum_same(y, z, self.cols);
    }

    /// All paths end in a blank or in a token.
    proof fn lemma_total_parts(self, t: nat, tokens: Seq<usize>)
        requires
            self.ring.lawful(),
        ensures
            self.total(t, tokens) == self.ring.plus(
                self.total_blank(t, tokens),
                self.total_nonblank(t, tokens),
            ),
    {
        let q = self.ring;
        let all = |path: Seq<usize>|
            self.ring.when(collapse(path, self.blank) == tokens, self.weight(path));
        let ended = |path: Seq<usize>|
            self.ring.when(
                collapse(path, self.blank) == tokens && (path.len() == 0 || path.last()
                    == self.blank),
                self.weight(path),
            );
        let open = |path: Seq<usize>|
            self.ring.when(
                collapse(path, self.blank) == tokens && path.len() > 0 && path.last()
                    != self.blank,
                self.weight(path),
            );
        assert forall|path: Seq<usize>| path.len() == t implies #[trigger] all(path) == q.plus(
            ended(path),
            open(path),
        ) by {
            q.lemma_plus(self.weight(path), q.none, q.none, q.none);
            q.lemma_plus(q.none, q.none, q.none, q.none);
        }
        self.lemma_over_plus(t, ended, open, all);
    }

    proof fn lemma_longer(self, path: Seq<usize>, c: usize)
        ensures
            self.weight(path.push(c)) == self.ring.times(
                self.weight(path),
                (self.p)(path.len() as int, c as int),
            ),
            collapse(path.push(c), self.blank) == (if c == self.blank || (path.len() > 0
                && path.last() == c) {
                collapse(path, self.blank)
            } else {
                collapse(path, self.blank).push(c)
            }),
    {
        let longer = path.push(c);
        assert(longer.drop_last() =~= path);
        if path.len() > 0 {
            assert(longer[longer.len() - 2] == path.last());
        }
    }

    /// The paths of one more frame that end in a blank are all paths, and a blank.
    proof fn lemma_total_blank(self, t: nat, tokens: Seq<usize>)
        requires
            self.ring.lawful(),
            self.cols <= usize::MAX,
            self.blank < self.cols,
        ensures
            self.total_blank(t + 1, tokens) == self.ring.times(
                self.total(t, tokens),
                (self.p)(t as int, self.blank as int),
            ),
    {
        let q = self.ring;
        let a = (self.p)(t as int, self.blank as int);
        let all = |path: Seq<usize>|
            self.ring.when(collapse(path, self.blank) == tokens, self.weight(path));
        let ended = |path: Seq<usize>|
            self.ring.when(
                collapse(path, self.blank) == tokens && (path.len() == 0 || path.last()
                    == self.blank),
                self.weight(path),
            );
        let g = |path: Seq<usize>| self.ring.times(all(path), a);
        assert forall|path: Seq<usize>, c: usize| path.len() == t implies #[trigger] ended(
            path.push(c),
        ) == (if c == self.blank {
            g(path)
        } else {
            self.ring.none
        }) by {
            self.lemma_longer(path, c);
            assert(path.push(c).last() == c);
            q.lemma_times(a, q.none, q.none);
        }
        self.lemma_over_last(t + 1, ended, self.blank, g);
        self.lemma_over_times(t, all, g, a);
    }

    /// What can come before the last of these tokens.
    pub open spec fn total_source(self, t: nat, tokens: Seq<usize>) -> T {
        let before = tokens.drop_last();
        if before.len() > 0 && before.last() == tokens.last() {
            self.total_blank(t, before)
        } else {
            self.total(t, before)
        }
    }

    /// Whether a path can come before the last of these tokens.
    spec fn leads_to(self, path: Seq<usize>, tokens: Seq<usize>) -> bool {
        let before = tokens.drop_last();
        &&& collapse(path, self.blank) == before
        &&& before.len() > 0 && before.last() == tokens.last() ==> path.len() == 0 || path.last()
            == self.blank
    }

    /// A path with one more token reads what it read before, if the token goes on, or one
    /// token more.
    proof fn lemma_one_more(self, path: Seq<usize>, tokens: Seq<usize>)
        requires
            tokens.len() > 0,
            tokens.last() != self.blank,
        ensures
            ({
                let on = collapse(path, self.blank) == tokens && path.len() > 0 && path.last()
                    != self.blank;
                &&& collapse(path.push(tokens.last()), self.blank) == tokens <==> on
                    || self.leads_to(path, tokens)
                &&& !(on && self.leads_to(path, tokens))
            }),
    {
        let last = tokens.last();
        let before = tokens.drop_last();
        self.lemma_longer(path, last);
        lemma_path_end(path, self.blank);
        let own = collapse(path, self.blank);
        assert(before.push(last) =~= tokens);
        assert(own.push(last).drop_last() =~= own);
        assert(before.len() != tokens.len());
    }

    /// The paths of one more frame that end in the last token: those in which it goes on,
    /// and those to which it is added.
    proof fn lemma_total_nonblank(self, t: nat, tokens: Seq<usize>)
        requires
            self.ring.lawful(),
            self.cols <= usize::MAX,
            tokens.len() > 0,
            tokens.last() < self.cols,
            tokens.last() != self.blank,
        ensures
            self.total_nonblank(t + 1, tokens) == self.ring.plus(
                self.ring.times(
                    self.total_nonblank(t, tokens),
                    (self.p)(t as int, tokens.last() as int),
                ),
                self.ring.times(
                    self.total_source(t, tokens),
                    (self.p)(t as int, tokens.last() as int),
                ),
            ),
    {
        let q = self.ring;
        let last = tokens.last();
        let before = tokens.drop_last();
        let a = (self.p)(t as int, last as int);
        let open = |path: Seq<usize>|
            self.ring.when(
                collapse(path, self.blank) == tokens && path.len() > 0 && path.last()
                    != self.blank,
                self.weight(path),
            );
        let leading = |path: Seq<usize>|
            self.ring.when(self.leads_to(path, tokens), self.weight(path));
        let either = |path: Seq<usize>| self.ring.plus(open(path), leading(path));
        let g = |path: Seq<usize>| self.ring.times(either(path), a);
        assert forall|path: Seq<usize>, c: usize| path.len() == t implies #[trigger] open(
            path.push(c),
        ) == (if c == last {
            g(path)
        } else {
            self.ring.none
        }) by {
            self.lemma_longer(path, c);
            lemma_path_end(path.push(c), self.blank);
            assert(path.push(c).last() == c);
            if c == last {
                self.lemma_one_more(path, tokens);
                q.lemma_plus(self.weight(path), q.none, q.none, q.none);
                q.lemma_plus(q.none, q.none, q.none, q.none);
                q.lemma_times(a, q.none, q.none);
            }
        }
        self.lemma_over_last(t + 1, open, last, g);
        self.lemma_over_times(t, either, g, a);
        self.lemma_over_plus(t, open, leading, either);
        if before.len() > 0 && before.last() == last {
            let ended = |path: Seq<usize>|
                self.ring.when(
                    collapse(path, self.blank) == before && (path.len() == 0 || path.last()
                        == self.blank),
                    self.weight(path),
                );
            self.lemma_over_same(t, leading, ended);
        } else {
            let all = |path: Seq<usize>|
                self.ring.when(collapse(path, self.blank) == before, self.weight(path));
            self.lemma_over_same(t, leading, all);
        }
        q.lemma_times(self.total_nonblank(t, tokens), self.total_source(t, tokens), a);
    }

    /// No path that ends in a token reads nothing.
    proof fn lemma_nothing_read(self, t: nat)
        requires
            self.ring.lawful(),
        ensures
            self.total_nonblank(t, Seq::empty()) == self.ring.none,
    {
        let tokens = Seq::<usize>::empty();
        let open = |path: Seq<usize>|
            self.ring.when(
                collapse(path, self.blank) == tokens && path.len() > 0 && path.last()
                    != self.blank,
                self.weight(path),
            );
        assert forall|path: Seq<usize>| path.len() == t implies #[trigger] open(path)
            == self.ring.none by {
            lemma_path_end(path, self.blank);
        }
        self.lemma_over_none(t, open);
    }

    proof fn lemma_push_sound(self, next: Seq<Hypothesis<T, R>>, p: Hypothesis<T, R>)
        requires
            self.sound(next),
            self.readable(p.tokens),
            self.along(p.tokens) == Some(p.rest),
            place_of(next, p.tokens) is None,
        ensures
            self.sound(next.push(p)),
    {
        lemma_place(next, p.tokens);
    }

    proof fn lemma_update_sound(
        self,
        next: Seq<Hypothesis<T, R>>,
        i: int,
        p: Hypothesis<T, R>,
    )
        requires
            self.sound(next),
            0 <= i < next.len(),
            p.tokens == next[i].tokens,
            p.rest == next[i].rest,
        ensures
            self.sound(next.update(i, p)),
    {
        let other = next.update(i, p);
        assert forall|s: int| 0 <= s < other.len() implies {
            &&& self.readable((#[trigger] other[s]).tokens)
            &&& self.along(other[s].tokens) == Some(other[s].rest)
        } by {
            assert(self.readable(next[s].tokens));
        }
        assert forall|a: int, b: int| 0 <= a < b < other.len() implies (#[trigger] other[a]).tokens
            != (#[trigger] other[b]).tokens by {
            assert(next[a].tokens != next[b].tokens);
        }
    }

    /// What a frame that adds no token adds to what hypotheses hold.
    proof fn lemma_stay(
        self,
        t: int,
        next: Seq<Hypothesis<T, R>>,
        h: Hypothesis<T, R>,
        tokens: Seq<usize>,
    )
        requires
            self.ring.lawful(),
            self.sound(next),
            self.readable(h.tokens),
            self.along(h.tokens) == Some(h.rest),
        ensures
            self.sound(self.stay(t, next, h)),
            self.held_blank(self.stay(t, next, h), tokens) == self.ring.plus(
                self.held_blank(next, tokens),
                self.ring.when(h.tokens == tokens, self.blank_mass(t, h)),
            ),
            self.held_nonblank(self.stay(t, next, h), tokens) == self.ring.plus(
                self.held_nonblank(next, tokens),
                self.ring.when(h.tokens == tokens, self.repeat_mass(t, h)),
            ),
    {
        let q = self.ring;
        let b = self.blank_mass(t, h);
        let r = self.repeat_mass(t, h);
        q.lemma_plus(self.held_blank(next, tokens), q.none, q.none, q.none);
        q.lemma_plus(self.held_nonblank(next, tokens), q.none, q.none, q.none);
        q.lemma_plus(b, q.none, q.none, q.none);
        q.lemma_plus(r, q.none, q.none, q.none);
        lemma_place(next, h.tokens);
        lemma_place(next, tokens);
        if !(b == q.none && r == q.none) {
            match place_of(next, h.tokens) {
                Some(i) => {
                    let p = Hypothesis {
                        p_blank: q.plus(next[i].p_blank, b),
                        p_nonblank: q.plus(next[i].p_nonblank, r),
                        ..next[i]
                    };
                    lemma_place_update(next, i, p, tokens);
                    self.lemma_update_sound(next, i, p);
                },
                None => {
                    let p = Hypothesis { p_blank: b, p_nonblank: r, ..h };
                    lemma_place_push(next, p, tokens);
                    self.lemma_push_sound(next, p);
                },
            }
        }
    }

    /// What a frame that adds a token adds to what hypotheses hold.
    proof fn lemma_extend(
        self,
        t: int,
        next: Seq<Hypothesis<T, R>>,
        h: Hypothesis<T, R>,
        index: usize,
        tokens: Seq<usize>,
    )
        requires
            self.ring.lawful(),
            self.sound(next),
            self.readable(h.tokens),
            self.along(h.tokens) == Some(h.rest),
            index < self.cols,
            self.readable(tokens),
        ensures
            self.sound(self.extend_by(t, next, h, index)),
            self.held_blank(self.extend_by(t, next, h, index), tokens) == self.held_blank(
                next,
                tokens,
            ),
            self.held_nonblank(self.extend_by(t, next, h, index), tokens) == self.ring.plus(
                self.held_nonblank(next, tokens),
                self.ring.when(
                    h.tokens.push(index) == tokens,
                    self.ring.times(self.source(h, index), (self.p)(t, index as int)),
                ),
            ),
    {
        let q = self.ring;
        let longer = h.tokens.push(index);
        let source = self.source(h, index);
        let emission = (self.p)(t, index as int);
        let mass = q.times(source, emission);
        q.lemma_plus(self.held_nonblank(next, tokens), q.none, q.none, q.none);
        q.lemma_plus(mass, q.none, q.none, q.none);
        q.lemma_times(source, emission, emission);
        q.lemma_times(emission, source, source);
        lemma_place(next, longer);
        lemma_place(next, tokens);
        assert(longer.drop_last() =~= h.tokens);
        assert(longer.last() == index);
        if index == self.blank {
            if longer == tokens {
                assert(tokens[tokens.len() - 1] != self.blank);
            }
        } else if emission != q.none && source != q.none {
            match place_of(next, longer) {
                Some(i) => {
                    let p = Hypothesis {
                        p_nonblank: q.plus(next[i].p_nonblank, mass),
                        ..next[i]
                    };
                    lemma_place_update(next, i, p, tokens);
                    self.lemma_update_sound(next, i, p);
                },
                None => {
                    assert(self.along(longer) == (self.take)(h.rest, index));
                    if let Some(rest) = (self.take)(h.rest, index) {
                        let p = Hypothesis {
                            tokens: longer,
                            rest,
                            p_blank: q.none,
                            p_nonblank: mass,
                        };
                        lemma_place_push(next, p, tokens);
                        assert(self.readable(longer)) by {
                            assert forall|k: int| 0 <= k < longer.len() implies (
                            #[trigger] longer[k]) < self.cols && longer[k] != self.blank by {
                                if k < h.tokens.len() {
                                    assert(h.tokens[k] < self.cols);
                                }
                            }
                        }
                        self.lemma_push_sound(next, p);
                    }
                },
            }
        }
    }

    proof fn lemma_extend_upto(
        self,
        t: int,
        next: Seq<Hypothesis<T, R>>,
        h: Hypothesis<T, R>,
        n: nat,
        tokens: Seq<usize>,
    )
        requires
            self.ring.lawful(),
            self.sound(next),
            self.readable(h.tokens),
            self.along(h.tokens) == Some(h.rest),
            n <= self.cols,
            self.cols <= usize::MAX,
            self.readable(tokens),
        ensures
            self.sound(self.extend_upto(t, next, h, n)),
            self.held_blank(self.extend_upto(t, next, h, n), tokens) == self.held_blank(
                next,
                tokens,
            ),
            self.held_nonblank(self.extend_upto(t, next, h, n), tokens) == self.ring.plus(
                self.held_nonblank(next, tokens),
                self.ring.when(
                    tokens.len() > 0 && h.tokens == tokens.drop_last() && tokens.last() < n,
                    self.ring.times(
                        self.source(h, tokens.last()),
                        (self.p)(t, tokens.last() as int),
                    ),
                ),
            ),
        decreases n,
    {
        let q = self.ring;
        q.lemma_plus(self.held_nonblank(next, tokens), q.none, q.none, q.none);
        if n > 0 {
            let m = (n - 1) as nat;
            let index = m as usize;
            let before = self.extend_upto(t, next, h, m);
            self.lemma_extend_upto(t, next, h, m, tokens);
            self.lemma_extend(t, before, h, index, tokens);
            q.lemma_plus(self.held_nonblank(before, tokens), q.none, q.none, q.none);
            let longer = h.tokens.push(index);
            assert(longer.drop_last() =~= h.tokens);
            if tokens.len() > 0 && h.tokens == tokens.drop_last() && tokens.last() == index {
                assert(longer =~= tokens);
            }
        }
    }

    /// What a frame leaves of the hypothesis with these tokens when a blank follows.
    spec fn after_blank(self, t: int, beam: Seq<Hypothesis<T, R>>, tokens: Seq<usize>) -> T {
        match place_of(beam, tokens) {
            Some(i) => self.blank_mass(t, beam[i]),
            None => self.ring.none,
        }
    }

    /// What a frame leaves of the hypothesis with these tokens when the last goes on.
    spec fn after_repeat(self, t: int, beam: Seq<Hypothesis<T, R>>, tokens: Seq<usize>) -> T {
        match place_of(beam, tokens) {
            Some(i) => self.repeat_mass(t, beam[i]),
            None => self.ring.none,
        }
    }

    /// What a frame makes of the hypothesis with these tokens but the last.
    spec fn after_token(self, t: int, beam: Seq<Hypothesis<T, R>>, tokens: Seq<usize>) -> T {
        if tokens.len() == 0 {
            self.ring.none
        } else {
            match place_of(beam, tokens.drop_last()) {
                Some(i) => self.ring.times(
                    self.source(beam[i], tokens.last()),
                    (self.p)(t, tokens.last() as int),
                ),
                None => self.ring.none,
            }
        }
    }

    proof fn lemma_fan(
        self,
        t: int,
        beam: Seq<Hypothesis<T, R>>,
        k: nat,
        tokens: Seq<usize>,
    )
        requires
            self.ring.lawful(),
            self.sound(beam),
            k <= beam.len(),
            self.cols <= usize::MAX,
            self.readable(tokens),
        ensures
            self.sound(self.fan_out(t, beam, k)),
            self.held_blank(self.fan_out(t, beam, k), tokens) == self.after_blank(
                t,
                beam.take(k as int),
                tokens,
            ),
            self.held_nonblank(self.fan_out(t, beam, k), tokens) == self.ring.plus(
                self.after_repeat(t, beam.take(k as int), tokens),
                self.after_token(t, beam.take(k as int), tokens),
            ),
        decreases k,
    {
        let q = self.ring;
        q.lemma_plus(q.none, q.none, q.none, q.none);
        if k > 0 {
            let m = (k - 1) as nat;
            let h = beam[k - 1];
            let some = beam.take(m as int);
            let more = beam.take(k as int);
            let before = self.fan_out(t, beam, m);
            self.lemma_fan(t, beam, m, tokens);
            assert(self.readable(h.tokens));
            self.lemma_stay(t, before, h, tokens);
            let kept = self.stay(t, before, h);
            self.lemma_extend_upto(t, kept, h, self.cols, tokens);
            assert(more =~= some.push(h));
            lemma_place_push(some, h, tokens);
            if tokens.len() > 0 {
                lemma_place_push(some, h, tokens.drop_last());
                assert(tokens[tokens.len() - 1] < self.cols);
            }
            lemma_place(some, tokens);
            lemma_place(some, tokens.drop_last());
            // No hypothesis before has the same tokens.
            assert(h.tokens == tokens ==> place_of(some, tokens) is None) by {
                if let Some(i) = place_of(some, tokens) {
                    assert(beam[i].tokens != beam[k - 1].tokens);
                }
            }
            assert(tokens.len() > 0 && h.tokens == tokens.drop_last() ==> place_of(
                some,
                tokens.drop_last(),
            ) is None) by {
                if tokens.len() > 0 {
                    if let Some(i) = place_of(some, tokens.drop_last()) {
                        assert(beam[i].tokens != beam[k - 1].tokens);
                    }
                }
            }
            let old_repeat = self.after_repeat(t, some, tokens);
            let old_token = self.after_token(t, some, tokens);
            let repeat = q.when(h.tokens == tokens, self.repeat_mass(t, h));
            let token = q.when(
                tokens.len() > 0 && h.tokens == tokens.drop_last(),
                q.times(self.source(h, tokens.last()), (self.p)(t, tokens.last() as int)),
            );
            q.lemma_plus(old_repeat, old_token, repeat, token);
            q.lemma_plus(q.plus(old_repeat, old_token), repeat, token, token);
            q.lemma_plus(self.blank_mass(t, h), q.none, q.none, q.none);
            q.lemma_plus(self.after_blank(t, some, tokens), q.none, q.none, q.none);
            q.lemma_plus(self.repeat_mass(t, h), q.none, q.none, q.none);
            q.lemma_plus(old_repeat, q.none, q.none, q.none);
            q.lemma_plus(old_token, q.none, q.none, q.none);
            q.lemma_plus(token, q.none, q.none, q.none);
        }
    }

    proof fn lemma_rearranged(self, a: Seq<Hypothesis<T, R>>, b: Seq<Hypothesis<T, R>>)
        requires
            self.sound(a),
            rearranged(a, b),
        ensures
            self.sound(b),
            forall|tokens: Seq<usize>| #[trigger]
                self.held_blank(a, tokens) == self.held_blank(b, tokens),
            forall|tokens: Seq<usize>| #[trigger]
                self.held_nonblank(a, tokens) == self.held_nonblank(b, tokens),
    {
        let order = choose|order: Seq<int>| #[trigger] orders(order, a, b);
        assert forall|s: int| 0 <= s < b.len() implies {
            &&& self.readable((#[trigger] b[s]).tokens)
            &&& self.along(b[s].tokens) == Some(b[s].rest)
        } by {
            assert(b[s] == a[order[s]]);
            assert(self.readable(a[order[s]].tokens));
        }
        assert forall|x: int, y: int| 0 <= x < y < b.len() implies (#[trigger] b[x]).tokens
            != (#[trigger] b[y]).tokens by {
            let (i, j) = (order[x], order[y]);
            assert(b[x] == a[i] && b[y] == a[j]);
            if i < j {
                assert(a[i].tokens != a[j].tokens);
            } else {
                assert(a[j].tokens != a[i].tokens);
            }
        }
        assert forall|tokens: Seq<usize>|
            #![trigger self.held_blank(a, tokens)]
            #![trigger self.held_nonblank(a, tokens)]
            self.held_blank(a, tokens) == self.held_blank(b, tokens) && self.held_nonblank(
                a,
                tokens,
            ) == self.held_nonblank(b, tokens) by {
            lemma_place(a, tokens);
            lemma_place(b, tokens);
            if let Some(i) = place_of(a, tokens) {
                assert(order.contains(i));
                let s = choose|s: int| 0 <= s < order.len() && order[s] == i;
                assert(b[s] == a[i]);
                lemma_place_only(b, s);
            } else if let Some(s) = place_of(b, tokens) {
                assert(b[s] == a[order[s]]);
            }
        }
    }

    proof fn lemma_readable_before(self, tokens: Seq<usize>)
        requires
            self.readable(tokens),
            tokens.len() > 0,
        ensures
            self.readable(tokens.drop_last()),
    {
        let before = tokens.drop_last();
        assert forall|k: int| 0 <= k < before.len() implies (#[trigger] before[k]) < self.cols
            && before[k] != self.blank by {
            assert(before[k] == tokens[k]);
        }
    }

    /// What one frame does to what hypotheses hold.
    proof fn lemma_frame(self, t: nat, beam: Seq<Hypothesis<T, R>>, tokens: Seq<usize>)
        requires
            self.ring.lawful(),
            self.sound(beam),
            self.cols <= usize::MAX,
            self.blank < self.cols,
            self.readable(tokens),
            forall|y: Seq<usize>| #[trigger]
                self.readable(y) ==> self.held_blank(beam, y) == self.total_blank(t, y)
                    && self.held_nonblank(beam, y) == self.total_nonblank(t, y),
        ensures
            ({
                let next = self.fan_out(t as int, beam, beam.len());
                &&& self.sound(next)
                &&& self.held_blank(next, tokens) == self.total_blank(t + 1, tokens)
                &&& self.held_nonblank(next, tokens) == self.total_nonblank(t + 1, tokens)
            }),
    {
        let q = self.ring;
        self.lemma_fan(t as int, beam, beam.len(), tokens);
        assert(beam.take(beam.len() as int) =~= beam);
        self.lemma_total_parts(t, tokens);
        self.lemma_total_blank(t, tokens);
        let blank = (self.p)(t as int, self.blank as int);
        q.lemma_times(q.none, blank, blank);
        q.lemma_times(blank, blank, blank);
        q.lemma_plus(q.none, q.none, q.none, q.none);
        lemma_place(beam, tokens);
        if tokens.len() == 0 {
            assert(tokens =~= Seq::empty());
            self.lemma_nothing_read(t + 1);
        } else {
            let last = (self.p)(t as int, tokens.last() as int);
            let before = tokens.drop_last();
            self.lemma_readable_before(tokens);
            self.lemma_total_parts(t, before);
            assert(tokens[tokens.len() - 1] == tokens.last());
            self.lemma_total_nonblank(t, tokens);
            lemma_place(beam, before);
            q.lemma_times(last, last, last);
        }
    }

    proof fn lemma_held(self, beams: Seq<Seq<Hypothesis<T, R>>>, t: nat, tokens: Seq<usize>)
        requires
            self.ring.lawful(),
            self.cols <= usize::MAX,
            self.blank < self.cols,
            self.follows(beams),
            t < beams.len(),
        ensures
            self.sound(beams[t as int]),
            self.readable(tokens) ==> {
                &&& self.held_blank(beams[t as int], tokens) == self.total_blank(t, tokens)
                &&& self.held_nonblank(beams[t as int], tokens) == self.total_nonblank(t, tokens)
            },
        decreases t,
    {
        if t == 0 {
            let start = self.start();
            assert(start.drop_last() =~= Seq::empty());
            let none = Seq::<usize>::empty();
            assert(collapse(none, self.blank) =~= none);
            assert(self.readable(none));
            assert(start[0].tokens == none);
            lemma_place(start, tokens);
        } else {
            let m = (t - 1) as nat;
            let beam = beams[m as int];
            self.lemma_held(beams, m, tokens);
            assert forall|y: Seq<usize>| #[trigger] self.readable(y) implies self.held_blank(
                beam,
                y,
            ) == self.total_blank(m, y) && self.held_nonblank(beam, y) == self.total_nonblank(
                m,
                y,
            ) by {
                self.lemma_held(beams, m, y);
            }
            let next = self.fan_out(m as int, beam, beam.len());
            assert(rearranged(next, beams[t as int]));
            assert(self.readable(Seq::empty()));
            self.lemma_frame(m, beam, Seq::empty());
            self.lemma_rearranged(next, beams[t as int]);
            if self.readable(tokens) {
                self.lemma_frame(m, beam, tokens);
                assert(self.held_blank(next, tokens) == self.held_blank(
                    beams[t as int],
                    tokens,
                ));
                assert(self.held_nonblank(next, tokens) == self.held_nonblank(
                    beams[t as int],
                    tokens,
                ));
            }
        }
    }

    /// What a search holds of a prefix is the sum, over all paths of one class per frame
    /// that read it, of the products of what the paths' classes count: the whole over all
    /// of them, and apart over those that end in a blank and those that end in a token.
    /// The prefix's tokens decide what goes with it.
    pub proof fn lemma_held_is_total(
        self,
        beams: Seq<Seq<Hypothesis<T, R>>>,
        t: nat,
        i: int,
    )
        requires
            self.ring.lawful(),
            self.cols <= usize::MAX,
            self.blank < self.cols,
            self.follows(beams),
            t < beams.len(),
            0 <= i < beams[t as int].len(),
        ensures
            ({
                let h = beams[t as int][i];
                &&& self.mass(h) == self.total(t, h.tokens)
                &&& h.p_blank == self.total_blank(t, h.tokens)
                &&& h.p_nonblank == self.total_nonblank(t, h.tokens)
                &&& self.along(h.tokens) == Some(h.rest)
            }),
    {
        let h = beams[t as int][i];
        self.lemma_held(beams, t, h.tokens);
        assert(self.readable(h.tokens));
        lemma_place_only(beams[t as int], i);
        self.lemma_total_parts(t, h.tokens);
    }

    /// A prefix that a search does not hold, though each of its tokens is taken, is read
    /// by paths that count nothing together.
    pub proof fn lemma_unheld_is_none(
        self,
        beams: Seq<Seq<Hypothesis<T, R>>>,
        t: nat,
        tokens: Seq<usize>,
    )
        requires
            self.ring.lawful(),
            self.cols <= usize::MAX,
            self.blank < self.cols,
            self.follows(beams),
            t < beams.len(),
            self.readable(tokens),
            forall|i: int|
                0 <= i < beams[t as int].len() ==> (#[trigger] beams[t as int][i]).tokens
                    != tokens,
        ensures
            self.total(t, tokens) == self.ring.none,
    {
        let q = self.ring;
        self.lemma_held(beams, t, tokens);
        lemma_place(beams[t as int], tokens);
        self.lemma_total_parts(t, tokens);
        q.lemma_plus(q.none, q.none, q.none, q.none);
    }

    /// Adds to what a text counts, in the order of texts.
    pub open spec fn put(self, results: Seq<Scored<T>>, text: Seq<char>, score: T) -> Seq<
        Scored<T>,
    >
        decreases results.len(),
    {
        if results.len() == 0 {
            seq![Scored { text, score }]
        } else {
            let last = results.last();
            let rest = results.drop_last();
            if last.text == text {
                rest.push(Scored { text, score: self.ring.plus(last.score, score) })
            } else if text_less(text, last.text) {
                self.put(rest, text, score).push(last)
            } else {
                results.push(Scored { text, score })
            }
        }
    }

    /// The texts of the first `k` hypotheses. What a hypothesis counts in the end, if
    /// anything, is made of its mass and what goes with its tokens.
    pub open spec fn gather(
        self,
        show: spec_fn(Seq<usize>) -> Seq<char>,
        close: spec_fn(T, R) -> Option<T>,
        beam: Seq<Hypothesis<T, R>>,
        k: nat,
    ) -> Seq<Scored<T>>
        decreases k,
    {
        if k == 0 {
            Seq::empty()
        } else {
            let results = self.gather(show, close, beam, (k - 1) as nat);
            let h = beam[k - 1];
            match close(self.mass(h), h.rest) {
                None => results,
                Some(score) => self.put(results, show(h.tokens), score),
            }
        }
    }

    /// What all entries of a text count.
    pub open spec fn counted(self, results: Seq<Scored<T>>, text: Seq<char>) -> T
        decreases results.len(),
    {
        if results.len() == 0 {
            self.ring.none
        } else {
            self.ring.plus(
                self.counted(results.drop_last(), text),
                self.ring.when(results.last().text == text, results.last().score),
            )
        }
    }

    proof fn lemma_put(
        self,
        results: Seq<Scored<T>>,
        text: Seq<char>,
        score: T,
        other: Seq<char>,
    )
        requires
            self.ring.lawful(),
        ensures
            self.counted(self.put(results, text, score), other) == self.ring.plus(
                self.counted(results, other),
                self.ring.when(text == other, score),
            ),
        decreases results.len(),
    {
        let q = self.ring;
        let out = self.put(results, text, score);
        if results.len() == 0 {
            assert(out.drop_last() =~= results);
        } else {
            let last = results.last();
            let rest = results.drop_last();
            let before = self.counted(rest, other);
            let own = q.when(last.text == other, last.score);
            let new = q.when(text == other, score);
            q.lemma_plus(before, own, new, q.none);
            q.lemma_plus(before, new, own, q.none);
            q.lemma_plus(own, new, q.none, q.none);
            q.lemma_plus(q.none, q.none, q.none, q.none);
            assert(self.counted(results, other) == q.plus(before, own));
            if last.text == text {
                assert(out.drop_last() =~= rest);
                assert(out.last().score == q.plus(last.score, score));
            } else if text_less(text, last.text) {
                self.lemma_put(rest, text, score, other);
                assert(out.drop_last() =~= self.put(rest, text, score));
                assert(out.last() == last);
            } else {
                assert(out.drop_last() =~= results);
            }
        }
    }

    /// What a hypothesis counts in the end for a text.
    pub open spec fn share(
        self,
        show: spec_fn(Seq<usize>) -> Seq<char>,
        close: spec_fn(T, R) -> Option<T>,
        h: Hypothesis<T, R>,
        text: Seq<char>,
    ) -> T {
        match close(self.mass(h), h.rest) {
            None => self.ring.none,
            Some(score) => self.ring.when(show(h.tokens) == text, score),
        }
    }

    /// A text counts in the end what all hypotheses that show it count together: one that
    /// shows another text adds nothing to it, and none is left out.
    pub proof fn lemma_text_counts_all(
        self,
        show: spec_fn(Seq<usize>) -> Seq<char>,
        close: spec_fn(T, R) -> Option<T>,
        beam: Seq<Hypothesis<T, R>>,
        k: nat,
        text: Seq<char>,
    )
        requires
            self.ring.lawful(),
            k <= beam.len(),
        ensures
            self.counted(self.gather(show, close, beam, k), text) == self.ring.sum(
                |i: int| self.share(show, close, beam[i], text),
                k,
            ),
        decreases k,
    {
        if k > 0 {
            let q = self.ring;
            let before = (k - 1) as nat;
            self.lemma_text_counts_all(show, close, beam, before, text);
            let results = self.gather(show, close, beam, before);
            let h = beam[k - 1];
            q.lemma_plus(self.counted(results, text), q.none, q.none, q.none);
            if let Some(score) = close(self.mass(h), h.rest) {
                self.lemma_put(results, show(h.tokens), score, text);
            }
        }
    }
}

} // verus!
