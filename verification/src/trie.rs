//! The context trie of an n-gram model: every state is a history of labels.
//!
//! States are numbered breadth first, so the children of a state are a range of
//! states, and siblings stand in the order of their labels.
use vstd::prelude::*;

use crate::bytes::{le, read_u16};

verus! {

/// A little-endian array of labels of 16 bits.
#[derive(Debug, Clone, Copy)]
pub struct Words<'a>(pub &'a [u8]);

/// The labels that bytes hold.
pub open spec fn words_in(data: Seq<u8>) -> Seq<u32> {
    Seq::new(data.len() / 2, |i: int| le(data.subrange(2 * i, 2 * i + 2)) as u32)
}

impl<'a> View for Words<'a> {
    type V = Seq<u32>;

    open spec fn view(&self) -> Seq<u32> {
        words_in(self.0@)
    }
}

/// Whether labels are strictly ascending between two indices.
pub open spec fn ascending(words: Seq<u32>, lo: int, hi: int) -> bool {
    forall|i: int, j: int| lo <= i < j < hi ==> words[i] < words[j]
}

/// That `i` is where a label stands between two indices.
pub open spec fn stands_at(words: Seq<u32>, label: u32, lo: int, hi: int, i: int) -> bool {
    lo <= i < hi && words[i] == label
}

impl<'a> Words<'a> {
    pub fn get(self, index: usize) -> (r: u32)
        requires
            index < self@.len(),
        ensures
            r == self@[index as int],
            r <= 65535,
    {
        let total: usize = self.0.len();
        let i: usize = index * 2;
        let raw: &[u8] = vstd::slice::slice_subrange(self.0, i, i + 2);
        read_u16(raw) as u32
    }

    /// Finds a label between two indices by bisection.
    pub fn find(self, label: u32, lo: usize, hi: usize) -> (r: Option<usize>)
        requires
            lo <= hi <= self@.len(),
            ascending(self@, lo as int, hi as int),
        ensures
            match r {
                Some(i) => stands_at(self@, label, lo as int, hi as int, i as int),
                None => forall|i: int| !stands_at(self@, label, lo as int, hi as int, i),
            },
    {
        let end: usize = hi;
        let start: usize = lo;
        let mut lo: usize = lo;
        let mut hi: usize = hi;
        while lo < hi
            invariant
                start <= lo <= hi <= end <= self@.len(),
                ascending(self@, start as int, end as int),
                forall|i: int| start <= i < lo ==> self@[i] < label,
                forall|i: int| hi <= i < end ==> self@[i] >= label,
            decreases hi - lo,
        {
            let mid: usize = lo + (hi - lo) / 2;
            if self.get(mid) < label {
                lo = mid + 1;
            } else {
                hi = mid;
            }
        }
        if lo < end && self.get(lo) == label {
            Some(lo)
        } else {
            assert forall|i: int| !stands_at(self@, label, start as int, end as int, i) by {
                if start <= i < end {
                    if i < lo {
                        assert(self@[i] < label);
                    } else if i > lo {
                        assert(self@[lo as int] < self@[i]);
                        assert(self@[lo as int] >= label);
                    }
                }
            }
            None
        }
    }
}

/// The states of an n-gram model.
#[derive(Debug)]
pub struct Trie<'a> {
    /// The label of each state; the root's is not used.
    pub words: Words<'a>,
    /// The state with one label less of history; the root's is the root.
    pub parents: Vec<u32>,
    /// Where the children of each state begin; one more than there are states.
    pub child_starts: Vec<u32>,
}

/// A [`Trie`] by its contents.
#[verifier::ext_equal]
pub struct TrieView {
    pub words: Seq<u32>,
    pub parents: Seq<u32>,
    pub child_starts: Seq<u32>,
}

impl<'a> View for Trie<'a> {
    type V = TrieView;

    open spec fn view(&self) -> TrieView {
        TrieView {
            words: self.words@,
            parents: self.parents@,
            child_starts: self.child_starts@,
        }
    }
}

impl TrieView {
    /// The children of a state are those whose parent it is, and have ascending
    /// labels.
    pub open spec fn wf(self) -> bool {
        let n = self.parents.len() as int;
        &&& 1 <= n <= u32::MAX
        &&& self.child_starts.len() == n + 1
        &&& self.words.len() >= n
        &&& self.parents[0] == 0
        &&& forall|s: int| 0 < s < n ==> (#[trigger] self.parents[s]) < s
        &&& forall|s: int| 0 <= s <= n ==> 1 <= #[trigger] self.child_starts[s] <= n
        &&& forall|s: int, t: int|
            0 <= s <= t <= n ==> #[trigger] self.child_starts[s] <= #[trigger] self.child_starts[t]
        &&& forall|s: int, c: int|
            0 <= s <= n && 0 < c < n ==> (#[trigger] self.child_starts[s] <= c <==> s
                <= #[trigger] self.parents[c])
        &&& forall|s: int|
            0 <= s < n ==> ascending(
                self.words,
                #[trigger] self.child_starts[s] as int,
                self.child_starts[s + 1] as int,
            )
    }

    /// The labels on the way from the root to a state: its history, the latest
    /// label first.
    pub open spec fn path(self, s: int) -> Seq<u32>
        decreases s,
    {
        if s <= 0 || self.parents[s] >= s {
            Seq::empty()
        } else {
            self.path(self.parents[s] as int).push(self.words[s])
        }
    }

    /// That a history is at least the history of state `u`.
    pub open spec fn matches_history(self, history: Seq<u32>, u: int) -> bool {
        &&& 0 <= u < self.parents.len()
        &&& self.path(u).is_prefix_of(history)
    }

    /// That `t` has the longest history that the given one begins with.
    pub open spec fn is_longest(self, history: Seq<u32>, t: int) -> bool {
        &&& self.matches_history(history, t)
        &&& forall|u: int| #[trigger]
            self.matches_history(history, u) ==> self.path(u).len() <= self.path(t).len()
    }

    /// The state behind a label, from a state: the longest known history.
    pub open spec fn target(self, s: int, label: u32) -> u32 {
        choose|t: u32| self.is_longest(seq![label] + self.path(s), t as int)
    }

    /// That a state has a child with this label.
    pub open spec fn has_child(self, s: int, label: u32) -> bool {
        let lo = self.child_starts[s] as int;
        let hi = self.child_starts[s + 1] as int;
        exists|i: int| stands_at(self.words, label, lo, hi, i)
    }

    /// A history belongs to at most one state.
    pub proof fn lemma_path_injective(self, a: int, b: int)
        requires
            self.wf(),
            0 <= a < self.parents.len(),
            0 <= b < self.parents.len(),
            self.path(a) == self.path(b),
        ensures
            a == b,
        decreases a,
    {
        if a > 0 && b > 0 {
            let p = self.parents[a] as int;
            let q = self.parents[b] as int;
            assert(self.path(a).drop_last() =~= self.path(p));
            assert(self.path(b).drop_last() =~= self.path(q));
            assert(self.path(a).last() == self.words[a]);
            assert(self.path(b).last() == self.words[b]);
            self.lemma_path_injective(p, q);
            assert(self.child_starts[p] <= a);
            assert(self.child_starts[p] <= b);
            assert(self.child_starts[p + 1] > a);
            assert(self.child_starts[p + 1] > b);
            assert(ascending(
                self.words,
                self.child_starts[p] as int,
                self.child_starts[p + 1] as int,
            ));
        } else if a > 0 {
            assert(self.path(a).len() > 0);
        } else if b > 0 {
            assert(self.path(b).len() > 0);
        }
    }

    /// Of the states that a history leads through, there is one at each length.
    proof fn lemma_ancestor(self, u: int, k: int) -> (a: int)
        requires
            self.wf(),
            0 <= u < self.parents.len(),
            0 <= k <= self.path(u).len(),
        ensures
            0 <= a <= u,
            self.path(a) == self.path(u).take(k),
        decreases u,
    {
        if k == self.path(u).len() {
            assert(self.path(u).take(k) =~= self.path(u));
            u
        } else {
            let p = self.parents[u] as int;
            let a = self.lemma_ancestor(p, k);
            assert(self.path(p).take(k) =~= self.path(u).take(k));
            a
        }
    }

    /// Where a state with the history's first labels has no child for the next
    /// one, it has the longest history.
    pub proof fn lemma_longest(self, history: Seq<u32>, t: int)
        requires
            self.wf(),
            self.matches_history(history, t),
            self.path(t).len() < history.len() ==> !self.has_child(
                t,
                history[self.path(t).len() as int],
            ),
        ensures
            self.is_longest(history, t),
    {
        let k = self.path(t).len() as int;
        assert forall|u: int| #[trigger] self.matches_history(history, u) implies self.path(u).len()
            <= k by {
            if self.path(u).len() > k {
                let c = self.lemma_ancestor(u, k + 1);
                assert(self.path(c).len() == k + 1);
                assert(c > 0);
                let p = self.parents[c] as int;
                assert(self.path(c).drop_last() =~= self.path(p));
                assert(self.path(c).last() == self.words[c]);
                assert(self.path(c).last() == history[k]);
                assert(self.path(p) =~= self.path(t)) by {
                    assert(self.path(p) =~= history.take(k));
                    assert(self.path(t) =~= history.take(k));
                }
                self.lemma_path_injective(p, t);
                assert(self.child_starts[t] <= c);
                assert(self.child_starts[t + 1] > c);
                assert(stands_at(
                    self.words,
                    history[k],
                    self.child_starts[t] as int,
                    self.child_starts[t + 1] as int,
                    c,
                ));
            }
        }
    }

    /// From a state that a history leads to, the walk goes on to the longest one.
    proof fn lemma_longest_from(self, history: Seq<u32>, t: int) -> (r: u32)
        requires
            self.wf(),
            self.matches_history(history, t),
        ensures
            self.is_longest(history, r as int),
        decreases history.len() - self.path(t).len(),
    {
        let k = self.path(t).len() as int;
        assert(k <= history.len());
        if k < history.len() && self.has_child(t, history[k]) {
            let lo = self.child_starts[t] as int;
            let hi = self.child_starts[t + 1] as int;
            let c = choose|i: int| stands_at(self.words, history[k], lo, hi, i);
            assert(self.child_starts[t] <= c);
            assert(self.child_starts[t + 1] > c);
            assert(self.parents[c] == t);
            assert(self.path(c) =~= history.take(k + 1));
            self.lemma_longest_from(history, c)
        } else {
            self.lemma_longest(history, t);
            t as u32
        }
    }

    /// Every label leads somewhere: there is a state with the longest history.
    pub proof fn lemma_target(self, s: int, label: u32)
        requires
            self.wf(),
        ensures
            self.is_longest(seq![label] + self.path(s), self.target(s, label) as int),
            self.target(s, label) < self.parents.len(),
    {
        let history = seq![label] + self.path(s);
        assert(self.path(0) =~= Seq::empty());
        assert(self.matches_history(history, 0));
        let t = self.lemma_longest_from(history, 0);
    }

    /// The longest history belongs to one state.
    pub proof fn lemma_longest_unique(self, history: Seq<u32>, t: int, u: int)
        requires
            self.wf(),
            self.is_longest(history, t),
            self.is_longest(history, u),
        ensures
            t == u,
    {
        assert(self.matches_history(history, t));
        assert(self.matches_history(history, u));
        assert(self.path(t) =~= history.take(self.path(t).len() as int));
        assert(self.path(u) =~= history.take(self.path(u).len() as int));
        self.lemma_path_injective(t, u);
    }
}

impl<'a> Trie<'a> {
    /// The history of a state, the oldest label first.
    pub fn context(&self, state: u32) -> (r: Vec<u32>)
        requires
            self@.wf(),
            state < self@.parents.len(),
        ensures
            r@ == self@.path(state as int).reverse(),
    {
        let mut context: Vec<u32> = Vec::new();
        let mut state: u32 = state;
        let ghost whole = self@.path(state as int);
        assert(context@.reverse() =~= Seq::empty());
        assert(whole =~= self@.path(state as int) + context@.reverse());
        while state != 0
            invariant
                self@.wf(),
                state < self@.parents.len(),
                whole == self@.path(state as int) + context@.reverse(),
            decreases state,
        {
            let ghost before = context@;
            context.push(self.words.get(state as usize));
            proof {
                let p = self@.parents[state as int] as int;
                assert(context@.reverse() =~= seq![self@.words[state as int]] + before.reverse());
                assert(self@.path(state as int) + before.reverse() =~= self@.path(p)
                    + context@.reverse());
            }
            state = self.parents[state as usize];
        }
        assert(whole =~= context@.reverse());
        assert(context@ =~= whole.reverse());
        context
    }

    /// The state with the longest history that `label` and then `context`,
    /// latest label last, make up.
    pub fn transition(&self, context: &[u32], label: u32) -> (r: u32)
        requires
            self@.wf(),
        ensures
            self@.is_longest(seq![label] + context@.reverse(), r as int),
    {
        let ghost history = seq![label] + context@.reverse();
        let mut state: usize = 0;
        let mut depth: usize = 0;
        let total: usize = context.len();
        assert(self@.path(0) =~= Seq::empty());
        while depth <= total
            invariant
                self@.wf(),
                depth <= total + 1,
                total == context@.len(),
                history == seq![label] + context@.reverse(),
                state < self@.parents.len(),
                self@.path(state as int) == history.take(depth as int),
            decreases total + 1 - depth,
        {
            let word: u32 = if depth == 0 {
                label
            } else {
                context[total - depth]
            };
            assert(word == history[depth as int]);
            let lo: usize = self.child_starts[state] as usize;
            let hi: usize = self.child_starts[state + 1] as usize;
            match self.words.find(word, lo, hi) {
                None => {
                    proof {
                        self@.lemma_longest(history, state as int);
                    }
                    return state as u32;
                },
                Some(child) => {
                    proof {
                        let c = child as int;
                        assert(self@.child_starts[state as int] <= c);
                        assert(self@.child_starts[state + 1] > c);
                        assert(self@.parents[c] == state);
                        assert(self@.path(c) =~= history.take(depth + 1));
                    }
                    state = child;
                },
            }
            if depth == total {
                proof {
                    assert(history.take(depth + 1) =~= history);
                    self@.lemma_longest(history, state as int);
                }
                return state as u32;
            }
            depth += 1;
        }
        state as u32
    }

    /// The state behind a label, from a state.
    pub fn transition_from_state(&self, state: u32, label: u32) -> (r: u32)
        requires
            self@.wf(),
            state < self@.parents.len(),
        ensures
            self@.is_longest(seq![label] + self@.path(state as int), r as int),
            r == self@.target(state as int, label),
            r < self@.parents.len(),
    {
        let context: Vec<u32> = self.context(state);
        let r: u32 = self.transition(context.as_slice(), label);
        proof {
            let history = seq![label] + self@.path(state as int);
            assert(context@.reverse() =~= self@.path(state as int));
            let t = self@.target(state as int, label);
            self@.lemma_longest_unique(history, r as int, t as int);
        }
        r
    }
}

} // verus!
