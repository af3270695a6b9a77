//! CTC prefix beam search with optional shallow fusion.
use vstd::prelude::*;

use crate::ctc::{collapse, log_probs};
use crate::decoder::{
    check_alphabet, decode_problem, frame_at, frame_of, log_softmax, printed, rendered, Alphabet,
    AlphabetView, Candidate, CandidateView,
};
use crate::error::{invalid, Error, ErrorView};
use crate::float::{F64, TOP64};
use crate::lm::LanguageModel;
use crate::logmath::{is_void, nothing, void, Functions, LogMath};
use crate::mat::{Mat, MatView};
use crate::ranking::{
    first_places, keys_view, lemma_ranking, places_view, rank, ranking, standing, standing_of,
};
use crate::settings::DecoderSettings;
use crate::text::{
    chars_less, chars_of, lemma_text_less_irreflexive, lemma_text_less_total,
    lemma_text_less_transitive, same_chars, text_less,
};

verus! {

/// A hypothesis of the search: tokens, the language model's state behind them,
/// what they have added to the score, and the log probabilities of the paths that
/// read them and end in a blank or in the last token.
#[derive(Debug)]
pub struct Prefix<S> {
    pub tokens: Vec<usize>,
    pub state: Option<S>,
    pub offset: F64,
    pub p_blank: F64,
    pub p_nonblank: F64,
}

/// A [`Prefix`] by its contents.
#[verifier::ext_equal]
pub struct PrefixView<S> {
    pub tokens: Seq<usize>,
    pub state: Option<S>,
    pub offset: F64,
    pub p_blank: F64,
    pub p_nonblank: F64,
}

impl<S> View for Prefix<S> {
    type V = PrefixView<S>;

    open spec fn view(&self) -> PrefixView<S> {
        PrefixView {
            tokens: self.tokens@,
            state: self.state,
            offset: self.offset,
            p_blank: self.p_blank,
            p_nonblank: self.p_nonblank,
        }
    }
}

impl<S> PrefixView<S> {
    /// The log probability of all paths that read the tokens.
    pub open spec fn acoustic(self, m: LogMath) -> F64 {
        m.log_add(self.p_blank, self.p_nonblank)
    }

    /// The score: acoustic, and what the tokens have added.
    pub open spec fn score(self, m: LogMath) -> F64 {
        self.acoustic(m).sum(self.offset)
    }
}

/// Hypotheses by their contents.
pub open spec fn prefixes_view<S>(p: Seq<Prefix<S>>) -> Seq<PrefixView<S>> {
    p.map_values(|x: Prefix<S>| x@)
}

/// What a search goes by.
pub struct Plan<'a, L> {
    pub alphabet: &'a Alphabet,
    pub lm: Option<&'a L>,
    pub lm_weight: F64,
    pub insertion_bonus: F64,
}

/// What a language model says to one more token.
#[verifier::ext_equal]
pub enum Advance<S> {
    /// It does not take it.
    Refused,
    /// Its cost is none.
    Broken,
    /// It takes it, at a cost.
    Taken(Option<S>, F64),
}

/// Whether a cost may come from a language model: finite, or positive infinity
/// for a rejection.
pub open spec fn is_cost(cost: F64) -> bool {
    !cost.nan() && cost != void()
}

/// Accepts the cost of a language model.
pub fn validate_cost(cost: F64) -> (r: Result<F64, Error>)
    ensures
        match r {
            Ok(c) => is_cost(cost) && c == cost,
            Err(e) => !is_cost(cost) && e@ == ErrorView::Invalid(
                "LM costs must be finite or +inf (rejection)"@,
            ),
        },
{
    if cost.is_nan() || is_void(cost) {
        return Err(invalid("LM costs must be finite or +inf (rejection)"));
    }
    Ok(cost)
}

impl<L: LanguageModel> Plan<'_, L> {
    /// The answer to a token after a state.
    pub open spec fn advance(self, state: Option<L::State>, label: u32) -> Advance<L::State> {
        match self.lm {
            None => Advance::Taken(state, F64 { bits: 0 }),
            Some(lm) => match lm.next_state(state->0, label) {
                None => Advance::Refused,
                Some((next, cost)) => if !is_cost(cost) {
                    Advance::Broken
                } else if cost.bits == TOP64 {
                    Advance::Refused
                } else {
                    Advance::Taken(Some(next), cost)
                },
            },
        }
    }

    /// What the end costs after a state.
    pub open spec fn end_cost(self, state: Option<L::State>) -> F64 {
        match self.lm {
            None => F64 { bits: 0 },
            Some(lm) => lm.final_cost(state->0),
        }
    }

    /// A hypothesis before any frame.
    pub open spec fn start(self) -> PrefixView<L::State> {
        PrefixView {
            tokens: Seq::empty(),
            state: match self.lm {
                None => None,
                Some(lm) => Some(lm.start_state()),
            },
            offset: F64 { bits: 0 },
            p_blank: F64 { bits: 0 },
            p_nonblank: void(),
        }
    }

    fn ask(&self, state: Option<L::State>, label: u32) -> (r: Advance<L::State>)
        requires
            self.lm is Some ==> state is Some,
        ensures
            r == self.advance(state, label),
    {
        match self.lm {
            None => Advance::Taken(state, F64 { bits: 0 }),
            Some(lm) => match lm.advance(state.unwrap(), label) {
                None => Advance::Refused,
                Some((next, cost)) => if validate_cost(cost).is_err() {
                    Advance::Broken
                } else if cost.bits == TOP64 {
                    Advance::Refused
                } else {
                    Advance::Taken(Some(next), cost)
                },
            },
        }
    }
}

/// Where a hypothesis with these tokens stands.
pub open spec fn find_tokens<S>(next: Seq<PrefixView<S>>, tokens: Seq<usize>) -> Option<int>
    decreases next.len(),
{
    if next.len() == 0 {
        None
    } else if next.last().tokens == tokens {
        Some(next.len() - 1)
    } else {
        find_tokens(next.drop_last(), tokens)
    }
}

proof fn lemma_find<S>(next: Seq<PrefixView<S>>, tokens: Seq<usize>)
    ensures
        match find_tokens(next, tokens) {
            Some(i) => 0 <= i < next.len() && next[i].tokens == tokens,
            None => forall|s: int| 0 <= s < next.len() ==> (#[trigger] next[s]).tokens != tokens,
        },
    decreases next.len(),
{
    if next.len() > 0 && next.last().tokens != tokens {
        let rest = next.drop_last();
        lemma_find(rest, tokens);
        if find_tokens(next, tokens) is None {
            assert forall|s: int| 0 <= s < next.len() implies (#[trigger] next[s]).tokens
                != tokens by {
                if s < rest.len() {
                    assert(rest[s] == next[s]);
                }
            }
        }
    }
}

proof fn lemma_find_update<S>(
    next: Seq<PrefixView<S>>,
    i: int,
    p: PrefixView<S>,
    tokens: Seq<usize>,
)
    requires
        0 <= i < next.len(),
        p.tokens == next[i].tokens,
    ensures
        find_tokens(next.update(i, p), tokens) == find_tokens(next, tokens),
    decreases next.len(),
{
    let other = next.update(i, p);
    assert(other.last().tokens == next.last().tokens);
    if next.last().tokens != tokens {
        if i < next.len() - 1 {
            assert(other.drop_last() =~= next.drop_last().update(i, p));
            lemma_find_update(next.drop_last(), i, p, tokens);
        } else {
            assert(other.drop_last() =~= next.drop_last());
        }
    }
}

proof fn lemma_find_push<S>(next: Seq<PrefixView<S>>, p: PrefixView<S>, tokens: Seq<usize>)
    ensures
        find_tokens(next.push(p), tokens) == (if p.tokens == tokens {
            Some(next.len() as int)
        } else {
            find_tokens(next, tokens)
        }),
{
    assert(next.push(p).drop_last() =~= next);
}

/// The mass of a hypothesis that a blank follows.
pub open spec fn blank_mass<S>(m: LogMath, blank: usize, frame: Seq<F64>, h: PrefixView<S>) -> F64 {
    h.acoustic(m).sum(frame[blank as int])
}

/// The mass of a hypothesis whose last token goes on.
pub open spec fn repeat_mass<S>(frame: Seq<F64>, h: PrefixView<S>) -> F64 {
    if h.tokens.len() == 0 {
        void()
    } else {
        h.p_nonblank.sum(frame[h.tokens.last() as int])
    }
}

/// A frame that adds no token to a hypothesis.
pub open spec fn stay<S>(
    m: LogMath,
    blank: usize,
    frame: Seq<F64>,
    next: Seq<PrefixView<S>>,
    h: PrefixView<S>,
) -> Seq<PrefixView<S>> {
    let b = blank_mass(m, blank, frame, h);
    let r = repeat_mass(frame, h);
    if b == void() && r == void() {
        next
    } else {
        match find_tokens(next, h.tokens) {
            Some(i) => next.update(
                i,
                PrefixView {
                    p_blank: m.log_add(next[i].p_blank, b),
                    p_nonblank: m.log_add(next[i].p_nonblank, r),
                    ..next[i]
                },
            ),
            None => next.push(PrefixView { p_blank: b, p_nonblank: r, ..h }),
        }
    }
}

/// The mass from which a token can follow: a repeated token needs a blank before.
pub open spec fn source_mass<S>(m: LogMath, h: PrefixView<S>, index: usize) -> F64 {
    if h.tokens.len() > 0 && h.tokens.last() == index {
        h.p_blank
    } else {
        h.acoustic(m)
    }
}

/// A frame that adds a token to a hypothesis; none where a cost is broken.
pub open spec fn extend_by<L: LanguageModel>(
    m: LogMath,
    plan: Plan<L>,
    frame: Seq<F64>,
    next: Seq<PrefixView<L::State>>,
    h: PrefixView<L::State>,
    index: usize,
) -> Option<Seq<PrefixView<L::State>>> {
    let source = source_mass(m, h, index);
    let emission = frame[index as int];
    if index == plan.alphabet.blank || emission == void() || source == void() {
        Some(next)
    } else {
        let tokens = h.tokens.push(index);
        let mass = source.sum(emission);
        match find_tokens(next, tokens) {
            Some(i) => Some(
                next.update(
                    i,
                    PrefixView { p_nonblank: m.log_add(next[i].p_nonblank, mass), ..next[i] },
                ),
            ),
            None => match plan.advance(h.state, plan.alphabet.labels@[index as int]) {
                Advance::Refused => Some(next),
                Advance::Broken => None,
                Advance::Taken(state, cost) => Some(
                    next.push(
                        PrefixView {
                            tokens,
                            state,
                            offset: h.offset.difference(plan.lm_weight.product(cost)).sum(
                                plan.insertion_bonus,
                            ),
                            p_blank: void(),
                            p_nonblank: mass,
                        },
                    ),
                ),
            },
        }
    }
}

/// A frame that adds one of the first `n` tokens to a hypothesis.
pub open spec fn extend_upto<L: LanguageModel>(
    m: LogMath,
    plan: Plan<L>,
    frame: Seq<F64>,
    next: Seq<PrefixView<L::State>>,
    h: PrefixView<L::State>,
    n: nat,
) -> Option<Seq<PrefixView<L::State>>>
    decreases n,
{
    if n == 0 {
        Some(next)
    } else {
        match extend_upto(m, plan, frame, next, h, (n - 1) as nat) {
            None => None,
            Some(before) => extend_by(m, plan, frame, before, h, (n - 1) as usize),
        }
    }
}

/// All that a frame makes of the first `k` hypotheses.
pub open spec fn fan_out<L: LanguageModel>(
    m: LogMath,
    plan: Plan<L>,
    frame: Seq<F64>,
    beam: Seq<PrefixView<L::State>>,
    k: nat,
) -> Option<Seq<PrefixView<L::State>>>
    decreases k,
{
    if k == 0 {
        Some(Seq::empty())
    } else {
        match fan_out(m, plan, frame, beam, (k - 1) as nat) {
            None => None,
            Some(before) => extend_upto(
                m,
                plan,
                frame,
                stay(m, plan.alphabet.blank, frame, before, beam[k - 1]),
                beam[k - 1],
                frame.len(),
            ),
        }
    }
}

/// Where the hypotheses' scores stand.
pub open spec fn standings<S>(m: LogMath, next: Seq<PrefixView<S>>) -> Seq<int> {
    next.map_values(|p: PrefixView<S>| standing(p.score(m)))
}

/// The hypotheses with the best scores, the best first.
pub open spec fn prune<S>(m: LogMath, next: Seq<PrefixView<S>>, width: nat) -> Seq<PrefixView<S>> {
    first_places(ranking(standings(m, next)), width).map_values(|i: int| next[i])
}

/// The hypotheses behind the first `t` frames; none where a cost is broken.
pub open spec fn beam_at<L: LanguageModel>(
    m: LogMath,
    plan: Plan<L>,
    probs: Seq<F64>,
    cols: nat,
    width: nat,
    t: nat,
) -> Option<Seq<PrefixView<L::State>>>
    decreases t,
{
    if t == 0 {
        Some(seq![plan.start()])
    } else {
        match beam_at(m, plan, probs, cols, width, (t - 1) as nat) {
            None => None,
            Some(beam) => match fan_out(
                m,
                plan,
                frame_of(probs, cols, t - 1),
                beam,
                beam.len(),
            ) {
                None => None,
                Some(next) => Some(prune(m, next, width)),
            },
        }
    }
}

/// Adds a score to that of a text, in the order of texts.
pub open spec fn put(m: LogMath, results: Seq<CandidateView>, text: Seq<char>, score: F64) -> Seq<
    CandidateView,
>
    decreases results.len(),
{
    if results.len() == 0 {
        seq![CandidateView { text, score }]
    } else {
        let last = results.last();
        let rest = results.drop_last();
        if last.text == text {
            rest.push(CandidateView { text, score: m.log_add(last.score, score) })
        } else if text_less(text, last.text) {
            put(m, rest, text, score).push(last)
        } else {
            results.push(CandidateView { text, score })
        }
    }
}

/// The texts of the first `k` hypotheses with their scores, the cost of the end
/// included; none where a cost is broken.
pub open spec fn gathered<L: LanguageModel>(
    m: LogMath,
    plan: Plan<L>,
    beam: Seq<PrefixView<L::State>>,
    k: nat,
) -> Option<Seq<CandidateView>>
    decreases k,
{
    if k == 0 {
        Some(Seq::empty())
    } else {
        match gathered(m, plan, beam, (k - 1) as nat) {
            None => None,
            Some(results) => {
                let h = beam[k - 1];
                let cost = plan.end_cost(h.state);
                if !is_cost(cost) {
                    None
                } else if cost.bits == TOP64 {
                    Some(results)
                } else {
                    Some(
                        put(
                            m,
                            results,
                            printed(plan.alphabet@.texts, h.tokens),
                            h.score(m).difference(plan.lm_weight.product(cost)),
                        ),
                    )
                }
            },
        }
    }
}

/// The candidates with the best scores, the best first.
pub open spec fn best_candidates(results: Seq<CandidateView>, nbest: nat) -> Seq<CandidateView> {
    first_places(
        ranking(results.map_values(|c: CandidateView| standing(c.score))),
        nbest,
    ).map_values(|i: int| results[i])
}

/// What a search finds; none where a cost is broken.
pub open spec fn found<L: LanguageModel>(
    m: LogMath,
    plan: Plan<L>,
    probs: Seq<F64>,
    rows: nat,
    cols: nat,
    width: nat,
    nbest: nat,
) -> Option<Seq<CandidateView>> {
    match beam_at(m, plan, probs, cols, width, rows) {
        None => None,
        Some(beam) => match gathered(m, plan, beam, beam.len()) {
            None => None,
            Some(results) => Some(best_candidates(results, nbest)),
        },
    }
}

/// A hypothesis that a search may hold: its tokens are classes other than the
/// blank, and with a language model it has a state.
pub open spec fn is_good<L: LanguageModel>(
    plan: Plan<L>,
    cols: nat,
    p: PrefixView<L::State>,
) -> bool {
    &&& plan.lm is Some ==> p.state is Some
    &&& forall|k: int|
        0 <= k < p.tokens.len() ==> (#[trigger] p.tokens[k]) < cols && p.tokens[k]
            != plan.alphabet.blank
}

/// Hypotheses that a search may hold together: each good, no two with the same
/// tokens.
pub open spec fn is_good_beam<L: LanguageModel>(
    plan: Plan<L>,
    cols: nat,
    beam: Seq<PrefixView<L::State>>,
) -> bool {
    &&& forall|s: int| 0 <= s < beam.len() ==> is_good(plan, cols, #[trigger] beam[s])
    &&& forall|a: int, b: int|
        0 <= a < b < beam.len() ==> (#[trigger] beam[a]).tokens != (#[trigger] beam[b]).tokens
}

proof fn lemma_push_good<L: LanguageModel>(
    plan: Plan<L>,
    cols: nat,
    next: Seq<PrefixView<L::State>>,
    p: PrefixView<L::State>,
)
    requires
        is_good_beam(plan, cols, next),
        is_good(plan, cols, p),
        find_tokens(next, p.tokens) is None,
    ensures
        is_good_beam(plan, cols, next.push(p)),
{
    lemma_find(next, p.tokens);
}

proof fn lemma_update_good<L: LanguageModel>(
    plan: Plan<L>,
    cols: nat,
    next: Seq<PrefixView<L::State>>,
    i: int,
    p: PrefixView<L::State>,
)
    requires
        is_good_beam(plan, cols, next),
        0 <= i < next.len(),
        p.tokens == next[i].tokens,
        p.state == next[i].state,
    ensures
        is_good_beam(plan, cols, next.update(i, p)),
{
    let other = next.update(i, p);
    assert forall|s: int| 0 <= s < other.len() implies is_good(plan, cols, #[trigger] other[s]) by {
        assert(is_good(plan, cols, next[s]));
    }
    assert forall|a: int, b: int| 0 <= a < b < other.len() implies (#[trigger] other[a]).tokens
        != (#[trigger] other[b]).tokens by {
        assert(next[a].tokens != next[b].tokens);
    }
}

proof fn lemma_stay_good<L: LanguageModel>(
    m: LogMath,
    plan: Plan<L>,
    frame: Seq<F64>,
    next: Seq<PrefixView<L::State>>,
    h: PrefixView<L::State>,
)
    requires
        is_good_beam(plan, frame.len(), next),
        is_good(plan, frame.len(), h),
    ensures
        is_good_beam(plan, frame.len(), stay(m, plan.alphabet.blank, frame, next, h)),
{
    let b = blank_mass(m, plan.alphabet.blank, frame, h);
    let r = repeat_mass(frame, h);
    lemma_find(next, h.tokens);
    match find_tokens(next, h.tokens) {
        Some(i) => {
            lemma_update_good(
                plan,
                frame.len(),
                next,
                i,
                PrefixView {
                    p_blank: m.log_add(next[i].p_blank, b),
                    p_nonblank: m.log_add(next[i].p_nonblank, r),
                    ..next[i]
                },
            );
        },
        None => {
            let p = PrefixView { p_blank: b, p_nonblank: r, ..h };
            assert(is_good(plan, frame.len(), p));
            lemma_push_good(plan, frame.len(), next, p);
        },
    }
}

proof fn lemma_extend_good<L: LanguageModel>(
    m: LogMath,
    plan: Plan<L>,
    frame: Seq<F64>,
    next: Seq<PrefixView<L::State>>,
    h: PrefixView<L::State>,
    index: usize,
)
    requires
        is_good_beam(plan, frame.len(), next),
        is_good(plan, frame.len(), h),
        index < frame.len(),
    ensures
        extend_by(m, plan, frame, next, h, index) is Some ==> is_good_beam(
            plan,
            frame.len(),
            extend_by(m, plan, frame, next, h, index)->0,
        ),
{
    let tokens = h.tokens.push(index);
    let mass = source_mass(m, h, index).sum(frame[index as int]);
    lemma_find(next, tokens);
    match find_tokens(next, tokens) {
        Some(i) => {
            lemma_update_good(
                plan,
                frame.len(),
                next,
                i,
                PrefixView { p_nonblank: m.log_add(next[i].p_nonblank, mass), ..next[i] },
            );
        },
        None => {
            match plan.advance(h.state, plan.alphabet.labels@[index as int]) {
                Advance::Taken(state, cost) => {
                    let p = PrefixView {
                        tokens,
                        state,
                        offset: h.offset.difference(plan.lm_weight.product(cost)).sum(
                            plan.insertion_bonus,
                        ),
                        p_blank: void(),
                        p_nonblank: mass,
                    };
                    if index != plan.alphabet.blank {
                        assert(is_good(plan, frame.len(), p));
                        lemma_push_good(plan, frame.len(), next, p);
                    }
                },
                _ => {},
            }
        },
    }
}

proof fn lemma_extend_upto_good<L: LanguageModel>(
    m: LogMath,
    plan: Plan<L>,
    frame: Seq<F64>,
    next: Seq<PrefixView<L::State>>,
    h: PrefixView<L::State>,
    n: nat,
)
    requires
        is_good_beam(plan, frame.len(), next),
        is_good(plan, frame.len(), h),
        n <= frame.len(),
        n <= usize::MAX,
    ensures
        extend_upto(m, plan, frame, next, h, n) is Some ==> is_good_beam(
            plan,
            frame.len(),
            extend_upto(m, plan, frame, next, h, n)->0,
        ),
    decreases n,
{
    if n > 0 {
        lemma_extend_upto_good(m, plan, frame, next, h, (n - 1) as nat);
        if let Some(before) = extend_upto(m, plan, frame, next, h, (n - 1) as nat) {
            lemma_extend_good(m, plan, frame, before, h, (n - 1) as usize);
        }
    }
}

proof fn lemma_fan_good<L: LanguageModel>(
    m: LogMath,
    plan: Plan<L>,
    frame: Seq<F64>,
    beam: Seq<PrefixView<L::State>>,
    k: nat,
)
    requires
        is_good_beam(plan, frame.len(), beam),
        k <= beam.len(),
        frame.len() <= usize::MAX,
    ensures
        fan_out(m, plan, frame, beam, k) is Some ==> is_good_beam(
            plan,
            frame.len(),
            fan_out(m, plan, frame, beam, k)->0,
        ),
    decreases k,
{
    if k > 0 {
        lemma_fan_good(m, plan, frame, beam, (k - 1) as nat);
        if let Some(before) = fan_out(m, plan, frame, beam, (k - 1) as nat) {
            let h = beam[k - 1];
            lemma_stay_good(m, plan, frame, before, h);
            lemma_extend_upto_good(
                m,
                plan,
                frame,
                stay(m, plan.alphabet.blank, frame, before, h),
                h,
                frame.len(),
            );
        }
    }
}

proof fn lemma_prune_good<L: LanguageModel>(
    m: LogMath,
    plan: Plan<L>,
    cols: nat,
    next: Seq<PrefixView<L::State>>,
    width: nat,
)
    requires
        is_good_beam(plan, cols, next),
    ensures
        is_good_beam(plan, cols, prune(m, next, width)),
        prune(m, next, width).len() <= width,
{
    let keys = standings(m, next);
    let order = ranking(keys);
    lemma_ranking(keys);
    let kept = first_places(order, width);
    let out = prune(m, next, width);
    assert forall|s: int| 0 <= s < out.len() implies is_good(plan, cols, #[trigger] out[s]) by {
        assert(kept[s] == order[s]);
        assert(is_good(plan, cols, next[order[s]]));
    }
    assert forall|a: int, b: int| 0 <= a < b < out.len() implies (#[trigger] out[a]).tokens
        != (#[trigger] out[b]).tokens by {
        let (x, y) = (order[a], order[b]);
        assert(kept[a] == x && kept[b] == y);
        assert(crate::ranking::ahead(keys, x, y));
        if x < y {
            assert(next[x].tokens != next[y].tokens);
        } else {
            assert(next[y].tokens != next[x].tokens);
        }
    }
}

/// Behind every frame the hypotheses are good, no two have the same tokens, and
/// there are no more than the beam is wide.
pub proof fn lemma_beam_good<L: LanguageModel>(
    m: LogMath,
    plan: Plan<L>,
    probs: Seq<F64>,
    rows: nat,
    cols: nat,
    width: nat,
    t: nat,
)
    requires
        probs.len() == rows * cols,
        cols <= usize::MAX,
        width > 0,
        t <= rows,
    ensures
        beam_at(m, plan, probs, cols, width, t) is Some ==> {
            &&& is_good_beam(plan, cols, beam_at(m, plan, probs, cols, width, t)->0)
            &&& beam_at(m, plan, probs, cols, width, t)->0.len() <= width
        },
    decreases t,
{
    if t > 0 {
        lemma_beam_good(m, plan, probs, rows, cols, width, (t - 1) as nat);
        if let Some(beam) = beam_at(m, plan, probs, cols, width, (t - 1) as nat) {
            let frame = frame_of(probs, cols, t - 1);
            crate::mat::lemma_row_bounds(rows, cols, t - 1);
            assert(frame.len() == cols);
            lemma_fan_good(m, plan, frame, beam, beam.len());
            if let Some(next) = fan_out(m, plan, frame, beam, beam.len()) {
                lemma_prune_good(m, plan, cols, next, width);
            }
        }
    }
}

/// A machine place as a mathematical one.
spec fn place(slot: Option<usize>) -> Option<int> {
    match slot {
        None => None,
        Some(i) => Some(i as int),
    }
}

/// Whether slots tell where the tokens of each hypothesis of the beam stand.
spec fn slots_tell<S>(
    slots: Seq<Option<usize>>,
    beam: Seq<PrefixView<S>>,
    next: Seq<PrefixView<S>>,
) -> bool {
    &&& slots.len() == beam.len()
    &&& forall|j: int|
        0 <= j < beam.len() ==> place(#[trigger] slots[j]) == find_tokens(next, beam[j].tokens)
}

/// Whether tokens are those of a hypothesis, or of one of the first `i` with a
/// token more, or of the next with one of the first `n` tokens more.
spec fn comes_from<S>(beam: Seq<PrefixView<S>>, i: int, n: int, tokens: Seq<usize>) -> bool {
    ||| exists|j: int| 0 <= j < beam.len() && (#[trigger] beam[j]).tokens == tokens
    ||| exists|a: int, index: usize|
        0 <= a < beam.len() && (a < i || (a == i && index < n)) && tokens
            == #[trigger] beam[a].tokens.push(index)
}

spec fn all_known<S>(
    beam: Seq<PrefixView<S>>,
    next: Seq<PrefixView<S>>,
    i: int,
    n: int,
) -> bool {
    forall|s: int| 0 <= s < next.len() ==> comes_from(beam, i, n, (#[trigger] next[s]).tokens)
}

proof fn lemma_known_later<S>(
    beam: Seq<PrefixView<S>>,
    next: Seq<PrefixView<S>>,
    i: int,
    n: int,
    j: int,
    k: int,
)
    requires
        all_known(beam, next, i, n),
        i < j || (i == j && n <= k),
    ensures
        all_known(beam, next, j, k),
{
    assert forall|s: int| 0 <= s < next.len() implies comes_from(
        beam,
        j,
        k,
        (#[trigger] next[s]).tokens,
    ) by {
        let tokens = next[s].tokens;
        assert(comes_from(beam, i, n, tokens));
        if !(exists|j: int| 0 <= j < beam.len() && (#[trigger] beam[j]).tokens == tokens) {
            let (a, index) = choose|a: int, index: usize|
                0 <= a < beam.len() && (a < i || (a == i && index < n)) && tokens
                    == #[trigger] beam[a].tokens.push(index);
            assert(tokens == beam[a].tokens.push(index));
        }
    }
}

proof fn lemma_update_known<S>(
    beam: Seq<PrefixView<S>>,
    next: Seq<PrefixView<S>>,
    slots: Seq<Option<usize>>,
    i: int,
    n: int,
    at: int,
    p: PrefixView<S>,
)
    requires
        all_known(beam, next, i, n),
        slots_tell(slots, beam, next),
        0 <= at < next.len(),
        p.tokens == next[at].tokens,
    ensures
        all_known(beam, next.update(at, p), i, n),
        slots_tell(slots, beam, next.update(at, p)),
{
    let other = next.update(at, p);
    assert forall|s: int| 0 <= s < other.len() implies comes_from(
        beam,
        i,
        n,
        (#[trigger] other[s]).tokens,
    ) by {
        assert(comes_from(beam, i, n, next[s].tokens));
    }
    assert forall|j: int| 0 <= j < beam.len() implies place(#[trigger] slots[j]) == find_tokens(
        other,
        beam[j].tokens,
    ) by {
        lemma_find_update(next, at, p, beam[j].tokens);
    }
}

proof fn lemma_push_known<S>(
    beam: Seq<PrefixView<S>>,
    next: Seq<PrefixView<S>>,
    before: Seq<Option<usize>>,
    after: Seq<Option<usize>>,
    i: int,
    n: int,
    p: PrefixView<S>,
)
    requires
        all_known(beam, next, i, n),
        slots_tell(before, beam, next),
        comes_from(beam, i, n, p.tokens),
        after.len() == before.len(),
        forall|j: int|
            0 <= j < beam.len() ==> place(#[trigger] after[j]) == (if beam[j].tokens == p.tokens {
                Some(next.len() as int)
            } else {
                place(before[j])
            }),
    ensures
        all_known(beam, next.push(p), i, n),
        slots_tell(after, beam, next.push(p)),
{
    let other = next.push(p);
    assert forall|s: int| 0 <= s < other.len() implies comes_from(
        beam,
        i,
        n,
        (#[trigger] other[s]).tokens,
    ) by {
        if s < next.len() {
            assert(comes_from(beam, i, n, next[s].tokens));
        }
    }
    assert forall|j: int| 0 <= j < beam.len() implies place(#[trigger] after[j]) == find_tokens(
        other,
        beam[j].tokens,
    ) by {
        lemma_find_push(next, p, beam[j].tokens);
        assert(place(before[j]) == find_tokens(next, beam[j].tokens));
    }
}

fn copy_tokens(tokens: &Vec<usize>) -> (r: Vec<usize>)
    ensures
        r@ == tokens@,
{
    vstd::slice::slice_to_vec(tokens.as_slice())
}

impl<S: Copy> Prefix<S> {
    fn acoustic<E: Fn(F64) -> F64, L: Fn(F64) -> F64, T: Fn(F64) -> F64>(
        &self,
        f: &Functions<E, L, T>,
    ) -> (r: F64)
        requires
            f.wf(),
        ensures
            r == self@.acoustic(f.math()),
    {
        f.log_add_exp(self.p_blank, self.p_nonblank)
    }

    fn score<E: Fn(F64) -> F64, L: Fn(F64) -> F64, T: Fn(F64) -> F64>(
        &self,
        f: &Functions<E, L, T>,
    ) -> (r: F64)
        requires
            f.wf(),
        ensures
            r == self@.score(f.math()),
    {
        self.acoustic(f).plus(self.offset)
    }
}

/// The part of a frame that adds no token to hypothesis `j`.
fn stay_step<S: Copy, E: Fn(F64) -> F64, L: Fn(F64) -> F64, T: Fn(F64) -> F64>(
    f: &Functions<E, L, T>,
    blank: usize,
    frame: &[F64],
    beam: &Vec<Prefix<S>>,
    j: usize,
    acoustic: F64,
    next: &mut Vec<Prefix<S>>,
    slots: &mut Vec<Option<usize>>,
)
    requires
        f.wf(),
        blank < frame@.len(),
        j < beam@.len(),
        acoustic == beam@[j as int]@.acoustic(f.math()),
        forall|k: int|
            0 <= k < beam@[j as int].tokens@.len() ==> (#[trigger] beam@[j as int].tokens@[k])
                < frame@.len(),
        forall|a: int, b: int|
            0 <= a < b < beam@.len() ==> (#[trigger] prefixes_view(beam@)[a]).tokens != (
            #[trigger] prefixes_view(beam@)[b]).tokens,
        slots_tell(old(slots)@, prefixes_view(beam@), prefixes_view(old(next)@)),
        all_known(prefixes_view(beam@), prefixes_view(old(next)@), j as int, 0),
    ensures
        prefixes_view(final(next)@) == stay(
            f.math(),
            blank,
            frame@,
            prefixes_view(old(next)@),
            beam@[j as int]@,
        ),
        slots_tell(final(slots)@, prefixes_view(beam@), prefixes_view(final(next)@)),
        all_known(prefixes_view(beam@), prefixes_view(final(next)@), j as int, 0),
{
    let ghost m = f.math();
    let ghost bv = prefixes_view(beam@);
    let ghost nv = prefixes_view(next@);
    let ghost before = slots@;
    let h: &Prefix<S> = &beam[j];
    assert(bv[j as int] == h@);
    let b: F64 = acoustic.plus(frame[blank]);
    let r: F64 = if h.tokens.len() == 0 {
        nothing()
    } else {
        h.p_nonblank.plus(frame[h.tokens[h.tokens.len() - 1]])
    };
    if is_void(b) && is_void(r) {
        return ;
    }
    proof {
        lemma_find(nv, h@.tokens);
        assert(place(slots@[j as int]) == find_tokens(nv, bv[j as int].tokens));
    }
    match slots[j] {
        Some(at) => {
            let ghost p = PrefixView {
                p_blank: m.log_add(nv[at as int].p_blank, b),
                p_nonblank: m.log_add(nv[at as int].p_nonblank, r),
                ..nv[at as int]
            };
            let joined_blank: F64 = f.log_add_exp(next[at].p_blank, b);
            let joined_nonblank: F64 = f.log_add_exp(next[at].p_nonblank, r);
            next[at].p_blank = joined_blank;
            next[at].p_nonblank = joined_nonblank;
            proof {
                assert(prefixes_view(next@) =~= nv.update(at as int, p));
                lemma_update_known(bv, nv, slots@, j as int, 0, at as int, p);
            }
        },
        None => {
            let at: usize = next.len();
            next.push(
                Prefix {
                    tokens: copy_tokens(&h.tokens),
                    state: h.state,
                    offset: h.offset,
                    p_blank: b,
                    p_nonblank: r,
                },
            );
            slots.set(j, Some(at));
            proof {
                let p = PrefixView { p_blank: b, p_nonblank: r, ..h@ };
                assert(prefixes_view(next@) =~= nv.push(p));
                assert forall|k: int| 0 <= k < bv.len() implies place(#[trigger] slots@[k]) == (
                if bv[k].tokens == p.tokens {
                    Some(nv.len() as int)
                } else {
                    place(before[k])
                }) by {
                    if k < j {
                        assert(bv[k].tokens != bv[j as int].tokens);
                    } else if k > j {
                        assert(bv[j as int].tokens != bv[k].tokens);
                    }
                }
                lemma_push_known(bv, nv, before, slots@, j as int, 0, p);
            }
        },
    }
}

/// The part of a frame that adds one token to hypothesis `i`; `child` is the
/// hypothesis of the beam that has those tokens. False where a cost is broken.
fn extend_step<M: LanguageModel, E: Fn(F64) -> F64, L: Fn(F64) -> F64, T: Fn(F64) -> F64>(
    f: &Functions<E, L, T>,
    plan: &Plan<M>,
    frame: &[F64],
    beam: &Vec<Prefix<M::State>>,
    i: usize,
    acoustic: F64,
    index: usize,
    child: Option<usize>,
    next: &mut Vec<Prefix<M::State>>,
    slots: &mut Vec<Option<usize>>,
) -> (ok: bool)
    requires
        f.wf(),
        index < frame@.len(),
        plan.alphabet.labels@.len() == frame@.len(),
        i < beam@.len(),
        acoustic == beam@[i as int]@.acoustic(f.math()),
        is_good_beam(*plan, frame@.len(), prefixes_view(beam@)),
        match child {
            Some(j) => j < beam@.len() && beam@[j as int].tokens@
                == beam@[i as int].tokens@.push(index),
            None => forall|j: int|
                0 <= j < beam@.len() ==> (#[trigger] prefixes_view(beam@)[j]).tokens
                    != beam@[i as int].tokens@.push(index),
        },
        slots_tell(old(slots)@, prefixes_view(beam@), prefixes_view(old(next)@)),
        all_known(prefixes_view(beam@), prefixes_view(old(next)@), i as int, index as int),
    ensures
        match extend_by(
            f.math(),
            *plan,
            frame@,
            prefixes_view(old(next)@),
            beam@[i as int]@,
            index,
        ) {
            None => !ok,
            Some(wanted) => {
                &&& ok
                &&& prefixes_view(final(next)@) == wanted
                &&& slots_tell(final(slots)@, prefixes_view(beam@), wanted)
                &&& all_known(prefixes_view(beam@), wanted, i as int, index + 1)
            },
        },
{
    let ghost m = f.math();
    let ghost bv = prefixes_view(beam@);
    let ghost nv = prefixes_view(next@);
    let ghost before = slots@;
    let h: &Prefix<M::State> = &beam[i];
    assert(bv[i as int] == h@);
    proof {
        lemma_known_later(bv, nv, i as int, index as int, i as int, index + 1);
    }
    let emission: F64 = frame[index];
    if index == plan.alphabet.blank || is_void(emission) {
        return true;
    }
    let source: F64 = if h.tokens.len() > 0 && h.tokens[h.tokens.len() - 1] == index {
        h.p_blank
    } else {
        acoustic
    };
    if is_void(source) {
        return true;
    }
    let mass: F64 = source.plus(emission);
    let ghost tokens = h@.tokens.push(index);
    let slot: Option<usize> = match child {
        Some(j) => slots[j],
        None => None,
    };
    proof {
        lemma_find(nv, tokens);
        match child {
            Some(j) => {
                assert(place(slots@[j as int]) == find_tokens(nv, bv[j as int].tokens));
            },
            None => {
                if let Some(s) = find_tokens(nv, tokens) {
                    assert(comes_from(bv, i as int, index as int, nv[s].tokens));
                    let (a, x) = choose|a: int, x: usize|
                        0 <= a < bv.len() && (a < i || (a == i && x < index)) && tokens
                            == #[trigger] bv[a].tokens.push(x);
                    assert(tokens.drop_last() =~= bv[a].tokens);
                    assert(tokens.drop_last() =~= bv[i as int].tokens);
                    assert(tokens.last() == x);
                }
            },
        }
        assert(place(slot) == find_tokens(nv, tokens));
    }
    match slot {
        Some(at) => {
            let ghost p = PrefixView {
                p_nonblank: m.log_add(nv[at as int].p_nonblank, mass),
                ..nv[at as int]
            };
            let joined: F64 = f.log_add_exp(next[at].p_nonblank, mass);
            next[at].p_nonblank = joined;
            proof {
                assert(prefixes_view(next@) =~= nv.update(at as int, p));
                lemma_update_known(bv, nv, slots@, i as int, index + 1, at as int, p);
            }
            true
        },
        None => match plan.ask(h.state, plan.alphabet.labels[index]) {
            Advance::Refused => true,
            Advance::Broken => false,
            Advance::Taken(state, cost) => {
                let at: usize = next.len();
                let mut longer: Vec<usize> = copy_tokens(&h.tokens);
                longer.push(index);
                let offset: F64 = h.offset.minus(plan.lm_weight.times(cost)).plus(
                    plan.insertion_bonus,
                );
                next.push(
                    Prefix {
                        tokens: longer,
                        state,
                        offset,
                        p_blank: nothing(),
                        p_nonblank: mass,
                    },
                );
                if let Some(j) = child {
                    slots.set(j, Some(at));
                }
                proof {
                    let p = PrefixView {
                        tokens,
                        state,
                        offset,
                        p_blank: void(),
                        p_nonblank: mass,
                    };
                    assert(prefixes_view(next@) =~= nv.push(p));
                    assert(comes_from(bv, i as int, index + 1, tokens)) by {
                        assert(tokens == bv[i as int].tokens.push(index));
                    }
                    assert forall|k: int| 0 <= k < bv.len() implies place(#[trigger] slots@[k])
                        == (if bv[k].tokens == p.tokens {
                        Some(nv.len() as int)
                    } else {
                        place(before[k])
                    }) by {
                        if let Some(j) = child {
                            assert(bv[j as int].tokens == tokens);
                            if k < j {
                                assert(bv[k].tokens != bv[j as int].tokens);
                            } else if k > j {
                                assert(bv[j as int].tokens != bv[k].tokens);
                            }
                        }
                    }
                    lemma_push_known(bv, nv, before, slots@, i as int, index + 1, p);
                }
                true
            },
        },
    }
}

/// Whether the second tokens are the first and one more.
fn is_longer(a: &Vec<usize>, b: &Vec<usize>) -> (r: bool)
    ensures
        r == (b@.len() == a@.len() + 1 && b@.drop_last() == a@),
{
    if b.len() == 0 || b.len() - 1 != a.len() {
        return false;
    }
    let n: usize = a.len();
    let mut k: usize = n;
    while k > 0
        invariant
            k <= n,
            n == a@.len(),
            b@.len() == n + 1,
            forall|x: int| k <= x < n ==> a@[x] == b@[x],
        decreases k,
    {
        if a[k - 1] != b[k - 1] {
            assert(b@.drop_last()[k - 1] != a@[k - 1]);
            return false;
        }
        k -= 1;
    }
    assert(b@.drop_last() =~= a@);
    true
}

/// The hypotheses of the beam that have one token more than hypothesis `i`.
fn children_of<S>(beam: &Vec<Prefix<S>>, i: usize) -> (r: Vec<usize>)
    requires
        i < beam@.len(),
    ensures
        forall|k: int| 0 <= k < r@.len() ==> (#[trigger] r@[k]) < beam@.len(),
        forall|k: int|
            0 <= k < r@.len() ==> {
                let tokens = beam@[#[trigger] r@[k] as int].tokens@;
                tokens.len() > 0 && tokens.drop_last() == beam@[i as int].tokens@
            },
        forall|j: int|
            0 <= j < beam@.len() && beam@[j].tokens@.len() > 0 && (#[trigger] beam@[j].tokens@
                .drop_last()) == beam@[i as int].tokens@ ==> r@.contains(j as usize),
{
    let mut out: Vec<usize> = Vec::new();
    let mut j: usize = 0;
    while j < beam.len()
        invariant
            j <= beam@.len(),
            i < beam@.len(),
            forall|k: int| 0 <= k < out@.len() ==> (#[trigger] out@[k]) < beam@.len(),
            forall|k: int|
                0 <= k < out@.len() ==> {
                    let tokens = beam@[#[trigger] out@[k] as int].tokens@;
                    tokens.len() > 0 && tokens.drop_last() == beam@[i as int].tokens@
                },
            forall|a: int|
                0 <= a < j && beam@[a].tokens@.len() > 0 && (#[trigger] beam@[a].tokens@
                    .drop_last()) == beam@[i as int].tokens@ ==> out@.contains(a as usize),
        decreases beam@.len() - j,
    {
        if is_longer(&beam[i].tokens, &beam[j].tokens) {
            let ghost before = out@;
            out.push(j);
            proof {
                assert(out@[before.len() as int] == j);
                assert forall|x: usize| before.contains(x) implies out@.contains(x) by {
                    let k = before.index_of(x);
                    assert(out@[k] == x);
                }
            }
        }
        j += 1;
    }
    out
}

/// The child that ends in a token.
fn child_with<S>(beam: &Vec<Prefix<S>>, i: usize, children: &Vec<usize>, index: usize) -> (r:
    Option<usize>)
    requires
        i < beam@.len(),
        forall|k: int| 0 <= k < children@.len() ==> (#[trigger] children@[k]) < beam@.len(),
        forall|k: int|
            0 <= k < children@.len() ==> {
                let tokens = beam@[#[trigger] children@[k] as int].tokens@;
                tokens.len() > 0 && tokens.drop_last() == beam@[i as int].tokens@
            },
        forall|j: int|
            0 <= j < beam@.len() && beam@[j].tokens@.len() > 0 && (#[trigger] beam@[j].tokens@
                .drop_last()) == beam@[i as int].tokens@ ==> children@.contains(j as usize),
    ensures
        match r {
            Some(j) => j < beam@.len() && beam@[j as int].tokens@
                == beam@[i as int].tokens@.push(index),
            None => forall|j: int|
                0 <= j < beam@.len() ==> (#[trigger] prefixes_view(beam@)[j]).tokens
                    != beam@[i as int].tokens@.push(index),
        },
{
    let ghost tokens = beam@[i as int].tokens@;
    let total: usize = beam.len();
    let mut k: usize = 0;
    while k < children.len()
        invariant
            k <= children@.len(),
            tokens == beam@[i as int].tokens@,
            forall|k: int| 0 <= k < children@.len() ==> (#[trigger] children@[k]) < beam@.len(),
            forall|k: int|
                0 <= k < children@.len() ==> {
                    let longer = beam@[#[trigger] children@[k] as int].tokens@;
                    longer.len() > 0 && longer.drop_last() == tokens
                },
            forall|a: int|
                0 <= a < k ==> beam@[#[trigger] children@[a] as int].tokens@.last() != index,
        decreases children@.len() - k,
    {
        let j: usize = children[k];
        let longer: &Vec<usize> = &beam[j].tokens;
        assert(longer@ == beam@[children@[k as int] as int].tokens@);
        if longer[longer.len() - 1] == index {
            assert(longer@ =~= tokens.push(index));
            return Some(j);
        }
        k += 1;
    }
    proof {
        let wanted = tokens.push(index);
        assert(wanted.drop_last() =~= tokens);
        assert forall|j: int| 0 <= j < beam@.len() implies (#[trigger] prefixes_view(
            beam@,
        )[j]).tokens != wanted by {
            if beam@[j].tokens@ == wanted {
                assert(beam@[j].tokens@.drop_last() == tokens);
                assert(children@.contains(j as usize));
                let a = children@.index_of(j as usize);
                assert(beam@[children@[a] as int].tokens@.last() == index);
            }
        }
    }
    None
}

/// All that a frame makes of a beam; none where a cost is broken.
fn fan<M: LanguageModel, E: Fn(F64) -> F64, L: Fn(F64) -> F64, T: Fn(F64) -> F64>(
    f: &Functions<E, L, T>,
    plan: &Plan<M>,
    frame: &[F64],
    beam: &Vec<Prefix<M::State>>,
) -> (r: Option<Vec<Prefix<M::State>>>)
    requires
        f.wf(),
        plan.alphabet.blank < frame@.len(),
        plan.alphabet.labels@.len() == frame@.len(),
        is_good_beam(*plan, frame@.len(), prefixes_view(beam@)),
    ensures
        match (r, fan_out(f.math(), *plan, frame@, prefixes_view(beam@), beam@.len())) {
            (Some(next), Some(wanted)) => prefixes_view(next@) == wanted,
            (None, None) => true,
            _ => false,
        },
{
    let ghost m = f.math();
    let ghost bv = prefixes_view(beam@);
    let blank: usize = plan.alphabet.blank;
    let mut next: Vec<Prefix<M::State>> = Vec::new();
    let mut slots: Vec<Option<usize>> = Vec::new();
    let mut j: usize = 0;
    while j < beam.len()
        invariant
            j <= beam@.len(),
            slots@.len() == j,
            forall|k: int| 0 <= k < j ==> slots@[k] is None,
        decreases beam@.len() - j,
    {
        slots.push(None);
        j += 1;
    }
    let mut i: usize = 0;
    assert(prefixes_view(next@) =~= Seq::empty());
    while i < beam.len()
        invariant
            i <= beam@.len(),
            f.wf(),
            m == f.math(),
            bv == prefixes_view(beam@),
            blank == plan.alphabet.blank,
            blank < frame@.len(),
            plan.alphabet.labels@.len() == frame@.len(),
            is_good_beam(*plan, frame@.len(), bv),
            fan_out(m, *plan, frame@, bv, i as nat) == Some(prefixes_view(next@)),
            slots_tell(slots@, bv, prefixes_view(next@)),
            all_known(bv, prefixes_view(next@), i as int, 0),
        decreases beam@.len() - i,
    {
        let ghost h = bv[i as int];
        assert(h == beam@[i as int]@);
        assert(is_good(*plan, frame@.len(), h));
        let acoustic: F64 = beam[i].acoustic(f);
        proof {
            assert forall|k: int| 0 <= k < beam@[i as int].tokens@.len() implies (
            #[trigger] beam@[i as int].tokens@[k]) < frame@.len() by {
                assert(h.tokens[k] < frame@.len());
            }
        }
        stay_step(f, blank, frame, beam, i, acoustic, &mut next, &mut slots);
        let ghost stayed = prefixes_view(next@);
        let children: Vec<usize> = children_of(beam, i);
        let mut index: usize = 0;
        while index < frame.len()
            invariant
                index <= frame@.len(),
                i < beam@.len(),
                f.wf(),
                m == f.math(),
                bv == prefixes_view(beam@),
                h == bv[i as int],
                blank == plan.alphabet.blank,
                plan.alphabet.labels@.len() == frame@.len(),
                is_good_beam(*plan, frame@.len(), bv),
                acoustic == beam@[i as int]@.acoustic(m),
                forall|k: int|
                    0 <= k < children@.len() ==> (#[trigger] children@[k]) < beam@.len(),
                forall|k: int|
                    0 <= k < children@.len() ==> {
                        let tokens = beam@[#[trigger] children@[k] as int].tokens@;
                        tokens.len() > 0 && tokens.drop_last() == beam@[i as int].tokens@
                    },
                forall|j: int|
                    0 <= j < beam@.len() && beam@[j].tokens@.len() > 0 && (
                    #[trigger] beam@[j].tokens@.drop_last()) == beam@[i as int].tokens@
                        ==> children@.contains(j as usize),
                fan_out(m, *plan, frame@, bv, i as nat) is Some,
                stayed == stay(
                    m,
                    blank,
                    frame@,
                    fan_out(m, *plan, frame@, bv, i as nat)->0,
                    h,
                ),
                extend_upto(m, *plan, frame@, stayed, h, index as nat) == Some(
                    prefixes_view(next@),
                ),
                slots_tell(slots@, bv, prefixes_view(next@)),
                all_known(bv, prefixes_view(next@), i as int, index as int),
            decreases frame@.len() - index,
        {
            let child: Option<usize> = child_with(beam, i, &children, index);
            if !extend_step(
                f,
                plan,
                frame,
                beam,
                i,
                acoustic,
                index,
                child,
                &mut next,
                &mut slots,
            ) {
                proof {
                    lemma_broken(m, *plan, frame@, stayed, h, (index + 1) as nat, frame@.len());
                    lemma_fan_broken(m, *plan, frame@, bv, (i + 1) as nat, bv.len());
                }
                return None;
            }
            index += 1;
        }
        proof {
            lemma_known_later(
                bv,
                prefixes_view(next@),
                i as int,
                index as int,
                i + 1,
                0,
            );
        }
        i += 1;
    }
    Some(next)
}

proof fn lemma_broken<L: LanguageModel>(
    m: LogMath,
    plan: Plan<L>,
    frame: Seq<F64>,
    next: Seq<PrefixView<L::State>>,
    h: PrefixView<L::State>,
    k: nat,
    n: nat,
)
    requires
        extend_upto(m, plan, frame, next, h, k) is None,
        k <= n,
    ensures
        extend_upto(m, plan, frame, next, h, n) is None,
    decreases n,
{
    if k < n {
        lemma_broken(m, plan, frame, next, h, k, (n - 1) as nat);
    }
}

proof fn lemma_fan_broken<L: LanguageModel>(
    m: LogMath,
    plan: Plan<L>,
    frame: Seq<F64>,
    beam: Seq<PrefixView<L::State>>,
    k: nat,
    n: nat,
)
    requires
        fan_out(m, plan, frame, beam, k) is None,
        k <= n,
    ensures
        fan_out(m, plan, frame, beam, n) is None,
    decreases n,
{
    if k < n {
        lemma_fan_broken(m, plan, frame, beam, k, (n - 1) as nat);
    }
}

/// Keeps the hypotheses with the best scores.
fn prune_beam<S: Copy, E: Fn(F64) -> F64, L: Fn(F64) -> F64, T: Fn(F64) -> F64>(
    f: &Functions<E, L, T>,
    next: &Vec<Prefix<S>>,
    width: usize,
) -> (r: Vec<Prefix<S>>)
    requires
        f.wf(),
    ensures
        prefixes_view(r@) == prune(f.math(), prefixes_view(next@), width as nat),
{
    let ghost m = f.math();
    let ghost nv = prefixes_view(next@);
    let mut keys: Vec<i64> = Vec::new();
    let mut i: usize = 0;
    while i < next.len()
        invariant
            i <= next@.len(),
            f.wf(),
            m == f.math(),
            nv == prefixes_view(next@),
            keys@.len() == i,
            forall|k: int| 0 <= k < i ==> #[trigger] keys@[k] == standing(nv[k].score(m)),
        decreases next@.len() - i,
    {
        keys.push(standing_of(next[i].score(f)));
        i += 1;
    }
    assert(keys_view(keys@) =~= standings(m, nv));
    let order: Vec<usize> = rank(&keys, width);
    let ghost places = places_view(order@);
    let mut out: Vec<Prefix<S>> = Vec::new();
    i = 0;
    while i < order.len()
        invariant
            i <= order@.len(),
            nv == prefixes_view(next@),
            places == places_view(order@),
            forall|a: int| 0 <= a < order@.len() ==> (#[trigger] order@[a]) < next@.len(),
            prefixes_view(out@) =~= places.take(i as int).map_values(|k: int| nv[k]),
        decreases order@.len() - i,
    {
        let h: &Prefix<S> = &next[order[i]];
        let ghost before = prefixes_view(out@);
        out.push(
            Prefix {
                tokens: copy_tokens(&h.tokens),
                state: h.state,
                offset: h.offset,
                p_blank: h.p_blank,
                p_nonblank: h.p_nonblank,
            },
        );
        proof {
            assert(prefixes_view(out@) =~= before.push(nv[order@[i as int] as int]));
            assert(places.take(i + 1) =~= places.take(i as int).push(places[i as int]));
        }
        i += 1;
    }
    assert(places.take(i as int) =~= places);
    out
}

/// Results by their contents.
pub open spec fn candidates_view(c: Seq<Candidate>) -> Seq<CandidateView> {
    c.map_values(|x: Candidate| x@)
}

/// Adds a score to that of a text.
fn put_result<E: Fn(F64) -> F64, L: Fn(F64) -> F64, T: Fn(F64) -> F64>(
    f: &Functions<E, L, T>,
    results: &mut Vec<Candidate>,
    text: String,
    score: F64,
)
    requires
        f.wf(),
    ensures
        candidates_view(final(results)@) == put(
            f.math(),
            candidates_view(old(results)@),
            text@,
            score,
        ),
{
    let ghost m = f.math();
    let ghost all = candidates_view(results@);
    let ghost name = text@;
    let chars: Vec<char> = chars_of(text.as_str());
    let mut at: usize = results.len();
    assert(all.take(at as int) =~= all);
    assert(all.skip(at as int) =~= Seq::empty());
    while at > 0
        invariant
            at <= results@.len(),
            f.wf(),
            m == f.math(),
            candidates_view(results@) == all,
            all == candidates_view(old(results)@),
            chars@ == name,
            name == text@,
            put(m, all, name, score) =~= put(m, all.take(at as int), name, score) + all.skip(
                at as int,
            ),
        decreases at,
    {
        let ghost shorter = all.take(at as int);
        assert(shorter.last() == all[at - 1]);
        assert(shorter.drop_last() =~= all.take(at - 1));
        assert(all[at - 1].text == results@[at - 1].text@);
        let other: Vec<char> = chars_of(results[at - 1].text.as_str());
        if same_chars(other.as_slice(), chars.as_slice()) {
            let joined: F64 = f.log_add_exp(results[at - 1].score, score);
            results[at - 1].score = joined;
            proof {
                let c = CandidateView { text: name, score: joined };
                assert(put(m, shorter, name, score) =~= all.take(at - 1).push(c));
                assert(candidates_view(results@) =~= all.take(at - 1).push(c) + all.skip(
                    at as int,
                ));
            }
            return ;
        }
        if !chars_less(chars.as_slice(), other.as_slice()) {
            results.insert(at, Candidate { text, score });
            proof {
                let c = CandidateView { text: name, score };
                assert(put(m, shorter, name, score) =~= shorter.push(c));
                assert(candidates_view(results@) =~= shorter.push(c) + all.skip(at as int));
            }
            return ;
        }
        proof {
            assert(put(m, shorter, name, score) =~= put(
                m,
                all.take(at - 1),
                name,
                score,
            ).push(all[at - 1]));
            assert(put(m, all.take(at - 1), name, score).push(all[at - 1]) + all.skip(at as int)
                =~= put(m, all.take(at - 1), name, score) + all.skip(at - 1));
        }
        at -= 1;
    }
    results.insert(0, Candidate { text, score });
    proof {
        let c = CandidateView { text: name, score };
        assert(candidates_view(results@) =~= seq![c] + all.skip(0));
    }
}

/// What tokens print.
fn print_tokens(alphabet: &Alphabet, tokens: &Vec<usize>) -> (r: String)
    requires
        forall|k: int|
            0 <= k < tokens@.len() ==> (#[trigger] tokens@[k]) < alphabet.texts@.len(),
    ensures
        r@ == printed(alphabet@.texts, tokens@),
{
    let mut text: String = String::new();
    let mut k: usize = 0;
    assert(text@ =~= printed(alphabet@.texts, tokens@.take(0)));
    while k < tokens.len()
        invariant
            k <= tokens@.len(),
            forall|k: int|
                0 <= k < tokens@.len() ==> (#[trigger] tokens@[k]) < alphabet.texts@.len(),
            text@ == printed(alphabet@.texts, tokens@.take(k as int)),
        decreases tokens@.len() - k,
    {
        assert(tokens@.take(k + 1).drop_last() =~= tokens@.take(k as int));
        assert(alphabet@.texts[tokens@[k as int] as int]
            == alphabet.texts@[tokens@[k as int] as int]@);
        text.append(rendered(alphabet.texts[tokens[k]].as_str()));
        k += 1;
    }
    assert(tokens@.take(k as int) =~= tokens@);
    text
}

/// The texts of a beam with their scores; none where a cost is broken.
fn gather<M: LanguageModel, E: Fn(F64) -> F64, L: Fn(F64) -> F64, T: Fn(F64) -> F64>(
    f: &Functions<E, L, T>,
    plan: &Plan<M>,
    beam: &Vec<Prefix<M::State>>,
) -> (r: Option<Vec<Candidate>>)
    requires
        f.wf(),
        is_good_beam(*plan, plan.alphabet.texts@.len(), prefixes_view(beam@)),
    ensures
        match (r, gathered(f.math(), *plan, prefixes_view(beam@), beam@.len())) {
            (Some(results), Some(wanted)) => candidates_view(results@) == wanted,
            (None, None) => true,
            _ => false,
        },
{
    let ghost m = f.math();
    let ghost bv = prefixes_view(beam@);
    let mut results: Vec<Candidate> = Vec::new();
    let mut i: usize = 0;
    assert(candidates_view(results@) =~= Seq::empty());
    while i < beam.len()
        invariant
            i <= beam@.len(),
            f.wf(),
            m == f.math(),
            bv == prefixes_view(beam@),
            is_good_beam(*plan, plan.alphabet.texts@.len(), bv),
            gathered(m, *plan, bv, i as nat) == Some(candidates_view(results@)),
        decreases beam@.len() - i,
    {
        let h: &Prefix<M::State> = &beam[i];
        assert(h@ == bv[i as int]);
        assert(is_good(*plan, plan.alphabet.texts@.len(), bv[i as int]));
        let cost: F64 = match plan.lm {
            None => F64 { bits: 0 },
            Some(lm) => lm.finish(h.state.unwrap()),
        };
        if validate_cost(cost).is_err() {
            proof {
                assert(gathered(m, *plan, bv, (i + 1) as nat) is None);
                lemma_gathered_broken(m, *plan, bv, (i + 1) as nat, bv.len());
            }
            return None;
        }
        if cost.bits != TOP64 {
            assert forall|k: int| 0 <= k < h.tokens@.len() implies (#[trigger] h.tokens@[k])
                < plan.alphabet.texts@.len() by {
                assert(bv[i as int].tokens[k] < plan.alphabet.texts@.len());
            }
            let text: String = print_tokens(plan.alphabet, &h.tokens);
            let score: F64 = h.score(f).minus(plan.lm_weight.times(cost));
            put_result(f, &mut results, text, score);
        }
        i += 1;
    }
    Some(results)
}

proof fn lemma_gathered_broken<L: LanguageModel>(
    m: LogMath,
    plan: Plan<L>,
    beam: Seq<PrefixView<L::State>>,
    k: nat,
    n: nat,
)
    requires
        gathered(m, plan, beam, k) is None,
        k <= n,
    ensures
        gathered(m, plan, beam, n) is None,
    decreases n,
{
    if k < n {
        lemma_gathered_broken(m, plan, beam, k, (n - 1) as nat);
    }
}

/// The best of the results.
fn take_best(results: &Vec<Candidate>, nbest: usize) -> (r: Vec<Candidate>)
    ensures
        candidates_view(r@) == best_candidates(candidates_view(results@), nbest as nat),
{
    let ghost all = candidates_view(results@);
    let mut keys: Vec<i64> = Vec::new();
    let mut i: usize = 0;
    while i < results.len()
        invariant
            i <= results@.len(),
            keys@.len() == i,
            forall|k: int| 0 <= k < i ==> #[trigger] keys@[k] == standing(results@[k].score),
        decreases results@.len() - i,
    {
        keys.push(standing_of(results[i].score));
        i += 1;
    }
    assert(keys_view(keys@) =~= all.map_values(|c: CandidateView| standing(c.score)));
    let order: Vec<usize> = rank(&keys, nbest);
    let ghost places = places_view(order@);
    let mut out: Vec<Candidate> = Vec::new();
    i = 0;
    while i < order.len()
        invariant
            i <= order@.len(),
            all == candidates_view(results@),
            places == places_view(order@),
            forall|a: int| 0 <= a < order@.len() ==> (#[trigger] order@[a]) < results@.len(),
            candidates_view(out@) =~= places.take(i as int).map_values(|k: int| all[k]),
        decreases order@.len() - i,
    {
        let c: &Candidate = &results[order[i]];
        let ghost before = candidates_view(out@);
        out.push(Candidate { text: String::from_str(c.text.as_str()), score: c.score });
        proof {
            assert(candidates_view(out@) =~= before.push(all[order@[i as int] as int]));
            assert(places.take(i + 1) =~= places.take(i as int).push(places[i as int]));
        }
        i += 1;
    }
    assert(places.take(i as int) =~= places);
    out
}

/// Log probabilities, each multiplied by a scale.
pub open spec fn scaled(probs: Seq<F64>, scale: F64) -> Seq<F64> {
    if scale.bits == 0x3ff0_0000_0000_0000 {
        probs
    } else {
        probs.map_values(|p: F64| p.product(scale))
    }
}

fn scale_all(probs: Vec<F64>, scale: F64) -> (r: Vec<F64>)
    ensures
        r@ == scaled(probs@, scale),
{
    if scale.bits == 0x3ff0_0000_0000_0000 {
        return probs;
    }
    let mut out: Vec<F64> = Vec::new();
    let mut i: usize = 0;
    while i < probs.len()
        invariant
            i <= probs@.len(),
            out@.len() == i,
            forall|k: int| 0 <= k < i ==> #[trigger] out@[k] == probs@[k].product(scale),
        decreases probs@.len() - i,
    {
        out.push(probs[i].times(scale));
        i += 1;
    }
    assert(out@ =~= scaled(probs@, scale));
    out
}

/// What is wrong with the input of a search.
pub open spec fn search_problem(
    logits: MatView,
    alphabet: AlphabetView,
    settings: DecoderSettings,
    nbest: usize,
) -> Option<Seq<char>> {
    if settings.beam_width == 0 || nbest == 0 {
        Some("beam_width and nbest must be positive"@)
    } else if !settings.lm_weight.finite() || !settings.insertion_bonus.finite() {
        Some("lm_weight and insertion_bonus must be finite"@)
    } else if !settings.acoustic_scale.finite() || settings.acoustic_scale.rank() <= 0 {
        Some("acoustic_scale must be finite and positive, got "@ + settings.acoustic_scale.text())
    } else {
        decode_problem(logits, alphabet)
    }
}

/// What a beam search finds in logits, or what is wrong with its input.
pub open spec fn search_result<M: LanguageModel>(
    m: LogMath,
    logits: MatView,
    alphabet: &Alphabet,
    lm: Option<&M>,
    settings: DecoderSettings,
    nbest: usize,
) -> Result<Seq<CandidateView>, ErrorView> {
    match search_problem(logits, alphabet@, settings, nbest) {
        Some(g) => Err(ErrorView::Invalid(g)),
        None => match found(
            m,
            Plan {
                alphabet,
                lm,
                lm_weight: settings.lm_weight,
                insertion_bonus: settings.insertion_bonus,
            },
            scaled(log_probs(m, logits), settings.acoustic_scale),
            logits.rows,
            logits.cols,
            settings.beam_width as nat,
            nbest as nat,
        ) {
            Some(wanted) => Ok(wanted),
            None => Err(ErrorView::Invalid("LM costs must be finite or +inf (rejection)"@)),
        },
    }
}

/// CTC prefix beam search with optional shallow fusion.
///
/// ```text
/// score = log(sum over retained paths of exp(acoustic_scale * path log prob))
///       - lm_weight * (incremental LM costs + final cost)
///       + insertion_bonus * emitted nonblank tokens
/// ```
///
/// `acoustic_scale` multiplies the per-frame log probabilities *before* the
/// alignment sum. It cannot be folded into the weights instead, since this search
/// sums over alignments: `a * logsumexp(x)` is not `logsumexp(a * x)`.
///
/// `char_class_weight` belongs to [`crate::decoder::CharClassRescoringLm`], not
/// to this search: an arbitrary language model need not have a character-class
/// table.
pub fn prefix_beam_search<
    M: LanguageModel,
    E: Fn(F64) -> F64,
    L: Fn(F64) -> F64,
    T: Fn(F64) -> F64,
>(
    logits: &Mat,
    alphabet: &Alphabet,
    lm: Option<&M>,
    settings: &DecoderSettings,
    nbest: usize,
    f: &Functions<E, L, T>,
) -> (r: Result<Vec<Candidate>, Error>)
    requires
        f.wf(),
    ensures
        match (r, search_result(f.math(), logits@, alphabet, lm, *settings, nbest)) {
            (Ok(c), Ok(wanted)) => candidates_view(c@) == wanted,
            (Err(e), Err(g)) => e@ == g,
            _ => false,
        },
{
    if settings.beam_width == 0 || nbest == 0 {
        return Err(invalid("beam_width and nbest must be positive"));
    }
    if !settings.lm_weight.is_finite() || !settings.insertion_bonus.is_finite() {
        return Err(invalid("lm_weight and insertion_bonus must be finite"));
    }
    if !settings.acoustic_scale.is_finite() || !settings.acoustic_scale.is_positive() {
        let mut s: String = String::from_str("acoustic_scale must be finite and positive, got ");
        settings.acoustic_scale.push_text(&mut s);
        return Err(Error::Invalid(s));
    }
    let probs: Vec<F64> = scale_all(log_softmax(logits, f)?, settings.acoustic_scale);
    check_alphabet(alphabet, logits.cols())?;
    let plan: Plan<M> = Plan {
        alphabet,
        lm,
        lm_weight: settings.lm_weight,
        insertion_bonus: settings.insertion_bonus,
    };
    match search(f, &plan, &probs, logits.rows(), logits.cols(), settings.beam_width) {
        None => Err(invalid("LM costs must be finite or +inf (rejection)")),
        Some(results) => Ok(take_best(&results, nbest)),
    }
}

/// All texts that a search finds; none where a cost is broken.
fn search<M: LanguageModel, E: Fn(F64) -> F64, L: Fn(F64) -> F64, T: Fn(F64) -> F64>(
    f: &Functions<E, L, T>,
    plan: &Plan<M>,
    probs: &Vec<F64>,
    rows: usize,
    cols: usize,
    width: usize,
) -> (r: Option<Vec<Candidate>>)
    requires
        f.wf(),
        probs@.len() == rows * cols,
        plan.alphabet.blank < cols,
        plan.alphabet.labels@.len() == cols,
        plan.alphabet.texts@.len() == cols,
        width > 0,
    ensures
        match beam_at(f.math(), *plan, probs@, cols as nat, width as nat, rows as nat) {
            None => r is None,
            Some(beam) => match (r, gathered(f.math(), *plan, beam, beam.len())) {
                (Some(results), Some(wanted)) => candidates_view(results@) == wanted,
                (None, None) => true,
                _ => false,
            },
        },
{
    let ghost m = f.math();
    let start: Option<M::State> = match plan.lm {
        None => None,
        Some(lm) => Some(lm.start()),
    };
    let mut beam: Vec<Prefix<M::State>> = Vec::new();
    beam.push(
        Prefix {
            tokens: Vec::new(),
            state: start,
            offset: F64 { bits: 0 },
            p_blank: F64 { bits: 0 },
            p_nonblank: nothing(),
        },
    );
    assert(beam@[0].tokens@ =~= Seq::empty());
    assert(prefixes_view(beam@) =~= seq![plan.start()]);
    let mut t: usize = 0;
    while t < rows
        invariant
            t <= rows,
            f.wf(),
            m == f.math(),
            probs@.len() == rows * cols,
            plan.alphabet.blank < cols,
            plan.alphabet.labels@.len() == cols,
            width > 0,
            beam_at(m, *plan, probs@, cols as nat, width as nat, t as nat) == Some(
                prefixes_view(beam@),
            ),
        decreases rows - t,
    {
        let frame: &[F64] = frame_at(probs, rows, cols, t);
        proof {
            lemma_beam_good(
                m,
                *plan,
                probs@,
                rows as nat,
                cols as nat,
                width as nat,
                t as nat,
            );
        }
        match fan(f, plan, frame, &beam) {
            None => {
                proof {
                    lemma_beam_broken(
                        m,
                        *plan,
                        probs@,
                        cols as nat,
                        width as nat,
                        (t + 1) as nat,
                        rows as nat,
                    );
                }
                return None;
            },
            Some(next) => {
                beam = prune_beam(f, &next, width);
            },
        }
        t += 1;
    }
    proof {
        lemma_beam_good(m, *plan, probs@, rows as nat, cols as nat, width as nat, rows as nat);
    }
    gather(f, plan, &beam)
}

proof fn lemma_beam_broken<L: LanguageModel>(
    m: LogMath,
    plan: Plan<L>,
    probs: Seq<F64>,
    cols: nat,
    width: nat,
    k: nat,
    n: nat,
)
    requires
        beam_at(m, plan, probs, cols, width, k) is None,
        k <= n,
    ensures
        beam_at(m, plan, probs, cols, width, n) is None,
    decreases n,
{
    if k < n {
        lemma_beam_broken(m, plan, probs, cols, width, k, (n - 1) as nat);
    }
}

/// Results come in the order of their texts, no text twice.
pub open spec fn in_text_order(results: Seq<CandidateView>) -> bool {
    forall|i: int, j: int|
        0 <= i < j < results.len() ==> text_less(
            (#[trigger] results[i]).text,
            (#[trigger] results[j]).text,
        )
}

proof fn lemma_put_order(m: LogMath, results: Seq<CandidateView>, text: Seq<char>, score: F64)
    requires
        in_text_order(results),
    ensures
        in_text_order(put(m, results, text, score)),
        forall|i: int|
            0 <= i < put(m, results, text, score).len() ==> (#[trigger] put(
                m,
                results,
                text,
                score,
            )[i]).text == text || exists|j: int|
                0 <= j < results.len() && (#[trigger] results[j]).text == put(
                    m,
                    results,
                    text,
                    score,
                )[i].text,
    decreases results.len(),
{
    let out = put(m, results, text, score);
    if results.len() > 0 {
        let last = results.last();
        let rest = results.drop_last();
        assert(in_text_order(rest)) by {
            assert forall|i: int, j: int| 0 <= i < j < rest.len() implies text_less(
                (#[trigger] rest[i]).text,
                (#[trigger] rest[j]).text,
            ) by {
                assert(text_less(results[i].text, results[j].text));
            }
        }
        if last.text == text {
            assert forall|i: int, j: int| 0 <= i < j < out.len() implies text_less(
                (#[trigger] out[i]).text,
                (#[trigger] out[j]).text,
            ) by {
                assert(text_less(results[i].text, results[j].text));
            }
            assert forall|i: int| 0 <= i < out.len() implies (#[trigger] out[i]).text == text
                || exists|j: int|
                0 <= j < results.len() && (#[trigger] results[j]).text == out[i].text by {
                assert(results[i].text == out[i].text);
            }
        } else if text_less(text, last.text) {
            lemma_put_order(m, rest, text, score);
            let before = put(m, rest, text, score);
            assert forall|i: int| 0 <= i < before.len() implies text_less(
                (#[trigger] before[i]).text,
                last.text,
            ) by {
                if before[i].text != text {
                    let j = choose|j: int|
                        0 <= j < rest.len() && (#[trigger] rest[j]).text == before[i].text;
                    assert(text_less(results[j].text, results[results.len() - 1].text));
                }
            }
            assert forall|i: int, j: int| 0 <= i < j < out.len() implies text_less(
                (#[trigger] out[i]).text,
                (#[trigger] out[j]).text,
            ) by {
                assert(out[i] == before[i]);
                if j < before.len() {
                    assert(out[j] == before[j]);
                }
            }
            assert forall|i: int| 0 <= i < out.len() implies (#[trigger] out[i]).text == text
                || exists|j: int|
                0 <= j < results.len() && (#[trigger] results[j]).text == out[i].text by {
                if i < before.len() {
                    assert(out[i] == before[i]);
                    if before[i].text != text {
                        let j = choose|j: int|
                            0 <= j < rest.len() && (#[trigger] rest[j]).text == before[i].text;
                        assert(results[j].text == out[i].text);
                    }
                } else {
                    assert(results[results.len() - 1].text == out[i].text);
                }
            }
        } else {
            lemma_text_less_total(last.text, text);
            assert forall|i: int, j: int| 0 <= i < j < out.len() implies text_less(
                (#[trigger] out[i]).text,
                (#[trigger] out[j]).text,
            ) by {
                if j < results.len() {
                    assert(text_less(results[i].text, results[j].text));
                } else if i < results.len() - 1 {
                    assert(text_less(results[i].text, results[results.len() - 1].text));
                    lemma_text_less_transitive(results[i].text, last.text, text);
                }
            }
            assert forall|i: int| 0 <= i < out.len() implies (#[trigger] out[i]).text == text
                || exists|j: int|
                0 <= j < results.len() && (#[trigger] results[j]).text == out[i].text by {
                if i < results.len() {
                    assert(results[i].text == out[i].text);
                }
            }
        }
    }
}

proof fn lemma_gathered_order<L: LanguageModel>(
    m: LogMath,
    plan: Plan<L>,
    beam: Seq<PrefixView<L::State>>,
    k: nat,
)
    requires
        k <= beam.len(),
    ensures
        gathered(m, plan, beam, k) is Some ==> {
            let results = gathered(m, plan, beam, k)->0;
            &&& in_text_order(results)
            &&& forall|i: int|
                0 <= i < results.len() ==> exists|s: int|
                    0 <= s < k && printed(plan.alphabet@.texts, (#[trigger] beam[s]).tokens) == (
                    #[trigger] results[i]).text
        },
    decreases k,
{
    if k > 0 {
        lemma_gathered_order(m, plan, beam, (k - 1) as nat);
        if let Some(before) = gathered(m, plan, beam, (k - 1) as nat) {
            let h = beam[k - 1];
            let text = printed(plan.alphabet@.texts, h.tokens);
            let cost = plan.end_cost(h.state);
            let score = h.score(m).difference(plan.lm_weight.product(cost));
            lemma_put_order(m, before, text, score);
            if let Some(results) = gathered(m, plan, beam, k) {
                assert forall|i: int| 0 <= i < results.len() implies exists|s: int|
                    0 <= s < k && printed(plan.alphabet@.texts, (#[trigger] beam[s]).tokens) == (
                    #[trigger] results[i]).text by {
                    if results == before {
                        let s = choose|s: int|
                            0 <= s < k - 1 && printed(
                                plan.alphabet@.texts,
                                (#[trigger] beam[s]).tokens,
                            ) == before[i].text;
                        assert(printed(plan.alphabet@.texts, beam[s].tokens) == results[i].text);
                    } else if results[i].text == text {
                        assert(printed(plan.alphabet@.texts, beam[k - 1].tokens)
                            == results[i].text);
                    } else {
                        let j = choose|j: int|
                            0 <= j < before.len() && (#[trigger] before[j]).text
                                == results[i].text;
                        let s = choose|s: int|
                            0 <= s < k - 1 && printed(
                                plan.alphabet@.texts,
                                (#[trigger] beam[s]).tokens,
                            ) == before[j].text;
                        assert(printed(plan.alphabet@.texts, beam[s].tokens) == results[i].text);
                    }
                }
            }
        }
    }
}

/// Whether a candidate comes before another: by a better score, or at the same
/// score by its text.
pub open spec fn ranks_before(a: CandidateView, b: CandidateView) -> bool {
    standing(a.score) > standing(b.score) || (standing(a.score) == standing(b.score) && text_less(
        a.text,
        b.text,
    ))
}

/// A search finds no more candidates than wanted, the best score first and equal
/// scores in the order of texts; so no text comes twice.
pub proof fn lemma_candidates_ranked<L: LanguageModel>(
    m: LogMath,
    plan: Plan<L>,
    probs: Seq<F64>,
    rows: nat,
    cols: nat,
    width: nat,
    nbest: nat,
)
    ensures
        found(m, plan, probs, rows, cols, width, nbest) is Some ==> {
            let out = found(m, plan, probs, rows, cols, width, nbest)->0;
            &&& out.len() <= nbest
            &&& forall|i: int, j: int|
                0 <= i < j < out.len() ==> ranks_before(#[trigger] out[i], #[trigger] out[j])
            &&& forall|i: int, j: int|
                0 <= i < j < out.len() ==> (#[trigger] out[i]).text != (#[trigger] out[j]).text
        },
{
    if let Some(beam) = beam_at(m, plan, probs, cols, width, rows) {
        lemma_gathered_order(m, plan, beam, beam.len());
        if let Some(results) = gathered(m, plan, beam, beam.len()) {
            let keys = results.map_values(|c: CandidateView| standing(c.score));
            lemma_ranking(keys);
            let order = ranking(keys);
            let out = best_candidates(results, nbest);
            let kept = first_places(order, nbest);
            assert forall|i: int, j: int| 0 <= i < j < out.len() implies ranks_before(
                #[trigger] out[i],
                #[trigger] out[j],
            ) && out[i].text != out[j].text by {
                let (x, y) = (order[i], order[j]);
                assert(kept[i] == x && kept[j] == y);
                assert(crate::ranking::ahead(keys, x, y));
                if x < y {
                    assert(text_less(results[x].text, results[y].text));
                } else {
                    assert(text_less(results[y].text, results[x].text));
                }
                lemma_text_less_irreflexive(results[x].text);
            }
        }
    }
}

/// Whether a path of `t` frames, of so many classes, reads tokens.
pub open spec fn is_reading(
    blank: usize,
    cols: nat,
    t: nat,
    tokens: Seq<usize>,
    path: Seq<usize>,
) -> bool {
    &&& path.len() == t
    &&& forall|k: int| 0 <= k < path.len() ==> (#[trigger] path[k]) < cols
    &&& collapse(path, blank) == tokens
}

/// Whether some path of `t` frames reads the tokens, and some that ends in a blank
/// where the hypothesis has mass for that.
spec fn is_read<S>(blank: usize, cols: nat, t: nat, p: PrefixView<S>) -> bool {
    &&& exists|path: Seq<usize>| #[trigger] is_reading(blank, cols, t, p.tokens, path)
    &&& p.tokens.len() > 0 && p.p_blank != void() ==> exists|path: Seq<usize>| #[trigger]
        is_reading(blank, cols, t, p.tokens, path) && path.len() > 0 && path.last() == blank
}

spec fn all_read<S>(blank: usize, cols: nat, t: nat, next: Seq<PrefixView<S>>) -> bool {
    forall|s: int| 0 <= s < next.len() ==> is_read(blank, cols, t, #[trigger] next[s])
}

pub(crate) proof fn lemma_path_end(path: Seq<usize>, blank: usize)
    ensures
        path.len() > 0 && path.last() != blank ==> collapse(path, blank).len() > 0 && collapse(
            path,
            blank,
        ).last() == path.last(),
    decreases path.len(),
{
    if path.len() > 0 && path.last() != blank {
        lemma_path_end(path.drop_last(), blank);
        if path.len() >= 2 {
            assert(path.drop_last().last() == path[path.len() - 2]);
        }
    }
}

proof fn lemma_read_more<S>(
    blank: usize,
    cols: nat,
    t: nat,
    h: PrefixView<S>,
    path: Seq<usize>,
    index: usize,
)
    requires
        is_reading(blank, cols, t, h.tokens, path),
        index < cols,
    ensures
        index == blank ==> is_reading(blank, cols, t + 1, h.tokens, path.push(index)),
        index != blank && (h.tokens.len() == 0 || h.tokens.last() != index || (path.len() > 0
            && path.last() == blank)) ==> is_reading(
            blank,
            cols,
            t + 1,
            h.tokens.push(index),
            path.push(index),
        ),
{
    let longer = path.push(index);
    assert(longer.drop_last() =~= path);
    assert(longer.last() == index);
    lemma_path_end(path, blank);
    if path.len() > 0 {
        assert(longer[longer.len() - 2] == path.last());
    } else {
        assert(h.tokens =~= Seq::empty());
    }
}

proof fn lemma_stay_read<S>(
    m: LogMath,
    blank: usize,
    frame: Seq<F64>,
    next: Seq<PrefixView<S>>,
    h: PrefixView<S>,
    t: nat,
)
    requires
        all_read(blank, frame.len(), t + 1, next),
        is_read(blank, frame.len(), t, h),
        blank < frame.len(),
    ensures
        all_read(blank, frame.len(), t + 1, stay(m, blank, frame, next, h)),
{
    let cols = frame.len();
    let path = choose|path: Seq<usize>| #[trigger] is_reading(blank, cols, t, h.tokens, path);
    lemma_read_more(blank, cols, t, h, path, blank);
    let longer = path.push(blank);
    assert(is_reading(blank, cols, t + 1, h.tokens, longer));
    assert(longer.len() > 0 && longer.last() == blank);
    lemma_find(next, h.tokens);
    let out = stay(m, blank, frame, next, h);
    assert forall|s: int| 0 <= s < out.len() implies is_read(
        blank,
        cols,
        t + 1,
        #[trigger] out[s],
    ) by {
        if out[s].tokens == h.tokens {
            assert(is_read(blank, cols, t + 1, out[s]));
        } else {
            assert(is_read(blank, cols, t + 1, next[s]));
            assert(out[s] == next[s]);
        }
    }
}

proof fn lemma_extend_read<L: LanguageModel>(
    m: LogMath,
    plan: Plan<L>,
    frame: Seq<F64>,
    next: Seq<PrefixView<L::State>>,
    h: PrefixView<L::State>,
    index: usize,
    t: nat,
)
    requires
        all_read(plan.alphabet.blank, frame.len(), t + 1, next),
        is_read(plan.alphabet.blank, frame.len(), t, h),
        index < frame.len(),
    ensures
        extend_by(m, plan, frame, next, h, index) is Some ==> all_read(
            plan.alphabet.blank,
            frame.len(),
            t + 1,
            extend_by(m, plan, frame, next, h, index)->0,
        ),
{
    let blank = plan.alphabet.blank;
    let cols = frame.len();
    let source = source_mass(m, h, index);
    if index != blank && frame[index as int] != void() && source != void() {
        let tokens = h.tokens.push(index);
        let path = if h.tokens.len() > 0 && h.tokens.last() == index {
            choose|path: Seq<usize>| #[trigger]
                is_reading(blank, cols, t, h.tokens, path) && path.len() > 0 && path.last()
                    == blank
        } else {
            choose|path: Seq<usize>| #[trigger] is_reading(blank, cols, t, h.tokens, path)
        };
        lemma_read_more(blank, cols, t, h, path, index);
        assert(is_reading(blank, cols, t + 1, tokens, path.push(index)));
        lemma_find(next, tokens);
        if let Some(out) = extend_by(m, plan, frame, next, h, index) {
            assert forall|s: int| 0 <= s < out.len() implies is_read(
                blank,
                cols,
                t + 1,
                #[trigger] out[s],
            ) by {
                if s < next.len() {
                    assert(is_read(blank, cols, t + 1, next[s]));
                    assert(out[s].tokens == next[s].tokens);
                    assert(out[s].p_blank == next[s].p_blank);
                } else {
                    assert(out[s].tokens == tokens);
                    assert(out[s].p_blank == void());
                    assert(is_reading(blank, cols, t + 1, out[s].tokens, path.push(index)));
                }
            }
        }
    }
}

proof fn lemma_extend_upto_read<L: LanguageModel>(
    m: LogMath,
    plan: Plan<L>,
    frame: Seq<F64>,
    next: Seq<PrefixView<L::State>>,
    h: PrefixView<L::State>,
    n: nat,
    t: nat,
)
    requires
        all_read(plan.alphabet.blank, frame.len(), t + 1, next),
        is_read(plan.alphabet.blank, frame.len(), t, h),
        n <= frame.len(),
        n <= usize::MAX,
    ensures
        extend_upto(m, plan, frame, next, h, n) is Some ==> all_read(
            plan.alphabet.blank,
            frame.len(),
            t + 1,
            extend_upto(m, plan, frame, next, h, n)->0,
        ),
    decreases n,
{
    if n > 0 {
        lemma_extend_upto_read(m, plan, frame, next, h, (n - 1) as nat, t);
        if let Some(before) = extend_upto(m, plan, frame, next, h, (n - 1) as nat) {
            lemma_extend_read(m, plan, frame, before, h, (n - 1) as usize, t);
        }
    }
}

proof fn lemma_fan_read<L: LanguageModel>(
    m: LogMath,
    plan: Plan<L>,
    frame: Seq<F64>,
    beam: Seq<PrefixView<L::State>>,
    k: nat,
    t: nat,
)
    requires
        all_read(plan.alphabet.blank, frame.len(), t, beam),
        plan.alphabet.blank < frame.len(),
        k <= beam.len(),
        frame.len() <= usize::MAX,
    ensures
        fan_out(m, plan, frame, beam, k) is Some ==> all_read(
            plan.alphabet.blank,
            frame.len(),
            t + 1,
            fan_out(m, plan, frame, beam, k)->0,
        ),
    decreases k,
{
    if k > 0 {
        lemma_fan_read(m, plan, frame, beam, (k - 1) as nat, t);
        if let Some(before) = fan_out(m, plan, frame, beam, (k - 1) as nat) {
            let h = beam[k - 1];
            lemma_stay_read(m, plan.alphabet.blank, frame, before, h, t);
            lemma_extend_upto_read(
                m,
                plan,
                frame,
                stay(m, plan.alphabet.blank, frame, before, h),
                h,
                frame.len(),
                t,
            );
        }
    }
}

proof fn lemma_beam_all_read<L: LanguageModel>(
    m: LogMath,
    plan: Plan<L>,
    probs: Seq<F64>,
    rows: nat,
    cols: nat,
    width: nat,
    t: nat,
)
    requires
        probs.len() == rows * cols,
        plan.alphabet.blank < cols,
        cols <= usize::MAX,
        t <= rows,
    ensures
        beam_at(m, plan, probs, cols, width, t) is Some ==> all_read(
            plan.alphabet.blank,
            cols,
            t,
            beam_at(m, plan, probs, cols, width, t)->0,
        ),
    decreases t,
{
    let blank = plan.alphabet.blank;
    if t == 0 {
        let start = plan.start();
        assert(collapse(Seq::empty(), blank) =~= start.tokens);
        assert(is_reading(blank, cols, 0, start.tokens, Seq::empty()));
        assert(is_read(blank, cols, 0, start));
    } else {
        lemma_beam_all_read(m, plan, probs, rows, cols, width, (t - 1) as nat);
        if let Some(beam) = beam_at(m, plan, probs, cols, width, (t - 1) as nat) {
            let frame = frame_of(probs, cols, t - 1);
            crate::mat::lemma_row_bounds(rows, cols, t - 1);
            assert(frame.len() == cols);
            lemma_fan_read(m, plan, frame, beam, beam.len(), (t - 1) as nat);
            if let Some(next) = fan_out(m, plan, frame, beam, beam.len()) {
                let keys = standings(m, next);
                lemma_ranking(keys);
                let kept = first_places(ranking(keys), width);
                let out = prune(m, next, width);
                assert forall|s: int| 0 <= s < out.len() implies is_read(
                    blank,
                    cols,
                    t,
                    #[trigger] out[s],
                ) by {
                    assert(kept[s] == ranking(keys)[s]);
                    assert(out[s] == next[kept[s]]);
                    assert(is_read(blank, cols, t, next[kept[s]]));
                }
            }
        }
    }
}

/// Every candidate is the text of tokens that some path, of one class per frame,
/// reads.
pub proof fn lemma_candidates_read<L: LanguageModel>(
    m: LogMath,
    plan: Plan<L>,
    probs: Seq<F64>,
    rows: nat,
    cols: nat,
    width: nat,
    nbest: nat,
)
    requires
        probs.len() == rows * cols,
        plan.alphabet.blank < cols,
        cols <= usize::MAX,
    ensures
        found(m, plan, probs, rows, cols, width, nbest) is Some ==> {
            let out = found(m, plan, probs, rows, cols, width, nbest)->0;
            forall|i: int|
                0 <= i < out.len() ==> exists|tokens: Seq<usize>, path: Seq<usize>|
                    #[trigger] is_reading(plan.alphabet.blank, cols, rows, tokens, path)
                        && printed(plan.alphabet@.texts, tokens) == (#[trigger] out[i]).text
        },
{
    let blank = plan.alphabet.blank;
    lemma_beam_all_read(m, plan, probs, rows, cols, width, rows);
    if let Some(beam) = beam_at(m, plan, probs, cols, width, rows) {
        lemma_gathered_order(m, plan, beam, beam.len());
        if let Some(results) = gathered(m, plan, beam, beam.len()) {
            let keys = results.map_values(|c: CandidateView| standing(c.score));
            lemma_ranking(keys);
            let kept = first_places(ranking(keys), nbest);
            let out = best_candidates(results, nbest);
            assert forall|i: int| 0 <= i < out.len() implies exists|
                tokens: Seq<usize>,
                path: Seq<usize>,
            | #[trigger]
                is_reading(blank, cols, rows, tokens, path) && printed(
                    plan.alphabet@.texts,
                    tokens,
                ) == (#[trigger] out[i]).text by {
                assert(kept[i] == ranking(keys)[i]);
                let c = results[kept[i]];
                assert(out[i] == c);
                let s = choose|s: int|
                    0 <= s < beam.len() && printed(
                        plan.alphabet@.texts,
                        (#[trigger] beam[s]).tokens,
                    ) == c.text;
                assert(is_read(blank, cols, rows, beam[s]));
                let path = choose|path: Seq<usize>| #[trigger]
                    is_reading(blank, cols, rows, beam[s].tokens, path);
                assert(is_reading(blank, cols, rows, beam[s].tokens, path));
            }
        }
    }
}

} // verus!
