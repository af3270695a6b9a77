//! The search of [`crate::beam`] as a reader of [`crate::paths`]: what it does with log
//! probabilities is what adds up all paths where adding and multiplying are exact.
use vstd::prelude::*;

use crate::beam::{
    beam_at, extend_by, extend_upto, fan_out, find_tokens, gathered, is_cost, prune, put,
    standings, stay, Advance, Plan, PrefixView,
};
use crate::decoder::{
    best_of, best_path, best_score, frame_of, lemma_best_of, lemma_best_range, printed,
    rendered_text, CandidateView,
};
use crate::float::{F64, TOP64};
use crate::lattice::Ring;
use crate::lm::LanguageModel;
use crate::logmath::{void, LogMath};
use crate::paths::{orders, place_of, rearranged, Hypothesis, Reader, Scored};
use crate::ranking::{first_places, lemma_ranking, ranking};

verus! {

/// Adding and multiplying of numbers that are given by their logarithms.
pub open spec fn log_ring(m: LogMath) -> Ring<F64> {
    Ring {
        none: void(),
        unit: F64 { bits: 0 },
        either: |a: F64, b: F64| m.log_add(a, b),
        both: |a: F64, b: F64| a.sum(b),
    }
}

/// The reader that a search over log probabilities is. With the tokens go the language
/// model's state and what the tokens have added to the score.
pub open spec fn log_reader<L: LanguageModel>(
    m: LogMath,
    plan: Plan<L>,
    probs: Seq<F64>,
    cols: nat,
) -> Reader<F64, (Option<L::State>, F64)> {
    Reader {
        ring: log_ring(m),
        p: |t: int, c: int| frame_of(probs, cols, t)[c],
        cols,
        blank: plan.alphabet.blank,
        first: (
            match plan.lm {
                None => None,
                Some(lm) => Some(lm.start_state()),
            },
            F64 { bits: 0 },
        ),
        take: |rest: (Option<L::State>, F64), index: usize|
            match plan.advance(rest.0, plan.alphabet.labels@[index as int]) {
                Advance::Taken(state, cost) => Some(
                    (
                        state,
                        rest.1.difference(plan.lm_weight.product(cost)).sum(plan.insertion_bonus),
                    ),
                ),
                _ => None,
            },
    }
}

/// A hypothesis of a search as one of a reader.
pub open spec fn plain<S>(h: PrefixView<S>) -> Hypothesis<F64, (Option<S>, F64)> {
    Hypothesis {
        tokens: h.tokens,
        rest: (h.state, h.offset),
        p_blank: h.p_blank,
        p_nonblank: h.p_nonblank,
    }
}

/// Hypotheses of a search as those of a reader.
pub open spec fn all_plain<S>(beam: Seq<PrefixView<S>>) -> Seq<
    Hypothesis<F64, (Option<S>, F64)>,
> {
    Seq::new(beam.len(), |i: int| plain(beam[i]))
}

proof fn lemma_plain_place<S>(next: Seq<PrefixView<S>>, tokens: Seq<usize>)
    ensures
        place_of(all_plain(next), tokens) == find_tokens(next, tokens),
        match find_tokens(next, tokens) {
            Some(i) => 0 <= i < next.len(),
            None => true,
        },
    decreases next.len(),
{
    if next.len() > 0 && next.last().tokens != tokens {
        assert(all_plain(next).drop_last() =~= all_plain(next.drop_last()));
        lemma_plain_place(next.drop_last(), tokens);
    }
}

proof fn lemma_plain_stay<L: LanguageModel>(
    m: LogMath,
    plan: Plan<L>,
    probs: Seq<F64>,
    cols: nat,
    t: int,
    next: Seq<PrefixView<L::State>>,
    h: PrefixView<L::State>,
)
    ensures
        all_plain(stay(m, plan.alphabet.blank, frame_of(probs, cols, t), next, h)) == log_reader(
            m,
            plan,
            probs,
            cols,
        ).stay(t, all_plain(next), plain(h)),
{
    let reader = log_reader(m, plan, probs, cols);
    let kept = stay(m, plan.alphabet.blank, frame_of(probs, cols, t), next, h);
    lemma_plain_place(next, h.tokens);
    assert(all_plain(kept) =~= reader.stay(t, all_plain(next), plain(h)));
}

proof fn lemma_plain_extend<L: LanguageModel>(
    m: LogMath,
    plan: Plan<L>,
    probs: Seq<F64>,
    cols: nat,
    t: int,
    next: Seq<PrefixView<L::State>>,
    h: PrefixView<L::State>,
    index: usize,
)
    requires
        extend_by(m, plan, frame_of(probs, cols, t), next, h, index) is Some,
    ensures
        all_plain(extend_by(m, plan, frame_of(probs, cols, t), next, h, index)->0) == log_reader(
            m,
            plan,
            probs,
            cols,
        ).extend_by(t, all_plain(next), plain(h), index),
{
    let reader = log_reader(m, plan, probs, cols);
    let more = extend_by(m, plan, frame_of(probs, cols, t), next, h, index)->0;
    lemma_plain_place(next, h.tokens.push(index));
    assert(all_plain(more) =~= reader.extend_by(t, all_plain(next), plain(h), index));
}

proof fn lemma_plain_extend_upto<L: LanguageModel>(
    m: LogMath,
    plan: Plan<L>,
    probs: Seq<F64>,
    cols: nat,
    t: int,
    next: Seq<PrefixView<L::State>>,
    h: PrefixView<L::State>,
    n: nat,
)
    requires
        extend_upto(m, plan, frame_of(probs, cols, t), next, h, n) is Some,
    ensures
        all_plain(extend_upto(m, plan, frame_of(probs, cols, t), next, h, n)->0) == log_reader(
            m,
            plan,
            probs,
            cols,
        ).extend_upto(t, all_plain(next), plain(h), n),
    decreases n,
{
    if n > 0 {
        let frame = frame_of(probs, cols, t);
        let before = extend_upto(m, plan, frame, next, h, (n - 1) as nat)->0;
        lemma_plain_extend_upto(m, plan, probs, cols, t, next, h, (n - 1) as nat);
        lemma_plain_extend(m, plan, probs, cols, t, before, h, (n - 1) as usize);
    }
}

proof fn lemma_plain_fan<L: LanguageModel>(
    m: LogMath,
    plan: Plan<L>,
    probs: Seq<F64>,
    cols: nat,
    t: int,
    beam: Seq<PrefixView<L::State>>,
    k: nat,
)
    requires
        frame_of(probs, cols, t).len() == cols,
        k <= beam.len(),
        fan_out(m, plan, frame_of(probs, cols, t), beam, k) is Some,
    ensures
        all_plain(fan_out(m, plan, frame_of(probs, cols, t), beam, k)->0) == log_reader(
            m,
            plan,
            probs,
            cols,
        ).fan_out(t, all_plain(beam), k),
    decreases k,
{
    let frame = frame_of(probs, cols, t);
    let reader = log_reader(m, plan, probs, cols);
    if k == 0 {
        assert(all_plain(fan_out(m, plan, frame, beam, k)->0) =~= Seq::empty());
    } else {
        let h = beam[k - 1];
        let before = fan_out(m, plan, frame, beam, (k - 1) as nat)->0;
        lemma_plain_fan(m, plan, probs, cols, t, beam, (k - 1) as nat);
        lemma_plain_stay(m, plan, probs, cols, t, before, h);
        let kept = stay(m, plan.alphabet.blank, frame, before, h);
        lemma_plain_extend_upto(m, plan, probs, cols, t, kept, h, cols);
        assert(all_plain(beam)[k - 1] == plain(h));
    }
}

proof fn lemma_plain_prune<S>(m: LogMath, next: Seq<PrefixView<S>>, width: nat)
    requires
        next.len() <= width,
    ensures
        rearranged(all_plain(next), all_plain(prune(m, next, width))),
{
    let keys = standings(m, next);
    let order = ranking(keys);
    lemma_ranking(keys);
    let kept = prune(m, next, width);
    assert(first_places(order, width) == order);
    let (a, b) = (all_plain(next), all_plain(kept));
    assert forall|i: int, j: int| 0 <= i < j < order.len() implies #[trigger] order[i]
        != #[trigger] order[j] by {
        assert(crate::ranking::ahead(keys, order[i], order[j]));
    }
    assert(orders(order, a, b));
}

/// Whether a search has dropped no hypothesis in its first `t` frames, and met no broken
/// cost.
pub open spec fn drops_nothing<L: LanguageModel>(
    m: LogMath,
    plan: Plan<L>,
    probs: Seq<F64>,
    cols: nat,
    width: nat,
    t: nat,
) -> bool {
    &&& beam_at(m, plan, probs, cols, width, t) is Some
    &&& forall|u: nat|
        u < t ==> {
            let beam = (#[trigger] beam_at(m, plan, probs, cols, width, u))->0;
            &&& beam_at(m, plan, probs, cols, width, u) is Some
            &&& fan_out(m, plan, frame_of(probs, cols, u as int), beam, beam.len())->0.len()
                <= width
        }
}

/// The hypotheses of a search from frame to frame.
pub open spec fn beams_upto<L: LanguageModel>(
    m: LogMath,
    plan: Plan<L>,
    probs: Seq<F64>,
    cols: nat,
    width: nat,
    t: nat,
) -> Seq<Seq<Hypothesis<F64, (Option<L::State>, F64)>>> {
    Seq::new(t + 1, |u: int| all_plain(beam_at(m, plan, probs, cols, width, u as nat)->0))
}

/// A search that drops nothing is a reader of the frames' log probabilities: it carries
/// its hypotheses from frame to frame as one does whose hypotheses hold, where adding and
/// multiplying are exact, the sums over all paths.
pub proof fn lemma_search_reads<L: LanguageModel>(
    m: LogMath,
    plan: Plan<L>,
    probs: Seq<F64>,
    rows: nat,
    cols: nat,
    width: nat,
    t: nat,
)
    requires
        probs.len() == rows * cols,
        t <= rows,
        drops_nothing(m, plan, probs, cols, width, t),
    ensures
        log_reader(m, plan, probs, cols).follows(beams_upto(m, plan, probs, cols, width, t)),
{
    let reader = log_reader(m, plan, probs, cols);
    let beams = beams_upto(m, plan, probs, cols, width, t);
    let first = beam_at(m, plan, probs, cols, width, 0)->0;
    assert(beams[0] == all_plain(first));
    assert(all_plain(first) =~= reader.start());
    assert forall|u: int| 0 <= u < beams.len() - 1 implies rearranged(
        reader.fan_out(u, #[trigger] beams[u], beams[u].len()),
        beams[u + 1],
    ) by {
        let v = u as nat;
        let beam = beam_at(m, plan, probs, cols, width, v)->0;
        assert(beam_at(m, plan, probs, cols, width, v) is Some);
        let frame = frame_of(probs, cols, u);
        crate::mat::lemma_row_bounds(rows, cols, u);
        assert(frame.len() == cols);
        assert(((v + 1) - 1) as nat == v);
        assert(beam_at(m, plan, probs, cols, width, v + 1) is Some);
        assert(fan_out(m, plan, frame, beam, beam.len()) is Some);
        let next = fan_out(m, plan, frame, beam, beam.len())->0;
        lemma_plain_fan(m, plan, probs, cols, u, beam, beam.len());
        lemma_plain_prune(m, next, width);
        assert(beams[u + 1] == all_plain(prune(m, next, width)));
        assert(beams[u] == all_plain(beam));
    }
}

/// How a search shows tokens.
pub open spec fn shown<L>(plan: Plan<L>) -> spec_fn(Seq<usize>) -> Seq<char> {
    |tokens: Seq<usize>| printed(plan.alphabet@.texts, tokens)
}

/// What a hypothesis counts in the end: its mass, what its tokens have added, and the
/// cost of the end; nothing where the language model refuses the end.
pub open spec fn closed<L: LanguageModel>(plan: Plan<L>) -> spec_fn(
    F64,
    (Option<L::State>, F64),
) -> Option<F64> {
    |mass: F64, rest: (Option<L::State>, F64)|
        {
            let cost = plan.end_cost(rest.0);
            if cost.bits == TOP64 {
                None
            } else {
                Some(mass.sum(rest.1).difference(plan.lm_weight.product(cost)))
            }
        }
}

/// Candidates as a reader's.
pub open spec fn scored(results: Seq<CandidateView>) -> Seq<Scored<F64>> {
    Seq::new(results.len(), |i: int| Scored { text: results[i].text, score: results[i].score })
}

proof fn lemma_plain_put<L: LanguageModel>(
    m: LogMath,
    plan: Plan<L>,
    probs: Seq<F64>,
    cols: nat,
    results: Seq<CandidateView>,
    text: Seq<char>,
    score: F64,
)
    ensures
        scored(put(m, results, text, score)) == log_reader(m, plan, probs, cols).put(
            scored(results),
            text,
            score,
        ),
    decreases results.len(),
{
    let reader = log_reader(m, plan, probs, cols);
    let out = put(m, results, text, score);
    if results.len() > 0 {
        assert(scored(results).drop_last() =~= scored(results.drop_last()));
        lemma_plain_put(m, plan, probs, cols, results.drop_last(), text, score);
    }
    assert(scored(out) =~= reader.put(scored(results), text, score));
}

/// What a search gathers in the end is what its reader gathers: each text once, with what
/// all its hypotheses count together where adding is exact.
pub proof fn lemma_search_gathers<L: LanguageModel>(
    m: LogMath,
    plan: Plan<L>,
    probs: Seq<F64>,
    cols: nat,
    beam: Seq<PrefixView<L::State>>,
    k: nat,
)
    requires
        k <= beam.len(),
        gathered(m, plan, beam, k) is Some,
    ensures
        scored(gathered(m, plan, beam, k)->0) == log_reader(m, plan, probs, cols).gather(
            shown(plan),
            closed(plan),
            all_plain(beam),
            k,
        ),
    decreases k,
{
    let reader = log_reader(m, plan, probs, cols);
    if k == 0 {
        assert(scored(gathered(m, plan, beam, k)->0) =~= Seq::empty());
    } else {
        let before = (k - 1) as nat;
        lemma_search_gathers(m, plan, probs, cols, beam, before);
        let results = gathered(m, plan, beam, before)->0;
        let h = beam[k - 1];
        let cost = plan.end_cost(h.state);
        assert(is_cost(cost));
        assert(all_plain(beam)[k - 1] == plain(h));
        lemma_plain_put(
            m,
            plan,
            probs,
            cols,
            results,
            printed(plan.alphabet@.texts, h.tokens),
            h.score(m).difference(plan.lm_weight.product(cost)),
        );
    }
}

/// The greedy reading follows one path and scores what that path weighs: at every frame a
/// class that is no less probable there than any other.
pub proof fn lemma_greedy_follows_best<L: LanguageModel>(
    m: LogMath,
    plan: Plan<L>,
    probs: Seq<F64>,
    rows: nat,
    cols: nat,
    n: nat,
)
    requires
        0 < cols <= usize::MAX,
        probs.len() == rows * cols,
        n <= rows,
        forall|i: int| 0 <= i < probs.len() ==> !(#[trigger] probs[i]).nan(),
    ensures
        best_score(probs, cols, n) == log_reader(m, plan, probs, cols).weight(
            best_path(probs, cols, n),
        ),
        best_path(probs, cols, n).len() == n,
        forall|t: int, c: int|
            0 <= t < n && 0 <= c < cols ==> !frame_of(probs, cols, t)[best_path(
                probs,
                cols,
                n,
            )[t] as int].below(#[trigger] frame_of(probs, cols, t)[c]),
    decreases n,
{
    let reader = log_reader(m, plan, probs, cols);
    let path = best_path(probs, cols, n);
    if n > 0 {
        lemma_greedy_follows_best(m, plan, probs, rows, cols, (n - 1) as nat);
        assert(path.drop_last() =~= best_path(probs, cols, (n - 1) as nat));
        let frame = frame_of(probs, cols, n - 1);
        lemma_best_range(frame, cols);
    }
    assert forall|t: int, c: int| 0 <= t < n && 0 <= c < cols implies !frame_of(
        probs,
        cols,
        t,
    )[path[t] as int].below(#[trigger] frame_of(probs, cols, t)[c]) by {
        let frame = frame_of(probs, cols, t);
        crate::mat::lemma_row_bounds(rows, cols, t);
        assert forall|i: int| 0 <= i < cols implies !(#[trigger] frame[i]).nan() by {
            assert(frame[i] == probs[t * cols + i]);
        }
        lemma_best_of(frame, cols);
        assert(frame[c].rank() <= frame[best_of(frame, cols) as int].rank());
    }
}

/// What is read in parts is shown as the parts' texts, one behind the other; and each
/// token as its own text.
pub proof fn lemma_shown_in_parts(texts: Seq<Seq<char>>, a: Seq<usize>, b: Seq<usize>)
    ensures
        printed(texts, a + b) == printed(texts, a) + printed(texts, b),
        b.len() == 1 ==> printed(texts, b) == rendered_text(texts[b[0] as int]),
    decreases b.len(),
{
    if b.len() == 0 {
        assert(a + b =~= a);
        assert(printed(texts, a) + printed(texts, b) =~= printed(texts, a));
    } else {
        assert((a + b).drop_last() =~= a + b.drop_last());
        lemma_shown_in_parts(texts, a, b.drop_last());
        assert(printed(texts, a + b) =~= printed(texts, a) + printed(texts, b));
        if b.len() == 1 {
            assert(b.drop_last() =~= Seq::empty());
            assert(printed(texts, b) =~= rendered_text(texts[b[0] as int]));
        }
    }
}

} // verus!
