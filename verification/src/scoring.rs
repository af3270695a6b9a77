//! What a character's class does to its score, and what the tables that say so mean.
use vstd::prelude::*;

use crate::classes::{class_of, class_score, holder, label_score, last_weight, members_from, stem};
use crate::decoder::{rendered_text, CharClassRescoringLm};
use crate::float::F64;
use crate::ink::StrokeView;
use crate::lm::LanguageModel;
use crate::order::{lemma_difference_moves, lemma_nothing_times, lemma_product_sign};
use crate::overlay::{shared, shared_before, Shift};

verus! {

/// A label has the score of the symbol that has it, whichever place the symbol has in the
/// alphabet; of several symbols with one label the last counts.
pub proof fn lemma_label_scored(
    classes: Seq<(Seq<char>, Seq<char>)>,
    weights: Seq<(Seq<char>, F64)>,
    labels: Seq<u32>,
    texts: Seq<Seq<char>>,
    i: int,
)
    requires
        labels.len() == texts.len(),
        0 <= i < labels.len(),
        forall|j: int| i < j < labels.len() ==> #[trigger] labels[j] != labels[i],
    ensures
        label_score(classes, weights, labels, texts, labels[i]) == class_score(
            classes,
            weights,
            texts[i],
        ),
    decreases labels.len(),
{
    if i < labels.len() - 1 {
        let (a, b) = (labels.drop_last(), texts.drop_last());
        assert(labels[labels.len() - 1] != labels[i]);
        assert forall|j: int| i < j < a.len() implies #[trigger] a[j] != a[i] by {
            assert(labels[j] != labels[i]);
        }
        lemma_label_scored(classes, weights, a, b, i);
    }
}

/// A label that no symbol has scores nothing.
pub proof fn lemma_unknown_label_unscored(
    classes: Seq<(Seq<char>, Seq<char>)>,
    weights: Seq<(Seq<char>, F64)>,
    labels: Seq<u32>,
    texts: Seq<Seq<char>>,
    label: u32,
)
    requires
        labels.len() == texts.len(),
        !labels.contains(label),
    ensures
        label_score(classes, weights, labels, texts, label) == (F64 { bits: 0 }),
    decreases labels.len(),
{
    if labels.len() > 0 {
        let (a, b) = (labels.drop_last(), texts.drop_last());
        assert(labels.contains(labels[labels.len() - 1]));
        assert(!a.contains(label)) by {
            if a.contains(label) {
                let j = choose|j: int| 0 <= j < a.len() && a[j] == label;
                assert(labels[j] == label);
            }
        }
        lemma_unknown_label_unscored(classes, weights, a, b, label);
    }
}

/// The class of a character is the last that lists it.
pub proof fn lemma_last_class_holds(classes: Seq<(Seq<char>, Seq<char>)>, c: char, i: int)
    requires
        0 <= i < classes.len(),
        members_from(classes[i].1, 0).contains(c),
        forall|j: int|
            i < j < classes.len() ==> !members_from((#[trigger] classes[j]).1, 0).contains(c),
    ensures
        holder(classes, c) == Some(i),
        class_of(classes, seq![c]) == stem(classes[i].0),
    decreases classes.len(),
{
    if i < classes.len() - 1 {
        let rest = classes.drop_last();
        assert(!members_from(classes[classes.len() - 1].1, 0).contains(c));
        assert(rest[i] == classes[i]);
        assert forall|j: int| i < j < rest.len() implies !members_from(
            (#[trigger] rest[j]).1,
            0,
        ).contains(c) by {
            assert(rest[j] == classes[j]);
        }
        lemma_last_class_holds(rest, c, i);
        assert(classes[holder(classes, c)->0] == classes[i]);
    }
}

/// A character that no class lists, and a symbol of more than one character, are of no
/// class.
pub proof fn lemma_no_class(classes: Seq<(Seq<char>, Seq<char>)>, text: Seq<char>)
    requires
        text.len() != 1 || forall|j: int|
            0 <= j < classes.len() ==> !members_from((#[trigger] classes[j]).1, 0).contains(
                text[0],
            ),
    ensures
        class_of(classes, text) == "no_char_class"@,
{
    if text.len() == 1 {
        lemma_no_holder(classes, text[0]);
    }
}

proof fn lemma_no_holder(classes: Seq<(Seq<char>, Seq<char>)>, c: char)
    requires
        forall|j: int|
            0 <= j < classes.len() ==> !members_from((#[trigger] classes[j]).1, 0).contains(c),
    ensures
        holder(classes, c) is None,
    decreases classes.len(),
{
    if classes.len() > 0 {
        let rest = classes.drop_last();
        assert(!members_from(classes[classes.len() - 1].1, 0).contains(c));
        assert forall|j: int| 0 <= j < rest.len() implies !members_from(
            (#[trigger] rest[j]).1,
            0,
        ).contains(c) by {
            assert(rest[j] == classes[j]);
        }
        lemma_no_holder(rest, c);
    }
}

/// A symbol's score is the weight that stands last under the name of its class, wherever
/// it stands.
pub proof fn lemma_weight_of_class(
    classes: Seq<(Seq<char>, Seq<char>)>,
    weights: Seq<(Seq<char>, F64)>,
    text: Seq<char>,
    i: int,
)
    requires
        0 <= i < weights.len(),
        weights[i].0 == class_of(classes, rendered_text(text)),
        forall|j: int| i < j < weights.len() ==> (#[trigger] weights[j]).0 != weights[i].0,
    ensures
        class_score(classes, weights, text) == weights[i].1,
{
    lemma_last_weight(weights, i);
}

proof fn lemma_last_weight(weights: Seq<(Seq<char>, F64)>, i: int)
    requires
        0 <= i < weights.len(),
        forall|j: int| i < j < weights.len() ==> (#[trigger] weights[j]).0 != weights[i].0,
    ensures
        last_weight(weights, weights[i].0) == Some(weights[i].1),
    decreases weights.len(),
{
    if i < weights.len() - 1 {
        let rest = weights.drop_last();
        assert(weights[weights.len() - 1].0 != weights[i].0);
        assert forall|j: int| i < j < rest.len() implies (#[trigger] rest[j]).0 != rest[i].0 by {
            assert(weights[j].0 != weights[i].0);
        }
        lemma_last_weight(rest, i);
    }
}

/// With a weight not below zero, a class that scores above zero never makes a label
/// dearer than its word cost alone, one that scores below zero never makes it cheaper, and
/// one that scores nothing leaves the cost. Classes decide nothing of where a label leads,
/// nor whether it is refused.
pub proof fn lemma_class_moves_cost<L: LanguageModel>(
    lm: CharClassRescoringLm<'_, L>,
    state: L::State,
    label: u32,
)
    requires
        lm.word_weight.finite(),
        lm.class_weight.finite(),
        !lm.class_weight.negative(),
        lm.class_score(label).finite(),
    ensures
        lm.word_lm.next_state(state, label) is None ==> lm.next_state(state, label) is None,
        lm.word_lm.next_state(state, label) matches Some((next, cost)) ==> {
            let out = lm.next_state(state, label);
            let word = lm.word_weight.product(cost);
            let (to, price) = out->0;
            &&& out is Some
            &&& to == next
            &&& !cost.finite() ==> price == cost
            &&& cost.finite() && word.finite() && lm.class_score(label).rank() >= 0
                ==> price.rank() <= word.rank()
            &&& cost.finite() && word.finite() && lm.class_score(label).rank() <= 0
                ==> price.rank() >= word.rank()
        },
{
    if let Some((next, cost)) = lm.word_lm.next_state(state, label) {
        let score = lm.class_score(label);
        let word = lm.word_weight.product(cost);
        if cost.finite() && word.finite() {
            lemma_product_sign(lm.class_weight, score);
            if score.index() == 0 {
                lemma_nothing_times(lm.class_weight, score);
            }
            lemma_difference_moves(word, lm.class_weight.product(score));
        }
    }
}

/// How many samples the first `n` strokes of two inks share.
pub open spec fn shared_count(before: Seq<StrokeView>, after: Seq<StrokeView>, n: int) -> nat
    decreases n,
{
    if n <= 0 {
        0
    } else {
        shared_count(before, after, n - 1) + shared(before[n - 1], after[n - 1]).len()
    }
}

proof fn lemma_shared_count(before: Seq<StrokeView>, after: Seq<StrokeView>, n: int)
    ensures
        shared_before(before, after, n).len() == shared_count(before, after, n),
    decreases n,
{
    if n > 0 {
        lemma_shared_count(before, after, n - 1);
    }
}

/// Two inks are compared sample by sample in every stroke: each sample with the one that
/// has its place in the other ink.
pub proof fn lemma_compared_everywhere(
    before: Seq<StrokeView>,
    after: Seq<StrokeView>,
    n: int,
    k: int,
    i: int,
)
    requires
        0 <= k < n <= before.len(),
        n <= after.len(),
        0 <= i < before[k].x.len(),
        i < after[k].x.len(),
    ensures
        shared_before(before, after, n).len() == shared_count(before, after, n),
        shared_count(before, after, k) + i < shared_before(before, after, n).len(),
        shared_before(before, after, n)[shared_count(before, after, k) + i] == (Shift {
            x1: before[k].x[i],
            y1: before[k].y[i],
            x2: after[k].x[i],
            y2: after[k].y[i],
        }),
    decreases n,
{
    lemma_shared_count(before, after, n);
    lemma_shared_count(before, after, n - 1);
    if k < n - 1 {
        lemma_compared_everywhere(before, after, n - 1, k, i);
    }
}

} // verus!
