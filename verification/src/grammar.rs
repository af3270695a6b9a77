//! A language model's arcs are what it is asked by: looking a label up finds the arc that
//! the state's arcs hold, and where there is none the backoff arc is followed.
use vstd::prelude::*;

use crate::float::F64;
use crate::fst::{merge_arcs, Arc, FstView};
use crate::trie::{ascending, stands_at};

verus! {

/// A merge holds what its parts hold and nothing else.
proof fn lemma_merge_holds(a: Seq<Arc>, b: Seq<Arc>, x: Arc)
    ensures
        merge_arcs(a, b).contains(x) <==> a.contains(x) || b.contains(x),
    decreases a.len() + b.len(),
{
    let out = merge_arcs(a, b);
    if a.len() > 0 && b.len() > 0 {
        let (head, tail, rest) = if a[0].ilabel < b[0].ilabel {
            lemma_merge_holds(a.drop_first(), b, x);
            lemma_first_or_rest(a, x);
            (a[0], merge_arcs(a.drop_first(), b), a)
        } else {
            lemma_merge_holds(a, b.drop_first(), x);
            lemma_first_or_rest(b, x);
            (b[0], merge_arcs(a, b.drop_first()), b)
        };
        assert(out == seq![head] + tail);
        assert(out.drop_first() =~= tail);
        lemma_first_or_rest(out, x);
    }
}

proof fn lemma_first_or_rest(a: Seq<Arc>, x: Arc)
    requires
        a.len() > 0,
    ensures
        a.contains(x) <==> a[0] == x || a.drop_first().contains(x),
{
    let rest = a.drop_first();
    if a.contains(x) {
        let i = choose|i: int| 0 <= i < a.len() && a[i] == x;
        if i > 0 {
            assert(rest[i - 1] == x);
        }
    }
    if rest.contains(x) {
        let i = choose|i: int| 0 <= i < rest.len() && rest[i] == x;
        assert(a[i + 1] == x);
    }
    if a[0] == x {
        assert(a.contains(a[0]));
    }
}

proof fn lemma_future_direct(v: FstView, s: int, i: int)
    requires
        v.wf(),
        0 <= s < v.n(),
        v.future_starts[s] <= i < v.future_starts[s + 1],
    ensures
        ({
            let arc = v.future_arc(s, i);
            &&& arc.ilabel != 0
            &&& v.direct(s, arc.ilabel) == Some((arc.nextstate, arc.weight))
        }),
{
    reveal(FstView::wf);
    let (lo, hi) = (v.future_starts[s] as int, v.future_starts[s + 1] as int);
    assert(v.future_starts[s + 1] <= v.future_starts[v.n()]);
    let w = v.future_words[i];
    assert(0 < w < v.external.len());
    assert(v.external[0] < v.external[w as int]);
    let label = v.external[w as int];
    assert(label < v.num_labels);
    assert(v.external.contains(label));
    assert(!v.missing_labels.contains(label));
    let at = v.external.index_of(label);
    assert(at == w) by {
        if at < w {
            assert(v.external[at] < v.external[w as int]);
        } else if w < at {
            assert(v.external[w as int] < v.external[at]);
        }
    }
    let compact = at as u32;
    assert(compact == w);
    assert(stands_at(v.future_words, compact, lo, hi, i));
    let j = choose|j: int| stands_at(v.future_words, compact, lo, hi, j);
    assert(stands_at(v.future_words, compact, lo, hi, j));
    assert(ascending(v.future_words, v.future_starts[s] as int, v.future_starts[s + 1] as int));
    if i < j {
        assert(v.future_words[i] < v.future_words[j]);
    } else if j < i {
        assert(v.future_words[j] < v.future_words[i]);
    }
    let arc = v.future_arc(s, i);
    assert(arc.ilabel == label);
    assert(v.direct(s, label) == Some(
        (v.trie.target(s, compact), v.weight(v.future_weights[j])),
    ));
}

proof fn lemma_missing_direct(v: FstView, i: int)
    requires
        v.wf(),
        0 <= i < v.missing_labels.len(),
    ensures
        ({
            let arc = v.missing_arc(i);
            &&& arc.ilabel != 0
            &&& v.direct(0, arc.ilabel) == Some((arc.nextstate, arc.weight))
        }),
{
    reveal(FstView::wf);
    let label = v.missing_labels[i];
    assert(v.missing_labels.contains(label));
    assert(v.external.contains(v.external[0]));
    assert(label < v.num_labels);
    assert(!v.external.contains(label));
    let at = v.missing_labels.index_of(label);
    if at < i {
        assert(v.missing_labels[at] < v.missing_labels[i]);
    } else if i < at {
        assert(v.missing_labels[i] < v.missing_labels[at]);
    }
}

/// Looking up the label of any arc of a state, but the backoff, finds that arc: its end
/// and its cost.
pub proof fn lemma_arcs_are_found(v: FstView, s: int, arc: Arc)
    requires
        v.wf(),
        0 <= s < v.n(),
        v.arcs(s).contains(arc),
        arc.ilabel != 0,
    ensures
        v.direct(s, arc.ilabel) == Some((arc.nextstate, arc.weight)),
{
    reveal(FstView::wf);
    let lo = v.future_starts[s] as int;
    let future = v.future_arcs(s, lo);
    assert(v.future_starts[s] <= v.future_starts[s + 1]);
    if s == 0 {
        lemma_merge_holds(v.missing_arcs(0), future, arc);
        if v.missing_arcs(0).contains(arc) {
            let i = choose|i: int|
                0 <= i < v.missing_arcs(0).len() && v.missing_arcs(0)[i] == arc;
            lemma_missing_direct(v, i);
        } else {
            let i = choose|i: int| 0 <= i < future.len() && future[i] == arc;
            lemma_future_direct(v, s, lo + i);
        }
    } else {
        let arcs = v.arcs(s);
        lemma_first_or_rest(arcs, arc);
        assert(arcs.drop_first() =~= future);
        let i = choose|i: int| 0 <= i < future.len() && future[i] == arc;
        lemma_future_direct(v, s, lo + i);
    }
}

proof fn lemma_starts(v: FstView, s: int)
    requires
        v.wf(),
        0 <= s < v.n(),
    ensures
        v.future_starts[s] <= v.future_starts[s + 1],
{
    reveal(FstView::wf);
}

proof fn lemma_known_label(v: FstView, label: u32)
    requires
        v.wf(),
        label < v.num_labels,
        !v.missing_labels.contains(label),
    ensures
        v.external.contains(label),
        v.external.len() <= 65536,
{
    reveal(FstView::wf);
    assert(v.external.contains(label) != v.missing_labels.contains(label));
}

proof fn lemma_held_future(v: FstView, s: int, i: int)
    requires
        v.wf(),
        0 <= s < v.n(),
        v.future_starts[s] <= i < v.future_starts[s + 1],
    ensures
        v.arcs(s).contains(v.future_arc(s, i)),
{
    let lo = v.future_starts[s] as int;
    let future = v.future_arcs(s, lo);
    let arc = v.future_arc(s, i);
    assert(future[i - lo] == arc);
    assert(future.contains(arc));
    if s == 0 {
        lemma_merge_holds(v.missing_arcs(0), future, arc);
    } else {
        let arcs = v.arcs(s);
        assert(arcs.drop_first() =~= future);
        lemma_first_or_rest(arcs, arc);
    }
}

/// What looking a label up finds is an arc of the state.
pub proof fn lemma_found_is_arc(v: FstView, s: int, label: u32)
    requires
        v.wf(),
        0 <= s < v.n(),
        v.direct(s, label) is Some,
    ensures
        ({
            let (nextstate, weight) = v.direct(s, label)->0;
            v.arcs(s).contains(Arc { ilabel: label, olabel: label, weight, nextstate })
        }),
{
    let (nextstate, weight) = v.direct(s, label)->0;
    let arc = Arc { ilabel: label, olabel: label, weight, nextstate };
    if v.missing_labels.contains(label) {
        let missing = v.missing_arcs(0);
        let at = v.missing_labels.index_of(label);
        assert(v.missing_labels[at] == label);
        assert(missing[at] == arc);
        assert(missing.contains(arc));
        lemma_merge_holds(missing, v.future_arcs(0, v.future_starts[0] as int), arc);
    } else {
        lemma_known_label(v, label);
        lemma_starts(v, s);
        let lo = v.future_starts[s] as int;
        let hi = v.future_starts[s + 1] as int;
        let compact = v.external.index_of(label) as u32;
        let i = choose|i: int| stands_at(v.future_words, compact, lo, hi, i);
        assert(stands_at(v.future_words, compact, lo, hi, i));
        assert(v.external[compact as int] == label);
        assert(v.future_arc(s, i) == arc);
        lemma_held_future(v, s, i);
    }
}

/// A state without an arc for a label takes its backoff arc, the one that reads nothing,
/// at that arc's cost, and asks where it ends; and so does one without a finite end.
pub proof fn lemma_backoff_arc_is_followed(v: FstView, s: int, label: u32, cost: F64)
    requires
        v.wf(),
        0 < s < v.n(),
    ensures
        v.arcs(s).len() > 0,
        v.arcs(s)[0].ilabel == 0,
        v.arcs(s)[0].nextstate < s,
        v.direct(s, label) is None ==> v.advance_from(s, label, cost) == v.advance_from(
            v.arcs(s)[0].nextstate as int,
            label,
            cost.sum(v.arcs(s)[0].weight),
        ),
        !v.literal_final(s).finite() ==> v.finish_from(s, cost) == v.finish_from(
            v.arcs(s)[0].nextstate as int,
            cost.sum(v.arcs(s)[0].weight),
        ),
{
    reveal(FstView::wf);
    assert(v.arcs(s)[0] == v.backoff_arc(s));
    assert(v.trie.parents[s] < s);
}

} // verus!
