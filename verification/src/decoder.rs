//! CTC decoding, optionally shallow-fused with a tropical-cost language model.
//!
//! Scores are maximised log probabilities; language model weights are tropical
//! *costs* and are therefore subtracted. The sign lives in one place here.
use vstd::prelude::*;

pub use crate::beam::prefix_beam_search;
pub use crate::classes::CharClassScorer;
pub use crate::lm::LanguageModel;

use crate::ctc;
use crate::ctc::{collapse, log_probs};
use crate::error::{invalid, Error, ErrorView};
use crate::float::{F32, F64, TOP32};
use crate::logmath::{Functions, LogMath};
use crate::mat::{lemma_row_bounds, Mat, MatView};
use crate::settings::DecoderSettings;
use crate::text::texts_view;

verus! {

/// The network's output alphabet, indexed by network output index.
#[derive(Debug, Clone, PartialEq)]
pub struct Alphabet {
    pub blank: usize,
    /// FST label per network index; the blank entry is unused.
    pub labels: Vec<u32>,
    /// Rendered text per network index; `[[space]]` is already a real space.
    pub texts: Vec<String>,
}

/// An [`Alphabet`] by its contents.
#[verifier::ext_equal]
pub struct AlphabetView {
    pub blank: usize,
    pub labels: Seq<u32>,
    pub texts: Seq<Seq<char>>,
}

impl View for Alphabet {
    type V = AlphabetView;

    open spec fn view(&self) -> AlphabetView {
        AlphabetView { blank: self.blank, labels: self.labels@, texts: texts_view(self.texts@) }
    }
}

/// What a symbol prints: the space symbol a space, any other itself.
pub open spec fn rendered_text(text: Seq<char>) -> Seq<char> {
    if text == "[[space]]"@ {
        " "@
    } else {
        text
    }
}

/// What a symbol prints.
pub fn rendered(text: &str) -> (r: &str)
    ensures
        r@ == rendered_text(text@),
{
    if crate::text::same_text(text, "[[space]]") {
        " "
    } else {
        text
    }
}

/// One hypothesis.
#[derive(Debug, Clone, PartialEq)]
pub struct Candidate {
    pub text: String,
    pub score: F64,
}

/// A [`Candidate`] by its contents.
#[verifier::ext_equal]
pub struct CandidateView {
    pub text: Seq<char>,
    pub score: F64,
}

impl View for Candidate {
    type V = CandidateView;

    open spec fn view(&self) -> CandidateView {
        CandidateView { text: self.text@, score: self.score }
    }
}

/// Whether a logit can be normalized.
pub open spec fn is_logit(x: F32) -> bool {
    !x.nan() && x.bits != TOP32
}

/// What is wrong with a row of logits.
pub open spec fn row_problem(row: Seq<F32>) -> Option<Seq<char>> {
    if exists|c: int| 0 <= c < row.len() && !is_logit(#[trigger] row[c]) {
        Some("logits cannot contain NaN or +inf"@)
    } else if !exists|c: int| 0 <= c < row.len() && (#[trigger] row[c]).finite() {
        Some("each frame must have at least one finite logit"@)
    } else {
        None
    }
}

/// What is wrong with the first bad row from `t` on.
pub open spec fn rows_problem(logits: MatView, t: int) -> Option<Seq<char>>
    decreases logits.rows - t,
{
    if t >= logits.rows {
        None
    } else if row_problem(logits.row(t)) is Some {
        row_problem(logits.row(t))
    } else {
        rows_problem(logits, t + 1)
    }
}

/// What is wrong with logits.
pub open spec fn logits_problem(logits: MatView) -> Option<Seq<char>> {
    if logits.cols == 0 {
        Some("logits must have C > 0"@)
    } else {
        rows_problem(logits, 0)
    }
}

fn check_row(row: &[F32]) -> (r: Result<(), Error>)
    ensures
        match (r, row_problem(row@)) {
            (Ok(_), None) => true,
            (Err(e), Some(g)) => e@ == ErrorView::Invalid(g),
            _ => false,
        },
{
    let mut some: bool = false;
    let mut c: usize = 0;
    while c < row.len()
        invariant
            c <= row@.len(),
            forall|k: int| 0 <= k < c ==> is_logit(#[trigger] row@[k]),
            some == exists|k: int| 0 <= k < c && (#[trigger] row@[k]).finite(),
        decreases row@.len() - c,
    {
        let x: F32 = row[c];
        if x.is_nan() || x.bits == TOP32 {
            assert(!is_logit(row@[c as int]));
            return Err(invalid("logits cannot contain NaN or +inf"));
        }
        if x.is_finite() {
            some = true;
            assert(row@[c as int].finite());
        }
        c += 1;
    }
    if some {
        Ok(())
    } else {
        Err(invalid("each frame must have at least one finite logit"))
    }
}

/// Normalizes logits into log probabilities. Loss and decoding normalize
/// identical logits identically; only the input validation differs.
pub fn log_softmax<E: Fn(F64) -> F64, L: Fn(F64) -> F64, S: Fn(F64) -> F64>(
    logits: &Mat,
    f: &Functions<E, L, S>,
) -> (r: Result<Vec<F64>, Error>)
    requires
        f.wf(),
    ensures
        match (r, logits_problem(logits@)) {
            (Ok(probs), None) => probs@ == log_probs(f.math(), logits@),
            (Err(e), Some(g)) => e@ == ErrorView::Invalid(g),
            _ => false,
        },
{
    if logits.cols() == 0 {
        return Err(invalid("logits must have C > 0"));
    }
    let mut t: usize = 0;
    while t < logits.rows()
        invariant
            t <= logits@.rows,
            logits@.cols > 0,
            rows_problem(logits@, 0) == rows_problem(logits@, t as int),
        decreases logits@.rows - t,
    {
        check_row(logits.row(t))?;
        t += 1;
    }
    Ok(ctc::log_softmax(logits, f))
}

/// What is wrong with an alphabet for a number of classes.
pub open spec fn alphabet_problem(alphabet: AlphabetView, cols: nat) -> Option<Seq<char>> {
    if alphabet.blank >= cols {
        Some("blank index is outside the network alphabet"@)
    } else if alphabet.labels.len() != cols || alphabet.texts.len() != cols {
        Some("alphabet width does not match logits"@)
    } else if exists|i: int|
        0 <= i < alphabet.texts.len() && i != alphabet.blank && (#[trigger] alphabet.texts[i]).len()
            == 0 {
        Some("nonblank symbols must be nonempty strings"@)
    } else {
        None
    }
}

pub(crate) fn check_alphabet(alphabet: &Alphabet, cols: usize) -> (r: Result<(), Error>)
    ensures
        match (r, alphabet_problem(alphabet@, cols as nat)) {
            (Ok(_), None) => true,
            (Err(e), Some(g)) => e@ == ErrorView::Invalid(g),
            _ => false,
        },
{
    if alphabet.blank >= cols {
        return Err(invalid("blank index is outside the network alphabet"));
    }
    if alphabet.labels.len() != cols || alphabet.texts.len() != cols {
        return Err(invalid("alphabet width does not match logits"));
    }
    let mut i: usize = 0;
    while i < cols
        invariant
            i <= cols,
            alphabet.blank < cols,
            cols == alphabet@.labels.len(),
            cols == alphabet@.texts.len(),
            forall|k: int|
                0 <= k < i && k != alphabet.blank ==> (#[trigger] alphabet@.texts[k]).len() != 0,
        decreases cols - i,
    {
        assert(alphabet@.texts[i as int] == alphabet.texts@[i as int]@);
        if i != alphabet.blank && crate::text::chars_of(alphabet.texts[i].as_str()).len() == 0 {
            return Err(invalid("nonblank symbols must be nonempty strings"));
        }
        i += 1;
    }
    Ok(())
}

/// What tokens print, one after the other.
pub open spec fn printed(texts: Seq<Seq<char>>, tokens: Seq<usize>) -> Seq<char>
    decreases tokens.len(),
{
    if tokens.len() == 0 {
        Seq::empty()
    } else {
        printed(texts, tokens.drop_last()) + rendered_text(texts[tokens.last() as int])
    }
}

/// The first of the greatest among the first `n` numbers of a frame.
pub open spec fn best_of(frame: Seq<F64>, n: nat) -> nat
    decreases n,
{
    if n <= 1 {
        0
    } else {
        let best = best_of(frame, (n - 1) as nat);
        let (x, y) = (frame[best as int], frame[n - 1]);
        if !x.nan() && !y.nan() && x.rank() < y.rank() {
            (n - 1) as nat
        } else {
            best
        }
    }
}

/// One frame of a row-major sequence.
pub open spec fn frame_of(probs: Seq<F64>, cols: nat, t: int) -> Seq<F64> {
    probs.subrange(t * cols, (t + 1) * cols)
}

/// The best class of each of the first `n` frames.
pub open spec fn best_path(probs: Seq<F64>, cols: nat, n: nat) -> Seq<usize> {
    Seq::new(n, |t: int| best_of(frame_of(probs, cols, t), cols) as usize)
}

/// The log probability of the best path through the first `n` frames.
pub open spec fn best_score(probs: Seq<F64>, cols: nat, n: nat) -> F64
    decreases n,
{
    if n == 0 {
        F64 { bits: 0 }
    } else {
        let frame = frame_of(probs, cols, n - 1);
        best_score(probs, cols, (n - 1) as nat).sum(frame[best_of(frame, cols) as int])
    }
}

/// The best class is a class of the frame, and no number of the frame is
/// greater.
pub proof fn lemma_best_of(frame: Seq<F64>, n: nat)
    requires
        0 < n <= frame.len(),
        forall|i: int| 0 <= i < n ==> !(#[trigger] frame[i]).nan(),
    ensures
        best_of(frame, n) < n,
        forall|i: int|
            0 <= i < n ==> (#[trigger] frame[i]).rank() <= frame[best_of(frame, n) as int].rank(),
        forall|i: int|
            0 <= i < best_of(frame, n) ==> (#[trigger] frame[i]).rank() < frame[best_of(
                frame,
                n,
            ) as int].rank(),
    decreases n,
{
    if n > 1 {
        lemma_best_of(frame, (n - 1) as nat);
    }
}

pub(crate) proof fn lemma_best_range(frame: Seq<F64>, n: nat)
    requires
        0 < n,
    ensures
        best_of(frame, n) < n,
    decreases n,
{
    if n > 1 {
        lemma_best_range(frame, (n - 1) as nat);
    }
}

fn argmax(frame: &[F64]) -> (r: usize)
    requires
        frame@.len() > 0,
    ensures
        r == best_of(frame@, frame@.len()),
        r < frame@.len(),
{
    let mut best: usize = 0;
    let mut i: usize = 1;
    while i < frame.len()
        invariant
            1 <= i <= frame@.len(),
            best < i,
            best == best_of(frame@, i as nat),
        decreases frame@.len() - i,
    {
        if frame[best].less(frame[i]) {
            best = i;
        }
        i += 1;
    }
    best
}

/// One frame of the log probabilities.
pub(crate) fn frame_at(probs: &Vec<F64>, rows: usize, cols: usize, t: usize) -> (r: &[F64])
    requires
        probs@.len() == rows * cols,
        t < rows,
    ensures
        r@ == frame_of(probs@, cols as nat, t as int),
        r@.len() == cols,
{
    let total: usize = probs.len();
    proof {
        lemma_row_bounds(rows as nat, cols as nat, t as int);
    }
    let start: usize = t * cols;
    vstd::slice::slice_subrange(probs.as_slice(), start, start + cols)
}

/// What is wrong with logits and an alphabet.
pub open spec fn decode_problem(logits: MatView, alphabet: AlphabetView) -> Option<Seq<char>> {
    if logits_problem(logits) is Some {
        logits_problem(logits)
    } else {
        alphabet_problem(alphabet, logits.cols)
    }
}

/// What the best path through logits reads, with that path's log probability.
pub open spec fn greedy_result(m: LogMath, logits: MatView, alphabet: AlphabetView) -> Result<
    CandidateView,
    ErrorView,
> {
    match decode_problem(logits, alphabet) {
        Some(g) => Err(ErrorView::Invalid(g)),
        None => {
            let probs = log_probs(m, logits);
            let path = best_path(probs, logits.cols, logits.rows);
            Ok(
                CandidateView {
                    text: printed(alphabet.texts, collapse(path, alphabet.blank)),
                    score: best_score(probs, logits.cols, logits.rows),
                },
            )
        },
    }
}

/// Best-path decode: the classes that are best frame by frame, without
/// repetitions and blanks. The score is that path's log probability, not the sum
/// over every path producing the same text.
pub fn greedy_decode<E: Fn(F64) -> F64, L: Fn(F64) -> F64, S: Fn(F64) -> F64>(
    logits: &Mat,
    alphabet: &Alphabet,
    f: &Functions<E, L, S>,
) -> (r: Result<Candidate, Error>)
    requires
        f.wf(),
    ensures
        match (r, greedy_result(f.math(), logits@, alphabet@)) {
            (Ok(c), Ok(wanted)) => c@ == wanted,
            (Err(e), Err(g)) => e@ == g,
            _ => false,
        },
{
    let probs: Vec<F64> = log_softmax(logits, f)?;
    check_alphabet(alphabet, logits.cols())?;
    let rows: usize = logits.rows();
    let cols: usize = logits.cols();
    let blank: usize = alphabet.blank;
    let mut text: String = String::new();
    let mut score: F64 = F64 { bits: 0 };
    let mut previous: usize = blank;
    let mut t: usize = 0;
    assert(text@ =~= Seq::empty());
    while t < rows
        invariant
            t <= rows,
            0 < cols,
            blank < cols,
            probs@.len() == rows * cols,
            blank == alphabet.blank,
            alphabet.texts@.len() == cols,
            text@ == printed(
                alphabet@.texts,
                collapse(best_path(probs@, cols as nat, t as nat), blank),
            ),
            score == best_score(probs@, cols as nat, t as nat),
            t == 0 ==> previous == blank,
            t > 0 ==> previous == best_path(probs@, cols as nat, t as nat).last(),
        decreases rows - t,
    {
        let frame: &[F64] = frame_at(&probs, rows, cols, t);
        let index: usize = argmax(frame);
        let ghost path = best_path(probs@, cols as nat, t as nat);
        let ghost longer = best_path(probs@, cols as nat, (t + 1) as nat);
        proof {
            assert(longer.drop_last() =~= path);
            assert(longer.last() == index);
            if t > 0 {
                assert(longer[longer.len() - 2] == path.last());
            }
            let read = collapse(path, blank);
            assert(read.push(index).drop_last() =~= read);
        }
        if index != blank && previous != index {
            assert(alphabet@.texts[index as int] == alphabet.texts@[index as int]@);
            text.append(rendered(alphabet.texts[index].as_str()));
        }
        previous = index;
        score = score.plus(frame[index]);
        t += 1;
    }
    Ok(Candidate { text, score })
}

/// Combines a word model with character classes: two independent multipliers,
/// applied before costs reach the beam search. Use a `lm_weight` of one in the
/// search settings with this wrapper; it already applies the requested word
/// weight.
#[derive(Debug)]
pub struct CharClassRescoringLm<'a, L> {
    pub word_lm: &'a L,
    pub scorer: &'a CharClassScorer,
    pub word_weight: F64,
    pub class_weight: F64,
}

impl<'a, L: LanguageModel> CharClassRescoringLm<'a, L> {
    pub fn new(
        word_lm: &'a L,
        scorer: &'a CharClassScorer,
        settings: &DecoderSettings,
    ) -> (r: Result<Self, Error>)
        ensures
            match r {
                Ok(lm) => {
                    &&& settings.lm_weight.finite() && settings.char_class_weight.finite()
                    &&& lm.word_lm == word_lm
                    &&& lm.scorer == scorer
                    &&& lm.word_weight == settings.lm_weight
                    &&& lm.class_weight == settings.char_class_weight
                },
                Err(e) => {
                    &&& !settings.lm_weight.finite() || !settings.char_class_weight.finite()
                    &&& e@ == ErrorView::Invalid(
                        "word and character-class weights must be finite"@,
                    )
                },
            },
    {
        if !settings.lm_weight.is_finite() || !settings.char_class_weight.is_finite() {
            return Err(invalid("word and character-class weights must be finite"));
        }
        Ok(
            CharClassRescoringLm {
                word_lm,
                scorer,
                word_weight: settings.lm_weight,
                class_weight: settings.char_class_weight,
            },
        )
    }

    /// The class score of a label; zero outside the table.
    pub open spec fn class_score(&self, label: u32) -> F64 {
        if label < self.scorer.scores@.len() {
            self.scorer.scores@[label as int]
        } else {
            F64 { bits: 0 }
        }
    }
}

impl<L: LanguageModel> LanguageModel for CharClassRescoringLm<'_, L> {
    type State = L::State;

    open spec fn start_state(&self) -> L::State {
        self.word_lm.start_state()
    }

    /// A finite cost is weighed, and the weighed class score subtracted; a
    /// rejection or a malformed cost stays what it is.
    open spec fn next_state(&self, state: L::State, ilabel: u32) -> Option<(L::State, F64)> {
        match self.word_lm.next_state(state, ilabel) {
            None => None,
            Some((next, cost)) => Some(
                (
                    next,
                    if cost.finite() {
                        self.word_weight.product(cost).difference(
                            self.class_weight.product(self.class_score(ilabel)),
                        )
                    } else {
                        cost
                    },
                ),
            ),
        }
    }

    open spec fn final_cost(&self, state: L::State) -> F64 {
        let cost = self.word_lm.final_cost(state);
        if cost.finite() {
            self.word_weight.product(cost)
        } else {
            cost
        }
    }

    fn start(&self) -> L::State {
        self.word_lm.start()
    }

    fn advance(&self, state: L::State, ilabel: u32) -> Option<(L::State, F64)> {
        match self.word_lm.advance(state, ilabel) {
            None => None,
            Some((next, cost)) => {
                let rescored: F64 = if cost.is_finite() {
                    self.word_weight.times(cost).minus(
                        self.class_weight.times(self.scorer.score_for_label(ilabel)),
                    )
                } else {
                    cost
                };
                Some((next, rescored))
            },
        }
    }

    fn finish(&self, state: L::State) -> F64 {
        let cost: F64 = self.word_lm.finish(state);
        if cost.is_finite() {
            self.word_weight.times(cost)
        } else {
            cost
        }
    }
}

} // verus!
