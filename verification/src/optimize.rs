//! Gradient descent on ink: nudge stroke coordinates until the recognizer reads them as
//! the text that was wanted.
//!
//! The whole pipeline is differentiable once its *combinatorial* decisions are held
//! fixed: which samples survive thinning, where a stroke is cut into curves, which
//! curves merge. Freeze them, and `points -> features -> logits -> CTC loss` is a smooth
//! function; recompute them every so often and the optimizer can still change the
//! structure, just not within a single step.
//!
//! The loss and the network are differentiated analytically; the features by finite
//! differences through the fitter itself, which cannot drift from it.
use vstd::prelude::*;

use crate::blur::{blur_along_strokes, blurred_gradient};
use crate::ctc::{loss_and_grad, loss_result, CtcLoss, LossView};
use crate::curve::{
    first_untimed, malformed, segment, segments_of_all, Rules, Segmentation, SegmentsView,
};
use crate::decoder::{Alphabet, AlphabetView};
use crate::descent::{
    alike, at_rest, coordinate, coordinate_count, coordinate_of, coordinate_total,
    coordinates_before, ink_scale, lemma_coordinates_grow, lemma_coordinates_same, penalized,
    penalty_of, pushed, scale_of, seeded, set_coordinate, shaken, shaken_strokes, stepped_ink,
    with_coordinate, Momentum, MomentumView, Noise, Penalty,
};
use crate::error::{invalid, text_with, Error, ErrorView};
use crate::features::{encode, encoded, width_of};
use crate::float::{F32, F64, TOP64};
use crate::ink::{copy_strokes, strokes_view, Stroke, StrokeView};
use crate::mat::{Mat, MatView};
use crate::net::{network_output, Cell};
use crate::netgrad::{
    all_finite64, forward_with_activations, gradient_at, head_gradient, logit_gradients_problem,
    no_rows, saved_gradient, saved_of, shapes_agree, width_after, Activations,
};
use crate::numerics::{GeoMath, Numerics};
use crate::preprocess::{all_placed, run, run_result};
use crate::recognizer::{Recognizer, Toolbox, Tools};
use crate::settings::{steps_view, CurveSettings, PreprocessingStep, StepView};
use crate::tflite::NetworkView;
use crate::text::{chars_of, dec, pieces_view, push_dec, quote_char, quoted_char, same_chars};

verus! {

#[derive(Debug, Clone, Copy, PartialEq)]
pub struct FitOptions {
    pub steps: usize,
    /// Step size, in units of the ink's bounding-box diagonal, so that the same value
    /// behaves the same whether coordinates are in pixels or millimetres.
    pub learning_rate: F64,
    /// Pull back toward the original ink. Zero leaves the descent free; large values
    /// make it refuse to move.
    pub anchor_weight: F64,
    /// Penalize second differences along each stroke, which is what stops the result
    /// from turning into a jagged high-frequency artifact.
    pub smoothness_weight: F64,
    /// Recompute thinning and the curve split after this many steps.
    pub resegment_every: usize,
    /// How many jittered copies of the ink to average the gradient over. One, without
    /// jitter, is plain descent; each extra sample costs another pass.
    pub robust_samples: usize,
    /// How far to jitter, as a fraction of the ink's diagonal.
    pub jitter: F64,
    /// Width, as a fraction of the ink's diagonal, of the blur applied to the descent
    /// direction along each stroke. Zero disables it.
    pub smoothing: F64,
}

impl FitOptions {
    /// The defaults: 200 steps of 0.01, weights 3, a new segmentation every 10 steps, no
    /// jitter, a blur of 0.4.
    pub open spec fn defaults() -> FitOptions {
        FitOptions {
            steps: 200,
            learning_rate: F64 { bits: 0x3f84_7ae1_47ae_147b },
            anchor_weight: F64 { bits: 0x4008_0000_0000_0000 },
            smoothness_weight: F64 { bits: 0x4008_0000_0000_0000 },
            resegment_every: 10,
            robust_samples: 1,
            jitter: F64 { bits: 0 },
            smoothing: F64 { bits: 0x3fd9_9999_9999_999a },
        }
    }
}

impl Default for FitOptions {
    fn default() -> (r: Self)
        ensures
            r == FitOptions::defaults(),
    {
        FitOptions {
            steps: 200,
            learning_rate: F64 { bits: 0x3f84_7ae1_47ae_147b },
            anchor_weight: F64 { bits: 0x4008_0000_0000_0000 },
            smoothness_weight: F64 { bits: 0x4008_0000_0000_0000 },
            resegment_every: 10,
            robust_samples: 1,
            jitter: F64 { bits: 0 },
            smoothing: F64 { bits: 0x3fd9_9999_9999_999a },
        }
    }
}

/// One step's losses, for plotting or for deciding to stop early.
#[derive(Debug, Clone, Copy, PartialEq)]
pub struct StepRecord {
    pub step: usize,
    /// Negative log likelihood of the target under CTC.
    pub ctc_loss: F64,
    /// Anchor plus smoothness.
    pub regularization: F64,
    /// True on the steps where the segmentation was recomputed; the total loss is
    /// allowed to jump at these, because the function being minimized changed.
    pub resegmented: bool,
}

#[derive(Debug, Clone)]
pub struct FitReport {
    /// The best ink found, not the last one visited.
    pub strokes: Vec<Stroke>,
    pub initial_ctc_loss: F64,
    /// CTC loss of the best ink under the segmentation in force when it was found.
    pub best_ctc_loss: F64,
    /// Which step produced it.
    pub best_step: usize,
    /// The final iterate, which is **not** generally the best one. Continue from this
    /// when running the fit in chunks.
    pub last: Vec<Stroke>,
    /// Whether the best ink actually *reads* as the target under a greedy decode. Any
    /// iterate that reads correctly is preferred over a lower-loss one that does not.
    pub matched: bool,
    pub history: Vec<StepRecord>,
}

/// Whether a text begins with another at a place.
pub open spec fn starts_with(text: Seq<char>, i: int, prefix: Seq<char>) -> bool {
    i + prefix.len() <= text.len() && text.subrange(i, i + prefix.len()) == prefix
}

/// The first of the longest symbols among the first `n`, other than the blank and empty
/// ones, that a text goes on with at a place.
pub open spec fn longest_symbol(a: AlphabetView, text: Seq<char>, i: int, n: nat) -> Option<int>
    decreases n,
{
    if n == 0 {
        None
    } else {
        let before = longest_symbol(a, text, i, (n - 1) as nat);
        let symbol = a.texts[n - 1];
        if n - 1 != a.blank && symbol.len() > 0 && starts_with(text, i, symbol) && (before is None
            || symbol.len() > a.texts[before->0].len()) {
            Some(n - 1)
        } else {
            before
        }
    }
}

/// The symbols that a text reads from a place on, the longest first at every place; or
/// the character that no symbol begins with.
pub open spec fn spelled_from(a: AlphabetView, text: Seq<char>, i: int) -> Result<Seq<usize>, char>
    decreases text.len() - i,
    via spelled_from_decreases
{
    if i < 0 || i >= text.len() {
        Ok(Seq::empty())
    } else {
        match longest_symbol(a, text, i, a.texts.len()) {
            None => Err(text[i]),
            Some(k) => match spelled_from(a, text, i + a.texts[k].len()) {
                Err(c) => Err(c),
                Ok(rest) => Ok(seq![k as usize] + rest),
            },
        }
    }
}

#[via_fn]
proof fn spelled_from_decreases(a: AlphabetView, text: Seq<char>, i: int) {
    lemma_longest_symbol(a, text, i, a.texts.len());
}

/// The longest symbol goes on at the place, and no symbol that does is longer.
pub proof fn lemma_longest_symbol(a: AlphabetView, text: Seq<char>, i: int, n: nat)
    requires
        n <= a.texts.len(),
    ensures
        match longest_symbol(a, text, i, n) {
            Some(k) => {
                &&& 0 <= k < n
                &&& k != a.blank
                &&& a.texts[k].len() > 0
                &&& starts_with(text, i, a.texts[k])
                &&& forall|j: int|
                    0 <= j < n && j != a.blank && starts_with(text, i, #[trigger] a.texts[j])
                        ==> a.texts[j].len() <= a.texts[k].len()
                &&& forall|j: int|
                    0 <= j < k && j != a.blank && starts_with(text, i, #[trigger] a.texts[j])
                        ==> a.texts[j].len() < a.texts[k].len()
            },
            None => forall|j: int|
                0 <= j < n && j != a.blank && (#[trigger] a.texts[j]).len() > 0 ==> !starts_with(
                    text,
                    i,
                    a.texts[j],
                ),
        },
    decreases n,
{
    if n > 0 {
        lemma_longest_symbol(a, text, i, (n - 1) as nat);
    }
}

/// What is said of a target with a character that no symbol begins with.
pub open spec fn unspellable(c: char) -> ErrorView {
    ErrorView::Invalid(
        "target contains "@ + quoted_char(c) + ", which this model's charset cannot produce"@,
    )
}

fn goes_on(text: &Vec<char>, i: usize, prefix: &Vec<char>) -> (r: bool)
    requires
        i <= text@.len(),
    ensures
        r == starts_with(text@, i as int, prefix@),
{
    if prefix.len() > text.len() - i {
        return false;
    }
    let end: usize = i + prefix.len();
    same_chars(vstd::slice::slice_subrange(text.as_slice(), i, end), prefix.as_slice())
}

fn find_symbol(
    symbols: &Vec<Vec<char>>,
    alphabet: &Alphabet,
    text: &Vec<char>,
    i: usize,
) -> (r: Option<usize>)
    requires
        i <= text@.len(),
        pieces_view(symbols@) == alphabet@.texts,
    ensures
        match (r, longest_symbol(alphabet@, text@, i as int, alphabet@.texts.len())) {
            (Some(k), Some(j)) => k == j,
            (None, None) => true,
            _ => false,
        },
{
    let ghost a = alphabet@;
    let n: usize = symbols.len();
    assert(pieces_view(symbols@).len() == n);
    let mut best: Option<usize> = None;
    let mut k: usize = 0;
    while k < n
        invariant
            k <= n,
            n == symbols@.len(),
            n == a.texts.len(),
            i <= text@.len(),
            a == alphabet@,
            pieces_view(symbols@) == a.texts,
            match (best, longest_symbol(a, text@, i as int, k as nat)) {
                (Some(x), Some(y)) => x == y && x < k,
                (None, None) => true,
                _ => false,
            },
        decreases n - k,
    {
        assert(a.texts[k as int] == symbols@[k as int]@);
        let longer: bool = match best {
            None => true,
            Some(b) => {
                assert(a.texts[b as int] == symbols@[b as int]@);
                symbols[k].len() > symbols[b].len()
            },
        };
        if k != alphabet.blank && symbols[k].len() > 0 && longer && goes_on(text, i, &symbols[k]) {
            best = Some(k);
        }
        k += 1;
    }
    best
}

/// Longest-matches the target against the network's own symbols.
///
/// Character by character is wrong for scripts whose symbols span several code points,
/// and those are exactly the scripts where a silent mismatch would be hardest to notice.
pub fn target_indices(alphabet: &Alphabet, target: &str) -> (r: Result<Vec<usize>, Error>)
    ensures
        match (r, spelled_from(alphabet@, target@, 0)) {
            (Ok(labels), Ok(wanted)) => labels@ == wanted,
            (Err(e), Err(c)) => e@ == unspellable(c),
            _ => false,
        },
{
    let ghost a = alphabet@;
    let text: Vec<char> = chars_of(target);
    let mut symbols: Vec<Vec<char>> = Vec::new();
    let mut k: usize = 0;
    while k < alphabet.texts.len()
        invariant
            k <= alphabet.texts@.len(),
            symbols@.len() == k,
            forall|j: int| 0 <= j < k ==> (#[trigger] symbols@[j])@ == alphabet.texts@[j]@,
        decreases alphabet.texts@.len() - k,
    {
        symbols.push(chars_of(alphabet.texts[k].as_str()));
        k += 1;
    }
    assert(pieces_view(symbols@) =~= a.texts);
    let mut labels: Vec<usize> = Vec::new();
    let mut i: usize = 0;
    assert(match spelled_from(a, text@, 0) {
        Ok(rest) => labels@ + rest =~= rest,
        Err(_) => true,
    });
    while i < text.len()
        invariant
            i <= text@.len(),
            text@ == target@,
            a == alphabet@,
            pieces_view(symbols@) == a.texts,
            match (spelled_from(a, text@, 0), spelled_from(a, text@, i as int)) {
                (Ok(all), Ok(rest)) => all == labels@ + rest,
                (Err(c), Err(d)) => c == d,
                _ => false,
            },
        decreases text@.len() - i,
    {
        proof {
            lemma_longest_symbol(a, text@, i as int, a.texts.len());
        }
        match find_symbol(&symbols, alphabet, &text, i) {
            None => {
                let mut s: String = String::from_str("target contains ");
                s.append(quote_char(text[i]).as_str());
                s.append(", which this model's charset cannot produce");
                return Err(Error::Invalid(s));
            },
            Some(k) => {
                let ghost before = labels@;
                assert(a.texts[k as int] == pieces_view(symbols@)[k as int]);
                labels.push(k);
                proof {
                    if let Ok(rest) = spelled_from(a, text@, i + a.texts[k as int].len()) {
                        assert(labels@ + rest =~= before + (seq![k] + rest));
                    }
                }
                i = i + symbols[k].len();
            },
        }
    }
    assert(labels@ + Seq::<usize>::empty() =~= labels@);
    Ok(labels)
}

/// The texts of labels, one after the other; labels outside the alphabet have none.
pub open spec fn texts_of(a: AlphabetView, labels: Seq<usize>) -> Seq<char>
    decreases labels.len(),
{
    if labels.len() == 0 {
        Seq::empty()
    } else {
        let before = texts_of(a, labels.drop_last());
        if labels.last() < a.texts.len() {
            before + a.texts[labels.last() as int]
        } else {
            before
        }
    }
}

/// Renders a target back out of network indices, for reporting.
pub fn render(alphabet: &Alphabet, labels: &[usize]) -> (r: String)
    ensures
        r@ == texts_of(alphabet@, labels@),
{
    let mut s: String = String::new();
    let mut i: usize = 0;
    assert(s@ =~= texts_of(alphabet@, labels@.take(0)));
    while i < labels.len()
        invariant
            i <= labels@.len(),
            s@ == texts_of(alphabet@, labels@.take(i as int)),
        decreases labels@.len() - i,
    {
        assert(labels@.take(i + 1).drop_last() =~= labels@.take(i as int));
        if labels[i] < alphabet.texts.len() {
            assert(alphabet@.texts[labels@[i as int] as int]
                == alphabet.texts@[labels@[i as int] as int]@);
            s.append(alphabet.texts[labels[i]].as_str());
        }
        i += 1;
    }
    assert(labels@.take(i as int) =~= labels@);
    s
}

proof fn lemma_texts_join(a: AlphabetView, x: Seq<usize>, y: Seq<usize>)
    ensures
        texts_of(a, x + y) == texts_of(a, x) + texts_of(a, y),
    decreases y.len(),
{
    if y.len() == 0 {
        assert(x + y =~= x);
        assert(texts_of(a, x) + texts_of(a, y) =~= texts_of(a, x));
    } else {
        assert((x + y).drop_last() =~= x + y.drop_last());
        lemma_texts_join(a, x, y.drop_last());
        assert(texts_of(a, x + y) =~= texts_of(a, x) + texts_of(a, y));
    }
}

proof fn lemma_spelled(a: AlphabetView, text: Seq<char>, i: int)
    requires
        0 <= i <= text.len(),
        a.texts.len() <= usize::MAX,
    ensures
        spelled_from(a, text, i) is Ok ==> {
            &&& texts_of(a, spelled_from(a, text, i)->Ok_0) == text.skip(i)
            &&& forall|k: int|
                0 <= k < spelled_from(a, text, i)->Ok_0.len() ==> (#[trigger] spelled_from(
                    a,
                    text,
                    i,
                )->Ok_0[k]) < a.texts.len() && spelled_from(a, text, i)->Ok_0[k] != a.blank
        },
    decreases text.len() - i,
{
    if i < text.len() {
        lemma_longest_symbol(a, text, i, a.texts.len());
        if let Some(k) = longest_symbol(a, text, i, a.texts.len()) {
            let next = i + a.texts[k].len();
            lemma_spelled(a, text, next);
            if let Ok(rest) = spelled_from(a, text, next) {
                lemma_texts_join(a, seq![k as usize], rest);
                assert(seq![k as usize].drop_last() =~= Seq::empty());
                assert(texts_of(a, Seq::empty()) =~= Seq::empty());
                assert(seq![k as usize].last() == k);
                assert(texts_of(a, seq![k as usize]) =~= a.texts[k]);
                assert(a.texts[k] + text.skip(next) =~= text.skip(i));
            }
        }
    } else {
        assert(text.skip(i) =~= Seq::empty());
    }
}

/// The symbols of a target spell the target, and the blank is none of them.
pub proof fn lemma_target_spells(a: AlphabetView, target: Seq<char>)
    requires
        a.texts.len() <= usize::MAX,
    ensures
        spelled_from(a, target, 0) is Ok ==> {
            &&& texts_of(a, spelled_from(a, target, 0)->Ok_0) == target
            &&& forall|k: int|
                0 <= k < spelled_from(a, target, 0)->Ok_0.len() ==> (#[trigger] spelled_from(
                    a,
                    target,
                    0,
                )->Ok_0[k]) < a.texts.len() && spelled_from(a, target, 0)->Ok_0[k] != a.blank
        },
{
    lemma_spelled(a, target, 0);
    assert(target.skip(0) =~= target);
}

/// What a fit goes by: the recognizer's parts, and the labels that are wanted.
pub struct Task {
    pub m: Tools,
    pub cfg: CurveSettings,
    pub pipeline: Seq<StepView>,
    pub net: NetworkView,
    pub blank: usize,
    pub labels: Seq<usize>,
}

impl Task {
    /// The structure of an ink.
    pub open spec fn segmented(self, strokes: Seq<StrokeView>) -> Result<
        Seq<SegmentsView>,
        ErrorView,
    > {
        match run_result(strokes, self.pipeline) {
            Err(e) => Err(e),
            Ok(done) => match first_untimed(done, 0) {
                Some(i) => Err(malformed(done[i], i as nat)),
                None => Ok(segments_of_all(Rules { m: self.m.geometry, cfg: self.cfg }, done)),
            },
        }
    }

    /// The features of an ink with a frozen structure.
    pub open spec fn geometry(self, strokes: Seq<StrokeView>, seg: Seq<SegmentsView>) -> Result<
        MatView,
        ErrorView,
    > {
        match run_result(strokes, self.pipeline) {
            Err(e) => Err(e),
            Ok(done) => encoded(self.m.geometry, self.cfg, done, seg),
        }
    }

    /// The loss of features.
    pub open spec fn loss(self, features: MatView) -> Result<LossView, ErrorView> {
        match network_output(self.m.net, self.net, no_rows(features.cols)) {
            Err(e) => Err(e),
            Ok(_) => match network_output(self.m.net, self.net, features) {
                Err(e) => Err(e),
                Ok(logits) => loss_result(self.m.log, logits, self.labels, self.blank),
            },
        }
    }

    /// How the loss changes with each feature.
    pub open spec fn feature_slopes(self, features: MatView, grad: Seq<F64>) -> Result<
        Seq<F64>,
        ErrorView,
    > {
        let saved = saved_of(self.m.net, self.net.layers, features, self.net.layers.len());
        let wanted = gradient_at(
            self.net,
            saved,
            features.rows,
            head_gradient(self.net, features.rows, grad),
            0,
        );
        match logit_gradients_problem(features.rows, self.net.num_classes as nat, grad) {
            Some(e) => Err(e),
            None => if all_finite64(wanted) {
                Ok(wanted)
            } else {
                Err(ErrorView::Invalid("feature gradients must be finite"@))
            },
        }
    }

    /// An ink with one coordinate changed.
    pub open spec fn bumped(
        strokes: Seq<StrokeView>,
        i: int,
        q: int,
        value: F64,
    ) -> Seq<StrokeView> {
        strokes.update(i, with_coordinate(strokes[i], q / 2, q % 2, value))
    }

    /// How the loss changes with a coordinate, by features on both sides of it; not at
    /// all where a bump changes their number.
    #[verifier::opaque]
    pub open spec fn slope(
        self,
        strokes: Seq<StrokeView>,
        seg: Seq<SegmentsView>,
        rows: nat,
        d: Seq<F64>,
        epsilon: F64,
        i: int,
        q: int,
    ) -> Result<F64, ErrorView> {
        let c = coordinate_of(strokes[i], q / 2, q % 2);
        match self.geometry(Task::bumped(strokes, i, q, c.sum(epsilon)), seg) {
            Err(e) => Err(e),
            Ok(up) => match self.geometry(
                Task::bumped(strokes, i, q, c.difference(epsilon)),
                seg,
            ) {
                Err(e) => Err(e),
                Ok(down) => if up.rows != rows || down.rows != rows {
                    Ok(F64 { bits: 0 })
                } else {
                    Ok(
                        directional(up.data, down.data, d, d.len()).quotient(
                            (F64 { bits: 0x4000_0000_0000_0000 }).product(epsilon),
                        ),
                    )
                },
            },
        }
    }

    /// How the loss changes with the first `q` coordinates of a stroke.
    pub open spec fn stroke_slopes(
        self,
        strokes: Seq<StrokeView>,
        seg: Seq<SegmentsView>,
        rows: nat,
        d: Seq<F64>,
        epsilon: F64,
        i: int,
        q: nat,
    ) -> Result<Seq<F64>, ErrorView>
        decreases q,
    {
        if q == 0 {
            Ok(Seq::empty())
        } else {
            match self.stroke_slopes(strokes, seg, rows, d, epsilon, i, (q - 1) as nat) {
                Err(e) => Err(e),
                Ok(before) => match self.slope(strokes, seg, rows, d, epsilon, i, q - 1) {
                    Err(e) => Err(e),
                    Ok(g) => Ok(before.push(g)),
                },
            }
        }
    }

    /// How the loss changes with the coordinates of the first `k` strokes.
    pub open spec fn slopes(
        self,
        strokes: Seq<StrokeView>,
        seg: Seq<SegmentsView>,
        rows: nat,
        d: Seq<F64>,
        epsilon: F64,
        k: nat,
    ) -> Result<Seq<F64>, ErrorView>
        decreases k,
    {
        if k == 0 {
            Ok(Seq::empty())
        } else {
            match self.slopes(strokes, seg, rows, d, epsilon, (k - 1) as nat) {
                Err(e) => Err(e),
                Ok(before) => match self.stroke_slopes(
                    strokes,
                    seg,
                    rows,
                    d,
                    epsilon,
                    k - 1,
                    2 * strokes[k - 1].x.len(),
                ) {
                    Err(e) => Err(e),
                    Ok(g) => Ok(before + g),
                },
            }
        }
    }

    /// How the loss changes with all coordinates, given the features and the loss.
    pub open spec fn gradient(
        self,
        strokes: Seq<StrokeView>,
        seg: Seq<SegmentsView>,
        features: MatView,
        loss: LossView,
        epsilon: F64,
    ) -> Result<Seq<F64>, ErrorView> {
        match self.feature_slopes(features, loss.grad) {
            Err(e) => Err(e),
            Ok(d) => self.slopes(strokes, seg, features.rows, d, epsilon, strokes.len()),
        }
    }

    /// The gradient of an ink by its own structure, if there is one.
    pub open spec fn fresh_gradient(self, strokes: Seq<StrokeView>, epsilon: F64) -> Option<
        Seq<F64>,
    > {
        match self.segmented(strokes) {
            Err(_) => None,
            Ok(seg) => match self.geometry(strokes, seg) {
                Err(_) => None,
                Ok(features) => match self.loss(features) {
                    Err(_) => None,
                    Ok(loss) => if !loss.loss.finite() {
                        None
                    } else {
                        match self.gradient(strokes, seg, features, loss, epsilon) {
                            Err(_) => None,
                            Ok(g) => Some(g),
                        }
                    },
                },
            },
        }
    }

    /// A gradient with those of `n` shaken copies added, as far as they have one, and
    /// how many gradients that makes.
    pub open spec fn robust(
        self,
        strokes: Seq<StrokeView>,
        gradient: Seq<F64>,
        seed: u64,
        spread: F64,
        epsilon: F64,
        n: nat,
    ) -> (Seq<F64>, nat)
        decreases n,
    {
        if n == 0 {
            (gradient, 1)
        } else {
            let (total, count) = self.robust(
                strokes,
                gradient,
                seed,
                spread,
                epsilon,
                (n - 1) as nat,
            );
            let copy = shaken_strokes(
                strokes,
                Task::noise_after(strokes, seed, spread, (n - 1) as nat),
                spread,
                strokes.len(),
            ).0;
            match self.fresh_gradient(copy, epsilon) {
                None => (total, count),
                Some(extra) => (
                    Seq::new(total.len(), |i: int| total[i].sum(extra[i])),
                    count + 1,
                ),
            }
        }
    }

    /// The noise behind `n` shaken copies.
    pub open spec fn noise_after(strokes: Seq<StrokeView>, seed: u64, spread: F64, n: nat) -> u64
        decreases n,
    {
        if n == 0 {
            seed
        } else {
            shaken_strokes(
                strokes,
                Task::noise_after(strokes, seed, spread, (n - 1) as nat),
                spread,
                strokes.len(),
            ).1
        }
    }
}

/// What features on both sides of a coordinate change, weighed, summed from the left.
pub open spec fn directional(up: Seq<F32>, down: Seq<F32>, d: Seq<F64>, n: nat) -> F64
    decreases n,
{
    if n == 0 {
        F64 { bits: 0 }
    } else {
        directional(up, down, d, (n - 1) as nat).sum(
            d[n - 1].product(up[n - 1].difference(down[n - 1]).widened()),
        )
    }
}

/// Preprocesses, and chooses the discrete structure for the current coordinates.
fn segment_for<R: Fn(F64) -> F64, H: Fn(F32, F32) -> F32, A: Fn(F32, F32) -> F32>(
    strokes: &Vec<Stroke>,
    cfg: &CurveSettings,
    pipeline: &Vec<PreprocessingStep>,
    num: &Numerics<R, H, A>,
    Ghost(task): Ghost<Task>,
) -> (r: Result<Segmentation, Error>)
    requires
        num.wf(),
        task.m.geometry == num.math(),
        task.cfg == *cfg,
        task.pipeline == steps_view(pipeline@),
    ensures
        match (r, task.segmented(strokes_view(strokes@))) {
            (Ok(s), Ok(wanted)) => s@ == wanted,
            (Err(e), Err(g)) => e@ == g,
            _ => false,
        },
{
    let done: Vec<Stroke> = run(strokes.as_slice(), pipeline.as_slice())?;
    segment(done.as_slice(), cfg, num)
}

/// The numeric half: raw coordinates plus a frozen structure to features.
fn geometry<R: Fn(F64) -> F64, H: Fn(F32, F32) -> F32, A: Fn(F32, F32) -> F32>(
    strokes: &Vec<Stroke>,
    seg: &Segmentation,
    cfg: &CurveSettings,
    pipeline: &Vec<PreprocessingStep>,
    num: &Numerics<R, H, A>,
    Ghost(task): Ghost<Task>,
) -> (r: Result<Mat, Error>)
    requires
        num.wf(),
        task.m.geometry == num.math(),
        task.cfg == *cfg,
        task.pipeline == steps_view(pipeline@),
    ensures
        match (r, task.geometry(strokes_view(strokes@), seg@)) {
            (Ok(f), Ok(wanted)) => f@ == wanted && f@.wf() && f@.cols == width_of(*cfg),
            (Err(e), Err(g)) => e@ == g,
            _ => false,
        },
{
    let done: Vec<Stroke> = run(strokes.as_slice(), pipeline.as_slice())?;
    encode(done.as_slice(), seg, cfg, num)
}

fn sum_directional(up: &[F32], down: &[F32], d: &Vec<F64>) -> (r: F64)
    requires
        up@.len() == d@.len(),
        down@.len() == d@.len(),
    ensures
        r == directional(up@, down@, d@, d@.len()),
{
    let mut total: F64 = F64 { bits: 0 };
    let mut i: usize = 0;
    while i < d.len()
        invariant
            i <= d@.len(),
            up@.len() == d@.len(),
            down@.len() == d@.len(),
            total == directional(up@, down@, d@, i as nat),
        decreases d@.len() - i,
    {
        total = total.plus(d[i].times(up[i].minus(down[i]).widen()));
        i += 1;
    }
    total
}

/// Sets one coordinate of an ink.
fn bump(strokes: &mut Vec<Stroke>, i: usize, q: usize, value: F64)
    requires
        i < old(strokes)@.len(),
        strokes_view(old(strokes)@)[i as int].placed(),
        q < 2 * strokes_view(old(strokes)@)[i as int].x.len(),
    ensures
        strokes_view(final(strokes)@) == Task::bumped(
            strokes_view(old(strokes)@),
            i as int,
            q as int,
            value,
        ),
{
    let ghost before = strokes_view(strokes@);
    assert(before[i as int] == strokes@[i as int]@);
    let mut s: Stroke = strokes[i].clone();
    set_coordinate(&mut s, q / 2, q % 2, value);
    let ghost view = s@;
    strokes.set(i, s);
    assert(strokes_view(strokes@) =~= before.update(i as int, view));
}

/// How the loss changes with one coordinate.
fn coordinate_slope<R: Fn(F64) -> F64, H: Fn(F32, F32) -> F32, A: Fn(F32, F32) -> F32>(
    scratch: &mut Vec<Stroke>,
    seg: &Segmentation,
    cfg: &CurveSettings,
    pipeline: &Vec<PreprocessingStep>,
    num: &Numerics<R, H, A>,
    rows: usize,
    d: &Vec<F64>,
    epsilon: F64,
    i: usize,
    q: usize,
    Ghost(task): Ghost<Task>,
) -> (r: Result<F64, Error>)
    requires
        num.wf(),
        task.m.geometry == num.math(),
        task.cfg == *cfg,
        task.pipeline == steps_view(pipeline@),
        i < old(scratch)@.len(),
        strokes_view(old(scratch)@)[i as int].placed(),
        q < 2 * strokes_view(old(scratch)@)[i as int].x.len(),
        d@.len() == rows * width_of(*cfg),
    ensures
        match (
            r,
            task.slope(
                strokes_view(old(scratch)@),
                seg@,
                rows as nat,
                d@,
                epsilon,
                i as int,
                q as int,
            ),
        ) {
            (Ok(g), Ok(wanted)) => g == wanted && strokes_view(final(scratch)@) == strokes_view(
                old(scratch)@,
            ),
            (Err(e), Err(g)) => e@ == g,
            _ => false,
        },
{
    let ghost all = strokes_view(scratch@);
    proof {
        reveal(Task::slope);
    }
    assert(all[i as int] == scratch@[i as int]@);
    let c: F64 = coordinate(&scratch[i], q / 2, q % 2);
    bump(scratch, i, q, c.plus(epsilon));
    let up: Mat = geometry(scratch, seg, cfg, pipeline, num, Ghost(task))?;
    bump(scratch, i, q, c.minus(epsilon));
    proof {
        let twice = Task::bumped(
            Task::bumped(all, i as int, q as int, c.sum(epsilon)),
            i as int,
            q as int,
            c.difference(epsilon),
        );
        lemma_bump_again(all, i as int, q as int, c.sum(epsilon), c.difference(epsilon));
    }
    let down: Mat = geometry(scratch, seg, cfg, pipeline, num, Ghost(task))?;
    bump(scratch, i, q, c);
    proof {
        lemma_bump_again(all, i as int, q as int, c.difference(epsilon), c);
        lemma_bump_same(all, i as int, q as int);
    }
    if up.rows() != rows || down.rows() != rows {
        return Ok(F64 { bits: 0 });
    }
    Ok(
        sum_directional(up.as_slice(), down.as_slice(), d).over(
            (F64 { bits: 0x4000_0000_0000_0000 }).times(epsilon),
        ),
    )
}

proof fn lemma_bump_again(strokes: Seq<StrokeView>, i: int, q: int, a: F64, b: F64)
    requires
        0 <= i < strokes.len(),
        strokes[i].placed(),
        0 <= q < 2 * strokes[i].x.len(),
    ensures
        Task::bumped(Task::bumped(strokes, i, q, a), i, q, b) == Task::bumped(strokes, i, q, b),
        Task::bumped(strokes, i, q, a)[i].placed(),
        Task::bumped(strokes, i, q, a)[i].x.len() == strokes[i].x.len(),
{
    let s = strokes[i];
    let once = with_coordinate(s, q / 2, q % 2, a);
    let twice = with_coordinate(once, q / 2, q % 2, b);
    assert(twice =~= with_coordinate(s, q / 2, q % 2, b));
    assert(Task::bumped(Task::bumped(strokes, i, q, a), i, q, b) =~= Task::bumped(
        strokes,
        i,
        q,
        b,
    ));
}

proof fn lemma_bump_same(strokes: Seq<StrokeView>, i: int, q: int)
    requires
        0 <= i < strokes.len(),
        strokes[i].placed(),
        0 <= q < 2 * strokes[i].x.len(),
    ensures
        Task::bumped(strokes, i, q, coordinate_of(strokes[i], q / 2, q % 2)) == strokes,
{
    let s = strokes[i];
    assert(with_coordinate(s, q / 2, q % 2, coordinate_of(s, q / 2, q % 2)) =~= s);
    assert(Task::bumped(strokes, i, q, coordinate_of(s, q / 2, q % 2)) =~= strokes);
}

/// How the loss changes with every coordinate, by central differences through the
/// fitter: stroke by stroke, point by point, x then y.
fn geometry_gradient<R: Fn(F64) -> F64, H: Fn(F32, F32) -> F32, A: Fn(F32, F32) -> F32>(
    strokes: &Vec<Stroke>,
    seg: &Segmentation,
    cfg: &CurveSettings,
    pipeline: &Vec<PreprocessingStep>,
    num: &Numerics<R, H, A>,
    rows: usize,
    d: &Vec<F64>,
    epsilon: F64,
    Ghost(task): Ghost<Task>,
) -> (r: Result<Vec<F64>, Error>)
    requires
        num.wf(),
        task.m.geometry == num.math(),
        task.cfg == *cfg,
        task.pipeline == steps_view(pipeline@),
        all_placed(strokes_view(strokes@)),
        coordinate_total(strokes_view(strokes@)) <= usize::MAX,
        d@.len() == rows * width_of(*cfg),
    ensures
        match (
            r,
            task.slopes(
                strokes_view(strokes@),
                seg@,
                rows as nat,
                d@,
                epsilon,
                strokes@.len(),
            ),
        ) {
            (Ok(g), Ok(wanted)) => g@ == wanted && g@.len() == coordinate_total(
                strokes_view(strokes@),
            ),
            (Err(e), Err(g)) => e@ == g,
            _ => false,
        },
{
    let ghost all = strokes_view(strokes@);
    let mut scratch: Vec<Stroke> = copy_strokes(strokes.as_slice());
    let mut out: Vec<F64> = Vec::new();
    let mut k: usize = 0;
    assert(strokes_view(scratch@).len() == scratch@.len());
    assert(all.len() == strokes@.len());
    while k < strokes.len()
        invariant
            k <= strokes@.len(),
            all == strokes_view(strokes@),
            strokes_view(scratch@) == all,
            scratch@.len() == strokes@.len(),
            num.wf(),
            task.m.geometry == num.math(),
            task.cfg == *cfg,
            task.pipeline == steps_view(pipeline@),
            all_placed(all),
            coordinate_total(all) <= usize::MAX,
            d@.len() == rows * width_of(*cfg),
            task.slopes(all, seg@, rows as nat, d@, epsilon, k as nat) == Ok::<
                Seq<F64>,
                ErrorView,
            >(out@),
            out@.len() == coordinates_before(all, k as int),
        decreases strokes@.len() - k,
    {
        proof {
            assert(all[k as int] == strokes@[k as int]@);
            assert(all[k as int].placed());
            lemma_coordinates_grow(all, k + 1, all.len() as int);
        }
        let n: usize = 2 * strokes[k].x.len();
        let ghost before = out@;
        let ghost mut part: Seq<F64> = Seq::empty();
        let mut q: usize = 0;
        assert(out@ =~= before + part);
        while q < n
            invariant
                q <= n,
                k < strokes@.len(),
                n == 2 * all[k as int].x.len(),
                all == strokes_view(strokes@),
                strokes_view(scratch@) == all,
                scratch@.len() == strokes@.len(),
                all.len() == strokes@.len(),
                num.wf(),
                task.m.geometry == num.math(),
                task.cfg == *cfg,
                task.pipeline == steps_view(pipeline@),
                all[k as int].placed(),
                d@.len() == rows * width_of(*cfg),
                task.slopes(all, seg@, rows as nat, d@, epsilon, k as nat) == Ok::<
                    Seq<F64>,
                    ErrorView,
                >(before),
                task.stroke_slopes(
                    all,
                    seg@,
                    rows as nat,
                    d@,
                    epsilon,
                    k as int,
                    q as nat,
                ) == Ok::<Seq<F64>, ErrorView>(part),
                part.len() == q,
                out@ == before + part,
            decreases n - q,
        {
            match coordinate_slope(
                &mut scratch,
                seg,
                cfg,
                pipeline,
                num,
                rows,
                d,
                epsilon,
                k,
                q,
                Ghost(task),
            ) {
                Ok(g) => {
                    out.push(g);
                    proof {
                        part = part.push(g);
                        assert(out@ =~= before + part);
                        assert(strokes_view(scratch@).len() == scratch@.len());
                    }
                },
                Err(e) => {
                    proof {
                        lemma_stroke_slopes_failed(
                            task,
                            all,
                            seg@,
                            rows as nat,
                            d@,
                            epsilon,
                            k as int,
                            (q + 1) as nat,
                            n as nat,
                        );
                        lemma_slopes_failed(
                            task,
                            all,
                            seg@,
                            rows as nat,
                            d@,
                            epsilon,
                            (k + 1) as nat,
                            all.len(),
                        );
                    }
                    return Err(e);
                },
            }
            q += 1;
        }
        k += 1;
    }
    Ok(out)
}

proof fn lemma_stroke_slopes_failed(
    task: Task,
    strokes: Seq<StrokeView>,
    seg: Seq<SegmentsView>,
    rows: nat,
    d: Seq<F64>,
    epsilon: F64,
    i: int,
    k: nat,
    n: nat,
)
    requires
        k <= n,
        task.stroke_slopes(strokes, seg, rows, d, epsilon, i, k) is Err,
    ensures
        task.stroke_slopes(strokes, seg, rows, d, epsilon, i, n) == task.stroke_slopes(
            strokes,
            seg,
            rows,
            d,
            epsilon,
            i,
            k,
        ),
    decreases n,
{
    if k < n {
        lemma_stroke_slopes_failed(task, strokes, seg, rows, d, epsilon, i, k, (n - 1) as nat);
    }
}

proof fn lemma_slopes_failed(
    task: Task,
    strokes: Seq<StrokeView>,
    seg: Seq<SegmentsView>,
    rows: nat,
    d: Seq<F64>,
    epsilon: F64,
    k: nat,
    n: nat,
)
    requires
        k <= n,
        task.slopes(strokes, seg, rows, d, epsilon, k) is Err,
    ensures
        task.slopes(strokes, seg, rows, d, epsilon, n) == task.slopes(
            strokes,
            seg,
            rows,
            d,
            epsilon,
            k,
        ),
    decreases n,
{
    if k < n {
        lemma_slopes_failed(task, strokes, seg, rows, d, epsilon, k, (n - 1) as nat);
    }
}

impl Task {
    /// Whether this is the task of a recognizer and labels.
    pub open spec fn is_of(self, rec: &Recognizer<'_>, m: Tools, labels: Seq<usize>) -> bool {
        &&& self.m == m
        &&& self.cfg == rec.spec.curve_settings
        &&& self.pipeline == steps_view(rec.spec.pipeline@)
        &&& self.net == rec.weights@
        &&& self.blank == rec.alphabet.blank
        &&& self.labels == labels
    }

    /// The features and the loss of an ink with a frozen structure.
    pub open spec fn evaluated(self, strokes: Seq<StrokeView>, seg: Seq<SegmentsView>) -> Result<
        (MatView, LossView),
        ErrorView,
    > {
        match self.geometry(strokes, seg) {
            Err(e) => Err(e),
            Ok(features) => match self.loss(features) {
                Err(e) => Err(e),
                Ok(loss) => Ok((features, loss)),
            },
        }
    }
}

/// The features and the loss of an ink, with what its gradient needs.
fn evaluate<
    'r,
    E: Fn(F64) -> F64,
    L: Fn(F64) -> F64,
    S: Fn(F64) -> F64,
    X: Fn(F32) -> F32,
    T: Fn(F32) -> F32,
    R: Fn(F64) -> F64,
    H: Fn(F32, F32) -> F32,
    A: Fn(F32, F32) -> F32,
>(
    rec: &'r Recognizer<'_>,
    tools: &Toolbox<E, L, S, X, T, R, H, A>,
    strokes: &Vec<Stroke>,
    seg: &Segmentation,
    labels: &Vec<usize>,
    Ghost(task): Ghost<Task>,
) -> (r: Result<(Mat, Activations<'r>, CtcLoss), Error>)
    requires
        tools.wf(),
        task.is_of(rec, tools.math(), labels@),
    ensures
        match (r, task.evaluated(strokes_view(strokes@), seg@)) {
            (Ok((features, saved, loss)), Ok((f, l))) => {
                &&& features@ == f
                &&& loss@ == l
                &&& f.cols == width_of(task.cfg)
                &&& f.cols == task.net.input_size
                &&& saved@.wf()
                &&& saved@.weights == task.net
                &&& saved@.rows == f.rows
                &&& saved@.saved == saved_of(
                    task.m.net,
                    task.net.layers,
                    f,
                    task.net.layers.len(),
                )
            },
            (Err(e), Err(g)) => e@ == g,
            _ => false,
        },
{
    let features: Mat = geometry(
        strokes,
        seg,
        &rec.spec.curve_settings,
        &rec.spec.pipeline,
        tools.geometry,
        Ghost(task),
    )?;
    let (logits, saved) = forward_with_activations(&rec.weights, &features, tools.net)?;
    let loss: CtcLoss = loss_and_grad(
        &logits,
        labels.as_slice(),
        rec.alphabet.blank,
        tools.log,
    )?;
    Ok((features, saved, loss))
}

proof fn lemma_gradient_length(
    w: NetworkView,
    saved: Seq<(Seq<Cell>, Seq<Cell>)>,
    rows: nat,
    grad: Seq<F64>,
)
    requires
        shapes_agree(w, rows),
    ensures
        gradient_at(w, saved, rows, head_gradient(w, rows, grad), 0).len() == rows * w.input_size,
{
    if w.layers.len() > 0 {
        let l = w.layers[0];
        assert(l.forward.input == width_after(w, 0));
    }
}

/// How the loss of an ink changes with every coordinate.
fn ink_gradient<R: Fn(F64) -> F64, H: Fn(F32, F32) -> F32, A: Fn(F32, F32) -> F32>(
    rec: &Recognizer<'_>,
    num: &Numerics<R, H, A>,
    strokes: &Vec<Stroke>,
    seg: &Segmentation,
    features: &Mat,
    saved: &Activations<'_>,
    loss: &CtcLoss,
    epsilon: F64,
    Ghost(task): Ghost<Task>,
) -> (r: Result<Vec<F64>, Error>)
    requires
        num.wf(),
        task.is_of(rec, task.m, task.labels),
        task.m.geometry == num.math(),
        all_placed(strokes_view(strokes@)),
        coordinate_total(strokes_view(strokes@)) <= usize::MAX,
        features@.cols == width_of(task.cfg),
        features@.cols == task.net.input_size,
        saved@.wf(),
        saved@.weights == task.net,
        saved@.rows == features@.rows,
        saved@.saved == saved_of(
            task.m.net,
            task.net.layers,
            features@,
            task.net.layers.len(),
        ),
    ensures
        match (
            r,
            task.gradient(strokes_view(strokes@), seg@, features@, loss@, epsilon),
        ) {
            (Ok(g), Ok(wanted)) => g@ == wanted && g@.len() == coordinate_total(
                strokes_view(strokes@),
            ),
            (Err(e), Err(g)) => e@ == g,
            _ => false,
        },
{
    proof {
        lemma_gradient_length(
            task.net,
            saved@.saved,
            features@.rows,
            loss@.grad,
        );
    }
    let d: Vec<F64> = saved_gradient(saved, loss.grad.as_slice())?;
    geometry_gradient(
        strokes,
        seg,
        &rec.spec.curve_settings,
        &rec.spec.pipeline,
        num,
        features.rows(),
        &d,
        epsilon,
        Ghost(task),
    )
}

/// The gradient of an ink by its own structure, if there is one.
fn sample_gradient<
    E: Fn(F64) -> F64,
    L: Fn(F64) -> F64,
    S: Fn(F64) -> F64,
    X: Fn(F32) -> F32,
    T: Fn(F32) -> F32,
    R: Fn(F64) -> F64,
    H: Fn(F32, F32) -> F32,
    A: Fn(F32, F32) -> F32,
>(
    rec: &Recognizer<'_>,
    tools: &Toolbox<E, L, S, X, T, R, H, A>,
    strokes: &Vec<Stroke>,
    labels: &Vec<usize>,
    epsilon: F64,
    Ghost(task): Ghost<Task>,
) -> (r: Option<Vec<F64>>)
    requires
        tools.wf(),
        task.is_of(rec, tools.math(), labels@),
        all_placed(strokes_view(strokes@)),
        coordinate_total(strokes_view(strokes@)) <= usize::MAX,
    ensures
        match (r, task.fresh_gradient(strokes_view(strokes@), epsilon)) {
            (Some(g), Some(wanted)) => g@ == wanted && g@.len() == coordinate_total(
                strokes_view(strokes@),
            ),
            (None, None) => true,
            _ => false,
        },
{
    let seg: Segmentation = match segment_for(
        strokes,
        &rec.spec.curve_settings,
        &rec.spec.pipeline,
        tools.geometry,
        Ghost(task),
    ) {
        Ok(seg) => seg,
        Err(_) => {
            return None;
        },
    };
    let (features, saved, loss) = match evaluate(rec, tools, strokes, &seg, labels, Ghost(task)) {
        Ok(parts) => parts,
        Err(_) => {
            return None;
        },
    };
    if !loss.loss.is_finite() {
        return None;
    }
    match ink_gradient(
        rec,
        tools.geometry,
        strokes,
        &seg,
        &features,
        &saved,
        &loss,
        epsilon,
        Ghost(task),
    ) {
        Ok(g) => Some(g),
        Err(_) => None,
    }
}

proof fn lemma_shaken_length(v: Seq<F64>, state: u64, spread: F64, n: nat)
    ensures
        shaken(v, state, spread, n).0.len() == n,
    decreases n,
{
    if n > 0 {
        lemma_shaken_length(v, state, spread, (n - 1) as nat);
    }
}

proof fn lemma_shaken_alike(strokes: Seq<StrokeView>, state: u64, spread: F64, k: nat)
    requires
        k <= strokes.len(),
    ensures
        shaken_strokes(strokes, state, spread, k).0.len() == k,
        forall|i: int|
            0 <= i < k ==> (#[trigger] shaken_strokes(strokes, state, spread, k).0[i]).x.len()
                == strokes[i].x.len() && shaken_strokes(strokes, state, spread, k).0[i].y.len()
                == strokes[i].y.len(),
    decreases k,
{
    if k > 0 {
        lemma_shaken_alike(strokes, state, spread, (k - 1) as nat);
        let (before, s) = shaken_strokes(strokes, state, spread, (k - 1) as nat);
        let stroke = strokes[k - 1];
        lemma_shaken_length(stroke.x, s, spread, stroke.x.len());
        let (x, t) = shaken(stroke.x, s, spread, stroke.x.len());
        lemma_shaken_length(stroke.y, t, spread, stroke.y.len());
        let out = shaken_strokes(strokes, state, spread, k).0;
        assert forall|i: int| 0 <= i < k implies (#[trigger] out[i]).x.len() == strokes[i].x.len()
            && out[i].y.len() == strokes[i].y.len() by {
            if i < k - 1 {
                assert(out[i] == before[i]);
            }
        }
    }
}

/// Averages in the gradients of a few jittered copies, each segmented afresh; what is
/// divided by is the number of gradients that there were.
fn add_robust<
    E: Fn(F64) -> F64,
    L: Fn(F64) -> F64,
    S: Fn(F64) -> F64,
    X: Fn(F32) -> F32,
    T: Fn(F32) -> F32,
    R: Fn(F64) -> F64,
    H: Fn(F32, F32) -> F32,
    A: Fn(F32, F32) -> F32,
>(
    rec: &Recognizer<'_>,
    tools: &Toolbox<E, L, S, X, T, R, H, A>,
    strokes: &Vec<Stroke>,
    labels: &Vec<usize>,
    gradient: Vec<F64>,
    seed: u64,
    spread: F64,
    epsilon: F64,
    copies: usize,
    Ghost(task): Ghost<Task>,
) -> (r: (Vec<F64>, usize))
    requires
        tools.wf(),
        task.is_of(rec, tools.math(), labels@),
        all_placed(strokes_view(strokes@)),
        coordinate_total(strokes_view(strokes@)) <= usize::MAX,
        gradient@.len() == coordinate_total(strokes_view(strokes@)),
        copies < usize::MAX,
    ensures
        (r.0@, r.1 as nat) == task.robust(
            strokes_view(strokes@),
            gradient@,
            seeded(seed),
            spread,
            epsilon,
            copies as nat,
        ),
        r.0@.len() == gradient@.len(),
{
    let ghost all = strokes_view(strokes@);
    let ghost start = gradient@;
    let mut noise: Noise = Noise::new(seed);
    let mut total: Vec<F64> = gradient;
    let mut count: usize = 1;
    let mut n: usize = 0;
    while n < copies
        invariant
            n <= copies,
            copies < usize::MAX,
            tools.wf(),
            task.is_of(rec, tools.math(), labels@),
            all == strokes_view(strokes@),
            all_placed(all),
            coordinate_total(all) <= usize::MAX,
            start.len() == coordinate_total(all),
            total@.len() == start.len(),
            noise.0 == Task::noise_after(all, seeded(seed), spread, n as nat),
            (total@, count as nat) == task.robust(
                all,
                start,
                seeded(seed),
                spread,
                epsilon,
                n as nat,
            ),
            1 <= count <= n + 1,
        decreases copies - n,
    {
        let ghost state = noise.0;
        let copy: Vec<Stroke> = noise.shake(strokes.as_slice(), spread);
        let ghost view = strokes_view(copy@);
        proof {
            lemma_shaken_alike(all, state, spread, all.len());
            assert forall|i: int| 0 <= i < view.len() implies (#[trigger] view[i]).placed() by {
                assert(all[i].placed());
                assert(view[i].x.len() == all[i].x.len());
            }
            assert forall|i: int| 0 <= i < view.len() implies (#[trigger] view[i]).x.len()
                == all[i].x.len() by {}
            lemma_coordinates_same(view, all, all.len() as int);
        }
        if let Some(extra) = sample_gradient(rec, tools, &copy, labels, epsilon, Ghost(task)) {
            let ghost before = total@;
            let mut i: usize = 0;
            while i < total.len()
                invariant
                    i <= total@.len(),
                    total@.len() == before.len(),
                    extra@.len() == before.len(),
                    forall|k: int|
                        0 <= k < i ==> #[trigger] total@[k] == before[k].sum(extra@[k]),
                    forall|k: int| i <= k < before.len() ==> total@[k] == before[k],
                decreases total@.len() - i,
            {
                let sum: F64 = total[i].plus(extra[i]);
                total.set(i, sum);
                i += 1;
            }
            assert(total@ =~= Seq::new(before.len(), |i: int| before[i].sum(extra@[i])));
            count = count + 1;
        }
        n += 1;
    }
    (total, count)
}

/// An ink that was visited, with its loss and its step.
#[verifier::ext_equal]
pub struct Visited {
    pub loss: F64,
    pub step: usize,
    pub strokes: Seq<StrokeView>,
}

/// How far a fit has come.
#[verifier::ext_equal]
pub struct Progress {
    pub seg: Seq<SegmentsView>,
    pub momentum: MomentumView,
    pub current: Seq<StrokeView>,
    /// The lowest loss found.
    pub best: Visited,
    /// The lowest loss among iterates that read as the target.
    pub matching: Option<Visited>,
    pub initial: F64,
    pub history: Seq<StepRecord>,
    pub done: bool,
}

/// What a fit aims at, and what holds it back.
pub struct Goal {
    pub target: Seq<char>,
    pub options: FitOptions,
    pub reference: Seq<StrokeView>,
    pub scale: F64,
    pub penalty: Penalty,
}

/// The goal of a target, options and a reference.
pub open spec fn goal_of(
    m: GeoMath,
    target: Seq<char>,
    options: FitOptions,
    reference: Seq<StrokeView>,
) -> Goal {
    let scale = scale_of(m, reference);
    Goal {
        target,
        options,
        reference,
        scale,
        penalty: penalty_of(
            m,
            reference,
            scale,
            options.anchor_weight,
            options.smoothness_weight,
        ),
    }
}

/// Whether the recognizer itself reads an ink as a text: by a fresh, full recognition,
/// not by logits that a frozen structure gave.
pub open spec fn reads(
    rec: &Recognizer<'_>,
    m: Tools,
    strokes: Seq<StrokeView>,
    target: Seq<char>,
) -> bool {
    rec.greedy_of(m, strokes) is Ok && rec.greedy_of(m, strokes)->Ok_0.text == target
}

/// Whether a step begins with a new segmentation.
pub open spec fn resegments(options: FitOptions, step: usize) -> bool {
    step > 0 && step as int % options.resegment_every as int == 0
}

/// Whether gradients of shaken copies are asked for.
pub open spec fn shakes(o: FitOptions) -> bool {
    o.robust_samples > 1 && !o.jitter.nan() && o.jitter.rank() > 0
}

/// A gradient averaged with those of shaken copies, where that is asked for.
pub open spec fn averaged(
    task: Task,
    goal: Goal,
    strokes: Seq<StrokeView>,
    gradient: Seq<F64>,
    step: usize,
) -> Seq<F64> {
    let o = goal.options;
    if shakes(o) {
        let (total, count) = task.robust(
            strokes,
            gradient,
            seeded((step + 1) as u64),
            o.jitter.product(goal.scale),
            (F64 { bits: 0x3f50_624d_d2f1_a9fc }).product(goal.scale),
            (o.robust_samples - 1) as nat,
        );
        total.map_values(|g: F64| g.quotient(F64::of_int(count as int)))
    } else {
        gradient
    }
}

/// What is noted of an evaluated ink: the first loss, the best ink so far, and the best
/// that reads as the target.
pub open spec fn noted(
    rec: &Recognizer<'_>,
    task: Task,
    goal: Goal,
    p: Progress,
    step: usize,
    loss: F64,
) -> Progress {
    let here = Visited { loss, step, strokes: p.current };
    Progress {
        initial: if step == 0 {
            loss
        } else {
            p.initial
        },
        best: if loss.below(p.best.loss) {
            here
        } else {
            p.best
        },
        matching: if (p.matching is None || loss.below(p.matching->0.loss)) && reads(
            rec,
            task.m,
            p.current,
            goal.target,
        ) {
            Some(here)
        } else {
            p.matching
        },
        ..p
    }
}

/// What an averaged gradient makes of an ink: one step down, held back by the penalty
/// and blurred.
pub open spec fn descended(
    task: Task,
    goal: Goal,
    p: Progress,
    step: usize,
    loss: F64,
    gradient: Seq<F64>,
) -> Progress {
    let o = goal.options;
    let pen = penalized(
        goal.penalty,
        averaged(task, goal, p.current, gradient, step),
        p.current,
        goal.reference,
        p.current.len(),
    );
    let direction = blurred_gradient(
        task.m.geometry,
        task.m.log,
        pen.gradient,
        p.current,
        o.smoothing.product(goal.scale),
    );
    let momentum = pushed(p.momentum, direction);
    Progress {
        momentum,
        current: stepped_ink(
            task.m.geometry,
            momentum,
            p.current,
            o.learning_rate.product(goal.scale),
        ),
        history: p.history.push(
            StepRecord {
                step,
                ctc_loss: loss,
                regularization: pen.loss,
                resegmented: resegments(o, step),
            },
        ),
        ..p
    }
}

/// The structure at a step: a new one where it is due, which forgets all momentum.
pub open spec fn restructured(task: Task, goal: Goal, p: Progress, step: usize) -> Result<
    Progress,
    ErrorView,
> {
    if resegments(goal.options, step) {
        match task.segmented(p.current) {
            Err(e) => Err(e),
            Ok(seg) => Ok(Progress { seg, momentum: at_rest(p.momentum.velocity.len()), ..p }),
        }
    } else {
        Ok(p)
    }
}

/// One step of a fit. The last only evaluates; so does one whose loss is not finite,
/// since it offers no gradient.
#[verifier::opaque]
pub open spec fn fit_step(
    rec: &Recognizer<'_>,
    task: Task,
    goal: Goal,
    p: Progress,
    step: usize,
) -> Result<Progress, ErrorView> {
    match restructured(task, goal, p, step) {
        Err(e) => Err(e),
        Ok(q) => match task.evaluated(q.current, q.seg) {
            Err(e) => Err(e),
            Ok((features, loss)) => {
                let n = noted(rec, task, goal, q, step, loss.loss);
                if !loss.loss.finite() || step == goal.options.steps {
                    Ok(
                        Progress {
                            history: n.history.push(
                                StepRecord {
                                    step,
                                    ctc_loss: loss.loss,
                                    regularization: F64 { bits: 0 },
                                    resegmented: resegments(goal.options, step),
                                },
                            ),
                            done: true,
                            ..n
                        },
                    )
                } else {
                    match task.gradient(
                        q.current,
                        q.seg,
                        features,
                        loss,
                        (F64 { bits: 0x3f50_624d_d2f1_a9fc }).product(goal.scale),
                    ) {
                        Err(e) => Err(e),
                        Ok(g) => Ok(descended(task, goal, n, step, loss.loss, g)),
                    }
                }
            },
        },
    }
}

/// A fit before its first step.
pub open spec fn fit_start(strokes: Seq<StrokeView>, seg: Seq<SegmentsView>) -> Progress {
    Progress {
        seg,
        momentum: at_rest(coordinate_total(strokes)),
        current: strokes,
        best: Visited { loss: F64 { bits: TOP64 }, step: 0, strokes },
        matching: None,
        initial: F64 { bits: 0x7ff8_0000_0000_0000 },
        history: Seq::empty(),
        done: false,
    }
}

/// A fit after at most `k` steps.
pub open spec fn fit_after(
    rec: &Recognizer<'_>,
    task: Task,
    goal: Goal,
    strokes: Seq<StrokeView>,
    k: nat,
) -> Result<Progress, ErrorView>
    decreases k,
{
    if k == 0 {
        match task.segmented(strokes) {
            Err(e) => Err(e),
            Ok(seg) => Ok(fit_start(strokes, seg)),
        }
    } else {
        match fit_after(rec, task, goal, strokes, (k - 1) as nat) {
            Err(e) => Err(e),
            Ok(p) => if p.done {
                Ok(p)
            } else {
                fit_step(rec, task, goal, p, (k - 1) as usize)
            },
        }
    }
}

/// Whether a fit's ink can still be moved: as many samples as the reference, each with
/// its place, and a velocity for each coordinate.
pub open spec fn is_sound(goal: Goal, p: Progress) -> bool {
    &&& alike(p.current, goal.reference)
    &&& p.momentum.velocity.len() == coordinate_total(p.current)
    &&& coordinate_total(p.current) <= usize::MAX
}

proof fn lemma_moved_alike(goal: Goal, p: Progress, after: Seq<StrokeView>)
    requires
        is_sound(goal, p),
        after.len() == p.current.len(),
        forall|i: int|
            0 <= i < after.len() ==> (#[trigger] after[i]).x.len() == p.current[i].x.len()
                && after[i].y.len() == p.current[i].y.len(),
    ensures
        alike(after, goal.reference),
        coordinate_total(after) == coordinate_total(p.current),
{
    assert forall|i: int| 0 <= i < after.len() implies (#[trigger] after[i]).placed()
        && goal.reference[i].placed() && after[i].x.len() == goal.reference[i].x.len() by {
        assert(p.current[i].placed());
    }
    assert forall|i: int| 0 <= i < after.len() implies (#[trigger] after[i]).x.len()
        == p.current[i].x.len() by {}
    lemma_coordinates_same(after, p.current, after.len() as int);
}

/// A visited ink.
struct Kept {
    loss: F64,
    step: usize,
    strokes: Vec<Stroke>,
}

impl View for Kept {
    type V = Visited;

    closed spec fn view(&self) -> Visited {
        Visited { loss: self.loss, step: self.step, strokes: strokes_view(self.strokes@) }
    }
}

/// The working state of a fit.
struct Fit {
    seg: Segmentation,
    momentum: Momentum,
    current: Vec<Stroke>,
    best: Kept,
    matching: Option<Kept>,
    initial: F64,
    history: Vec<StepRecord>,
    done: bool,
}

impl View for Fit {
    type V = Progress;

    closed spec fn view(&self) -> Progress {
        Progress {
            seg: self.seg@,
            momentum: self.momentum@,
            current: strokes_view(self.current@),
            best: self.best@,
            matching: match self.matching {
                Some(k) => Some(k@),
                None => None,
            },
            initial: self.initial,
            history: self.history@,
            done: self.done,
        }
    }
}

/// What does not change during a fit.
struct Frame<'f, 'r> {
    rec: &'f Recognizer<'r>,
    labels: &'f Vec<usize>,
    target: Vec<char>,
    options: FitOptions,
    reference: &'f Vec<Stroke>,
    scale: F64,
    penalty: Penalty,
}

impl Frame<'_, '_> {
    spec fn goal(&self) -> Goal {
        Goal {
            target: self.target@,
            options: self.options,
            reference: strokes_view(self.reference@),
            scale: self.scale,
            penalty: self.penalty,
        }
    }
}

impl Fit {
    fn restructure<R: Fn(F64) -> F64, H: Fn(F32, F32) -> F32, A: Fn(F32, F32) -> F32>(
        &mut self,
        frame: &Frame<'_, '_>,
        num: &Numerics<R, H, A>,
        step: usize,
        Ghost(task): Ghost<Task>,
    ) -> (r: Result<(), Error>)
        requires
            num.wf(),
            task.is_of(frame.rec, task.m, frame.labels@),
            task.m.geometry == num.math(),
            frame.options.resegment_every > 0,
        ensures
            match (r, restructured(task, frame.goal(), old(self)@, step)) {
                (Ok(_), Ok(p)) => final(self)@ == p,
                (Err(e), Err(g)) => e@ == g,
                _ => false,
            },
    {
        if step > 0 && step % frame.options.resegment_every == 0 {
            self.seg = segment_for(
                &self.current,
                &frame.rec.spec.curve_settings,
                &frame.rec.spec.pipeline,
                num,
                Ghost(task),
            )?;
            self.momentum.reset();
        }
        Ok(())
    }

    fn here(&self, loss: F64, step: usize) -> (r: Kept)
        ensures
            r@ == (Visited { loss, step, strokes: self@.current }),
    {
        Kept { loss, step, strokes: copy_strokes(self.current.as_slice()) }
    }

    fn note<
        E: Fn(F64) -> F64,
        L: Fn(F64) -> F64,
        S: Fn(F64) -> F64,
        X: Fn(F32) -> F32,
        T: Fn(F32) -> F32,
        R: Fn(F64) -> F64,
        H: Fn(F32, F32) -> F32,
        A: Fn(F32, F32) -> F32,
    >(
        &mut self,
        frame: &Frame<'_, '_>,
        tools: &Toolbox<E, L, S, X, T, R, H, A>,
        step: usize,
        loss: F64,
        Ghost(task): Ghost<Task>,
    )
        requires
            tools.wf(),
            task.m == tools.math(),
        ensures
            final(self)@ == noted(frame.rec, task, frame.goal(), old(self)@, step, loss),
    {
        if step == 0 {
            self.initial = loss;
        }
        if loss.less(self.best.loss) {
            self.best = self.here(loss, step);
        }
        let better: bool = match &self.matching {
            None => true,
            Some(k) => loss.less(k.loss),
        };
        if better {
            let matched: bool = match frame.rec.recognize_greedy(
                self.current.as_slice(),
                tools,
            ) {
                Ok(c) => same_chars(chars_of(c.text.as_str()).as_slice(), frame.target.as_slice()),
                Err(_) => false,
            };
            if matched {
                self.matching = Some(self.here(loss, step));
            }
        }
    }

    fn average<
        E: Fn(F64) -> F64,
        L: Fn(F64) -> F64,
        S: Fn(F64) -> F64,
        X: Fn(F32) -> F32,
        T: Fn(F32) -> F32,
        R: Fn(F64) -> F64,
        H: Fn(F32, F32) -> F32,
        A: Fn(F32, F32) -> F32,
    >(
        &self,
        frame: &Frame<'_, '_>,
        tools: &Toolbox<E, L, S, X, T, R, H, A>,
        step: usize,
        gradient: Vec<F64>,
        Ghost(task): Ghost<Task>,
    ) -> (r: Vec<F64>)
        requires
            tools.wf(),
            task.is_of(frame.rec, tools.math(), frame.labels@),
            is_sound(frame.goal(), self@),
            gradient@.len() == coordinate_total(self@.current),
            step < usize::MAX,
        ensures
            r@ == averaged(task, frame.goal(), self@.current, gradient@, step),
            r@.len() == gradient@.len(),
    {
        let o: FitOptions = frame.options;
        if !(o.robust_samples > 1 && o.jitter.is_positive()) {
            return gradient;
        }
        proof {
            lemma_sound_placed(frame.goal(), self@);
        }
        let (total, count) = add_robust(
            frame.rec,
            tools,
            &self.current,
            frame.labels,
            gradient,
            step as u64 + 1,
            o.jitter.times(frame.scale),
            (F64 { bits: 0x3f50_624d_d2f1_a9fc }).times(frame.scale),
            o.robust_samples - 1,
            Ghost(task),
        );
        let divisor: F64 = F64::from_nat(count as u64);
        let mut out: Vec<F64> = Vec::new();
        let mut i: usize = 0;
        while i < total.len()
            invariant
                i <= total@.len(),
                out@.len() == i,
                forall|k: int| 0 <= k < i ==> #[trigger] out@[k] == total@[k].quotient(divisor),
            decreases total@.len() - i,
        {
            out.push(total[i].over(divisor));
            i += 1;
        }
        assert(out@ =~= total@.map_values(|g: F64| g.quotient(divisor)));
        out
    }

    fn descend<
        E: Fn(F64) -> F64,
        L: Fn(F64) -> F64,
        S: Fn(F64) -> F64,
        X: Fn(F32) -> F32,
        T: Fn(F32) -> F32,
        R: Fn(F64) -> F64,
        H: Fn(F32, F32) -> F32,
        A: Fn(F32, F32) -> F32,
    >(
        &mut self,
        frame: &Frame<'_, '_>,
        tools: &Toolbox<E, L, S, X, T, R, H, A>,
        step: usize,
        loss: F64,
        gradient: Vec<F64>,
        Ghost(task): Ghost<Task>,
    )
        requires
            tools.wf(),
            task.is_of(frame.rec, tools.math(), frame.labels@),
            is_sound(frame.goal(), old(self)@),
            gradient@.len() == coordinate_total(old(self)@.current),
            step < usize::MAX,
            frame.options.resegment_every > 0,
        ensures
            final(self)@ == descended(
                task,
                frame.goal(),
                old(self)@,
                step,
                loss,
                gradient@,
            ),
            is_sound(frame.goal(), final(self)@),
    {
        let ghost before = self@;
        let ghost goal = frame.goal();
        proof {
            lemma_sound_placed(goal, before);
        }
        let mut g: Vec<F64> = self.average(frame, tools, step, gradient, Ghost(task));
        let regularization: F64 = frame.penalty.add(
            &mut g,
            self.current.as_slice(),
            frame.reference.as_slice(),
        );
        let direction: Vec<F64> = blur_along_strokes(
            g,
            &self.current,
            frame.options.smoothing.times(frame.scale),
            tools.log,
            tools.geometry,
        );
        let next: Vec<Stroke> = self.momentum.step(
            &self.current,
            &direction,
            frame.options.learning_rate.times(frame.scale),
            tools.geometry,
        );
        proof {
            let after = strokes_view(next@);
            lemma_moved_alike(goal, before, after);
        }
        self.current = next;
        self.history.push(
            StepRecord {
                step,
                ctc_loss: loss,
                regularization,
                resegmented: step > 0 && step % frame.options.resegment_every == 0,
            },
        );
        assert(self@ =~= descended(task, goal, before, step, loss, gradient@));
    }

    /// Takes one step.
    fn step<
        E: Fn(F64) -> F64,
        L: Fn(F64) -> F64,
        S: Fn(F64) -> F64,
        X: Fn(F32) -> F32,
        T: Fn(F32) -> F32,
        R: Fn(F64) -> F64,
        H: Fn(F32, F32) -> F32,
        A: Fn(F32, F32) -> F32,
    >(
        &mut self,
        frame: &Frame<'_, '_>,
        tools: &Toolbox<E, L, S, X, T, R, H, A>,
        step: usize,
        Ghost(task): Ghost<Task>,
    ) -> (r: Result<(), Error>)
        requires
            tools.wf(),
            task.is_of(frame.rec, tools.math(), frame.labels@),
            is_sound(frame.goal(), old(self)@),
            step <= frame.options.steps,
            frame.options.resegment_every > 0,
        ensures
            match (r, fit_step(frame.rec, task, frame.goal(), old(self)@, step)) {
                (Ok(_), Ok(p)) => final(self)@ == p && is_sound(frame.goal(), p),
                (Err(e), Err(g)) => e@ == g,
                _ => false,
            },
    {
        let ghost goal = frame.goal();
        proof {
            reveal(fit_step);
        }
        self.restructure(frame, tools.geometry, step, Ghost(task))?;
        let ghost q = self@;
        assert(is_sound(goal, q));
        let (features, saved, loss) = evaluate(
            frame.rec,
            tools,
            &self.current,
            &self.seg,
            frame.labels,
            Ghost(task),
        )?;
        self.note(frame, tools, step, loss.loss, Ghost(task));
        let ghost n = self@;
        assert(is_sound(goal, n));
        if !loss.loss.is_finite() || step == frame.options.steps {
            self.history.push(
                StepRecord {
                    step,
                    ctc_loss: loss.loss,
                    regularization: F64 { bits: 0 },
                    resegmented: step > 0 && step % frame.options.resegment_every == 0,
                },
            );
            self.done = true;
            assert(self@.history =~= n.history.push(
                StepRecord {
                    step,
                    ctc_loss: loss.loss,
                    regularization: F64 { bits: 0 },
                    resegmented: resegments(goal.options, step),
                },
            ));
            return Ok(());
        }
        proof {
            lemma_sound_placed(goal, n);
        }
        let gradient: Vec<F64> = ink_gradient(
            frame.rec,
            tools.geometry,
            &self.current,
            &self.seg,
            &features,
            &saved,
            &loss,
            (F64 { bits: 0x3f50_624d_d2f1_a9fc }).times(frame.scale),
            Ghost(task),
        )?;
        self.descend(frame, tools, step, loss.loss, gradient, Ghost(task));
        Ok(())
    }
}

proof fn lemma_sound_placed(goal: Goal, p: Progress)
    requires
        is_sound(goal, p),
    ensures
        all_placed(p.current),
{
    assert forall|i: int| 0 <= i < p.current.len() implies (#[trigger] p.current[i]).placed() by {
    }
}

/// What is wrong with the first pair of strokes, from `i` on, that do not fit together.
pub open spec fn pair_problem(
    reference: Seq<StrokeView>,
    strokes: Seq<StrokeView>,
    i: int,
) -> Option<ErrorView>
    decreases reference.len() - i,
{
    if i < 0 || i >= reference.len() {
        None
    } else if !reference[i].placed() || !strokes[i].placed() {
        Some(
            ErrorView::Invalid(
                "stroke "@ + dec(i as nat) + ": x and y must be the same length"@,
            ),
        )
    } else if reference[i].x.len() != strokes[i].x.len() {
        Some(
            ErrorView::Invalid(
                "stroke "@ + dec(i as nat) + ": the reference has "@ + dec(reference[i].x.len())
                    + " samples, the ink has "@ + dec(strokes[i].x.len()),
            ),
        )
    } else {
        pair_problem(reference, strokes, i + 1)
    }
}

/// What is wrong with two inks.
pub open spec fn inks_problem(reference: Seq<StrokeView>, strokes: Seq<StrokeView>) -> Option<
    ErrorView,
> {
    if reference.len() != strokes.len() {
        Some(
            ErrorView::Invalid(
                "the regularization reference has "@ + dec(reference.len())
                    + " strokes, the ink has "@ + dec(strokes.len()),
            ),
        )
    } else if pair_problem(reference, strokes, 0) is Some {
        pair_problem(reference, strokes, 0)
    } else if coordinate_total(strokes) > usize::MAX {
        Some(ErrorView::Invalid("too many samples"@))
    } else {
        None
    }
}

/// The labels of a target, or what is wrong with it or the options.
pub open spec fn labels_result(a: AlphabetView, target: Seq<char>, options: FitOptions) -> Result<
    Seq<usize>,
    ErrorView,
> {
    if options.steps == 0 {
        Err(ErrorView::Invalid("steps must be positive"@))
    } else if options.resegment_every == 0 {
        Err(ErrorView::Invalid("resegment_every must be positive"@))
    } else {
        match spelled_from(a, target, 0) {
            Err(c) => Err(unspellable(c)),
            Ok(labels) => if labels.len() == 0 {
                Err(ErrorView::Invalid("target is empty"@))
            } else {
                Ok(labels)
            },
        }
    }
}

/// Where a fit ends, or what stops it.
pub open spec fn fit_result(
    rec: &Recognizer<'_>,
    m: Tools,
    strokes: Seq<StrokeView>,
    reference: Seq<StrokeView>,
    target: Seq<char>,
    options: FitOptions,
) -> Result<Progress, ErrorView> {
    match labels_result(rec.alphabet@, target, options) {
        Err(e) => Err(e),
        Ok(labels) => match inks_problem(reference, strokes) {
            Some(e) => Err(e),
            None => fit_after(
                rec,
                task_of(rec, m, labels),
                goal_of(m.geometry, target, options, reference),
                strokes,
                options.steps as nat + 1,
            ),
        },
    }
}

/// The task of a recognizer and labels.
pub open spec fn task_of(rec: &Recognizer<'_>, m: Tools, labels: Seq<usize>) -> Task {
    Task {
        m,
        cfg: rec.spec.curve_settings,
        pipeline: steps_view(rec.spec.pipeline@),
        net: rec.weights@,
        blank: rec.alphabet.blank,
        labels,
    }
}

impl FitReport {
    /// Whether this reports where a fit ended: the best ink that reads as the target, or
    /// else the one with the lowest loss.
    pub open spec fn reports(&self, p: Progress) -> bool {
        let chosen = match p.matching {
            Some(v) => v,
            None => p.best,
        };
        &&& strokes_view(self.strokes@) == chosen.strokes
        &&& self.best_ctc_loss == chosen.loss
        &&& self.best_step == chosen.step
        &&& self.matched == (p.matching is Some)
        &&& self.initial_ctc_loss == p.initial
        &&& strokes_view(self.last@) == p.current
        &&& self.history@ == p.history
    }
}

fn pair_error(i: usize) -> (r: Error)
    ensures
        r@ == ErrorView::Invalid(
            "stroke "@ + dec(i as nat) + ": x and y must be the same length"@,
        ),
{
    Error::Invalid(text_with("stroke ", i as u64, ": x and y must be the same length"))
}

fn check_inks(reference: &[Stroke], strokes: &[Stroke]) -> (r: Result<usize, Error>)
    ensures
        match (r, inks_problem(strokes_view(reference@), strokes_view(strokes@))) {
            (Ok(total), None) => {
                &&& alike(strokes_view(strokes@), strokes_view(reference@))
                &&& total == coordinate_total(strokes_view(strokes@))
                &&& total == coordinate_total(strokes_view(reference@))
            },
            (Err(e), Some(g)) => e@ == g,
            _ => false,
        },
{
    let ghost a = strokes_view(reference@);
    let ghost b = strokes_view(strokes@);
    if reference.len() != strokes.len() {
        let mut s: String = text_with(
            "the regularization reference has ",
            reference.len() as u64,
            " strokes, the ink has ",
        );
        push_dec(&mut s, strokes.len() as u64);
        return Err(Error::Invalid(s));
    }
    let mut i: usize = 0;
    while i < reference.len()
        invariant
            i <= reference@.len(),
            reference@.len() == strokes@.len(),
            a == strokes_view(reference@),
            b == strokes_view(strokes@),
            pair_problem(a, b, 0) == pair_problem(a, b, i as int),
            forall|k: int|
                0 <= k < i ==> (#[trigger] b[k]).placed() && a[k].placed() && b[k].x.len()
                    == a[k].x.len(),
        decreases reference@.len() - i,
    {
        let x: &Stroke = &reference[i];
        let y: &Stroke = &strokes[i];
        assert(x@ == a[i as int] && y@ == b[i as int]);
        if x.x.len() != x.y.len() || y.x.len() != y.y.len() {
            return Err(pair_error(i));
        }
        if x.x.len() != y.x.len() {
            let mut s: String = text_with("stroke ", i as u64, ": the reference has ");
            push_dec(&mut s, x.x.len() as u64);
            s.append(" samples, the ink has ");
            push_dec(&mut s, y.x.len() as u64);
            return Err(Error::Invalid(s));
        }
        i += 1;
    }
    assert(alike(b, a));
    proof {
        assert forall|k: int| 0 <= k < b.len() implies (#[trigger] b[k]).x.len()
            == a[k].x.len() by {}
        lemma_coordinates_same(b, a, b.len() as int);
    }
    match coordinate_count(strokes) {
        Some(total) => Ok(total),
        None => Err(invalid("too many samples")),
    }
}

/// Moves ink so that the recognizer reads it as `target`.
///
/// Timestamps are left alone: "write the same shape at a different speed" is a strange
/// thing to ask an optimizer for. Only x and y move.
pub fn fit_strokes<
    E: Fn(F64) -> F64,
    L: Fn(F64) -> F64,
    S: Fn(F64) -> F64,
    X: Fn(F32) -> F32,
    T: Fn(F32) -> F32,
    R: Fn(F64) -> F64,
    H: Fn(F32, F32) -> F32,
    A: Fn(F32, F32) -> F32,
>(
    recognizer: &Recognizer<'_>,
    strokes: &[Stroke],
    target: &str,
    options: &FitOptions,
    tools: &Toolbox<E, L, S, X, T, R, H, A>,
) -> (r: Result<FitReport, Error>)
    requires
        tools.wf(),
    ensures
        match (
            r,
            fit_result(
                recognizer,
                tools.math(),
                strokes_view(strokes@),
                strokes_view(strokes@),
                target@,
                *options,
            ),
        ) {
            (Ok(report), Ok(p)) => report.reports(p),
            (Err(e), Err(g)) => e@ == g,
            _ => false,
        },
{
    fit_strokes_from(recognizer, strokes, strokes, target, options, tools)
}

/// As [`fit_strokes`], with the ink the penalties should pull *back toward* supplied
/// separately from the ink to start descending from.
///
/// They differ whenever a fit is resumed: both penalties measure deformation away from
/// `reference`, so one that advanced with the search would make them do nothing.
pub fn fit_strokes_from<
    E: Fn(F64) -> F64,
    L: Fn(F64) -> F64,
    S: Fn(F64) -> F64,
    X: Fn(F32) -> F32,
    T: Fn(F32) -> F32,
    R: Fn(F64) -> F64,
    H: Fn(F32, F32) -> F32,
    A: Fn(F32, F32) -> F32,
>(
    recognizer: &Recognizer<'_>,
    strokes: &[Stroke],
    reference: &[Stroke],
    target: &str,
    options: &FitOptions,
    tools: &Toolbox<E, L, S, X, T, R, H, A>,
) -> (r: Result<FitReport, Error>)
    requires
        tools.wf(),
    ensures
        match (
            r,
            fit_result(
                recognizer,
                tools.math(),
                strokes_view(strokes@),
                strokes_view(reference@),
                target@,
                *options,
            ),
        ) {
            (Ok(report), Ok(p)) => report.reports(p),
            (Err(e), Err(g)) => e@ == g,
            _ => false,
        },
{
    let ghost m = tools.math();
    if options.steps == 0 {
        return Err(invalid("steps must be positive"));
    }
    if options.resegment_every == 0 {
        return Err(invalid("resegment_every must be positive"));
    }
    let labels: Vec<usize> = target_indices(&recognizer.alphabet, target)?;
    if labels.len() == 0 {
        return Err(invalid("target is empty"));
    }
    let total: usize = check_inks(reference, strokes)?;
    let original: Vec<Stroke> = copy_strokes(reference);
    let scale: F64 = ink_scale(reference, tools.geometry);
    let penalty: Penalty = Penalty::new(
        reference,
        total,
        scale,
        options.anchor_weight,
        options.smoothness_weight,
        tools.geometry,
    );
    let frame: Frame<'_, '_> = Frame {
        rec: recognizer,
        labels: &labels,
        target: chars_of(target),
        options: *options,
        reference: &original,
        scale,
        penalty,
    };
    let ghost task = task_of(recognizer, m, labels@);
    let ghost goal = goal_of(m.geometry, target@, *options, strokes_view(reference@));
    assert(frame.goal() == goal);
    let fit: Fit = run_fit(&frame, tools, strokes, total, Ghost(task))?;
    Ok(report_of(fit))
}

fn report_of(fit: Fit) -> (r: FitReport)
    ensures
        r.reports(fit@),
{
    let matched: bool = fit.matching.is_some();
    let chosen: Kept = match fit.matching {
        Some(kept) => kept,
        None => fit.best,
    };
    FitReport {
        strokes: chosen.strokes,
        initial_ctc_loss: fit.initial,
        best_ctc_loss: chosen.loss,
        best_step: chosen.step,
        last: fit.current,
        matched,
        history: fit.history,
    }
}

/// Runs a fit to its end.
fn run_fit<
    E: Fn(F64) -> F64,
    L: Fn(F64) -> F64,
    S: Fn(F64) -> F64,
    X: Fn(F32) -> F32,
    T: Fn(F32) -> F32,
    R: Fn(F64) -> F64,
    H: Fn(F32, F32) -> F32,
    A: Fn(F32, F32) -> F32,
>(
    frame: &Frame<'_, '_>,
    tools: &Toolbox<E, L, S, X, T, R, H, A>,
    strokes: &[Stroke],
    total: usize,
    Ghost(task): Ghost<Task>,
) -> (r: Result<Fit, Error>)
    requires
        tools.wf(),
        task.is_of(frame.rec, tools.math(), frame.labels@),
        frame.options.resegment_every > 0,
        alike(strokes_view(strokes@), frame.goal().reference),
        total == coordinate_total(strokes_view(strokes@)),
    ensures
        match (
            r,
            fit_after(
                frame.rec,
                task,
                frame.goal(),
                strokes_view(strokes@),
                frame.options.steps as nat + 1,
            ),
        ) {
            (Ok(fit), Ok(p)) => fit@ == p,
            (Err(e), Err(g)) => e@ == g,
            _ => false,
        },
{
    let ghost all = strokes_view(strokes@);
    let ghost goal = frame.goal();
    let ghost last = frame.options.steps as nat + 1;
    let current: Vec<Stroke> = copy_strokes(strokes);
    let seg: Segmentation = match segment_for(
        &current,
        &frame.rec.spec.curve_settings,
        &frame.rec.spec.pipeline,
        tools.geometry,
        Ghost(task),
    ) {
        Ok(seg) => seg,
        Err(e) => {
            proof {
                lemma_fit_failed(frame.rec, task, goal, all, 0, last);
            }
            return Err(e);
        },
    };
    let mut fit: Fit = Fit {
        seg,
        momentum: Momentum::new(total),
        best: Kept { loss: F64 { bits: TOP64 }, step: 0, strokes: copy_strokes(strokes) },
        current,
        matching: None,
        initial: F64 { bits: 0x7ff8_0000_0000_0000 },
        history: Vec::new(),
        done: false,
    };
    assert(fit@ =~= fit_start(all, fit@.seg));
    let mut step: usize = 0;
    while !fit.done
        invariant
            tools.wf(),
            task.is_of(frame.rec, tools.math(), frame.labels@),
            frame.options.resegment_every > 0,
            goal == frame.goal(),
            last == frame.options.steps as nat + 1,
            all == strokes_view(strokes@),
            is_sound(goal, fit@),
            !fit.done ==> step <= frame.options.steps,
            fit.done ==> step as nat <= last,
            step as nat <= last,
            fit_after(frame.rec, task, goal, all, step as nat) == Ok::<Progress, ErrorView>(fit@)
                || (fit.done && fit_after(frame.rec, task, goal, all, (step + 1) as nat) == Ok::<
                Progress,
                ErrorView,
            >(fit@) && step as nat + 1 <= last),
            fit@.done == fit.done,
        decreases frame.options.steps + 1 - step + (if fit.done { 0int } else { 1 }),
    {
        let ghost p = fit@;
        match fit.step(frame, tools, step, Ghost(task)) {
            Err(e) => {
                proof {
                    lemma_fit_failed(frame.rec, task, goal, all, (step + 1) as nat, last);
                }
                return Err(e);
            },
            Ok(_) => {},
        }
        proof {
            lemma_step_done(frame.rec, task, goal, p, step);
        }
        if !fit.done {
            step += 1;
        }
    }
    proof {
        let k = if fit_after(frame.rec, task, goal, all, step as nat) == Ok::<
            Progress,
            ErrorView,
        >(fit@) {
            step as nat
        } else {
            (step + 1) as nat
        };
        lemma_fit_settled(frame.rec, task, goal, all, k, last);
    }
    Ok(fit)
}

proof fn lemma_step_done(rec: &Recognizer<'_>, task: Task, goal: Goal, p: Progress, step: usize)
    requires
        !p.done,
    ensures
        fit_step(rec, task, goal, p, step) is Ok && step == goal.options.steps ==> fit_step(
            rec,
            task,
            goal,
            p,
            step,
        )->Ok_0.done,
{
    reveal(fit_step);
}

proof fn lemma_fit_failed(
    rec: &Recognizer<'_>,
    task: Task,
    goal: Goal,
    strokes: Seq<StrokeView>,
    k: nat,
    n: nat,
)
    requires
        k <= n,
        fit_after(rec, task, goal, strokes, k) is Err,
    ensures
        fit_after(rec, task, goal, strokes, n) == fit_after(rec, task, goal, strokes, k),
    decreases n,
{
    if k < n {
        lemma_fit_failed(rec, task, goal, strokes, k, (n - 1) as nat);
    }
}

proof fn lemma_fit_settled(
    rec: &Recognizer<'_>,
    task: Task,
    goal: Goal,
    strokes: Seq<StrokeView>,
    k: nat,
    n: nat,
)
    requires
        k <= n,
        fit_after(rec, task, goal, strokes, k) is Ok,
        fit_after(rec, task, goal, strokes, k)->Ok_0.done,
    ensures
        fit_after(rec, task, goal, strokes, n) == fit_after(rec, task, goal, strokes, k),
    decreases n,
{
    if k < n {
        lemma_fit_settled(rec, task, goal, strokes, k, (n - 1) as nat);
    }
}

/// Whether an ink differs from another in x and y alone.
pub open spec fn same_but_places(a: Seq<StrokeView>, b: Seq<StrokeView>) -> bool {
    &&& a.len() == b.len()
    &&& forall|i: int|
        0 <= i < a.len() ==> {
            &&& (#[trigger] a[i]).t == b[i].t
            &&& a[i].pen_up == b[i].pen_up
            &&& a[i].x.len() == b[i].x.len()
            &&& a[i].y.len() == b[i].y.len()
        }
}

/// Whether what a fit has noted is true of where it has been.
pub open spec fn is_honest(
    rec: &Recognizer<'_>,
    m: Tools,
    goal: Goal,
    strokes: Seq<StrokeView>,
    p: Progress,
) -> bool {
    &&& same_but_places(p.current, strokes)
    &&& same_but_places(p.best.strokes, strokes)
    &&& p.matching is Some ==> same_but_places(p.matching->0.strokes, strokes) && reads(
        rec,
        m,
        p.matching->0.strokes,
        goal.target,
    )
    &&& forall|k: int|
        0 <= k < p.history.len() ==> {
            let h = #[trigger] p.history[k];
            &&& h.step == k
            &&& h.resegmented == resegments(goal.options, h.step)
            &&& !h.ctc_loss.below(p.best.loss)
        }
    &&& p.history.len() > 0 ==> p.initial == p.history[0].ctc_loss
}

proof fn lemma_step_honest(
    rec: &Recognizer<'_>,
    task: Task,
    goal: Goal,
    strokes: Seq<StrokeView>,
    p: Progress,
    step: usize,
)
    requires
        is_honest(rec, task.m, goal, strokes, p),
        p.history.len() == step,
    ensures
        fit_step(rec, task, goal, p, step) is Ok ==> {
            let q = fit_step(rec, task, goal, p, step)->Ok_0;
            &&& is_honest(rec, task.m, goal, strokes, q)
            &&& q.history.len() == step + 1
        },
{
    reveal(fit_step);
    if let Ok(r) = restructured(task, goal, p, step) {
        if let Ok((features, loss)) = task.evaluated(r.current, r.seg) {
            let n = noted(rec, task, goal, r, step, loss.loss);
            assert(forall|k: int|
                0 <= k < n.history.len() ==> !(#[trigger] n.history[k]).ctc_loss.below(
                    n.best.loss,
                )) by {
                assert forall|k: int| 0 <= k < n.history.len() implies !(
                #[trigger] n.history[k]).ctc_loss.below(n.best.loss) by {
                    assert(n.history[k] == p.history[k]);
                    assert(!p.history[k].ctc_loss.below(p.best.loss));
                }
            }
            assert(!loss.loss.below(n.best.loss));
            if let Ok(q) = fit_step(rec, task, goal, p, step) {
                assert(q.best == n.best && q.matching == n.matching && q.initial == n.initial);
                let h = q.history[step as int];
                assert(q.history =~= p.history.push(h));
                assert(h.step == step && h.ctc_loss == loss.loss);
                assert forall|k: int| 0 <= k < q.history.len() implies {
                    let h = #[trigger] q.history[k];
                    &&& h.step == k
                    &&& h.resegmented == resegments(goal.options, h.step)
                    &&& !h.ctc_loss.below(q.best.loss)
                } by {
                    if k < step {
                        assert(q.history[k] == n.history[k]);
                        assert(n.history[k] == p.history[k]);
                    }
                }
                assert(same_but_places(q.current, strokes)) by {
                    assert forall|i: int| 0 <= i < q.current.len() implies {
                        &&& (#[trigger] q.current[i]).t == strokes[i].t
                        &&& q.current[i].pen_up == strokes[i].pen_up
                        &&& q.current[i].x.len() == strokes[i].x.len()
                        &&& q.current[i].y.len() == strokes[i].y.len()
                    } by {
                        assert(p.current[i].t == strokes[i].t);
                    }
                }
                if step == 0 {
                    assert(q.initial == q.history[0].ctc_loss);
                } else {
                    assert(q.history[0] == p.history[0]);
                }
            }
        }
    }
}

proof fn lemma_fit_honest(
    rec: &Recognizer<'_>,
    task: Task,
    goal: Goal,
    strokes: Seq<StrokeView>,
    k: nat,
)
    requires
        k <= goal.options.steps + 1,
    ensures
        fit_after(rec, task, goal, strokes, k) is Ok ==> {
            let p = fit_after(rec, task, goal, strokes, k)->Ok_0;
            &&& is_honest(rec, task.m, goal, strokes, p)
            &&& p.history.len() <= k
            &&& !p.done ==> p.history.len() == k
        },
    decreases k,
{
    if k > 0 {
        lemma_fit_honest(rec, task, goal, strokes, (k - 1) as nat);
        if let Ok(p) = fit_after(rec, task, goal, strokes, (k - 1) as nat) {
            if !p.done {
                lemma_step_honest(rec, task, goal, strokes, p, (k - 1) as usize);
            }
        }
    }
}

/// A fit moves x and y alone; no recorded loss is below that of the best ink; an ink
/// that is said to match reads as the target; and the records are those of the steps,
/// in order, at most one more than the options allow.
pub proof fn lemma_fit_report(
    rec: &Recognizer<'_>,
    m: Tools,
    strokes: Seq<StrokeView>,
    reference: Seq<StrokeView>,
    target: Seq<char>,
    options: FitOptions,
)
    ensures
        fit_result(rec, m, strokes, reference, target, options) is Ok ==> {
            let p = fit_result(rec, m, strokes, reference, target, options)->Ok_0;
            &&& is_honest(
                rec,
                m,
                goal_of(m.geometry, target, options, reference),
                strokes,
                p,
            )
            &&& p.history.len() <= options.steps + 1
        },
{
    if let Ok(labels) = labels_result(rec.alphabet@, target, options) {
        lemma_fit_honest(
            rec,
            task_of(rec, m, labels),
            goal_of(m.geometry, target, options, reference),
            strokes,
            options.steps as nat + 1,
        );
    }
}

proof fn lemma_unshaken_step(
    rec: &Recognizer<'_>,
    task: Task,
    a: Goal,
    b: Goal,
    strokes: Seq<StrokeView>,
    k: nat,
)
    requires
        !shakes(a.options),
        !shakes(b.options),
        a == (Goal { options: a.options, ..b }),
        a.options == (FitOptions {
            robust_samples: a.options.robust_samples,
            jitter: a.options.jitter,
            ..b.options
        }),
    ensures
        fit_after(rec, task, a, strokes, k) == fit_after(rec, task, b, strokes, k),
    decreases k,
{
    if k > 0 {
        lemma_unshaken_step(rec, task, a, b, strokes, (k - 1) as nat);
        if let Ok(p) = fit_after(rec, task, a, strokes, (k - 1) as nat) {
            let step = (k - 1) as usize;
            reveal(fit_step);
            assert(restructured(task, a, p, step) == restructured(task, b, p, step));
            assert(fit_step(rec, task, a, p, step) == fit_step(rec, task, b, p, step));
        }
    }
}

/// Without jitter or with a single sample, a fit is plain descent: neither number
/// matters.
pub proof fn lemma_plain_descent(
    rec: &Recognizer<'_>,
    m: Tools,
    strokes: Seq<StrokeView>,
    reference: Seq<StrokeView>,
    target: Seq<char>,
    a: FitOptions,
    b: FitOptions,
)
    requires
        !shakes(a),
        !shakes(b),
        a == (FitOptions { robust_samples: a.robust_samples, jitter: a.jitter, ..b }),
    ensures
        fit_result(rec, m, strokes, reference, target, a) == fit_result(
            rec,
            m,
            strokes,
            reference,
            target,
            b,
        ),
{
    if let Ok(labels) = labels_result(rec.alphabet@, target, a) {
        lemma_unshaken_step(
            rec,
            task_of(rec, m, labels),
            goal_of(m.geometry, target, a, reference),
            goal_of(m.geometry, target, b, reference),
            strokes,
            a.steps as nat + 1,
        );
    }
}

} // verus!
