//! The end-to-end recognizer: bytes in, candidates out.
//!
//! The language model is borrowed, never owned: the caller almost always has it
//! mapped or already resident.
use vstd::prelude::*;

use crate::beam::{candidates_view, prefix_beam_search, search_result};
use crate::classes::{is_scorer, tables_problem, CharClassScorer};
use crate::decoder::{
    alphabet_problem, greedy_decode, greedy_result, rendered, rendered_text, Alphabet, AlphabetView,
    CandidateView, CharClassRescoringLm,
};
use crate::error::{unsupported, Error, ErrorView};
use crate::features::{extract, extracted, width_of};
use crate::float::{F32, F64};
use crate::fst::{file_problem, fst_in, BackoffLm, CompactFst};
use crate::ink::{strokes_view, Stroke, StrokeView};
use crate::logmath::{Functions, LogMath};
use crate::mat::{Mat, MatView};
use crate::net::{forward, network_output, NetMath, Squash};
use crate::numerics::{GeoMath, Numerics};
use crate::recospec::{
    classes_in, classes_view, lemma_mapping, mapping_for, spec_in, symbol_of, weights_view,
    CtcMapping, MappingView, RecoSpec, RecoSpecView,
};
use crate::settings::DecoderSettings;
use crate::text::dec;
use crate::tflite::{load_weights, network_in, NetworkView, NetworkWeights};

pub use crate::decoder::Candidate;

verus! {

/// Everything one language needs, loaded and validated.
#[derive(Debug)]
pub struct Recognizer<'a> {
    pub spec: RecoSpec,
    pub weights: NetworkWeights,
    pub mapping: CtcMapping,
    pub alphabet: Alphabet,
    pub lm: Option<BackoffLm<'a>>,
    pub char_classes: Option<CharClassScorer>,
    pub settings: DecoderSettings,
}

/// A mapping's symbols as the decoder's alphabet.
pub open spec fn alphabet_of(m: MappingView) -> AlphabetView {
    AlphabetView {
        blank: m.blank_index,
        labels: m.net_to_fst,
        texts: m.net_symbols.map_values(|s: Seq<char>| rendered_text(s)),
    }
}

/// Renders the mapping's symbols into the decoder's alphabet.
pub fn build_alphabet(mapping: &CtcMapping) -> (r: Alphabet)
    ensures
        r@ == alphabet_of(mapping@),
{
    let mut texts: Vec<String> = Vec::new();
    let mut i: usize = 0;
    while i < mapping.net_symbols.len()
        invariant
            i <= mapping.net_symbols@.len(),
            texts@.len() == i,
            forall|k: int|
                0 <= k < i ==> (#[trigger] texts@[k])@ == rendered_text(
                    mapping.net_symbols@[k]@,
                ),
        decreases mapping.net_symbols@.len() - i,
    {
        texts.push(String::from_str(rendered(mapping.net_symbols[i].as_str())));
        i += 1;
    }
    let r: Alphabet = Alphabet {
        blank: mapping.blank_index,
        labels: vstd::slice::slice_to_vec(mapping.net_to_fst.as_slice()),
        texts,
    };
    assert(r@ =~= alphabet_of(mapping@));
    r
}

/// What the model files say, or what is wrong with them: the specification, the
/// network, and the mapping between them.
pub open spec fn pack_result(recospec: Seq<u8>, model: Seq<u8>) -> Result<
    (RecoSpecView, NetworkView, MappingView),
    ErrorView,
> {
    match spec_in(recospec) {
        Err(e) => Err(e),
        Ok(spec) => match network_in(model) {
            Err(e) => Err(e),
            Ok(net) => match mapping_for(spec, net.num_classes) {
                Err(e) => Err(e),
                Ok(None) => Err(
                    ErrorView::Unsupported(
                        "this pack is a gesture/classifier model, not a CTC recognizer"@,
                    ),
                ),
                Ok(Some(mapping)) => {
                    let expected = width_of(spec.curve_settings);
                    if spec.num_features is Some && spec.num_features->0 != expected {
                        Err(
                            ErrorView::Unsupported(
                                "recospec expects "@ + dec(spec.num_features->0 as nat)
                                    + " input features; the Bezier encoder produces "@ + dec(
                                    expected,
                                ),
                            ),
                        )
                    } else if net.input_size != expected {
                        Err(
                            ErrorView::Unsupported(
                                "network takes "@ + dec(net.input_size as nat)
                                    + " inputs; the Bezier encoder produces "@ + dec(expected),
                            ),
                        )
                    } else {
                        Ok((spec, net, mapping))
                    }
                },
            },
        },
    }
}

/// Whether a specification scores character classes: it has lines, and weights.
pub open spec fn scores_classes(spec: RecoSpecView) -> bool {
    classes_in(spec.decoder.char_class_table).len() > 0 && spec.decoder.char_class_weights.len() > 0
}

/// The decoder settings of a specification: the defaults, but for its beam width.
pub open spec fn settings_of(spec: RecoSpecView) -> DecoderSettings {
    DecoderSettings {
        beam_width: match spec.decoder.beam_width {
            Some(width) => width,
            None => DecoderSettings::defaults().beam_width,
        },
        ..DecoderSettings::defaults()
    }
}

/// Reads a pack without its language model.
fn load_pack(recospec: &[u8], tflite_model: &[u8]) -> (r: Result<
    (RecoSpec, NetworkWeights, CtcMapping),
    Error,
>)
    ensures
        match (r, pack_result(recospec@, tflite_model@)) {
            (Ok((spec, net, mapping)), Ok((s, n, m))) => spec@ == s && net@ == n && mapping@ == m,
            (Err(e), Err(g)) => e@ == g,
            _ => false,
        },
{
    let spec: RecoSpec = RecoSpec::parse(recospec)?;
    let weights: NetworkWeights = load_weights(tflite_model)?;
    let mapping: CtcMapping = match spec.ctc_mapping(weights.num_classes)? {
        Some(mapping) => mapping,
        None => {
            return Err(
                unsupported("this pack is a gesture/classifier model, not a CTC recognizer"),
            );
        },
    };
    let expected: usize = spec.curve_settings.num_features();
    if let Some(declared) = spec.num_features {
        if declared != expected {
            let mut s: String = String::from_str("recospec expects ");
            crate::text::push_dec(&mut s, declared as u64);
            s.append(" input features; the Bezier encoder produces ");
            crate::text::push_dec(&mut s, expected as u64);
            return Err(Error::Unsupported(s));
        }
    }
    if weights.input_size != expected {
        let mut s: String = String::from_str("network takes ");
        crate::text::push_dec(&mut s, weights.input_size as u64);
        s.append(" inputs; the Bezier encoder produces ");
        crate::text::push_dec(&mut s, expected as u64);
        return Err(Error::Unsupported(s));
    }
    Ok((spec, weights, mapping))
}

impl<'a> Recognizer<'a> {
    /// Whether this is the recognizer of a pack's parts.
    pub open spec fn is_of(
        &self,
        spec: RecoSpecView,
        net: NetworkView,
        mapping: MappingView,
        fst: Option<Seq<u8>>,
    ) -> bool {
        &&& self.spec@ == spec
        &&& self.weights@ == net
        &&& self.mapping@ == mapping
        &&& self.alphabet@ == alphabet_of(mapping)
        &&& self.settings == settings_of(spec)
        &&& match (self.char_classes, scores_classes(spec)) {
            (Some(s), true) => is_scorer(
                s,
                classes_in(spec.decoder.char_class_table),
                spec.decoder.char_class_weights,
                alphabet_of(mapping),
            ),
            (None, false) => true,
            _ => false,
        }
        &&& match (self.lm, fst) {
            (Some(lm), Some(bytes)) => fst_in(bytes) == Some(lm.fst@),
            (None, None) => true,
            _ => false,
        }
    }

    /// Loads from raw pack contents. The language model is optional: without it
    /// the decoder falls back to greedy.
    pub fn load(recospec: &[u8], tflite_model: &[u8], fst: Option<&'a [u8]>) -> (r: Result<
        Self,
        Error,
    >)
        ensures
            match pack_result(recospec@, tflite_model@) {
                Err(g) => r is Err && r->Err_0@ == g,
                Ok((spec, net, mapping)) => {
                    let weights = spec.decoder.char_class_weights;
                    let problem = tables_problem(weights, alphabet_of(mapping));
                    if scores_classes(spec) && problem is Some {
                        r is Err && r->Err_0@ == ErrorView::Invalid(problem->0)
                    } else if fst is Some && fst_in(fst->0@) is None {
                        r is Err && Some(r->Err_0@) == file_problem(fst->0@)
                    } else {
                        r is Ok && r->Ok_0.is_of(
                            spec,
                            net,
                            mapping,
                            match fst {
                                Some(bytes) => Some(bytes@),
                                None => None,
                            },
                        )
                    }
                },
            },
    {
        let (spec, weights, mapping) = load_pack(recospec, tflite_model)?;
        let alphabet: Alphabet = build_alphabet(&mapping);
        let classes: Vec<(String, String)> = spec.decoder.char_classes();
        proof {
            assert(classes_view(classes@).len() == classes@.len());
            assert(weights_view(spec.decoder.char_class_weights@).len()
                == spec.decoder.char_class_weights@.len());
        }
        let char_classes: Option<CharClassScorer> = if classes.len() == 0
            || spec.decoder.char_class_weights.len() == 0 {
            None
        } else {
            Some(
                CharClassScorer::from_tables(
                    classes.as_slice(),
                    spec.decoder.char_class_weights.as_slice(),
                    &alphabet,
                )?,
            )
        };
        let lm: Option<BackoffLm<'a>> = match fst {
            Some(bytes) => Some(BackoffLm::new(CompactFst::parse(bytes)?)),
            None => None,
        };
        let mut settings: DecoderSettings = DecoderSettings::default();
        if let Some(width) = spec.decoder.beam_width {
            settings.beam_width = width;
        }
        Ok(Recognizer { spec, weights, mapping, alphabet, lm, char_classes, settings })
    }
}

impl<'a> Recognizer<'a> {
    /// What the recognizer makes of logits: nothing of none; without a language
    /// model the best path; else the beam search, with the classes riding along on
    /// the model where they count. The search is then handed a neutral weight, as
    /// the wrapper applies both.
    pub open spec fn decoded(
        &self,
        m: LogMath,
        logits: MatView,
        nbest: usize,
        settings: DecoderSettings,
    ) -> Result<Seq<CandidateView>, ErrorView> {
        if logits.rows == 0 {
            Ok(Seq::empty())
        } else {
            match self.lm {
                None => match greedy_result(m, logits, self.alphabet@) {
                    Ok(c) => Ok(seq![c]),
                    Err(e) => Err(e),
                },
                Some(lm) => if self.char_classes is Some && settings.char_class_weight.index()
                    != 0 {
                    if !settings.lm_weight.finite() || !settings.char_class_weight.finite() {
                        Err(
                            ErrorView::Invalid(
                                "word and character-class weights must be finite"@,
                            ),
                        )
                    } else {
                        search_result(
                            m,
                            logits,
                            &self.alphabet,
                            Some(
                                &CharClassRescoringLm {
                                    word_lm: &lm,
                                    scorer: &self.char_classes->0,
                                    word_weight: settings.lm_weight,
                                    class_weight: settings.char_class_weight,
                                },
                            ),
                            DecoderSettings {
                                lm_weight: F64 { bits: 0x3ff0_0000_0000_0000 },
                                ..settings
                            },
                            nbest,
                        )
                    }
                } else {
                    search_result(m, logits, &self.alphabet, Some(&lm), settings, nbest)
                },
            }
        }
    }

    /// Decodes logits this recognizer produced earlier. The network is by far the
    /// expensive stage and independent of the decoder weights, so a sweep over
    /// them need not run it again.
    pub fn decode_logits<E: Fn(F64) -> F64, L: Fn(F64) -> F64, S: Fn(F64) -> F64>(
        &self,
        logits: &Mat,
        nbest: usize,
        settings: &DecoderSettings,
        f: &Functions<E, L, S>,
    ) -> (r: Result<Vec<Candidate>, Error>)
        requires
            f.wf(),
        ensures
            match (r, self.decoded(f.math(), logits@, nbest, *settings)) {
                (Ok(c), Ok(wanted)) => candidates_view(c@) == wanted,
                (Err(e), Err(g)) => e@ == g,
                _ => false,
            },
    {
        if logits.is_empty() {
            let none: Vec<Candidate> = Vec::new();
            assert(candidates_view(none@) =~= Seq::empty());
            return Ok(none);
        }
        match &self.lm {
            None => {
                let mut out: Vec<Candidate> = Vec::new();
                let best: Candidate = greedy_decode(logits, &self.alphabet, f)?;
                let ghost view = best@;
                out.push(best);
                assert(candidates_view(out@) =~= seq![view]);
                Ok(out)
            },
            Some(lm) => match &self.char_classes {
                Some(scorer) => {
                    if settings.char_class_weight.abs().bits != 0 {
                        let fused: CharClassRescoringLm<BackoffLm<'a>> = CharClassRescoringLm::new(
                            lm,
                            scorer,
                            settings,
                        )?;
                        let neutral: DecoderSettings = DecoderSettings {
                            lm_weight: F64 { bits: 0x3ff0_0000_0000_0000 },
                            ..*settings
                        };
                        prefix_beam_search(
                            logits,
                            &self.alphabet,
                            Some(&fused),
                            &neutral,
                            nbest,
                            f,
                        )
                    } else {
                        prefix_beam_search(logits, &self.alphabet, Some(lm), settings, nbest, f)
                    }
                },
                None => prefix_beam_search(logits, &self.alphabet, Some(lm), settings, nbest, f),
            },
        }
    }

    /// Ink to `[T, num_features]` Bezier curve features.
    pub fn features<R: Fn(F64) -> F64, H: Fn(F32, F32) -> F32, A: Fn(F32, F32) -> F32>(
        &self,
        strokes: &[Stroke],
        num: &Numerics<R, H, A>,
    ) -> (r: Result<Mat, Error>)
        requires
            num.wf(),
        ensures
            match (
                r,
                extracted(
                    num.math(),
                    self.spec@.curve_settings,
                    strokes_view(strokes@),
                    self.spec@.pipeline,
                ),
            ) {
                (Ok(out), Ok(wanted)) => out@ == wanted,
                (Err(e), Err(g)) => e@ == g,
                _ => false,
            },
    {
        extract(strokes, &self.spec.curve_settings, self.spec.pipeline.as_slice(), num)
    }
}

/// All the functions that recognition takes from a mathematics library.
pub struct Toolbox<'t, E, L, S, X, T, R, H, A> {
    pub log: &'t Functions<E, L, S>,
    pub net: &'t Squash<X, T>,
    pub geometry: &'t Numerics<R, H, A>,
}

impl<
    't,
    E: Fn(F64) -> F64,
    L: Fn(F64) -> F64,
    S: Fn(F64) -> F64,
    X: Fn(F32) -> F32,
    T: Fn(F32) -> F32,
    R: Fn(F64) -> F64,
    H: Fn(F32, F32) -> F32,
    A: Fn(F32, F32) -> F32,
> Toolbox<'t, E, L, S, X, T, R, H, A> {
    pub open spec fn wf(&self) -> bool {
        self.log.wf() && self.net.wf() && self.geometry.wf()
    }

    /// [`Toolbox`] as mathematical functions.
    pub open spec fn math(&self) -> Tools {
        Tools { log: self.log.math(), net: self.net.math(), geometry: self.geometry.math() }
    }
}

/// [`Toolbox`] as mathematical functions.
pub struct Tools {
    pub log: LogMath,
    pub net: NetMath,
    pub geometry: GeoMath,
}

impl<'a> Recognizer<'a> {
    /// The logits of an ink: its features through the network.
    pub open spec fn logits_of(&self, m: Tools, strokes: Seq<StrokeView>) -> Result<
        MatView,
        ErrorView,
    > {
        match extracted(
            m.geometry,
            self.spec@.curve_settings,
            strokes,
            self.spec@.pipeline,
        ) {
            Err(e) => Err(e),
            Ok(features) => network_output(m.net, self.weights@, features),
        }
    }

    /// Ink to `[T, num_classes]` unnormalized logits.
    pub fn logits<
        E: Fn(F64) -> F64,
        L: Fn(F64) -> F64,
        S: Fn(F64) -> F64,
        X: Fn(F32) -> F32,
        T: Fn(F32) -> F32,
        R: Fn(F64) -> F64,
        H: Fn(F32, F32) -> F32,
        A: Fn(F32, F32) -> F32,
    >(&self, strokes: &[Stroke], tools: &Toolbox<E, L, S, X, T, R, H, A>) -> (r: Result<
        Mat,
        Error,
    >)
        requires
            tools.wf(),
        ensures
            match (r, self.logits_of(tools.math(), strokes_view(strokes@))) {
                (Ok(out), Ok(wanted)) => out@ == wanted,
                (Err(e), Err(g)) => e@ == g,
                _ => false,
            },
    {
        let features: Mat = self.features(strokes, tools.geometry)?;
        forward(&self.weights, &features, tools.net)
    }

    /// What the best path through an ink's logits reads.
    pub open spec fn greedy_of(&self, m: Tools, strokes: Seq<StrokeView>) -> Result<
        CandidateView,
        ErrorView,
    > {
        match self.logits_of(m, strokes) {
            Err(e) => Err(e),
            Ok(logits) => greedy_result(m.log, logits, self.alphabet@),
        }
    }

    /// Best-path decode, ignoring the language model entirely.
    pub fn recognize_greedy<
        E: Fn(F64) -> F64,
        L: Fn(F64) -> F64,
        S: Fn(F64) -> F64,
        X: Fn(F32) -> F32,
        T: Fn(F32) -> F32,
        R: Fn(F64) -> F64,
        H: Fn(F32, F32) -> F32,
        A: Fn(F32, F32) -> F32,
    >(&self, strokes: &[Stroke], tools: &Toolbox<E, L, S, X, T, R, H, A>) -> (r: Result<
        Candidate,
        Error,
    >)
        requires
            tools.wf(),
        ensures
            match (r, self.greedy_of(tools.math(), strokes_view(strokes@))) {
                (Ok(c), Ok(wanted)) => c@ == wanted,
                (Err(e), Err(g)) => e@ == g,
                _ => false,
            },
    {
        let logits: Mat = self.logits(strokes, tools)?;
        greedy_decode(&logits, &self.alphabet, tools.log)
    }

    /// What an ink is recognized as, with given decoder settings.
    pub open spec fn recognized(
        &self,
        m: Tools,
        strokes: Seq<StrokeView>,
        nbest: usize,
        settings: DecoderSettings,
    ) -> Result<Seq<CandidateView>, ErrorView> {
        match self.logits_of(m, strokes) {
            Err(e) => Err(e),
            Ok(logits) => self.decoded(m.log, logits, nbest, settings),
        }
    }

    /// Full decode with the decoder weights supplied per call rather than taken
    /// from the recognizer.
    pub fn recognize_with<
        E: Fn(F64) -> F64,
        L: Fn(F64) -> F64,
        S: Fn(F64) -> F64,
        X: Fn(F32) -> F32,
        T: Fn(F32) -> F32,
        R: Fn(F64) -> F64,
        H: Fn(F32, F32) -> F32,
        A: Fn(F32, F32) -> F32,
    >(
        &self,
        strokes: &[Stroke],
        nbest: usize,
        settings: &DecoderSettings,
        tools: &Toolbox<E, L, S, X, T, R, H, A>,
    ) -> (r: Result<Vec<Candidate>, Error>)
        requires
            tools.wf(),
        ensures
            match (r, self.recognized(tools.math(), strokes_view(strokes@), nbest, *settings)) {
                (Ok(c), Ok(wanted)) => candidates_view(c@) == wanted,
                (Err(e), Err(g)) => e@ == g,
                _ => false,
            },
    {
        let logits: Mat = self.logits(strokes, tools)?;
        self.decode_logits(&logits, nbest, settings, tools.log)
    }

    /// Full decode: beam search, shallow-fused with the word model and rescored by
    /// character class when the pack carries those tables.
    pub fn recognize<
        E: Fn(F64) -> F64,
        L: Fn(F64) -> F64,
        S: Fn(F64) -> F64,
        X: Fn(F32) -> F32,
        T: Fn(F32) -> F32,
        R: Fn(F64) -> F64,
        H: Fn(F32, F32) -> F32,
        A: Fn(F32, F32) -> F32,
    >(&self, strokes: &[Stroke], nbest: usize, tools: &Toolbox<E, L, S, X, T, R, H, A>) -> (r:
        Result<Vec<Candidate>, Error>)
        requires
            tools.wf(),
        ensures
            match (
                r,
                self.recognized(tools.math(), strokes_view(strokes@), nbest, self.settings),
            ) {
                (Ok(c), Ok(wanted)) => candidates_view(c@) == wanted,
                (Err(e), Err(g)) => e@ == g,
                _ => false,
            },
    {
        self.recognize_with(strokes, nbest, &self.settings, tools)
    }
}

/// The alphabet of a mapping fits logits of as many classes as the network has, if no
/// character of the charset is empty.
pub proof fn lemma_alphabet_fits(v: RecoSpecView, num_classes: usize)
    requires
        forall|k: int| 0 <= k < v.charset.len() ==> (#[trigger] v.charset[k]).len() > 0,
    ensures
        mapping_for(v, num_classes) matches Ok(Some(m)) ==> alphabet_problem(
            alphabet_of(m),
            num_classes as nat,
        ) is None,
{
    lemma_mapping(v, num_classes);
    if let Ok(Some(m)) = mapping_for(v, num_classes) {
        reveal_strlit("[[space]]");
        reveal_strlit(" ");
        let a = alphabet_of(m);
        assert forall|i: int| 0 <= i < a.texts.len() && i != a.blank implies (
        #[trigger] a.texts[i]).len() != 0 by {
            assert(m.net_to_fst[i] == i + 2);
            assert(m.net_symbols[i] == symbol_of(v.charset[i]));
            assert(v.charset[i].len() > 0);
        }
    }
}

} // verus!
