//! The recognizer specification: charset, preprocessing pipeline, decoder
//! parameters.
use std::collections::BTreeMap;
use vstd::prelude::*;

use crate::error::{format_error, text_with, Error, ErrorView};
use crate::float::{F32, F64};
use crate::proto::{for_each_field, visited, walked_inside, Value, ValueView, Visitor};
use crate::settings::{steps_view, CurveSettings, PreprocessingStep, StepView};
use crate::symbols::{add_symbol, no_symbols, symbol_at, symbol_count, symbols_view};
use crate::text::{
    chars_of, dec, lines_from, lines_of, number_in, opt_text, parse_number, pieces_view, push_dec,
    push_dec_wide, quoted, quoted_text, same_text, text_of, texts_view, trim_chars, trimmed,
};

verus! {

/// Decoder configuration.
#[derive(Debug, Clone, PartialEq)]
pub struct DecoderConfig {
    /// Search field 1.
    pub beam_width: Option<usize>,
    /// Scales both the word-model cost and the character-class term.
    pub lm_weight: Option<F64>,
    /// As stored: a negative *cost* per emitted label.
    pub per_label_cost: Option<F64>,
    /// Synthetic initial-space penalty. Parsed, not applied.
    pub initial_space_penalty: Option<F64>,
    /// One `name<space>members` line per class.
    pub char_class_table: Option<String>,
    /// Class name and weight, in wire order.
    pub char_class_weights: Vec<(String, F64)>,
    /// Symbol id -> symbol text, from the word model's symbol table.
    pub symbol_table: BTreeMap<u32, String>,
}

/// A [`DecoderConfig`] by its contents.
#[verifier::ext_equal]
pub struct DecoderView {
    pub beam_width: Option<usize>,
    pub lm_weight: Option<F64>,
    pub per_label_cost: Option<F64>,
    pub initial_space_penalty: Option<F64>,
    pub char_class_table: Option<Seq<char>>,
    pub char_class_weights: Seq<(Seq<char>, F64)>,
    pub symbol_table: Map<u32, Seq<char>>,
}

/// Weights by their names' texts.
pub open spec fn weights_view(w: Seq<(String, F64)>) -> Seq<(Seq<char>, F64)> {
    w.map_values(|e: (String, F64)| (e.0@, e.1))
}

impl View for DecoderConfig {
    type V = DecoderView;

    open spec fn view(&self) -> DecoderView {
        DecoderView {
            beam_width: self.beam_width,
            lm_weight: self.lm_weight,
            per_label_cost: self.per_label_cost,
            initial_space_penalty: self.initial_space_penalty,
            char_class_table: opt_text(self.char_class_table),
            char_class_weights: weights_view(self.char_class_weights@),
            symbol_table: symbols_view(self.symbol_table@),
        }
    }
}

/// A configuration before any field.
pub open spec fn empty_decoder() -> DecoderView {
    DecoderView {
        beam_width: None,
        lm_weight: None,
        per_label_cost: None,
        initial_space_penalty: None,
        char_class_table: None,
        char_class_weights: Seq::empty(),
        symbol_table: Map::empty(),
    }
}

impl Default for DecoderConfig {
    fn default() -> (r: Self)
        ensures
            r@ == empty_decoder(),
    {
        let r: DecoderConfig = DecoderConfig {
            beam_width: None,
            lm_weight: None,
            per_label_cost: None,
            initial_space_penalty: None,
            char_class_table: None,
            char_class_weights: Vec::new(),
            symbol_table: no_symbols(),
        };
        assert(r@.char_class_weights =~= Seq::empty());
        r
    }
}

/// The first place of a space, from `i` on.
pub open spec fn next_space(s: Seq<char>, i: int) -> int
    decreases s.len() - i,
{
    if i >= s.len() || s[i] == ' ' {
        i
    } else {
        next_space(s, i + 1)
    }
}

/// A line as a name and what stands behind its first space.
pub open spec fn class_line(s: Seq<char>) -> (Seq<char>, Seq<char>) {
    let i = next_space(s, 0);
    if i >= s.len() {
        (s, Seq::empty())
    } else {
        (s.take(i), s.skip(i + 1))
    }
}

/// Class names and members by their texts.
pub open spec fn classes_view(c: Seq<(String, String)>) -> Seq<(Seq<char>, Seq<char>)> {
    c.map_values(|e: (String, String)| (e.0@, e.1@))
}

/// The classes of a table: one for each line.
pub open spec fn classes_in(table: Option<Seq<char>>) -> Seq<(Seq<char>, Seq<char>)> {
    match table {
        None => Seq::empty(),
        Some(t) => lines_from(t, 0).map_values(|l: Seq<char>| class_line(l)),
    }
}

/// The lines of a text, whatever ends them.
pub fn text_lines(text: &str) -> (r: Vec<String>)
    ensures
        r@.map_values(|s: String| s@) == lines_from(text@, 0),
{
    let lines: Vec<Vec<char>> = lines_of(chars_of(text).as_slice());
    let mut out: Vec<String> = Vec::new();
    let mut i: usize = 0;
    while i < lines.len()
        invariant
            i <= lines@.len(),
            out@.len() == i,
            forall|j: int| 0 <= j < i ==> (#[trigger] out@[j])@ == lines@[j]@,
        decreases lines@.len() - i,
    {
        out.push(text_of(lines[i].as_slice()));
        i += 1;
    }
    assert(out@.map_values(|s: String| s@) =~= pieces_view(lines@));
    out
}

fn split_class_line(line: &[char]) -> (r: (String, String))
    ensures
        (r.0@, r.1@) == class_line(line@),
{
    let mut i: usize = 0;
    while i < line.len() && line[i] != ' '
        invariant
            i <= line@.len(),
            next_space(line@, 0) == next_space(line@, i as int),
        decreases line@.len() - i,
    {
        i += 1;
    }
    if i >= line.len() {
        (text_of(line), String::new())
    } else {
        let name: &[char] = vstd::slice::slice_subrange(line, 0, i);
        let members: &[char] = vstd::slice::slice_subrange(line, i + 1, line.len());
        assert(name@ =~= line@.take(i as int));
        assert(members@ =~= line@.skip(i + 1));
        (text_of(name), text_of(members))
    }
}

impl DecoderConfig {
    /// Class name and member characters, preserving explicitly empty classes: a
    /// bare line makes a class inert, so dropping it would change scoring.
    pub fn char_classes(&self) -> (r: Vec<(String, String)>)
        ensures
            classes_view(r@) == classes_in(self@.char_class_table),
    {
        let mut out: Vec<(String, String)> = Vec::new();
        match &self.char_class_table {
            None => {
                assert(classes_view(out@) =~= Seq::empty());
            },
            Some(table) => {
                let lines: Vec<Vec<char>> = lines_of(chars_of(table.as_str()).as_slice());
                let mut i: usize = 0;
                while i < lines.len()
                    invariant
                        i <= lines@.len(),
                        out@.len() == i,
                        forall|j: int|
                            0 <= j < i ==> ((#[trigger] out@[j]).0@, out@[j].1@) == class_line(
                                lines@[j]@,
                            ),
                    decreases lines@.len() - i,
                {
                    out.push(split_class_line(lines[i].as_slice()));
                    i += 1;
                }
                assert(classes_view(out@) =~= lines_from(table@, 0).map_values(
                    |l: Seq<char>| class_line(l),
                )) by {
                    assert(pieces_view(lines@) == lines_from(table@, 0));
                }
            },
        }
        out
    }
}

/// Where the last tab before `i` stands, or -1.
pub open spec fn last_tab(s: Seq<char>, i: int) -> int
    decreases i,
{
    if i <= 0 {
        -1
    } else if s[i - 1] == '\t' {
        i - 1
    } else {
        last_tab(s, i - 1)
    }
}

/// One line of a symbol table: a symbol, a tab and an id that is new.
pub open spec fn symbol_step(m: Map<u32, Seq<char>>, line: Seq<char>) -> Result<
    Map<u32, Seq<char>>,
    ErrorView,
> {
    let tab = last_tab(line, line.len() as int);
    if tab < 0 {
        Err(ErrorView::Format("FST symbol line has no tab: "@ + quoted_text(line)))
    } else {
        match number_in(trimmed(line.skip(tab + 1))) {
            None => Err(
                ErrorView::Format("invalid FST symbol id "@ + quoted_text(line.skip(tab + 1))),
            ),
            Some(id) => if m.contains_key(id) {
                Err(ErrorView::Format("duplicate FST symbol id "@ + dec(id as nat)))
            } else {
                Ok(m.insert(id, line.take(tab)))
            },
        }
    }
}

/// The symbols on the first `n` lines.
pub open spec fn symbols_on(lines: Seq<Seq<char>>, n: nat) -> Result<
    Map<u32, Seq<char>>,
    ErrorView,
>
    decreases n,
{
    if n == 0 {
        Ok(Map::empty())
    } else {
        match symbols_on(lines, (n - 1) as nat) {
            Err(e) => Err(e),
            Ok(m) => symbol_step(m, lines[n - 1]),
        }
    }
}

/// The symbols of a table.
pub open spec fn symbols_in(text: Seq<char>) -> Result<Map<u32, Seq<char>>, ErrorView> {
    let lines = lines_from(text, 0);
    symbols_on(lines, lines.len())
}

proof fn lemma_symbols_error(lines: Seq<Seq<char>>, n: nat, m: nat)
    requires
        n <= m,
        symbols_on(lines, n) is Err,
    ensures
        symbols_on(lines, m) == symbols_on(lines, n),
    decreases m,
{
    if n < m {
        lemma_symbols_error(lines, n, (m - 1) as nat);
    }
}

/// Splits a line of a symbol table.
fn read_symbol(line: &[char]) -> (r: Result<(u32, String), Error>)
    ensures
        ({
            let tab = last_tab(line@, line@.len() as int);
            match r {
                Ok((id, symbol)) => {
                    &&& tab >= 0
                    &&& number_in(trimmed(line@.skip(tab + 1))) == Some(id)
                    &&& symbol@ == line@.take(tab)
                },
                Err(e) => if tab < 0 {
                    e@ == ErrorView::Format(
                        "FST symbol line has no tab: "@ + quoted_text(line@),
                    )
                } else {
                    &&& number_in(trimmed(line@.skip(tab + 1))) is None
                    &&& e@ == ErrorView::Format(
                        "invalid FST symbol id "@ + quoted_text(line@.skip(tab + 1)),
                    )
                },
            }
        }),
{
    let mut i: usize = line.len();
    while i > 0 && line[i - 1] != '\t'
        invariant
            i <= line@.len(),
            last_tab(line@, line@.len() as int) == last_tab(line@, i as int),
        decreases i,
    {
        i -= 1;
    }
    if i == 0 {
        let whole: String = text_of(line);
        let mut text: String = String::from_str("FST symbol line has no tab: ");
        text.append(quoted(whole.as_str()).as_str());
        return Err(Error::Format(text));
    }
    let tab: usize = i - 1;
    let name: &[char] = vstd::slice::slice_subrange(line, 0, tab);
    let id: &[char] = vstd::slice::slice_subrange(line, i, line.len());
    assert(name@ =~= line@.take(tab as int));
    assert(id@ =~= line@.skip(tab + 1));
    match parse_number(trim_chars(id).as_slice()) {
        None => {
            let whole: String = text_of(id);
            let mut text: String = String::from_str("invalid FST symbol id ");
            text.append(quoted(whole.as_str()).as_str());
            Err(Error::Format(text))
        },
        Some(number) => Ok((number, text_of(name))),
    }
}

/// Reads a symbol table: on each line a symbol, a tab and its id.
pub fn parse_symbol_table(text: &str) -> (r: Result<BTreeMap<u32, String>, Error>)
    ensures
        match (r, symbols_in(text@)) {
            (Ok(m), Ok(s)) => symbols_view(m@) == s,
            (Err(e), Err(f)) => e@ == f,
            _ => false,
        },
{
    let lines: Vec<Vec<char>> = lines_of(chars_of(text).as_slice());
    let ghost all = pieces_view(lines@);
    let mut symbols: BTreeMap<u32, String> = no_symbols();
    let mut i: usize = 0;
    while i < lines.len()
        invariant
            i <= lines@.len(),
            all == pieces_view(lines@),
            all == lines_from(text@, 0),
            symbols_on(all, i as nat) == Ok::<Map<u32, Seq<char>>, ErrorView>(
                symbols_view(symbols@),
            ),
        decreases lines@.len() - i,
    {
        assert(all[i as int] == lines@[i as int]@);
        proof {
            if symbols_on(all, (i + 1) as nat) is Err {
                lemma_symbols_error(all, (i + 1) as nat, all.len());
            }
        }
        let (id, symbol) = read_symbol(lines[i].as_slice())?;
        if !add_symbol(&mut symbols, id, symbol) {
            let text: String = text_with("duplicate FST symbol id ", id as u64, "");
            proof {
                reveal_strlit("");
                assert(text@ =~= "duplicate FST symbol id "@ + dec(id as nat));
            }
            return Err(Error::Format(text));
        }
        i += 1;
    }
    Ok(symbols)
}


impl Visitor for CurveSettings {
    type State = CurveSettings;

    open spec fn state(&self) -> CurveSettings {
        *self
    }

    open spec fn step(s: CurveSettings, field: u32, value: ValueView) -> Result<
        CurveSettings,
        ErrorView,
    > {
        if 1 <= field <= 5 {
            match value.to_f64() {
                Err(e) => Err(e),
                Ok(x) => Ok(
                    if field == 1 {
                        CurveSettings { tol1: x, ..s }
                    } else if field == 2 {
                        CurveSettings { tol2: x, ..s }
                    } else if field == 3 {
                        CurveSettings { tol3: x, ..s }
                    } else if field == 4 {
                        CurveSettings { max_arc_ratio: x, ..s }
                    } else {
                        CurveSettings { split_cos_threshold: x, ..s }
                    },
                ),
            }
        } else if field == 6 || field == 7 || field == 9 || field == 10 {
            match value.to_bool() {
                Err(e) => Err(e),
                Ok(b) => Ok(
                    if field == 6 {
                        CurveSettings { generate_second_order_features: b, ..s }
                    } else if field == 7 {
                        CurveSettings { use_angles_ratios: b, ..s }
                    } else if field == 9 {
                        CurveSettings { interpolate_time: b, ..s }
                    } else {
                        CurveSettings { normalize_outputs_to_zero_one: b, ..s }
                    },
                ),
            }
        } else {
            Ok(s)
        }
    }

    open spec fn refused(s: CurveSettings, field: u32, value: ValueView) -> CurveSettings {
        s
    }

    fn visit(&mut self, field: u32, value: Value<'_>) -> (r: Result<(), Error>) {
        if 1 <= field && field <= 5 {
            let x: F64 = value.as_f64()?;
            if field == 1 {
                self.tol1 = x;
            } else if field == 2 {
                self.tol2 = x;
            } else if field == 3 {
                self.tol3 = x;
            } else if field == 4 {
                self.max_arc_ratio = x;
            } else {
                self.split_cos_threshold = x;
            }
        } else if field == 6 || field == 7 || field == 9 || field == 10 {
            let b: bool = value.as_bool()?;
            if field == 6 {
                self.generate_second_order_features = b;
            } else if field == 7 {
                self.use_angles_ratios = b;
            } else if field == 9 {
                self.interpolate_time = b;
            } else {
                self.normalize_outputs_to_zero_one = b;
            }
        }
        Ok(())
    }
}

/// The parameters that a preprocessing step may have.
#[derive(Debug, Clone, Copy, PartialEq)]
pub struct StepParams {
    pub amount: F32,
    pub flag: bool,
}

impl Visitor for StepParams {
    type State = StepParams;

    open spec fn state(&self) -> StepParams {
        *self
    }

    open spec fn step(s: StepParams, field: u32, value: ValueView) -> Result<
        StepParams,
        ErrorView,
    > {
        if field == 1 {
            match value.to_f32() {
                Err(e) => Err(e),
                Ok(x) => Ok(StepParams { amount: x, ..s }),
            }
        } else if field == 2 {
            match value.to_bool() {
                Err(e) => Err(e),
                Ok(b) => Ok(StepParams { flag: b, ..s }),
            }
        } else {
            Ok(s)
        }
    }

    open spec fn refused(s: StepParams, field: u32, value: ValueView) -> StepParams {
        s
    }

    fn visit(&mut self, field: u32, value: Value<'_>) -> (r: Result<(), Error>) {
        if field == 1 {
            self.amount = value.as_f32()?;
        } else if field == 2 {
            self.flag = value.as_bool()?;
        }
        Ok(())
    }
}

/// The name of a step by its field, as the pipeline registry has it.
pub open spec fn name_of_step(field: u32) -> Seq<char> {
    if field == 1 {
        "resampling"@
    } else if field == 2 {
        "normalize_size"@
    } else if field == 3 {
        "sort_strokes"@
    } else if field == 4 {
        "sanitize_time"@
    } else if field == 5 {
        "normalize_time"@
    } else if field == 6 {
        "hallucinate_time"@
    } else if field == 7 {
        "ink_based_slope_correction"@
    } else if field == 8 {
        "normalize_size_writing_guide_first_stroke"@
    } else if field == 9 {
        "detect_and_rearrange_multi_line"@
    } else if field == 10 {
        "remove_pressure"@
    } else if field == 11 {
        "add_pen_up_strokes"@
    } else if field == 12 {
        "time_ms_to_s"@
    } else if field == 13 {
        "ramer_resampling"@
    } else if field == 14 {
        "resampling_by_time"@
    } else if field == 15 {
        "normalize_time_by_size"@
    } else if field == 16 {
        "normalize_multiline_size"@
    } else if field == 17 {
        "filter_strokes"@
    } else if field == 18 {
        "remove_time"@
    } else if field == 19 {
        "remove_guide"@
    } else if field == 20 {
        "normalize_size_for_scribe"@
    } else if field == 21 {
        "normalize_size_by_time"@
    } else if field == 22 {
        "start_at_origin"@
    } else if field == 23 {
        "resample_penup_strokes"@
    } else if field == 24 {
        "remove_time_order"@
    } else if field == 25 {
        "scale_shift_for_rendering"@
    } else if field == 26 {
        "shift_ink_based_on_writing_guide"@
    } else if field == 27 {
        "writing_guide_from_bounding_box"@
    } else if field == 28 {
        "set_writing_guide"@
    } else if field == 29 {
        "randomize_ink_position_within_writing_guide"@
    } else if field == 30 {
        "normalize_size_first_stroke"@
    } else {
        "UNKNOWN"@
    }
}

/// The name of a step by its field.
pub fn step_name(field: u32) -> (r: &'static str)
    ensures
        r@ == name_of_step(field),
{
    match field {
        1 => "resampling",
        2 => "normalize_size",
        3 => "sort_strokes",
        4 => "sanitize_time",
        5 => "normalize_time",
        6 => "hallucinate_time",
        7 => "ink_based_slope_correction",
        8 => "normalize_size_writing_guide_first_stroke",
        9 => "detect_and_rearrange_multi_line",
        10 => "remove_pressure",
        11 => "add_pen_up_strokes",
        12 => "time_ms_to_s",
        13 => "ramer_resampling",
        14 => "resampling_by_time",
        15 => "normalize_time_by_size",
        16 => "normalize_multiline_size",
        17 => "filter_strokes",
        18 => "remove_time",
        19 => "remove_guide",
        20 => "normalize_size_for_scribe",
        21 => "normalize_size_by_time",
        22 => "start_at_origin",
        23 => "resample_penup_strokes",
        24 => "remove_time_order",
        25 => "scale_shift_for_rendering",
        26 => "shift_ink_based_on_writing_guide",
        27 => "writing_guide_from_bounding_box",
        28 => "set_writing_guide",
        29 => "randomize_ink_position_within_writing_guide",
        30 => "normalize_size_first_stroke",
        _ => "UNKNOWN",
    }
}

/// A step before any of its fields.
pub open spec fn unknown_step() -> StepView {
    StepView::Unsupported { field: 0, name: "UNKNOWN"@ }
}

/// The parameters with which a branch begins: those of the step so far where it
/// is the same branch, else none.
pub open spec fn params_so_far(step: StepView, field: u32) -> StepParams {
    match step {
        StepView::HallucinateTime { interval, force } => if field == 6 {
            StepParams { amount: interval, flag: force }
        } else {
            StepParams { amount: F32 { bits: 0 }, flag: false }
        },
        StepView::NormalizeSize { margin, first_point_origin } => if field == 2 {
            StepParams { amount: margin, flag: first_point_origin }
        } else {
            StepParams { amount: F32 { bits: 0 }, flag: false }
        },
        StepView::NormalizeSizeWritingGuideFirstStroke { margin, first_point_origin } => if field
            == 8 {
            StepParams { amount: margin, flag: first_point_origin }
        } else {
            StepParams { amount: F32 { bits: 0 }, flag: false }
        },
        _ => StepParams { amount: F32 { bits: 0 }, flag: false },
    }
}

/// A step with parameters.
pub open spec fn step_with(field: u32, p: StepParams) -> StepView {
    if field == 2 {
        StepView::NormalizeSize { margin: p.amount, first_point_origin: p.flag }
    } else if field == 6 {
        StepView::HallucinateTime { interval: p.amount, force: p.flag }
    } else {
        StepView::NormalizeSizeWritingGuideFirstStroke {
            margin: p.amount,
            first_point_origin: p.flag,
        }
    }
}

/// A preprocessing step as its fields come in. Occurrences of the same branch
/// merge; another branch replaces it.
pub struct StepReader {
    pub current: PreprocessingStep,
}

impl Visitor for StepReader {
    type State = StepView;

    open spec fn state(&self) -> StepView {
        self.current@
    }

    open spec fn step(s: StepView, field: u32, value: ValueView) -> Result<StepView, ErrorView> {
        match value.to_bytes() {
            Err(e) => Err(e),
            Ok(data) => if field == 5 {
                Ok(StepView::NormalizeTime)
            } else if field == 11 {
                Ok(StepView::AddPenUpStrokes)
            } else if field == 2 || field == 6 || field == 8 {
                match visited::<StepParams>(data, params_so_far(s, field)) {
                    Err(e) => Err(e),
                    Ok(p) => Ok(step_with(field, p)),
                }
            } else {
                Ok(StepView::Unsupported { field, name: name_of_step(field) })
            },
        }
    }

    open spec fn refused(s: StepView, field: u32, value: ValueView) -> StepView {
        s
    }

    fn visit(&mut self, field: u32, value: Value<'_>) -> (r: Result<(), Error>) {
        let data: &[u8] = value.as_bytes()?;
        if field == 5 {
            self.current = PreprocessingStep::NormalizeTime;
        } else if field == 11 {
            self.current = PreprocessingStep::AddPenUpStrokes;
        } else if field == 2 || field == 6 || field == 8 {
            let mut params: StepParams = StepParams { amount: F32 { bits: 0 }, flag: false };
            match &self.current {
                PreprocessingStep::HallucinateTime { interval, force } => {
                    if field == 6 {
                        params = StepParams { amount: *interval, flag: *force };
                    }
                },
                PreprocessingStep::NormalizeSize { margin, first_point_origin } => {
                    if field == 2 {
                        params = StepParams { amount: *margin, flag: *first_point_origin };
                    }
                },
                PreprocessingStep::NormalizeSizeWritingGuideFirstStroke {
                    margin,
                    first_point_origin,
                } => {
                    if field == 8 {
                        params = StepParams { amount: *margin, flag: *first_point_origin };
                    }
                },
                _ => {},
            }
            assert(params == params_so_far(self.current@, field));
            for_each_field(data, &mut params)?;
            self.current = if field == 2 {
                PreprocessingStep::NormalizeSize {
                    margin: params.amount,
                    first_point_origin: params.flag,
                }
            } else if field == 6 {
                PreprocessingStep::HallucinateTime { interval: params.amount, force: params.flag }
            } else {
                PreprocessingStep::NormalizeSizeWritingGuideFirstStroke {
                    margin: params.amount,
                    first_point_origin: params.flag,
                }
            };
        } else {
            self.current = PreprocessingStep::Unsupported {
                field,
                name: String::from_str(step_name(field)),
            };
        }
        Ok(())
    }
}

/// The step in a message.
pub open spec fn step_in(data: Seq<u8>) -> Result<StepView, ErrorView> {
    visited::<StepReader>(data, unknown_step())
}

/// Reads one preprocessing step.
pub fn parse_step(data: &[u8]) -> (r: Result<PreprocessingStep, Error>)
    ensures
        match (r, step_in(data@)) {
            (Ok(a), Ok(b)) => a@ == b,
            (Err(e), Err(f)) => e@ == f,
            _ => false,
        },
{
    let mut reader: StepReader = StepReader {
        current: PreprocessingStep::Unsupported { field: 0, name: String::from_str("UNKNOWN") },
    };
    for_each_field(data, &mut reader)?;
    Ok(reader.current)
}

/// A pipeline as its steps come in.
pub struct Pipeline {
    pub steps: Vec<PreprocessingStep>,
}

impl Visitor for Pipeline {
    type State = Seq<StepView>;

    open spec fn state(&self) -> Seq<StepView> {
        steps_view(self.steps@)
    }

    open spec fn step(s: Seq<StepView>, field: u32, value: ValueView) -> Result<
        Seq<StepView>,
        ErrorView,
    > {
        if field == 1 {
            match value.to_bytes() {
                Err(e) => Err(e),
                Ok(data) => match step_in(data) {
                    Err(e) => Err(e),
                    Ok(step) => Ok(s.push(step)),
                },
            }
        } else {
            Ok(s)
        }
    }

    open spec fn refused(s: Seq<StepView>, field: u32, value: ValueView) -> Seq<StepView> {
        s
    }

    fn visit(&mut self, field: u32, value: Value<'_>) -> (r: Result<(), Error>) {
        if field == 1 {
            let data: &[u8] = value.as_bytes()?;
            let step: PreprocessingStep = parse_step(data)?;
            let ghost before = self.steps@;
            self.steps.push(step);
            assert(steps_view(self.steps@) =~= steps_view(before).push(step@));
        }
        Ok(())
    }
}

/// What a specification says of the input, as its fields come in.
pub struct Processor {
    pub charset: Vec<String>,
    pub curve_settings: CurveSettings,
    pub num_features: Option<usize>,
    pub pipeline: Pipeline,
}

/// A [`Processor`] by its contents.
#[verifier::ext_equal]
pub struct ProcessorView {
    pub charset: Seq<Seq<char>>,
    pub curve_settings: CurveSettings,
    pub num_features: Option<usize>,
    pub pipeline: Seq<StepView>,
}

impl Visitor for Processor {
    type State = ProcessorView;

    open spec fn state(&self) -> ProcessorView {
        ProcessorView {
            charset: texts_view(self.charset@),
            curve_settings: self.curve_settings,
            num_features: self.num_features,
            pipeline: self.pipeline.state(),
        }
    }

    open spec fn step(s: ProcessorView, field: u32, value: ValueView) -> Result<
        ProcessorView,
        ErrorView,
    > {
        if field == 1 {
            match value.to_text() {
                Err(e) => Err(e),
                Ok(text) => Ok(ProcessorView { charset: s.charset.push(text), ..s }),
            }
        } else if field == 6 {
            match value.to_bytes() {
                Err(e) => Err(e),
                Ok(data) => match visited::<CurveSettings>(data, s.curve_settings) {
                    Err(e) => Err(e),
                    Ok(c) => Ok(ProcessorView { curve_settings: c, ..s }),
                },
            }
        } else if field == 7 {
            match value.to_u64() {
                Err(e) => Err(e),
                Ok(n) => if n > 0x7fff_ffff {
                    Err(ErrorView::Format("invalid num_features "@ + dec(n as nat)))
                } else {
                    Ok(ProcessorView { num_features: Some(n as usize), ..s })
                },
            }
        } else if field == 12 {
            match value.to_bytes() {
                Err(e) => Err(e),
                Ok(data) => match visited::<Pipeline>(data, s.pipeline) {
                    Err(e) => Err(e),
                    Ok(p) => Ok(ProcessorView { pipeline: p, ..s }),
                },
            }
        } else {
            Ok(s)
        }
    }

    open spec fn refused(s: ProcessorView, field: u32, value: ValueView) -> ProcessorView {
        if field == 12 {
            ProcessorView { pipeline: walked_inside::<Pipeline>(value, s.pipeline), ..s }
        } else {
            s
        }
    }

    fn visit(&mut self, field: u32, value: Value<'_>) -> (r: Result<(), Error>) {
        if field == 1 {
            let text: String = String::from_str(value.as_str()?);
            let ghost before = self.charset@;
            let ghost name = text@;
            self.charset.push(text);
            assert(texts_view(self.charset@) =~= texts_view(before).push(name));
        } else if field == 6 {
            let data: &[u8] = value.as_bytes()?;
            let mut settings: CurveSettings = self.curve_settings;
            for_each_field(data, &mut settings)?;
            self.curve_settings = settings;
        } else if field == 7 {
            let n: u64 = value.as_u64()?;
            if n > 0x7fff_ffff {
                let text: String = text_with("invalid num_features ", n, "");
                proof {
                    reveal_strlit("");
                    assert(text@ =~= "invalid num_features "@ + dec(n as nat));
                }
                return Err(Error::Format(text));
            }
            self.num_features = Some(n as usize);
        } else if field == 12 {
            let data: &[u8] = value.as_bytes()?;
            for_each_field(data, &mut self.pipeline)?;
        }
        Ok(())
    }
}

/// One class weight as its fields come in.
pub struct ClassWeight {
    pub name: String,
    pub weight: F64,
}

impl Visitor for ClassWeight {
    type State = (Seq<char>, F64);

    open spec fn state(&self) -> (Seq<char>, F64) {
        (self.name@, self.weight)
    }

    open spec fn step(s: (Seq<char>, F64), field: u32, value: ValueView) -> Result<
        (Seq<char>, F64),
        ErrorView,
    > {
        if field == 1 {
            match value.to_text() {
                Err(e) => Err(e),
                Ok(text) => Ok((text, s.1)),
            }
        } else if field == 2 {
            match value.to_f64() {
                Err(e) => Err(e),
                Ok(x) => Ok((s.0, x)),
            }
        } else {
            Ok(s)
        }
    }

    open spec fn refused(s: (Seq<char>, F64), field: u32, value: ValueView) -> (Seq<char>, F64) {
        s
    }

    fn visit(&mut self, field: u32, value: Value<'_>) -> (r: Result<(), Error>) {
        if field == 1 {
            self.name = String::from_str(value.as_str()?);
        } else if field == 2 {
            self.weight = value.as_f64()?;
        }
        Ok(())
    }
}

/// Class weights as they come in.
pub struct ClassWeights {
    pub weights: Vec<(String, F64)>,
}

impl Visitor for ClassWeights {
    type State = Seq<(Seq<char>, F64)>;

    open spec fn state(&self) -> Seq<(Seq<char>, F64)> {
        weights_view(self.weights@)
    }

    open spec fn step(s: Seq<(Seq<char>, F64)>, field: u32, value: ValueView) -> Result<
        Seq<(Seq<char>, F64)>,
        ErrorView,
    > {
        if field == 1 {
            match value.to_bytes() {
                Err(e) => Err(e),
                Ok(data) => match visited::<ClassWeight>(data, (Seq::empty(), F64 { bits: 0 })) {
                    Err(e) => Err(e),
                    Ok(w) => Ok(s.push(w)),
                },
            }
        } else {
            Ok(s)
        }
    }

    open spec fn refused(
        s: Seq<(Seq<char>, F64)>,
        field: u32,
        value: ValueView,
    ) -> Seq<(Seq<char>, F64)> {
        s
    }

    fn visit(&mut self, field: u32, value: Value<'_>) -> (r: Result<(), Error>) {
        if field == 1 {
            let data: &[u8] = value.as_bytes()?;
            let mut weight: ClassWeight = ClassWeight {
                name: String::new(),
                weight: F64 { bits: 0 },
            };
            for_each_field(data, &mut weight)?;
            let ghost before = self.weights@;
            let ghost entry = weight.state();
            self.weights.push((weight.name, weight.weight));
            assert(weights_view(self.weights@) =~= weights_view(before).push(entry));
        }
        Ok(())
    }
}

/// Classes as they come in: weights and a table.
pub struct Classes {
    pub weights: ClassWeights,
    pub table: Option<String>,
}

/// A [`Classes`] by its contents.
#[verifier::ext_equal]
pub struct ClassesView {
    pub weights: Seq<(Seq<char>, F64)>,
    pub table: Option<Seq<char>>,
}

impl Visitor for Classes {
    type State = ClassesView;

    open spec fn state(&self) -> ClassesView {
        ClassesView { weights: self.weights.state(), table: opt_text(self.table) }
    }

    open spec fn step(s: ClassesView, field: u32, value: ValueView) -> Result<
        ClassesView,
        ErrorView,
    > {
        if field == 2 {
            match value.to_bytes() {
                Err(e) => Err(e),
                Ok(data) => match visited::<ClassWeights>(data, s.weights) {
                    Err(e) => Err(e),
                    Ok(w) => Ok(ClassesView { weights: w, ..s }),
                },
            }
        } else if field == 4 {
            match value.to_text() {
                Err(e) => Err(e),
                Ok(text) => Ok(ClassesView { table: Some(text), ..s }),
            }
        } else {
            Ok(s)
        }
    }

    open spec fn refused(s: ClassesView, field: u32, value: ValueView) -> ClassesView {
        if field == 2 {
            ClassesView { weights: walked_inside::<ClassWeights>(value, s.weights), ..s }
        } else {
            s
        }
    }

    fn visit(&mut self, field: u32, value: Value<'_>) -> (r: Result<(), Error>) {
        if field == 2 {
            let data: &[u8] = value.as_bytes()?;
            for_each_field(data, &mut self.weights)?;
        } else if field == 4 {
            self.table = Some(String::from_str(value.as_str()?));
        }
        Ok(())
    }
}

/// Search parameters as they come in.
#[derive(Debug, Clone, Copy, PartialEq)]
pub struct Search {
    pub beam_width: Option<usize>,
    pub per_label_cost: Option<F64>,
}

impl Visitor for Search {
    type State = Search;

    open spec fn state(&self) -> Search {
        *self
    }

    open spec fn step(s: Search, field: u32, value: ValueView) -> Result<Search, ErrorView> {
        if field == 1 {
            match value.to_u64() {
                Err(e) => Err(e),
                Ok(n) => if n > usize::MAX {
                    Err(ErrorView::Format("beam width does not fit usize"@))
                } else {
                    Ok(Search { beam_width: Some(n as usize), ..s })
                },
            }
        } else if field == 7 {
            match value.to_f64() {
                Err(e) => Err(e),
                Ok(x) => Ok(Search { per_label_cost: Some(x), ..s }),
            }
        } else {
            Ok(s)
        }
    }

    open spec fn refused(s: Search, field: u32, value: ValueView) -> Search {
        s
    }

    fn visit(&mut self, field: u32, value: Value<'_>) -> (r: Result<(), Error>) {
        if field == 1 {
            let n: u64 = value.as_u64()?;
            if n > usize::MAX as u64 {
                return Err(format_error("beam width does not fit usize"));
            }
            self.beam_width = Some(n as usize);
        } else if field == 7 {
            self.per_label_cost = Some(value.as_f64()?);
        }
        Ok(())
    }
}

/// The word model's symbol table as it comes in; the last one counts.
pub struct WordModel {
    pub symbols: BTreeMap<u32, String>,
}

impl Visitor for WordModel {
    type State = Map<u32, Seq<char>>;

    open spec fn state(&self) -> Map<u32, Seq<char>> {
        symbols_view(self.symbols@)
    }

    open spec fn step(s: Map<u32, Seq<char>>, field: u32, value: ValueView) -> Result<
        Map<u32, Seq<char>>,
        ErrorView,
    > {
        if field == 4 {
            match value.to_text() {
                Err(e) => Err(e),
                Ok(text) => symbols_in(text),
            }
        } else {
            Ok(s)
        }
    }

    open spec fn refused(
        s: Map<u32, Seq<char>>,
        field: u32,
        value: ValueView,
    ) -> Map<u32, Seq<char>> {
        s
    }

    fn visit(&mut self, field: u32, value: Value<'_>) -> (r: Result<(), Error>) {
        if field == 4 {
            let text: &str = value.as_str()?;
            self.symbols = parse_symbol_table(text)?;
        }
        Ok(())
    }
}

/// The decoder's configuration as it comes in.
pub struct FstConfig {
    pub search: Search,
    pub word_model: WordModel,
    pub lm_weight: Option<F64>,
    pub classes: Classes,
    pub initial_space_penalty: Option<F64>,
}

impl Visitor for FstConfig {
    type State = DecoderView;

    open spec fn state(&self) -> DecoderView {
        DecoderView {
            beam_width: self.search.beam_width,
            lm_weight: self.lm_weight,
            per_label_cost: self.search.per_label_cost,
            initial_space_penalty: self.initial_space_penalty,
            char_class_table: self.classes.state().table,
            char_class_weights: self.classes.state().weights,
            symbol_table: self.word_model.state(),
        }
    }

    open spec fn step(s: DecoderView, field: u32, value: ValueView) -> Result<
        DecoderView,
        ErrorView,
    > {
        if field == 1 || field == 3 || field == 9 {
            match value.to_bytes() {
                Err(e) => Err(e),
                Ok(data) => if field == 1 {
                    let search = Search {
                        beam_width: s.beam_width,
                        per_label_cost: s.per_label_cost,
                    };
                    match visited::<Search>(data, search) {
                        Err(e) => Err(e),
                        Ok(t) => Ok(
                            DecoderView {
                                beam_width: t.beam_width,
                                per_label_cost: t.per_label_cost,
                                ..s
                            },
                        ),
                    }
                } else if field == 3 {
                    match visited::<WordModel>(data, s.symbol_table) {
                        Err(e) => Err(e),
                        Ok(t) => Ok(DecoderView { symbol_table: t, ..s }),
                    }
                } else {
                    let classes = ClassesView {
                        weights: s.char_class_weights,
                        table: s.char_class_table,
                    };
                    match visited::<Classes>(data, classes) {
                        Err(e) => Err(e),
                        Ok(t) => Ok(
                            DecoderView {
                                char_class_weights: t.weights,
                                char_class_table: t.table,
                                ..s
                            },
                        ),
                    }
                },
            }
        } else if field == 7 {
            match value.to_f64() {
                Err(e) => Err(e),
                Ok(x) => Ok(DecoderView { lm_weight: Some(x), ..s }),
            }
        } else if field == 10 {
            match value.to_f64() {
                Err(e) => Err(e),
                Ok(x) => Ok(DecoderView { initial_space_penalty: Some(x), ..s }),
            }
        } else {
            Ok(s)
        }
    }

    open spec fn refused(s: DecoderView, field: u32, value: ValueView) -> DecoderView {
        if field == 3 {
            DecoderView {
                symbol_table: walked_inside::<WordModel>(value, s.symbol_table),
                ..s
            }
        } else if field == 9 {
            let classes = ClassesView {
                weights: s.char_class_weights,
                table: s.char_class_table,
            };
            let t = walked_inside::<Classes>(value, classes);
            DecoderView { char_class_weights: t.weights, char_class_table: t.table, ..s }
        } else {
            s
        }
    }

    fn visit(&mut self, field: u32, value: Value<'_>) -> (r: Result<(), Error>) {
        if field == 1 {
            let data: &[u8] = value.as_bytes()?;
            let mut search: Search = self.search;
            for_each_field(data, &mut search)?;
            self.search = search;
        } else if field == 3 {
            let data: &[u8] = value.as_bytes()?;
            for_each_field(data, &mut self.word_model)?;
        } else if field == 7 {
            self.lm_weight = Some(value.as_f64()?);
        } else if field == 9 {
            let data: &[u8] = value.as_bytes()?;
            assert(self.classes.state() =~= (ClassesView {
                weights: self.state().char_class_weights,
                table: self.state().char_class_table,
            }));
            for_each_field(data, &mut self.classes)?;
        } else if field == 10 {
            self.initial_space_penalty = Some(value.as_f64()?);
        }
        Ok(())
    }
}

/// The decoder of a specification as it comes in.
pub struct DecoderReader {
    pub present: bool,
    pub config: FstConfig,
}

impl Visitor for DecoderReader {
    type State = (bool, DecoderView);

    open spec fn state(&self) -> (bool, DecoderView) {
        (self.present, self.config.state())
    }

    open spec fn step(s: (bool, DecoderView), field: u32, value: ValueView) -> Result<
        (bool, DecoderView),
        ErrorView,
    > {
        if field == 6 {
            match value.to_bytes() {
                Err(e) => Err(e),
                Ok(data) => match visited::<FstConfig>(data, s.1) {
                    Err(e) => Err(e),
                    Ok(d) => Ok((true, d)),
                },
            }
        } else {
            Ok(s)
        }
    }

    open spec fn refused(
        s: (bool, DecoderView),
        field: u32,
        value: ValueView,
    ) -> (bool, DecoderView) {
        if field == 6 {
            (true, walked_inside::<FstConfig>(value, s.1))
        } else {
            s
        }
    }

    fn visit(&mut self, field: u32, value: Value<'_>) -> (r: Result<(), Error>) {
        if field == 6 {
            self.present = true;
            let data: &[u8] = value.as_bytes()?;
            for_each_field(data, &mut self.config)?;
        }
        Ok(())
    }
}

/// The extension that describes the network's surroundings, as it comes in.
pub struct Extension {
    pub has_processor: bool,
    pub has_decoder: bool,
    pub processor: Processor,
    pub decoder: DecoderReader,
}

/// An [`Extension`] by its contents.
#[verifier::ext_equal]
pub struct ExtensionView {
    pub has_processor: bool,
    pub has_decoder: bool,
    pub processor: ProcessorView,
    pub decoder: (bool, DecoderView),
}

impl Visitor for Extension {
    type State = ExtensionView;

    open spec fn state(&self) -> ExtensionView {
        ExtensionView {
            has_processor: self.has_processor,
            has_decoder: self.has_decoder,
            processor: self.processor.state(),
            decoder: self.decoder.state(),
        }
    }

    open spec fn step(s: ExtensionView, field: u32, value: ValueView) -> Result<
        ExtensionView,
        ErrorView,
    > {
        if field == 2 {
            match value.to_bytes() {
                Err(e) => Err(e),
                Ok(data) => match visited::<Processor>(data, s.processor) {
                    Err(e) => Err(e),
                    Ok(p) => Ok(ExtensionView { has_processor: true, processor: p, ..s }),
                },
            }
        } else if field == 4 {
            match value.to_bytes() {
                Err(e) => Err(e),
                Ok(data) => match visited::<DecoderReader>(data, s.decoder) {
                    Err(e) => Err(e),
                    Ok(d) => Ok(ExtensionView { has_decoder: true, decoder: d, ..s }),
                },
            }
        } else {
            Ok(s)
        }
    }

    open spec fn refused(s: ExtensionView, field: u32, value: ValueView) -> ExtensionView {
        if field == 2 {
            ExtensionView {
                has_processor: true,
                processor: walked_inside::<Processor>(value, s.processor),
                ..s
            }
        } else if field == 4 {
            ExtensionView {
                has_decoder: true,
                decoder: walked_inside::<DecoderReader>(value, s.decoder),
                ..s
            }
        } else {
            s
        }
    }

    fn visit(&mut self, field: u32, value: Value<'_>) -> (r: Result<(), Error>) {
        if field == 2 {
            self.has_processor = true;
            let data: &[u8] = value.as_bytes()?;
            for_each_field(data, &mut self.processor)?;
        } else if field == 4 {
            self.has_decoder = true;
            let data: &[u8] = value.as_bytes()?;
            for_each_field(data, &mut self.decoder)?;
        }
        Ok(())
    }
}

/// The field number of the extension.
pub const EXTENSION_FIELD: u32 = 158518157;

/// A whole specification as it comes in.
pub struct SpecReader {
    pub languages: Vec<String>,
    pub has_extension: bool,
    pub extension: Extension,
}

/// A [`SpecReader`] by its contents.
#[verifier::ext_equal]
pub struct SpecReaderView {
    pub languages: Seq<Seq<char>>,
    pub has_extension: bool,
    pub extension: ExtensionView,
}

impl Visitor for SpecReader {
    type State = SpecReaderView;

    open spec fn state(&self) -> SpecReaderView {
        SpecReaderView {
            languages: texts_view(self.languages@),
            has_extension: self.has_extension,
            extension: self.extension.state(),
        }
    }

    open spec fn step(s: SpecReaderView, field: u32, value: ValueView) -> Result<
        SpecReaderView,
        ErrorView,
    > {
        if field == 2 {
            match value.to_text() {
                Err(e) => Err(e),
                Ok(text) => Ok(SpecReaderView { languages: s.languages.push(text), ..s }),
            }
        } else if field == EXTENSION_FIELD {
            match value.to_bytes() {
                Err(e) => Err(e),
                Ok(data) => match visited::<Extension>(data, s.extension) {
                    Err(e) => Err(e),
                    Ok(x) => Ok(SpecReaderView { has_extension: true, extension: x, ..s }),
                },
            }
        } else {
            Ok(s)
        }
    }

    open spec fn refused(s: SpecReaderView, field: u32, value: ValueView) -> SpecReaderView {
        if field == EXTENSION_FIELD {
            SpecReaderView {
                has_extension: true,
                extension: walked_inside::<Extension>(value, s.extension),
                ..s
            }
        } else {
            s
        }
    }

    fn visit(&mut self, field: u32, value: Value<'_>) -> (r: Result<(), Error>) {
        if field == 2 {
            let text: String = String::from_str(value.as_str()?);
            let ghost before = self.languages@;
            let ghost name = text@;
            self.languages.push(text);
            assert(texts_view(self.languages@) =~= texts_view(before).push(name));
        } else if field == EXTENSION_FIELD {
            self.has_extension = true;
            let data: &[u8] = value.as_bytes()?;
            for_each_field(data, &mut self.extension)?;
        }
        Ok(())
    }
}

/// A parsed recognizer specification.
#[derive(Debug, Clone, PartialEq)]
pub struct RecoSpec {
    pub languages: Vec<String>,
    /// Network labels excluding the blank.
    pub charset: Vec<String>,
    pub num_features: Option<usize>,
    pub curve_settings: CurveSettings,
    pub pipeline: Vec<PreprocessingStep>,
    pub decoder: DecoderConfig,
    /// True when the specification carries a decoder, i.e. it is a sequence
    /// recognizer rather than a gesture or emoji classifier.
    pub has_fst_decoder: bool,
}

/// A [`RecoSpec`] by its contents.
#[verifier::ext_equal]
pub struct RecoSpecView {
    pub languages: Seq<Seq<char>>,
    pub charset: Seq<Seq<char>>,
    pub num_features: Option<usize>,
    pub curve_settings: CurveSettings,
    pub pipeline: Seq<StepView>,
    pub decoder: DecoderView,
    pub has_fst_decoder: bool,
}

impl View for RecoSpec {
    type V = RecoSpecView;

    open spec fn view(&self) -> RecoSpecView {
        RecoSpecView {
            languages: texts_view(self.languages@),
            charset: texts_view(self.charset@),
            num_features: self.num_features,
            curve_settings: self.curve_settings,
            pipeline: steps_view(self.pipeline@),
            decoder: self.decoder@,
            has_fst_decoder: self.has_fst_decoder,
        }
    }
}

/// A specification before any field.
pub open spec fn empty_spec() -> RecoSpecView {
    RecoSpecView {
        languages: Seq::empty(),
        charset: Seq::empty(),
        num_features: None,
        curve_settings: CurveSettings::defaults(),
        pipeline: Seq::empty(),
        decoder: empty_decoder(),
        has_fst_decoder: false,
    }
}

impl Default for RecoSpec {
    fn default() -> (r: Self)
        ensures
            r@ == empty_spec(),
    {
        let r: RecoSpec = RecoSpec {
            languages: Vec::new(),
            charset: Vec::new(),
            num_features: None,
            curve_settings: CurveSettings::default(),
            pipeline: Vec::new(),
            decoder: DecoderConfig::default(),
            has_fst_decoder: false,
        };
        assert(r@ =~= empty_spec());
        r
    }
}

/// A reader before any field.
pub open spec fn fresh_reader() -> SpecReaderView {
    SpecReaderView {
        languages: Seq::empty(),
        has_extension: false,
        extension: ExtensionView {
            has_processor: false,
            has_decoder: false,
            processor: ProcessorView {
                charset: Seq::empty(),
                curve_settings: CurveSettings::defaults(),
                num_features: None,
                pipeline: Seq::empty(),
            },
            decoder: (false, empty_decoder()),
        },
    }
}

/// The specification in a message.
pub open spec fn spec_in(data: Seq<u8>) -> Result<RecoSpecView, ErrorView> {
    match visited::<SpecReader>(data, fresh_reader()) {
        Err(e) => Err(e),
        Ok(s) => if !s.has_extension {
            Err(ErrorView::Format("RecognizerSpec has no TfRecognizerSpec extension"@))
        } else if !(s.extension.has_processor && s.extension.has_decoder) {
            Err(ErrorView::Format("TfRecognizerSpec requires processor and decoder configs"@))
        } else {
            Ok(
                RecoSpecView {
                    languages: s.languages,
                    charset: s.extension.processor.charset,
                    num_features: s.extension.processor.num_features,
                    curve_settings: s.extension.processor.curve_settings,
                    pipeline: s.extension.processor.pipeline,
                    decoder: s.extension.decoder.1,
                    has_fst_decoder: s.extension.decoder.0,
                },
            )
        },
    }
}

/// How network output indices map onto labels of the language model.
///
/// Blank is the *last* network output, and normal index `k` maps to label
/// `k + 2`.
#[derive(Debug, Clone, PartialEq)]
pub struct CtcMapping {
    /// Label for each network index.
    pub net_to_fst: Vec<u32>,
    /// Symbol text for each network index; `[[space]]` stays verbatim here.
    pub net_symbols: Vec<String>,
    pub blank_index: usize,
    /// Whether there was a symbol table to check the charset against.
    pub symbol_table_verified: bool,
}

/// A [`CtcMapping`] by its contents.
#[verifier::ext_equal]
pub struct MappingView {
    pub net_to_fst: Seq<u32>,
    pub net_symbols: Seq<Seq<char>>,
    pub blank_index: usize,
    pub symbol_table_verified: bool,
}

impl View for CtcMapping {
    type V = MappingView;

    open spec fn view(&self) -> MappingView {
        MappingView {
            net_to_fst: self.net_to_fst@,
            net_symbols: texts_view(self.net_symbols@),
            blank_index: self.blank_index,
            symbol_table_verified: self.symbol_table_verified,
        }
    }
}

/// How a symbol table writes a character.
pub open spec fn symbol_of(character: Seq<char>) -> Seq<char> {
    if character == " "@ {
        "[[space]]"@
    } else {
        character
    }
}

/// The symbol that belongs to a label: epsilon, the reserved label, the charset,
/// and the two ends of a sentence.
pub open spec fn expected_symbol(charset: Seq<Seq<char>>, label: int) -> Seq<char> {
    if label == 0 {
        "<epsilon>"@
    } else if label == 1 {
        "<reserved>"@
    } else if label == charset.len() + 2 {
        "<S>"@
    } else if label == charset.len() + 3 {
        "</S>"@
    } else {
        symbol_of(charset[label - 2])
    }
}

/// The symbol table that belongs to a charset.
pub open spec fn expected_symbols(charset: Seq<Seq<char>>) -> Map<u32, Seq<char>> {
    Map::new(
        |label: u32| label < charset.len() + 4,
        |label: u32| expected_symbol(charset, label as int),
    )
}

/// The label of a network index; the blank has the reserved label.
pub open spec fn labels_for(count: nat) -> Seq<u32> {
    Seq::new(
        count + 1,
        |k: int|
            if k < count {
                (k + 2) as u32
            } else {
                1
            },
    )
}

/// The mapping of a specification for a number of network outputs.
pub open spec fn mapping_for(v: RecoSpecView, num_classes: usize) -> Result<
    Option<MappingView>,
    ErrorView,
> {
    let count = v.charset.len();
    if !v.has_fst_decoder {
        Ok(None)
    } else if num_classes != count + 1 {
        Err(
            ErrorView::Invalid(
                "expected "@ + dec(count + 1) + " CTC outputs for "@ + dec(count)
                    + " characters, got "@ + dec(num_classes as nat),
            ),
        )
    } else if count > u32::MAX - 3 {
        Err(ErrorView::Format("charset is too large for FST labels"@))
    } else if v.decoder.symbol_table.len() > 0 && v.decoder.symbol_table != expected_symbols(
        v.charset,
    ) {
        Err(
            ErrorView::Format(
                "charset does not match the expected contiguous FST symbol table"@,
            ),
        )
    } else {
        Ok(
            Some(
                MappingView {
                    net_to_fst: labels_for(count),
                    net_symbols: labels_for(count).map_values(
                        |l: u32| expected_symbol(v.charset, l as int),
                    ),
                    blank_index: (num_classes - 1) as usize,
                    symbol_table_verified: v.decoder.symbol_table.len() > 0,
                },
            ),
        )
    }
}

/// The symbol that belongs to a label.
fn symbol_for(charset: &Vec<String>, label: u32) -> (r: String)
    requires
        charset@.len() <= u32::MAX - 3,
        label < charset@.len() + 4,
    ensures
        r@ == expected_symbol(texts_view(charset@), label as int),
{
    let count: u32 = charset.len() as u32;
    if label == 0 {
        String::from_str("<epsilon>")
    } else if label == 1 {
        String::from_str("<reserved>")
    } else if label == count + 2 {
        String::from_str("<S>")
    } else if label == count + 3 {
        String::from_str("</S>")
    } else {
        let character: &String = &charset[(label - 2) as usize];
        if same_text(character.as_str(), " ") {
            String::from_str("[[space]]")
        } else {
            character.clone()
        }
    }
}

/// Numbers below a bound, as a set, are as many as the bound.
proof fn lemma_below_finite(bound: nat)
    requires
        bound <= u32::MAX,
    ensures
        Set::new(|l: u32| l < bound).finite(),
        Set::new(|l: u32| l < bound).len() == bound,
    decreases bound,
{
    let s = Set::new(|l: u32| l < bound);
    if bound == 0 {
        assert(s =~= Set::empty());
    } else {
        let top = (bound - 1) as u32;
        let smaller = Set::new(|l: u32| l < bound - 1);
        lemma_below_finite((bound - 1) as nat);
        assert(s =~= smaller.insert(top));
    }
}

impl RecoSpec {
    pub fn parse(data: &[u8]) -> (r: Result<Self, Error>)
        ensures
            match (r, spec_in(data@)) {
                (Ok(a), Ok(b)) => a@ == b,
                (Err(e), Err(f)) => e@ == f,
                _ => false,
            },
    {
        let mut reader: SpecReader = SpecReader {
            languages: Vec::new(),
            has_extension: false,
            extension: Extension {
                has_processor: false,
                has_decoder: false,
                processor: Processor {
                    charset: Vec::new(),
                    curve_settings: CurveSettings::default(),
                    num_features: None,
                    pipeline: Pipeline { steps: Vec::new() },
                },
                decoder: DecoderReader {
                    present: false,
                    config: FstConfig {
                        search: Search { beam_width: None, per_label_cost: None },
                        word_model: WordModel { symbols: no_symbols() },
                        lm_weight: None,
                        classes: Classes {
                            weights: ClassWeights { weights: Vec::new() },
                            table: None,
                        },
                        initial_space_penalty: None,
                    },
                },
            },
        };
        assert(reader.extension.decoder.config.state() =~= empty_decoder());
        assert(reader.extension.processor.state() =~= fresh_reader().extension.processor);
        assert(reader.state() =~= fresh_reader());
        for_each_field(data, &mut reader)?;
        if !reader.has_extension {
            return Err(format_error("RecognizerSpec has no TfRecognizerSpec extension"));
        }
        if !(reader.extension.has_processor && reader.extension.has_decoder) {
            return Err(format_error("TfRecognizerSpec requires processor and decoder configs"));
        }
        let processor: Processor = reader.extension.processor;
        let config: FstConfig = reader.extension.decoder.config;
        Ok(
            RecoSpec {
                languages: reader.languages,
                charset: processor.charset,
                num_features: processor.num_features,
                curve_settings: processor.curve_settings,
                pipeline: processor.pipeline.steps,
                decoder: DecoderConfig {
                    beam_width: config.search.beam_width,
                    lm_weight: config.lm_weight,
                    per_label_cost: config.search.per_label_cost,
                    initial_space_penalty: config.initial_space_penalty,
                    char_class_table: config.classes.table,
                    char_class_weights: config.classes.weights.weights,
                    symbol_table: config.word_model.symbols,
                },
                has_fst_decoder: reader.extension.decoder.present,
            },
        )
    }

    /// Whether the symbol table is the one that belongs to the charset.
    fn table_matches(&self) -> (r: bool)
        requires
            self@.charset.len() <= u32::MAX - 3,
        ensures
            r == (self@.decoder.symbol_table == expected_symbols(self@.charset)),
    {
        let table: &BTreeMap<u32, String> = &self.decoder.symbol_table;
        let ghost have = self@.decoder.symbol_table;
        let ghost want = expected_symbols(self@.charset);
        let total: u64 = self.charset.len() as u64 + 4;
        let size: usize = symbol_count(table);
        proof {
            if total <= u32::MAX {
                lemma_below_finite(total as nat);
                assert(want.dom() =~= Set::new(|l: u32| l < total));
            } else {
                lemma_below_finite(u32::MAX as nat);
                let smaller = Set::new(|l: u32| l < u32::MAX);
                assert(want.dom() =~= smaller.insert(u32::MAX));
            }
            assert(want.dom().len() == total);
        }
        if size as u64 != total {
            return false;
        }
        let mut label: u64 = 0;
        while label < total
            invariant
                label <= total,
                total == self@.charset.len() + 4,
                self@.charset.len() <= u32::MAX - 3,
                have == symbols_view(table@),
                have == self@.decoder.symbol_table,
                want == expected_symbols(self@.charset),
                forall|l: u32|
                    l < label ==> #[trigger] have.contains_key(l) && have[l] == want[l],
            decreases total - label,
        {
            let wanted: String = symbol_for(&self.charset, label as u32);
            let same: bool = match symbol_at(table, label as u32) {
                None => false,
                Some(s) => same_text(s.as_str(), wanted.as_str()),
            };
            if !same {
                assert(want.contains_key(label as u32));
                return false;
            }
            label += 1;
        }
        proof {
            assert(want.dom().subset_of(have.dom())) by {
                assert forall|l: u32| want.dom().contains(l) implies have.dom().contains(l) by {
                    assert(have.contains_key(l));
                }
            }
            vstd::set_lib::lemma_subset_equality(want.dom(), have.dom());
            assert forall|l: u32| have.dom().contains(l) implies have[l] == want[l] by {
                assert(want.dom().contains(l));
                assert(have.contains_key(l));
            }
            assert(have =~= want);
        }
        true
    }

    /// Build the mapping, validating the network's output dimension against the
    /// charset. Returns `None` for gesture classifiers.
    pub fn ctc_mapping(&self, num_classes: usize) -> (r: Result<Option<CtcMapping>, Error>)
        ensures
            match (r, mapping_for(self@, num_classes)) {
                (Ok(None), Ok(None)) => true,
                (Ok(Some(a)), Ok(Some(b))) => a@ == b,
                (Err(e), Err(f)) => e@ == f,
                _ => false,
            },
    {
        if !self.has_fst_decoder {
            return Ok(None);
        }
        let count: usize = self.charset.len();
        if num_classes == 0 || num_classes - 1 != count {
            let mut text: String = String::from_str("expected ");
            push_dec_wide(&mut text, (count as u128) + 1);
            text.append(" CTC outputs for ");
            push_dec(&mut text, count as u64);
            text.append(" characters, got ");
            push_dec(&mut text, num_classes as u64);
            return Err(Error::Invalid(text));
        }
        if count as u64 > (u32::MAX - 3) as u64 {
            return Err(format_error("charset is too large for FST labels"));
        }
        let symbol_table_verified: bool = symbol_count(&self.decoder.symbol_table) > 0;
        if symbol_table_verified && !self.table_matches() {
            return Err(
                format_error("charset does not match the expected contiguous FST symbol table"),
            );
        }
        let mut net_to_fst: Vec<u32> = Vec::new();
        let mut net_symbols: Vec<String> = Vec::new();
        let mut k: usize = 0;
        while k <= count
            invariant
                k <= count + 1,
                count == self@.charset.len(),
                count <= u32::MAX - 3,
                net_to_fst@.len() == k,
                net_symbols@.len() == k,
                forall|j: int| 0 <= j < k ==> net_to_fst@[j] == labels_for(count as nat)[j],
                forall|j: int|
                    0 <= j < k ==> (#[trigger] net_symbols@[j])@ == expected_symbol(
                        self@.charset,
                        labels_for(count as nat)[j] as int,
                    ),
            decreases count + 1 - k,
        {
            let label: u32 = if k < count {
                k as u32 + 2
            } else {
                1
            };
            net_to_fst.push(label);
            net_symbols.push(symbol_for(&self.charset, label));
            k += 1;
        }
        assert(net_to_fst@ =~= labels_for(count as nat));
        assert(texts_view(net_symbols@) =~= labels_for(count as nat).map_values(
            |l: u32| expected_symbol(self@.charset, l as int),
        ));
        Ok(
            Some(
                CtcMapping {
                    net_to_fst,
                    net_symbols,
                    blank_index: num_classes - 1,
                    symbol_table_verified,
                },
            ),
        )
    }
}

/// Every output of a mapped network has a label of its own: the character at index `k`
/// the label `k + 2`, and the blank, which comes last, the reserved label one.
pub proof fn lemma_mapping(v: RecoSpecView, num_classes: usize)
    ensures
        mapping_for(v, num_classes) matches Ok(Some(m)) ==> {
            &&& m.net_to_fst.len() == num_classes
            &&& m.net_symbols.len() == num_classes
            &&& m.blank_index == num_classes - 1
            &&& m.net_to_fst.last() == 1
            &&& forall|k: int|
                0 <= k < v.charset.len() ==> (#[trigger] m.net_to_fst[k]) == k + 2
                    && m.net_symbols[k] == symbol_of(v.charset[k])
            &&& forall|i: int, j: int|
                0 <= i < j < num_classes ==> (#[trigger] m.net_to_fst[i]) != (
                #[trigger] m.net_to_fst[j])
        },
{
    if let Ok(Some(m)) = mapping_for(v, num_classes) {
        let count = v.charset.len();
        assert forall|k: int| 0 <= k < count implies (#[trigger] m.net_to_fst[k]) == k + 2
            && m.net_symbols[k] == symbol_of(v.charset[k]) by {}
        assert forall|i: int, j: int| 0 <= i < j < num_classes implies (#[trigger] m.net_to_fst[i])
            != (#[trigger] m.net_to_fst[j]) by {}
    }
}

} // verus!
