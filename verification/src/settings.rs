//! Configuration carried by a recognizer specification.
use vstd::prelude::*;

use crate::float::{F32, F64};

verus! {

/// Settings of the curve fitter. A specification that omits a field means the
/// default of that field.
#[derive(Debug, Clone, Copy, PartialEq)]
pub struct CurveSettings {
    /// Field 1: corner-neighbour distance, as a fraction of the stroke's diagonal.
    pub tol1: F64,
    /// Field 2: maximum spatial residual, as a fraction of the diagonal.
    pub tol2: F64,
    /// Field 3: root mean square spatial residual, as a fraction of the diagonal.
    pub tol3: F64,
    /// Field 4: control-*polygon* length over endpoint distance.
    pub max_arc_ratio: F64,
    /// Field 5: minimum adjacent control-leg cosine.
    pub split_cos_threshold: F64,
    /// Field 6.
    pub generate_second_order_features: bool,
    /// Field 7: selects the angles/ratios encoder.
    pub use_angles_ratios: bool,
    /// Field 9: emit the three time features.
    pub interpolate_time: bool,
    /// Field 10: squash outputs into [0, 1].
    pub normalize_outputs_to_zero_one: bool,
}

impl CurveSettings {
    /// The defaults: tolerances 0.05, 0.02 and 0.01, ratio 4, cosine -0.9.
    pub open spec fn defaults() -> CurveSettings {
        CurveSettings {
            tol1: F64 { bits: 0x3fa9_9999_9999_999a },
            tol2: F64 { bits: 0x3f94_7ae1_47ae_147b },
            tol3: F64 { bits: 0x3f84_7ae1_47ae_147b },
            max_arc_ratio: F64 { bits: 0x4010_0000_0000_0000 },
            split_cos_threshold: F64 { bits: 0xbfec_cccc_cccc_cccd },
            generate_second_order_features: false,
            use_angles_ratios: false,
            interpolate_time: false,
            normalize_outputs_to_zero_one: false,
        }
    }

    /// What handwriting specifications carry, useful for callers that fit curves
    /// without loading a model: ratio 3, cosine -0.8, timed angles and ratios.
    pub fn handwriting() -> (r: Self)
        ensures
            r == (CurveSettings {
                max_arc_ratio: F64 { bits: 0x4008_0000_0000_0000 },
                split_cos_threshold: F64 { bits: 0xbfe9_9999_9999_999a },
                use_angles_ratios: true,
                interpolate_time: true,
                ..CurveSettings::defaults()
            }),
    {
        CurveSettings {
            max_arc_ratio: F64 { bits: 0x4008_0000_0000_0000 },
            split_cos_threshold: F64 { bits: 0xbfe9_9999_9999_999a },
            use_angles_ratios: true,
            interpolate_time: true,
            ..CurveSettings::default()
        }
    }

    /// Feature width: 10 with time interpolation, 7 without.
    pub fn num_features(&self) -> (r: usize)
        ensures
            r == if self.interpolate_time {
                10usize
            } else {
                7
            },
    {
        if self.interpolate_time {
            10
        } else {
            7
        }
    }
}

impl Default for CurveSettings {
    fn default() -> (r: Self)
        ensures
            r == CurveSettings::defaults(),
    {
        CurveSettings {
            tol1: F64 { bits: 0x3fa9_9999_9999_999a },
            tol2: F64 { bits: 0x3f94_7ae1_47ae_147b },
            tol3: F64 { bits: 0x3f84_7ae1_47ae_147b },
            max_arc_ratio: F64 { bits: 0x4010_0000_0000_0000 },
            split_cos_threshold: F64 { bits: 0xbfec_cccc_cccc_cccd },
            generate_second_order_features: false,
            use_angles_ratios: false,
            interpolate_time: false,
            normalize_outputs_to_zero_one: false,
        }
    }
}

/// Widest feature vector the encoder produces.
pub const NUM_FEATURES: usize = 10;

/// One entry of a preprocessing pipeline, identified by its branch. Unrecognised
/// branches are preserved so that a specification using a step that is not
/// implemented fails loudly and by name.
#[derive(Debug, Clone, PartialEq)]
pub enum PreprocessingStep {
    /// Field 5. Subtract the first stroke's first timestamp.
    NormalizeTime,
    /// Field 6. Regenerate all timestamps at a fixed interval.
    HallucinateTime { interval: F32, force: bool },
    /// Field 2.
    NormalizeSize { margin: F32, first_point_origin: bool },
    /// Field 8. The same as `NormalizeSize` when no writing guide is attached,
    /// which is always the case for raw stroke input.
    NormalizeSizeWritingGuideFirstStroke { margin: F32, first_point_origin: bool },
    /// Field 11. Insert the synthetic pen-up bridges between real strokes.
    AddPenUpStrokes,
    /// A branch that is parsed but not implemented.
    Unsupported { field: u32, name: String },
}

/// A [`PreprocessingStep`] by its contents.
#[verifier::ext_equal]
pub enum StepView {
    NormalizeTime,
    HallucinateTime { interval: F32, force: bool },
    NormalizeSize { margin: F32, first_point_origin: bool },
    NormalizeSizeWritingGuideFirstStroke { margin: F32, first_point_origin: bool },
    AddPenUpStrokes,
    Unsupported { field: u32, name: Seq<char> },
}

impl View for PreprocessingStep {
    type V = StepView;

    open spec fn view(&self) -> StepView {
        match self {
            PreprocessingStep::NormalizeTime => StepView::NormalizeTime,
            PreprocessingStep::HallucinateTime { interval, force } => StepView::HallucinateTime {
                interval: *interval,
                force: *force,
            },
            PreprocessingStep::NormalizeSize {
                margin,
                first_point_origin,
            } => StepView::NormalizeSize {
                margin: *margin,
                first_point_origin: *first_point_origin,
            },
            PreprocessingStep::NormalizeSizeWritingGuideFirstStroke {
                margin,
                first_point_origin,
            } => StepView::NormalizeSizeWritingGuideFirstStroke {
                margin: *margin,
                first_point_origin: *first_point_origin,
            },
            PreprocessingStep::AddPenUpStrokes => StepView::AddPenUpStrokes,
            PreprocessingStep::Unsupported { field, name } => StepView::Unsupported {
                field: *field,
                name: name@,
            },
        }
    }
}

/// Steps by their contents.
pub open spec fn steps_view(steps: Seq<PreprocessingStep>) -> Seq<StepView> {
    steps.map_values(|s: PreprocessingStep| s@)
}

/// The pipeline of handwriting recognizers.
pub fn handwriting_pipeline() -> (r: Vec<PreprocessingStep>)
    ensures
        r@.map_values(|s: PreprocessingStep| s@) == seq![
            StepView::NormalizeTime,
            StepView::HallucinateTime { interval: F32 { bits: 0x41a0_0000 }, force: false },
            StepView::NormalizeSizeWritingGuideFirstStroke {
                margin: F32 { bits: 0 },
                first_point_origin: true,
            },
            StepView::AddPenUpStrokes,
        ],
{
    let mut steps: Vec<PreprocessingStep> = Vec::new();
    steps.push(PreprocessingStep::NormalizeTime);
    steps.push(
        PreprocessingStep::HallucinateTime { interval: F32 { bits: 0x41a0_0000 }, force: false },
    );
    steps.push(
        PreprocessingStep::NormalizeSizeWritingGuideFirstStroke {
            margin: F32 { bits: 0 },
            first_point_origin: true,
        },
    );
    steps.push(PreprocessingStep::AddPenUpStrokes);
    assert(steps@.map_values(|s: PreprocessingStep| s@) =~= seq![
        StepView::NormalizeTime,
        StepView::HallucinateTime { interval: F32 { bits: 0x41a0_0000 }, force: false },
        StepView::NormalizeSizeWritingGuideFirstStroke {
            margin: F32 { bits: 0 },
            first_point_origin: true,
        },
        StepView::AddPenUpStrokes,
    ]);
    steps
}

/// Decoder parameters.
#[derive(Debug, Clone, Copy, PartialEq)]
pub struct DecoderSettings {
    /// How many hypotheses survive a frame.
    pub beam_width: usize,
    /// Scales the word-model cost.
    pub lm_weight: F64,
    /// Added to the score for every emitted label.
    pub insertion_bonus: F64,
    /// Scales the character-class term; zero disables rescoring.
    pub char_class_weight: F64,
    /// Multiplies every per-frame log probability before the alignment sum.
    pub acoustic_scale: F64,
}

/// The weight of the word model, 0.615223527, as bits of binary64.
pub const NATIVE_LM_WEIGHT: u64 = 0x3fe3_afe9_4006_3b95;

/// The bonus of an emitted label, 1.901311993598938, as bits of binary64.
pub const NATIVE_INSERTION_BONUS: u64 = 0x3ffe_6bc6_2000_0000;

impl DecoderSettings {
    /// The defaults: 1000 hypotheses, the weights above, acoustic scale 1.
    pub open spec fn defaults() -> DecoderSettings {
        DecoderSettings {
            beam_width: 1000,
            lm_weight: F64 { bits: NATIVE_LM_WEIGHT },
            insertion_bonus: F64 { bits: NATIVE_INSERTION_BONUS },
            char_class_weight: F64 { bits: NATIVE_LM_WEIGHT },
            acoustic_scale: F64 { bits: 0x3ff0_0000_0000_0000 },
        }
    }

    /// Weights that measure better on real ink: 1 for words, -1 for classes.
    pub fn empirical() -> (r: Self)
        ensures
            r == (DecoderSettings {
                lm_weight: F64 { bits: 0x3ff0_0000_0000_0000 },
                char_class_weight: F64 { bits: 0xbff0_0000_0000_0000 },
                ..DecoderSettings::defaults()
            }),
    {
        DecoderSettings {
            lm_weight: F64 { bits: 0x3ff0_0000_0000_0000 },
            char_class_weight: F64 { bits: 0xbff0_0000_0000_0000 },
            ..DecoderSettings::default()
        }
    }
}

impl DecoderSettings {
    /// The weights that measure better, with the beam of these settings.
    pub fn tuned(&self) -> (r: Self)
        ensures
            r == (DecoderSettings {
                beam_width: self.beam_width,
                lm_weight: F64 { bits: 0x3ff0_0000_0000_0000 },
                char_class_weight: F64 { bits: 0xbff0_0000_0000_0000 },
                ..DecoderSettings::defaults()
            }),
    {
        DecoderSettings { beam_width: self.beam_width, ..DecoderSettings::empirical() }
    }
}

impl Default for DecoderSettings {
    fn default() -> (r: Self)
        ensures
            r == DecoderSettings::defaults(),
    {
        DecoderSettings {
            beam_width: 1000,
            lm_weight: F64 { bits: NATIVE_LM_WEIGHT },
            insertion_bonus: F64 { bits: NATIVE_INSERTION_BONUS },
            char_class_weight: F64 { bits: NATIVE_LM_WEIGHT },
            acoustic_scale: F64 { bits: 0x3ff0_0000_0000_0000 },
        }
    }
}

} // verus!
