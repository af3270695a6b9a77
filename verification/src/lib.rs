//! Digital ink recognition.
//!
//! ```text
//! ink strokes
//!   -> preprocess      named pipeline steps from the recognizer specification
//!   -> curve           thinning, splitting, cubic fitting, merging
//!   -> features        the Bezier features
//!   -> net             stacked bidirectional IndyLSTM + linear head
//!   -> decoder         CTC beam search, shallow-fused with the n-gram model
//!   -> candidates
//! ```
//!
//! Every model artifact is read out of borrowed bytes. Nothing here opens a file,
//! starts a thread or looks at the clock. Numbers are IEEE bit patterns
//! ([`float::F32`], [`float::F64`]) with exactly rounded arithmetic; square roots,
//! exponentials and the like come from the caller.

pub mod adjoint;
pub mod beam;
pub mod bezier;
pub mod blur;
pub mod bytes;
pub mod catalog;
pub mod choices;
pub mod classes;
pub mod ctc;
pub mod curve;
pub mod decimal;
pub mod decoder;
pub mod descent;
pub mod division;
pub mod error;
pub mod features;
pub mod fit;
pub mod flatbuffer;
pub mod float;
pub mod fst;
pub mod grammar;
pub mod ink;
pub mod lattice;
pub mod lm;
pub mod logmath;
pub mod louds;
pub mod markup;
pub mod mat;
pub mod motion;
pub mod net;
pub mod netgrad;
pub mod numerics;
pub mod optimize;
pub mod order;
pub mod overlay;
pub mod packs;
pub mod paths;
pub mod prefixes;
pub mod preprocess;
pub mod proto;
pub mod ranking;
pub mod recognizer;
pub mod recospec;
pub mod rows;
pub mod scoring;
pub mod settings;
pub mod softmax;
pub mod soundness;
pub mod squares;
pub mod strokewise;
pub mod sums;
pub mod sweep;
pub mod symbols;
pub mod text;
pub mod tflite;
pub mod thinning;
pub mod trie;
pub mod units;
pub mod wiring;

pub use error::Error;
pub use ink::{Point, Stroke};
pub use recognizer::{Candidate, Recognizer};
pub use settings::{CurveSettings, DecoderSettings, NUM_FEATURES};
