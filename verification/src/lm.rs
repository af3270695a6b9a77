//! What a decoder asks of a language model.
use vstd::prelude::*;

use crate::float::F64;

verus! {

/// A deterministic language model over labels. The implementation owns epsilon,
/// backoff and boundary handling; the decoder just asks for transitions.
pub trait LanguageModel {
    type State: Copy;

    spec fn start_state(&self) -> Self::State;

    spec fn next_state(&self, state: Self::State, ilabel: u32) -> Option<(Self::State, F64)>;

    spec fn final_cost(&self, state: Self::State) -> F64;

    fn start(&self) -> (r: Self::State)
        ensures
            r == self.start_state(),
    ;

    /// `None` rejects the extension outright; an infinite cost is also a
    /// rejection but keeps the state meaningful.
    fn advance(&self, state: Self::State, ilabel: u32) -> (r: Option<(Self::State, F64)>)
        ensures
            r == self.next_state(state, ilabel),
    ;

    fn finish(&self, state: Self::State) -> (r: F64)
        ensures
            r == self.final_cost(state),
    ;
}

} // verus!
