//! The inference service handler.

use vstd::prelude::*;

verus! {

/// Concrete implementation of the inference service contract.
pub struct InferenceHandler;

impl InferenceHandler {
    /// A new handler.
    pub fn new() -> (h: Self)
        ensures
            h == InferenceHandler,
    {
        InferenceHandler
    }
}

} // verus!
