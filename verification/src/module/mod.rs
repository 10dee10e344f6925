pub mod predict;

pub use predict::{Action, Event, Predict};

use crate::Error;
use vstd::prelude::*;

verus! {

/// A unit that can be called with an input and answers with an output.
pub trait Module {
    type Input;

    type Output;

    /// Runs the unit on `input`.
    fn call(&self, input: Self::Input) -> Result<Self::Output, Error>;
}

} // verus!
