pub mod json;
pub mod reasoning;

use crate::lm::Message;
use crate::Error;
use vstd::prelude::*;

verus! {

/// The two directions between the values of a signature and a language model: values
/// into messages, and a reply into a value.
pub trait Adapter {
    /// The messages that carry `input` to a language model, with the schema that the
    /// reply is to follow, if there is one.
    fn format(&self, input: &serde_json::Value) -> Result<
        (Vec<Message>, Option<&schemars::Schema>),
        Error,
    >;

    /// The output that the reply of a language model decodes to.
    fn parse(&self, output: String) -> Result<serde_json::Value, Error>;
}

} // verus!
