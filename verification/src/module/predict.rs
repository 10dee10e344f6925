use crate::adapter::json::{decoded, formatted, yields, JsonAdapter};
use crate::adapter::Adapter;
use crate::json::{json_of, Json};
use crate::lm::{reply_view, schema_view, turns_of, Message, Turn, LM};
use crate::module::Module;
use crate::schema::{passes, schema_json};
use crate::signature::{Signature, SignatureView};
use crate::{Cause, CauseView, Error, ErrorView};
use vstd::prelude::*;

verus! {

/// What happened outside the orchestrator.
pub enum Event {
    /// A call begins: the input in its generic form, or the report of why it has none.
    Input(Result<serde_json::Value, String>),
    /// The language model answered, or failed.
    Reply(Result<String, Error>),
}

/// An event as a mathematical value.
pub enum EventView {
    Input(Result<Json, Seq<char>>),
    Reply(Result<Seq<char>, ErrorView>),
}

impl View for Event {
    type V = EventView;

    open spec fn view(&self) -> EventView {
        match self {
            Event::Input(Ok(value)) => EventView::Input(Ok(json_of(*value))),
            Event::Input(Err(report)) => EventView::Input(Err(report@)),
            Event::Reply(reply) => EventView::Reply(reply_view(*reply)),
        }
    }
}

/// What the orchestrator asks for next.
pub enum Action<'a> {
    /// Call the language model with these messages, under this schema.
    Call { messages: Vec<Message>, schema: Option<&'a schemars::Schema> },
    /// The call is over, with this result.
    Return(Result<serde_json::Value, Error>),
}

/// An action as a mathematical value.
pub enum ActionView {
    Call { messages: Seq<Turn>, schema: Option<Json> },
    Return(Result<Json, ErrorView>),
}

impl<'a> View for Action<'a> {
    type V = ActionView;

    open spec fn view(&self) -> ActionView {
        match self {
            Action::Call { messages, schema } => ActionView::Call {
                messages: turns_of(messages@),
                schema: schema_view(*schema),
            },
            Action::Return(Ok(value)) => ActionView::Return(Ok(json_of(*value))),
            Action::Return(Err(e)) => ActionView::Return(Err(e@)),
        }
    }
}

/// The result of a call under `sig` whose model gave `reply`: the output that the reply
/// decodes to, or the failure of the model as it is.
pub open spec fn answered(
    sig: SignatureView,
    reply: Result<Seq<char>, ErrorView>,
) -> Result<Json, ErrorView> {
    match reply {
        Ok(text) => decoded(sig, text),
        Err(e) => Err(e),
    }
}

/// The step that follows an event in a call under `sig`. An input is formatted into the
/// messages for the model, to be answered under the schema of the output record; a reply
/// is decoded into the output. A failure on the way, of the input, of the model or of
/// the reply, ends the call and is handed on as it is.
pub open spec fn next(sig: SignatureView, event: EventView) -> ActionView {
    match event {
        EventView::Input(Ok(input)) => match formatted(sig, input) {
            Ok(messages) => ActionView::Call { messages, schema: Some(sig.output.schema) },
            Err(e) => ActionView::Return(Err(e)),
        },
        EventView::Input(Err(report)) => ActionView::Return(
            Err(ErrorView::Format(CauseView::Json(report))),
        ),
        EventView::Reply(reply) => ActionView::Return(answered(sig, reply)),
    }
}

/// Runs one signature against one language model. It holds the handle of the model and
/// decides each step of a call; whoever owns the handle makes the call to the model.
pub struct Predict<L> {
    lm: L,
    adapter: JsonAdapter,
}

impl<L> Predict<L> {
    /// The signature that the orchestrator is bound to.
    pub closed spec fn view(&self) -> SignatureView {
        self.adapter@
    }

    /// The handle of the language model.
    pub closed spec fn backend(&self) -> L {
        self.lm
    }

    /// An orchestrator for `signature` that holds `lm`.
    pub fn new(lm: L, signature: Signature) -> (r: Self)
        ensures
            r@ == signature@,
            r.backend() == lm,
    {
        Predict { lm, adapter: JsonAdapter::new(signature) }
    }

    /// Replaces the handle of the language model; the signature stays.
    pub fn set_lm(&mut self, lm: L)
        ensures
            final(self).backend() == lm,
            final(self)@ == old(self)@,
    {
        self.lm = lm;
    }

    /// The handle of the language model.
    pub fn lm(&self) -> (r: &L)
        ensures
            *r == self.backend(),
    {
        &self.lm
    }

    /// The result of a call whose model gave `reply`: the output that the reply decodes
    /// to, or the failure of the model as it is. An output that comes back breaks none
    /// of the keywords of the output schema that are held here.
    pub fn answer(&self, reply: Result<String, Error>) -> (r: Result<serde_json::Value, Error>)
        ensures
            yields(r, answered(self@, reply_view(reply))),
            r matches Ok(output) ==> passes(self@.output.schema, json_of(output)),
    {
        match reply {
            Ok(text) => self.adapter.parse(text),
            Err(e) => Err(e),
        }
    }

    /// The next step of a call.
    pub fn step(&self, event: Event) -> (r: Action<'_>)
        ensures
            r@ == next(self@, event@),
    {
        match event {
            Event::Input(Ok(value)) => match self.adapter.format(&value) {
                Ok((messages, schema)) => Action::Call { messages, schema },
                Err(e) => Action::Return(Err(e)),
            },
            Event::Input(Err(report)) => Action::Return(Err(Error::Format(Cause::Json(report)))),
            Event::Reply(reply) => Action::Return(self.answer(reply)),
        }
    }
}

impl<L: LM> Module for Predict<L> {
    type Input = serde_json::Value;

    type Output = serde_json::Value;

    /// One round trip: the input is formatted, the language model is called once, and
    /// its reply is decoded. An input that is no JSON object never reaches the model;
    /// otherwise what comes back is what a reply is worth that the model gave to the
    /// messages for the input, under the schema of the output record. An output that
    /// comes back breaks none of the keywords of the output schema that `held_keyword`
    /// names; what the schema says by other keywords is left to the decode of the
    /// output into its type, which follows the call.
    fn call(&self, input: serde_json::Value) -> (r: Result<serde_json::Value, Error>)
        ensures
            match formatted(self@, json_of(input)) {
                Ok(messages) => exists|reply: Result<Seq<char>, ErrorView>|
                    self.backend().replies(messages, Some(self@.output.schema), reply) && yields(
                        r,
                        #[trigger] answered(self@, reply),
                    ),
                Err(e) => yields(r, Err(e)),
            },
            r matches Ok(output) ==> passes(self@.output.schema, json_of(output)),
    {
        match self.adapter.format(&input) {
            Ok((messages, schema)) => {
                let reply = self.lm.call(messages, schema);
                self.answer(reply)
            },
            Err(e) => Err(e),
        }
    }
}

} // verus!
