//! Typed signatures for language models: a signature names the fields that go into a task
//! and come out of it, an adapter turns an input into the messages of a prompt and a
//! reply back into an output, and an orchestrator decides the steps of a call.
//!
//! Formatting and decoding are proved against mathematical models of the texts and of
//! the JSON documents involved. JSON itself is read and written by `serde_json`, and
//! schemas are those of `schemars`; what is believed of the two crates is stated with
//! the items of [`json`] and [`schema`] that call them.

pub mod adapter;
pub mod image;
pub mod json;
pub mod lm;
pub mod model;
pub mod module;
pub mod schema;
pub mod signature;
pub mod text;

pub use adapter::json::{fmt_type, JsonAdapter};
pub use adapter::Adapter;
pub use image::Image;
pub use lm::{Message, MessageContent, LM};
pub use model::{Args, Model};
pub use module::{Action, Event, Module, Predict};
pub use signature::{Instruction, Signature};

use vstd::prelude::*;

verus! {

/// A named member of an input or output record, with an optional description.
#[derive(Debug, Clone, PartialEq, Eq)]
pub struct Field {
    pub name: &'static str,
    pub description: Option<&'static str>,
}

/// A field as a mathematical value.
pub struct FieldView {
    pub name: Seq<char>,
    pub description: Option<Seq<char>>,
}

impl View for Field {
    type V = FieldView;

    open spec fn view(&self) -> FieldView {
        FieldView {
            name: self.name@,
            description: match self.description {
                Some(d) => Some(d@),
                None => None,
            },
        }
    }
}

/// Why a value was turned down.
#[derive(Debug)]
pub enum Cause {
    /// serde_json turned it down; this is its report.
    Json(String),
    /// It is valid JSON that is no object where one is asked for, or that breaks a
    /// keyword of the schema it is held against.
    Shape,
    /// Its name is taken.
    Duplicate,
}

/// A cause as a mathematical value.
pub enum CauseView {
    Json(Seq<char>),
    Shape,
    Duplicate,
}

impl View for Cause {
    type V = CauseView;

    open spec fn view(&self) -> CauseView {
        match self {
            Cause::Json(report) => CauseView::Json(report@),
            Cause::Shape => CauseView::Shape,
            Cause::Duplicate => CauseView::Duplicate,
        }
    }
}

impl CauseView {
    /// The cause in words.
    pub open spec fn display(self) -> Seq<char> {
        match self {
            CauseView::Json(report) => "serde_json: "@ + report,
            CauseView::Shape => "not of the shape that was asked for"@,
            CauseView::Duplicate => "the name is taken"@,
        }
    }
}

impl Cause {
    /// The cause in words.
    pub fn to_text(&self) -> (r: String)
        ensures
            r@ == self@.display(),
    {
        match self {
            Cause::Json(report) => {
                let mut buf = String::new();
                buf.append("serde_json: ");
                buf.append(report.as_str());
                assert(buf@ =~= self@.display());
                buf
            },
            Cause::Shape => "not of the shape that was asked for".to_owned(),
            Cause::Duplicate => "the name is taken".to_owned(),
        }
    }
}

/// What can go wrong between an input value and the output decoded for it.
#[derive(Debug)]
pub enum Error {
    /// The input, or the signature it is formatted by, has no generic form.
    Format(Cause),
    /// The language model failed; this is its own report.
    Backend(String),
    /// The reply could not be decoded into the output.
    Decode(Cause),
}

/// An error as a mathematical value.
pub enum ErrorView {
    Format(CauseView),
    Backend(Seq<char>),
    Decode(CauseView),
}

impl View for Error {
    type V = ErrorView;

    open spec fn view(&self) -> ErrorView {
        match self {
            Error::Format(cause) => ErrorView::Format(cause@),
            Error::Backend(report) => ErrorView::Backend(report@),
            Error::Decode(cause) => ErrorView::Decode(cause@),
        }
    }
}

impl ErrorView {
    /// The error in words: where it arose, then why.
    pub open spec fn display(self) -> Seq<char> {
        match self {
            ErrorView::Format(cause) => "format: "@ + cause.display(),
            ErrorView::Backend(report) => "backend: "@ + report,
            ErrorView::Decode(cause) => "decode: "@ + cause.display(),
        }
    }
}

impl Error {
    /// The error in words: where it arose, then why.
    pub fn to_text(&self) -> (r: String)
        ensures
            r@ == self@.display(),
    {
        let mut buf = String::new();
        match self {
            Error::Format(cause) => {
                buf.append("format: ");
                buf.append(cause.to_text().as_str());
            },
            Error::Backend(report) => {
                buf.append("backend: ");
                buf.append(report.as_str());
            },
            Error::Decode(cause) => {
                buf.append("decode: ");
                buf.append(cause.to_text().as_str());
            },
        }
        assert(buf@ =~= self@.display());
        buf
    }
}

} // verus!
