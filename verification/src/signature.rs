use crate::json::Json;
use crate::model::{field_schema, literal_text, read_literals, Model, ModelView};
use crate::schema::schema_json;
use crate::Field;
use vstd::prelude::*;

verus! {

/// The instruction of a signature, as its declaration gives it: the lines of the string
/// literals, each trimmed, blank lines left out, joined by spaces.
#[derive(Debug)]
pub struct Instruction {
    instruction: Option<String>,
}

impl Instruction {
    /// The text of the instruction, `None` where every line was blank.
    pub closed spec fn view(&self) -> Option<Seq<char>> {
        match self.instruction {
            Some(s) => Some(s@),
            None => None,
        }
    }

    /// Reads the string literals of a declaration: their lines, trimmed and joined by
    /// spaces.
    pub fn parse(literals: &[&str]) -> (r: Instruction)
        ensures
            r@ == literal_text(literals@, " "@),
    {
        Instruction { instruction: read_literals(literals, " ") }
    }

    /// The text of the instruction.
    pub fn into_option(self) -> (r: Option<String>)
        ensures
            match self@ {
                Some(text) => r is Some && r->0@ == text,
                None => r is None,
            },
    {
        self.instruction
    }
}

/// A signature as a mathematical value.
pub struct SignatureView {
    pub instruction: Seq<char>,
    pub input: ModelView,
    pub output: ModelView,
}

impl SignatureView {
    /// The schema of the field of that name, an input field before an output field.
    pub open spec fn field(self, name: Seq<char>) -> Option<Json> {
        match field_schema(self.input.fields, name) {
            Some(doc) => Some(doc),
            None => field_schema(self.output.fields, name),
        }
    }
}

/// The typed contract of one task for a language model: an instruction, and the records
/// that go in and come out.
#[derive(Debug)]
pub struct Signature {
    instruction: String,
    input: Model,
    output: Model,
}

impl Signature {
    pub closed spec fn view(&self) -> SignatureView {
        SignatureView {
            instruction: self.instruction@,
            input: self.input@,
            output: self.output@,
        }
    }

    /// A signature without an instruction.
    pub fn new(input: Model, output: Model) -> (r: Signature)
        ensures
            r@ == (SignatureView { instruction: Seq::empty(), input: input@, output: output@ }),
    {
        Signature { instruction: String::new(), input, output }
    }

    /// The signature under the given instruction; under none where that is blank.
    pub fn with_instruction(self, instruction: Instruction) -> (r: Signature)
        ensures
            r@ == (SignatureView {
                instruction: match instruction@ {
                    Some(text) => text,
                    None => Seq::empty(),
                },
                ..self@
            }),
    {
        let text = match instruction.instruction {
            Some(text) => text,
            None => String::new(),
        };
        Signature { instruction: text, input: self.input, output: self.output }
    }

    /// The instruction.
    pub fn instruction(&self) -> (r: &str)
        ensures
            r@ == self@.instruction,
    {
        self.instruction.as_str()
    }

    /// The record that goes in.
    pub fn input(&self) -> (r: &Model)
        ensures
            r@ == self@.input,
    {
        &self.input
    }

    /// The record that comes out.
    pub fn output(&self) -> (r: &Model)
        ensures
            r@ == self@.output,
    {
        &self.output
    }

    /// The input fields, in the order of their declaration.
    pub fn input_fields(&self) -> (r: &[Field])
        ensures
            r@.len() == self@.input.fields.len(),
            forall|i: int|
                0 <= i < r@.len() ==> (#[trigger] r@[i])@ == self@.input.fields[i].field,
            forall|i: int, j: int| 0 <= i < j < r@.len() ==> r@[i].name@ != r@[j].name@,
    {
        self.input.fields()
    }

    /// The output fields, in the order of their declaration.
    pub fn output_fields(&self) -> (r: &[Field])
        ensures
            r@.len() == self@.output.fields.len(),
            forall|i: int|
                0 <= i < r@.len() ==> (#[trigger] r@[i])@ == self@.output.fields[i].field,
            forall|i: int, j: int| 0 <= i < j < r@.len() ==> r@[i].name@ != r@[j].name@,
    {
        self.output.fields()
    }

    /// The schema of the input record.
    pub fn input_schema(&self) -> (r: &schemars::Schema)
        ensures
            schema_json(*r) == self@.input.schema,
    {
        self.input.schema()
    }

    /// The schema of the output record.
    pub fn output_schema(&self) -> (r: &schemars::Schema)
        ensures
            schema_json(*r) == self@.output.schema,
    {
        self.output.schema()
    }

    /// The schema of the field of that name, an input field before an output field;
    /// `None` where the signature has no such field, or the field no schema.
    pub fn field(&self, name: &str) -> (r: Option<&schemars::Schema>)
        ensures
            match self@.field(name@) {
                Some(doc) => r is Some && schema_json(*r->0) == doc,
                None => r is None,
            },
    {
        match self.input.field(name) {
            Some(s) => Some(s),
            None => self.output.field(name),
        }
    }
}

} // verus!
