use crate::json::Json;
use crate::schema::{schema_json, schema_text, write_schema};
use crate::text::{join, joined, kept_lines, push_kept_lines, str_eq, trim, trim_str, views};
use crate::{Cause, CauseView, Error, ErrorView, Field, FieldView};
use vstd::prelude::*;

verus! {

/// The description of a record type, as its declaration gives it: the lines of the
/// string literals, each trimmed, blank lines left out, joined by line feeds.
#[derive(Debug)]
pub struct Args {
    args: Option<String>,
}

/// The lines of the string literals of a declaration, each without the white space around
/// it, blank lines left out.
pub open spec fn kept_literals(literals: Seq<&str>) -> Seq<Seq<char>>
    decreases literals.len(),
{
    if literals.len() == 0 {
        Seq::empty()
    } else {
        kept_literals(literals.drop_last()) + kept_lines(literals.last()@)
    }
}

/// The text that string literals stand for: their lines, trimmed and joined by `sep`;
/// `None` where every line is blank.
pub open spec fn literal_text(literals: Seq<&str>, sep: Seq<char>) -> Option<Seq<char>> {
    if kept_literals(literals).len() == 0 {
        None
    } else {
        Some(joined(kept_literals(literals), sep))
    }
}

/// The text that string literals stand for.
pub fn read_literals(literals: &[&str], sep: &str) -> (r: Option<String>)
    ensures
        match literal_text(literals@, sep@) {
            Some(text) => r is Some && r->0@ == text,
            None => r is None,
        },
{
    let mut lines: Vec<&str> = Vec::new();
    let mut i: usize = 0;
    assert(literals@.take(0) =~= Seq::empty());
    assert(views(lines@) =~= Seq::empty());
    while i < literals.len()
        invariant
            i <= literals@.len(),
            views(lines@) == kept_literals(literals@.take(i as int)),
        decreases literals@.len() - i,
    {
        push_kept_lines(&mut lines, literals[i]);
        proof {
            let head = literals@.take(i + 1);
            assert(head.drop_last() == literals@.take(i as int));
            assert(head.last() == literals@[i as int]);
        }
        i += 1;
    }
    assert(literals@.take(i as int) == literals@);
    if lines.len() == 0 {
        None
    } else {
        Some(join(&lines, sep))
    }
}

impl Args {
    /// The text that the arguments hold, `None` where every line was blank.
    pub closed spec fn view(&self) -> Option<Seq<char>> {
        match self.args {
            Some(s) => Some(s@),
            None => None,
        }
    }

    /// Reads the string literals of a declaration: their lines, trimmed and joined by
    /// line feeds.
    pub fn parse(literals: &[&str]) -> (r: Args)
        ensures
            r@ == literal_text(literals@, "\n"@),
    {
        Args { args: read_literals(literals, "\n") }
    }

    /// The text that the arguments hold.
    pub fn into_option(self) -> (r: Option<String>)
        ensures
            match self@ {
                Some(text) => r is Some && r->0@ == text,
                None => r is None,
            },
    {
        self.args
    }
}

/// A declared field together with the schema of its values.
pub struct TypedField {
    pub field: FieldView,
    pub schema: Option<Json>,
}

/// A record type as a mathematical value: its description, its fields in the order of
/// their declaration, and the schema of the record as a whole.
pub struct ModelView {
    pub description: Option<Seq<char>>,
    pub fields: Seq<TypedField>,
    pub schema: Json,
}

/// Whether one of `fields` goes by `name`.
pub open spec fn has_name(fields: Seq<TypedField>, name: Seq<char>) -> bool {
    exists|i: int| 0 <= i < fields.len() && (#[trigger] fields[i]).field.name == name
}

/// The schema of the first of `fields` that goes by `name`.
pub open spec fn field_schema(fields: Seq<TypedField>, name: Seq<char>) -> Option<Json>
    decreases fields.len(),
{
    if fields.len() == 0 {
        None
    } else if fields[0].field.name == name {
        fields[0].schema
    } else {
        field_schema(fields.skip(1), name)
    }
}

/// The schema that an optional schema stands for.
pub open spec fn optional_json(schema: Option<schemars::Schema>) -> Option<Json> {
    match schema {
        Some(s) => Some(schema_json(s)),
        None => None,
    }
}

/// What comes of declaring one more field of a record: the record with the field as its
/// last, unless the name is taken or serde_json writes no text for the schema.
pub open spec fn declared(
    model: ModelView,
    name: Seq<char>,
    description: Option<Seq<char>>,
    schema: Option<Json>,
) -> Result<ModelView, ErrorView> {
    let field = TypedField { field: FieldView { name, description }, schema };
    let grown = ModelView { fields: model.fields.push(field), ..model };
    if has_name(model.fields, name) {
        Err(ErrorView::Format(CauseView::Duplicate))
    } else {
        match schema {
            Some(doc) => match schema_text(doc) {
                Ok(_) => Ok(grown),
                Err(report) => Err(ErrorView::Format(CauseView::Json(report))),
            },
            None => Ok(grown),
        }
    }
}

/// The text that an optional description holds, without the white space around it.
pub open spec fn trimmed(description: Option<&str>) -> Option<Seq<char>> {
    match description {
        Some(d) => Some(trim(d@)),
        None => None,
    }
}

/// A record type: the description of an input or an output. Its fields keep the order
/// of their declaration, and no two of them share a name.
#[derive(Debug)]
pub struct Model {
    description: Option<String>,
    fields: Vec<Field>,
    types: Vec<Option<schemars::Schema>>,
    notes: Vec<Option<String>>,
    schema: schemars::Schema,
}

impl Model {
    #[verifier::type_invariant]
    spec fn inv(&self) -> bool {
        &&& self.fields@.len() == self.types@.len()
        &&& self.fields@.len() == self.notes@.len()
        &&& forall|i: int, j: int|
            0 <= i < j < self.fields@.len() ==> self.fields@[i].name@ != self.fields@[j].name@
        &&& forall|i: int|
            0 <= i < self.fields@.len() ==> match (#[trigger] self.types@[i], self.notes@[i]) {
                (Some(s), Some(note)) => schema_text(schema_json(s)) == Ok::<
                    Seq<char>,
                    Seq<char>,
                >(note@),
                (None, None) => true,
                _ => false,
            }
    }

    pub closed spec fn view(&self) -> ModelView {
        ModelView {
            description: match self.description {
                Some(d) => Some(d@),
                None => None,
            },
            fields: Seq::new(
                self.fields@.len(),
                |i: int|
                    TypedField { field: self.fields@[i]@, schema: optional_json(self.types@[i]) },
            ),
            schema: schema_json(self.schema),
        }
    }

    /// A record without fields and without a description, under the given schema.
    pub fn new(schema: schemars::Schema) -> (r: Model)
        ensures
            r@ == (ModelView {
                description: None,
                fields: Seq::empty(),
                schema: schema_json(schema),
            }),
    {
        let r = Model {
            description: None,
            fields: Vec::new(),
            types: Vec::new(),
            notes: Vec::new(),
            schema,
        };
        assert(r@.fields =~= Seq::empty());
        r
    }

    /// The record under the given description.
    pub fn with_args(self, description: Args) -> (r: Model)
        ensures
            r@ == (ModelView { description: description@, ..self@ }),
    {
        proof {
            use_type_invariant(&self);
        }
        let r = Model {
            description: description.into_option(),
            fields: self.fields,
            types: self.types,
            notes: self.notes,
            schema: self.schema,
        };
        assert(r@.fields =~= self@.fields);
        r
    }

    /// Whether the record has a field of that name.
    pub fn has_field(&self, name: &str) -> (r: bool)
        ensures
            r == has_name(self@.fields, name@),
    {
        let mut i: usize = 0;
        while i < self.fields.len()
            invariant
                i <= self.fields@.len(),
                self@.fields.len() == self.fields@.len(),
                forall|k: int| 0 <= k < i ==> (#[trigger] self@.fields[k]).field.name != name@,
            decreases self.fields@.len() - i,
        {
            if str_eq(self.fields[i].name, name) {
                assert(self@.fields[i as int].field.name == name@);
                return true;
            }
            i += 1;
        }
        false
    }

    /// The record with one more field, declared last. The description is kept without
    /// the white space around it. A name that is taken is turned down; so is, with the
    /// report of serde_json, a schema for which it writes no text.
    pub fn with_field(
        self,
        name: &'static str,
        description: Option<&'static str>,
        schema: Option<schemars::Schema>,
    ) -> (r: Result<Model, Error>)
        ensures
            match r {
                Ok(m) => declared(self@, name@, trimmed(description), optional_json(schema))
                    == Ok::<ModelView, ErrorView>(m@),
                Err(e) => declared(self@, name@, trimmed(description), optional_json(schema))
                    == Err::<ModelView, ErrorView>(e@),
            },
    {
        proof {
            use_type_invariant(&self);
        }
        if self.has_field(name) {
            return Err(Error::Format(Cause::Duplicate));
        }
        let note = match &schema {
            Some(s) => match write_schema(s) {
                Ok(text) => Some(text),
                Err(report) => {
                    return Err(Error::Format(Cause::Json(report)));
                },
            },
            None => None,
        };
        let field = Field {
            name,
            description: match description {
                Some(d) => Some(trim_str(d)),
                None => None,
            },
        };
        let ghost before = self@;
        let ghost old_fields = self.fields@;
        let mut fields = self.fields;
        let mut types = self.types;
        let mut notes = self.notes;
        fields.push(field);
        types.push(schema);
        notes.push(note);
        proof {
            assert forall|i: int, j: int| 0 <= i < j < fields@.len() implies fields@[i].name@
                != fields@[j].name@ by {
                if j == old_fields.len() {
                    assert(before.fields[i].field.name == old_fields[i].name@);
                }
            }
        }
        let r = Model { description: self.description, fields, types, notes, schema: self.schema };
        assert(r@.fields =~= before.fields.push(
            TypedField {
                field: FieldView { name: name@, description: trimmed(description) },
                schema: optional_json(schema),
            },
        ));
        Ok(r)
    }

    /// The fields of the record, in the order of their declaration. No two of them
    /// share a name.
    pub fn fields(&self) -> (r: &[Field])
        ensures
            r@.len() == self@.fields.len(),
            forall|i: int| 0 <= i < r@.len() ==> (#[trigger] r@[i])@ == self@.fields[i].field,
            forall|i: int, j: int| 0 <= i < j < r@.len() ==> r@[i].name@ != r@[j].name@,
    {
        proof {
            use_type_invariant(self);
        }
        self.fields.as_slice()
    }

    /// The schema of the record as a whole.
    pub fn schema(&self) -> (r: &schemars::Schema)
        ensures
            schema_json(*r) == self@.schema,
    {
        &self.schema
    }

    /// The description of the record, without the white space around it; empty where it
    /// has none.
    pub fn description(&self) -> (r: &str)
        ensures
            r@ == (match self@.description {
                Some(d) => trim(d),
                None => Seq::empty(),
            }),
    {
        match &self.description {
            Some(d) => trim_str(d.as_str()),
            None => {
                let r = "";
                proof {
                    reveal_strlit("");
                }
                assert(r@ =~= Seq::empty());
                r
            },
        }
    }

    /// The schema of the field of that name; `None` where the record has no such field,
    /// or the field no schema.
    pub fn field(&self, name: &str) -> (r: Option<&schemars::Schema>)
        ensures
            match field_schema(self@.fields, name@) {
                Some(doc) => r is Some && schema_json(*r->0) == doc,
                None => r is None,
            },
    {
        let mut i: usize = 0;
        proof {
            use_type_invariant(self);
            assert(self@.fields.skip(0) == self@.fields);
        }
        while i < self.fields.len()
            invariant
                i <= self.fields@.len(),
                self.fields@.len() == self.types@.len(),
                self@.fields.len() == self.fields@.len(),
                field_schema(self@.fields, name@) == field_schema(
                    self@.fields.skip(i as int),
                    name@,
                ),
            decreases self.fields@.len() - i,
        {
            let ghost rest = self@.fields.skip(i as int);
            assert(rest[0] == self@.fields[i as int]);
            assert(rest.skip(1) == self@.fields.skip(i + 1));
            if str_eq(self.fields[i].name, name) {
                return match &self.types[i] {
                    Some(s) => Some(s),
                    None => None,
                };
            }
            i += 1;
        }
        None
    }

    /// The schema of the field at `index`, and the JSON text of that schema.
    pub(crate) fn field_type(&self, index: usize) -> (r: Option<(&schemars::Schema, &str)>)
        requires
            index < self@.fields.len(),
        ensures
            match self@.fields[index as int].schema {
                Some(doc) => r matches Some(pair) && schema_json(*pair.0) == doc && schema_text(
                    doc,
                ) == Ok::<Seq<char>, Seq<char>>(pair.1@),
                None => r is None,
            },
    {
        proof {
            use_type_invariant(self);
        }
        match (&self.types[index], &self.notes[index]) {
            (Some(s), Some(note)) => Some((s, note.as_str())),
            _ => None,
        }
    }
}

} // verus!
