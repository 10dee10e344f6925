use crate::adapter::Adapter;
use crate::adapter::reasoning::{
    lemma_strip_without_tags, reasoning_close, reasoning_open, strip_reasoning,
    strip_reasoning_span,
};
use crate::image::{split_content, split_parts};
use crate::json::{
    json_of, json_text, lemma_member_decreases, map_entries, parse_value, parsed_json, value_get,
    value_text, Json,
};
use crate::lm::{turns_of, Message, Turn};
use crate::model::{Model, TypedField};
use crate::schema::{check_against, passes, schema_json, schema_text};
use crate::signature::{Signature, SignatureView};
use crate::text::{
    contains, decimal, last_segment, last_segment_start, push_decimal, str_eq, to_chars, trim,
    trim_str,
};
use crate::{Cause, CauseView, Error, ErrorView, Field};
use vstd::prelude::*;

verus! {

/// Whether `kw` is one of the type keywords that stand for themselves in a prompt.
pub open spec fn is_scalar_keyword(kw: Seq<char>) -> bool {
    kw == "null"@ || kw == "boolean"@ || kw == "string"@ || kw == "integer"@ || kw == "number"@
}

/// How a schema reads in a prompt. A scalar type keyword stands for itself; an array is
/// `list[..]` around its element type; an object is `{..}` around its properties, each as
/// `name: type`, with commas between; a bare reference is the last segment of its target;
/// anything else is empty.
pub open spec fn type_descriptor(schema: Json) -> Seq<char>
    decreases schema, 1nat,
    via type_descriptor_decreases
{
    match schema.member("type"@) {
        Some(Json::String(kw)) => {
            if is_scalar_keyword(kw) {
                kw
            } else if kw == "array"@ {
                "list["@ + element_descriptor(schema) + "]"@
            } else if kw == "object"@ {
                "{"@ + (match schema.member("properties"@) {
                    Some(Json::Object(props)) => properties_descriptor(props),
                    _ => Seq::empty(),
                }) + "}"@
            } else {
                Seq::empty()
            }
        },
        Some(_) => Seq::empty(),
        None => match schema.member("$ref"@) {
            Some(Json::String(target)) => last_segment(target, '/'),
            _ => Seq::empty(),
        },
    }
}

/// The descriptor of an array schema's elements: that of its `items`, empty without them.
pub open spec fn element_descriptor(schema: Json) -> Seq<char>
    decreases schema, 0nat,
    via element_descriptor_decreases
{
    match schema.member("items"@) {
        Some(items) => type_descriptor(items),
        None => Seq::empty(),
    }
}

/// The properties of an object schema, each as `name: type`, with commas between.
pub open spec fn properties_descriptor(props: Seq<(Seq<char>, Json)>) -> Seq<char>
    decreases props, 0nat,
{
    if props.len() == 0 {
        Seq::empty()
    } else {
        properties_descriptor(props.drop_last()) + property_descriptor(
            props.len() - 1,
            props.last(),
        )
    }
}

/// One property of an object schema, after a comma unless it is the first.
pub open spec fn property_descriptor(index: int, prop: (Seq<char>, Json)) -> Seq<char>
    decreases prop, 0nat,
{
    (if index > 0 {
        ","@
    } else {
        Seq::empty()
    }) + prop.0 + ": "@ + type_descriptor(prop.1)
}

#[via_fn]
proof fn type_descriptor_decreases(schema: Json) {
    lemma_member_decreases(schema, "properties"@);
}

#[via_fn]
proof fn element_descriptor_decreases(schema: Json) {
    lemma_member_decreases(schema, "items"@);
}

/// Whether `kw` is one of the type keywords that stand for themselves in a prompt.
fn scalar_keyword(kw: &str) -> (r: bool)
    ensures
        r == is_scalar_keyword(kw@),
{
    str_eq(kw, "null") || str_eq(kw, "boolean") || str_eq(kw, "string") || str_eq(kw, "integer")
        || str_eq(kw, "number")
}

/// Appends to `buf` the last segment of a reference's target.
fn push_reference_name(target: &str, buf: &mut String)
    ensures
        final(buf)@ == old(buf)@ + last_segment(target@, '/'),
{
    let chars = to_chars(target);
    let start = last_segment_start(&chars, '/');
    assert(target@.skip(start as int) == target@.subrange(start as int, target@.len() as int));
    buf.append(target.substring_char(start, chars.len()));
}

/// Appends to `buf` the properties of an object schema, each as `name: type`.
fn push_properties(props: &serde_json::Value, buf: &mut String)
    requires
        json_of(*props) is Object,
    ensures
        final(buf)@ == old(buf)@ + properties_descriptor(json_of(*props)->Object_0),
    decreases json_of(*props), 0nat,
{
    let ghost all = json_of(*props)->Object_0;
    match props.as_object() {
        Some(map) => {
            let entries = map_entries(map);
            let mut i: usize = 0;
            assert(all.take(0) =~= Seq::empty());
            while i < entries.len()
                invariant
                    i <= entries@.len(),
                    json_of(*props) == Json::Object(all),
                    entries@.len() == all.len(),
                    forall|k: int|
                        0 <= k < entries@.len() ==> (#[trigger] entries@[k]).0@ == all[k].0
                            && json_of(*entries@[k].1) == all[k].1,
                    buf@ == old(buf)@ + properties_descriptor(all.take(i as int)),
                decreases entries@.len() - i,
            {
                let ghost before = buf@;
                if i > 0 {
                    buf.append(",");
                }
                let (name, ty) = entries[i];
                buf.append(name.as_str());
                buf.append(": ");
                assert(decreases_to!(json_of(*props) => json_of(*props)->Object_0));
                assert(decreases_to!(all => all[i as int]));
                assert(decreases_to!(all[i as int] => all[i as int].1));
                fmt_type(ty, buf);
                proof {
                    let head = all.take(i + 1);
                    assert(head.drop_last() == all.take(i as int));
                    assert(head.last() == all[i as int]);
                    assert(buf@ =~= before + property_descriptor(i as int, all[i as int]));
                    assert(buf@ =~= old(buf)@ + properties_descriptor(head));
                }
                i += 1;
            }
            assert(all.take(i as int) == all);
        },
        None => {},
    }
}

/// Appends to `buf` how the schema `ty` reads in a prompt.
pub fn fmt_type(ty: &serde_json::Value, buf: &mut String)
    ensures
        final(buf)@ == old(buf)@ + type_descriptor(json_of(*ty)),
    decreases json_of(*ty), 1nat,
{
    let ghost schema = json_of(*ty);
    match value_get(ty, "type") {
        Some(vty) => match vty.as_str() {
            Some(kw) => {
                if scalar_keyword(kw) {
                    buf.append(kw);
                } else if str_eq(kw, "array") {
                    buf.append("list[");
                    match value_get(ty, "items") {
                        Some(items) => {
                            proof {
                                lemma_member_decreases(schema, "items"@);
                            }
                            fmt_type(items, buf);
                        },
                        None => {},
                    }
                    buf.append("]");
                    assert(final(buf)@ =~= old(buf)@ + type_descriptor(schema));
                } else if str_eq(kw, "object") {
                    buf.append("{");
                    match value_get(ty, "properties") {
                        Some(props) => {
                            if props.as_object().is_some() {
                                proof {
                                    lemma_member_decreases(schema, "properties"@);
                                }
                                push_properties(props, buf);
                            }
                        },
                        None => {},
                    }
                    buf.append("}");
                    assert(final(buf)@ =~= old(buf)@ + type_descriptor(schema));
                } else {
                    assert(final(buf)@ =~= old(buf)@ + type_descriptor(schema));
                }
            },
            None => {
                assert(final(buf)@ =~= old(buf)@ + type_descriptor(schema));
            },
        },
        None => match value_get(ty, "$ref") {
            Some(target) => match target.as_str() {
                Some(name) => {
                    push_reference_name(name, buf);
                },
                None => {
                    assert(final(buf)@ =~= old(buf)@ + type_descriptor(schema));
                },
            },
            None => {
                assert(final(buf)@ =~= old(buf)@ + type_descriptor(schema));
            },
        },
    }
}

/// How the type of a field reads in a prompt; empty for a field without a schema.
pub open spec fn field_type_text(f: TypedField) -> Seq<char> {
    match f.schema {
        Some(doc) => type_descriptor(doc),
        None => Seq::empty(),
    }
}

/// The line that lists the field at `index`: its number, counted from one, its name, its
/// type and its description.
pub open spec fn field_line(index: int, f: TypedField) -> Seq<char> {
    decimal((index + 1) as nat) + ". `"@ + f.field.name + "` ("@ + field_type_text(f) + "): "@
        + (match f.field.description {
        Some(d) => d,
        None => Seq::empty(),
    }) + "\n"@
}

/// The lines that list the fields, in the order of their declaration.
pub open spec fn field_lines(fields: Seq<TypedField>) -> Seq<char>
    decreases fields.len(),
{
    if fields.len() == 0 {
        Seq::empty()
    } else {
        field_lines(fields.drop_last()) + field_line(fields.len() - 1, fields.last())
    }
}

/// The place of one input field in the skeleton of an input: its header, then its
/// placeholder.
pub open spec fn input_slot(f: TypedField) -> Seq<char> {
    "\n[[ ## "@ + f.field.name + " ## ]]\n{"@ + f.field.name + "}\n"@
}

/// The skeleton of an input.
pub open spec fn input_slots(fields: Seq<TypedField>) -> Seq<char>
    decreases fields.len(),
{
    if fields.len() == 0 {
        Seq::empty()
    } else {
        input_slots(fields.drop_last()) + input_slot(fields.last())
    }
}

/// What the skeleton of an output says of a field's schema; nothing for a field without
/// one.
pub open spec fn schema_note(f: TypedField) -> Seq<char> {
    match f.schema {
        Some(doc) => match schema_text(doc) {
            Ok(text) => " # note: value must adhere to JSON schema: "@ + text,
            Err(_) => Seq::empty(),
        },
        None => Seq::empty(),
    }
}

/// The place of the output field at `index` in the skeleton of an output: a key with a
/// placeholder string, after a comma unless it is the first.
pub open spec fn output_slot(index: int, f: TypedField) -> Seq<char> {
    (if index > 0 {
        ",\n"@
    } else {
        Seq::empty()
    }) + "\t\""@ + f.field.name + "\": \"{"@ + f.field.name + "}"@ + schema_note(f) + "\""@
}

/// The members of the skeleton of an output.
pub open spec fn output_slots(fields: Seq<TypedField>) -> Seq<char>
    decreases fields.len(),
{
    if fields.len() == 0 {
        Seq::empty()
    } else {
        output_slots(fields.drop_last()) + output_slot(fields.len() - 1, fields.last())
    }
}

/// The name of the field at `index` between backticks, after a comma unless it is the
/// first.
pub open spec fn listed_name(index: int, f: TypedField) -> Seq<char> {
    (if index > 0 {
        ", "@
    } else {
        Seq::empty()
    }) + "`"@ + f.field.name + "`"@
}

/// The names of the fields, each between backticks, with commas between.
pub open spec fn listed_names(fields: Seq<TypedField>) -> Seq<char>
    decreases fields.len(),
{
    if fields.len() == 0 {
        Seq::empty()
    } else {
        listed_names(fields.drop_last()) + listed_name(fields.len() - 1, fields.last())
    }
}

/// The objective that a prompt states: the instruction without the white space around
/// it, or, for a signature without instruction, a sentence that names its fields.
pub open spec fn objective(sig: SignatureView) -> Seq<char> {
    if sig.instruction.len() == 0 {
        "Given the fields "@ + listed_names(sig.input.fields) + ", produce the fields "@
            + listed_names(sig.output.fields) + "."@
    } else {
        trim(sig.instruction)
    }
}

/// The text of the system message of a signature.
pub open spec fn system_text(sig: SignatureView) -> Seq<char> {
    "Your input fields are:\n"@ + field_lines(sig.input.fields) + "\nYour output fields are:\n"@
        + field_lines(sig.output.fields)
        + "All interactions will be structured in the following way, with the appropriate values filled in.\n"@
        + "\nInputs will have the following structure:\n"@ + input_slots(sig.input.fields)
        + "\nOutputs will be a JSON object with the following fields.\n"@ + "{\n"@ + output_slots(
        sig.output.fields,
    ) + "\n}"@ + "\nIn adhering to this structure, your objective is:\n"@ + objective(sig)
}

/// The place of the input field at `index` in the text of a user message: its header
/// and, where the input holds a value under its name, that value as JSON text on the next
/// line; after a blank line unless it is the first.
pub open spec fn input_entry(index: int, f: TypedField, input: Json) -> Seq<char> {
    (if index > 0 {
        "\n\n"@
    } else {
        Seq::empty()
    }) + "[[ ## "@ + f.field.name + " ## ]]"@ + (match input.member(f.field.name) {
        Some(value) => "\n"@ + json_text(value),
        None => Seq::empty(),
    })
}

/// The entries of the fields, in the order of their declaration.
pub open spec fn input_entries(fields: Seq<TypedField>, input: Json) -> Seq<char>
    decreases fields.len(),
{
    if fields.len() == 0 {
        Seq::empty()
    } else {
        input_entries(fields.drop_last(), input) + input_entry(
            fields.len() - 1,
            fields.last(),
            input,
        )
    }
}

/// The text block of the user message that carries `input`.
pub open spec fn user_text(sig: SignatureView, input: Json) -> Seq<char> {
    input_entries(sig.input.fields, input)
}

/// The messages that carry `input` to a language model, the system message first; an
/// input that is no JSON object is turned down.
pub open spec fn formatted(sig: SignatureView, input: Json) -> Result<Seq<Turn>, ErrorView> {
    if input is Object {
        Ok(seq![Turn::System(system_text(sig)), Turn::User(split_parts(user_text(sig, input)))])
    } else {
        Err(ErrorView::Format(CauseView::Shape))
    }
}

/// Whether `r` is the result that `expected` describes.
pub open spec fn yields(
    r: Result<serde_json::Value, Error>,
    expected: Result<Json, ErrorView>,
) -> bool {
    match r {
        Ok(value) => expected == Ok::<Json, ErrorView>(json_of(value)),
        Err(e) => expected == Err::<Json, ErrorView>(e@),
    }
}

/// What a document that was read from a reply is worth as an output: itself where it
/// breaks none of the keywords of the output schema that are held here.
pub open spec fn checked(sig: SignatureView, doc: Json) -> Result<Json, ErrorView> {
    if passes(sig.output.schema, doc) {
        Ok(doc)
    } else {
        Err(ErrorView::Decode(CauseView::Shape))
    }
}

/// The output that a reply decodes to: the document that serde_json reads from the reply
/// without its span of reasoning, where it reads one and that breaks none of the held
/// keywords of the output schema.
pub open spec fn decoded(sig: SignatureView, reply: Seq<char>) -> Result<Json, ErrorView> {
    match parsed_json(strip_reasoning(reply)) {
        Ok(doc) => checked(sig, doc),
        Err(report) => Err(ErrorView::Decode(CauseView::Json(report))),
    }
}

/// An output comes back from its own JSON text: where a document passes the output
/// schema, its text holds no span of reasoning to strip, and serde_json reads from the
/// text the document that it wrote, the text decodes to the document.
pub proof fn lemma_decode_round_trip(sig: SignatureView, doc: Json)
    requires
        passes(sig.output.schema, doc),
        strip_reasoning(json_text(doc)) == json_text(doc),
        parsed_json(json_text(doc)) == Ok::<Json, Seq<char>>(doc),
    ensures
        decoded(sig, json_text(doc)) == Ok::<Json, ErrorView>(doc),
{
}

/// A text that lacks the opening tag or the closing tag of a span of reasoning decodes
/// to what serde_json reads from it, where that passes the output schema.
pub proof fn lemma_decode_without_tags(sig: SignatureView, reply: Seq<char>)
    requires
        !contains(reply, reasoning_open()) || !contains(reply, reasoning_close()),
    ensures
        decoded(sig, reply) == match parsed_json(reply) {
            Ok(doc) => checked(sig, doc),
            Err(report) => Err(ErrorView::Decode(CauseView::Json(report))),
        },
{
    lemma_strip_without_tags(reply);
}

/// The listing of the first `count` fields opens the listing of them all.
pub proof fn lemma_field_lines_prefix(fields: Seq<TypedField>, count: int)
    requires
        0 <= count <= fields.len(),
    ensures
        field_lines(fields.take(count)).is_prefix_of(field_lines(fields)),
    decreases fields.len() - count,
{
    if count == fields.len() {
        assert(fields.take(count) == fields);
    } else {
        lemma_field_lines_prefix(fields, count + 1);
        let next = fields.take(count + 1);
        assert(next.drop_last() == fields.take(count));
        assert(field_lines(fields.take(count)).is_prefix_of(field_lines(next)));
    }
}

/// Where the line of the field at `index` starts in the listing of `fields`: behind the
/// lines of the fields declared before it.
pub open spec fn field_line_start(fields: Seq<TypedField>, index: int) -> int {
    field_lines(fields.take(index)).len() as int
}

/// The lines that list fields come in the order of declaration and count from one: the
/// line of the field at `index` carries the number `index + 1`, stands behind the lines
/// of the fields declared before it, and ends before the line of any field declared
/// after it starts.
pub proof fn lemma_field_lines_in_order(fields: Seq<TypedField>, index: int, later: int)
    requires
        0 <= index < later <= fields.len(),
    ensures
        field_lines(fields).subrange(
            field_line_start(fields, index),
            field_line_start(fields, index) + field_line(index, fields[index]).len(),
        ) == field_line(index, fields[index]),
        field_line_start(fields, index) + field_line(index, fields[index]).len()
            <= field_line_start(fields, later) <= field_lines(fields).len(),
{
    let head = fields.take(index + 1);
    assert(head.drop_last() == fields.take(index));
    assert(head.last() == fields[index]);
    lemma_field_lines_prefix(fields, index + 1);
    lemma_field_lines_prefix(fields, later);
    assert(fields.take(later).take(index + 1) == head);
    lemma_field_lines_prefix(fields.take(later), index + 1);
    let line = field_line(index, fields[index]);
    let start = field_line_start(fields, index);
    assert(field_lines(fields).subrange(0, start + line.len()) == field_lines(head));
    assert(field_lines(fields).subrange(start, start + line.len()) =~= field_lines(head).subrange(
        start,
        start + line.len(),
    ));
    assert(field_lines(head).subrange(start, start + line.len()) =~= line);
}

/// The entries of the first `count` fields open the entries of them all.
pub proof fn lemma_input_entries_prefix(fields: Seq<TypedField>, input: Json, count: int)
    requires
        0 <= count <= fields.len(),
    ensures
        input_entries(fields.take(count), input).is_prefix_of(input_entries(fields, input)),
    decreases fields.len() - count,
{
    if count == fields.len() {
        assert(fields.take(count) == fields);
    } else {
        lemma_input_entries_prefix(fields, input, count + 1);
        let next = fields.take(count + 1);
        assert(next.drop_last() == fields.take(count));
        assert(input_entries(fields.take(count), input).is_prefix_of(input_entries(next, input)));
    }
}

/// Where the entry of the field at `index` starts in the text of a user message: behind
/// the entries of the fields declared before it.
pub open spec fn input_entry_start(fields: Seq<TypedField>, input: Json, index: int) -> int {
    input_entries(fields.take(index), input).len() as int
}

/// The entries of a user message come in the order of declaration: the entry of the
/// field at `index` stands behind the entries of the fields declared before it, and ends
/// before the entry of any field declared after it starts.
pub proof fn lemma_input_entries_in_order(
    fields: Seq<TypedField>,
    input: Json,
    index: int,
    later: int,
)
    requires
        0 <= index < later <= fields.len(),
    ensures
        input_entries(fields, input).subrange(
            input_entry_start(fields, input, index),
            input_entry_start(fields, input, index) + input_entry(
                index,
                fields[index],
                input,
            ).len(),
        ) == input_entry(index, fields[index], input),
        input_entry_start(fields, input, index) + input_entry(index, fields[index], input).len()
            <= input_entry_start(fields, input, later) <= input_entries(fields, input).len(),
{
    let head = fields.take(index + 1);
    assert(head.drop_last() == fields.take(index));
    assert(head.last() == fields[index]);
    lemma_input_entries_prefix(fields, input, index + 1);
    lemma_input_entries_prefix(fields, input, later);
    assert(fields.take(later).take(index + 1) == head);
    lemma_input_entries_prefix(fields.take(later), input, index + 1);
    let entry = input_entry(index, fields[index], input);
    let start = input_entry_start(fields, input, index);
    let all = input_entries(fields, input);
    assert(all.subrange(0, start + entry.len()) == input_entries(head, input));
    assert(all.subrange(start, start + entry.len()) =~= input_entries(head, input).subrange(
        start,
        start + entry.len(),
    ));
    assert(input_entries(head, input).subrange(start, start + entry.len()) =~= entry);
}

/// Where the listing of the input fields starts in a system message.
pub open spec fn input_listing_start() -> int {
    "Your input fields are:\n"@.len() as int
}

/// Where the listing of the output fields starts in the system message of `sig`.
pub open spec fn output_listing_start(sig: SignatureView) -> int {
    input_listing_start() + field_lines(sig.input.fields).len() + "\nYour output fields are:\n"@.len()
}

/// A system message lists the input fields under its first heading and the output fields
/// under its second, each listing with the lines of its fields and no others.
pub proof fn lemma_system_text_lists_fields(sig: SignatureView)
    ensures
        system_text(sig).subrange(
            input_listing_start(),
            input_listing_start() + field_lines(sig.input.fields).len(),
        ) == field_lines(sig.input.fields),
        system_text(sig).subrange(
            output_listing_start(sig),
            output_listing_start(sig) + field_lines(sig.output.fields).len(),
        ) == field_lines(sig.output.fields),
{
    let a = "Your input fields are:\n"@;
    let b = field_lines(sig.input.fields);
    let c = "\nYour output fields are:\n"@;
    let d = field_lines(sig.output.fields);
    let rest =
        "All interactions will be structured in the following way, with the appropriate values filled in.\n"@
        + "\nInputs will have the following structure:\n"@ + input_slots(sig.input.fields)
        + "\nOutputs will be a JSON object with the following fields.\n"@ + "{\n"@ + output_slots(
        sig.output.fields,
    ) + "\n}"@ + "\nIn adhering to this structure, your objective is:\n"@ + objective(sig);
    let whole = a + b + c + d + rest;
    let first = input_listing_start();
    let second = output_listing_start(sig);
    assert(system_text(sig) =~= whole);
    assert(whole.subrange(first, first + b.len()) =~= b);
    assert(whole.subrange(second, second + d.len()) =~= d);
}

/// The line that lists the field of `model` at `index`.
fn write_field_line(model: &Model, index: usize) -> (line: String)
    requires
        index < model@.fields.len(),
    ensures
        line@ == field_line(index as int, model@.fields[index as int]),
{
    let fields = model.fields();
    let f: &Field = &fields[index];
    let ghost spec = model@.fields[index as int];
    assert(f@ == spec.field);
    let mut line = String::new();
    push_decimal(&mut line, index + 1);
    assert(line@ =~= decimal((index + 1) as nat));
    line.append(". `");
    line.append(f.name);
    line.append("` (");
    let ghost before = line@;
    match model.field_type(index) {
        Some((schema, _)) => {
            fmt_type(schema.as_value(), &mut line);
        },
        None => {
            assert(before + Seq::<char>::empty() =~= before);
        },
    }
    assert(line@ == before + field_type_text(spec));
    line.append("): ");
    let ghost before = line@;
    match f.description {
        Some(d) => {
            line.append(d);
        },
        None => {
            assert(before + Seq::<char>::empty() =~= before);
        },
    }
    line.append("\n");
    line
}

/// Appends to `buf` the lines that list the fields of `model`.
fn push_field_lines(model: &Model, buf: &mut String)
    ensures
        final(buf)@ == old(buf)@ + field_lines(model@.fields),
{
    let n = model.fields().len();
    let ghost all = model@.fields;
    let mut i: usize = 0;
    assert(all.take(0) =~= Seq::empty());
    assert(buf@ =~= old(buf)@ + field_lines(all.take(0)));
    while i < n
        invariant
            i <= n,
            n == all.len(),
            all == model@.fields,
            buf@ == old(buf)@ + field_lines(all.take(i as int)),
        decreases n - i,
    {
        let line = write_field_line(model, i);
        buf.append(line.as_str());
        proof {
            let head = all.take(i + 1);
            assert(head.drop_last() == all.take(i as int));
            assert(head.last() == all[i as int]);
            assert(buf@ =~= old(buf)@ + field_lines(head));
        }
        i += 1;
    }
    assert(all.take(i as int) == all);
}

/// The place of the field of `model` at `index` in the skeleton of an input.
fn write_input_slot(model: &Model, index: usize) -> (slot: String)
    requires
        index < model@.fields.len(),
    ensures
        slot@ == input_slot(model@.fields[index as int]),
{
    let fields = model.fields();
    let f: &Field = &fields[index];
    assert(f@ == model@.fields[index as int].field);
    let mut slot = String::new();
    slot.append("\n[[ ## ");
    assert(slot@ =~= "\n[[ ## "@);
    slot.append(f.name);
    slot.append(" ## ]]\n{");
    slot.append(f.name);
    slot.append("}\n");
    slot
}

/// Appends to `buf` the skeleton of an input of `model`.
fn push_input_slots(model: &Model, buf: &mut String)
    ensures
        final(buf)@ == old(buf)@ + input_slots(model@.fields),
{
    let n = model.fields().len();
    let ghost all = model@.fields;
    let mut i: usize = 0;
    assert(all.take(0) =~= Seq::empty());
    assert(buf@ =~= old(buf)@ + input_slots(all.take(0)));
    while i < n
        invariant
            i <= n,
            n == all.len(),
            all == model@.fields,
            buf@ == old(buf)@ + input_slots(all.take(i as int)),
        decreases n - i,
    {
        let slot = write_input_slot(model, i);
        buf.append(slot.as_str());
        proof {
            let head = all.take(i + 1);
            assert(head.drop_last() == all.take(i as int));
            assert(head.last() == all[i as int]);
            assert(buf@ =~= old(buf)@ + input_slots(head));
        }
        i += 1;
    }
    assert(all.take(i as int) == all);
}

/// The place of the field of `model` at `index` in the skeleton of an output.
fn write_output_slot(model: &Model, index: usize) -> (slot: String)
    requires
        index < model@.fields.len(),
    ensures
        slot@ == output_slot(index as int, model@.fields[index as int]),
{
    let fields = model.fields();
    let f: &Field = &fields[index];
    let ghost spec = model@.fields[index as int];
    assert(f@ == spec.field);
    let mut slot = String::new();
    if index > 0 {
        slot.append(",\n");
        assert(slot@ =~= ",\n"@);
    }
    slot.append("\t\"");
    slot.append(f.name);
    slot.append("\": \"{");
    slot.append(f.name);
    slot.append("}");
    let ghost before = slot@;
    match model.field_type(index) {
        Some((_, note)) => {
            slot.append(" # note: value must adhere to JSON schema: ");
            slot.append(note);
            assert(slot@ =~= before + schema_note(spec));
        },
        None => {
            assert(before + Seq::<char>::empty() =~= before);
        },
    }
    slot.append("\"");
    slot
}

/// Appends to `buf` the members of the skeleton of an output of `model`.
fn push_output_slots(model: &Model, buf: &mut String)
    ensures
        final(buf)@ == old(buf)@ + output_slots(model@.fields),
{
    let n = model.fields().len();
    let ghost all = model@.fields;
    let mut i: usize = 0;
    assert(all.take(0) =~= Seq::empty());
    assert(buf@ =~= old(buf)@ + output_slots(all.take(0)));
    while i < n
        invariant
            i <= n,
            n == all.len(),
            all == model@.fields,
            buf@ == old(buf)@ + output_slots(all.take(i as int)),
        decreases n - i,
    {
        let slot = write_output_slot(model, i);
        buf.append(slot.as_str());
        proof {
            let head = all.take(i + 1);
            assert(head.drop_last() == all.take(i as int));
            assert(head.last() == all[i as int]);
            assert(buf@ =~= old(buf)@ + output_slots(head));
        }
        i += 1;
    }
    assert(all.take(i as int) == all);
}

/// The name of the field of `model` at `index`, as it stands in a list of names.
fn write_listed_name(model: &Model, index: usize) -> (name: String)
    requires
        index < model@.fields.len(),
    ensures
        name@ == listed_name(index as int, model@.fields[index as int]),
{
    let fields = model.fields();
    let f: &Field = &fields[index];
    assert(f@ == model@.fields[index as int].field);
    let mut name = String::new();
    if index > 0 {
        name.append(", ");
        assert(name@ =~= ", "@);
    }
    name.append("`");
    name.append(f.name);
    name.append("`");
    name
}

/// Appends to `buf` the names of the fields of `model`.
fn push_listed_names(model: &Model, buf: &mut String)
    ensures
        final(buf)@ == old(buf)@ + listed_names(model@.fields),
{
    let n = model.fields().len();
    let ghost all = model@.fields;
    let mut i: usize = 0;
    assert(all.take(0) =~= Seq::empty());
    assert(buf@ =~= old(buf)@ + listed_names(all.take(0)));
    while i < n
        invariant
            i <= n,
            n == all.len(),
            all == model@.fields,
            buf@ == old(buf)@ + listed_names(all.take(i as int)),
        decreases n - i,
    {
        let name = write_listed_name(model, i);
        buf.append(name.as_str());
        proof {
            let head = all.take(i + 1);
            assert(head.drop_last() == all.take(i as int));
            assert(head.last() == all[i as int]);
            assert(buf@ =~= old(buf)@ + listed_names(head));
        }
        i += 1;
    }
    assert(all.take(i as int) == all);
}

/// The place of the field of `model` at `index` in the text of a user message that
/// carries `input`.
fn write_input_entry(model: &Model, index: usize, input: &serde_json::Value) -> (entry: String)
    requires
        index < model@.fields.len(),
    ensures
        entry@ == input_entry(index as int, model@.fields[index as int], json_of(*input)),
{
    let fields = model.fields();
    let f: &Field = &fields[index];
    assert(f@ == model@.fields[index as int].field);
    let mut entry = String::new();
    if index > 0 {
        entry.append("\n\n");
        assert(entry@ =~= "\n\n"@);
    }
    entry.append("[[ ## ");
    entry.append(f.name);
    entry.append(" ## ]]");
    let ghost before = entry@;
    match value_get(input, f.name) {
        Some(value) => {
            entry.append("\n");
            let text = value_text(value);
            entry.append(text.as_str());
            assert(entry@ =~= before + ("\n"@ + json_text(json_of(*value))));
        },
        None => {
            assert(before + Seq::<char>::empty() =~= before);
        },
    }
    entry
}

/// The text block of the user message that carries `input` to a model of `model`.
fn input_text(model: &Model, input: &serde_json::Value) -> (r: String)
    ensures
        r@ == input_entries(model@.fields, json_of(*input)),
{
    let n = model.fields().len();
    let ghost all = model@.fields;
    let mut buf = String::new();
    let mut i: usize = 0;
    assert(all.take(0) =~= Seq::empty());
    while i < n
        invariant
            i <= n,
            n == all.len(),
            all == model@.fields,
            buf@ == input_entries(all.take(i as int), json_of(*input)),
        decreases n - i,
    {
        let entry = write_input_entry(model, i, input);
        buf.append(entry.as_str());
        proof {
            let head = all.take(i + 1);
            assert(head.drop_last() == all.take(i as int));
            assert(head.last() == all[i as int]);
        }
        i += 1;
    }
    assert(all.take(i as int) == all);
    buf
}

/// Turns the values of a signature into the messages for a language model, and the
/// model's reply into the output, by way of JSON.
pub struct JsonAdapter {
    signature: Signature,
}

impl JsonAdapter {
    /// The signature that the adapter is bound to.
    pub closed spec fn view(&self) -> SignatureView {
        self.signature@
    }

    /// An adapter bound to `signature`.
    pub fn new(signature: Signature) -> (r: JsonAdapter)
        ensures
            r@ == signature@,
    {
        JsonAdapter { signature }
    }

    /// The signature that the adapter is bound to.
    pub fn signature(&self) -> (r: &Signature)
        ensures
            r@ == self@,
    {
        &self.signature
    }

    /// The objective that the system message states.
    fn write_objective(&self) -> (r: String)
        ensures
            r@ == objective(self@),
    {
        let sig = &self.signature;
        if sig.instruction().unicode_len() == 0 {
            let mut buf = String::new();
            buf.append("Given the fields ");
            assert(buf@ =~= "Given the fields "@);
            push_listed_names(sig.input(), &mut buf);
            buf.append(", produce the fields ");
            push_listed_names(sig.output(), &mut buf);
            buf.append(".");
            buf
        } else {
            trim_str(sig.instruction()).to_owned()
        }
    }

    /// The system message: the fields that go in and come out, the structure of an
    /// exchange, and the objective.
    pub fn format_system_message(&self) -> (r: Message)
        ensures
            r@ == Turn::System(system_text(self@)),
    {
        let sig = &self.signature;
        let mut buf = String::new();
        buf.append("Your input fields are:\n");
        assert(buf@ =~= "Your input fields are:\n"@);
        push_field_lines(sig.input(), &mut buf);
        buf.append("\nYour output fields are:\n");
        push_field_lines(sig.output(), &mut buf);
        buf.append(
            "All interactions will be structured in the following way, with the appropriate values filled in.\n",
        );
        buf.append("\nInputs will have the following structure:\n");
        push_input_slots(sig.input(), &mut buf);
        buf.append("\nOutputs will be a JSON object with the following fields.\n");
        buf.append("{\n");
        push_output_slots(sig.output(), &mut buf);
        buf.append("\n}");
        buf.append("\nIn adhering to this structure, your objective is:\n");
        let objective = self.write_objective();
        buf.append(objective.as_str());
        Message::System { instruction: buf }
    }

    /// The user message that carries `input`: a header for each input field, with the
    /// value that the input holds under the field's name, cut into text and images. An
    /// input that is no JSON object is turned down.
    pub fn format_input(&self, input: &serde_json::Value) -> (r: Result<Message, Error>)
        ensures
            match r {
                Ok(message) => json_of(*input) is Object && message@ == Turn::User(
                    split_parts(user_text(self@, json_of(*input))),
                ),
                Err(e) => !(json_of(*input) is Object) && e@ == ErrorView::Format(
                    CauseView::Shape,
                ),
            },
    {
        if input.as_object().is_none() {
            return Err(Error::Format(Cause::Shape));
        }
        let text = input_text(self.signature.input(), input);
        let content = split_content(text.as_str());
        Ok(Message::User { content })
    }

    /// The output that a decoded reply is worth: the document itself where it breaks none
    /// of the keywords of the output schema that are held here; the report of the decoder
    /// where it read none.
    pub fn check(&self, reply: Result<serde_json::Value, String>) -> (r: Result<
        serde_json::Value,
        Error,
    >)
        ensures
            match reply {
                Ok(value) => yields(r, checked(self@, json_of(value))) && (r is Ok ==> r->Ok_0
                    == value),
                Err(report) => yields(r, Err(ErrorView::Decode(CauseView::Json(report@)))),
            },
    {
        match reply {
            Ok(value) => {
                if check_against(self.signature.output_schema(), &value) {
                    Ok(value)
                } else {
                    Err(Error::Decode(Cause::Shape))
                }
            },
            Err(report) => Err(Error::Decode(Cause::Json(report))),
        }
    }
}

impl Adapter for JsonAdapter {
    /// The messages that carry `input` to a language model, the system message first,
    /// and the schema that the reply is to follow: that of the output record.
    fn format(&self, input: &serde_json::Value) -> (r: Result<
        (Vec<Message>, Option<&schemars::Schema>),
        Error,
    >)
        ensures
            match r {
                Ok((messages, schema)) => formatted(self@, json_of(*input)) == Ok::<
                    Seq<Turn>,
                    ErrorView,
                >(turns_of(messages@)) && schema is Some && schema_json(*schema->0)
                    == self@.output.schema,
                Err(e) => formatted(self@, json_of(*input)) == Err::<Seq<Turn>, ErrorView>(e@),
            },
    {
        let user = match self.format_input(input) {
            Ok(message) => message,
            Err(e) => {
                return Err(e);
            },
        };
        let mut messages: Vec<Message> = Vec::new();
        messages.push(self.format_system_message());
        messages.push(user);
        assert(turns_of(messages@) =~= formatted(self@, json_of(*input))->Ok_0);
        Ok((messages, Some(self.signature.output_schema())))
    }

    /// Decodes the reply of a language model into the output: the reply without its span
    /// of reasoning is read as JSON and held against the schema of the output record. A
    /// document that breaks one of the keywords that `held_keyword` names is a decode
    /// error. What the schema says by other keywords, such as `pattern`, `format` or a
    /// bound on a floating-point number, is not held here: a document that comes back
    /// has yet to be decoded into the typed output, and that decode does the rest.
    fn parse(&self, output: String) -> (r: Result<serde_json::Value, Error>)
        ensures
            yields(r, decoded(self@, output@)),
            r matches Ok(value) ==> passes(self@.output.schema, json_of(value)),
    {
        let text = strip_reasoning_span(output.as_str());
        self.check(parse_value(text.as_str()))
    }
}

} // verus!
