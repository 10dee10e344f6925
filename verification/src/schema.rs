use crate::json::{
    entries_of, json_of, lemma_member_decreases, map_entries, value_get, value_text, Json, Numeral,
};
use crate::text::{last_segment, last_segment_start, str_eq, to_chars};
use vstd::prelude::*;

verus! {

/// `schemars::Schema`: a JSON Schema, held as the outside crate holds it.
#[verifier::external_type_specification]
#[verifier::external_body]
pub struct ExSchema(schemars::Schema);

/// The document that a `schemars::Schema` wraps.
pub uninterp spec fn schema_json(s: schemars::Schema) -> Json;

/// What serde_json writes for a schema that wraps the given document: its JSON text, or
/// the report of why there is none. The text differs from that of the document itself:
/// schemars writes the keywords of a schema in an order of its own.
pub uninterp spec fn schema_text(doc: Json) -> Result<Seq<char>, Seq<char>>;

/// `Schema::as_value`: the document that the schema wraps.
pub assume_specification<'a>[ schemars::Schema::as_value ](s: &'a schemars::Schema) -> (r:
    &'a serde_json::Value)
    ensures
        json_of(*r) == schema_json(*s),
;

/// `serde_json::to_string` on a schema: its JSON text, or serde_json's report of why
/// it wrote none.
#[verifier::external_body]
pub(crate) fn write_schema(s: &schemars::Schema) -> (r: Result<String, String>)
    ensures
        match schema_text(schema_json(*s)) {
            Ok(text) => r is Ok && r->Ok_0@ == text,
            Err(report) => r is Err && r->Err_0@ == report,
        },
{
    match serde_json::to_string(s) {
        Ok(text) => Ok(text),
        Err(e) => Err(e.to_string()),
    }
}

/// Whether `key` is one of the keywords of a schema that are held against a value here.
/// What a schema says by any other keyword is not held, nor what it says by a bound that
/// is no integer or on a number that is none: `pattern`, `format`, `propertyNames`,
/// `patternProperties`, `unevaluatedItems`, `unevaluatedProperties` and the keywords
/// for the content of strings among them. That is left to whoever decodes the value into
/// its type.
pub open spec fn held_keyword(key: Seq<char>) -> bool {
    ||| key == "type"@
    ||| key == "enum"@
    ||| key == "const"@
    ||| key == "minimum"@
    ||| key == "maximum"@
    ||| key == "exclusiveMinimum"@
    ||| key == "exclusiveMaximum"@
    ||| key == "multipleOf"@
    ||| key == "$ref"@
    ||| key == "allOf"@
    ||| key == "anyOf"@
    ||| key == "oneOf"@
    ||| key == "not"@
    ||| key == "if"@
    ||| key == "then"@
    ||| key == "else"@
    ||| key == "minLength"@
    ||| key == "maxLength"@
    ||| key == "minItems"@
    ||| key == "maxItems"@
    ||| key == "uniqueItems"@
    ||| key == "contains"@
    ||| key == "minContains"@
    ||| key == "maxContains"@
    ||| key == "prefixItems"@
    ||| key == "items"@
    ||| key == "minProperties"@
    ||| key == "maxProperties"@
    ||| key == "required"@
    ||| key == "dependentRequired"@
    ||| key == "dependentSchemas"@
    ||| key == "properties"@
    ||| key == "additionalProperties"@
}

/// Whether `key` is one of the keywords of a schema that are read here: those that are
/// held, and `patternProperties`, beside which `additionalProperties` is not held.
pub open spec fn read_keyword(key: Seq<char>) -> bool {
    held_keyword(key) || key == "patternProperties"@
}

/// The member of `root` under `key` that goes by `name`.
pub open spec fn defined_under(root: Json, key: Seq<char>, name: Seq<char>) -> Option<Json> {
    match root.member(key) {
        Some(defs) => defs.member(name),
        None => None,
    }
}

/// The definition that a reference names: the root schema itself for the target `#`,
/// else the member of the root schema's `$defs`, or else of its `definitions`, that goes
/// by the last segment of the target. A reference to anything else names none.
pub open spec fn definition(root: Json, target: Seq<char>) -> Option<Json> {
    if target == "#"@ {
        Some(root)
    } else {
        match defined_under(root, "$defs"@, last_segment(target, '/')) {
            Some(def) => Some(def),
            None => defined_under(root, "definitions"@, last_segment(target, '/')),
        }
    }
}

/// How many schemas `root` defines under `key`.
pub open spec fn defined_count(root: Json, key: Seq<char>) -> nat {
    match root.member(key) {
        Some(Json::Object(defs)) => defs.len(),
        _ => 0,
    }
}

/// How many references in a row are followed for one value: as many as there are schemas
/// that a reference can name. A longer chain comes by the same schema twice, and so
/// never ends.
pub open spec fn hop_budget(root: Json) -> nat {
    defined_count(root, "$defs"@) + defined_count(root, "definitions"@) + 1
}

/// Whether `value` is of the type that the keyword `kw` names. An integer is a number
/// that is held as an integer. A keyword that names no type admits every value.
pub open spec fn names_type(kw: Seq<char>, value: Json) -> bool {
    if kw == "null"@ {
        value is Null
    } else if kw == "boolean"@ {
        value is Bool
    } else if kw == "string"@ {
        value is String
    } else if kw == "integer"@ {
        value.integer() is Some
    } else if kw == "number"@ {
        value is Number
    } else if kw == "array"@ {
        value is Array
    } else if kw == "object"@ {
        value is Object
    } else {
        true
    }
}

/// Whether `listed`, one of a list of type keywords, names the type of `value`. What is
/// no string names no type.
pub open spec fn lists_type(listed: Json, value: Json) -> bool {
    listed matches Json::String(kw) && names_type(kw, value)
}

/// `type`: the value is of the type named, or of one of the types listed.
pub open spec fn type_holds(schema: Json, value: Json) -> bool {
    match schema.member("type"@) {
        Some(Json::String(kw)) => names_type(kw, value),
        Some(Json::Array(kws)) => exists|i: int|
            0 <= i < kws.len() && lists_type(#[trigger] kws[i], value),
        _ => true,
    }
}

/// `enum`: the value is one of the documents listed. Documents are the same as
/// serde_json holds them: an integer is no floating-point number.
pub open spec fn enum_holds(schema: Json, value: Json) -> bool {
    match schema.member("enum"@) {
        Some(Json::Array(options)) => exists|i: int|
            0 <= i < options.len() && #[trigger] options[i] == value,
        _ => true,
    }
}

/// `const`: the value is the document given.
pub open spec fn const_holds(schema: Json, value: Json) -> bool {
    match schema.member("const"@) {
        Some(only) => only == value,
        None => true,
    }
}

/// The integer that `schema` gives under `key`.
pub open spec fn integer_member(schema: Json, key: Seq<char>) -> Option<int> {
    match schema.member(key) {
        Some(bound) => bound.integer(),
        None => None,
    }
}

/// Whether `n` lies within the bounds that `schema` gives as integers under the four
/// keys: not below `least`, not above `most`, above `below` and below `above`.
pub open spec fn within(
    schema: Json,
    n: int,
    least: Seq<char>,
    most: Seq<char>,
    below: Seq<char>,
    above: Seq<char>,
) -> bool {
    &&& integer_member(schema, least) matches Some(bound) ==> bound <= n
    &&& integer_member(schema, most) matches Some(bound) ==> n <= bound
    &&& integer_member(schema, below) matches Some(bound) ==> bound < n
    &&& integer_member(schema, above) matches Some(bound) ==> n < bound
}

/// Whether `n` is a multiple of `step`, an integer above zero: `step` divides the
/// distance of `n` from zero.
pub open spec fn is_multiple(n: int, step: int) -> bool {
    (if n < 0 {
        -n
    } else {
        n
    }) % step == 0
}

/// `minimum`, `maximum`, `exclusiveMinimum`, `exclusiveMaximum`, `multipleOf`: an integer
/// lies within the bounds that are integers, and is a multiple of the step that is an
/// integer above zero.
pub open spec fn bounds_hold(schema: Json, value: Json) -> bool {
    value.integer() matches Some(n) ==> {
        &&& within(schema, n, "minimum"@, "maximum"@, "exclusiveMinimum"@, "exclusiveMaximum"@)
        &&& integer_member(schema, "multipleOf"@) matches Some(step) ==> step <= 0
            || is_multiple(n, step)
    }
}

/// Whether `len` is neither below the integer that `schema` gives under `least` nor
/// above the one that it gives under `most`.
pub open spec fn length_holds(schema: Json, len: int, least: Seq<char>, most: Seq<char>) -> bool {
    &&& integer_member(schema, least) matches Some(bound) ==> bound <= len
    &&& integer_member(schema, most) matches Some(bound) ==> len <= bound
}

/// `minLength`, `maxLength`: a string has neither too few characters nor too many.
pub open spec fn string_holds(schema: Json, value: Json) -> bool {
    value matches Json::String(s) ==> length_holds(
        schema,
        s.len() as int,
        "minLength"@,
        "maxLength"@,
    )
}

/// `uniqueItems`: where the schema asks for it, no two of the elements are the same
/// document.
pub open spec fn unique_holds(schema: Json, items: Seq<Json>) -> bool {
    schema.member("uniqueItems"@) == Some(Json::Bool(true)) ==> forall|i: int, j: int|
        0 <= i < j < items.len() ==> items[i] != items[j]
}

/// Whether the object `value` holds every name that `names` lists.
pub open spec fn holds_names(names: Json, value: Json) -> bool {
    names matches Json::Array(list) ==> forall|i: int|
        0 <= i < list.len() ==> ((#[trigger] list[i]) matches Json::String(name) ==> value.member(
            name,
        ) is Some)
}

/// `required`: the object holds every name listed.
pub open spec fn required_holds(schema: Json, value: Json) -> bool {
    schema.member("required"@) matches Some(names) ==> holds_names(names, value)
}

/// `dependentRequired`: with each name that the schema gives a list for, the object
/// holds every name of that list.
pub open spec fn dependent_required_holds(schema: Json, value: Json) -> bool {
    schema.member("dependentRequired"@) matches Some(Json::Object(deps)) ==> forall|i: int|
        0 <= i < deps.len() ==> value.member((#[trigger] deps[i]).0) is Some ==> holds_names(
            deps[i].1,
            value,
        )
}

/// `contains`, `minContains`, `maxContains`: `count` elements that pass the schema of
/// `contains` are enough, and not too many. One is enough where the schema says nothing
/// else.
pub open spec fn contains_holds(schema: Json, count: int) -> bool {
    &&& match schema.member("minContains"@) {
        Some(bound) => bound.integer() matches Some(least) ==> least <= count,
        None => 1 <= count,
    }
    &&& integer_member(schema, "maxContains"@) matches Some(most) ==> count <= most
}

/// How many elements of an array stand under the schemas of `prefixItems`, one each.
pub open spec fn prefix_len(schema: Json) -> int {
    match schema.member("prefixItems"@) {
        Some(Json::Array(firsts)) => firsts.len() as int,
        _ => 0,
    }
}

/// Whether `schema` declares a property of the name `key`.
pub open spec fn declares(schema: Json, key: Seq<char>) -> bool {
    schema.member("properties"@) matches Some(props) && props.member(key) is Some
}

/// The schema that `schema` gives for the members of an object that it declares no
/// property for. Where it names members by `patternProperties` too, which members are
/// left is not decided here, and none is held against the schema.
pub open spec fn additional(schema: Json) -> Option<Json> {
    if schema.member("patternProperties"@) is Some {
        None
    } else {
        schema.member("additionalProperties"@)
    }
}

/// Whether `value` breaks none of the keywords of `schema` that `held_keyword` names,
/// with at most `hops` references followed before the next step into the value. A
/// boolean schema admits everything or nothing. Of any other schema every held keyword
/// must hold; a schema that has none of them admits every value.
pub open spec fn passes_within(root: Json, schema: Json, value: Json, hops: nat) -> bool
    decreases value, hops, schema, 1nat,
    via passes_within_decreases
{
    match schema {
        Json::Bool(admits) => admits,
        _ => {
            &&& type_holds(schema, value)
            &&& enum_holds(schema, value)
            &&& const_holds(schema, value)
            &&& bounds_hold(schema, value)
            &&& string_holds(schema, value)
            &&& reference_holds(root, schema, value, hops)
            &&& passing_of(root, schema, "allOf"@, value, hops) matches Some(n) ==> n.0 == n.1
            &&& passing_of(root, schema, "anyOf"@, value, hops) matches Some(n) ==> n.0 > 0
            &&& passing_of(root, schema, "oneOf"@, value, hops) matches Some(n) ==> n.0 == 1
            &&& schema.member("not"@) matches Some(sub) ==> !passes_within(root, sub, value, hops)
            &&& condition_holds(root, schema, value, hops)
            &&& value is Array ==> array_holds(root, schema, value, hops)
            &&& value is Object ==> object_holds(root, schema, value, hops)
        },
    }
}

#[via_fn]
proof fn passes_within_decreases(root: Json, schema: Json, value: Json, hops: nat) {
    lemma_member_decreases(schema, "not"@);
}

/// `$ref`: the value passes the definition that the reference names. A reference to no
/// definition holds; one that cannot be followed any more does not.
pub open spec fn reference_holds(root: Json, schema: Json, value: Json, hops: nat) -> bool
    decreases value, hops, schema, 0nat,
{
    match schema.member("$ref"@) {
        Some(Json::String(target)) => match definition(root, target) {
            Some(def) => hops > 0 && passes_within(root, def, value, (hops - 1) as nat),
            None => true,
        },
        _ => true,
    }
}

/// `if`, `then`, `else`: a value that passes the schema of `if` passes that of `then`,
/// and one that does not passes that of `else`, where there is one.
pub open spec fn condition_holds(root: Json, schema: Json, value: Json, hops: nat) -> bool
    decreases value, hops, schema, 0nat,
    via condition_holds_decreases
{
    match schema.member("if"@) {
        Some(test) => if passes_within(root, test, value, hops) {
            schema.member("then"@) matches Some(sub) ==> passes_within(root, sub, value, hops)
        } else {
            schema.member("else"@) matches Some(sub) ==> passes_within(root, sub, value, hops)
        },
        None => true,
    }
}

#[via_fn]
proof fn condition_holds_decreases(root: Json, schema: Json, value: Json, hops: nat) {
    lemma_member_decreases(schema, "if"@);
    lemma_member_decreases(schema, "then"@);
    lemma_member_decreases(schema, "else"@);
}

/// How many of the schemas listed under `key` the value passes, and how many there are;
/// `None` where `schema` lists none under `key`.
pub open spec fn passing_of(
    root: Json,
    schema: Json,
    key: Seq<char>,
    value: Json,
    hops: nat,
) -> Option<(nat, nat)>
    decreases value, hops, schema, 0nat,
    via passing_of_decreases
{
    match schema.member(key) {
        Some(Json::Array(subs)) => Some((count_passing(root, subs, value, hops), subs.len())),
        _ => None,
    }
}

#[via_fn]
proof fn passing_of_decreases(root: Json, schema: Json, key: Seq<char>, value: Json, hops: nat) {
    lemma_member_decreases(schema, key);
}

/// How many of `schemas` the value passes.
pub open spec fn count_passing(root: Json, schemas: Seq<Json>, value: Json, hops: nat) -> nat
    decreases value, hops, schemas, 0nat,
{
    if schemas.len() == 0 {
        0
    } else {
        count_passing(root, schemas.drop_last(), value, hops) + (if passes_within(
            root,
            schemas.last(),
            value,
            hops,
        ) {
            1nat
        } else {
            0nat
        })
    }
}

/// How many of `items` pass the schema `each`.
pub open spec fn count_items(root: Json, each: Json, items: Seq<Json>) -> nat
    decreases items, 0nat, each, 0nat,
{
    if items.len() == 0 {
        0
    } else {
        count_items(root, each, items.drop_last()) + (if passes_within(
            root,
            each,
            items.last(),
            hop_budget(root),
        ) {
            1nat
        } else {
            0nat
        })
    }
}

/// `minItems`, `maxItems`, `uniqueItems`, `contains`, `prefixItems`, `items`: the array
/// has a length within the bounds, no element twice where that is asked, and enough
/// elements that pass the schema of `contains`; each of its first elements passes the
/// schema that `prefixItems` gives for its place, and every element behind those passes
/// the schema of `items`.
pub open spec fn array_holds(root: Json, schema: Json, value: Json, hops: nat) -> bool
    decreases value, hops, schema, 0nat,
{
    match value {
        Json::Array(items) => {
            &&& length_holds(schema, items.len() as int, "minItems"@, "maxItems"@)
            &&& unique_holds(schema, items)
            &&& schema.member("contains"@) matches Some(each) ==> contains_holds(
                schema,
                count_items(root, each, items) as int,
            )
            &&& schema.member("prefixItems"@) matches Some(Json::Array(firsts)) ==> forall|i: int|
                0 <= i < firsts.len() && i < items.len() ==> passes_within(
                    root,
                    firsts[i],
                    #[trigger] items[i],
                    hop_budget(root),
                )
            &&& schema.member("items"@) matches Some(each) ==> forall|i: int|
                prefix_len(schema) <= i < items.len() ==> passes_within(
                    root,
                    each,
                    #[trigger] items[i],
                    hop_budget(root),
                )
        },
        _ => true,
    }
}

/// `minProperties`, `maxProperties`, `required`, `dependentRequired`,
/// `dependentSchemas`, `properties`, `additionalProperties`: the object has neither too
/// few members nor too many and holds every name that is required, by itself or with a
/// name that it holds; it passes each schema that is given for a name that it holds;
/// each member that a property is declared for passes the schema of that property, and
/// every other member passes the schema for additional ones.
pub open spec fn object_holds(root: Json, schema: Json, value: Json, hops: nat) -> bool
    decreases value, hops, schema, 0nat,
    via object_holds_decreases
{
    match value {
        Json::Object(entries) => {
            &&& length_holds(schema, entries.len() as int, "minProperties"@, "maxProperties"@)
            &&& required_holds(schema, value)
            &&& dependent_required_holds(schema, value)
            &&& schema.member("dependentSchemas"@) matches Some(Json::Object(deps))
                ==> forall|i: int|
                0 <= i < deps.len() ==> value.member((#[trigger] deps[i]).0) is Some
                    ==> passes_within(root, deps[i].1, value, hops)
            &&& schema.member("properties"@) matches Some(Json::Object(props)) ==> forall|i: int|
                0 <= i < props.len() ==> match value.member((#[trigger] props[i]).0) {
                    Some(child) => passes_within(root, props[i].1, child, hop_budget(root)),
                    None => true,
                }
            &&& additional(schema) matches Some(extra) ==> forall|j: int|
                0 <= j < entries.len() ==> declares(schema, (#[trigger] entries[j]).0)
                    || passes_within(root, extra, entries[j].1, hop_budget(root))
        },
        _ => true,
    }
}

#[via_fn]
proof fn object_holds_decreases(root: Json, schema: Json, value: Json, hops: nat) {
    lemma_member_decreases(schema, "dependentSchemas"@);
    if let Some(Json::Object(deps)) = schema.member("dependentSchemas"@) {
        assert forall|i: int| 0 <= i < deps.len() implies decreases_to!(schema => deps[i].1) by {
            let listed = Json::Object(deps);
            assert(decreases_to!(listed => listed->Object_0));
            assert(decreases_to!(deps => deps[i]));
            assert(decreases_to!(deps[i] => deps[i].1));
        }
    }
    assert forall|key: Seq<char>| value.member(key) is Some implies decreases_to!(value => value.member(key)->0) by {
        lemma_member_decreases(value, key);
    }
}

/// Whether `value` breaks none of the keywords of `schema` that `held_keyword` names.
/// References are looked up in `schema` itself. A value that passes may still break a
/// keyword that is not held.
pub open spec fn passes(schema: Json, value: Json) -> bool {
    passes_within(schema, schema, value, hop_budget(schema))
}

/// No keyword is read but those that `read_keyword` names: two schemas that say the same
/// under each of them pass the same values.
pub proof fn lemma_passes_reads_named_keywords(
    root: Json,
    a: Json,
    b: Json,
    value: Json,
    hops: nat,
)
    requires
        !(a is Bool),
        !(b is Bool),
        forall|key: Seq<char>| read_keyword(key) ==> a.member(key) == b.member(key),
    ensures
        passes_within(root, a, value, hops) == passes_within(root, b, value, hops),
{
    assert(a.member("type"@) == b.member("type"@)) by {
        assert(read_keyword("type"@));
    }
    assert(a.member("enum"@) == b.member("enum"@)) by {
        assert(read_keyword("enum"@));
    }
    assert(a.member("const"@) == b.member("const"@)) by {
        assert(read_keyword("const"@));
    }
    assert(a.member("minimum"@) == b.member("minimum"@)) by {
        assert(read_keyword("minimum"@));
    }
    assert(a.member("maximum"@) == b.member("maximum"@)) by {
        assert(read_keyword("maximum"@));
    }
    assert(a.member("exclusiveMinimum"@) == b.member("exclusiveMinimum"@)) by {
        assert(read_keyword("exclusiveMinimum"@));
    }
    assert(a.member("exclusiveMaximum"@) == b.member("exclusiveMaximum"@)) by {
        assert(read_keyword("exclusiveMaximum"@));
    }
    assert(a.member("$ref"@) == b.member("$ref"@)) by {
        assert(read_keyword("$ref"@));
    }
    assert(a.member("allOf"@) == b.member("allOf"@)) by {
        assert(read_keyword("allOf"@));
    }
    assert(a.member("anyOf"@) == b.member("anyOf"@)) by {
        assert(read_keyword("anyOf"@));
    }
    assert(a.member("oneOf"@) == b.member("oneOf"@)) by {
        assert(read_keyword("oneOf"@));
    }
    assert(a.member("not"@) == b.member("not"@)) by {
        assert(read_keyword("not"@));
    }
    assert(a.member("multipleOf"@) == b.member("multipleOf"@)) by {
        assert(read_keyword("multipleOf"@));
    }
    assert(a.member("if"@) == b.member("if"@)) by {
        assert(read_keyword("if"@));
    }
    assert(a.member("then"@) == b.member("then"@)) by {
        assert(read_keyword("then"@));
    }
    assert(a.member("else"@) == b.member("else"@)) by {
        assert(read_keyword("else"@));
    }
    assert(a.member("contains"@) == b.member("contains"@)) by {
        assert(read_keyword("contains"@));
    }
    assert(a.member("minContains"@) == b.member("minContains"@)) by {
        assert(read_keyword("minContains"@));
    }
    assert(a.member("maxContains"@) == b.member("maxContains"@)) by {
        assert(read_keyword("maxContains"@));
    }
    assert(a.member("dependentRequired"@) == b.member("dependentRequired"@)) by {
        assert(read_keyword("dependentRequired"@));
    }
    assert(a.member("dependentSchemas"@) == b.member("dependentSchemas"@)) by {
        assert(read_keyword("dependentSchemas"@));
    }
    assert(a.member("minLength"@) == b.member("minLength"@)) by {
        assert(read_keyword("minLength"@));
    }
    assert(a.member("maxLength"@) == b.member("maxLength"@)) by {
        assert(read_keyword("maxLength"@));
    }
    assert(a.member("uniqueItems"@) == b.member("uniqueItems"@)) by {
        assert(read_keyword("uniqueItems"@));
    }
    assert(a.member("minProperties"@) == b.member("minProperties"@)) by {
        assert(read_keyword("minProperties"@));
    }
    assert(a.member("maxProperties"@) == b.member("maxProperties"@)) by {
        assert(read_keyword("maxProperties"@));
    }
    assert(a.member("minItems"@) == b.member("minItems"@)) by {
        assert(read_keyword("minItems"@));
    }
    assert(a.member("maxItems"@) == b.member("maxItems"@)) by {
        assert(read_keyword("maxItems"@));
    }
    assert(a.member("prefixItems"@) == b.member("prefixItems"@)) by {
        assert(read_keyword("prefixItems"@));
    }
    assert(a.member("items"@) == b.member("items"@)) by {
        assert(read_keyword("items"@));
    }
    assert(a.member("required"@) == b.member("required"@)) by {
        assert(read_keyword("required"@));
    }
    assert(a.member("properties"@) == b.member("properties"@)) by {
        assert(read_keyword("properties"@));
    }
    assert(a.member("additionalProperties"@) == b.member("additionalProperties"@)) by {
        assert(read_keyword("additionalProperties"@));
    }
    assert(a.member("patternProperties"@) == b.member("patternProperties"@)) by {
        assert(read_keyword("patternProperties"@));
    }
    assert forall|key: Seq<char>| declares(a, key) == declares(b, key) by {}
    assert(type_holds(a, value) == type_holds(b, value));
    assert(enum_holds(a, value) == enum_holds(b, value));
    assert(const_holds(a, value) == const_holds(b, value));
    assert(bounds_hold(a, value) == bounds_hold(b, value));
    assert(string_holds(a, value) == string_holds(b, value));
    assert(reference_holds(root, a, value, hops) == reference_holds(root, b, value, hops));
    assert(condition_holds(root, a, value, hops) == condition_holds(root, b, value, hops));
    assert(passing_of(root, a, "allOf"@, value, hops) == passing_of(
        root,
        b,
        "allOf"@,
        value,
        hops,
    ));
    assert(passing_of(root, a, "anyOf"@, value, hops) == passing_of(
        root,
        b,
        "anyOf"@,
        value,
        hops,
    ));
    assert(passing_of(root, a, "oneOf"@, value, hops) == passing_of(
        root,
        b,
        "oneOf"@,
        value,
        hops,
    ));
    assert(prefix_len(a) == prefix_len(b));
    assert(additional(a) == additional(b));
    assert(array_holds(root, a, value, hops) == array_holds(root, b, value, hops)) by {
        if let Json::Array(items) = value {
            assert(length_holds(a, items.len() as int, "minItems"@, "maxItems"@) == length_holds(
                b,
                items.len() as int,
                "minItems"@,
                "maxItems"@,
            ));
            assert(unique_holds(a, items) == unique_holds(b, items));
            assert forall|count: int| contains_holds(a, count) == contains_holds(b, count) by {}
        }
    }
    assert(object_holds(root, a, value, hops) == object_holds(root, b, value, hops)) by {
        assert(required_holds(a, value) == required_holds(b, value));
        assert(dependent_required_holds(a, value) == dependent_required_holds(b, value));
        if let Json::Object(entries) = value {
            assert(length_holds(a, entries.len() as int, "minProperties"@, "maxProperties"@)
                == length_holds(b, entries.len() as int, "minProperties"@, "maxProperties"@));
        }
    }
}

/// The definition that a reference to `target` names in `root`.
fn find_definition<'a>(root: &'a serde_json::Value, target: &str) -> (r: Option<
    &'a serde_json::Value,
>)
    ensures
        match definition(json_of(*root), target@) {
            Some(def) => r is Some && json_of(*r->0) == def,
            None => r is None,
        },
{
    if str_eq(target, "#") {
        return Some(root);
    }
    let chars = to_chars(target);
    let start = last_segment_start(&chars, '/');
    assert(target@.skip(start as int) == target@.subrange(start as int, target@.len() as int));
    let name = target.substring_char(start, chars.len());
    match find_under(root, "$defs", name) {
        Some(def) => Some(def),
        None => find_under(root, "definitions", name),
    }
}

/// The member of `root` under `key` that goes by `name`.
fn find_under<'a>(root: &'a serde_json::Value, key: &str, name: &str) -> (r: Option<
    &'a serde_json::Value,
>)
    ensures
        match defined_under(json_of(*root), key@, name@) {
            Some(def) => r is Some && json_of(*r->0) == def,
            None => r is None,
        },
{
    match value_get(root, key) {
        Some(defs) => value_get(defs, name),
        None => None,
    }
}

/// How many schemas `root` defines under `key`.
fn count_defined(root: &serde_json::Value, key: &str) -> (r: usize)
    ensures
        r == defined_count(json_of(*root), key@),
{
    match value_get(root, key) {
        Some(defs) => match defs.as_object() {
            Some(map) => map_entries(map).len(),
            None => 0,
        },
        None => 0,
    }
}

/// How many references in a row are followed for one value under `root`.
fn count_hops(root: &serde_json::Value) -> (r: u128)
    ensures
        r == hop_budget(json_of(*root)),
{
    let defs = count_defined(root, "$defs");
    let definitions = count_defined(root, "definitions");
    (defs as u128) + (definitions as u128) + 1
}

/// The value of a number that is held as an integer.
fn integer_value(v: &serde_json::Value) -> (r: Option<i128>)
    ensures
        match json_of(*v).integer() {
            Some(n) => r == Some(n as i128) && i64::MIN <= n <= u64::MAX,
            None => r is None,
        },
{
    match v.as_u64() {
        Some(n) => Some(n as i128),
        None => match v.as_i64() {
            Some(n) => Some(n as i128),
            None => None,
        },
    }
}

/// Whether two values hold the same document.
pub fn same_document(a: &serde_json::Value, b: &serde_json::Value) -> (r: bool)
    ensures
        r == (json_of(*a) == json_of(*b)),
    decreases json_of(*a),
{
    let ghost x = json_of(*a);
    let ghost y = json_of(*b);
    if a.is_null() {
        return b.is_null();
    }
    match a.as_bool() {
        Some(p) => {
            return match b.as_bool() {
                Some(q) => p == q,
                None => false,
            };
        },
        None => {},
    }
    match a.as_str() {
        Some(s) => {
            return match b.as_str() {
                Some(t) => str_eq(s, t),
                None => false,
            };
        },
        None => {},
    }
    if a.is_number() {
        if !b.is_number() {
            return false;
        }
        return match (integer_value(a), integer_value(b)) {
            (Some(m), Some(n)) => m == n,
            (None, None) => {
                let s = value_text(a);
                let t = value_text(b);
                str_eq(s.as_str(), t.as_str())
            },
            _ => false,
        };
    }
    match a.as_array() {
        Some(xs) => {
            let ys = match b.as_array() {
                Some(ys) => ys,
                None => {
                    return false;
                },
            };
            if xs.len() != ys.len() {
                return false;
            }
            let ghost left = x->Array_0;
            let ghost right = y->Array_0;
            let mut i: usize = 0;
            while i < xs.len()
                invariant
                    i <= xs@.len(),
                    x == json_of(*a),
                    y == json_of(*b),
                    x == Json::Array(left),
                    y == Json::Array(right),
                    xs@.len() == left.len(),
                    ys@.len() == right.len(),
                    left.len() == right.len(),
                    forall|k: int| 0 <= k < left.len() ==> json_of(#[trigger] xs@[k]) == left[k],
                    forall|k: int| 0 <= k < right.len() ==> json_of(#[trigger] ys@[k]) == right[k],
                    forall|k: int| 0 <= k < i ==> left[k] == right[k],
                decreases xs@.len() - i,
            {
                assert(decreases_to!(x => x->Array_0));
                assert(decreases_to!(left => left[i as int]));
                if !same_document(&xs[i], &ys[i]) {
                    assert(left[i as int] != right[i as int]);
                    return false;
                }
                i += 1;
            }
            assert(left =~= right);
            return true;
        },
        None => {},
    }
    match a.as_object() {
        Some(m) => {
            let n = match b.as_object() {
                Some(n) => n,
                None => {
                    return false;
                },
            };
            let xs = map_entries(m);
            let ys = map_entries(n);
            if xs.len() != ys.len() {
                return false;
            }
            let ghost left = x->Object_0;
            let ghost right = y->Object_0;
            let mut i: usize = 0;
            while i < xs.len()
                invariant
                    i <= xs@.len(),
                    x == json_of(*a),
                    y == json_of(*b),
                    x == Json::Object(left),
                    y == Json::Object(right),
                    xs@.len() == left.len(),
                    ys@.len() == right.len(),
                    left.len() == right.len(),
                    forall|k: int|
                        0 <= k < left.len() ==> (#[trigger] xs@[k]).0@ == left[k].0 && json_of(
                            *xs@[k].1,
                        ) == left[k].1,
                    forall|k: int|
                        0 <= k < right.len() ==> (#[trigger] ys@[k]).0@ == right[k].0 && json_of(
                            *ys@[k].1,
                        ) == right[k].1,
                    forall|k: int| 0 <= k < i ==> left[k] == right[k],
                decreases xs@.len() - i,
            {
                let (key, value) = xs[i];
                let (other_key, other) = ys[i];
                assert(decreases_to!(x => x->Object_0));
                assert(decreases_to!(left => left[i as int]));
                assert(decreases_to!(left[i as int] => left[i as int].1));
                if !str_eq(key.as_str(), other_key.as_str()) || !same_document(value, other) {
                    assert(left[i as int] != right[i as int]);
                    return false;
                }
                assert(left[i as int] == right[i as int]);
                i += 1;
            }
            assert(left =~= right);
            true
        },
        None => false,
    }
}

/// Whether `value` is of the type that the keyword `kw` names.
fn check_named_type(kw: &str, value: &serde_json::Value) -> (r: bool)
    ensures
        r == names_type(kw@, json_of(*value)),
{
    if str_eq(kw, "null") {
        value.is_null()
    } else if str_eq(kw, "boolean") {
        value.as_bool().is_some()
    } else if str_eq(kw, "string") {
        value.as_str().is_some()
    } else if str_eq(kw, "integer") {
        integer_value(value).is_some()
    } else if str_eq(kw, "number") {
        value.is_number()
    } else if str_eq(kw, "array") {
        value.as_array().is_some()
    } else if str_eq(kw, "object") {
        value.as_object().is_some()
    } else {
        true
    }
}

/// `type`.
fn check_type(schema: &serde_json::Value, value: &serde_json::Value) -> (r: bool)
    ensures
        r == type_holds(json_of(*schema), json_of(*value)),
{
    let listed = match value_get(schema, "type") {
        Some(listed) => listed,
        None => {
            return true;
        },
    };
    match listed.as_str() {
        Some(kw) => {
            return check_named_type(kw, value);
        },
        None => {},
    }
    let kws = match listed.as_array() {
        Some(kws) => kws,
        None => {
            return true;
        },
    };
    let ghost all = json_of(*listed)->Array_0;
    let mut i: usize = 0;
    while i < kws.len()
        invariant
            i <= kws@.len(),
            type_holds(json_of(*schema), json_of(*value)) == (exists|k: int|
                0 <= k < all.len() && lists_type(#[trigger] all[k], json_of(*value))),
            kws@.len() == all.len(),
            forall|k: int| 0 <= k < all.len() ==> json_of(#[trigger] kws@[k]) == all[k],
            forall|k: int| 0 <= k < i ==> !lists_type(#[trigger] all[k], json_of(*value)),
        decreases kws@.len() - i,
    {
        match kws[i].as_str() {
            Some(kw) => {
                if check_named_type(kw, value) {
                    assert(lists_type(all[i as int], json_of(*value)));
                    return true;
                }
            },
            None => {},
        }
        i += 1;
    }
    false
}

/// `enum`.
fn check_enum(schema: &serde_json::Value, value: &serde_json::Value) -> (r: bool)
    ensures
        r == enum_holds(json_of(*schema), json_of(*value)),
{
    let options = match value_get(schema, "enum") {
        Some(listed) => match listed.as_array() {
            Some(options) => options,
            None => {
                return true;
            },
        },
        None => {
            return true;
        },
    };
    let ghost all = json_of(*schema).member("enum"@)->0->Array_0;
    let mut i: usize = 0;
    while i < options.len()
        invariant
            i <= options@.len(),
            enum_holds(json_of(*schema), json_of(*value)) == (exists|k: int|
                0 <= k < all.len() && #[trigger] all[k] == json_of(*value)),
            options@.len() == all.len(),
            forall|k: int| 0 <= k < all.len() ==> json_of(#[trigger] options@[k]) == all[k],
            forall|k: int| 0 <= k < i ==> #[trigger] all[k] != json_of(*value),
        decreases options@.len() - i,
    {
        if same_document(&options[i], value) {
            assert(all[i as int] == json_of(*value));
            return true;
        }
        i += 1;
    }
    false
}

/// `const`.
fn check_const(schema: &serde_json::Value, value: &serde_json::Value) -> (r: bool)
    ensures
        r == const_holds(json_of(*schema), json_of(*value)),
{
    match value_get(schema, "const") {
        Some(only) => same_document(only, value),
        None => true,
    }
}

/// The integer that `schema` gives under `key`.
fn integer_under(schema: &serde_json::Value, key: &str) -> (r: Option<i128>)
    ensures
        match integer_member(json_of(*schema), key@) {
            Some(n) => r == Some(n as i128) && i64::MIN <= n <= u64::MAX,
            None => r is None,
        },
{
    match value_get(schema, key) {
        Some(bound) => integer_value(bound),
        None => None,
    }
}

/// Whether `n` lies within the bounds that `schema` gives as integers under the four
/// keys.
fn check_within(
    schema: &serde_json::Value,
    n: i128,
    least: &str,
    most: &str,
    below: &str,
    above: &str,
) -> (r: bool)
    ensures
        r == within(json_of(*schema), n as int, least@, most@, below@, above@),
{
    match integer_under(schema, least) {
        Some(bound) => {
            if n < bound {
                return false;
            }
        },
        None => {},
    }
    match integer_under(schema, most) {
        Some(bound) => {
            if n > bound {
                return false;
            }
        },
        None => {},
    }
    match integer_under(schema, below) {
        Some(bound) => {
            if n <= bound {
                return false;
            }
        },
        None => {},
    }
    match integer_under(schema, above) {
        Some(bound) => {
            if n >= bound {
                return false;
            }
        },
        None => {},
    }
    true
}

/// `minimum`, `maximum`, `exclusiveMinimum`, `exclusiveMaximum`.
fn check_bounds(schema: &serde_json::Value, value: &serde_json::Value) -> (r: bool)
    ensures
        r == bounds_hold(json_of(*schema), json_of(*value)),
{
    let n = match integer_value(value) {
        Some(n) => n,
        None => {
            return true;
        },
    };
    if !check_within(schema, n, "minimum", "maximum", "exclusiveMinimum", "exclusiveMaximum") {
        return false;
    }
    match integer_under(schema, "multipleOf") {
        Some(step) => {
            if step <= 0 {
                true
            } else {
                let distance: i128 = if n < 0 {
                    -n
                } else {
                    n
                };
                distance % step == 0
            }
        },
        None => true,
    }
}

/// Whether `len` is neither below the integer that `schema` gives under `least` nor
/// above the one that it gives under `most`.
fn check_length(schema: &serde_json::Value, len: usize, least: &str, most: &str) -> (r: bool)
    ensures
        r == length_holds(json_of(*schema), len as int, least@, most@),
{
    match integer_under(schema, least) {
        Some(bound) => {
            if (len as i128) < bound {
                return false;
            }
        },
        None => {},
    }
    match integer_under(schema, most) {
        Some(bound) => {
            if (len as i128) > bound {
                return false;
            }
        },
        None => {},
    }
    true
}

/// `minLength`, `maxLength`.
fn check_string(schema: &serde_json::Value, value: &serde_json::Value) -> (r: bool)
    ensures
        r == string_holds(json_of(*schema), json_of(*value)),
{
    match value.as_str() {
        Some(s) => check_length(schema, s.unicode_len(), "minLength", "maxLength"),
        None => true,
    }
}

/// `uniqueItems`.
fn check_unique(schema: &serde_json::Value, value: &serde_json::Value) -> (r: bool)
    requires
        json_of(*value) is Array,
    ensures
        r == unique_holds(json_of(*schema), json_of(*value)->Array_0),
{
    let asked = match value_get(schema, "uniqueItems") {
        Some(flag) => match flag.as_bool() {
            Some(asked) => asked,
            None => false,
        },
        None => false,
    };
    if !asked {
        return true;
    }
    let items = match value.as_array() {
        Some(items) => items,
        None => {
            return true;
        },
    };
    let ghost all = json_of(*value)->Array_0;
    let mut j: usize = 0;
    while j < items.len()
        invariant
            j <= items@.len(),
            json_of(*schema).member("uniqueItems"@) == Some(Json::Bool(true)),
            all == json_of(*value)->Array_0,
            items@.len() == all.len(),
            forall|k: int| 0 <= k < all.len() ==> json_of(#[trigger] items@[k]) == all[k],
            forall|p: int, q: int| 0 <= p < q < j ==> all[p] != all[q],
        decreases items@.len() - j,
    {
        let mut i: usize = 0;
        while i < j
            invariant
                i <= j < items@.len(),
                json_of(*schema).member("uniqueItems"@) == Some(Json::Bool(true)),
                all == json_of(*value)->Array_0,
                items@.len() == all.len(),
                forall|k: int| 0 <= k < all.len() ==> json_of(#[trigger] items@[k]) == all[k],
                forall|p: int| 0 <= p < i ==> all[p] != all[j as int],
            decreases j - i,
        {
            if same_document(&items[i], &items[j]) {
                assert(all[i as int] == all[j as int]);
                return false;
            }
            i += 1;
        }
        j += 1;
    }
    true
}

/// Whether the object `value` holds every name that `names` lists.
fn check_names(names: &serde_json::Value, value: &serde_json::Value) -> (r: bool)
    ensures
        r == holds_names(json_of(*names), json_of(*value)),
{
    let list = match names.as_array() {
        Some(list) => list,
        None => {
            return true;
        },
    };
    let ghost all = json_of(*names)->Array_0;
    let mut i: usize = 0;
    while i < list.len()
        invariant
            i <= list@.len(),
            json_of(*names) == Json::Array(all),
            list@.len() == all.len(),
            forall|k: int| 0 <= k < all.len() ==> json_of(#[trigger] list@[k]) == all[k],
            forall|k: int|
                0 <= k < i ==> ((#[trigger] all[k]) matches Json::String(name) ==> json_of(
                    *value,
                ).member(name) is Some),
        decreases list@.len() - i,
    {
        match list[i].as_str() {
            Some(name) => {
                if value_get(value, name).is_none() {
                    assert(all[i as int] matches Json::String(name) && json_of(*value).member(
                        name,
                    ) is None);
                    return false;
                }
            },
            None => {},
        }
        i += 1;
    }
    true
}

/// `required`.
fn check_required(schema: &serde_json::Value, value: &serde_json::Value) -> (r: bool)
    ensures
        r == required_holds(json_of(*schema), json_of(*value)),
{
    match value_get(schema, "required") {
        Some(names) => check_names(names, value),
        None => true,
    }
}

/// `dependentRequired`.
fn check_dependent_required(schema: &serde_json::Value, value: &serde_json::Value) -> (r: bool)
    ensures
        r == dependent_required_holds(json_of(*schema), json_of(*value)),
{
    let map = match value_get(schema, "dependentRequired") {
        Some(listed) => match listed.as_object() {
            Some(map) => map,
            None => {
                return true;
            },
        },
        None => {
            return true;
        },
    };
    let entries = map_entries(map);
    let ghost deps = entries_of(*map);
    let mut i: usize = 0;
    while i < entries.len()
        invariant
            i <= entries@.len(),
            json_of(*schema).member("dependentRequired"@) == Some(Json::Object(deps)),
            entries@.len() == deps.len(),
            forall|k: int|
                0 <= k < deps.len() ==> (#[trigger] entries@[k]).0@ == deps[k].0 && json_of(
                    *entries@[k].1,
                ) == deps[k].1,
            forall|k: int|
                0 <= k < i ==> json_of(*value).member((#[trigger] deps[k]).0) is Some
                    ==> holds_names(deps[k].1, json_of(*value)),
        decreases entries@.len() - i,
    {
        let (name, names) = entries[i];
        if value_get(value, name.as_str()).is_some() && !check_names(names, value) {
            assert(json_of(*value).member(deps[i as int].0) is Some && !holds_names(
                deps[i as int].1,
                json_of(*value),
            ));
            return false;
        }
        i += 1;
    }
    true
}

/// `contains`, `minContains`, `maxContains`.
fn check_contains(schema: &serde_json::Value, count: usize) -> (r: bool)
    ensures
        r == contains_holds(json_of(*schema), count as int),
{
    match value_get(schema, "minContains") {
        Some(bound) => match integer_value(bound) {
            Some(least) => {
                if (count as i128) < least {
                    return false;
                }
            },
            None => {},
        },
        None => {
            if count < 1 {
                return false;
            }
        },
    }
    match integer_under(schema, "maxContains") {
        Some(most) => (count as i128) <= most,
        None => true,
    }
}

/// Whether `schema` declares a property of the name `key`.
fn check_declares(schema: &serde_json::Value, key: &str) -> (r: bool)
    ensures
        r == declares(json_of(*schema), key@),
{
    match value_get(schema, "properties") {
        Some(props) => value_get(props, key).is_some(),
        None => false,
    }
}

/// The schema that `schema` gives for the members of an object that it declares no
/// property for.
fn find_additional<'a>(schema: &'a serde_json::Value) -> (r: Option<&'a serde_json::Value>)
    ensures
        match additional(json_of(*schema)) {
            Some(extra) => r is Some && json_of(*r->0) == extra,
            None => r is None,
        },
{
    if value_get(schema, "patternProperties").is_some() {
        None
    } else {
        value_get(schema, "additionalProperties")
    }
}

/// `$ref`.
fn check_reference(
    root: &serde_json::Value,
    schema: &serde_json::Value,
    value: &serde_json::Value,
    hops: u128,
    budget: u128,
) -> (r: bool)
    requires
        budget == hop_budget(json_of(*root)),
    ensures
        r == reference_holds(json_of(*root), json_of(*schema), json_of(*value), hops as nat),
    decreases json_of(*value), hops, json_of(*schema), 0nat,
{
    match value_get(schema, "$ref") {
        Some(reference) => match reference.as_str() {
            Some(target) => match find_definition(root, target) {
                Some(def) => {
                    if hops > 0 {
                        check_node(root, def, value, hops - 1, budget)
                    } else {
                        false
                    }
                },
                None => true,
            },
            None => true,
        },
        None => true,
    }
}

/// `if`, `then`, `else`.
fn check_condition(
    root: &serde_json::Value,
    schema: &serde_json::Value,
    value: &serde_json::Value,
    hops: u128,
    budget: u128,
) -> (r: bool)
    requires
        budget == hop_budget(json_of(*root)),
    ensures
        r == condition_holds(json_of(*root), json_of(*schema), json_of(*value), hops as nat),
    decreases json_of(*value), hops, json_of(*schema), 0nat,
{
    proof {
        lemma_member_decreases(json_of(*schema), "if"@);
        lemma_member_decreases(json_of(*schema), "then"@);
        lemma_member_decreases(json_of(*schema), "else"@);
    }
    let test = match value_get(schema, "if") {
        Some(test) => test,
        None => {
            return true;
        },
    };
    let branch = if check_node(root, test, value, hops, budget) {
        value_get(schema, "then")
    } else {
        value_get(schema, "else")
    };
    match branch {
        Some(sub) => check_node(root, sub, value, hops, budget),
        None => true,
    }
}

/// How many of the schemas listed under `key` the value passes, and how many there are.
fn count_under(
    root: &serde_json::Value,
    schema: &serde_json::Value,
    key: &str,
    value: &serde_json::Value,
    hops: u128,
    budget: u128,
) -> (r: Option<(usize, usize)>)
    requires
        budget == hop_budget(json_of(*root)),
    ensures
        match passing_of(json_of(*root), json_of(*schema), key@, json_of(*value), hops as nat) {
            Some(n) => r matches Some(m) && m.0 == n.0 && m.1 == n.1,
            None => r is None,
        },
    decreases json_of(*value), hops, json_of(*schema), 0nat,
{
    let listed = match value_get(schema, key) {
        Some(listed) => listed,
        None => {
            return None;
        },
    };
    let subs = match listed.as_array() {
        Some(subs) => subs,
        None => {
            return None;
        },
    };
    let ghost all = json_of(*listed)->Array_0;
    proof {
        lemma_member_decreases(json_of(*schema), key@);
        assert(decreases_to!(json_of(*listed) => json_of(*listed)->Array_0));
    }
    let mut count: usize = 0;
    let mut i: usize = 0;
    assert(all.take(0) =~= Seq::empty());
    while i < subs.len()
        invariant
            i <= subs@.len(),
            count <= i,
            budget == hop_budget(json_of(*root)),
            decreases_to!(json_of(*schema) => all),
            subs@.len() == all.len(),
            forall|k: int| 0 <= k < all.len() ==> json_of(#[trigger] subs@[k]) == all[k],
            count == count_passing(
                json_of(*root),
                all.take(i as int),
                json_of(*value),
                hops as nat,
            ),
        decreases subs@.len() - i,
    {
        assert(decreases_to!(all => all[i as int]));
        let passed = check_node(root, &subs[i], value, hops, budget);
        proof {
            let head = all.take(i + 1);
            assert(head.drop_last() == all.take(i as int));
            assert(head.last() == all[i as int]);
        }
        if passed {
            count += 1;
        }
        i += 1;
    }
    assert(all.take(i as int) == all);
    Some((count, subs.len()))
}

/// `minItems`, `maxItems`, `prefixItems`, `items`.
fn check_array(
    root: &serde_json::Value,
    schema: &serde_json::Value,
    value: &serde_json::Value,
    hops: u128,
    budget: u128,
) -> (r: bool)
    requires
        budget == hop_budget(json_of(*root)),
    ensures
        r == array_holds(json_of(*root), json_of(*schema), json_of(*value), hops as nat),
    decreases json_of(*value), hops, json_of(*schema), 0nat,
{
    let ghost doc = json_of(*value);
    let ghost goal = array_holds(json_of(*root), json_of(*schema), doc, hops as nat);
    let items = match value.as_array() {
        Some(items) => items,
        None => {
            return true;
        },
    };
    let ghost all = doc->Array_0;
    if !check_length(schema, items.len(), "minItems", "maxItems") {
        return false;
    }
    if !check_unique(schema, value) {
        return false;
    }
    match value_get(schema, "contains") {
        Some(each) => {
            let mut count: usize = 0;
            let mut i: usize = 0;
            assert(all.take(0) =~= Seq::empty());
            while i < items.len()
                invariant
                    i <= items@.len(),
                    count <= i,
                    budget == hop_budget(json_of(*root)),
                    doc == json_of(*value),
                    doc == Json::Array(all),
                    items@.len() == all.len(),
                    forall|k: int| 0 <= k < all.len() ==> json_of(#[trigger] items@[k]) == all[k],
                    count == count_items(json_of(*root), json_of(*each), all.take(i as int)),
                decreases items@.len() - i,
            {
                assert(decreases_to!(doc => doc->Array_0));
                assert(decreases_to!(all => all[i as int]));
                let passed = check_node(root, each, &items[i], budget, budget);
                proof {
                    let head = all.take(i + 1);
                    assert(head.drop_last() == all.take(i as int));
                    assert(head.last() == all[i as int]);
                }
                if passed {
                    count += 1;
                }
                i += 1;
            }
            assert(all.take(i as int) == all);
            if !check_contains(schema, count) {
                return false;
            }
        },
        None => {},
    }
    let mut first: usize = 0;
    match value_get(schema, "prefixItems") {
        Some(listed) => match listed.as_array() {
            Some(firsts) => {
                let ghost heads = json_of(*listed)->Array_0;
                let mut i: usize = 0;
                while i < firsts.len() && i < items.len()
                    invariant
                        i <= firsts@.len(),
                        i <= items@.len(),
                        budget == hop_budget(json_of(*root)),
                        doc == json_of(*value),
                        doc == Json::Array(all),
                        items@.len() == all.len(),
                        firsts@.len() == heads.len(),
                        forall|k: int|
                            0 <= k < all.len() ==> json_of(#[trigger] items@[k]) == all[k],
                        forall|k: int|
                            0 <= k < heads.len() ==> json_of(#[trigger] firsts@[k]) == heads[k],
                        json_of(*schema).member("prefixItems"@) == Some(Json::Array(heads)),
                        forall|k: int|
                            0 <= k < i ==> passes_within(
                                json_of(*root),
                                heads[k],
                                #[trigger] all[k],
                                budget as nat,
                            ),
                    decreases items@.len() - i,
                {
                    assert(decreases_to!(doc => doc->Array_0));
                    assert(decreases_to!(all => all[i as int]));
                    if !check_node(root, &firsts[i], &items[i], budget, budget) {
                        assert(!passes_within(
                            json_of(*root),
                            heads[i as int],
                            all[i as int],
                            budget as nat,
                        ));
                        return false;
                    }
                    i += 1;
                }
                first = firsts.len();
            },
            None => {},
        },
        None => {},
    }
    assert(first == prefix_len(json_of(*schema)));
    let each = match value_get(schema, "items") {
        Some(each) => each,
        None => {
            return true;
        },
    };
    let mut i: usize = if first < items.len() {
        first
    } else {
        items.len()
    };
    while i < items.len()
        invariant
            i <= items@.len(),
            first <= i || i == items@.len(),
            budget == hop_budget(json_of(*root)),
            doc == json_of(*value),
            doc == Json::Array(all),
            items@.len() == all.len(),
            forall|k: int| 0 <= k < all.len() ==> json_of(#[trigger] items@[k]) == all[k],
            goal == array_holds(json_of(*root), json_of(*schema), doc, hops as nat),
            goal == (forall|k: int|
                first <= k < all.len() ==> passes_within(
                    json_of(*root),
                    json_of(*each),
                    #[trigger] all[k],
                    budget as nat,
                )),
            forall|k: int|
                first <= k < i ==> passes_within(
                    json_of(*root),
                    json_of(*each),
                    #[trigger] all[k],
                    budget as nat,
                ),
        decreases items@.len() - i,
    {
        assert(decreases_to!(doc => doc->Array_0));
        assert(decreases_to!(all => all[i as int]));
        if !check_node(root, each, &items[i], budget, budget) {
            assert(!passes_within(json_of(*root), json_of(*each), all[i as int], budget as nat));
            return false;
        }
        i += 1;
    }
    true
}

/// `required`, `properties`, `additionalProperties`.
fn check_object(
    root: &serde_json::Value,
    schema: &serde_json::Value,
    value: &serde_json::Value,
    hops: u128,
    budget: u128,
) -> (r: bool)
    requires
        budget == hop_budget(json_of(*root)),
    ensures
        r == object_holds(json_of(*root), json_of(*schema), json_of(*value), hops as nat),
    decreases json_of(*value), hops, json_of(*schema), 0nat,
{
    let ghost doc = json_of(*value);
    let ghost goal = object_holds(json_of(*root), json_of(*schema), doc, hops as nat);
    let members = match value.as_object() {
        Some(members) => members,
        None => {
            return true;
        },
    };
    if !check_length(schema, map_entries(members).len(), "minProperties", "maxProperties") {
        return false;
    }
    if !check_required(schema, value) || !check_dependent_required(schema, value) {
        return false;
    }
    match value_get(schema, "dependentSchemas") {
        Some(listed) => match listed.as_object() {
            Some(map) => {
                let entries = map_entries(map);
                let ghost deps = entries_of(*map);
                proof {
                    lemma_member_decreases(json_of(*schema), "dependentSchemas"@);
                    assert(decreases_to!(json_of(*listed) => json_of(*listed)->Object_0));
                }
                let mut i: usize = 0;
                while i < entries.len()
                    invariant
                        i <= entries@.len(),
                        budget == hop_budget(json_of(*root)),
                        doc == json_of(*value),
                        decreases_to!(json_of(*schema) => deps),
                        json_of(*schema).member("dependentSchemas"@) == Some(Json::Object(deps)),
                        entries@.len() == deps.len(),
                        forall|k: int|
                            0 <= k < deps.len() ==> (#[trigger] entries@[k]).0@ == deps[k].0
                                && json_of(*entries@[k].1) == deps[k].1,
                        forall|k: int|
                            0 <= k < i ==> doc.member((#[trigger] deps[k]).0) is Some
                                ==> passes_within(json_of(*root), deps[k].1, doc, hops as nat),
                    decreases entries@.len() - i,
                {
                    let (name, sub) = entries[i];
                    if value_get(value, name.as_str()).is_some() {
                        assert(decreases_to!(deps => deps[i as int]));
                        assert(decreases_to!(deps[i as int] => deps[i as int].1));
                        if !check_node(root, sub, value, hops, budget) {
                            assert(doc.member(deps[i as int].0) is Some && !passes_within(
                                json_of(*root),
                                deps[i as int].1,
                                doc,
                                hops as nat,
                            ));
                            return false;
                        }
                    }
                    i += 1;
                }
            },
            None => {},
        },
        None => {},
    }
    match value_get(schema, "properties") {
        Some(listed) => match listed.as_object() {
            Some(map) => {
                let entries = map_entries(map);
                let ghost props = entries_of(*map);
                let mut i: usize = 0;
                while i < entries.len()
                    invariant
                        i <= entries@.len(),
                        budget == hop_budget(json_of(*root)),
                        doc == json_of(*value),
                        json_of(*schema).member("properties"@) == Some(Json::Object(props)),
                        entries@.len() == props.len(),
                        forall|k: int|
                            0 <= k < props.len() ==> (#[trigger] entries@[k]).0@ == props[k].0
                                && json_of(*entries@[k].1) == props[k].1,
                        forall|k: int|
                            0 <= k < i ==> match doc.member((#[trigger] props[k]).0) {
                                Some(child) => passes_within(
                                    json_of(*root),
                                    props[k].1,
                                    child,
                                    budget as nat,
                                ),
                                None => true,
                            },
                    decreases entries@.len() - i,
                {
                    let (name, sub) = entries[i];
                    match value_get(value, name.as_str()) {
                        Some(child) => {
                            proof {
                                lemma_member_decreases(doc, name@);
                            }
                            if !check_node(root, sub, child, budget, budget) {
                                assert(doc.member(props[i as int].0) == Some(json_of(*child)));
                                return false;
                            }
                        },
                        None => {},
                    }
                    i += 1;
                }
            },
            None => {},
        },
        None => {},
    }
    let extra = match find_additional(schema) {
        Some(extra) => extra,
        None => {
            return true;
        },
    };
    let entries = map_entries(members);
    let ghost all = doc->Object_0;
    let mut j: usize = 0;
    while j < entries.len()
        invariant
            j <= entries@.len(),
            budget == hop_budget(json_of(*root)),
            doc == json_of(*value),
            doc == Json::Object(all),
            entries@.len() == all.len(),
            forall|k: int|
                0 <= k < all.len() ==> (#[trigger] entries@[k]).0@ == all[k].0 && json_of(
                    *entries@[k].1,
                ) == all[k].1,
            goal == object_holds(json_of(*root), json_of(*schema), doc, hops as nat),
            goal == (forall|k: int|
                0 <= k < all.len() ==> declares(json_of(*schema), (#[trigger] all[k]).0)
                    || passes_within(json_of(*root), json_of(*extra), all[k].1, budget as nat)),
            forall|k: int|
                0 <= k < j ==> declares(json_of(*schema), (#[trigger] all[k]).0) || passes_within(
                    json_of(*root),
                    json_of(*extra),
                    all[k].1,
                    budget as nat,
                ),
        decreases entries@.len() - j,
    {
        let (name, child) = entries[j];
        if !check_declares(schema, name.as_str()) {
            assert(decreases_to!(doc => doc->Object_0));
            assert(decreases_to!(all => all[j as int]));
            assert(decreases_to!(all[j as int] => all[j as int].1));
            if !check_node(root, extra, child, budget, budget) {
                assert(!declares(json_of(*schema), all[j as int].0) && !passes_within(
                    json_of(*root),
                    json_of(*extra),
                    all[j as int].1,
                    budget as nat,
                ));
                return false;
            }
        }
        j += 1;
    }
    true
}

/// Whether `value` breaks none of the held keywords of `schema`, with at most `hops`
/// references followed before the next step into the value.
fn check_node(
    root: &serde_json::Value,
    schema: &serde_json::Value,
    value: &serde_json::Value,
    hops: u128,
    budget: u128,
) -> (r: bool)
    requires
        budget == hop_budget(json_of(*root)),
    ensures
        r == passes_within(json_of(*root), json_of(*schema), json_of(*value), hops as nat),
    decreases json_of(*value), hops, json_of(*schema), 1nat,
{
    match schema.as_bool() {
        Some(admits) => {
            return admits;
        },
        None => {},
    }
    if !check_type(schema, value) || !check_enum(schema, value) || !check_const(schema, value)
        || !check_bounds(schema, value) || !check_string(schema, value) {
        return false;
    }
    if !check_reference(root, schema, value, hops, budget) {
        return false;
    }
    match count_under(root, schema, "allOf", value, hops, budget) {
        Some((passed, listed)) => {
            if passed != listed {
                return false;
            }
        },
        None => {},
    }
    match count_under(root, schema, "anyOf", value, hops, budget) {
        Some((passed, _)) => {
            if passed == 0 {
                return false;
            }
        },
        None => {},
    }
    match count_under(root, schema, "oneOf", value, hops, budget) {
        Some((passed, _)) => {
            if passed != 1 {
                return false;
            }
        },
        None => {},
    }
    match value_get(schema, "not") {
        Some(sub) => {
            proof {
                lemma_member_decreases(json_of(*schema), "not"@);
            }
            if check_node(root, sub, value, hops, budget) {
                return false;
            }
        },
        None => {},
    }
    if !check_condition(root, schema, value, hops, budget) {
        return false;
    }
    if value.as_array().is_some() {
        if !check_array(root, schema, value, hops, budget) {
            return false;
        }
    }
    if value.as_object().is_some() {
        if !check_object(root, schema, value, hops, budget) {
            return false;
        }
    }
    true
}

/// Whether `value` breaks none of the keywords of `schema` that are held here. A value
/// that passes may still break a keyword that is not held: the check stands before a
/// decode into the typed output, not in its place.
pub fn check_against(schema: &schemars::Schema, value: &serde_json::Value) -> (r: bool)
    ensures
        r == passes(schema_json(*schema), json_of(*value)),
{
    let root = schema.as_value();
    let budget = count_hops(root);
    check_node(root, root, value, budget, budget)
}

} // verus!
