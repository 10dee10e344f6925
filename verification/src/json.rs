use vstd::prelude::*;

verus! {

/// A JSON number as serde_json holds it: an integer by its value, a floating-point
/// number by the text that serde_json writes for it. An integer is never the same number
/// as a floating-point number.
pub enum Numeral {
    Integer(int),
    Float(Seq<char>),
}

/// A JSON document as a mathematical value. An object is the sequence of its entries,
/// in the order in which the document that holds them hands them out.
pub enum Json {
    Null,
    Bool(bool),
    Number(Numeral),
    String(Seq<char>),
    Array(Seq<Json>),
    Object(Seq<(Seq<char>, Json)>),
}

/// The value of the first of `entries` that stands under `key`.
pub open spec fn entry_value(entries: Seq<(Seq<char>, Json)>, key: Seq<char>) -> Option<Json>
    decreases entries.len(),
{
    if entries.len() == 0 {
        None
    } else if entries[0].0 == key {
        Some(entries[0].1)
    } else {
        entry_value(entries.skip(1), key)
    }
}

impl Json {
    /// The member of an object under `key`; `None` for a missing key and for whatever is
    /// no object.
    pub open spec fn member(self, key: Seq<char>) -> Option<Json> {
        match self {
            Json::Object(entries) => entry_value(entries, key),
            _ => None,
        }
    }

    /// The value of a number that is held as an integer.
    pub open spec fn integer(self) -> Option<int> {
        match self {
            Json::Number(Numeral::Integer(n)) => Some(n),
            _ => None,
        }
    }
}

/// A value found under a key is one of the entries' values.
pub proof fn lemma_entry_value_index(entries: Seq<(Seq<char>, Json)>, key: Seq<char>)
    ensures
        match entry_value(entries, key) {
            Some(found) => exists|i: int|
                0 <= i < entries.len() && entries[i].0 == key && entries[i].1 == found,
            None => forall|i: int| 0 <= i < entries.len() ==> entries[i].0 != key,
        },
    decreases entries.len(),
{
    if entries.len() > 0 && entries[0].0 != key {
        let rest = entries.skip(1);
        lemma_entry_value_index(rest, key);
        match entry_value(rest, key) {
            Some(found) => {
                let i = choose|i: int| 0 <= i < rest.len() && rest[i].0 == key && rest[i].1 == found;
                assert(entries[i + 1] == rest[i]);
            },
            None => {
                assert forall|i: int| 0 <= i < entries.len() implies entries[i].0 != key by {
                    if i > 0 {
                        assert(entries[i] == rest[i - 1]);
                    }
                }
            },
        }
    }
}

/// A member of a document is smaller than the document.
pub proof fn lemma_member_decreases(doc: Json, key: Seq<char>)
    ensures
        doc.member(key) matches Some(found) ==> decreases_to!(doc => found),
{
    if let Json::Object(entries) = doc {
        lemma_entry_value_index(entries, key);
        if let Some(found) = entry_value(entries, key) {
            let i = choose|i: int| 0 <= i < entries.len() && entries[i].0 == key && entries[i].1 == found;
            assert(decreases_to!(doc => entries));
            assert(decreases_to!(entries => entries[i]));
            assert(decreases_to!(entries[i] => entries[i].1));
        }
    }
}

/// `serde_json::Value`: a JSON document, held as the outside crate holds it.
#[verifier::external_type_specification]
#[verifier::external_body]
pub struct ExValue(serde_json::Value);

/// `serde_json::Map`: the entries of a JSON object, held as the outside crate holds
/// them.
#[verifier::external_type_specification]
#[verifier::external_body]
#[verifier::reject_recursive_types(K)]
#[verifier::reject_recursive_types(V)]
pub struct ExMap<K, V>(serde_json::Map<K, V>);

/// The document that a `serde_json::Value` holds. What is believed of it is what the
/// items below say of the methods of `Value`.
pub uninterp spec fn json_of(v: serde_json::Value) -> Json;

/// The entries that a `serde_json::Map` holds, in the order in which it hands them out.
pub uninterp spec fn entries_of(m: serde_json::Map<String, serde_json::Value>) -> Seq<(Seq<char>, Json)>;

/// The compact JSON text that serde_json writes for a document.
pub uninterp spec fn json_text(doc: Json) -> Seq<char>;

/// What serde_json makes of a text: the document that it reads from it, or its report of
/// why the text is no JSON document.
pub uninterp spec fn parsed_json(text: Seq<char>) -> Result<Json, Seq<char>>;

/// `Value::is_null`: whether the value is JSON's `null`.
pub assume_specification[ serde_json::Value::is_null ](v: &serde_json::Value) -> (r: bool)
    ensures
        r == (json_of(*v) is Null),
;

/// `Value::as_bool`: the truth value of a boolean, `None` for any other value.
pub assume_specification[ serde_json::Value::as_bool ](v: &serde_json::Value) -> (r: Option<bool>)
    ensures
        match json_of(*v) {
            Json::Bool(b) => r == Some(b),
            _ => r is None,
        },
;

/// `Value::is_number`: whether the value is a number.
pub assume_specification[ serde_json::Value::is_number ](v: &serde_json::Value) -> (r: bool)
    ensures
        r == (json_of(*v) is Number),
;

/// `Value::is_f64`: whether the value is a number that is held as a floating-point number.
pub assume_specification[ serde_json::Value::is_f64 ](v: &serde_json::Value) -> (r: bool)
    ensures
        r == (json_of(*v) matches Json::Number(Numeral::Float(_))),
;

/// `Value::as_i64`: the value of an integer that is at most `i64::MAX`, `None` for any
/// other value. An integer is held as an `i64` below zero and as a `u64` from zero on.
pub assume_specification[ serde_json::Value::as_i64 ](v: &serde_json::Value) -> (r: Option<i64>)
    ensures
        match json_of(*v) {
            Json::Number(Numeral::Integer(n)) => i64::MIN <= n <= u64::MAX && (if n <= i64::MAX {
                r == Some(n as i64)
            } else {
                r is None
            }),
            _ => r is None,
        },
;

/// `Value::as_u64`: the value of an integer that is not below zero, `None` for any other
/// value.
pub assume_specification[ serde_json::Value::as_u64 ](v: &serde_json::Value) -> (r: Option<u64>)
    ensures
        match json_of(*v) {
            Json::Number(Numeral::Integer(n)) => i64::MIN <= n <= u64::MAX && (if 0 <= n {
                r == Some(n as u64)
            } else {
                r is None
            }),
            _ => r is None,
        },
;

/// `Value::as_str`: the characters of a string, `None` for any other value.
pub assume_specification<'a>[ serde_json::Value::as_str ](v: &'a serde_json::Value) -> (r: Option<
    &'a str,
>)
    ensures
        match json_of(*v) {
            Json::String(s) => r is Some && r->0@ == s,
            _ => r is None,
        },
;

/// `Value::as_array`: the elements of an array in their order, `None` for any other value.
pub assume_specification<'a>[ serde_json::Value::as_array ](v: &'a serde_json::Value) -> (r:
    Option<&'a Vec<serde_json::Value>>)
    ensures
        match json_of(*v) {
            Json::Array(items) => r is Some && r->0@.len() == items.len() && forall|i: int|
                0 <= i < items.len() ==> json_of(#[trigger] r->0@[i]) == items[i],
            _ => r is None,
        },
;

/// `Value::as_object`: the map of an object, `None` for any other value.
pub assume_specification<'a>[ serde_json::Value::as_object ](v: &'a serde_json::Value) -> (r:
    Option<&'a serde_json::Map<String, serde_json::Value>>)
    ensures
        match json_of(*v) {
            Json::Object(entries) => r is Some && entries_of(*r->0) == entries,
            _ => r is None,
        },
;

/// `Map::iter`, collected: the entries of a map, each key with its value, in the map's
/// order.
#[verifier::external_body]
pub(crate) fn map_entries<'a>(m: &'a serde_json::Map<String, serde_json::Value>) -> (r: Vec<
    (&'a String, &'a serde_json::Value),
>)
    ensures
        r@.len() == entries_of(*m).len(),
        forall|i: int|
            0 <= i < r@.len() ==> (#[trigger] r@[i]).0@ == entries_of(*m)[i].0 && json_of(
                *r@[i].1,
            ) == entries_of(*m)[i].1,
{
    m.iter().collect()
}

/// `Value::get` with a string: the member of an object under that key, `None` for a
/// missing key and for a value that is no object.
#[verifier::external_body]
pub(crate) fn value_get<'a>(v: &'a serde_json::Value, key: &str) -> (r: Option<
    &'a serde_json::Value,
>)
    ensures
        match json_of(*v).member(key@) {
            Some(found) => r is Some && json_of(*r->0) == found,
            None => r is None,
        },
{
    v.get(key)
}

/// `Display for Value`: the compact JSON text of the value; for a floating-point number
/// that is the text by which the number is known here. The text is written into memory,
/// and a `Value` holds nothing that the writer turns down, so it always comes.
#[verifier::external_body]
pub(crate) fn value_text(v: &serde_json::Value) -> (r: String)
    ensures
        r@ == json_text(json_of(*v)),
        json_of(*v) matches Json::Number(Numeral::Float(text)) ==> r@ == text,
{
    v.to_string()
}

/// `serde_json::from_str`, reading a `Value`: the document that the text holds, or,
/// where the text is no JSON document, serde_json's report of what is wrong with it.
#[verifier::external_body]
pub(crate) fn parse_value(text: &str) -> (r: Result<serde_json::Value, String>)
    ensures
        match parsed_json(text@) {
            Ok(doc) => r is Ok && json_of(r->Ok_0) == doc,
            Err(report) => r is Err && r->Err_0@ == report,
        },
{
    match serde_json::from_str(text) {
        Ok(value) => Ok(value),
        Err(e) => Err(e.to_string()),
    }
}

} // verus!
