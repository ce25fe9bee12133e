//! The structured-document model: a tagged union mirroring JSON values,
//! produced from candidate fragment text by the parser.

use vstd::prelude::*;

verus! {

use vstd::string::StringExecFns;
use crate::text::str_eq;

/// A parsed structured document.
///
/// Numbers keep both their source rendering and their integer value, when
/// they have one; composite values keep the compact rendering of their
/// subtree, which value sampling uses when a composite stands as an array
/// element.
pub enum Json {
    Null,
    Bool(bool),
    Num { text: String, whole: Option<i64> },
    Text(String),
    Arr { items: Vec<Json>, text: String },
    Obj { entries: Vec<(String, Json)>, text: String },
}

#[verifier::external_type_specification]
#[verifier::external_body]
pub struct ExValue(serde_json::Value);

/// The value that parsing the given text yields, or nothing when the text
/// is not well-formed JSON.
pub uninterp spec fn parsed_value(s: Seq<char>) -> Option<serde_json::Value>;

/// The document that mirrors the given parsed value.
pub uninterp spec fn value_doc(v: serde_json::Value) -> Json;

/// Relies on `serde_json::from_str::<Value>`: it returns `Ok` exactly on
/// well-formed JSON text, and the value returned is a function of the text
/// alone.
#[verifier::external_body]
fn parse_value(s: &str) -> (r: Option<serde_json::Value>)
    ensures
        r == parsed_value(s@),
{
    serde_json::from_str::<serde_json::Value>(s).ok()
}

/// Relies on `serde_json::Value`'s variant structure, `Number::to_string`
/// and `Number::as_i64`, and `Value`'s `Display` implementation (the
/// compact JSON rendering): each is a function of the value alone.
#[verifier::external_body]
fn value_to_doc(v: &serde_json::Value) -> (r: Json)
    ensures
        r == value_doc(*v),
{
    match v {
        serde_json::Value::Null => Json::Null,
        serde_json::Value::Bool(b) => Json::Bool(*b),
        serde_json::Value::Number(n) => Json::Num { text: n.to_string(), whole: n.as_i64() },
        serde_json::Value::String(s) => Json::Text(s.clone()),
        serde_json::Value::Array(a) => Json::Arr {
            items: a.iter().map(value_to_doc).collect(),
            text: v.to_string(),
        },
        serde_json::Value::Object(m) => Json::Obj {
            entries: m.iter().map(|(k, x)| (k.clone(), value_to_doc(x))).collect(),
            text: v.to_string(),
        },
    }
}

/// The document that the given fragment text parses to, or nothing when it
/// is not well-formed.
pub open spec fn spec_parse_json(s: Seq<char>) -> Option<Json> {
    match parsed_value(s) {
        Some(v) => Some(value_doc(v)),
        None => None,
    }
}

/// Parses one candidate fragment into a structured document.
pub fn parse_json(s: &str) -> (r: Option<Json>)
    ensures
        r == spec_parse_json(s@),
{
    match parse_value(s) {
        Some(v) => Some(value_to_doc(&v)),
        None => None,
    }
}

/// The first entry of the association list whose key holds the characters
/// `k`.
pub open spec fn assoc_get(es: Seq<(String, Json)>, k: Seq<char>) -> Option<Json>
    decreases es.len(),
{
    if es.len() == 0 {
        None
    } else if es[0].0@ == k {
        Some(es[0].1)
    } else {
        assoc_get(es.drop_first(), k)
    }
}

/// The value at the given key of an object document. A non-object document
/// has no fields.
pub open spec fn get_field(d: Json, k: Seq<char>) -> Option<Json> {
    match d {
        Json::Obj { entries, .. } => assoc_get(entries@, k),
        _ => None,
    }
}

/// Looks a key up in an object document.
pub fn get_field_exec<'a>(d: &'a Json, k: &str) -> (r: Option<&'a Json>)
    ensures
        match r {
            Some(v) => get_field(*d, k@) == Some(*v),
            None => get_field(*d, k@) is None,
        },
{
    match d {
        Json::Obj { entries, .. } => {
            proof {
                assert(entries@.skip(0) =~= entries@);
            }
            let mut i: usize = 0;
            while i < entries.len()
                invariant
                    i <= entries.len(),
                    *d is Obj,
                    d->Obj_entries == *entries,
                    assoc_get(entries@, k@) == assoc_get(entries@.skip(i as int), k@),
                decreases entries.len() - i,
            {
                if str_eq(entries[i].0.as_str(), k) {
                    proof {
                        assert(entries@.skip(i as int)[0] == entries@[i as int]);
                        assert(assoc_get(entries@.skip(i as int), k@) == Some(
                            entries@[i as int].1,
                        ));
                        assert(get_field(*d, k@) == assoc_get(entries@, k@));
                    }
                    return Some(&entries[i].1);
                }
                proof {
                    assert(entries@.skip(i as int).drop_first() =~= entries@.skip(i + 1));
                }
                i = i + 1;
            }
            None
        },
        _ => None,
    }
}

/// The string form an array element contributes to a sampled value: string
/// elements stand verbatim, every other element stands as its compact
/// rendering.
pub open spec fn elem_str(j: Json) -> Seq<char> {
    match j {
        Json::Null => "null"@,
        Json::Bool(b) => if b {
            "true"@
        } else {
            "false"@
        },
        Json::Num { text, .. } => text@,
        Json::Text(s) => s@,
        Json::Arr { text, .. } => text@,
        Json::Obj { text, .. } => text@,
    }
}

/// Builds the string form of one array element.
pub fn elem_str_exec(j: &Json) -> (r: String)
    ensures
        r@ == elem_str(*j),
{
    match j {
        Json::Null => String::from_str("null"),
        Json::Bool(b) => if *b {
            String::from_str("true")
        } else {
            String::from_str("false")
        },
        Json::Num { text, .. } => text.clone(),
        Json::Text(s) => s.clone(),
        Json::Arr { text, .. } => text.clone(),
        Json::Obj { text, .. } => text.clone(),
    }
}

} // verus!

