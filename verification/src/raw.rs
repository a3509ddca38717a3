//! The raw schedule document: a tree of plain values as parsed from the
//! JSON source, and the trusted boundary to the `json` crate that
//! produces it. Objects keep their entries in document order.

use vstd::prelude::*;

use crate::schedule::ScheduleError;

verus! {

/// A node of the raw document tree. Numbers are carried as the numeral
/// text the source wrote, since the schedule only ever reads small
/// integers out of them.
#[derive(Debug)]
pub enum RawValue {
    Null,
    Bool(bool),
    Text(String),
    Number(String),
    List(Vec<RawValue>),
    Object(Vec<(String, RawValue)>),
}

/// What the `json` crate parses the given text to, carried over into
/// the library's own tree, or `None` when the text is not valid JSON.
/// The result is a function of the text alone.
pub uninterp spec fn json_tree_of(s: Seq<char>) -> Option<RawValue>;

/// The library's reading of a parsed `json::JsonValue`: the same tree,
/// variant for variant, with arrays and objects in the order the
/// document gives them.
pub uninterp spec fn raw_model(v: json::JsonValue) -> RawValue;

#[verifier::external_type_specification]
#[verifier::external_body]
pub struct ExJsonValue(json::JsonValue);

/// Relies on json::parse: whether it succeeds, and the tree it builds,
/// depend on the text alone.
#[verifier::external_body]
fn json_parse(text: &str) -> (r: Option<json::JsonValue>)
    ensures
        match r {
            Some(v) => json_tree_of(text@) == Some(raw_model(v)),
            None => json_tree_of(text@) is None,
        },
{
    json::parse(text).ok()
}

/// Relies on the json crate's JsonValue and Object: iteration yields an
/// object's entries in insertion order, which is the document's own
/// order; each variant is carried over one for one.
#[verifier::external_body]
fn raw_of(v: &json::JsonValue) -> (r: RawValue)
    ensures
        r == raw_model(*v),
{
    match v {
        json::JsonValue::Null => RawValue::Null,
        json::JsonValue::Boolean(b) => RawValue::Bool(*b),
        json::JsonValue::Short(s) => RawValue::Text(s.as_str().to_string()),
        json::JsonValue::String(s) => RawValue::Text(s.clone()),
        json::JsonValue::Number(n) => RawValue::Number(n.to_string()),
        json::JsonValue::Array(items) => RawValue::List(items.iter().map(raw_of).collect()),
        json::JsonValue::Object(o) => RawValue::Object(
            o.iter().map(|(k, w)| (k.to_string(), raw_of(w))).collect(),
        ),
    }
}

/// Parses the schedule export's text into the raw document tree.
/// Returns `MalformedSchedule` exactly when the text is not valid JSON.
pub fn parse_document(text: &str) -> (r: Result<RawValue, ScheduleError>)
    ensures
        match r {
            Ok(v) => json_tree_of(text@) == Some(v),
            Err(e) => json_tree_of(text@) is None && e == ScheduleError::MalformedSchedule,
        },
{
    match json_parse(text) {
        Some(v) => Ok(raw_of(&v)),
        None => Err(ScheduleError::MalformedSchedule),
    }
}

/// Relies on str's PartialEq: two string slices are equal exactly when
/// their characters are.
#[verifier::external_body]
pub(crate) fn str_eq(a: &str, b: &str) -> (r: bool)
    ensures
        r == (a@ == b@),
{
    a == b
}

/// The first entry of an object with the given key, or `None` when no
/// entry has it.
pub open spec fn spec_lookup(entries: Seq<(String, RawValue)>, key: Seq<char>) -> Option<
    RawValue,
>
    decreases entries.len(),
{
    if entries.len() == 0 {
        None
    } else if entries[0].0@ == key {
        Some(entries[0].1)
    } else {
        spec_lookup(entries.drop_first(), key)
    }
}

/// Looks a key up in an object's entries, first match wins.
pub fn lookup<'a>(entries: &'a Vec<(String, RawValue)>, key: &str) -> (r: Option<&'a RawValue>)
    ensures
        match r {
            Some(v) => spec_lookup(entries@, key@) == Some(*v),
            None => spec_lookup(entries@, key@) is None,
        },
{
    let n = entries.len();
    let mut i: usize = 0;
    proof {
        assert(entries@.skip(0) =~= entries@);
    }
    while i < n
        invariant
            i <= n,
            n == entries@.len(),
            spec_lookup(entries@, key@) == spec_lookup(entries@.skip(i as int), key@),
        decreases n - i,
    {
        proof {
            assert(entries@.skip(i as int)[0] == entries@[i as int]);
            assert(entries@.skip(i as int).drop_first() =~= entries@.skip(i as int + 1));
        }
        if str_eq(entries[i].0.as_str(), key) {
            return Some(&entries[i].1);
        }
        i = i + 1;
    }
    proof {
        assert(entries@.skip(n as int).len() == 0);
    }
    None
}

} // verus!
