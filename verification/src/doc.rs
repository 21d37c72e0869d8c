//! The parsed export document. The document is held as an opaque
//! `serde_json::Value`; a ghost model gives its shape to the contracts, and
//! small trusted wrappers expose the few accessors the aggregation needs.
use vstd::prelude::*;

verus! {

use crate::DropError;
use crate::digits::{valid_shares, dec_val, int_part};

/// The ghost shape of a document value: a string, an array, an object keyed
/// by field name, or anything else (a number, a boolean, null).
pub enum JsonVal {
    Str(Seq<char>),
    Arr(Seq<JsonVal>),
    Obj(Map<Seq<char>, JsonVal>),
    Other,
}

#[verifier::external_type_specification]
#[verifier::external_body]
pub struct ExValue(serde_json::Value);

#[verifier::external_type_specification]
#[verifier::external_body]
pub struct ExError(serde_json::Error);

/// The shape of a parsed document value.
pub uninterp spec fn model(v: serde_json::Value) -> JsonVal;

/// What parsing a text yields: `Some` shape for well-formed JSON, `None`
/// otherwise.
pub uninterp spec fn parsed_doc(s: Seq<char>) -> Option<JsonVal>;

/// Relies on serde_json::from_str: the result is a function of the text
/// alone, and is the document's value exactly when the text is well-formed
/// JSON.
#[verifier::external_body]
pub(crate) fn parse_document(s: &str) -> (r: Result<serde_json::Value, serde_json::Error>)
    ensures
        match parsed_doc(s@) {
            Some(j) => r matches Ok(v) && model(v) == j,
            None => r is Err,
        },
{
    serde_json::from_str::<serde_json::Value>(s)
}

/// Relies on serde_json::Value::get with a string key: on an object it looks
/// the key up; on any other value it returns None.
#[verifier::external_body]
pub(crate) fn get_field<'a>(v: &'a serde_json::Value, key: &str) -> (r: Option<
    &'a serde_json::Value,
>)
    ensures
        match model(*v) {
            JsonVal::Obj(m) => {
                if m.contains_key(key@) {
                    r matches Some(f) && model(*f) == m[key@]
                } else {
                    r is None
                }
            },
            _ => r is None,
        },
{
    v.get(key)
}

/// Relies on serde_json::Value::as_array: the elements of an array value,
/// None for any other value.
#[verifier::external_body]
pub(crate) fn as_array<'a>(v: &'a serde_json::Value) -> (r: Option<&'a Vec<serde_json::Value>>)
    ensures
        match model(*v) {
            JsonVal::Arr(items) => r matches Some(a) && a@.len() == items.len() && (forall|i: int|
                0 <= i < items.len() ==> model(#[trigger] a@[i]) == items[i]),
            _ => r is None,
        },
{
    v.as_array()
}

/// Relies on serde_json::Value::as_str: the characters of a string value,
/// None for any other value.
#[verifier::external_body]
pub(crate) fn as_str<'a>(v: &'a serde_json::Value) -> (r: Option<&'a str>)
    ensures
        match model(*v) {
            JsonVal::Str(s) => r matches Some(t) && t@ == s,
            _ => r is None,
        },
{
    v.as_str()
}

/// The value of an object's field, when the value is an object that has it.
pub open spec fn field(j: JsonVal, k: Seq<char>) -> Option<JsonVal> {
    match j {
        JsonVal::Obj(m) => if m.contains_key(k) {
            Some(m[k])
        } else {
            None
        },
        _ => None,
    }
}

/// The delegations list at `app_state.staking.delegations`, when that path
/// exists and holds an array.
pub open spec fn delegations_of(j: JsonVal) -> Option<Seq<JsonVal>> {
    match field(j, "app_state"@) {
        Some(st) => match field(st, "staking"@) {
            Some(sk) => match field(sk, "delegations"@) {
                Some(d) => match d {
                    JsonVal::Arr(items) => Some(items),
                    _ => None,
                },
                None => None,
            },
            None => None,
        },
        None => None,
    }
}

/// One delegation record's address and truncated shares units, when the
/// record has both fields as strings and the shares value fits in a `u128`.
pub open spec fn record_of(j: JsonVal) -> Option<(Seq<char>, u128)> {
    match field(j, "delegator_address"@) {
        Some(JsonVal::Str(addr)) => match field(j, "shares"@) {
            Some(JsonVal::Str(sh)) => if valid_shares(sh) && dec_val(int_part(sh))
                <= u128::MAX {
                Some((addr, dec_val(int_part(sh)) as u128))
            } else {
                None
            },
            _ => None,
        },
        _ => None,
    }
}

/// Reads one delegation record: its delegator address and its shares value
/// truncated to whole units; any missing or mistyped field is a schema error.
pub fn extract_record(v: &serde_json::Value) -> (r: Result<(String, u128), DropError>)
    ensures
        match record_of(model(*v)) {
            Some(p) => r matches Ok(q) && q.0@ == p.0 && q.1 == p.1,
            None => r == Err::<(String, u128), DropError>(DropError::Schema),
        },
{
    let addr = match get_field(v, "delegator_address") {
        Some(f) => match as_str(f) {
            Some(a) => a,
            None => {
                return Err(DropError::Schema);
            },
        },
        None => {
            return Err(DropError::Schema);
        },
    };
    let sh = match get_field(v, "shares") {
        Some(f) => match as_str(f) {
            Some(x) => x,
            None => {
                return Err(DropError::Schema);
            },
        },
        None => {
            return Err(DropError::Schema);
        },
    };
    let units = match crate::digits::parse_shares(sh) {
        Ok(u) => u,
        Err(_) => {
            return Err(DropError::Schema);
        },
    };
    Ok((addr.to_owned(), units))
}

} // verus!
