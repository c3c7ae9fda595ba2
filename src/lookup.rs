use vstd::prelude::*;
use crate::doc::{polygons, polygons_of};
use crate::parse::texts;

verus! {

#[verifier::external_type_specification]
#[verifier::external_body]
pub struct ExValue(serde_json::Value);

#[verifier::external_type_specification]
#[verifier::external_body]
pub struct ExJsonError(serde_json::Error);

/// Why a glyph lookup response gives no outline.
#[derive(Clone, Copy, Debug, PartialEq, Eq, Structural)]
pub enum LookupError {
    /// The response is not JSON.
    BadJson,
    /// The response holds no entry for the looked-up sequence.
    NoEntry,
    /// The entry holds no outline.
    NoOutline,
}

/// Whether `serde_json` reads the text as a JSON document.
pub uninterp spec fn json_parses(s: Seq<char>) -> bool;

/// Relies on `serde_json::from_str`: reads a JSON document; whether it succeeds
/// depends on the text alone.
#[verifier::external_body]
fn parse_json(s: &str) -> (r: Result<serde_json::Value, serde_json::Error>)
    ensures
        r is Ok <==> json_parses(s@),
{
    serde_json::from_str::<serde_json::Value>(s)
}

/// Relies on `serde_json::Value::get`: the member of an object under `key`.
#[verifier::external_body]
fn json_member<'a>(v: &'a serde_json::Value, key: &str) -> (r: Option<&'a serde_json::Value>) {
    v.get(key)
}

/// Relies on `serde_json::Value`'s `Display`: the value written as compact JSON.
#[verifier::external_body]
fn json_text(v: &serde_json::Value) -> (r: String) {
    v.to_string()
}

/// Reads the outline of the ideographic description sequence `ids` from a
/// lookup response: the member `ids` of the document, then its member `svg`,
/// whose JSON text is split into polygons. A response that is not JSON gives
/// `BadJson`; which members a document holds is not modelled, so for a JSON
/// response only the shape of the result is stated.
pub fn outline_of_response(resp: &str, ids: &str) -> (r: Result<Vec<String>, LookupError>)
    ensures
        r == Err::<Vec<String>, LookupError>(LookupError::BadJson) <==> !json_parses(resp@),
        r is Ok ==> exists|s: Seq<char>| texts(r->Ok_0@) == polygons_of(s),
{
    let doc = match parse_json(resp) {
        Ok(doc) => doc,
        Err(_) => return Err(LookupError::BadJson),
    };
    let entry = match json_member(&doc, ids) {
        Some(e) => e,
        None => return Err(LookupError::NoEntry),
    };
    let svg = match json_member(entry, "svg") {
        Some(s) => s,
        None => return Err(LookupError::NoOutline),
    };
    let text = json_text(svg);
    Ok(polygons(&text))
}

} // verus!
