//! Composer's `config.json` as text: serde_json reads it into a `JsonValue`
//! document and writes the changed document back, pretty-printed.
use vstd::prelude::*;

use crate::composer_config::{
    doc_mirror, doc_packagist_url, repo_written, set_composer_repo_doc, JsonValue,
};
use crate::dev_tools::opt_view;

verus! {

#[verifier::external_type_specification]
#[verifier::external_body]
pub struct ExSerdeJsonValue(serde_json::Value);

/// The document serde_json reads from a text; none where it refuses the text.
pub uninterp spec fn json_doc_of(text: Seq<char>) -> Option<JsonValue>;

/// The text serde_json's pretty printer writes for a document.
pub uninterp spec fn json_text_of(doc: JsonValue) -> Seq<char>;

/// Calls `serde_json::from_str` for serde_json's `Value` and converts the
/// value variant for variant (numbers by the text serde_json prints for
/// them). The contract only names the result: what serde_json accepts and
/// what it makes of it are not restated here.
#[verifier::external_body]
fn parse_config_json(text: &str) -> (r: Option<JsonValue>)
    ensures
        r == json_doc_of(text@),
{
    match serde_json::from_str::<serde_json::Value>(text) {
        Ok(v) => Some(json_from_serde(v)),
        Err(_) => None,
    }
}

/// serde_json's `Value` as a `JsonValue`, one variant for the other; only
/// `parse_config_json` uses it, and it states nothing on its own.
#[verifier::external_body]
fn json_from_serde(v: serde_json::Value) -> JsonValue {
    match v {
        serde_json::Value::Null => JsonValue::Null,
        serde_json::Value::Bool(b) => JsonValue::Bool(b),
        serde_json::Value::Number(n) => JsonValue::Number(n.to_string()),
        serde_json::Value::String(s) => JsonValue::Str(s),
        serde_json::Value::Array(a) => JsonValue::Array(a.into_iter().map(json_from_serde).collect()),
        serde_json::Value::Object(m) => JsonValue::Object(
            m.into_iter().map(|(k, x)| (k, json_from_serde(x))).collect(),
        ),
    }
}

/// Calls `serde_json::to_string_pretty` on the document converted to
/// serde_json's `Value` variant for variant (object entries inserted in
/// order; a number text serde_json does not read becomes `null`). The
/// contract only names the text: its layout is serde_json's.
#[verifier::external_body]
fn config_json_text(doc: &JsonValue) -> (s: String)
    ensures
        s@ == json_text_of(*doc),
{
    serde_json::to_string_pretty(&serde_from_json(doc)).unwrap_or_default()
}

/// A `JsonValue` as serde_json's `Value`; only `config_json_text` uses it,
/// and it states nothing on its own.
#[verifier::external_body]
fn serde_from_json(doc: &JsonValue) -> serde_json::Value {
    match doc {
        JsonValue::Null => serde_json::Value::Null,
        JsonValue::Bool(b) => serde_json::Value::Bool(*b),
        JsonValue::Number(n) => n.parse::<serde_json::Number>().map(serde_json::Value::Number).unwrap_or(
            serde_json::Value::Null,
        ),
        JsonValue::Str(s) => serde_json::Value::String(s.clone()),
        JsonValue::Array(a) => serde_json::Value::Array(a.iter().map(serde_from_json).collect()),
        JsonValue::Object(es) => serde_json::Value::Object(
            es.iter().map(|(k, x)| (k.clone(), serde_from_json(x))).collect(),
        ),
    }
}

/// `v` is an object without entries.
pub open spec fn empty_object(v: JsonValue) -> bool {
    v matches JsonValue::Object(es) && es@.len() == 0
}

/// `doc` is the document of a `config.json` whose text is `content`
/// (none: no file): what serde_json reads from it, or an empty object
/// where there is no file or serde_json refuses the text.
pub open spec fn config_doc(content: Option<Seq<char>>, doc: JsonValue) -> bool {
    match content {
        Some(t) => match json_doc_of(t) {
            Some(d) => doc == d,
            None => empty_object(doc),
        },
        None => empty_object(doc),
    }
}

/// The packagist mirror the text of a `config.json` configures; none where
/// it configures none or serde_json refuses the text.
pub fn composer_repo_of(content: &str) -> (r: Option<String>)
    ensures
        opt_view(r) == match json_doc_of(content@) {
            Some(d) => doc_mirror(d),
            None => None,
        },
{
    match parse_config_json(content) {
        Some(doc) => doc_packagist_url(&doc),
        None => None,
    }
}

/// The new text of a `config.json` whose text is `content` (none: no file)
/// once packagist points at `url` (empty: back to the official source): the
/// serialisation of a document that `repo_written` relates to the file's
/// document. So the mirror read back from that document is `url`, the
/// `repo` key of `config` is gone, and every other key keeps its value.
pub fn set_composer_repo_text(content: Option<&str>, url: &str) -> (out: String)
    ensures
        exists|before: JsonValue, after: JsonValue|
            #![trigger repo_written(before, url@, after)]
            config_doc(opt_str_view(content), before) && out@ == json_text_of(after) && repo_written(
                before,
                url@,
                after,
            ),
{
    let doc = match content {
        Some(text) => match parse_config_json(text) {
            Some(d) => d,
            None => JsonValue::Object(Vec::new()),
        },
        None => JsonValue::Object(Vec::new()),
    };
    let ghost before = doc;
    proof {
        assert(config_doc(opt_str_view(content), before));
    }
    let after = set_composer_repo_doc(doc, url);
    proof {
        assert(repo_written(before, url@, after));
    }
    config_json_text(&after)
}

/// The view of an optional text.
pub open spec fn opt_str_view(s: Option<&str>) -> Option<Seq<char>> {
    match s {
        Some(t) => Some(t@),
        None => None,
    }
}

} // verus!
