//! Documents in JSON and TOML, as the `serde_json` and `toml` crates read them. A
//! value is seen as the strings in it, each under the keys that lead to it.
use vstd::prelude::*;

verus! {

/// What stands below one key.
pub open spec fn under(m: Map<Seq<Seq<char>>, Seq<char>>, key: Seq<char>) -> Map<
    Seq<Seq<char>>,
    Seq<char>,
> {
    Map::new(
        |path: Seq<Seq<char>>| m.contains_key(seq![key] + path),
        |path: Seq<Seq<char>>| m[seq![key] + path],
    )
}

/// The string under some keys, if there is one.
pub open spec fn string_at(m: Map<Seq<Seq<char>>, Seq<char>>, path: Seq<Seq<char>>) -> Option<
    Seq<char>,
> {
    if m.contains_key(path) {
        Some(m[path])
    } else {
        None
    }
}

/// The string under some keys of a document, if the text is one and holds it.
pub open spec fn string_in(doc: Option<Map<Seq<Seq<char>>, Seq<char>>>, path: Seq<Seq<char>>) -> Option<
    Seq<char>,
> {
    match doc {
        Some(m) => string_at(m, path),
        None => None,
    }
}

/// A parsed JSON value.
#[verifier::external_type_specification]
#[verifier::external_body]
pub struct ExJson(serde_json::Value);

/// The strings that a JSON value holds, each under the keys that lead to it
/// through objects. A value that is itself a string stands under no keys.
pub uninterp spec fn serde_json_strings(v: serde_json::Value) -> Map<Seq<Seq<char>>, Seq<char>>;

/// What `serde_json::from_str::<Value>` reads from a text: the strings of the value, or nothing where
/// the text is refused.
pub uninterp spec fn serde_json_document(text: Seq<char>) -> Option<Map<Seq<Seq<char>>, Seq<char>>>;

/// `serde_json::from_str::<Value>`. Which texts it takes, and as what, is only named here.
#[verifier::external_body]
pub(crate) fn parse_serde_json(text: &str) -> (r: Option<serde_json::Value>)
    ensures
        match r {
            Some(v) => serde_json_document(text@) == Some(serde_json_strings(v)),
            None => serde_json_document(text@) is None,
        },
{
    serde_json::from_str(text).ok()
}

/// `Value::get` with a text index: the value under a key of an object, so the strings
/// whose first key it is; nothing for any other value or a missing key.
#[verifier::external_body]
pub(crate) fn serde_json_get<'a>(v: &'a serde_json::Value, key: &str) -> (r: Option<&'a serde_json::Value>)
    ensures
        match r {
            Some(w) => serde_json_strings(*w) == under(serde_json_strings(*v), key@),
            None => under(serde_json_strings(*v), key@) == Map::<Seq<Seq<char>>, Seq<char>>::empty(),
        },
{
    v.get(key)
}

/// `Value::as_str`: the text of a value that is a string.
#[verifier::external_body]
pub(crate) fn serde_json_str<'a>(v: &'a serde_json::Value) -> (r: Option<&'a str>)
    ensures
        match r {
            Some(s) => string_at(serde_json_strings(*v), Seq::empty()) == Some(s@),
            None => string_at(serde_json_strings(*v), Seq::empty()) is None,
        },
{
    v.as_str()
}

/// A parsed TOML value.
#[verifier::external_type_specification]
#[verifier::external_body]
pub struct ExToml(toml::Value);

/// The strings that a TOML value holds, each under the keys that lead to it
/// through tables. A value that is itself a string stands under no keys.
pub uninterp spec fn toml_strings(v: toml::Value) -> Map<Seq<Seq<char>>, Seq<char>>;

/// What `str::parse::<toml::Value>` reads from a text: the strings of the value, or nothing where
/// the text is refused.
pub uninterp spec fn toml_document(text: Seq<char>) -> Option<Map<Seq<Seq<char>>, Seq<char>>>;

/// `str::parse::<toml::Value>`. Which texts it takes, and as what, is only named here.
#[verifier::external_body]
pub(crate) fn parse_toml(text: &str) -> (r: Option<toml::Value>)
    ensures
        match r {
            Some(v) => toml_document(text@) == Some(toml_strings(v)),
            None => toml_document(text@) is None,
        },
{
    text.parse().ok()
}

/// `Value::get` with a text index: the value under a key of a table, so the strings
/// whose first key it is; nothing for any other value or a missing key.
#[verifier::external_body]
pub(crate) fn toml_get<'a>(v: &'a toml::Value, key: &str) -> (r: Option<&'a toml::Value>)
    ensures
        match r {
            Some(w) => toml_strings(*w) == under(toml_strings(*v), key@),
            None => under(toml_strings(*v), key@) == Map::<Seq<Seq<char>>, Seq<char>>::empty(),
        },
{
    v.get(key)
}

/// `Value::as_str`: the text of a value that is a string.
#[verifier::external_body]
pub(crate) fn toml_str<'a>(v: &'a toml::Value) -> (r: Option<&'a str>)
    ensures
        match r {
            Some(s) => string_at(toml_strings(*v), Seq::empty()) == Some(s@),
            None => string_at(toml_strings(*v), Seq::empty()) is None,
        },
{
    v.as_str()
}

} // verus!
