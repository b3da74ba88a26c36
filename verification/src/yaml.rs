//! A YAML document as plain data, with a trusted bridge to serde_yaml.
//!
//! The pipeline's documents (remote descriptors, pointers, manifests) are
//! YAML. Parsing proper is serde_yaml's work; everything that reads the
//! parsed tree is verified here against the plain [`Yaml`] type.

use crate::strutil::str_eq;
use vstd::prelude::*;

verus! {

/// A parsed YAML document as plain data.
///
/// Mapping entries keep document order; a number is carried as its
/// decimal text; a tag is dropped in favour of the tagged value.
#[derive(Debug)]
pub enum Yaml {
    Null,
    Bool(bool),
    Num(String),
    Str(String),
    List(Vec<Yaml>),
    Mapping(Vec<(Yaml, Yaml)>),
}

#[verifier::external_type_specification]
#[verifier::external_body]
pub struct ExYamlValue(serde_yaml::Value);

/// The result of parsing a text as YAML: `None` exactly on invalid text.
pub uninterp spec fn yaml_of(s: Seq<char>) -> Option<Yaml>;

/// Carrier for [`parse_yaml_text`]: rebuilds a `serde_yaml::Value` as the
/// crate's plain tree, variant by variant. Relies on
/// `serde_yaml::Mapping::iter` yielding entries in document order and on
/// `serde_yaml::Number`'s `Display` for the text of a number.
#[verifier::external_body]
fn plain_of_value(v: &serde_yaml::Value) -> Yaml {
    match v {
        serde_yaml::Value::Null => Yaml::Null,
        serde_yaml::Value::Bool(b) => Yaml::Bool(*b),
        serde_yaml::Value::Number(n) => Yaml::Num(n.to_string()),
        serde_yaml::Value::String(s) => Yaml::Str(s.clone()),
        serde_yaml::Value::Sequence(xs) => Yaml::List(xs.iter().map(plain_of_value).collect()),
        serde_yaml::Value::Mapping(m) => Yaml::Mapping(
            m.iter().map(|(k, w)| (plain_of_value(k), plain_of_value(w))).collect(),
        ),
        serde_yaml::Value::Tagged(t) => plain_of_value(&t.value),
    }
}

/// Relies on `serde_yaml::from_str::<serde_yaml::Value>`: the parse is a
/// pure function of the input text, failing exactly on text that is not
/// valid YAML; its result, as the plain tree, is named [`yaml_of`].
#[verifier::external_body]
pub(crate) fn parse_yaml_text(s: &str) -> (r: Option<Yaml>)
    ensures
        r == yaml_of(s@),
{
    match serde_yaml::from_str::<serde_yaml::Value>(s) {
        Ok(v) => Some(plain_of_value(&v)),
        Err(_) => None,
    }
}

/// Whether a mapping entry's key is the string `key`.
pub open spec fn entry_key_is(e: (Yaml, Yaml), key: Seq<char>) -> bool {
    match e.0 {
        Yaml::Str(k) => k@ == key,
        _ => false,
    }
}

/// The value bound to the first entry with string key `key`.
pub open spec fn map_lookup(es: Seq<(Yaml, Yaml)>, key: Seq<char>) -> Option<Yaml>
    decreases es.len(),
{
    if es.len() == 0 {
        None
    } else if entry_key_is(es[0], key) {
        Some(es[0].1)
    } else {
        map_lookup(es.drop_first(), key)
    }
}

/// The named field of a document; `None` unless the document is a
/// mapping that binds `key`.
pub open spec fn field_of(y: Yaml, key: Seq<char>) -> Option<Yaml> {
    match y {
        Yaml::Mapping(es) => map_lookup(es@, key),
        _ => None,
    }
}

/// The named field, when present and a string.
pub open spec fn str_field_of(y: Yaml, key: Seq<char>) -> Option<Seq<char>> {
    match field_of(y, key) {
        Some(Yaml::Str(s)) => Some(s@),
        _ => None,
    }
}

/// Looks a string key up in a document, as [`field_of`] describes.
pub fn yaml_field<'a>(y: &'a Yaml, key: &str) -> (r: Option<&'a Yaml>)
    ensures
        match r {
            Some(v) => field_of(*y, key@) == Some(*v),
            None => field_of(*y, key@) is None,
        },
{
    match y {
        Yaml::Mapping(es) => {
            proof {
                assert(es@.skip(0) =~= es@);
                assert(field_of(*y, key@) == map_lookup(es@, key@));
            }
            let mut i: usize = 0;
            while i < es.len()
                invariant
                    i <= es@.len(),
                    field_of(*y, key@) == map_lookup(es@, key@),
                    map_lookup(es@, key@) == map_lookup(es@.skip(i as int), key@),
                decreases es@.len() - i,
            {
                proof {
                    assert(es@.skip(i as int)[0] == es@[i as int]);
                }
                match &es[i].0 {
                    Yaml::Str(k) => {
                        if str_eq(k.as_str(), key) {
                            proof {
                                assert(es@[i as int].0 == Yaml::Str(*k));
                                assert(entry_key_is(es@.skip(i as int)[0], key@));
                                assert(map_lookup(es@.skip(i as int), key@)
                                    == Some(es@.skip(i as int)[0].1));
                                assert(field_of(*y, key@) == Some(es@[i as int].1));
                            }
                            return Some(&es[i].1);
                        }
                    },
                    _ => {},
                }
                proof {
                    assert(es@.skip(i as int).drop_first() =~= es@.skip(i + 1));
                }
                i += 1;
            }
            None
        },
        _ => None,
    }
}

/// The named field, extracted when it is a string, as
/// [`str_field_of`] describes.
pub fn yaml_str_field(y: &Yaml, key: &str) -> (r: Option<String>)
    ensures
        match r {
            Some(u) => str_field_of(*y, key@) == Some(u@),
            None => str_field_of(*y, key@) is None,
        },
{
    match yaml_field(y, key) {
        Some(v) => match v {
            Yaml::Str(s) => Some(s.clone()),
            _ => None,
        },
        None => None,
    }
}

/// The `url` field that a remote descriptor or a pointer document
/// carries; `None` when the text is not YAML, not a mapping, or binds
/// no string to `url`.
pub open spec fn url_of_doc(s: Seq<char>) -> Option<Seq<char>> {
    match yaml_of(s) {
        Some(y) => str_field_of(y, "url"@),
        None => None,
    }
}

/// Parses a single-field indirection document and extracts its `url`.
pub fn parse_url_doc(text: &str) -> (r: Option<String>)
    ensures
        match r {
            Some(u) => url_of_doc(text@) == Some(u@),
            None => url_of_doc(text@) is None,
        },
{
    match parse_yaml_text(text) {
        Some(y) => yaml_str_field(&y, "url"),
        None => None,
    }
}

} // verus!
