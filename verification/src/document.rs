//! Reading the text of a TOML document.

use crate::value::{Toml, TomlView};
use vstd::prelude::*;

verus! {

/// `toml::Value`, the value that the `toml` crate reads a document into. It
/// is carried from [`read`] to [`convert`] and looked into nowhere else.
#[verifier::external_type_specification]
#[verifier::external_body]
pub struct ExTomlValue(toml::Value);

/// What the `toml` crate reads from the text of a document: the value that
/// the text denotes, or `None` where the text is no TOML document.
pub uninterp spec fn document(content: Seq<char>) -> Option<TomlView>;

/// What a value of the `toml` crate holds.
pub uninterp spec fn contents(value: toml::Value) -> TomlView;

/// Calls `str::parse::<toml::Value>`, which reads the text as a TOML
/// document. The contract gives the outcome the name [`document`]: the value
/// read, or `None` where the crate reports an error.
#[verifier::external_body]
fn read(content: &str) -> (r: Option<toml::Value>)
    ensures
        match r {
            Some(value) => document(content@) == Some(contents(value)),
            None => document(content@) is None,
        },
{
    content.parse::<toml::Value>().ok()
}

/// Moves what a `toml::Value` holds into a [`Toml`], variant by variant: a
/// float by `f64::to_bits`, a datetime by its `Display` text, a table by the
/// entries that its iterator yields. The contract claims that the result
/// holds what the argument held, and that no key occurs twice in a table,
/// the tables of the crate being maps.
#[verifier::external_body]
fn convert(value: toml::Value) -> (r: Toml)
    ensures
        r@ == contents(value),
        r@.wf(),
{
    match value {
        toml::Value::String(s) => Toml::String(s),
        toml::Value::Integer(i) => Toml::Integer(i),
        toml::Value::Float(f) => Toml::Float(f.to_bits()),
        toml::Value::Boolean(b) => Toml::Boolean(b),
        toml::Value::Datetime(d) => Toml::Datetime(d.to_string()),
        toml::Value::Array(a) => Toml::Array(a.into_iter().map(convert).collect()),
        toml::Value::Table(t) => Toml::Table(t.into_iter().map(|(k, v)| (k, convert(v))).collect()),
    }
}

/// Reads the text of a TOML document.
pub fn parse(content: &str) -> (r: Option<Toml>)
    ensures
        match document(content@) {
            Some(value) => r matches Some(read) && read@ == value && read@.wf(),
            None => r is None,
        },
{
    match read(content) {
        Some(value) => Some(convert(value)),
        None => None,
    }
}

} // verus!
