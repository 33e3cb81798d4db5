//! Trusted items: the calls into std, `serde_norway` and `yaml_edit` that the
//! library makes, each with the contract that Verus believes of it.
use vstd::prelude::*;
use std::str::FromStr;
use serde_norway::value::{Tag, TaggedValue};
use serde_norway::{Error as SerdeError, Number, Value};
use yaml_edit::{Document, ScalarValue, YamlError, YamlNode};
use crate::document::Scalar;
use crate::yaml::{Num, Yaml, well_tagged};
use crate::tree::edit_tree_text;

verus! {

// ── std ─────────────────────────────────────────────────────────────────────

/// `String::push`: appends one character.
#[verifier::external_body]
pub fn push_char(s: &mut String, c: char)
    ensures
        final(s)@ == old(s)@.push(c),
{
    s.push(c);
}

// ── serde_norway ────────────────────────────────────────────────────────────

#[verifier::external_type_specification]
#[verifier::external_body]
pub struct ExSerdeError(SerdeError);

#[verifier::external_type_specification]
#[verifier::external_body]
pub struct ExValue(serde_norway::Value);

#[verifier::external_type_specification]
#[verifier::external_body]
pub struct ExNumber(serde_norway::Number);

/// The value that `serde_norway` parses a YAML text into, if it parses.
pub uninterp spec fn parsed_yaml(text: Seq<char>) -> Option<Yaml>;

/// The YAML text that `serde_norway` prints for a value, if it can print it.
pub uninterp spec fn rendered_yaml(value: Yaml) -> Option<Seq<char>>;

/// A `serde_norway::Number` as the library holds it: its integer, or the
/// text it prints for its float. Tells the number's kinds apart, nothing else.
#[verifier::external_body]
fn num_from_number(n: &Number) -> Num {
    match (n.as_u64(), n.as_i64()) {
        (Some(u), _) => Num::PosInt(u),
        (None, Some(i)) => Num::NegInt(i),
        (None, None) => Num::Float(n.to_string()),
    }
}

/// A `serde_norway::Value` as the library holds it, variant for variant;
/// a tag is held as the text it prints (`!name`).
#[verifier::external_body]
fn yaml_from_value(v: Value) -> Yaml {
    match v {
        Value::Null => Yaml::Null,
        Value::Bool(b) => Yaml::Bool(b),
        Value::Number(n) => Yaml::Number(num_from_number(&n)),
        Value::String(s) => Yaml::String(s),
        Value::Sequence(items) => Yaml::Sequence(items.into_iter().map(yaml_from_value).collect()),
        Value::Mapping(m) => Yaml::Mapping(m.into_iter().map(entry_from_values).collect()),
        Value::Tagged(t) => Yaml::Tagged(t.tag.to_string(), Box::new(yaml_from_value(t.value))),
    }
}

/// A mapping entry as the library holds it.
#[verifier::external_body]
fn entry_from_values(entry: (Value, Value)) -> (Yaml, Yaml) {
    (yaml_from_value(entry.0), yaml_from_value(entry.1))
}

/// A number back as `serde_norway` holds it; a float text that does not
/// parse as a `serde_norway::Number` gives `None`.
#[verifier::external_body]
fn number_from_num(n: &Num) -> Option<Number> {
    match n {
        Num::PosInt(u) => Some(Number::from(*u)),
        Num::NegInt(i) => Some(Number::from(*i)),
        Num::Float(t) => Number::from_str(t).ok(),
    }
}

/// A value back as `serde_norway` holds it, variant for variant; `None`
/// where a float text does not parse.
#[verifier::external_body]
fn value_from_yaml(y: &Yaml) -> Option<Value>
    requires
        well_tagged(*y),
{
    Some(match y {
        Yaml::Null => Value::Null,
        Yaml::Bool(b) => Value::Bool(*b),
        Yaml::Number(n) => Value::Number(number_from_num(n)?),
        Yaml::String(s) => Value::String(s.clone()),
        Yaml::Sequence(items) => Value::Sequence(items.iter().map(value_from_yaml).collect::<Option<_>>()?),
        Yaml::Mapping(entries) => Value::Mapping(entries.iter().map(values_from_entry).collect::<Option<_>>()?),
        Yaml::Tagged(t, v) => Value::Tagged(Box::new(TaggedValue { tag: Tag::new(t.clone()), value: value_from_yaml(v)? })),
    })
}

/// A mapping entry back as `serde_norway` holds it.
#[verifier::external_body]
fn values_from_entry(entry: &(Yaml, Yaml)) -> Option<(Value, Value)>
    requires
        well_tagged(entry.0),
        well_tagged(entry.1),
{
    Some((value_from_yaml(&entry.0)?, value_from_yaml(&entry.1)?))
}

/// `serde_norway::from_str::<Value>`: parses a YAML text. What it gives is a
/// function of the text alone, named `parsed_yaml`.
#[verifier::external_body]
pub fn parse_value(text: &str) -> (r: Result<Yaml, SerdeError>)
    ensures
        match r {
            Ok(y) => parsed_yaml(text@) == Some(y),
            Err(_) => parsed_yaml(text@) is None,
        },
{
    serde_norway::from_str::<Value>(text).map(yaml_from_value)
}

/// `serde_norway::to_string`: prints a value as YAML text. What it gives is
/// a function of the value alone, named `rendered_yaml`; a failure is `None`.
#[verifier::external_body]
pub fn render_value(y: &Yaml) -> (r: Option<String>)
    requires
        well_tagged(*y),
    ensures
        match r {
            Some(t) => rendered_yaml(*y) == Some(t@),
            None => rendered_yaml(*y) is None,
        },
{
    serde_norway::to_string(&value_from_yaml(y)?).ok()
}

// ── yaml_edit ───────────────────────────────────────────────────────────────

#[verifier::external_type_specification]
#[verifier::external_body]
pub struct ExDocument(yaml_edit::Document);

#[verifier::external_type_specification]
#[verifier::external_body]
pub struct ExEditMapping(yaml_edit::Mapping);

#[verifier::external_type_specification]
#[verifier::external_body]
pub struct ExEditSequence(yaml_edit::Sequence);

#[verifier::external_type_specification]
#[verifier::external_body]
pub struct ExYamlNode(yaml_edit::YamlNode);

#[verifier::external_type_specification]
#[verifier::external_body]
pub struct ExScalarValue(yaml_edit::ScalarValue);

/// Whether `yaml_edit` accepts a text as one document.
pub uninterp spec fn edit_tree_accepts(text: Seq<char>) -> bool;

/// The message (`to_string`) of the error that `Document::from_str` gives
/// for a text it does not accept.
pub uninterp spec fn edit_parse_message(text: Seq<char>) -> Seq<char>;

/// `Document::from_str`, with the text the fresh tree prints (its
/// `to_string`), or the message of its error (the error's `to_string`).
/// Whether it succeeds is a function of the text alone, named
/// `edit_tree_accepts`; so are the printed text of the fresh tree,
/// `edit_tree_text` (the tree's text after no calls, `log_text`), and the
/// error's message, `edit_parse_message`. The tree itself is opaque.
#[verifier::external_body]
pub fn parse_document(text: &str) -> (r: Result<(Document, String), String>)
    ensures
        r is Ok <==> edit_tree_accepts(text@),
        r matches Ok((_, t)) ==> t@ == edit_tree_text(text@),
        r matches Err(m) ==> m@ == edit_parse_message(text@),
{
    let doc = Document::from_str(text).map_err(|e: YamlError| e.to_string())?;
    let printed = doc.to_string();
    Ok((doc, printed))
}

/// `Mapping::remove`: drops the entry with this key, if there is one, from
/// the tree. What the tree prints afterwards is named by the record of calls
/// that `EditTree` keeps (`log_text`).
#[verifier::external_body]
pub fn mapping_remove(m: &yaml_edit::Mapping, key: &str) {
    m.remove(key);
}

/// `Mapping::set`: writes this node as the value of this key in the tree.
/// What the tree prints afterwards is named by the record of calls that
/// `EditTree` keeps (`log_text`).
#[verifier::external_body]
pub fn mapping_set(m: &yaml_edit::Mapping, key: &str, node: YamlNode) {
    m.set(key, node);
}

/// Whether a tree fresh from `Document::from_str` on this text has a root
/// mapping that holds this key.
pub uninterp spec fn edit_tree_has_entry(text: Seq<char>, key: Seq<char>) -> bool;

/// `Document::from_str`, then `as_mapping` and `Mapping::get` on the fresh
/// tree: the value node of this key in the text's root mapping. Whether there
/// is one is a function of the text and the key alone, named
/// `edit_tree_has_entry` (and there is none where the text does not parse);
/// the node itself is opaque.
#[verifier::external_body]
pub fn fresh_entry(text: &str, key: &str) -> (r: Option<YamlNode>)
    ensures
        r is Some <==> edit_tree_has_entry(text@, key@),
        r is Some ==> edit_tree_accepts(text@),
{
    Document::from_str(text).ok()?.as_mapping()?.get(key)
}

/// `ScalarValue::parse`: a plain scalar holding this text, its type read off the text.
#[verifier::external_body]
pub fn float_scalar(text: &str) -> ScalarValue {
    ScalarValue::parse(text)
}

/// `Sequence::set`: writes a scalar over the element at this index, if there
/// is one. What the tree prints afterwards is named by the record of calls that `EditTree` keeps (`log_text`).
#[verifier::external_body]
pub fn sequence_set(s: &yaml_edit::Sequence, index: usize, item: &Scalar) {
    match item {
        Scalar::Bool(b) => s.set(index, *b),
        Scalar::Int(i) => s.set(index, *i),
        Scalar::UInt(u) => s.set(index, *u),
        Scalar::Str(t) => s.set(index, t.clone()),
        Scalar::Float(f) => s.set(index, f.clone()),
    };
}

/// `Sequence::push`: appends a scalar. What the tree prints afterwards is named by the record of calls that `EditTree` keeps (`log_text`).
#[verifier::external_body]
pub fn sequence_push(s: &yaml_edit::Sequence, item: &Scalar) {
    match item {
        Scalar::Bool(b) => s.push(*b),
        Scalar::Int(i) => s.push(*i),
        Scalar::UInt(u) => s.push(*u),
        Scalar::Str(t) => s.push(t.clone()),
        Scalar::Float(f) => s.push(f.clone()),
    }
}

/// `Sequence::remove`: drops the element at this index, if there is one. Its
/// effect on the tree is not stated.
#[verifier::external_body]
pub fn sequence_remove(s: &yaml_edit::Sequence, index: usize) {
    s.remove(index);
}

} // verus!
