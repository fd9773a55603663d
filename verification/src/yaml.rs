//! YAML values: what a [`serde_yaml::Value`] holds.

use vstd::prelude::*;

use crate::json;
use crate::json::Json;
use crate::text;

verus! {

/// [`serde_yaml::Value`], whose contents are given by [`yaml_tree`].
#[verifier::external_type_specification]
#[verifier::external_body]
pub struct ExYamlValue(serde_yaml::Value);

/// [`serde_yaml::Number`], whose contents are given by [`yaml_number`].
#[verifier::external_type_specification]
#[verifier::external_body]
pub struct ExYamlNumber(serde_yaml::Number);

/// [`serde_yaml::Mapping`], whose contents are given by [`yaml_entries`].
#[verifier::external_type_specification]
#[verifier::external_body]
pub struct ExYamlMapping(serde_yaml::Mapping);

/// What a YAML number holds: an integer, or a float given by its IEEE 754 bits.
pub enum YamlNumber {
    Int(int),
    Float(u64),
}

/// What a YAML value holds. The entries of a mapping stand in the order they were
/// written in.
#[verifier::ext_equal]
pub enum Yaml {
    Null,
    Bool(bool),
    Number(YamlNumber),
    Str(Seq<char>),
    Sequence(Seq<Yaml>),
    Mapping(Seq<(Yaml, Yaml)>),
    Tagged(Box<Yaml>),
}

/// The contents of a YAML value.
pub uninterp spec fn yaml_tree(v: serde_yaml::Value) -> Yaml;

/// The contents of a YAML number.
pub uninterp spec fn yaml_number(n: serde_yaml::Number) -> YamlNumber;

/// The entries of a YAML mapping, in the order they were inserted.
pub uninterp spec fn yaml_entries(m: serde_yaml::Mapping) -> Seq<(Yaml, Yaml)>;

/// The text a YAML number is shown as.
pub uninterp spec fn number_text(n: YamlNumber) -> Seq<char>;

/// One level of a YAML value, as borrowed parts.
pub enum YamlNode<'a> {
    Null,
    Bool(bool),
    Number(&'a serde_yaml::Number),
    Str(&'a str),
    Sequence(&'a Vec<serde_yaml::Value>),
    Mapping(&'a serde_yaml::Mapping),
    Tagged(&'a serde_yaml::Value),
}

impl<'a> YamlNode<'a> {
    /// What the node holds.
    pub open spec fn tree(self) -> Yaml {
        match self {
            YamlNode::Null => Yaml::Null,
            YamlNode::Bool(b) => Yaml::Bool(b),
            YamlNode::Number(n) => Yaml::Number(yaml_number(*n)),
            YamlNode::Str(s) => Yaml::Str(s@),
            YamlNode::Sequence(s) => Yaml::Sequence(
                s@.map_values(|v: serde_yaml::Value| yaml_tree(v)),
            ),
            YamlNode::Mapping(m) => Yaml::Mapping(yaml_entries(*m)),
            YamlNode::Tagged(v) => Yaml::Tagged(Box::new(yaml_tree(*v))),
        }
    }
}

/// Tells the variants of a `serde_yaml::Value` apart.
#[verifier::external_body]
pub(crate) fn node(v: &serde_yaml::Value) -> (n: YamlNode<'_>)
    ensures
        n.tree() == yaml_tree(*v),
{
    match v {
        serde_yaml::Value::Null => YamlNode::Null,
        serde_yaml::Value::Bool(b) => YamlNode::Bool(*b),
        serde_yaml::Value::Number(n) => YamlNode::Number(n),
        serde_yaml::Value::String(s) => YamlNode::Str(s.as_str()),
        serde_yaml::Value::Sequence(s) => YamlNode::Sequence(s),
        serde_yaml::Value::Mapping(m) => YamlNode::Mapping(m),
        serde_yaml::Value::Tagged(t) => YamlNode::Tagged(&t.value),
    }
}

/// Calls `serde_yaml::Mapping::iter`: the entries in the order they were inserted.
#[verifier::external_body]
pub(crate) fn entries_of(m: &serde_yaml::Mapping) -> (v: Vec<
    (&serde_yaml::Value, &serde_yaml::Value),
>)
    ensures
        v@.len() == yaml_entries(*m).len(),
        forall|i: int|
            0 <= i < v@.len() ==> (
            yaml_tree(*(#[trigger] v@[i]).0),
            yaml_tree(*v@[i].1),
        ) == yaml_entries(*m)[i],
{
    m.iter().collect()
}

/// Calls `serde_yaml::Number::as_i64`: the value of an integer that fits. An
/// integer that does not fit is above the range, never below it.
#[verifier::external_body]
pub(crate) fn number_i64(n: &serde_yaml::Number) -> (r: Option<i64>)
    ensures
        r is Some <==> (yaml_number(*n) is Int && yaml_number(*n)->Int_0 <= i64::MAX),
        r is Some ==> r->0 == yaml_number(*n)->Int_0,
{
    n.as_i64()
}

/// Calls `serde_yaml::Number::as_u64`: the value of an integer that is not
/// negative.
#[verifier::external_body]
pub(crate) fn number_u64(n: &serde_yaml::Number) -> (r: Option<u64>)
    ensures
        r is Some <==> (yaml_number(*n) is Int && yaml_number(*n)->Int_0 >= 0),
        r is Some ==> r->0 == yaml_number(*n)->Int_0,
{
    n.as_u64()
}

/// Whether a float given by its bits is neither infinite nor not-a-number.
pub open spec fn is_finite(bits: u64) -> bool {
    (bits / 0x10_0000_0000_0000) % 0x800 != 0x7ff
}

/// Calls `serde_yaml::Number::as_f64` and hands the float to
/// `serde_json::Number::from_f64`, which refuses one that is not finite. Stated of
/// a YAML float only: the JSON number holds the same bits.
#[verifier::external_body]
pub(crate) fn float_value(n: &serde_yaml::Number) -> (v: Option<serde_json::Value>)
    requires
        yaml_number(*n) is Float,
    ensures
        v is Some <==> is_finite(yaml_number(*n)->Float_0),
        v is Some ==> json::tree(v->0) == Json::Float(yaml_number(*n)->Float_0),
{
    n.as_f64().and_then(serde_json::Number::from_f64).map(serde_json::Value::Number)
}

/// Calls `serde_yaml::Number::to_string`. An integer is shown in decimal, with a
/// minus sign if it is negative; how a float is shown is left to that function and
/// named by [`number_text`].
#[verifier::external_body]
pub(crate) fn number_string(n: &serde_yaml::Number) -> (s: String)
    ensures
        s@ == number_text(yaml_number(*n)),
        yaml_number(*n) matches YamlNumber::Int(i) ==> s@ == if i >= 0 {
            text::decimal(i as nat)
        } else {
            "-"@ + text::decimal((-i) as nat)
        },
{
    n.to_string()
}

/// A value with its tags taken off.
pub open spec fn untagged(t: Yaml) -> Yaml
    decreases t,
{
    match t {
        Yaml::Tagged(inner) => untagged(*inner),
        _ => t,
    }
}

/// Calls `serde_yaml::Value::as_str`: the text of a string, whether tagged or not.
#[verifier::external_body]
pub(crate) fn as_text(v: &serde_yaml::Value) -> (s: Option<&str>)
    ensures
        s is Some <==> untagged(yaml_tree(*v)) is Str,
        s is Some ==> s->0@ == untagged(yaml_tree(*v))->Str_0,
{
    v.as_str()
}

} // verus!
