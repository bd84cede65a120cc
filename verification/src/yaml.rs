//! YAML documents as plain values, read from text through `serde_yaml`.
//!
//! [`YamlValue`] is the library's own document type; the conversion from
//! `serde_yaml::Value` is verified against the contracts of two small trusted
//! wrappers. A mapping keeps its entries in document order.

use vstd::prelude::*;
use serde_yaml::Value as YamlDoc;

verus! {

/// A YAML value as mathematics sees it.
pub enum YamlModel {
    Null,
    Bool(bool),
    /// A number, by its text as `serde_yaml` writes it.
    Number(Seq<char>),
    Str(Seq<char>),
    Sequence(Seq<YamlModel>),
    /// The entries, in document order.
    Mapping(Seq<(YamlModel, YamlModel)>),
    /// A tagged value: the tag (with its `!`) and the value.
    Tagged(Seq<char>, Box<YamlModel>),
}

/// A YAML value, as plain data.
#[derive(Debug)]
pub enum YamlValue {
    Null,
    Bool(bool),
    Number(String),
    String(String),
    Sequence(Vec<YamlValue>),
    Mapping(Vec<(YamlValue, YamlValue)>),
    Tagged(String, Box<YamlValue>),
}

/// The model of a value.
pub open spec fn yaml_model(v: YamlValue) -> YamlModel
    decreases v,
{
    match v {
        YamlValue::Null => YamlModel::Null,
        YamlValue::Bool(b) => YamlModel::Bool(b),
        YamlValue::Number(t) => YamlModel::Number(t@),
        YamlValue::String(s) => YamlModel::Str(s@),
        YamlValue::Sequence(items) => YamlModel::Sequence(yaml_models(items@)),
        YamlValue::Mapping(es) => YamlModel::Mapping(yaml_entries(es@)),
        YamlValue::Tagged(tag, inner) => YamlModel::Tagged(tag@, Box::new(yaml_model(*inner))),
    }
}

/// The models of a list of values.
pub open spec fn yaml_models(s: Seq<YamlValue>) -> Seq<YamlModel>
    decreases s,
{
    if s.len() == 0 { Seq::empty() } else { yaml_models(s.drop_last()).push(yaml_model(s.last())) }
}

/// The models of a list of entries.
pub open spec fn yaml_entries(s: Seq<(YamlValue, YamlValue)>) -> Seq<(YamlModel, YamlModel)>
    decreases s,
{
    if s.len() == 0 {
        Seq::empty()
    } else {
        yaml_entries(s.drop_last()).push((yaml_model(s.last().0), yaml_model(s.last().1)))
    }
}

impl View for YamlValue {
    type V = YamlModel;

    open spec fn view(&self) -> YamlModel {
        yaml_model(*self)
    }
}

pub proof fn lemma_yaml_models(s: Seq<YamlValue>)
    ensures
        yaml_models(s).len() == s.len(),
        forall|i: int| 0 <= i < s.len() ==> #[trigger] yaml_models(s)[i] == s[i]@,
    decreases s.len(),
{
    if s.len() > 0 {
        lemma_yaml_models(s.drop_last());
        assert forall|i: int| 0 <= i < s.len() implies #[trigger] yaml_models(s)[i] == s[i]@ by {
            if i < s.len() - 1 {
                assert(s.drop_last()[i] == s[i]);
            }
        }
    }
}

pub proof fn lemma_yaml_entries(s: Seq<(YamlValue, YamlValue)>)
    ensures
        yaml_entries(s).len() == s.len(),
        forall|i: int| 0 <= i < s.len() ==> #[trigger] yaml_entries(s)[i] == (s[i].0@, s[i].1@),
    decreases s.len(),
{
    if s.len() > 0 {
        lemma_yaml_entries(s.drop_last());
        assert forall|i: int| 0 <= i < s.len() implies #[trigger] yaml_entries(s)[i] == (s[i].0@, s[i].1@) by {
            if i < s.len() - 1 {
                assert(s.drop_last()[i] == s[i]);
            }
        }
    }
}

// ---------------------------------------------------------------------------
// Exchange with `serde_yaml`.

#[verifier::external_type_specification]
#[verifier::external_body]
pub struct ExSerdeYamlValue(serde_yaml::Value);

/// What `serde_yaml::from_str::<serde_yaml::Value>` makes of a text: the value
/// read, or the text of the error it reports.
pub uninterp spec fn yaml_parse(text: Seq<char>) -> Result<YamlModel, Seq<char>>;

/// A `serde_yaml::Value`, with the model it stands for.
pub struct YamlNode {
    value: serde_yaml::Value,
    model: Ghost<YamlModel>,
}

impl View for YamlNode {
    type V = YamlModel;

    closed spec fn view(&self) -> YamlModel {
        self.model@
    }
}

/// One level of a value: its kind and immediate contents.
pub enum YamlShape {
    Null,
    Bool(bool),
    Number(String),
    String(String),
    Sequence(Vec<YamlNode>),
    Mapping(Vec<(YamlNode, YamlNode)>),
    Tagged(String, YamlNode),
}

/// The model a shape describes.
pub open spec fn yaml_shape_model(s: YamlShape) -> YamlModel {
    match s {
        YamlShape::Null => YamlModel::Null,
        YamlShape::Bool(b) => YamlModel::Bool(b),
        YamlShape::Number(t) => YamlModel::Number(t@),
        YamlShape::String(t) => YamlModel::Str(t@),
        YamlShape::Sequence(items) => YamlModel::Sequence(items@.map_values(|n: YamlNode| n@)),
        YamlShape::Mapping(es) => YamlModel::Mapping(es@.map_values(|e: (YamlNode, YamlNode)| (e.0@, e.1@))),
        YamlShape::Tagged(tag, inner) => YamlModel::Tagged(tag@, Box::new(inner@)),
    }
}

/// Calls `serde_yaml::from_str::<serde_yaml::Value>`; the value read, or the
/// text of the error, is what [`yaml_parse`] names for the text.
#[verifier::external_body]
fn parse_yaml_node(text: &str) -> (r: Result<YamlNode, String>)
    ensures
        match r {
            Ok(n) => yaml_parse(text@) == Ok::<YamlModel, Seq<char>>(n@),
            Err(e) => yaml_parse(text@) == Err::<YamlModel, Seq<char>>(e@),
        },
{
    match serde_yaml::from_str::<serde_yaml::Value>(text) {
        Ok(value) => Ok(YamlNode { value, model: Ghost(yaml_parse(text@)->Ok_0) }),
        Err(error) => Err(error.to_string()),
    }
}

/// Takes a `serde_yaml::Value` apart one level (matching its variants). A
/// number's text is its `Display`, a tag's its `Display`; a mapping's entries
/// come in document order, as `serde_yaml::Mapping` iterates them.
#[verifier::external_body]
fn yaml_shape(n: YamlNode) -> (r: YamlShape)
    ensures
        yaml_shape_model(r) == n@,
{
    let node = |value| YamlNode { value, model: Ghost(arbitrary()) };
    match n.value {
        YamlDoc::Null => YamlShape::Null,
        YamlDoc::Bool(b) => YamlShape::Bool(b),
        YamlDoc::Number(x) => YamlShape::Number(x.to_string()),
        YamlDoc::String(t) => YamlShape::String(t),
        YamlDoc::Sequence(items) => YamlShape::Sequence(items.into_iter().map(node).collect()),
        YamlDoc::Mapping(m) => YamlShape::Mapping(m.into_iter().map(|(k, v)| (node(k), node(v))).collect()),
        YamlDoc::Tagged(t) => YamlShape::Tagged(t.tag.to_string(), node(t.value)),
    }
}

/// Converts a `serde_yaml` value whose model is `m`.
fn from_node_at(n: YamlNode, Ghost(m): Ghost<YamlModel>) -> (r: YamlValue)
    requires
        n@ == m,
    ensures
        r@ == m,
    decreases m,
{
    match yaml_shape(n) {
        YamlShape::Null => YamlValue::Null,
        YamlShape::Bool(b) => YamlValue::Bool(b),
        YamlShape::Number(t) => YamlValue::Number(t),
        YamlShape::String(t) => YamlValue::String(t),
        YamlShape::Tagged(tag, inner) => {
            proof {
                assert(decreases_to!(m => m->Tagged_1));
            }
            let ghost im = inner@;
            let v = from_node_at(inner, Ghost(im));
            YamlValue::Tagged(tag, Box::new(v))
        },
        YamlShape::Sequence(items) => {
            let ghost ms = items@.map_values(|x: YamlNode| x@);
            let count = items.len();
            let ghost total = count as nat;
            let mut items = items;
            let mut out: Vec<YamlValue> = Vec::new();
            let mut i: usize = 0;
            while items.len() > 0
                invariant
                    total <= usize::MAX,
                    m == YamlModel::Sequence(ms),
                    ms.len() == total,
                    i + items@.len() == total,
                    forall|k: int| 0 <= k < items@.len() ==> (#[trigger] items@[k])@ == ms[i + k],
                    out@.len() == i,
                    forall|k: int| 0 <= k < i ==> (#[trigger] out@[k])@ == ms[k],
                decreases items@.len(),
            {
                let child = items.remove(0);
                assert(child@ == ms[i as int]);
                proof {
                    assert(decreases_to!(m => m->Sequence_0));
                    assert(decreases_to!(ms => ms[i as int]));
                    assert(decreases_to!(m => child@));
                }
                let v = from_node_at(child, Ghost(child@));
                out.push(v);
                i = i + 1;
            }
            proof {
                lemma_yaml_models(out@);
                assert(yaml_models(out@) =~= ms);
            }
            YamlValue::Sequence(out)
        },
        YamlShape::Mapping(es) => {
            let ghost ms = es@.map_values(|e: (YamlNode, YamlNode)| (e.0@, e.1@));
            let count = es.len();
            let ghost total = count as nat;
            let mut es = es;
            let mut out: Vec<(YamlValue, YamlValue)> = Vec::new();
            let mut i: usize = 0;
            while es.len() > 0
                invariant
                    total <= usize::MAX,
                    m == YamlModel::Mapping(ms),
                    ms.len() == total,
                    i + es@.len() == total,
                    forall|k: int| 0 <= k < es@.len() ==> (#[trigger] es@[k]).0@ == ms[i + k].0
                        && es@[k].1@ == ms[i + k].1,
                    out@.len() == i,
                    forall|k: int| 0 <= k < i ==> (#[trigger] out@[k]).0@ == ms[k].0 && out@[k].1@ == ms[k].1,
                decreases es@.len(),
            {
                let (key, val) = es.remove(0);
                assert(key@ == ms[i as int].0 && val@ == ms[i as int].1);
                proof {
                    assert(decreases_to!(m => m->Mapping_0));
                    assert(decreases_to!(ms => ms[i as int]));
                    assert(decreases_to!(ms[i as int] => ms[i as int].0));
                    assert(decreases_to!(ms[i as int] => ms[i as int].1));
                    assert(decreases_to!(m => key@));
                    assert(decreases_to!(m => val@));
                }
                let k = from_node_at(key, Ghost(key@));
                let v = from_node_at(val, Ghost(val@));
                out.push((k, v));
                i = i + 1;
            }
            proof {
                lemma_yaml_entries(out@);
                assert(yaml_entries(out@) =~= ms);
            }
            YamlValue::Mapping(out)
        },
    }
}

impl YamlValue {
    /// Reads YAML text.
    pub fn parse(text: &str) -> (r: Result<YamlValue, String>)
        ensures
            match r {
                Ok(v) => yaml_parse(text@) == Ok::<YamlModel, Seq<char>>(v@),
                Err(e) => yaml_parse(text@) == Err::<YamlModel, Seq<char>>(e@),
            },
    {
        match parse_yaml_node(text) {
            Ok(node) => {
                let ghost m = node@;
                Ok(from_node_at(node, Ghost(m)))
            },
            Err(e) => Err(e),
        }
    }
}

} // verus!
