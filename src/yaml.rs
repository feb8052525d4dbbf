use vstd::prelude::*;
use crate::error::{DecodeError, Mode};
use crate::decode::workflow_of;
use crate::error::ErrorKind;
use crate::model::{Workflow, WorkflowView};
use crate::fields::scalar_string;
use crate::node::Node;

verus! {

/// A YAML value as serde_yaml holds it.
#[verifier::external_type_specification]
#[verifier::external_body]
pub struct ExYamlValue(serde_yaml::Value);

/// A YAML number as serde_yaml holds it: an integer or a float.
#[verifier::external_type_specification]
#[verifier::external_body]
pub struct ExYamlNumber(serde_yaml::Number);

/// Why serde_yaml could not read a text.
#[verifier::external_type_specification]
#[verifier::external_body]
pub struct ExYamlError(serde_yaml::Error);

pub assume_specification[ serde_yaml::Number::as_i64 ](n: &serde_yaml::Number) -> Option<i64>;

/// One level of a serde_yaml value: its variant, with what it holds.
pub enum YamlLevel {
    Null,
    Bool(bool),
    Number(serde_yaml::Number),
    Str(String),
    Sequence(Vec<serde_yaml::Value>),
    Mapping(Vec<(serde_yaml::Value, serde_yaml::Value)>),
    Tagged(serde_yaml::Value),
}

/// Whether serde_yaml reads `text` as one YAML document; this depends on the
/// text alone.
pub uninterp spec fn yaml_parses(text: Seq<char>) -> bool;

/// Relies on serde_yaml::from_str to read YAML text into serde_yaml's
/// untyped value, failing exactly on the texts it does not accept.
#[verifier::external_body]
fn read_yaml(text: &str) -> (r: Result<serde_yaml::Value, serde_yaml::Error>)
    ensures
        r is Ok == yaml_parses(text@),
{
    serde_yaml::from_str::<serde_yaml::Value>(text)
}

/// Relies on the variants of serde_yaml::Value: moves out what the variant
/// holds, a mapping as its entries in order, a tagged value as the value.
#[verifier::external_body]
fn level_of(v: serde_yaml::Value) -> (r: YamlLevel) {
    match v {
        serde_yaml::Value::Null => YamlLevel::Null,
        serde_yaml::Value::Bool(b) => YamlLevel::Bool(b),
        serde_yaml::Value::Number(n) => YamlLevel::Number(n),
        serde_yaml::Value::String(s) => YamlLevel::Str(s),
        serde_yaml::Value::Sequence(items) => YamlLevel::Sequence(items),
        serde_yaml::Value::Mapping(m) => YamlLevel::Mapping(m.into_iter().collect()),
        serde_yaml::Value::Tagged(t) => YamlLevel::Tagged(t.value),
    }
}

/// How deep a document may nest; serde_yaml itself stops well before this.
pub const MAX_DEPTH: usize = 512;

/// The document tree of a serde_yaml value, nested at most `depth` levels.
/// Integers that fit in `i64` become integers; other numbers become their
/// text. A mapping key that is a scalar becomes its text. `None` when a
/// mapping key is null or a collection, or the value nests deeper.
fn tree_of(v: serde_yaml::Value, depth: usize) -> (r: Option<Node>)
    decreases depth,
{
    if depth == 0 {
        return None;
    }
    match level_of(v) {
        YamlLevel::Null => Some(Node::Null),
        YamlLevel::Bool(b) => Some(Node::Bool(b)),
        YamlLevel::Number(n) => match n.as_i64() {
            Some(i) => Some(Node::Int(i)),
            None => Some(Node::Str(n.to_string())),
        },
        YamlLevel::Str(s) => Some(Node::Str(s)),
        YamlLevel::Sequence(items) => {
            let mut items = items;
            let mut out: Vec<Node> = Vec::new();
            while items.len() > 0
                invariant
                    depth > 0,
                decreases items@.len(),
            {
                let item = items.remove(0);
                match tree_of(item, depth - 1) {
                    Some(x) => out.push(x),
                    None => {
                        return None;
                    },
                }
            }
            Some(Node::Sequence(out))
        },
        YamlLevel::Mapping(entries) => {
            let mut entries = entries;
            let mut out: Vec<(String, Node)> = Vec::new();
            while entries.len() > 0
                invariant
                    depth > 0,
                decreases entries@.len(),
            {
                let (k, val) = entries.remove(0);
                let key = match tree_of(k, depth - 1) {
                    Some(x) => match scalar_string(&x) {
                        Some(s) => s,
                        None => {
                            return None;
                        },
                    },
                    None => {
                        return None;
                    },
                };
                match tree_of(val, depth - 1) {
                    Some(x) => out.push((key, x)),
                    None => {
                        return None;
                    },
                }
            }
            Some(Node::Mapping(out))
        },
        YamlLevel::Tagged(inner) => tree_of(inner, depth - 1),
    }
}

/// Why a workflow text could not be read.
#[derive(Debug)]
pub enum ParseError {
    /// The text is not YAML.
    Yaml(serde_yaml::Error),
    /// The YAML has a mapping key that is null or a collection, or nests too
    /// deep.
    NotATree,
    /// The tree is not a valid workflow.
    Decode(DecodeError),
}

impl Workflow {
    /// Reads a workflow from YAML text: serde_yaml parses it, and the tree
    /// is decoded as `decode` does in lenient mode, so keys that the decoder
    /// does not know are ignored. Whatever serde_yaml makes of the text, a
    /// workflow returned, or a decode error, is what `decode` makes of some
    /// document tree.
    pub fn parse_str(input: &str) -> (r: Result<Workflow, ParseError>)
        ensures
            r matches Err(ParseError::Yaml(_)) <==> !yaml_parses(input@),
            r matches Ok(w) ==> exists|n: Node| #[trigger] workflow_of(n, Mode::Lenient) == Ok::<WorkflowView, ErrorKind>(w@),
            r matches Err(ParseError::Decode(e)) ==> exists|n: Node| #[trigger] workflow_of(n, Mode::Lenient) == Err::<
                WorkflowView,
                ErrorKind,
            >(e.kind),
    {
        let value = match read_yaml(input) {
            Ok(v) => v,
            Err(e) => {
                return Err(ParseError::Yaml(e));
            },
        };
        let tree = match tree_of(value, MAX_DEPTH) {
            Some(t) => t,
            None => {
                return Err(ParseError::NotATree);
            },
        };
        let ghost t = tree;
        match Workflow::decode(tree, Mode::Lenient) {
            Ok(w) => {
                assert(workflow_of(t, Mode::Lenient) == Ok::<WorkflowView, ErrorKind>(w@));
                Ok(w)
            },
            Err(e) => {
                assert(workflow_of(t, Mode::Lenient) == Err::<WorkflowView, ErrorKind>(e.kind));
                Err(ParseError::Decode(e))
            },
        }
    }
}

} // verus!
