//! Reading YAML text into document trees.
//!
//! The text is parsed by `serde_yaml`. What it hands back is turned, level
//! by level, into a tree of this library.

use crate::document::{docs_of, lemma_mapping_view, lemma_sequence_view, pairs_of, Doc, Tree};
use vstd::prelude::*;

verus! {

/// `serde_yaml::Value`, the parser's own tree. Nothing of what it holds is
/// seen here; `yaml_node` hands it out.
#[verifier::external_type_specification]
#[verifier::external_body]
pub struct ExYamlValue(serde_yaml::Value);

/// `serde_yaml::Error`, carried from the parser to `yaml_error_text`.
#[verifier::external_type_specification]
#[verifier::external_body]
pub struct ExYamlError(serde_yaml::Error);

/// The tree that a `serde_yaml::Value` holds. What is known of it is what
/// `yaml_node` says.
pub uninterp spec fn yaml_doc(v: serde_yaml::Value) -> Doc;

/// The tree that `serde_yaml::from_str` reads from a text; `None` where it
/// fails. Nothing more is known of it.
pub uninterp spec fn yaml_parsed(text: Seq<char>) -> Option<Doc>;

/// The top of a value of `serde_yaml`: its kind, and what stands directly
/// below it.
enum Node<'a> {
    Null,
    Bool(bool),
    Number(String),
    Text(String),
    Sequence(&'a Vec<serde_yaml::Value>),
    Mapping(Vec<(&'a serde_yaml::Value, &'a serde_yaml::Value)>),
    Tagged(String, &'a serde_yaml::Value),
}

/// The tree whose top is `node`.
spec fn node_doc(node: Node) -> Doc {
    match node {
        Node::Null => Doc::Null,
        Node::Bool(b) => Doc::Bool(b),
        Node::Number(n) => Doc::Number(n@),
        Node::Text(s) => Doc::Text(s@),
        Node::Sequence(items) => Doc::List(Seq::new(items@.len(), |i: int| yaml_doc(items@[i]))),
        Node::Mapping(entries) => Doc::Dict(
            Seq::new(
                entries@.len(),
                |i: int| (yaml_doc(*entries@[i].0), yaml_doc(*entries@[i].1)),
            ),
        ),
        Node::Tagged(tag, inner) => Doc::Tagged(tag@, Box::new(yaml_doc(*inner))),
    }
}

/// Calls `serde_yaml::from_str` for a `serde_yaml::Value`.
///
/// Claims that the text alone decides whether the call succeeds and which
/// tree the value holds: `yaml_parsed` is the name of that tree.
#[verifier::external_body]
fn yaml_from_str(text: &str) -> (r: Result<serde_yaml::Value, serde_yaml::Error>)
    ensures
        match r {
            Ok(v) => yaml_parsed(text@) == Some(yaml_doc(v)),
            Err(_) => yaml_parsed(text@) is None,
        },
{
    serde_yaml::from_str::<serde_yaml::Value>(text)
}

/// Matches on the variants of `serde_yaml::Value` and hands out what the
/// variant holds: a number as the text of `Number::to_string`, a tag as the
/// text of `Tag::to_string`, the items of a sequence as they stand, and the
/// entries of a mapping in the order of `Mapping::iter`.
///
/// Claims that the tree of the value is made of these and of the trees of
/// the values below: this is all that is known of `yaml_doc`.
#[verifier::external_body]
fn yaml_node<'a>(v: &'a serde_yaml::Value) -> (r: Node<'a>)
    ensures
        node_doc(r) == yaml_doc(*v),
{
    match v {
        serde_yaml::Value::Null => Node::Null,
        serde_yaml::Value::Bool(b) => Node::Bool(*b),
        serde_yaml::Value::Number(n) => Node::Number(n.to_string()),
        serde_yaml::Value::String(s) => Node::Text(s.clone()),
        serde_yaml::Value::Sequence(items) => Node::Sequence(items),
        serde_yaml::Value::Mapping(entries) => Node::Mapping(entries.iter().collect()),
        serde_yaml::Value::Tagged(tagged) => Node::Tagged(tagged.tag.to_string(), &tagged.value),
    }
}

/// Calls `to_string` on a `serde_yaml::Error`: the parser's message with
/// the place in the text. Nothing is claimed of it.
#[verifier::external_body]
fn yaml_error_text(e: &serde_yaml::Error) -> (r: String) {
    e.to_string()
}

/// The tree of this library that a value of `serde_yaml` holds.
#[verifier::loop_isolation(false)]
fn lift(v: &serde_yaml::Value) -> (r: Tree)
    ensures
        r@ == yaml_doc(*v),
    decreases yaml_doc(*v),
{
    match yaml_node(v) {
        Node::Null => Tree::Null,
        Node::Bool(b) => Tree::Bool(b),
        Node::Number(n) => Tree::Number(n),
        Node::Text(s) => Tree::Text(s),
        Node::Sequence(items) => {
            let ghost below = yaml_doc(*v)->List_0;
            let mut out: Vec<Tree> = Vec::new();
            let mut i: usize = 0;
            while i < items.len()
                invariant
                    i <= items.len(),
                    out@.len() == i,
                    forall|j: int| 0 <= j < i ==> out@[j]@ == below[j],
                decreases items.len() - i,
            {
                assert(below[i as int] == yaml_doc(items@[i as int]));
                out.push(lift(&items[i]));
                i += 1;
            }
            proof {
                lemma_sequence_view(out);
                assert(docs_of(out@) =~= below);
            }
            Tree::Sequence(out)
        },
        Node::Mapping(entries) => {
            let ghost below = yaml_doc(*v)->Dict_0;
            let mut out: Vec<(Tree, Tree)> = Vec::new();
            let mut i: usize = 0;
            while i < entries.len()
                invariant
                    i <= entries.len(),
                    out@.len() == i,
                    forall|j: int| 0 <= j < i ==> out@[j].0@ == below[j].0 && out@[j].1@ == below[j].1,
                decreases entries.len() - i,
            {
                proof {
                    let entry = below[i as int];
                    assert(entry.0 == yaml_doc(*entries@[i as int].0));
                    assert(entry.1 == yaml_doc(*entries@[i as int].1));
                    assert(decreases_to!(yaml_doc(*v) => below));
                    assert(decreases_to!(below => entry));
                    assert(decreases_to!(entry => entry.0));
                    assert(decreases_to!(entry => entry.1));
                }
                let key = lift(entries[i].0);
                let value = lift(entries[i].1);
                out.push((key, value));
                i += 1;
            }
            proof {
                lemma_mapping_view(out);
                assert(pairs_of(out@) =~= below);
            }
            Tree::Mapping(out)
        },
        Node::Tagged(tag, inner) => {
            proof {
                let below = yaml_doc(*v)->Tagged_1;
                assert(*below == yaml_doc(*inner));
                assert(decreases_to!(yaml_doc(*v) => *below));
            }
            Tree::Tagged(tag, Box::new(lift(inner)))
        },
    }
}

/// A text that is no YAML document.
#[derive(Debug, PartialEq, Eq)]
pub struct ParseError {
    /// What the parser says, with the place in the text.
    pub message: String,
}

/// Reads a YAML text into a tree.
///
/// Fails exactly where the parser does not take the text as one
/// document.
pub fn parse(text: &str) -> (r: Result<Tree, ParseError>)
    ensures
        match r {
            Ok(tree) => yaml_parsed(text@) == Some(tree@),
            Err(_) => yaml_parsed(text@) is None,
        },
{
    match yaml_from_str(text) {
        Ok(v) => Ok(lift(&v)),
        Err(e) => Err(ParseError { message: yaml_error_text(&e) }),
    }
}

} // verus!
