//! Configuration documents as YAML texts.

use crate::config::tree;
use crate::config::tree::{load_config_from, Key, KeyView, Node, Tree};
use crate::error::{failure, GatewayError};
use vstd::prelude::*;

verus! {

/// A YAML value of the `serde_yaml` crate.
#[verifier::external_type_specification]
#[verifier::external_body]
pub struct ExValue(serde_yaml::Value);

/// What a YAML value holds: its mappings entry by entry, in their order, its
/// tags, and everything else as a leaf in YAML notation.
pub uninterp spec fn document(value: serde_yaml::Value) -> Tree<Seq<char>>;

/// The document that a YAML text denotes, or how the error is shown where it
/// denotes none.
pub uninterp spec fn yaml_read(text: Seq<char>) -> Result<Tree<Seq<char>>, Seq<char>>;

/// `serde_yaml::from_str`: the value that a text denotes, or the error as it
/// is shown.
#[verifier::external_body]
fn parse_yaml(text: &str) -> (r: Result<serde_yaml::Value, String>)
    ensures
        match r {
            Ok(value) => yaml_read(text@) matches Ok(t) && t == document(value),
            Err(shown) => yaml_read(text@) matches Err(e) && e == shown@,
        },
{
    serde_yaml::from_str(text).map_err(|error: serde_yaml::Error| error.to_string())
}

/// One level of a YAML value.
pub enum Layer {
    /// The entries of a mapping.
    Mapping(Vec<(Key, serde_yaml::Value)>),
    /// A tag and what stands behind it.
    Tagged(String, serde_yaml::Value),
    /// A scalar or a sequence, in YAML notation.
    Leaf(String),
}

/// What the entries of a mapping hold.
pub open spec fn documents(entries: Seq<(Key, serde_yaml::Value)>) -> Seq<
    (KeyView, Tree<Seq<char>>),
> {
    Seq::new(entries.len(), |i: int| (entries[i].0@, document(entries[i].1)))
}

/// What a level holds.
pub open spec fn layer_tree(layer: Layer) -> Tree<Seq<char>> {
    match layer {
        Layer::Mapping(entries) => Tree::Mapping(documents(entries@)),
        Layer::Tagged(tag, inner) => Tree::Tagged(tag@, Box::new(document(inner))),
        Layer::Leaf(notation) => Tree::Leaf(notation@),
    }
}

/// The variants of `serde_yaml::Value` told apart: a mapping's entries in their
/// order, a tag with its value, or anything else. What is neither of the first
/// two, and a key that is no text, stand in the notation that
/// `serde_yaml::to_string` gives them, or as its error where it gives none.
#[verifier::external_body]
fn open_value(value: serde_yaml::Value) -> (r: Layer)
    ensures
        document(value) == layer_tree(r),
{
    let noted = |v: &serde_yaml::Value| serde_yaml::to_string(v).unwrap_or_else(|e| e.to_string());
    let keyed = |k: serde_yaml::Value| match k {
        serde_yaml::Value::String(text) => Key::Text(text),
        other => Key::Other(noted(&other)),
    };
    match value {
        serde_yaml::Value::Mapping(m) => {
            Layer::Mapping(m.into_iter().map(|(k, v)| (keyed(k), v)).collect())
        },
        serde_yaml::Value::Tagged(t) => Layer::Tagged(t.tag.to_string(), t.value),
        leaf => Layer::Leaf(noted(&leaf)),
    }
}

/// The document that a YAML value is.
fn node_of(value: serde_yaml::Value) -> (r: Node<String>)
    ensures
        tree::tree_of(r) == document(value),
    decreases document(value),
{
    let ghost whole = document(value);
    match open_value(value) {
        Layer::Mapping(entries) => {
            assert(decreases_to!(whole => whole->Mapping_0));
            Node::Mapping(nodes_of(entries))
        },
        Layer::Tagged(tag, inner) => {
            assert(decreases_to!(whole => whole->Tagged_1));
            Node::Tagged(tag, Box::new(node_of(inner)))
        },
        Layer::Leaf(notation) => Node::Leaf(notation),
    }
}

/// The documents that the entries of a mapping are.
fn nodes_of(entries: Vec<(Key, serde_yaml::Value)>) -> (r: Vec<(Key, Node<String>)>)
    ensures
        tree::entries_of(r@) == documents(entries@),
    decreases documents(entries@),
{
    let ghost whole = entries@;
    let mut rest = entries;
    match rest.pop() {
        None => {
            assert(documents(whole) =~= Seq::empty());
            Vec::new()
        },
        Some(entry) => {
            let (key, value) = entry;
            assert(rest@ =~= whole.drop_last());
            assert(documents(whole).drop_last() =~= documents(rest@));
            assert(documents(whole).last() == (key@, document(value)));
            let mut r = nodes_of(rest);
            let ghost before = r@;
            let ghost last = documents(whole)[whole.len() - 1];
            assert(decreases_to!(documents(whole) => last));
            assert(decreases_to!(last => last.1));
            let node = node_of(value);
            r.push((key, node));
            assert(r@.drop_last() =~= before);
            assert(tree::entries_of(r@) =~= documents(whole));
            r
        },
    }
}

/// Read a YAML text.
pub fn read_yaml(text: &str) -> (r: Result<Node<String>, String>)
    ensures
        match r {
            Ok(node) => yaml_read(text@) == Ok::<Tree<Seq<char>>, Seq<char>>(tree::tree_of(node)),
            Err(shown) => yaml_read(text@) == Err::<Tree<Seq<char>>, Seq<char>>(shown@),
        },
{
    match parse_yaml(text) {
        Ok(value) => Ok(node_of(value)),
        Err(shown) => Err(shown),
    }
}

/// The documents that the two texts denote, or the error of the first that
/// denotes none.
pub open spec fn both_read(
    defaults: Result<Tree<Seq<char>>, Seq<char>>,
    customer: Option<Result<Tree<Seq<char>>, Seq<char>>>,
) -> Result<(Tree<Seq<char>>, Option<Tree<Seq<char>>>), Seq<char>> {
    match (defaults, customer) {
        (Err(e), _) => Err(e),
        (Ok(_), Some(Err(e))) => Err(e),
        (Ok(d), Some(Ok(c))) => Ok((d, Some(c))),
        (Ok(d), None) => Ok((d, None)),
    }
}

/// What an optional text denotes.
pub open spec fn optional_read(text: Option<&str>) -> Option<Result<Tree<Seq<char>>, Seq<char>>> {
    match text {
        Some(t) => Some(yaml_read(t@)),
        None => None,
    }
}

/// The block that a stage is configured by, from the text of the defaults and
/// the text of the customer's settings, if there is one.
pub fn load_config_text(defaults: &str, customer: Option<&str>, env_name: &str) -> (r: Result<
    Node<String>,
    GatewayError,
>)
    ensures
        match both_read(yaml_read(defaults@), optional_read(customer)) {
            Err(shown) => r matches Err(e) && e.message@ == shown,
            Ok((d, c)) => match tree::stage_block(tree::applied(d, c, env_name@), env_name@) {
                Some(block) => r matches Ok(node) && tree::tree_of(node) == block,
                None => r matches Err(e) && e.message@ == tree::missing_block(env_name@),
            },
        },
{
    let lower = match read_yaml(defaults) {
        Ok(node) => node,
        Err(shown) => {
            return Err(failure(shown));
        },
    };
    let upper = match customer {
        None => None,
        Some(text) => match read_yaml(text) {
            Ok(node) => Some(node),
            Err(shown) => {
                return Err(failure(shown));
            },
        },
    };
    load_config_from(lower, upper, env_name)
}

/// Both documents are needed where there are two, and the defaults are read first: where
/// they cannot be read, their error is told.
pub proof fn lemma_both_documents_are_needed(
    defaults: Result<Tree<Seq<char>>, Seq<char>>,
    customer: Option<Result<Tree<Seq<char>>, Seq<char>>>,
)
    ensures
        both_read(defaults, customer) is Ok <==> defaults is Ok && (customer matches Some(c)
            ==> c is Ok),
        both_read(defaults, customer) matches Ok((d, c)) ==> {
            &&& defaults == Ok::<Tree<Seq<char>>, Seq<char>>(d)
            &&& c is Some <==> customer is Some
            &&& c matches Some(over) ==> customer == Some(Ok::<Tree<Seq<char>>, Seq<char>>(over))
        },
        defaults matches Err(e) ==> both_read(defaults, customer) == Err::<
            (Tree<Seq<char>>, Option<Tree<Seq<char>>>),
            Seq<char>,
        >(e),
{
}

} // verus!
