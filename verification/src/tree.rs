//! JSON documents as trees.

use vstd::prelude::*;
use crate::error::HydrateError;

verus! {

/// `serde_json::Value`, as the parser hands it over. Nothing is known of
/// what is inside one.
#[verifier::external_type_specification]
#[verifier::external_body]
pub struct ExJsonValue(serde_json::Value);

/// `serde_json::Number`: a number of a document, carried along unread.
#[verifier::external_type_specification]
#[verifier::external_body]
pub struct ExJsonNumber(serde_json::Number);

/// `serde_json::Error`: why a text was not read or a value not written.
#[verifier::external_type_specification]
#[verifier::external_body]
pub struct ExJsonError(serde_json::Error);

/// A JSON document. A number is carried as the parser made it and never
/// looked into; an object holds its members in the order they are written.
#[derive(Debug, PartialEq)]
pub enum JsonTree {
    Null,
    Bool(bool),
    Number(serde_json::Number),
    Text(String),
    Array(Vec<JsonTree>),
    Object(Vec<(String, JsonTree)>),
}

/// What a [`JsonTree`] stands for: the same tree over sequences.
pub enum TreeModel {
    Null,
    Bool(bool),
    Number(serde_json::Number),
    Text(Seq<char>),
    Array(Seq<TreeModel>),
    Object(Seq<(Seq<char>, TreeModel)>),
}

impl View for JsonTree {
    type V = TreeModel;

    open spec fn view(&self) -> TreeModel {
        tree_model(*self)
    }
}

/// What a tree stands for.
pub open spec fn tree_model(tree: JsonTree) -> TreeModel
    decreases tree,
{
    match tree {
        JsonTree::Null => TreeModel::Null,
        JsonTree::Bool(b) => TreeModel::Bool(b),
        JsonTree::Number(n) => TreeModel::Number(n),
        JsonTree::Text(s) => TreeModel::Text(s@),
        JsonTree::Array(items) => TreeModel::Array(models(items@)),
        JsonTree::Object(members) => TreeModel::Object(member_models(members@)),
    }
}

/// What a run of trees stands for, tree by tree.
pub open spec fn models(items: Seq<JsonTree>) -> Seq<TreeModel>
    decreases items,
{
    if items.len() == 0 {
        Seq::empty()
    } else {
        models(items.drop_last()).push(tree_model(items.last()))
    }
}

/// What the members of an object stand for, member by member.
pub open spec fn member_models(members: Seq<(String, JsonTree)>) -> Seq<(Seq<char>, TreeModel)>
    decreases members,
{
    if members.len() == 0 {
        Seq::empty()
    } else {
        member_models(members.drop_last()).push(
            (members.last().0@, tree_model(members.last().1)),
        )
    }
}

/// A run of trees stands for as many models, each that of the tree in its
/// place.
pub proof fn lemma_models(items: Seq<JsonTree>)
    ensures
        models(items).len() == items.len(),
        forall|i: int| 0 <= i < items.len() ==> (#[trigger] models(items)[i]) == items[i]@,
    decreases items.len(),
{
    if items.len() > 0 {
        lemma_models(items.drop_last());
        assert forall|i: int| 0 <= i < items.len() implies (#[trigger] models(items)[i])
            == items[i]@ by {
            if i < items.len() - 1 {
                assert(items.drop_last()[i] == items[i]);
            }
        }
    }
}

/// The members of an object stand for as many pairs, each the name and the
/// model of the member in its place.
pub proof fn lemma_member_models(members: Seq<(String, JsonTree)>)
    ensures
        member_models(members).len() == members.len(),
        forall|i: int|
            0 <= i < members.len() ==> (#[trigger] member_models(members)[i]) == (
                members[i].0@,
                members[i].1@,
            ),
    decreases members.len(),
{
    if members.len() > 0 {
        lemma_member_models(members.drop_last());
        assert forall|i: int| 0 <= i < members.len() implies (#[trigger] member_models(
            members,
        )[i]) == (members[i].0@, members[i].1@) by {
            if i < members.len() - 1 {
                assert(members.drop_last()[i] == members[i]);
            }
        }
    }
}

/// The value that `serde_json::from_str` reads from `text`, or nothing where
/// `text` is no JSON.
pub uninterp spec fn json_value(text: Seq<char>) -> Option<serde_json::Value>;

/// The text that `serde_json::to_string` writes for `value`, or nothing where
/// it gives an error.
pub uninterp spec fn json_text(value: serde_json::Value) -> Option<Seq<char>>;

/// The tree that a `serde_json::Value` holds: each of its variants as the
/// variant of the same kind, the members of an object in the value's own
/// order.
pub uninterp spec fn value_tree(value: serde_json::Value) -> TreeModel;

/// The `serde_json::Value` built from a tree, variant by variant, the members
/// of an object collected into the value's map.
pub uninterp spec fn tree_value(tree: TreeModel) -> serde_json::Value;

/// `serde_json::from_str` at the type `serde_json::Value`.
#[verifier::external_body]
fn value_from_str(text: &str) -> (res: Result<serde_json::Value, serde_json::Error>)
    ensures
        match res {
            Ok(value) => json_value(text@) == Some(value),
            Err(_) => json_value(text@) is None,
        },
{
    serde_json::from_str(text)
}

/// `serde_json::to_string` at the type `serde_json::Value`.
#[verifier::external_body]
fn value_to_string(value: &serde_json::Value) -> (res: Result<String, serde_json::Error>)
    ensures
        match res {
            Ok(text) => json_text(*value) == Some(text@),
            Err(_) => json_text(*value) is None,
        },
{
    serde_json::to_string(value)
}

/// Takes a `serde_json::Value` apart into a tree, one variant for one.
#[verifier::external_body]
fn tree_of_value(value: serde_json::Value) -> (tree: JsonTree)
    ensures
        tree@ == value_tree(value),
{
    match value {
        serde_json::Value::Null => JsonTree::Null,
        serde_json::Value::Bool(b) => JsonTree::Bool(b),
        serde_json::Value::Number(n) => JsonTree::Number(n),
        serde_json::Value::String(s) => JsonTree::Text(s),
        serde_json::Value::Array(items) => JsonTree::Array(
            items.into_iter().map(tree_of_value).collect(),
        ),
        serde_json::Value::Object(members) => JsonTree::Object(
            members.into_iter().map(|(k, v)| (k, tree_of_value(v))).collect(),
        ),
    }
}

/// Builds the `serde_json::Value` of a tree, one variant for one.
#[verifier::external_body]
fn value_of_tree(tree: &JsonTree) -> (value: serde_json::Value)
    ensures
        value == tree_value(tree@),
{
    match tree {
        JsonTree::Null => serde_json::Value::Null,
        JsonTree::Bool(b) => serde_json::Value::Bool(*b),
        JsonTree::Number(n) => serde_json::Value::Number(n.clone()),
        JsonTree::Text(s) => serde_json::Value::String(s.clone()),
        JsonTree::Array(items) => serde_json::Value::Array(
            items.iter().map(value_of_tree).collect(),
        ),
        JsonTree::Object(members) => serde_json::Value::Object(
            members.iter().map(|(k, v)| (k.clone(), value_of_tree(v))).collect(),
        ),
    }
}

/// The document that `text` is, or nothing where it is no JSON.
pub open spec fn parsed(text: Seq<char>) -> Option<TreeModel> {
    match json_value(text) {
        Some(value) => Some(value_tree(value)),
        None => None,
    }
}

/// The JSON text of a document, or nothing where it cannot be written.
pub open spec fn rendered(tree: TreeModel) -> Option<Seq<char>> {
    json_text(tree_value(tree))
}

/// Reads a JSON text as a document.
pub fn parse_document(text: &str) -> (res: Result<JsonTree, HydrateError>)
    ensures
        match res {
            Ok(tree) => parsed(text@) == Some(tree@),
            Err(e) => parsed(text@) is None && e == HydrateError::Parse,
        },
{
    match value_from_str(text) {
        Ok(value) => Ok(tree_of_value(value)),
        Err(_) => Err(HydrateError::Parse),
    }
}

/// Writes a document as JSON text.
pub fn render_document(tree: &JsonTree) -> (res: Result<String, HydrateError>)
    ensures
        match res {
            Ok(text) => rendered(tree@) == Some(text@),
            Err(e) => rendered(tree@) is None && e == HydrateError::Serialize,
        },
{
    let value = value_of_tree(tree);
    match value_to_string(&value) {
        Ok(text) => Ok(text),
        Err(_) => Err(HydrateError::Serialize),
    }
}

} // verus!
