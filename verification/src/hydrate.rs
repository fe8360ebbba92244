//! Hydration of binary payloads: a payload is bytes that are the JSON text of
//! a document, and any text inside that document may be the base64 form of a
//! further payload.

use vstd::prelude::*;
use vstd::utf8::{decode_utf8, encode_utf8, valid_utf8};
use crate::codec::{
    base64_decoded, base64_encoded, bytes_of_text, decode_binary, encodable, encode_binary,
    text_of_bytes,
};
use crate::error::HydrateError;
use crate::substitute::{free_of_names, lemma_substituted_free, replace_vars, substituted};
use crate::tree::{
    lemma_member_models, lemma_models, member_models, models, parse_document, parsed,
    render_document, rendered, JsonTree, TreeModel,
};
use crate::vars::VariableTable;

verus! {

/// The hydrated form of a payload, or the reason why there is none.
///
/// The bytes are read as text, the variables are substituted in the text, the
/// text is read as a document, the document's own payloads are hydrated, and
/// the document is written out again. `depth` is the number of layers of
/// documents that may be opened, this one counted: a document found where
/// none is left is refused.
pub open spec fn hydrated_bytes(
    bytes: Seq<u8>,
    table: Seq<(Seq<char>, Seq<char>)>,
    depth: nat,
) -> Result<Seq<u8>, HydrateError>
    decreases depth, 0nat,
{
    if !valid_utf8(bytes) {
        Err(HydrateError::Decode)
    } else {
        match parsed(substituted(decode_utf8(bytes), table)) {
            None => Err(HydrateError::Parse),
            Some(tree) => if depth == 0 {
                Err(HydrateError::DepthExceeded)
            } else {
                match hydrated_tree(tree, table, (depth - 1) as nat) {
                    Err(e) => Err(e),
                    Ok(done) => match rendered(done) {
                        None => Err(HydrateError::Serialize),
                        Some(text) => Ok(encode_utf8(text)),
                    },
                }
            },
        }
    }
}

/// The hydrated form of a binary value: a base64 text whose bytes are
/// hydrated and encoded again. A text that is no base64 fails as one that
/// cannot be decoded, and bytes too many to encode as a document that cannot
/// be written.
pub open spec fn hydrated_binary(
    binary: Seq<char>,
    table: Seq<(Seq<char>, Seq<char>)>,
    depth: nat,
) -> Result<Seq<char>, HydrateError>
    decreases depth, 1nat,
{
    match base64_decoded(binary) {
        None => Err(HydrateError::Decode),
        Some(bytes) => match hydrated_bytes(bytes, table, depth) {
            Ok(done) => if encodable(done) {
                Ok(base64_encoded(done))
            } else {
                Err(HydrateError::Serialize)
            },
            Err(e) => Err(e),
        },
    }
}

/// The hydrated form of a text inside a document: that of the binary value
/// which it is, and the text itself where it is none. Only a failure that
/// does not say so is one of the document.
pub open spec fn hydrated_text(
    text: Seq<char>,
    table: Seq<(Seq<char>, Seq<char>)>,
    depth: nat,
) -> Result<Seq<char>, HydrateError>
    decreases depth, 2nat,
{
    match hydrated_binary(text, table, depth) {
        Ok(done) => Ok(done),
        Err(e) => if e.not_a_document() {
            Ok(text)
        } else {
            Err(e)
        },
    }
}

/// The document with every payload in it hydrated, `depth` layers deep.
/// Numbers, booleans, nulls and the names of members stay as they are. Where
/// a payload fails for good, the first such failure in the order of the
/// document is the result.
pub open spec fn hydrated_tree(
    tree: TreeModel,
    table: Seq<(Seq<char>, Seq<char>)>,
    depth: nat,
) -> Result<TreeModel, HydrateError>
    decreases depth, 3nat, tree,
{
    match tree {
        TreeModel::Text(text) => match hydrated_text(text, table, depth) {
            Ok(done) => Ok(TreeModel::Text(done)),
            Err(e) => Err(e),
        },
        TreeModel::Array(items) => match hydrated_items(items, table, depth) {
            Ok(done) => Ok(TreeModel::Array(done)),
            Err(e) => Err(e),
        },
        TreeModel::Object(members) => match hydrated_members(members, table, depth) {
            Ok(done) => Ok(TreeModel::Object(done)),
            Err(e) => Err(e),
        },
        _ => Ok(tree),
    }
}

/// The items of an array, each hydrated, from the first to the last.
pub open spec fn hydrated_items(
    items: Seq<TreeModel>,
    table: Seq<(Seq<char>, Seq<char>)>,
    depth: nat,
) -> Result<Seq<TreeModel>, HydrateError>
    decreases depth, 3nat, items,
{
    if items.len() == 0 {
        Ok(Seq::empty())
    } else {
        match hydrated_items(items.drop_last(), table, depth) {
            Err(e) => Err(e),
            Ok(init) => match hydrated_tree(items.last(), table, depth) {
                Err(e) => Err(e),
                Ok(last) => Ok(init.push(last)),
            },
        }
    }
}

/// The members of an object, the value of each hydrated, from the first to
/// the last.
pub open spec fn hydrated_members(
    members: Seq<(Seq<char>, TreeModel)>,
    table: Seq<(Seq<char>, Seq<char>)>,
    depth: nat,
) -> Result<Seq<(Seq<char>, TreeModel)>, HydrateError>
    decreases depth, 3nat, members,
{
    if members.len() == 0 {
        Ok(Seq::empty())
    } else {
        match hydrated_members(members.drop_last(), table, depth) {
            Err(e) => Err(e),
            Ok(init) => match hydrated_tree(members.last().1, table, depth) {
                Err(e) => Err(e),
                Ok(last) => Ok(init.push((members.last().0, last))),
            },
        }
    }
}

/// `text` is the base64 form of bytes that are text.
pub open spec fn holds_text(text: Seq<char>) -> bool {
    base64_decoded(text) matches Some(bytes) && valid_utf8(bytes)
}

/// `after` is `before` with nothing changed but payloads, and each of them
/// still a payload: the two trees have one shape, the same names, numbers,
/// booleans and nulls, and every text of `after` is the text that stood there
/// or the base64 form of bytes that are text.
pub open spec fn payloads_kept(before: TreeModel, after: TreeModel) -> bool
    decreases before,
{
    match before {
        TreeModel::Text(old) => after matches TreeModel::Text(new) && (new == old || holds_text(
            new,
        )),
        TreeModel::Array(items) => after matches TreeModel::Array(done) && items_kept(items, done),
        TreeModel::Object(members) => after matches TreeModel::Object(done) && members_kept(
            members,
            done,
        ),
        _ => after == before,
    }
}

/// [`payloads_kept`] of the items of an array, place by place.
pub open spec fn items_kept(before: Seq<TreeModel>, after: Seq<TreeModel>) -> bool
    decreases before,
{
    if before.len() == 0 {
        after.len() == 0
    } else {
        &&& after.len() == before.len()
        &&& items_kept(before.drop_last(), after.drop_last())
        &&& payloads_kept(before.last(), after.last())
    }
}

/// [`payloads_kept`] of the members of an object, place by place, each under
/// the name it had.
pub open spec fn members_kept(
    before: Seq<(Seq<char>, TreeModel)>,
    after: Seq<(Seq<char>, TreeModel)>,
) -> bool
    decreases before,
{
    if before.len() == 0 {
        after.len() == 0
    } else {
        &&& after.len() == before.len()
        &&& members_kept(before.drop_last(), after.drop_last())
        &&& after.last().0 == before.last().0
        &&& payloads_kept(before.last().1, after.last().1)
    }
}

/// What [`items_kept`] says of each place.
pub proof fn lemma_items_kept(before: Seq<TreeModel>, after: Seq<TreeModel>)
    requires
        items_kept(before, after),
    ensures
        after.len() == before.len(),
        forall|i: int| 0 <= i < before.len() ==> payloads_kept(#[trigger] before[i], after[i]),
    decreases before.len(),
{
    if before.len() > 0 {
        lemma_items_kept(before.drop_last(), after.drop_last());
        assert forall|i: int| 0 <= i < before.len() implies payloads_kept(
            #[trigger] before[i],
            after[i],
        ) by {
            if i < before.len() - 1 {
                assert(before.drop_last()[i] == before[i]);
                assert(after.drop_last()[i] == after[i]);
            }
        }
    }
}

/// What [`members_kept`] says of each place.
pub proof fn lemma_members_kept(
    before: Seq<(Seq<char>, TreeModel)>,
    after: Seq<(Seq<char>, TreeModel)>,
)
    requires
        members_kept(before, after),
    ensures
        after.len() == before.len(),
        forall|i: int|
            0 <= i < before.len() ==> after[i].0 == (#[trigger] before[i]).0 && payloads_kept(
                before[i].1,
                after[i].1,
            ),
    decreases before.len(),
{
    if before.len() > 0 {
        lemma_members_kept(before.drop_last(), after.drop_last());
        assert forall|i: int| 0 <= i < before.len() implies after[i].0 == (#[trigger] before[i]).0
            && payloads_kept(before[i].1, after[i].1) by {
            if i < before.len() - 1 {
                assert(before.drop_last()[i] == before[i]);
                assert(after.drop_last()[i] == after[i]);
            }
        }
    }
}

/// A text that is no base64 is never decoded, read or encoded: it stays as
/// it is, whatever the variables and the depth.
pub proof fn lemma_plain_text_untouched(
    text: Seq<char>,
    table: Seq<(Seq<char>, Seq<char>)>,
    depth: nat,
)
    requires
        base64_decoded(text) is None,
    ensures
        hydrated_text(text, table, depth) == Ok::<Seq<char>, HydrateError>(text),
{
}

/// A text that is base64 of bytes that are no document stays as it is, and
/// no failure comes of it.
pub proof fn lemma_text_without_document_untouched(
    text: Seq<char>,
    bytes: Seq<u8>,
    table: Seq<(Seq<char>, Seq<char>)>,
    depth: nat,
)
    requires
        base64_decoded(text) == Some(bytes),
        !valid_utf8(bytes) || parsed(substituted(decode_utf8(bytes), table)) is None,
    ensures
        hydrated_text(text, table, depth) == Ok::<Seq<char>, HydrateError>(text),
{
}

/// The walk leaves numbers, booleans and nulls as they are.
pub proof fn lemma_plain_values_untouched(
    tree: TreeModel,
    table: Seq<(Seq<char>, Seq<char>)>,
    depth: nat,
)
    requires
        tree is Null || tree is Bool || tree is Number,
    ensures
        hydrated_tree(tree, table, depth) == Ok::<TreeModel, HydrateError>(tree),
{
}

/// What a hydrated payload is made of: its bytes were text, the text read
/// as a document once the variables were substituted in it, the walk over
/// that document went well with one layer less, and the result is that
/// document written out.
pub proof fn lemma_layer_of_payload(
    bytes: Seq<u8>,
    table: Seq<(Seq<char>, Seq<char>)>,
    depth: nat,
)
    requires
        hydrated_bytes(bytes, table, depth) is Ok,
    ensures
        depth > 0,
        valid_utf8(bytes),
        parsed(substituted(decode_utf8(bytes), table)) matches Some(tree) && hydrated_tree(
            tree,
            table,
            (depth - 1) as nat,
        ) matches Ok(done) && rendered(done) matches Some(text) && hydrated_bytes(
            bytes,
            table,
            depth,
        ) == Ok::<Seq<u8>, HydrateError>(encode_utf8(text)),
{
}

/// What a rewritten text is made of: it was the base64 form of a payload,
/// that payload was hydrated with the same variables and the same depth, and
/// the new text is the base64 form of the hydrated payload.
pub proof fn lemma_layer_of_text(
    text: Seq<char>,
    table: Seq<(Seq<char>, Seq<char>)>,
    depth: nat,
)
    requires
        hydrated_text(text, table, depth) matches Ok(new) && new != text,
    ensures
        base64_decoded(text) matches Some(bytes) && hydrated_bytes(bytes, table, depth) matches Ok(
            done,
        ) && hydrated_text(text, table, depth) == Ok::<Seq<char>, HydrateError>(
            base64_encoded(done),
        ),
{
}

/// No text anywhere in `tree` is base64.
pub open spec fn without_payloads(tree: TreeModel) -> bool
    decreases tree,
{
    match tree {
        TreeModel::Text(text) => base64_decoded(text) is None,
        TreeModel::Array(items) => items_without_payloads(items),
        TreeModel::Object(members) => members_without_payloads(members),
        _ => true,
    }
}

/// No text anywhere in `items` is base64.
pub open spec fn items_without_payloads(items: Seq<TreeModel>) -> bool
    decreases items,
{
    items.len() == 0 || (items_without_payloads(items.drop_last()) && without_payloads(
        items.last(),
    ))
}

/// No text anywhere in the values of `members` is base64.
pub open spec fn members_without_payloads(members: Seq<(Seq<char>, TreeModel)>) -> bool
    decreases members,
{
    members.len() == 0 || (members_without_payloads(members.drop_last()) && without_payloads(
        members.last().1,
    ))
}

/// The walk leaves a document alone in which no text is base64, at any depth
/// and whatever the variables.
pub proof fn lemma_tree_without_payloads_untouched(
    tree: TreeModel,
    table: Seq<(Seq<char>, Seq<char>)>,
    depth: nat,
)
    requires
        without_payloads(tree),
    ensures
        hydrated_tree(tree, table, depth) == Ok::<TreeModel, HydrateError>(tree),
    decreases tree,
{
    match tree {
        TreeModel::Text(text) => {
            lemma_plain_text_untouched(text, table, depth);
        },
        TreeModel::Array(items) => {
            lemma_items_without_payloads_untouched(items, table, depth);
        },
        TreeModel::Object(members) => {
            lemma_members_without_payloads_untouched(members, table, depth);
        },
        _ => {},
    }
}

proof fn lemma_items_without_payloads_untouched(
    items: Seq<TreeModel>,
    table: Seq<(Seq<char>, Seq<char>)>,
    depth: nat,
)
    requires
        items_without_payloads(items),
    ensures
        hydrated_items(items, table, depth) == Ok::<Seq<TreeModel>, HydrateError>(items),
    decreases items,
{
    if items.len() > 0 {
        lemma_items_without_payloads_untouched(items.drop_last(), table, depth);
        lemma_tree_without_payloads_untouched(items.last(), table, depth);
        assert(items.drop_last().push(items.last()) =~= items);
    } else {
        assert(items =~= Seq::empty());
    }
}

proof fn lemma_members_without_payloads_untouched(
    members: Seq<(Seq<char>, TreeModel)>,
    table: Seq<(Seq<char>, Seq<char>)>,
    depth: nat,
)
    requires
        members_without_payloads(members),
    ensures
        hydrated_members(members, table, depth) == Ok::<
            Seq<(Seq<char>, TreeModel)>,
            HydrateError,
        >(members),
    decreases members,
{
    if members.len() > 0 {
        lemma_members_without_payloads_untouched(members.drop_last(), table, depth);
        lemma_tree_without_payloads_untouched(members.last().1, table, depth);
        assert(members.drop_last().push((members.last().0, members.last().1)) =~= members);
    } else {
        assert(members =~= Seq::empty());
    }
}

/// A payload in which nothing is to be substituted and nothing to be
/// hydrated is the document that it held, written out as it was read.
pub proof fn lemma_payload_without_change(
    bytes: Seq<u8>,
    tree: TreeModel,
    table: Seq<(Seq<char>, Seq<char>)>,
    depth: nat,
)
    requires
        depth > 0,
        valid_utf8(bytes),
        free_of_names(decode_utf8(bytes), table),
        parsed(decode_utf8(bytes)) == Some(tree),
        without_payloads(tree),
    ensures
        hydrated_bytes(bytes, table, depth) == match rendered(tree) {
            Some(text) => Ok::<Seq<u8>, HydrateError>(encode_utf8(text)),
            None => Err::<Seq<u8>, HydrateError>(HydrateError::Serialize),
        },
{
    lemma_substituted_free(decode_utf8(bytes), table);
    lemma_tree_without_payloads_untouched(tree, table, (depth - 1) as nat);
}

/// Each item of a hydrated array is the hydrated item in its place: what is
/// substituted inside one item changes no other.
pub proof fn lemma_items_pointwise(
    items: Seq<TreeModel>,
    table: Seq<(Seq<char>, Seq<char>)>,
    depth: nat,
)
    requires
        hydrated_items(items, table, depth) is Ok,
    ensures
        hydrated_items(items, table, depth)->Ok_0.len() == items.len(),
        forall|i: int|
            0 <= i < items.len() ==> hydrated_tree(#[trigger] items[i], table, depth) == Ok::<
                TreeModel,
                HydrateError,
            >(hydrated_items(items, table, depth)->Ok_0[i]),
    decreases items.len(),
{
    if items.len() > 0 {
        let init = items.drop_last();
        lemma_items_pointwise(init, table, depth);
        let done = hydrated_items(items, table, depth)->Ok_0;
        assert forall|i: int| 0 <= i < items.len() implies hydrated_tree(
            #[trigger] items[i],
            table,
            depth,
        ) == Ok::<TreeModel, HydrateError>(done[i]) by {
            if i < items.len() - 1 {
                assert(init[i] == items[i]);
            }
        }
    }
}

/// Each member of a hydrated object has the name it had and the hydrated
/// value of the member in its place.
pub proof fn lemma_members_pointwise(
    members: Seq<(Seq<char>, TreeModel)>,
    table: Seq<(Seq<char>, Seq<char>)>,
    depth: nat,
)
    requires
        hydrated_members(members, table, depth) is Ok,
    ensures
        hydrated_members(members, table, depth)->Ok_0.len() == members.len(),
        forall|i: int|
            0 <= i < members.len() ==> {
                &&& hydrated_members(members, table, depth)->Ok_0[i].0 == (#[trigger] members[i]).0
                &&& hydrated_tree(members[i].1, table, depth) == Ok::<TreeModel, HydrateError>(
                    hydrated_members(members, table, depth)->Ok_0[i].1,
                )
            },
    decreases members.len(),
{
    if members.len() > 0 {
        let init = members.drop_last();
        lemma_members_pointwise(init, table, depth);
        let done = hydrated_members(members, table, depth)->Ok_0;
        assert forall|i: int| 0 <= i < members.len() implies {
            &&& done[i].0 == (#[trigger] members[i]).0
            &&& hydrated_tree(members[i].1, table, depth) == Ok::<TreeModel, HydrateError>(
                done[i].1,
            )
        } by {
            if i < members.len() - 1 {
                assert(init[i] == members[i]);
            }
        }
    }
}

/// The failure of a depth that was too small.
pub open spec fn too_deep<T>(res: Result<T, HydrateError>) -> bool {
    res == Err::<T, HydrateError>(HydrateError::DepthExceeded)
}

proof fn lemma_deeper_bytes(bytes: Seq<u8>, table: Seq<(Seq<char>, Seq<char>)>, depth: nat)
    requires
        !too_deep(hydrated_bytes(bytes, table, depth)),
    ensures
        hydrated_bytes(bytes, table, depth + 1) == hydrated_bytes(bytes, table, depth),
    decreases depth, 0nat,
{
    if valid_utf8(bytes) {
        match parsed(substituted(decode_utf8(bytes), table)) {
            None => {},
            Some(tree) => {
                assert(depth > 0);
                lemma_deeper_tree(tree, table, (depth - 1) as nat);
            },
        }
    }
}

proof fn lemma_deeper_binary(binary: Seq<char>, table: Seq<(Seq<char>, Seq<char>)>, depth: nat)
    requires
        !too_deep(hydrated_binary(binary, table, depth)),
    ensures
        hydrated_binary(binary, table, depth + 1) == hydrated_binary(binary, table, depth),
    decreases depth, 1nat,
{
    match base64_decoded(binary) {
        None => {},
        Some(bytes) => {
            lemma_deeper_bytes(bytes, table, depth);
        },
    }
}

proof fn lemma_deeper_text(text: Seq<char>, table: Seq<(Seq<char>, Seq<char>)>, depth: nat)
    requires
        !too_deep(hydrated_text(text, table, depth)),
    ensures
        hydrated_text(text, table, depth + 1) == hydrated_text(text, table, depth),
    decreases depth, 2nat,
{
    lemma_deeper_binary(text, table, depth);
}

proof fn lemma_deeper_tree(tree: TreeModel, table: Seq<(Seq<char>, Seq<char>)>, depth: nat)
    requires
        !too_deep(hydrated_tree(tree, table, depth)),
    ensures
        hydrated_tree(tree, table, depth + 1) == hydrated_tree(tree, table, depth),
    decreases depth, 3nat, tree,
{
    match tree {
        TreeModel::Text(text) => {
            lemma_deeper_text(text, table, depth);
        },
        TreeModel::Array(items) => {
            lemma_deeper_items(items, table, depth);
        },
        TreeModel::Object(members) => {
            lemma_deeper_members(members, table, depth);
        },
        _ => {},
    }
}

proof fn lemma_deeper_items(items: Seq<TreeModel>, table: Seq<(Seq<char>, Seq<char>)>, depth: nat)
    requires
        !too_deep(hydrated_items(items, table, depth)),
    ensures
        hydrated_items(items, table, depth + 1) == hydrated_items(items, table, depth),
    decreases depth, 3nat, items,
{
    if items.len() > 0 {
        lemma_deeper_items(items.drop_last(), table, depth);
        if hydrated_items(items.drop_last(), table, depth) is Ok {
            lemma_deeper_tree(items.last(), table, depth);
        }
    }
}

proof fn lemma_deeper_members(
    members: Seq<(Seq<char>, TreeModel)>,
    table: Seq<(Seq<char>, Seq<char>)>,
    depth: nat,
)
    requires
        !too_deep(hydrated_members(members, table, depth)),
    ensures
        hydrated_members(members, table, depth + 1) == hydrated_members(members, table, depth),
    decreases depth, 3nat, members,
{
    if members.len() > 0 {
        lemma_deeper_members(members.drop_last(), table, depth);
        if hydrated_members(members.drop_last(), table, depth) is Ok {
            lemma_deeper_tree(members.last().1, table, depth);
        }
    }
}

/// A depth that was enough gives what every greater depth gives: where the
/// result is not the failure of the depth, every layer that there is was
/// opened and hydrated.
pub proof fn lemma_enough_depth(
    bytes: Seq<u8>,
    table: Seq<(Seq<char>, Seq<char>)>,
    depth: nat,
    more: nat,
)
    requires
        depth <= more,
        !too_deep(hydrated_bytes(bytes, table, depth)),
    ensures
        hydrated_bytes(bytes, table, more) == hydrated_bytes(bytes, table, depth),
    decreases more - depth,
{
    if depth < more {
        lemma_enough_depth(bytes, table, depth, (more - 1) as nat);
        lemma_deeper_bytes(bytes, table, (more - 1) as nat);
    }
}

/// The same of the walk over a document.
pub proof fn lemma_enough_depth_tree(
    tree: TreeModel,
    table: Seq<(Seq<char>, Seq<char>)>,
    depth: nat,
    more: nat,
)
    requires
        depth <= more,
        !too_deep(hydrated_tree(tree, table, depth)),
    ensures
        hydrated_tree(tree, table, more) == hydrated_tree(tree, table, depth),
    decreases more - depth,
{
    if depth < more {
        lemma_enough_depth_tree(tree, table, depth, (more - 1) as nat);
        lemma_deeper_tree(tree, table, (more - 1) as nat);
    }
}

/// The walk never fails because a text was no document: a failure of it is
/// that of the depth or of writing a document out.
pub proof fn lemma_walk_failures(tree: TreeModel, table: Seq<(Seq<char>, Seq<char>)>, depth: nat)
    ensures
        hydrated_tree(tree, table, depth) matches Err(e) ==> !e.not_a_document(),
    decreases depth, 3nat, tree,
{
    match tree {
        TreeModel::Array(items) => {
            lemma_walk_failures_items(items, table, depth);
        },
        TreeModel::Object(members) => {
            lemma_walk_failures_members(members, table, depth);
        },
        _ => {},
    }
}

proof fn lemma_walk_failures_items(
    items: Seq<TreeModel>,
    table: Seq<(Seq<char>, Seq<char>)>,
    depth: nat,
)
    ensures
        hydrated_items(items, table, depth) matches Err(e) ==> !e.not_a_document(),
    decreases depth, 3nat, items,
{
    if items.len() > 0 {
        lemma_walk_failures_items(items.drop_last(), table, depth);
        lemma_walk_failures(items.last(), table, depth);
    }
}

proof fn lemma_walk_failures_members(
    members: Seq<(Seq<char>, TreeModel)>,
    table: Seq<(Seq<char>, Seq<char>)>,
    depth: nat,
)
    ensures
        hydrated_members(members, table, depth) matches Err(e) ==> !e.not_a_document(),
    decreases depth, 3nat, members,
{
    if members.len() > 0 {
        lemma_walk_failures_members(members.drop_last(), table, depth);
        lemma_walk_failures(members.last().1, table, depth);
    }
}

/// Hydrates a payload: reads `msg` as text, substitutes the variables, reads
/// the text as a document, hydrates the payloads inside it, and writes the
/// document out again. At most `depth` layers of documents are opened. What
/// comes out is text again.
pub fn recursively_hydrate(msg: Vec<u8>, var_pairs: &VariableTable, depth: usize) -> (res: Result<
    Vec<u8>,
    HydrateError,
>)
    ensures
        match res {
            Ok(done) => hydrated_bytes(msg@, var_pairs@, depth as nat) == Ok::<
                Seq<u8>,
                HydrateError,
            >(done@),
            Err(e) => hydrated_bytes(msg@, var_pairs@, depth as nat) == Err::<
                Seq<u8>,
                HydrateError,
            >(e),
        },
        res matches Ok(done) ==> valid_utf8(done@),
    decreases depth, 0nat,
{
    let text = match text_of_bytes(msg) {
        Some(text) => text,
        None => {
            return Err(HydrateError::Decode);
        },
    };
    let text = replace_vars(text, var_pairs);
    let tree = match parse_document(text.as_str()) {
        Ok(tree) => tree,
        Err(e) => {
            return Err(e);
        },
    };
    if depth == 0 {
        return Err(HydrateError::DepthExceeded);
    }
    let done = match find_and_replace_binary_fields(tree, var_pairs, depth - 1) {
        Ok(done) => done,
        Err(e) => {
            return Err(e);
        },
    };
    match render_document(&done) {
        Ok(out) => Ok(bytes_of_text(out.as_str())),
        Err(e) => Err(e),
    }
}

/// Hydrates a binary value: decodes the base64 text, hydrates the bytes and
/// encodes them again. What comes out is base64 of text.
pub fn hydrate_binary(binary: &str, var_pairs: &VariableTable, depth: usize) -> (res: Result<
    String,
    HydrateError,
>)
    ensures
        match res {
            Ok(done) => hydrated_binary(binary@, var_pairs@, depth as nat) == Ok::<
                Seq<char>,
                HydrateError,
            >(done@),
            Err(e) => hydrated_binary(binary@, var_pairs@, depth as nat) == Err::<
                Seq<char>,
                HydrateError,
            >(e),
        },
        res matches Ok(done) ==> holds_text(done@),
    decreases depth, 1nat,
{
    match decode_binary(binary) {
        None => Err(HydrateError::Decode),
        Some(bytes) => match recursively_hydrate(bytes, var_pairs, depth) {
            Ok(done) => match encode_binary(&done) {
                Some(text) => Ok(text),
                None => Err(HydrateError::Serialize),
            },
            Err(e) => Err(e),
        },
    }
}

/// Hydrates one text of a document: where it is the base64 form of a
/// document, that document is hydrated and encoded again; any other text is
/// handed back as it came. A text that was base64 is base64 afterwards, and
/// one that was rewritten is base64 of text.
pub fn hydrate_text(text: String, var_pairs: &VariableTable, depth: usize) -> (res: Result<
    String,
    HydrateError,
>)
    ensures
        match res {
            Ok(done) => hydrated_text(text@, var_pairs@, depth as nat) == Ok::<
                Seq<char>,
                HydrateError,
            >(done@),
            Err(e) => hydrated_text(text@, var_pairs@, depth as nat) == Err::<
                Seq<char>,
                HydrateError,
            >(e),
        },
        res matches Ok(done) ==> base64_decoded(done@).is_some() == base64_decoded(text@).is_some(),
        res matches Ok(done) ==> done@ == text@ || holds_text(done@),
    decreases depth, 2nat,
{
    match hydrate_binary(text.as_str(), var_pairs, depth) {
        Ok(done) => Ok(done),
        Err(e) => if e.is_not_a_document() {
            Ok(text)
        } else {
            Err(e)
        },
    }
}

/// Walks a document and hydrates every payload found in it: each text of an
/// array or of a member, at any depth, that is the base64 form of a document.
/// Nothing else of the document changes, and every text that was rewritten
/// can be decoded again.
pub fn find_and_replace_binary_fields(
    val: JsonTree,
    var_pairs: &VariableTable,
    depth: usize,
) -> (res: Result<JsonTree, HydrateError>)
    ensures
        match res {
            Ok(done) => hydrated_tree(val@, var_pairs@, depth as nat) == Ok::<
                TreeModel,
                HydrateError,
            >(done@),
            Err(e) => hydrated_tree(val@, var_pairs@, depth as nat) == Err::<
                TreeModel,
                HydrateError,
            >(e),
        },
        res matches Ok(done) ==> payloads_kept(val@, done@),
    decreases depth, 3nat, val,
{
    match val {
        JsonTree::Text(text) => match hydrate_text(text, var_pairs, depth) {
            Ok(done) => Ok(JsonTree::Text(done)),
            Err(e) => Err(e),
        },
        JsonTree::Array(items) => match hydrate_items(items, var_pairs, depth) {
            Ok(done) => Ok(JsonTree::Array(done)),
            Err(e) => Err(e),
        },
        JsonTree::Object(members) => match hydrate_members(members, var_pairs, depth) {
            Ok(done) => Ok(JsonTree::Object(done)),
            Err(e) => Err(e),
        },
        other => Ok(other),
    }
}

/// Hydrates the items of an array in their order and stops at the first that
/// fails for good.
fn hydrate_items(items: Vec<JsonTree>, var_pairs: &VariableTable, depth: usize) -> (res: Result<
    Vec<JsonTree>,
    HydrateError,
>)
    ensures
        match res {
            Ok(done) => hydrated_items(models(items@), var_pairs@, depth as nat) == Ok::<
                Seq<TreeModel>,
                HydrateError,
            >(models(done@)),
            Err(e) => hydrated_items(models(items@), var_pairs@, depth as nat) == Err::<
                Seq<TreeModel>,
                HydrateError,
            >(e),
        },
        res matches Ok(done) ==> items_kept(models(items@), models(done@)),
    decreases depth, 3nat, items,
{
    let ghost all = items@;
    let ghost table = var_pairs@;
    let mut out: Vec<JsonTree> = Vec::new();
    assert(all.take(0) =~= Seq::empty());
    for item in it: items
        invariant
            it.seq() == all,
            table == var_pairs@,
            hydrated_items(models(all.take(it.index() as int)), table, depth as nat) == Ok::<
                Seq<TreeModel>,
                HydrateError,
            >(models(out@)),
            items_kept(models(all.take(it.index() as int)), models(out@)),
    {
        let ghost i = it.index() as int;
        let ghost upto = models(all.take(i + 1));
        proof {
            assert(all.take(i + 1).drop_last() =~= all.take(i));
            assert(all.take(i + 1).last() == item);
            assert(upto == models(all.take(i)).push(item@));
            assert(upto.drop_last() =~= models(all.take(i)));
            assert(upto.last() == item@);
        }
        match find_and_replace_binary_fields(item, var_pairs, depth) {
            Ok(done) => {
                let ghost before = out@;
                out.push(done);
                assert(out@.drop_last() =~= before);
                assert(models(out@) == models(before).push(done@));
                assert(models(out@).drop_last() =~= models(before));
                assert(models(out@).last() == done@);
            },
            Err(e) => {
                proof {
                    lemma_models(all);
                    lemma_models_take(all, i + 1);
                    lemma_items_fail(models(all), i + 1, table, depth as nat);
                }
                return Err(e);
            },
        }
    }
    assert(all.take(all.len() as int) =~= all);
    Ok(out)
}

/// Hydrates the values of the members of an object in their order and stops
/// at the first that fails for good.
fn hydrate_members(
    members: Vec<(String, JsonTree)>,
    var_pairs: &VariableTable,
    depth: usize,
) -> (res: Result<Vec<(String, JsonTree)>, HydrateError>)
    ensures
        match res {
            Ok(done) => hydrated_members(member_models(members@), var_pairs@, depth as nat) == Ok::<
                Seq<(Seq<char>, TreeModel)>,
                HydrateError,
            >(member_models(done@)),
            Err(e) => hydrated_members(member_models(members@), var_pairs@, depth as nat) == Err::<
                Seq<(Seq<char>, TreeModel)>,
                HydrateError,
            >(e),
        },
        res matches Ok(done) ==> members_kept(member_models(members@), member_models(done@)),
    decreases depth, 3nat, members,
{
    let ghost all = members@;
    let ghost table = var_pairs@;
    let mut out: Vec<(String, JsonTree)> = Vec::new();
    assert(all.take(0) =~= Seq::empty());
    for member in it: members
        invariant
            it.seq() == all,
            table == var_pairs@,
            hydrated_members(member_models(all.take(it.index() as int)), table, depth as nat)
                == Ok::<Seq<(Seq<char>, TreeModel)>, HydrateError>(member_models(out@)),
            members_kept(member_models(all.take(it.index() as int)), member_models(out@)),
    {
        let ghost i = it.index() as int;
        let ghost upto = member_models(all.take(i + 1));
        proof {
            assert(all.take(i + 1).drop_last() =~= all.take(i));
            assert(all.take(i + 1).last() == member);
            assert(upto == member_models(all.take(i)).push((member.0@, member.1@)));
            assert(upto.drop_last() =~= member_models(all.take(i)));
            assert(upto.last() == (member.0@, member.1@));
        }
        let (name, value) = member;
        match find_and_replace_binary_fields(value, var_pairs, depth) {
            Ok(done) => {
                let ghost before = out@;
                out.push((name, done));
                assert(out@.drop_last() =~= before);
                assert(member_models(out@) == member_models(before).push((name@, done@)));
                assert(member_models(out@).drop_last() =~= member_models(before));
                assert(member_models(out@).last() == (name@, done@));
            },
            Err(e) => {
                proof {
                    lemma_member_models(all);
                    lemma_member_models_take(all, i + 1);
                    lemma_members_fail(member_models(all), i + 1, table, depth as nat);
                }
                return Err(e);
            },
        }
    }
    assert(all.take(all.len() as int) =~= all);
    Ok(out)
}

/// The models of the first trees of a run are the first models of the run.
proof fn lemma_models_take(items: Seq<JsonTree>, upto: int)
    requires
        0 <= upto <= items.len(),
    ensures
        models(items.take(upto)) == models(items).take(upto),
{
    lemma_models(items);
    lemma_models(items.take(upto));
    assert(models(items.take(upto)) =~= models(items).take(upto));
}

/// The models of the first members of an object are the first models of the
/// object.
proof fn lemma_member_models_take(members: Seq<(String, JsonTree)>, upto: int)
    requires
        0 <= upto <= members.len(),
    ensures
        member_models(members.take(upto)) == member_models(members).take(upto),
{
    lemma_member_models(members);
    lemma_member_models(members.take(upto));
    assert(member_models(members.take(upto)) =~= member_models(members).take(upto));
}

/// Where the first `upto` items of an array fail, the array fails the same
/// way.
proof fn lemma_items_fail(
    items: Seq<TreeModel>,
    upto: int,
    table: Seq<(Seq<char>, Seq<char>)>,
    depth: nat,
)
    requires
        0 <= upto <= items.len(),
        hydrated_items(items.take(upto), table, depth) is Err,
    ensures
        hydrated_items(items, table, depth) == hydrated_items(items.take(upto), table, depth),
    decreases items.len(),
{
    if upto < items.len() {
        assert(items.drop_last().take(upto) =~= items.take(upto));
        lemma_items_fail(items.drop_last(), upto, table, depth);
    } else {
        assert(items.take(upto) =~= items);
    }
}

/// Where the first `upto` members of an object fail, the object fails the
/// same way.
proof fn lemma_members_fail(
    members: Seq<(Seq<char>, TreeModel)>,
    upto: int,
    table: Seq<(Seq<char>, Seq<char>)>,
    depth: nat,
)
    requires
        0 <= upto <= members.len(),
        hydrated_members(members.take(upto), table, depth) is Err,
    ensures
        hydrated_members(members, table, depth) == hydrated_members(
            members.take(upto),
            table,
            depth,
        ),
    decreases members.len(),
{
    if upto < members.len() {
        assert(members.drop_last().take(upto) =~= members.take(upto));
        lemma_members_fail(members.drop_last(), upto, table, depth);
    } else {
        assert(members.take(upto) =~= members);
    }
}

} // verus!
