//! Reading scalars, object pointers and child positions out of a parsed tree.
use vstd::prelude::*;

use crate::asset::{span_text, Asset, Document};
use crate::pointer::{child_spec, path_child, path_index};
use crate::syntax::{first_key_index, lemma_first_key_index, Node, NodeKind};
use crate::text::{all_char, chars_of, decimal_digits, only_char, string_of, text_eq, trim_chars, trimmed};
use crate::tree::node_wf;

verus! {

/// The trimmed text of a scalar node.
pub open spec fn text_of(bytes: Seq<u8>, n: Node) -> Option<Seq<char>> {
    match n.kind {
        NodeKind::Scalar(_) => Some(trimmed(span_text(bytes, n.span))),
        _ => None,
    }
}

/// The trimmed scalar text of the field `key` of a mapping node.
pub open spec fn field_text(bytes: Seq<u8>, n: Node, key: Seq<char>) -> Option<Seq<char>> {
    match n.spec_get(key) {
        Some(c) => text_of(bytes, c),
        None => None,
    }
}

/// Whether an object pointer names another asset: its `guid` is a scalar
/// with a character other than `0`.
pub open spec fn names_external(bytes: Seq<u8>, n: Node) -> bool {
    field_text(bytes, n, "guid"@) matches Some(g) && !all_char(g, '0')
}

/// The file ID of a pointer into this asset.
pub open spec fn local_id_spec(bytes: Seq<u8>, n: Node) -> Option<Seq<char>> {
    if names_external(bytes, n) {
        None
    } else {
        field_text(bytes, n, "fileID"@)
    }
}

/// The local file ID the field `key` of `n` points to.
pub open spec fn field_local_spec(bytes: Seq<u8>, n: Node, key: Seq<char>) -> Option<Seq<char>> {
    match n.spec_get(key) {
        Some(c) => local_id_spec(bytes, c),
        None => None,
    }
}

pub open spec fn pointer_key(k: Seq<char>) -> bool {
    k == "fileID"@ || k == "guid"@ || k == "type"@
}

/// An object pointer: a mapping with a `fileID` and no keys but `fileID`,
/// `guid` and `type`.
pub open spec fn is_pptr(n: Node) -> bool {
    &&& n.spec_get("fileID"@) is Some
    &&& match n.kind {
        NodeKind::Mapping(es) => forall|k: int| 0 <= k < es@.len() ==> pointer_key(#[trigger] es@[k].key@),
        _ => false,
    }
}

/// A document's object body: the value of its root's first entry.
pub open spec fn body_of(d: Document) -> Option<Node> {
    match d.root.kind {
        NodeKind::Mapping(es) => if es@.len() > 0 { Some(es@[0].value) } else { None },
        _ => None,
    }
}

/// The number of entries or items of a node.
pub open spec fn child_count(n: Node) -> nat {
    match n.kind {
        NodeKind::Mapping(es) => es@.len(),
        NodeKind::Sequence(items) => items@.len(),
        NodeKind::Scalar(_) => 0,
    }
}

/// The value of entry or item `k`.
pub open spec fn child(n: Node, k: int) -> Node {
    match n.kind {
        NodeKind::Mapping(es) => es@[k].value,
        NodeKind::Sequence(items) => items@[k].value,
        NodeKind::Scalar(_) => n,
    }
}

/// The pointer of entry or item `k` below `path`: the escaped key, or the
/// item's decimal index.
pub open spec fn child_path(n: Node, path: Seq<char>, k: int) -> Seq<char> {
    match n.kind {
        NodeKind::Mapping(es) => child_spec(path, es@[k].key@),
        _ => child_spec(path, decimal_digits(k as nat)),
    }
}

/// A well-formed node's children are well formed.
pub proof fn lemma_child_wf(n: Node, bytes: Seq<u8>, k: int)
    requires
        node_wf(n, bytes),
        0 <= k < child_count(n),
    ensures
        node_wf(child(n, k), bytes),
{
    match n.kind {
        NodeKind::Mapping(es) => assert(node_wf(es@[k].value, bytes)),
        NodeKind::Sequence(items) => assert(node_wf(items@[k].value, bytes)),
        NodeKind::Scalar(_) => {},
    }
}

/// The node a well-formed node's field holds is well formed.
pub proof fn lemma_get_wf(n: Node, bytes: Seq<u8>, key: Seq<char>)
    requires
        node_wf(n, bytes),
    ensures
        n.spec_get(key) matches Some(c) ==> node_wf(c, bytes),
{
    match n.kind {
        NodeKind::Mapping(es) => {
            lemma_first_key_index(es@, key);
            match first_key_index(es@, key) {
                Some(i) => assert(node_wf(es@[i].value, bytes)),
                None => {},
            }
        },
        _ => {},
    }
}

/// The trimmed text of a scalar node.
pub(crate) fn scalar_text(asset: &Asset, node: &Node) -> (res: Option<String>)
    requires
        node.span.within(asset.bytes@.len() as int),
    ensures
        res matches Some(t) ==> text_of(asset.bytes@, *node) == Some(t@),
        res is None ==> text_of(asset.bytes@, *node) is None,
{
    match node.scalar(asset) {
        Some(t) => {
            let chars = chars_of(t.as_str());
            let trimmed_chars = trim_chars(chars.as_slice());
            Some(string_of(trimmed_chars.as_slice()))
        },
        None => None,
    }
}

/// The trimmed scalar text of the field `key`.
pub(crate) fn field_text_of(asset: &Asset, node: &Node, key: &str) -> (res: Option<String>)
    requires
        node_wf(*node, asset.bytes@),
    ensures
        res matches Some(t) ==> field_text(asset.bytes@, *node, key@) == Some(t@),
        res is None ==> field_text(asset.bytes@, *node, key@) is None,
{
    proof { lemma_get_wf(*node, asset.bytes@, key@); }
    match node.get(key) {
        Some(c) => scalar_text(asset, c),
        None => None,
    }
}

/// The file ID of a pointer into this asset (`None` for one that names
/// another asset's GUID).
pub(crate) fn local_id(asset: &Asset, node: &Node) -> (res: Option<String>)
    requires
        node_wf(*node, asset.bytes@),
    ensures
        res matches Some(t) ==> local_id_spec(asset.bytes@, *node) == Some(t@),
        res is None ==> local_id_spec(asset.bytes@, *node) is None,
{
    match field_text_of(asset, node, "guid") {
        Some(g) => {
            let chars = chars_of(g.as_str());
            if !only_char(chars.as_slice(), '0') {
                return None;
            }
        },
        None => {},
    }
    field_text_of(asset, node, "fileID")
}

/// The local file ID the field `key` points to.
pub(crate) fn field_local_id(asset: &Asset, node: &Node, key: &str) -> (res: Option<String>)
    requires
        node_wf(*node, asset.bytes@),
    ensures
        res matches Some(t) ==> field_local_spec(asset.bytes@, *node, key@) == Some(t@),
        res is None ==> field_local_spec(asset.bytes@, *node, key@) is None,
{
    proof { lemma_get_wf(*node, asset.bytes@, key@); }
    match node.get(key) {
        Some(c) => local_id(asset, c),
        None => None,
    }
}

/// Whether the node is an object pointer.
pub fn pptr(node: &Node) -> (res: bool)
    ensures
        res == is_pptr(*node),
{
    if node.get("fileID").is_none() {
        return false;
    }
    match &node.kind {
        NodeKind::Mapping(es) => {
            let mut k: usize = 0;
            while k < es.len()
                invariant
                    k <= es@.len(),
                    node.kind == NodeKind::Mapping(*es),
                    forall|j: int| 0 <= j < k ==> pointer_key(#[trigger] es@[j].key@),
                decreases es@.len() - k,
            {
                let key = es[k].key.as_str();
                if !(text_eq(key, "fileID") || text_eq(key, "guid") || text_eq(key, "type")) {
                    assert(!pointer_key(es@[k as int].key@));
                    return false;
                }
                k = k + 1;
            }
            true
        },
        _ => false,
    }
}

/// A document's object body.
pub(crate) fn body(doc: &Document) -> (res: Option<&Node>)
    ensures
        res matches Some(b) ==> body_of(*doc) == Some(*b),
        res is None ==> body_of(*doc) is None,
{
    match &doc.root.kind {
        NodeKind::Mapping(es) => if es.len() > 0 {
            Some(&es[0].value)
        } else {
            None
        },
        _ => None,
    }
}

/// The pointer of entry or item `k` below `path`.
pub(crate) fn child_pointer(node: &Node, path: &str, k: usize) -> (res: String)
    requires
        k < child_count(*node),
    ensures
        res@ == child_path(*node, path@, k as int),
{
    match &node.kind {
        NodeKind::Mapping(es) => path_child(path, es[k].key.as_str()),
        _ => path_index(path, k),
    }
}

/// The value of entry or item `k`.
pub(crate) fn child_node(node: &Node, k: usize) -> (res: &Node)
    requires
        k < child_count(*node),
    ensures
        *res == child(*node, k as int),
{
    match &node.kind {
        NodeKind::Mapping(es) => &es[k].value,
        NodeKind::Sequence(items) => &items[k].value,
        NodeKind::Scalar(_) => node,
    }
}

/// The number of entries or items of a node.
pub(crate) fn child_total(node: &Node) -> (res: usize)
    ensures
        res == child_count(*node),
{
    match &node.kind {
        NodeKind::Mapping(es) => es.len(),
        NodeKind::Sequence(items) => items.len(),
        NodeKind::Scalar(_) => 0,
    }
}

} // verus!
