//! Addressing the field that an edit writes: an RFC 6901 pointer from an
//! object's root type down to a field, which may not pass through a
//! reference's identity members.
use vstd::prelude::*;

use crate::aliases::{fails, step, step_from, Failure};
use crate::asset::Asset;
use crate::merge::{doc_at, root_point, Point, PointView};
use crate::pointer::{child_spec, decode_chars, decode_spec, path_child, split_chars, split_spec, sub_chars};
use crate::reading::{is_pptr, pptr};
use crate::syntax::{CoreError, Node, NodeKind};
use crate::text::{chars_of, concat, concat3, string_of, text_eq};
use crate::tree::node_wf;
use crate::validation::documents_wf;

verus! {

/// A managed reference slot: a mapping whose only key is `rid`.
pub open spec fn is_managed(n: Node) -> bool {
    n.kind matches NodeKind::Mapping(es) && es@.len() == 1 && es@[0].key@ == "rid"@
}

/// Whether a node is a managed reference slot.
pub fn is_managed_reference(node: &Node) -> (res: bool)
    ensures
        res == is_managed(*node),
{
    match &node.kind {
        NodeKind::Mapping(es) => {
            proof { reveal_strlit("rid"); }
            es.len() == 1 && text_eq(es[0].key.as_str(), "rid")
        },
        _ => false,
    }
}

/// The error for a pointer that names no field of the object.
pub open spec fn missing_field(id: Seq<char>, path: Seq<char>, at: int) -> Failure {
    ("unknown_field"@, "object "@ + id + " has no field "@ + path, at)
}

/// Following raw pointer tokens to a field: each token is decoded when the
/// walk reaches it; an object or managed reference is indivisible, and a
/// step that names nothing is refused at the node it starts from.
pub open spec fn field_walk(
    bytes: Seq<u8>,
    p: PointView,
    raws: Seq<Seq<char>>,
    walked: Seq<char>,
    id: Seq<char>,
    path: Seq<char>,
) -> Result<Node, Failure>
    decreases raws.len(),
{
    if raws.len() == 0 {
        Ok(p.node)
    } else {
        match decode_spec(raws[0]) {
            None => Err(("property_path"@, "invalid JSON pointer escape"@, 0)),
            Some(key) => if is_pptr(p.node) || is_managed(p.node) {
                Err((
                    "reference_scope"@,
                    "assign the complete object or managed reference instead of an identity member"@,
                    p.node.span.start as int,
                ))
            } else {
                match step(bytes, p, key, walked) {
                    None => Err(missing_field(id, path, p.node.span.start as int)),
                    Some(q) => field_walk(bytes, q, raws.drop_first(), child_spec(walked, key), id, path),
                }
            },
        }
    }
}

/// The field an edit addresses: the object with the ID (the last one, should
/// IDs repeat) and a pointer of at least a root type and a field.
pub open spec fn field_at_spec(a: Asset, id: Seq<char>, path: Seq<char>) -> Result<Node, Failure> {
    match doc_at(a, id) {
        None => Err(("unknown_object"@, "asset has no object "@ + id, 0)),
        Some(d) => if path.len() == 0 || path[0] != '/' || split_spec(path.drop_first(), '/').len() < 2 {
            Err(("property_path"@, "field path must include the root type and a field"@, 0))
        } else {
            field_walk(a.bytes@, root_point(d), split_spec(path.drop_first(), '/'), Seq::empty(), id, path)
        },
    }
}

/// The node of the field that a pointer names in an object.
pub fn field_at<'a>(asset: &'a Asset, object_id: &str, path: &str) -> (res: Result<&'a Node, CoreError>)
    requires
        documents_wf(*asset),
    ensures
        match field_at_spec(*asset, object_id@, path@) {
            Ok(n) => res matches Ok(x) && *x == n,
            Err(f) => res matches Err(e) && fails(e, f),
        },
{
    proof { crate::asset::lemma_last_document(asset.documents@, object_id@); }
    let doc = match asset.document(object_id) {
        Some(d) => d,
        None => return Err(CoreError::new("unknown_object", concat("asset has no object ", object_id).as_str(), 0)),
    };
    proof {
        let k = crate::asset::last_document(asset.documents@, object_id@).unwrap();
        assert(crate::asset::document_wf(asset.documents@[k], asset.bytes@));
    }
    let chars = chars_of(path);
    if chars.len() == 0 || chars[0] != '/' {
        return Err(CoreError::new("property_path", "field path must include the root type and a field", 0));
    }
    let rest = sub_chars(chars.as_slice(), 1, chars.len());
    assert(rest@ == path@.drop_first());
    let parts = split_chars(rest.as_slice(), '/');
    let ghost raws = split_spec(rest@, '/');
    if parts.len() < 2 {
        return Err(CoreError::new("property_path", "field path must include the root type and a field", 0));
    }
    let mut point = Point { node: &doc.root, entry: None, parent: None };
    let mut walked = String::new();
    let mut k: usize = 0;
    proof {
        reveal_strlit("");
        assert(raws.skip(0) == raws);
    }
    while k < parts.len()
        invariant
            k <= parts@.len(),
            parts@.len() == raws.len(),
            forall|i: int| 0 <= i < parts@.len() ==> (#[trigger] parts@[i])@ == raws[i],
            node_wf(*point.node, asset.bytes@),
            field_at_spec(*asset, object_id@, path@) == field_walk(
                asset.bytes@,
                point.view(),
                raws.skip(k as int),
                walked@,
                object_id@,
                path@,
            ),
        decreases parts@.len() - k,
    {
        assert(raws.skip(k as int)[0] == raws[k as int]);
        assert(raws.skip(k as int).drop_first() == raws.skip(k + 1));
        let key = match decode_chars(parts[k].as_slice()) {
            Some(d) => string_of(d.as_slice()),
            None => return Err(CoreError::new("property_path", "invalid JSON pointer escape", 0)),
        };
        if pptr(point.node) || is_managed_reference(point.node) {
            return Err(CoreError::new(
                "reference_scope",
                "assign the complete object or managed reference instead of an identity member",
                point.node.span.start,
            ));
        }
        let at = point.node.span.start;
        match step_from(asset, point, key.as_str(), walked.as_str()) {
            Some(next) => {
                point = next;
            },
            None => {
                let head = concat3("object ", object_id, " has no field ");
                return Err(CoreError::new("unknown_field", concat(head.as_str(), path).as_str(), at));
            },
        }
        walked = path_child(walked.as_str(), key.as_str());
        k = k + 1;
    }
    assert(raws.skip(k as int) =~= Seq::<Seq<char>>::empty());
    Ok(point.node)
}

} // verus!
