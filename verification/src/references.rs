//! The object and managed references an asset holds, in document order.
use vstd::prelude::*;

use crate::asset::{document_wf, Asset, Document};
use crate::reading::{
    body_of, child, child_count, child_node, child_path, child_pointer, child_total, field_text,
    field_text_of, is_pptr, lemma_child_wf, names_external, pptr, scalar_text, text_of,
};
use crate::syntax::{Node, NodeKind};
use crate::text::{all_char, chars_of, only_char, text_eq};
use crate::tree::node_wf;

verus! {

#[derive(Debug, Clone, PartialEq, Eq, Structural)]
pub enum ReferenceKind {
    LocalObject,
    ExternalObject,
    ManagedReference,
}

#[derive(Debug, Clone)]
pub struct AssetReference {
    pub host_object_id: String,
    pub property_path: String,
    pub kind: ReferenceKind,
    pub file_id: Option<String>,
    pub guid: Option<String>,
    pub rid: Option<String>,
}

/// A reference as a mathematical value.
pub ghost struct ReferenceView {
    pub host_object_id: Seq<char>,
    pub property_path: Seq<char>,
    pub kind: ReferenceKind,
    pub file_id: Option<Seq<char>>,
    pub guid: Option<Seq<char>>,
    pub rid: Option<Seq<char>>,
}

pub open spec fn opt_view(s: Option<String>) -> Option<Seq<char>> {
    match s {
        Some(t) => Some(t@),
        None => None,
    }
}

impl AssetReference {
    pub open spec fn view(self) -> ReferenceView {
        ReferenceView {
            host_object_id: self.host_object_id@,
            property_path: self.property_path@,
            kind: self.kind,
            file_id: opt_view(self.file_id),
            guid: opt_view(self.guid),
            rid: opt_view(self.rid),
        }
    }
}

pub open spec fn refs_view(s: Seq<AssetReference>) -> Seq<ReferenceView> {
    s.map_values(|r: AssetReference| r.view())
}

/// The references a node makes itself: an object pointer, and a managed
/// reference (a mapping whose only key is `rid`).
pub open spec fn own_refs(bytes: Seq<u8>, doc: Document, n: Node, path: Seq<char>) -> Seq<ReferenceView> {
    let pointer = if is_pptr(n) {
        seq![ReferenceView {
            host_object_id: doc.object_id@,
            property_path: path,
            kind: if names_external(bytes, n) { ReferenceKind::ExternalObject } else { ReferenceKind::LocalObject },
            file_id: field_text(bytes, n, "fileID"@),
            guid: field_text(bytes, n, "guid"@),
            rid: None,
        }]
    } else {
        Seq::empty()
    };
    let managed = match n.kind {
        NodeKind::Mapping(es) => if es@.len() == 1 && es@[0].key@ == "rid"@ {
            seq![ReferenceView {
                host_object_id: doc.object_id@,
                property_path: path,
                kind: ReferenceKind::ManagedReference,
                file_id: None,
                guid: None,
                rid: text_of(bytes, es@[0].value),
            }]
        } else {
            Seq::empty()
        },
        _ => Seq::empty(),
    };
    pointer + managed
}

/// The references of a subtree, the node's own first, then its children's
/// in order.
pub open spec fn node_refs(bytes: Seq<u8>, doc: Document, n: Node, path: Seq<char>) -> Seq<ReferenceView>
    decreases n, child_count(n) + 1,
{
    own_refs(bytes, doc, n, path) + children_refs(bytes, doc, n, path, child_count(n))
}

/// The references of the first `k` children.
pub open spec fn children_refs(bytes: Seq<u8>, doc: Document, n: Node, path: Seq<char>, k: nat) -> Seq<ReferenceView>
    decreases n, k,
{
    if k == 0 || k > child_count(n) {
        Seq::empty()
    } else {
        let prior = children_refs(bytes, doc, n, path, (k - 1) as nat);
        match n.kind {
            NodeKind::Mapping(es) => prior + node_refs(bytes, doc, es@[k - 1].value, child_path(n, path, k - 1)),
            NodeKind::Sequence(items) => prior + node_refs(bytes, doc, items@[k - 1].value, child_path(n, path, k - 1)),
            NodeKind::Scalar(_) => Seq::empty(),
        }
    }
}

/// The references of the documents, in order.
pub open spec fn documents_refs(bytes: Seq<u8>, docs: Seq<Document>) -> Seq<ReferenceView>
    decreases docs.len(),
{
    if docs.len() == 0 {
        Seq::empty()
    } else {
        documents_refs(bytes, docs.drop_last()) + node_refs(bytes, docs.last(), docs.last().root, Seq::empty())
    }
}

proof fn lemma_refs_push(s: Seq<AssetReference>, r: AssetReference)
    ensures
        refs_view(s.push(r)) == refs_view(s).push(r.view()),
{
    assert(refs_view(s.push(r)) =~= refs_view(s).push(r.view()));
}

fn collect_references(asset: &Asset, doc: &Document, node: &Node, path: &str, out: &mut Vec<AssetReference>)
    requires
        node_wf(*node, asset.bytes@),
    ensures
        refs_view(final(out)@) == refs_view(old(out)@) + node_refs(asset.bytes@, *doc, *node, path@),
    decreases node,
{
    let ghost bytes = asset.bytes@;
    let ghost before = refs_view(out@);
    if pptr(node) {
        let guid = field_text_of(asset, node, "guid");
        let external = match &guid {
            Some(g) => {
                let chars = chars_of(g.as_str());
                !only_char(chars.as_slice(), '0')
            },
            None => false,
        };
        let r = AssetReference {
            host_object_id: doc.object_id.clone(),
            property_path: path.to_owned(),
            kind: if external { ReferenceKind::ExternalObject } else { ReferenceKind::LocalObject },
            file_id: field_text_of(asset, node, "fileID"),
            guid,
        rid: None,
        };
        proof { lemma_refs_push(out@, r); }
        out.push(r);
    }
    let ghost with_pointer = refs_view(out@);
    match &node.kind {
        NodeKind::Mapping(es) => {
            if es.len() == 1 && text_eq(es[0].key.as_str(), "rid") {
                proof { assert(node_wf(es@[0].value, bytes)); }
                let r = AssetReference {
                    host_object_id: doc.object_id.clone(),
                    property_path: path.to_owned(),
                    kind: ReferenceKind::ManagedReference,
                    file_id: None,
                    guid: None,
                    rid: scalar_text(asset, &es[0].value),
                };
                proof { lemma_refs_push(out@, r); }
                out.push(r);
            }
        },
        _ => {},
    }
    let ghost mid = refs_view(out@);
    assert(mid == before + own_refs(bytes, *doc, *node, path@));
    let n = child_total(node);
    let mut k: usize = 0;
    while k < n
        invariant
            k <= n == child_count(*node),
            bytes == asset.bytes@,
            node_wf(*node, bytes),
            refs_view(out@) == mid + children_refs(bytes, *doc, *node, path@, k as nat),
        decreases n - k,
    {
        let c = child_node(node, k);
        let p = child_pointer(node, path, k);
        proof { lemma_child_wf(*node, bytes, k as int); }
        collect_references(asset, doc, c, p.as_str(), out);
        k = k + 1;
    }
}

impl Asset {
    /// Every object pointer and managed reference, document by document.
    pub fn references(&self) -> (res: Vec<AssetReference>)
        requires
            forall|k: int| 0 <= k < self.documents@.len() ==> document_wf(#[trigger] self.documents@[k], self.bytes@),
        ensures
            refs_view(res@) == documents_refs(self.bytes@, self.documents@),
    {
        let mut out: Vec<AssetReference> = Vec::new();
        let mut k: usize = 0;
        while k < self.documents.len()
            invariant
                k <= self.documents@.len(),
                forall|j: int| 0 <= j < self.documents@.len() ==> document_wf(#[trigger] self.documents@[j], self.bytes@),
                refs_view(out@) == documents_refs(self.bytes@, self.documents@.take(k as int)),
            decreases self.documents@.len() - k,
        {
            let doc = &self.documents[k];
            assert(document_wf(self.documents@[k as int], self.bytes@));
            proof { reveal_strlit(""); }
            assert(""@ == Seq::<char>::empty());
            collect_references(self, doc, &doc.root, "", &mut out);
            k = k + 1;
            assert(self.documents@.take(k as int).drop_last() == self.documents@.take(k - 1));
            assert(self.documents@.take(k as int).last() == self.documents@[k - 1]);
        }
        assert(self.documents@.take(self.documents@.len() as int) == self.documents@);
        out
    }
}

} // verus!
