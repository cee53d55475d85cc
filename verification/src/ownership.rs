//! Ownership links between documents: a component and its GameObject, and
//! a Transform and its parent and children, each listed from both ends, and
//! no Transform its own ancestor.
use vstd::prelude::*;

use crate::asset::{document_wf, last_document, lemma_last_document, Asset, Document};
use crate::reading::{
    body, body_of, child, field_local_id, field_local_spec, lemma_child_wf, lemma_get_wf, local_id,
    local_id_spec,
};
use crate::syntax::{diags_view, Diagnostic, DiagnosticView, Item, Node, NodeKind};
use crate::text::{concat, concat3, concat5, text_eq};
use crate::tree::node_wf;
use crate::validation::{diagnostic, documents_wf, push_diagnostic, report, strings_view};

verus! {

/// Transforms and RectTransforms (class IDs 4 and 224).
pub open spec fn is_transform(d: Document) -> bool {
    d.class_id matches Some(c) && (c@ == "4"@ || c@ == "224"@)
}

/// The document a file ID resolves to (the last with it), unless stripped.
pub open spec fn live_document(docs: Seq<Document>, id: Seq<char>) -> Option<Document> {
    match last_document(docs, id) {
        Some(k) => if docs[k].stripped { None } else { Some(docs[k]) },
        None => None,
    }
}

/// The items of the list field `key` of a document's body.
pub open spec fn body_list(d: Document, key: Seq<char>) -> Option<Seq<Item>> {
    match body_of(d) {
        Some(b) => match b.spec_get(key) {
            Some(l) => l.spec_items(),
            None => None,
        },
        None => None,
    }
}

/// Whether a GameObject's component list names `id`.
pub open spec fn lists_component(bytes: Seq<u8>, items: Seq<Item>, id: Seq<char>) -> bool {
    exists|i: int| 0 <= i < items.len() && field_local_spec(bytes, #[trigger] items[i].value, "component"@) == Some(id)
}

/// Whether a Transform's child list names `id`.
pub open spec fn lists_child(bytes: Seq<u8>, items: Seq<Item>, id: Seq<char>) -> bool {
    exists|i: int| 0 <= i < items.len() && local_id_spec(bytes, #[trigger] items[i].value) == Some(id)
}

/// A component's GameObject lists it among its components.
pub open spec fn owner_checks(bytes: Seq<u8>, docs: Seq<Document>, d: Document, b: Node) -> Seq<DiagnosticView> {
    match field_local_spec(bytes, b, "m_GameObject"@) {
        Some(owner) => if owner == "0"@ {
            Seq::empty()
        } else {
            match live_document(docs, owner) {
                Some(o) => match body_list(o, "m_Component"@) {
                    Some(items) => if lists_component(bytes, items, d.object_id@) {
                        Seq::empty()
                    } else {
                        seq![report(d, b, Seq::empty(), "missing_owner_component"@, "GameObject "@ + owner + " does not list component "@ + d.object_id@)]
                    },
                    None => Seq::empty(),
                },
                None => Seq::empty(),
            }
        },
        None => Seq::empty(),
    }
}

/// The parent a Transform names (other than `0`).
pub open spec fn father_of(bytes: Seq<u8>, b: Node) -> Option<Seq<char>> {
    match field_local_spec(bytes, b, "m_Father"@) {
        Some(f) => if f == "0"@ { None } else { Some(f) },
        None => None,
    }
}

/// A Transform's parent lists it among its children.
pub open spec fn father_checks(bytes: Seq<u8>, docs: Seq<Document>, d: Document, b: Node) -> Seq<DiagnosticView> {
    match father_of(bytes, b) {
        Some(f) => match live_document(docs, f) {
            Some(p) => match body_list(p, "m_Children"@) {
                Some(items) => if lists_child(bytes, items, d.object_id@) {
                    Seq::empty()
                } else {
                    seq![report(d, b, Seq::empty(), "parent_child_mismatch"@, "parent Transform "@ + f + " does not list child "@ + d.object_id@)]
                },
                None => Seq::empty(),
            },
            None => Seq::empty(),
        },
        None => Seq::empty(),
    }
}

/// Child `j` of a Transform is listed once and names this Transform as its
/// parent.
pub open spec fn child_one(bytes: Seq<u8>, docs: Seq<Document>, d: Document, items: Seq<Item>, j: int) -> Seq<DiagnosticView> {
    match local_id_spec(bytes, items[j].value) {
        Some(id) => {
            let repeated = if exists|i: int| 0 <= i < j && local_id_spec(bytes, #[trigger] items[i].value) == Some(id) {
                seq![report(d, items[j].value, Seq::empty(), "duplicate_child"@, "child Transform "@ + id + " is listed twice"@)]
            } else {
                Seq::empty()
            };
            let parent = match live_document(docs, id) {
                Some(c) => match body_of(c) {
                    Some(cb) => match field_local_spec(bytes, cb, "m_Father"@) {
                        Some(fa) => if fa != d.object_id@ {
                            seq![report(d, items[j].value, Seq::empty(), "child_parent_mismatch"@, "child Transform "@ + id + " points to parent "@ + fa + ", not "@ + d.object_id@)]
                        } else {
                            Seq::empty()
                        },
                        None => Seq::empty(),
                    },
                    None => Seq::empty(),
                },
                None => Seq::empty(),
            };
            repeated + parent
        },
        None => Seq::empty(),
    }
}

pub open spec fn child_list(bytes: Seq<u8>, docs: Seq<Document>, d: Document, items: Seq<Item>, k: nat) -> Seq<DiagnosticView>
    decreases k,
{
    if k == 0 || k > items.len() {
        Seq::empty()
    } else {
        child_list(bytes, docs, d, items, (k - 1) as nat) + child_one(bytes, docs, d, items, k - 1)
    }
}

pub open spec fn children_checks(bytes: Seq<u8>, docs: Seq<Document>, d: Document, b: Node) -> Seq<DiagnosticView> {
    match b.spec_get("m_Children"@) {
        Some(c) => match c.spec_items() {
            Some(items) => child_list(bytes, docs, d, items, items.len()),
            None => Seq::empty(),
        },
        None => Seq::empty(),
    }
}

/// The ownership checks of one document; stripped documents are skipped.
pub open spec fn document_ownership(bytes: Seq<u8>, docs: Seq<Document>, d: Document) -> Seq<DiagnosticView> {
    if d.stripped {
        Seq::empty()
    } else {
        match body_of(d) {
            Some(b) => owner_checks(bytes, docs, d, b) + if is_transform(d) {
                father_checks(bytes, docs, d, b) + children_checks(bytes, docs, d, b)
            } else {
                Seq::empty()
            },
            None => Seq::empty(),
        }
    }
}

pub open spec fn ownership_checks(bytes: Seq<u8>, docs: Seq<Document>, k: nat) -> Seq<DiagnosticView>
    decreases k,
{
    if k == 0 || k > docs.len() {
        Seq::empty()
    } else {
        ownership_checks(bytes, docs, (k - 1) as nat) + document_ownership(bytes, docs, docs[k - 1])
    }
}

/// The (Transform, parent) pairs of the first `k` documents, in order.
pub open spec fn parent_links(bytes: Seq<u8>, docs: Seq<Document>, k: nat) -> Seq<(Seq<char>, Seq<char>)>
    decreases k,
{
    if k == 0 || k > docs.len() {
        Seq::empty()
    } else {
        let prior = parent_links(bytes, docs, (k - 1) as nat);
        let d = docs[k - 1];
        if !d.stripped && is_transform(d) && body_of(d) is Some && father_of(bytes, body_of(d).unwrap()) is Some {
            prior.push((d.object_id@, father_of(bytes, body_of(d).unwrap()).unwrap()))
        } else {
            prior
        }
    }
}

/// A RectTransform (class ID 224) gets exactly the ownership checks of a
/// Transform (class ID 4) with the same contents: its parent must list it,
/// and its children must name it.
pub proof fn lemma_rect_transform_checked_as_transform(
    bytes: Seq<u8>,
    docs: Seq<Document>,
    d: Document,
    rect: String,
    plain: String,
)
    requires
        rect@ == "224"@,
        plain@ == "4"@,
    ensures
        document_ownership(bytes, docs, Document { class_id: Some(rect), ..d }) == document_ownership(
            bytes,
            docs,
            Document { class_id: Some(plain), ..d },
        ),
{
    let r = Document { class_id: Some(rect), ..d };
    let q = Document { class_id: Some(plain), ..d };
    assert(is_transform(r));
    assert(is_transform(q));
    match body_of(d) {
        Some(b) => {
            assert(body_of(r) == Some(b) && body_of(q) == Some(b));
            lemma_checks_by_id(bytes, docs, r, q, b);
        },
        None => {},
    }
}

/// The ownership checks of a document's body depend on the document only
/// through its file ID.
proof fn lemma_checks_by_id(bytes: Seq<u8>, docs: Seq<Document>, d1: Document, d2: Document, b: Node)
    requires
        d1.object_id@ == d2.object_id@,
    ensures
        owner_checks(bytes, docs, d1, b) == owner_checks(bytes, docs, d2, b),
        father_checks(bytes, docs, d1, b) == father_checks(bytes, docs, d2, b),
        children_checks(bytes, docs, d1, b) == children_checks(bytes, docs, d2, b),
{
    match b.spec_get("m_Children"@) {
        Some(c) => match c.spec_items() {
            Some(items) => lemma_child_list_by_id(bytes, docs, d1, d2, items, items.len()),
            None => {},
        },
        None => {},
    }
}

proof fn lemma_child_list_by_id(bytes: Seq<u8>, docs: Seq<Document>, d1: Document, d2: Document, items: Seq<Item>, k: nat)
    requires
        d1.object_id@ == d2.object_id@,
    ensures
        child_list(bytes, docs, d1, items, k) == child_list(bytes, docs, d2, items, k),
    decreases k,
{
    if k > 0 && k <= items.len() {
        lemma_child_list_by_id(bytes, docs, d1, d2, items, (k - 1) as nat);
        assert(child_one(bytes, docs, d1, items, k - 1) == child_one(bytes, docs, d2, items, k - 1));
    }
}

/// A RectTransform's parent link counts for cycle detection exactly as a
/// Transform's: giving a document class ID 224 in place of 4 leaves the
/// parent links of the first `k` documents as they were.
pub proof fn lemma_rect_transform_links(bytes: Seq<u8>, docs: Seq<Document>, i: int, rect: String, plain: String, k: nat)
    requires
        0 <= i < docs.len(),
        rect@ == "224"@,
        plain@ == "4"@,
    ensures
        parent_links(bytes, docs.update(i, Document { class_id: Some(rect), ..docs[i] }), k) == parent_links(
            bytes,
            docs.update(i, Document { class_id: Some(plain), ..docs[i] }),
            k,
        ),
    decreases k,
{
    let r = docs.update(i, Document { class_id: Some(rect), ..docs[i] });
    let q = docs.update(i, Document { class_id: Some(plain), ..docs[i] });
    if k > 0 && k <= docs.len() {
        lemma_rect_transform_links(bytes, docs, i, rect, plain, (k - 1) as nat);
        if k - 1 == i {
            assert(is_transform(r[k - 1]));
            assert(is_transform(q[k - 1]));
        } else {
            assert(r[k - 1] == q[k - 1]);
        }
    }
}

/// Every live Transform or RectTransform (class ID 4 or 224) among the
/// first `k` documents that names a parent has its link to that parent
/// recorded for cycle detection.
pub proof fn lemma_transform_parent_linked(bytes: Seq<u8>, docs: Seq<Document>, k: nat, j: int, b: Node, f: Seq<char>)
    requires
        0 <= j < k <= docs.len(),
        !docs[j].stripped,
        docs[j].class_id matches Some(c) && (c@ == "4"@ || c@ == "224"@),
        body_of(docs[j]) == Some(b),
        father_of(bytes, b) == Some(f),
    ensures
        parent_links(bytes, docs, k).contains((docs[j].object_id@, f)),
    decreases k,
{
    if j < k - 1 {
        lemma_transform_parent_linked(bytes, docs, (k - 1) as nat, j, b, f);
        let prior = parent_links(bytes, docs, (k - 1) as nat);
        let w = choose|w: int| 0 <= w < prior.len() && prior[w] == (docs[j].object_id@, f);
        let d = docs[k - 1];
        if !d.stripped && is_transform(d) && body_of(d) is Some && father_of(bytes, body_of(d).unwrap()) is Some {
            assert(prior.push((d.object_id@, father_of(bytes, body_of(d).unwrap()).unwrap()))[w] == prior[w]);
        }
    } else {
        let prior = parent_links(bytes, docs, (k - 1) as nat);
        let all = prior.push((docs[j].object_id@, f));
        assert(all[prior.len() as int] == (docs[j].object_id@, f));
    }
}

/// The parent of `x`: the last link from it.
pub open spec fn parent_in(links: Seq<(Seq<char>, Seq<char>)>, x: Seq<char>) -> Option<Seq<char>>
    decreases links.len(),
{
    if links.len() == 0 {
        None
    } else if links.last().0 == x {
        Some(links.last().1)
    } else {
        parent_in(links.drop_last(), x)
    }
}

/// The ancestor `n` parent steps above `x`.
pub open spec fn ancestor(links: Seq<(Seq<char>, Seq<char>)>, x: Seq<char>, n: nat) -> Option<Seq<char>>
    decreases n,
{
    if n == 0 {
        Some(x)
    } else {
        match parent_in(links, x) {
            Some(p) => ancestor(links, p, (n - 1) as nat),
            None => None,
        }
    }
}

/// `x` is its own ancestor.
pub open spec fn on_cycle(links: Seq<(Seq<char>, Seq<char>)>, x: Seq<char>) -> bool {
    exists|n: nat| n >= 1 && ancestor(links, x, n) == Some(x)
}

/// A report that Transform `x` lies on a parent cycle.
pub open spec fn cycle_report(docs: Seq<Document>, x: Seq<char>) -> Option<DiagnosticView> {
    match last_document(docs, x) {
        Some(k) => Some(report(docs[k], docs[k].root, Seq::empty(), "transform_cycle"@, "Transform parent cycle includes "@ + x)),
        None => None,
    }
}

// ---------------------------------------------------------------------------

/// Whether some link starts at `x`.
pub open spec fn is_source(links: Seq<(Seq<char>, Seq<char>)>, x: Seq<char>) -> bool {
    exists|i: int| 0 <= i < links.len() && (#[trigger] links[i]).0 == x
}

proof fn lemma_parent_in(links: Seq<(Seq<char>, Seq<char>)>, x: Seq<char>)
    ensures
        parent_in(links, x) is Some ==> is_source(links, x),
    decreases links.len(),
{
    if links.len() > 0 && links.last().0 != x {
        lemma_parent_in(links.drop_last(), x);
        if parent_in(links, x) is Some {
            let i = choose|i: int| 0 <= i < links.drop_last().len() && (#[trigger] links.drop_last()[i]).0 == x;
            assert(links[i] == links.drop_last()[i]);
        }
    }
}

/// Distinct names that all occur as link sources are no more than the links.
proof fn lemma_chain_bound(chain: Seq<Seq<char>>, links: Seq<(Seq<char>, Seq<char>)>)
    requires
        chain.no_duplicates(),
        forall|k: int| 0 <= k < chain.len() ==> is_source(links, #[trigger] chain[k]),
    ensures
        chain.len() <= links.len(),
{
    let sources = links.map_values(|l: (Seq<char>, Seq<char>)| l.0);
    chain.unique_seq_to_set();
    sources.lemma_cardinality_of_set();
    assert forall|x: Seq<char>| chain.to_set().contains(x) implies sources.to_set().contains(x) by {
        let k = choose|k: int| 0 <= k < chain.len() && chain[k] == x;
        assert(is_source(links, chain[k]));
        let i = choose|i: int| 0 <= i < links.len() && (#[trigger] links[i]).0 == chain[k];
        assert(sources[i] == x);
    }
    vstd::set_lib::lemma_len_subset(chain.to_set(), sources.to_set());
}

/// Following the chain's links from position `i` to its end, then one more
/// step to `x`, walks back to `chain[i]` when `x` is `chain[i]`.
proof fn lemma_chain_ancestor(links: Seq<(Seq<char>, Seq<char>)>, chain: Seq<Seq<char>>, i: int, last_parent: Seq<char>)
    requires
        0 <= i < chain.len(),
        forall|k: int| 0 <= k < chain.len() - 1 ==> parent_in(links, #[trigger] chain[k]) == Some(chain[k + 1]),
        parent_in(links, chain.last()) == Some(last_parent),
    ensures
        ancestor(links, chain[i], (chain.len() - i) as nat) == Some(last_parent),
    decreases chain.len() - i,
{
    if i == chain.len() - 1 {
        assert(ancestor(links, last_parent, 0) == Some(last_parent));
    } else {
        lemma_chain_ancestor(links, chain, i + 1, last_parent);
        assert(parent_in(links, chain[i]) == Some(chain[i + 1]));
    }
}

fn live_doc<'a>(asset: &'a Asset, id: &str) -> (res: Option<&'a Document>)
    requires
        documents_wf(*asset),
    ensures
        res matches Some(d) ==> live_document(asset.documents@, id@) == Some(*d) && document_wf(*d, asset.bytes@),
        res is None ==> live_document(asset.documents@, id@) is None,
{
    proof { lemma_last_document(asset.documents@, id@); }
    match asset.document(id) {
        Some(d) => {
            proof {
                let k = last_document(asset.documents@, id@).unwrap();
                assert(document_wf(asset.documents@[k], asset.bytes@));
            }
            if d.stripped {
                None
            } else {
                Some(d)
            }
        },
        None => None,
    }
}

/// The list node of the field `key` of a document's body.
fn body_field<'a>(asset: &Asset, d: &'a Document, key: &str) -> (res: Option<&'a Node>)
    requires
        document_wf(*d, asset.bytes@),
    ensures
        res matches Some(l) ==> node_wf(*l, asset.bytes@) && (body_of(*d) matches Some(b) && b.spec_get(key@) == Some(*l)),
        res is None ==> (body_of(*d) matches Some(b) ==> b.spec_get(key@) is None),
{
    let b = match body(d) {
        Some(b) => b,
        None => return None,
    };
    proof {
        lemma_child_wf(d.root, asset.bytes@, 0);
        lemma_get_wf(*b, asset.bytes@, key@);
    }
    b.get(key)
}

fn lists_component_of(asset: &Asset, items: &[Item], id: &str) -> (res: bool)
    requires
        forall|i: int| 0 <= i < items@.len() ==> node_wf(#[trigger] items@[i].value, asset.bytes@),
    ensures
        res == lists_component(asset.bytes@, items@, id@),
{
    let mut k: usize = 0;
    while k < items.len()
        invariant
            k <= items@.len(),
            forall|i: int| 0 <= i < items@.len() ==> node_wf(#[trigger] items@[i].value, asset.bytes@),
            forall|i: int| 0 <= i < k ==> field_local_spec(asset.bytes@, #[trigger] items@[i].value, "component"@) != Some(id@),
        decreases items@.len() - k,
    {
        match field_local_id(asset, &items[k].value, "component") {
            Some(t) => if text_eq(t.as_str(), id) {
                return true;
            },
            None => {},
        }
        k = k + 1;
    }
    false
}

fn lists_child_of(asset: &Asset, items: &[Item], id: &str) -> (res: bool)
    requires
        forall|i: int| 0 <= i < items@.len() ==> node_wf(#[trigger] items@[i].value, asset.bytes@),
    ensures
        res == lists_child(asset.bytes@, items@, id@),
{
    let mut k: usize = 0;
    while k < items.len()
        invariant
            k <= items@.len(),
            forall|i: int| 0 <= i < items@.len() ==> node_wf(#[trigger] items@[i].value, asset.bytes@),
            forall|i: int| 0 <= i < k ==> local_id_spec(asset.bytes@, #[trigger] items@[i].value) != Some(id@),
        decreases items@.len() - k,
    {
        match local_id(asset, &items[k].value) {
            Some(t) => if text_eq(t.as_str(), id) {
                return true;
            },
            None => {},
        }
        k = k + 1;
    }
    false
}

proof fn lemma_items_wf(l: Node, bytes: Seq<u8>)
    requires
        node_wf(l, bytes),
    ensures
        l.spec_items() matches Some(items) ==> forall|i: int| 0 <= i < items.len() ==> node_wf(#[trigger] items[i].value, bytes),
{
    match l.kind {
        NodeKind::Sequence(items) => {
            assert forall|i: int| 0 <= i < items@.len() implies node_wf(#[trigger] items@[i].value, bytes) by {
                assert(node_wf(items@[i].value, bytes));
            }
        },
        _ => {},
    }
}

fn check_owner(asset: &Asset, d: &Document, b: &Node, out: &mut Vec<Diagnostic>)
    requires
        documents_wf(*asset),
        node_wf(*b, asset.bytes@),
    ensures
        diags_view(final(out)@) == diags_view(old(out)@) + owner_checks(asset.bytes@, asset.documents@, *d, *b),
{
    let ghost d0 = diags_view(out@);
    proof { reveal_strlit(""); assert(""@ =~= Seq::<char>::empty()); }
    match field_local_id(asset, b, "m_GameObject") {
        Some(owner) => {
            if !text_eq(owner.as_str(), "0") {
                match live_doc(asset, owner.as_str()) {
                    Some(o) => {
                        match body_field(asset, o, "m_Component") {
                            Some(l) => {
                                proof { lemma_items_wf(*l, asset.bytes@); }
                                match l.items() {
                                    Some(items) => {
                                        if !lists_component_of(asset, items, d.object_id.as_str()) {
                                            let m = concat5("GameObject ", owner.as_str(), " does not list component ", d.object_id.as_str(), "");
                                            proof { assert(m@ =~= "GameObject "@ + owner@ + " does not list component "@ + d.object_id@); }
                                            push_diagnostic(out, diagnostic(d, b, "", "missing_owner_component", m));
                                        }
                                    },
                                    None => {},
                                }
                            },
                            None => {},
                        }
                    },
                    None => {},
                }
            }
        },
        None => {},
    }
    assert(diags_view(out@) =~= d0 + owner_checks(asset.bytes@, asset.documents@, *d, *b));
}

fn father_link(asset: &Asset, b: &Node) -> (res: Option<String>)
    requires
        node_wf(*b, asset.bytes@),
    ensures
        res matches Some(f) ==> father_of(asset.bytes@, *b) == Some(f@),
        res is None ==> father_of(asset.bytes@, *b) is None,
{
    match field_local_id(asset, b, "m_Father") {
        Some(f) => if text_eq(f.as_str(), "0") {
            None
        } else {
            Some(f)
        },
        None => None,
    }
}

fn check_father(asset: &Asset, d: &Document, b: &Node, out: &mut Vec<Diagnostic>)
    requires
        documents_wf(*asset),
        node_wf(*b, asset.bytes@),
    ensures
        diags_view(final(out)@) == diags_view(old(out)@) + father_checks(asset.bytes@, asset.documents@, *d, *b),
{
    let ghost d0 = diags_view(out@);
    proof { reveal_strlit(""); assert(""@ =~= Seq::<char>::empty()); }
    match father_link(asset, b) {
        Some(f) => {
            match live_doc(asset, f.as_str()) {
                Some(p) => {
                    match body_field(asset, p, "m_Children") {
                        Some(l) => {
                            proof { lemma_items_wf(*l, asset.bytes@); }
                            match l.items() {
                                Some(items) => {
                                    if !lists_child_of(asset, items, d.object_id.as_str()) {
                                        let m = concat5("parent Transform ", f.as_str(), " does not list child ", d.object_id.as_str(), "");
                                        proof { assert(m@ =~= "parent Transform "@ + f@ + " does not list child "@ + d.object_id@); }
                                        push_diagnostic(out, diagnostic(d, b, "", "parent_child_mismatch", m));
                                    }
                                },
                                None => {},
                            }
                        },
                        None => {},
                    }
                },
                None => {},
            }
        },
        None => {},
    }
    assert(diags_view(out@) =~= d0 + father_checks(asset.bytes@, asset.documents@, *d, *b));
}

fn contains_id(ids: &Vec<String>, t: &str) -> (res: bool)
    ensures
        res == strings_view(ids@).contains(t@),
{
    let mut k: usize = 0;
    while k < ids.len()
        invariant
            k <= ids@.len(),
            forall|j: int| 0 <= j < k ==> ids@[j]@ != t@,
        decreases ids@.len() - k,
    {
        if text_eq(ids[k].as_str(), t) {
            assert(strings_view(ids@)[k as int] == t@);
            return true;
        }
        k = k + 1;
    }
    assert forall|j: int| 0 <= j < strings_view(ids@).len() implies strings_view(ids@)[j] != t@ by {
        assert(strings_view(ids@)[j] == ids@[j]@);
    }
    false
}

fn check_children(asset: &Asset, d: &Document, b: &Node, out: &mut Vec<Diagnostic>)
    requires
        documents_wf(*asset),
        node_wf(*b, asset.bytes@),
    ensures
        diags_view(final(out)@) == diags_view(old(out)@) + children_checks(asset.bytes@, asset.documents@, *d, *b),
{
    let ghost bytes = asset.bytes@;
    let ghost docs = asset.documents@;
    let ghost d0 = diags_view(out@);
    proof {
        reveal_strlit("");
        assert(""@ =~= Seq::<char>::empty());
        lemma_get_wf(*b, bytes, "m_Children"@);
    }
    let c = match b.get("m_Children") {
        Some(c) => c,
        None => {
            assert(diags_view(out@) =~= d0 + children_checks(bytes, docs, *d, *b));
            return;
        },
    };
    proof { lemma_items_wf(*c, bytes); }
    let items = match c.items() {
        Some(items) => items,
        None => {
            assert(diags_view(out@) =~= d0 + children_checks(bytes, docs, *d, *b));
            return;
        },
    };
    let mut seen: Vec<String> = Vec::new();
    let mut k: usize = 0;
    while k < items.len()
        invariant
            k <= items@.len(),
            bytes == asset.bytes@,
            docs == asset.documents@,
            ""@ == Seq::<char>::empty(),
            documents_wf(*asset),
            forall|i: int| 0 <= i < items@.len() ==> node_wf(#[trigger] items@[i].value, bytes),
            diags_view(out@) == d0 + child_list(bytes, docs, *d, items@, k as nat),
            forall|t: Seq<char>| strings_view(seen@).contains(t) <==> exists|i: int| 0 <= i < k && local_id_spec(bytes, #[trigger] items@[i].value) == Some(t),
        decreases items@.len() - k,
    {
        let ghost before = diags_view(out@);
        let item = &items[k].value;
        assert(node_wf(items@[k as int].value, bytes));
        match local_id(asset, item) {
            Some(id) => {
                if contains_id(&seen, id.as_str()) {
                    let m = concat3("child Transform ", id.as_str(), " is listed twice");
                    push_diagnostic(out, diagnostic(d, item, "", "duplicate_child", m));
                }
                match live_doc(asset, id.as_str()) {
                    Some(cd) => {
                        match body(cd) {
                            Some(cb) => {
                                proof { lemma_child_wf(cd.root, bytes, 0); }
                                match field_local_id(asset, cb, "m_Father") {
                                    Some(fa) => {
                                        if !text_eq(fa.as_str(), d.object_id.as_str()) {
                                            let m1 = concat5("child Transform ", id.as_str(), " points to parent ", fa.as_str(), ", not ");
                                            let m = concat(m1.as_str(), d.object_id.as_str());
                                            push_diagnostic(out, diagnostic(d, item, "", "child_parent_mismatch", m));
                                        }
                                    },
                                    None => {},
                                }
                            },
                            None => {},
                        }
                    },
                    None => {},
                }
                let ghost seen_before = strings_view(seen@);
                seen.push(id);
                proof {
                    assert(strings_view(seen@) =~= seen_before.push(id@));
                    assert forall|t: Seq<char>| strings_view(seen@).contains(t) <==> exists|i: int| 0 <= i < k + 1 && local_id_spec(bytes, #[trigger] items@[i].value) == Some(t) by {
                        if strings_view(seen@).contains(t) && t != id@ {
                            assert(seen_before.contains(t));
                        }
                        if t == id@ {
                            assert(local_id_spec(bytes, items@[k as int].value) == Some(t));
                        }
                        if exists|i: int| 0 <= i < k + 1 && local_id_spec(bytes, #[trigger] items@[i].value) == Some(t) {
                            let i = choose|i: int| 0 <= i < k + 1 && local_id_spec(bytes, #[trigger] items@[i].value) == Some(t);
                            if i < k {
                                assert(seen_before.contains(t));
                                let w = choose|w: int| 0 <= w < seen_before.len() && seen_before[w] == t;
                                assert(strings_view(seen@)[w] == t);
                            } else {
                                assert(strings_view(seen@)[seen_before.len() as int] == t);
                            }
                        }
                    }
                }
            },
            None => {
                proof {
                    assert forall|t: Seq<char>| strings_view(seen@).contains(t) <==> exists|i: int| 0 <= i < k + 1 && local_id_spec(bytes, #[trigger] items@[i].value) == Some(t) by {
                        if exists|i: int| 0 <= i < k + 1 && local_id_spec(bytes, #[trigger] items@[i].value) == Some(t) {
                            let i = choose|i: int| 0 <= i < k + 1 && local_id_spec(bytes, #[trigger] items@[i].value) == Some(t);
                            assert(i < k);
                        }
                    }
                }
            },
        }
        assert(diags_view(out@) =~= before + child_one(bytes, docs, *d, items@, k as int));
        k = k + 1;
    }
}

pub open spec fn links_view(s: Seq<(String, String)>) -> Seq<(Seq<char>, Seq<char>)> {
    s.map_values(|p: (String, String)| (p.0@, p.1@))
}

/// Every report is a `transform_cycle` report of a Transform on a parent
/// cycle.
pub open spec fn sound_cycle_reports(links: Seq<(Seq<char>, Seq<char>)>, docs: Seq<Document>, extra: Seq<DiagnosticView>) -> bool {
    forall|i: int| #![trigger extra[i]] 0 <= i < extra.len() ==> exists|x: Seq<char>| on_cycle(links, x) && cycle_report(docs, x) == Some(extra[i])
}

fn is_transform_doc(d: &Document) -> (res: bool)
    ensures
        res == is_transform(*d),
{
    match &d.class_id {
        Some(c) => text_eq(c.as_str(), "4") || text_eq(c.as_str(), "224"),
        None => false,
    }
}

/// The per-document ownership checks, and the parent links they found.
fn check_links(asset: &Asset, out: &mut Vec<Diagnostic>) -> (links: Vec<(String, String)>)
    requires
        documents_wf(*asset),
    ensures
        diags_view(final(out)@) == diags_view(old(out)@) + ownership_checks(asset.bytes@, asset.documents@, asset.documents@.len()),
        links_view(links@) == parent_links(asset.bytes@, asset.documents@, asset.documents@.len()),
{
    let ghost bytes = asset.bytes@;
    let ghost docs = asset.documents@;
    let ghost d0 = diags_view(out@);
    let mut links: Vec<(String, String)> = Vec::new();
    let mut k: usize = 0;
    while k < asset.documents.len()
        invariant
            k <= docs.len(),
            bytes == asset.bytes@,
            docs == asset.documents@,
            documents_wf(*asset),
            diags_view(out@) == d0 + ownership_checks(bytes, docs, k as nat),
            links_view(links@) == parent_links(bytes, docs, k as nat),
        decreases docs.len() - k,
    {
        let ghost before = diags_view(out@);
        let d = &asset.documents[k];
        assert(document_wf(docs[k as int], bytes));
        if !d.stripped {
            match body(d) {
                Some(b) => {
                    proof { lemma_child_wf(d.root, bytes, 0); }
                    check_owner(asset, d, b, out);
                    if is_transform_doc(d) {
                        match father_link(asset, b) {
                            Some(f) => {
                                let ghost lv = links_view(links@);
                                links.push((d.object_id.clone(), f));
                                assert(links_view(links@) =~= lv.push((d.object_id@, father_of(bytes, *b).unwrap())));
                            },
                            None => {},
                        }
                        check_father(asset, d, b, out);
                        check_children(asset, d, b, out);
                    }
                },
                None => {},
            }
        }
        assert(diags_view(out@) =~= before + document_ownership(bytes, docs, docs[k as int]));
        k = k + 1;
    }
    links
}

fn parent_lookup(links: &Vec<(String, String)>, x: &str) -> (res: Option<String>)
    ensures
        res matches Some(p) ==> parent_in(links_view(links@), x@) == Some(p@),
        res is None ==> parent_in(links_view(links@), x@) is None,
{
    let ghost lv = links_view(links@);
    let mut k = links.len();
    assert(lv.take(k as int) == lv);
    while k > 0
        invariant
            k <= links@.len(),
            lv == links_view(links@),
            parent_in(lv, x@) == parent_in(lv.take(k as int), x@),
        decreases k,
    {
        let ghost prefix = lv.take(k as int);
        assert(prefix.drop_last() == lv.take(k - 1));
        assert(prefix.last() == (links@[k - 1].0@, links@[k - 1].1@));
        if text_eq(links[k - 1].0.as_str(), x) {
            return Some(links[k - 1].1.clone());
        }
        k = k - 1;
    }
    None
}


/// Following `a` then `b` parent steps is following `a + b`.
proof fn lemma_ancestor_add(links: Seq<(Seq<char>, Seq<char>)>, x: Seq<char>, a: nat, b: nat)
    ensures
        ancestor(links, x, a + b) == match ancestor(links, x, a) {
            Some(z) => ancestor(links, z, b),
            None => None,
        },
    decreases a,
{
    if a > 0 {
        match parent_in(links, x) {
            Some(p) => {
                lemma_ancestor_add(links, p, (a - 1) as nat, b);
                assert((a + b - 1) as nat == ((a - 1) as nat + b) as nat);
            },
            None => {},
        }
    }
}

/// The parent of a Transform on a cycle is on the cycle too.
proof fn lemma_cycle_parent(links: Seq<(Seq<char>, Seq<char>)>, y: Seq<char>)
    requires
        on_cycle(links, y),
    ensures
        parent_in(links, y) is Some,
        on_cycle(links, parent_in(links, y).unwrap()),
{
    let n = choose|n: nat| n >= 1 && ancestor(links, y, n) == Some(y);
    let p = parent_in(links, y).unwrap();
    assert(ancestor(links, p, (n - 1) as nat) == Some(y));
    lemma_ancestor_add(links, p, (n - 1) as nat, 1);
    assert(ancestor(links, y, 1) == Some(p)) by {
        assert(ancestor(links, p, 0) == Some(p));
    }
    assert(((n - 1) as nat + 1) as nat == n);
    assert(ancestor(links, p, n) == Some(p));
}

pub open spec fn names_document(docs: Seq<Document>, x: Seq<char>) -> bool {
    exists|j: int| 0 <= j < docs.len() && (#[trigger] docs[j]).object_id@ == x
}

/// Every link starts at the file ID of some document.
proof fn lemma_link_sources(bytes: Seq<u8>, docs: Seq<Document>, k: nat)
    ensures
        forall|q: int| 0 <= q < parent_links(bytes, docs, k).len() ==> names_document(docs, (#[trigger] parent_links(bytes, docs, k)[q]).0),
    decreases k,
{
    if k > 0 && k <= docs.len() {
        lemma_link_sources(bytes, docs, (k - 1) as nat);
        let prior = parent_links(bytes, docs, (k - 1) as nat);
        let now = parent_links(bytes, docs, k);
        assert forall|q: int| 0 <= q < now.len() implies names_document(docs, (#[trigger] now[q]).0) by {
            if q < prior.len() {
                assert(now[q] == prior[q]);
            } else {
                assert(docs[k - 1].object_id@ == now[q].0);
            }
        }
    }
}

/// Every link source names a document.
pub open spec fn sources_known(links: Seq<(Seq<char>, Seq<char>)>, docs: Seq<Document>) -> bool {
    forall|q: int| 0 <= q < links.len() ==> (#[trigger] last_document(docs, links[q].0)) is Some
}

proof fn lemma_sources_known(bytes: Seq<u8>, docs: Seq<Document>)
    ensures
        sources_known(parent_links(bytes, docs, docs.len()), docs),
{
    let links = parent_links(bytes, docs, docs.len());
    lemma_link_sources(bytes, docs, docs.len());
    assert forall|q: int| 0 <= q < links.len() implies (#[trigger] last_document(docs, links[q].0)) is Some by {
        lemma_last_document(docs, links[q].0);
        assert(names_document(docs, links[q].0));
        let j = choose|j: int| 0 <= j < docs.len() && (#[trigger] docs[j]).object_id@ == links[q].0;
        assert(docs[j].object_id@ == links[q].0);
    }
}

/// Whether some Transform lies on a parent cycle.
pub open spec fn has_cycle(links: Seq<(Seq<char>, Seq<char>)>) -> bool {
    exists|x: Seq<char>| on_cycle(links, x)
}

/// Reports Transforms on parent cycles: from each not yet visited Transform,
/// follows parents until it reaches a visited one or repeats.
fn check_cycles(asset: &Asset, links: &Vec<(String, String)>, out: &mut Vec<Diagnostic>)
    requires
        sources_known(links_view(links@), asset.documents@),
    ensures
        diags_view(final(out)@).len() >= diags_view(old(out)@).len(),
        diags_view(final(out)@).take(old(out)@.len() as int) == diags_view(old(out)@),
        sound_cycle_reports(links_view(links@), asset.documents@, diags_view(final(out)@).skip(old(out)@.len() as int)),
        has_cycle(links_view(links@)) ==> diags_view(final(out)@).len() > diags_view(old(out)@).len(),
{
    let ghost lv = links_view(links@);
    let ghost docs = asset.documents@;
    let ghost base = diags_view(out@);
    let mut visited: Vec<String> = Vec::new();
    let mut i: usize = 0;
    assert(diags_view(out@).skip(base.len() as int) =~= Seq::<DiagnosticView>::empty());
    while i < links.len()
        invariant
            i <= links@.len(),
            lv == links_view(links@),
            docs == asset.documents@,
            sources_known(lv, docs),
            base.len() == old(out)@.len(),
            diags_view(out@).len() >= base.len(),
            diags_view(out@).take(base.len() as int) == base,
            sound_cycle_reports(lv, docs, diags_view(out@).skip(base.len() as int)),
            diags_view(out@).len() > base.len() || forall|y: Seq<char>| on_cycle(lv, y) ==> !strings_view(visited@).contains(y),
            (exists|q: int| 0 <= q < i && on_cycle(lv, #[trigger] lv[q].0)) ==> diags_view(out@).len() > base.len(),
        decreases links@.len() - i,
    {
        let ghost start = lv[i as int].0;
        let ghost len0 = diags_view(out@).len();
        assert(links@[i as int].0@ == start);
        if !contains_id(&visited, links[i].0.as_str()) {
            let mut chain: Vec<String> = Vec::new();
            let mut cursor: String = links[i].0.clone();
            loop
                invariant_except_break
                    strings_view(chain@).no_duplicates(),
                    strings_view(chain@).len() <= lv.len(),
                    forall|j: int| 0 <= j < strings_view(chain@).len() ==> is_source(lv, #[trigger] strings_view(chain@)[j]),
                    forall|j: int| 0 <= j < strings_view(chain@).len() - 1 ==> parent_in(lv, #[trigger] strings_view(chain@)[j]) == Some(strings_view(chain@)[j + 1]),
                    strings_view(chain@).len() > 0 ==> parent_in(lv, strings_view(chain@).last()) == Some(cursor@),
                    strings_view(chain@).len() == 0 ==> cursor@ == start,
                    strings_view(chain@).len() > 0 ==> strings_view(chain@)[0] == start,
                    (exists|j: int| 0 <= j < strings_view(chain@).len() && on_cycle(lv, #[trigger] strings_view(chain@)[j])) ==> on_cycle(lv, cursor@),
                invariant
                    lv == links_view(links@),
                    docs == asset.documents@,
                    sources_known(lv, docs),
                    diags_view(out@).len() >= len0,
                    diags_view(out@).len() >= base.len(),
                    diags_view(out@).take(base.len() as int) == base,
                    sound_cycle_reports(lv, docs, diags_view(out@).skip(base.len() as int)),
                    diags_view(out@).len() > base.len() || forall|y: Seq<char>| on_cycle(lv, y) ==> !strings_view(visited@).contains(y),
                ensures
                    diags_view(out@).len() >= len0,
                    diags_view(out@).len() >= base.len(),
                    diags_view(out@).take(base.len() as int) == base,
                    sound_cycle_reports(lv, docs, diags_view(out@).skip(base.len() as int)),
                    diags_view(out@).len() > base.len() || forall|j: int| 0 <= j < strings_view(chain@).len() ==> !on_cycle(lv, #[trigger] strings_view(chain@)[j]),
                    on_cycle(lv, start) ==> diags_view(out@).len() > base.len(),
                    diags_view(out@).len() > base.len() || forall|y: Seq<char>| on_cycle(lv, y) ==> !strings_view(visited@).contains(y),
                decreases lv.len() + 1 - strings_view(chain@).len(),
            {
                let ghost cv = strings_view(chain@);
                if contains_id(&visited, cursor.as_str()) {
                    proof {
                        if cv.len() > 0 {
                            assert(cv[0] == start);
                        }
                    }
                    break;
                }
                if contains_id(&chain, cursor.as_str()) {
                    proof {
                        let j = choose|j: int| 0 <= j < cv.len() && cv[j] == cursor@;
                        lemma_chain_ancestor(lv, cv, j, cursor@);
                        assert(ancestor(lv, cursor@, (cv.len() - j) as nat) == Some(cursor@));
                        assert(on_cycle(lv, cursor@));
                        lemma_last_document(docs, cursor@);
                        assert(is_source(lv, cv[j]));
                        let q = choose|q: int| 0 <= q < lv.len() && (#[trigger] lv[q]).0 == cv[j];
                        assert(last_document(docs, lv[q].0) is Some);
                    }
                    let ghost extra = diags_view(out@).skip(base.len() as int);
                    match asset.document(cursor.as_str()) {
                        Some(doc) => {
                            let m = concat("Transform parent cycle includes ", cursor.as_str());
                            let r = diagnostic(doc, &doc.root, "", "transform_cycle", m);
                            proof {
                                reveal_strlit("");
                                assert(""@ =~= Seq::<char>::empty());
                                assert(cycle_report(docs, cursor@) == Some(r.view()));
                            }
                            push_diagnostic(out, r);
                            proof {
                                assert(diags_view(out@).take(base.len() as int) =~= base);
                                let e2 = diags_view(out@).skip(base.len() as int);
                                assert(e2 =~= extra.push(r.view()));
                                assert forall|q: int| #![trigger e2[q]] 0 <= q < e2.len() implies exists|x: Seq<char>| on_cycle(lv, x) && cycle_report(docs, x) == Some(e2[q]) by {
                                    if q < extra.len() {
                                        assert(e2[q] == extra[q]);
                                    } else {
                                        assert(on_cycle(lv, cursor@) && cycle_report(docs, cursor@) == Some(e2[q]));
                                    }
                                }
                            }
                        },
                        None => {},
                    }
                    break;
                }
                chain.push(cursor.clone());
                let ghost cv2 = strings_view(chain@);
                assert(cv2 =~= cv.push(cursor@));
                proof {
                    assert(cv2.no_duplicates()) by {
                        assert forall|a: int, b: int| 0 <= a < b < cv2.len() implies cv2[a] != cv2[b] by {
                            if b == cv.len() {
                                assert(cv2[a] == cv[a]);
                            } else {
                                assert(cv2[a] == cv[a] && cv2[b] == cv[b]);
                            }
                        }
                    }
                    if cv.len() > 0 {
                        assert(cv2[0] == cv[0]);
                    }
                }
                match parent_lookup(links, cursor.as_str()) {
                    Some(p) => {
                        proof {
                            lemma_parent_in(lv, cursor@);
                            assert forall|j: int| 0 <= j < cv2.len() implies is_source(lv, #[trigger] cv2[j]) by {
                                if j < cv.len() {
                                    assert(cv2[j] == cv[j]);
                                }
                            }
                            lemma_chain_bound(cv2, lv);
                            assert forall|j: int| 0 <= j < cv2.len() - 1 implies parent_in(lv, #[trigger] cv2[j]) == Some(cv2[j + 1]) by {
                                assert(cv2[j] == cv[j]);
                                if j + 1 < cv.len() {
                                    assert(cv2[j + 1] == cv[j + 1]);
                                }
                            }
                            if exists|j: int| 0 <= j < cv2.len() && on_cycle(lv, #[trigger] cv2[j]) {
                                let j = choose|j: int| 0 <= j < cv2.len() && on_cycle(lv, #[trigger] cv2[j]);
                                if j < cv.len() {
                                    assert(cv2[j] == cv[j]);
                                    assert(on_cycle(lv, cursor@));
                                }
                                lemma_cycle_parent(lv, cursor@);
                            }
                        }
                        cursor = p;
                    },
                    None => {
                        proof {
                            if on_cycle(lv, cursor@) {
                                lemma_cycle_parent(lv, cursor@);
                            }
                            assert forall|j: int| 0 <= j < cv2.len() implies !on_cycle(lv, #[trigger] cv2[j]) by {
                                if j < cv.len() {
                                    assert(cv2[j] == cv[j]);
                                }
                            }
                            assert(cv2[0] == start);
                        }
                        break;
                    },
                }
            }
            let ghost before_visited = strings_view(visited@);
            let ghost cv = strings_view(chain@);
            let mut k: usize = 0;
            while k < chain.len()
                invariant
                    k <= chain@.len(),
                    cv == strings_view(chain@),
                    strings_view(visited@) == before_visited + cv.take(k as int),
                decreases chain@.len() - k,
            {
                let ghost vb = strings_view(visited@);
                visited.push(chain[k].clone());
                assert(strings_view(visited@) =~= vb.push(cv[k as int]));
                assert(cv.take(k + 1) =~= cv.take(k as int).push(cv[k as int]));
                k = k + 1;
            }
            proof {
                assert(cv.take(k as int) == cv);
                if !(diags_view(out@).len() > base.len()) {
                    assert forall|y: Seq<char>| on_cycle(lv, y) implies !strings_view(visited@).contains(y) by {
                        if strings_view(visited@).contains(y) {
                            let w = choose|w: int| 0 <= w < strings_view(visited@).len() && strings_view(visited@)[w] == y;
                            if w < before_visited.len() {
                                assert(strings_view(visited@)[w] == before_visited[w]);
                                assert(before_visited.contains(y));
                            } else {
                                assert(strings_view(visited@)[w] == cv[w - before_visited.len()]);
                            }
                        }
                    }
                }
            }
        } else {
            proof {
                let w = choose|w: int| 0 <= w < strings_view(visited@).len() && strings_view(visited@)[w] == links@[i as int].0@;
                assert(strings_view(visited@).contains(start));
            }
        }
        proof {
            if on_cycle(lv, start) {
                assert(diags_view(out@).len() > base.len());
            }
            assert forall|q: int| 0 <= q < i + 1 && on_cycle(lv, #[trigger] lv[q].0) implies diags_view(out@).len() > base.len() by {
                if q < i {
                    assert(exists|q2: int| 0 <= q2 < i && on_cycle(lv, #[trigger] lv[q2].0));
                } else {
                    assert(lv[q].0 == start);
                }
            }
        }
        i = i + 1;
    }
    proof {
        if has_cycle(lv) {
            let x = choose|x: Seq<char>| on_cycle(lv, x);
            lemma_cycle_parent(lv, x);
            lemma_parent_in(lv, x);
            let q = choose|q: int| 0 <= q < lv.len() && (#[trigger] lv[q]).0 == x;
            assert(on_cycle(lv, lv[q].0));
        }
    }
}

/// `after` is `before`, then every document's ownership checks, then reports
/// of Transforms on parent cycles.
pub open spec fn ownership_outcome(bytes: Seq<u8>, docs: Seq<Document>, before: Seq<DiagnosticView>, after: Seq<DiagnosticView>) -> bool {
    let fixed = before + ownership_checks(bytes, docs, docs.len());
    &&& after.len() >= fixed.len()
    &&& after.take(fixed.len() as int) == fixed
    &&& sound_cycle_reports(parent_links(bytes, docs, docs.len()), docs, after.skip(fixed.len() as int))
    &&& has_cycle(parent_links(bytes, docs, docs.len())) ==> after.len() > fixed.len()
}

/// The ownership checks of every document, then the parent-cycle reports.
pub(crate) fn validate_ownership(asset: &Asset, out: &mut Vec<Diagnostic>)
    requires
        documents_wf(*asset),
    ensures
        ownership_outcome(asset.bytes@, asset.documents@, diags_view(old(out)@), diags_view(final(out)@)),
{
    let links = check_links(asset, out);
    proof { lemma_sources_known(asset.bytes@, asset.documents@); }
    check_cycles(asset, &links, out);
}

} // verus!
