//! Identity and reference checks over one immutable asset snapshot. External
//! GUIDs are only checked for shape; resolving them is the project's job.
use vstd::prelude::*;

use crate::asset::{document_wf, last_document, Asset, Document};
use crate::numbers::{i64_value, parse_i64};
use crate::reading::{
    body, body_of, child, child_count, child_node, child_path, child_pointer, child_total, field_text,
    field_text_of, is_pptr, lemma_child_wf, lemma_get_wf, names_external, pptr, scalar_text, text_of,
};
use crate::syntax::{
    diags_view, lemma_diags_push, Diagnostic, DiagnosticView, Node, NodeKind, Severity, Span,
};
use crate::text::{all_char, chars_of, concat, concat3, concat5, only_char, text_eq};
use crate::tree::node_wf;

verus! {

/// An error diagnostic about `n`, found at `path` of document `doc`.
pub open spec fn report(doc: Document, n: Node, path: Seq<char>, code: Seq<char>, message: Seq<char>) -> DiagnosticView {
    DiagnosticView {
        code,
        message,
        severity: Severity::Error,
        span: n.span,
        object_id: Some(doc.object_id@),
        property_path: Some(path),
    }
}

pub open spec fn strings_view(s: Seq<String>) -> Seq<Seq<char>> {
    s.map_values(|t: String| t@)
}

pub open spec fn is_hex_char(c: char) -> bool {
    ('0' <= c && c <= '9') || ('a' <= c && c <= 'f') || ('A' <= c && c <= 'F')
}

/// A 128-bit GUID: exactly 32 hexadecimal digits.
pub open spec fn guid_shape(g: Seq<char>) -> bool {
    g.len() == 32 && forall|k: int| 0 <= k < g.len() ==> is_hex_char(#[trigger] g[k])
}

/// Whether some document has this file ID.
pub open spec fn has_object(docs: Seq<Document>, id: Seq<char>) -> bool {
    exists|k: int| 0 <= k < docs.len() && (#[trigger] docs[k]).object_id@ == id
}

// ---------------------------------------------------------------------------
// The managed-reference registry (`references: { version, RefIds }`).

/// One `RefIds` item: its diagnostics and the registry after it.
pub open spec fn registry_item(bytes: Seq<u8>, doc: Document, item: Node, path: Seq<char>, ids: Seq<Seq<char>>) -> (Seq<DiagnosticView>, Seq<Seq<char>>) {
    match field_text(bytes, item, "rid"@) {
        Some(rid) => {
            let first = if i64_value(rid) is None {
                seq![report(doc, item, path, "invalid_rid"@, "managed reference ID "@ + rid + " is not a signed 64-bit integer"@)]
            } else if ids.contains(rid) {
                seq![report(doc, item, path, "duplicate_rid"@, "duplicate managed reference rid "@ + rid + " in host "@ + doc.object_id@)]
            } else {
                Seq::empty()
            };
            let registered = if i64_value(rid) is Some && !ids.contains(rid) { ids.push(rid) } else { ids };
            let second = if item.spec_get("type"@) is None {
                seq![report(doc, item, path, "incomplete_managed_reference"@, "rid "@ + rid + " must preserve its type identity"@)]
            } else {
                Seq::empty()
            };
            (first + second, registered)
        },
        None => (seq![report(doc, item, path, "missing_rid"@, "RefIds entry has no rid"@)], ids),
    }
}

/// The first `k` `RefIds` items, in order.
pub open spec fn registry_items(bytes: Seq<u8>, doc: Document, items: Seq<crate::syntax::Item>, path: Seq<char>, ids: Seq<Seq<char>>, k: nat) -> (Seq<DiagnosticView>, Seq<Seq<char>>)
    decreases k,
{
    if k == 0 || k > items.len() {
        (Seq::empty(), ids)
    } else {
        let prior = registry_items(bytes, doc, items, path, ids, (k - 1) as nat);
        let step = registry_item(bytes, doc, items[k - 1].value, path, prior.1);
        (prior.0 + step.0, step.1)
    }
}

/// The registry a mapping declares itself, when it has both `RefIds` and
/// `version`.
pub open spec fn registry_here(bytes: Seq<u8>, doc: Document, n: Node, path: Seq<char>, ids: Seq<Seq<char>>) -> (Seq<DiagnosticView>, Seq<Seq<char>>) {
    match n.spec_get("RefIds"@) {
        Some(r) => if n.spec_get("version"@) is Some {
            match r.spec_items() {
                Some(items) => registry_items(bytes, doc, items, path, ids, items.len()),
                None => if text_of(bytes, r) matches Some(t) && t.len() == 0 {
                    (Seq::empty(), ids)
                } else {
                    (seq![report(doc, r, path, "invalid_reference_registry"@, "RefIds must be a sequence or an empty registry"@)], ids)
                },
            }
        } else {
            (Seq::empty(), ids)
        },
        None => (Seq::empty(), ids),
    }
}

/// Registry diagnostics and rids of a subtree, in document order.
pub open spec fn node_registry(bytes: Seq<u8>, doc: Document, n: Node, path: Seq<char>, ids: Seq<Seq<char>>) -> (Seq<DiagnosticView>, Seq<Seq<char>>)
    decreases n, child_count(n) + 1,
{
    let here = registry_here(bytes, doc, n, path, ids);
    let below = children_registry(bytes, doc, n, path, here.1, child_count(n));
    (here.0 + below.0, below.1)
}

pub open spec fn children_registry(bytes: Seq<u8>, doc: Document, n: Node, path: Seq<char>, ids: Seq<Seq<char>>, k: nat) -> (Seq<DiagnosticView>, Seq<Seq<char>>)
    decreases n, k,
{
    if k == 0 || k > child_count(n) {
        (Seq::empty(), ids)
    } else {
        let prior = children_registry(bytes, doc, n, path, ids, (k - 1) as nat);
        let step = match n.kind {
            NodeKind::Mapping(es) => node_registry(bytes, doc, es@[k - 1].value, child_path(n, path, k - 1), prior.1),
            NodeKind::Sequence(items) => node_registry(bytes, doc, items@[k - 1].value, child_path(n, path, k - 1), prior.1),
            NodeKind::Scalar(_) => (Seq::empty(), prior.1),
        };
        (prior.0 + step.0, step.1)
    }
}

// ---------------------------------------------------------------------------
// Reference checks.

/// Checks of an object pointer: its file ID is a 64-bit integer naming an
/// object of this asset (unless it names another asset, is `0`, or the
/// document is the `$root` pseudo-document), and its GUID has GUID shape.
pub open spec fn pointer_checks(bytes: Seq<u8>, docs: Seq<Document>, doc: Document, n: Node, path: Seq<char>) -> Seq<DiagnosticView> {
    if !is_pptr(n) {
        Seq::empty()
    } else {
        let file = match field_text(bytes, n, "fileID"@) {
            Some(id) => if i64_value(id) is None {
                seq![report(doc, n, path, "invalid_file_id"@, "fileID "@ + id + " is not a signed 64-bit integer"@)]
            } else if !names_external(bytes, n) && id != "0"@ && doc.class_id is Some && !has_object(docs, id) {
                seq![report(doc, n, path, "dangling_local_reference"@, "local fileID "@ + id + " has no object in this asset snapshot"@)]
            } else {
                Seq::empty()
            },
            None => Seq::empty(),
        };
        let guid = match field_text(bytes, n, "guid"@) {
            Some(g) => if !guid_shape(g) {
                seq![report(doc, n, path, "invalid_guid"@, "invalid 128-bit GUID "@ + g)]
            } else {
                Seq::empty()
            },
            None => Seq::empty(),
        };
        file + guid
    }
}

/// Checks of a managed reference `{rid: N}`: `N` is a 64-bit integer that
/// is `-1`, `-2` or registered in the host's registry.
pub open spec fn rid_checks(bytes: Seq<u8>, doc: Document, n: Node, path: Seq<char>, registry: Seq<Seq<char>>) -> Seq<DiagnosticView> {
    match n.kind {
        NodeKind::Mapping(es) => if es@.len() == 1 && es@[0].key@ == "rid"@ {
            match text_of(bytes, es@[0].value) {
                Some(rid) => match i64_value(rid) {
                    Some(v) => if v == -1 || v == -2 || registry.contains(rid) {
                        Seq::empty()
                    } else {
                        seq![report(doc, n, path, "dangling_managed_reference"@, "rid "@ + rid + " is absent from host "@ + doc.object_id@ + "'s registry"@)]
                    },
                    None => seq![report(doc, n, path, "invalid_rid"@, "rid "@ + rid + " is not a signed 64-bit integer"@)],
                },
                None => Seq::empty(),
            }
        } else {
            Seq::empty()
        },
        _ => Seq::empty(),
    }
}

/// The `component: {fileID}` text of an `m_Component` item.
pub open spec fn component_id(bytes: Seq<u8>, item: Node) -> Option<Seq<char>> {
    match item.spec_get("component"@) {
        Some(c) => field_text(bytes, c, "fileID"@),
        None => None,
    }
}

/// The `m_GameObject: {fileID}` text of a component document.
pub open spec fn component_owner(bytes: Seq<u8>, d: Document) -> Option<Seq<char>> {
    match body_of(d) {
        Some(b) => match b.spec_get("m_GameObject"@) {
            Some(g) => field_text(bytes, g, "fileID"@),
            None => None,
        },
        None => None,
    }
}

/// Checks of component `j` of a GameObject's list: it is listed once, and
/// the component it names belongs to this GameObject.
pub open spec fn component_one(bytes: Seq<u8>, docs: Seq<Document>, doc: Document, items: Seq<crate::syntax::Item>, path: Seq<char>, j: int) -> Seq<DiagnosticView> {
    match component_id(bytes, items[j].value) {
        Some(id) => {
            let repeated = if exists|i: int| 0 <= i < j && component_id(bytes, #[trigger] items[i].value) == Some(id) {
                seq![report(doc, items[j].value, path, "duplicate_component"@, "component fileID "@ + id + " is listed twice"@)]
            } else {
                Seq::empty()
            };
            let owner = match last_document(docs, id) {
                Some(d) => match component_owner(bytes, docs[d]) {
                    Some(o) => if o != doc.object_id@ {
                        seq![report(doc, items[j].value, path, "component_owner_mismatch"@, "component "@ + id + " belongs to another GameObject"@)]
                    } else {
                        Seq::empty()
                    },
                    None => Seq::empty(),
                },
                None => Seq::empty(),
            };
            repeated + owner
        },
        None => Seq::empty(),
    }
}

pub open spec fn component_list(bytes: Seq<u8>, docs: Seq<Document>, doc: Document, items: Seq<crate::syntax::Item>, path: Seq<char>, k: nat) -> Seq<DiagnosticView>
    decreases k,
{
    if k == 0 || k > items.len() {
        Seq::empty()
    } else {
        component_list(bytes, docs, doc, items, path, (k - 1) as nat) + component_one(bytes, docs, doc, items, path, k - 1)
    }
}

pub open spec fn component_checks(bytes: Seq<u8>, docs: Seq<Document>, doc: Document, n: Node, path: Seq<char>) -> Seq<DiagnosticView> {
    match n.spec_get("m_Component"@) {
        Some(c) => match c.spec_items() {
            Some(items) => component_list(bytes, docs, doc, items, path, items.len()),
            None => Seq::empty(),
        },
        None => Seq::empty(),
    }
}

/// The checks of one node.
pub open spec fn walk_here(bytes: Seq<u8>, docs: Seq<Document>, doc: Document, n: Node, path: Seq<char>, registry: Seq<Seq<char>>) -> Seq<DiagnosticView> {
    pointer_checks(bytes, docs, doc, n, path) + rid_checks(bytes, doc, n, path, registry) + component_checks(bytes, docs, doc, n, path)
}

/// The checks of a subtree, in document order.
pub open spec fn node_walk(bytes: Seq<u8>, docs: Seq<Document>, doc: Document, n: Node, path: Seq<char>, registry: Seq<Seq<char>>) -> Seq<DiagnosticView>
    decreases n, child_count(n) + 1,
{
    walk_here(bytes, docs, doc, n, path, registry) + children_walk(bytes, docs, doc, n, path, registry, child_count(n))
}

pub open spec fn children_walk(bytes: Seq<u8>, docs: Seq<Document>, doc: Document, n: Node, path: Seq<char>, registry: Seq<Seq<char>>, k: nat) -> Seq<DiagnosticView>
    decreases n, k,
{
    if k == 0 || k > child_count(n) {
        Seq::empty()
    } else {
        let prior = children_walk(bytes, docs, doc, n, path, registry, (k - 1) as nat);
        match n.kind {
            NodeKind::Mapping(es) => prior + node_walk(bytes, docs, doc, es@[k - 1].value, child_path(n, path, k - 1), registry),
            NodeKind::Sequence(items) => prior + node_walk(bytes, docs, doc, items@[k - 1].value, child_path(n, path, k - 1), registry),
            NodeKind::Scalar(_) => prior,
        }
    }
}

/// The registry and reference checks of one document.
pub open spec fn document_checks(bytes: Seq<u8>, docs: Seq<Document>, d: Document) -> Seq<DiagnosticView> {
    let registry = node_registry(bytes, d, d.root, Seq::empty(), Seq::empty());
    registry.0 + node_walk(bytes, docs, d, d.root, Seq::empty(), registry.1)
}

/// The document checks of the first `k` documents.
pub open spec fn documents_checks(bytes: Seq<u8>, docs: Seq<Document>, k: nat) -> Seq<DiagnosticView>
    decreases k,
{
    if k == 0 || k > docs.len() {
        Seq::empty()
    } else {
        documents_checks(bytes, docs, (k - 1) as nat) + document_checks(bytes, docs, docs[k - 1])
    }
}

/// Every document of the asset is well formed.
pub open spec fn documents_wf(asset: Asset) -> bool {
    forall|k: int| 0 <= k < asset.documents@.len() ==> document_wf(#[trigger] asset.documents@[k], asset.bytes@)
}

// ---------------------------------------------------------------------------
// Executable checks.

pub(crate) fn diagnostic(doc: &Document, node: &Node, path: &str, code: &str, message: String) -> (res: Diagnostic)
    ensures
        res.view() == report(*doc, *node, path@, code@, message@),
{
    Diagnostic {
        code: code.to_owned(),
        message,
        severity: Severity::Error,
        span: node.span,
        object_id: Some(doc.object_id.clone()),
        property_path: Some(path.to_owned()),
    }
}

pub(crate) fn push_diagnostic(out: &mut Vec<Diagnostic>, d: Diagnostic)
    ensures
        diags_view(final(out)@) == diags_view(old(out)@).push(d.view()),
{
    proof { lemma_diags_push(out@, d); }
    out.push(d);
}

fn contains_text(ids: &Vec<String>, t: &str) -> (res: bool)
    ensures
        res == strings_view(ids@).contains(t@),
{
    let mut k: usize = 0;
    while k < ids.len()
        invariant
            k <= ids@.len(),
            forall|j: int| 0 <= j < k ==> ids@[j]@ != t@,
        decreases ids@.len() - k,
    {
        if text_eq(ids[k].as_str(), t) {
            assert(strings_view(ids@)[k as int] == t@);
            return true;
        }
        k = k + 1;
    }
    assert forall|j: int| 0 <= j < strings_view(ids@).len() implies strings_view(ids@)[j] != t@ by {
        assert(strings_view(ids@)[j] == ids@[j]@);
    }
    false
}

fn registry_item_check(asset: &Asset, doc: &Document, item: &Node, path: &str, ids: &mut Vec<String>, out: &mut Vec<Diagnostic>)
    requires
        node_wf(*item, asset.bytes@),
    ensures
        diags_view(final(out)@) == diags_view(old(out)@) + registry_item(asset.bytes@, *doc, *item, path@, strings_view(old(ids)@)).0,
        strings_view(final(ids)@) == registry_item(asset.bytes@, *doc, *item, path@, strings_view(old(ids)@)).1,
{
    let ghost d0 = diags_view(out@);
    let ghost i0 = strings_view(ids@);
    match field_text_of(asset, item, "rid") {
        Some(rid) => {
            let chars = chars_of(rid.as_str());
            if parse_i64(chars.as_slice()).is_none() {
                let m = concat3("managed reference ID ", rid.as_str(), " is not a signed 64-bit integer");
                push_diagnostic(out, diagnostic(doc, item, path, "invalid_rid", m));
            } else if contains_text(ids, rid.as_str()) {
                let m = concat5("duplicate managed reference rid ", rid.as_str(), " in host ", doc.object_id.as_str(), "");
                proof { reveal_strlit(""); assert(m@ == "duplicate managed reference rid "@ + rid@ + " in host "@ + doc.object_id@); }
                push_diagnostic(out, diagnostic(doc, item, path, "duplicate_rid", m));
            } else {
                let ghost before = ids@;
                ids.push(rid.clone());
                assert(strings_view(ids@) =~= strings_view(before).push(rid@));
            }
            let ghost d1 = diags_view(out@);
            if item.get("type").is_none() {
                let m = concat3("rid ", rid.as_str(), " must preserve its type identity");
                push_diagnostic(out, diagnostic(doc, item, path, "incomplete_managed_reference", m));
            }
            assert(diags_view(out@) =~= d0 + registry_item(asset.bytes@, *doc, *item, path@, i0).0);
        },
        None => {
            push_diagnostic(out, diagnostic(doc, item, path, "missing_rid", "RefIds entry has no rid".to_owned()));
        },
    }
}

fn registry_here_check(asset: &Asset, doc: &Document, node: &Node, path: &str, ids: &mut Vec<String>, out: &mut Vec<Diagnostic>)
    requires
        node_wf(*node, asset.bytes@),
    ensures
        diags_view(final(out)@) == diags_view(old(out)@) + registry_here(asset.bytes@, *doc, *node, path@, strings_view(old(ids)@)).0,
        strings_view(final(ids)@) == registry_here(asset.bytes@, *doc, *node, path@, strings_view(old(ids)@)).1,
{
    let ghost bytes = asset.bytes@;
    let ghost d0 = diags_view(out@);
    let ghost i0 = strings_view(ids@);
    proof { lemma_get_wf(*node, bytes, "RefIds"@); }
    let ref_ids = match node.get("RefIds") {
        Some(r) => r,
        None => return,
    };
    if node.get("version").is_none() {
        return;
    }
    match ref_ids.items() {
        Some(items) => {
            let mut k: usize = 0;
            while k < items.len()
                invariant
                    k <= items@.len(),
                    bytes == asset.bytes@,
                    node_wf(*ref_ids, bytes),
                    ref_ids.spec_items() == Some(items@),
                    diags_view(out@) == d0 + registry_items(bytes, *doc, items@, path@, i0, k as nat).0,
                    strings_view(ids@) == registry_items(bytes, *doc, items@, path@, i0, k as nat).1,
                decreases items@.len() - k,
            {
                proof {
                    assert(child(*ref_ids, k as int) == items@[k as int].value);
                    lemma_child_wf(*ref_ids, bytes, k as int);
                }
                registry_item_check(asset, doc, &items[k].value, path, ids, out);
                k = k + 1;
            }
        },
        None => {
            let empty = match scalar_text(asset, ref_ids) {
                Some(t) => chars_of(t.as_str()).len() == 0,
                None => false,
            };
            if !empty {
                push_diagnostic(out, diagnostic(doc, ref_ids, path, "invalid_reference_registry", "RefIds must be a sequence or an empty registry".to_owned()));
            }
        },
    }
}

fn collect_registry(asset: &Asset, doc: &Document, node: &Node, path: &str, ids: &mut Vec<String>, out: &mut Vec<Diagnostic>)
    requires
        node_wf(*node, asset.bytes@),
    ensures
        diags_view(final(out)@) == diags_view(old(out)@) + node_registry(asset.bytes@, *doc, *node, path@, strings_view(old(ids)@)).0,
        strings_view(final(ids)@) == node_registry(asset.bytes@, *doc, *node, path@, strings_view(old(ids)@)).1,
    decreases node,
{
    let ghost bytes = asset.bytes@;
    let ghost d0 = diags_view(out@);
    let ghost i0 = strings_view(ids@);
    registry_here_check(asset, doc, node, path, ids, out);
    let ghost d1 = diags_view(out@);
    let ghost i1 = strings_view(ids@);
    let n = child_total(node);
    let mut k: usize = 0;
    while k < n
        invariant
            k <= n == child_count(*node),
            bytes == asset.bytes@,
            node_wf(*node, bytes),
            diags_view(out@) == d1 + children_registry(bytes, *doc, *node, path@, i1, k as nat).0,
            strings_view(ids@) == children_registry(bytes, *doc, *node, path@, i1, k as nat).1,
        decreases n - k,
    {
        let c = child_node(node, k);
        let p = child_pointer(node, path, k);
        proof { lemma_child_wf(*node, bytes, k as int); }
        collect_registry(asset, doc, c, p.as_str(), ids, out);
        k = k + 1;
    }
}

fn has_object_id(asset: &Asset, id: &str) -> (res: bool)
    ensures
        res == has_object(asset.documents@, id@),
{
    let mut k: usize = 0;
    while k < asset.documents.len()
        invariant
            k <= asset.documents@.len(),
            forall|j: int| 0 <= j < k ==> (#[trigger] asset.documents@[j]).object_id@ != id@,
        decreases asset.documents@.len() - k,
    {
        if text_eq(asset.documents[k].object_id.as_str(), id) {
            assert(asset.documents@[k as int].object_id@ == id@);
            return true;
        }
        k = k + 1;
    }
    false
}

fn is_guid(g: &[char]) -> (res: bool)
    ensures
        res == guid_shape(g@),
{
    if g.len() != 32 {
        return false;
    }
    let mut k: usize = 0;
    while k < g.len()
        invariant
            k <= g@.len() == 32,
            forall|j: int| 0 <= j < k ==> is_hex_char(#[trigger] g@[j]),
        decreases g@.len() - k,
    {
        let c = g[k];
        if !(('0' <= c && c <= '9') || ('a' <= c && c <= 'f') || ('A' <= c && c <= 'F')) {
            assert(!is_hex_char(g@[k as int]));
            return false;
        }
        k = k + 1;
    }
    true
}

fn pointer_check(asset: &Asset, doc: &Document, node: &Node, path: &str, out: &mut Vec<Diagnostic>)
    requires
        node_wf(*node, asset.bytes@),
    ensures
        diags_view(final(out)@) == diags_view(old(out)@) + pointer_checks(asset.bytes@, asset.documents@, *doc, *node, path@),
{
    let ghost d0 = diags_view(out@);
    if !pptr(node) {
        assert(diags_view(out@) =~= d0 + pointer_checks(asset.bytes@, asset.documents@, *doc, *node, path@));
        return;
    }
    match field_text_of(asset, node, "fileID") {
        Some(id) => {
            let chars = chars_of(id.as_str());
            if parse_i64(chars.as_slice()).is_none() {
                let m = concat3("fileID ", id.as_str(), " is not a signed 64-bit integer");
                push_diagnostic(out, diagnostic(doc, node, path, "invalid_file_id", m));
            } else {
                let external = match field_text_of(asset, node, "guid") {
                    Some(g) => {
                        let gc = chars_of(g.as_str());
                        !only_char(gc.as_slice(), '0')
                    },
                    None => false,
                };
                if !external && !text_eq(id.as_str(), "0") && doc.class_id.is_some() && !has_object_id(asset, id.as_str()) {
                    let m = concat3("local fileID ", id.as_str(), " has no object in this asset snapshot");
                    push_diagnostic(out, diagnostic(doc, node, path, "dangling_local_reference", m));
                }
            }
        },
        None => {},
    }
    let ghost d1 = diags_view(out@);
    match field_text_of(asset, node, "guid") {
        Some(g) => {
            let gc = chars_of(g.as_str());
            if !is_guid(gc.as_slice()) {
                let m = concat("invalid 128-bit GUID ", g.as_str());
                push_diagnostic(out, diagnostic(doc, node, path, "invalid_guid", m));
            }
        },
        None => {},
    }
    assert(diags_view(out@) =~= d0 + pointer_checks(asset.bytes@, asset.documents@, *doc, *node, path@));
}

fn rid_check(asset: &Asset, doc: &Document, node: &Node, path: &str, registry: &Vec<String>, out: &mut Vec<Diagnostic>)
    requires
        node_wf(*node, asset.bytes@),
    ensures
        diags_view(final(out)@) == diags_view(old(out)@) + rid_checks(asset.bytes@, *doc, *node, path@, strings_view(registry@)),
{
    let ghost d0 = diags_view(out@);
    match &node.kind {
        NodeKind::Mapping(es) => {
            if es.len() == 1 && text_eq(es[0].key.as_str(), "rid") {
                proof { assert(node_wf(es@[0].value, asset.bytes@)); }
                match scalar_text(asset, &es[0].value) {
                    Some(rid) => {
                        let chars = chars_of(rid.as_str());
                        match parse_i64(chars.as_slice()) {
                            Some(v) => {
                                if !(v == -1 || v == -2 || contains_text(registry, rid.as_str())) {
                                    let m = concat5("rid ", rid.as_str(), " is absent from host ", doc.object_id.as_str(), "'s registry");
                                    push_diagnostic(out, diagnostic(doc, node, path, "dangling_managed_reference", m));
                                }
                            },
                            None => {
                                let m = concat3("rid ", rid.as_str(), " is not a signed 64-bit integer");
                                push_diagnostic(out, diagnostic(doc, node, path, "invalid_rid", m));
                            },
                        }
                    },
                    None => {},
                }
            }
        },
        _ => {},
    }
    assert(diags_view(out@) =~= d0 + rid_checks(asset.bytes@, *doc, *node, path@, strings_view(registry@)));
}

fn component_id_of(asset: &Asset, item: &Node) -> (res: Option<String>)
    requires
        node_wf(*item, asset.bytes@),
    ensures
        res matches Some(t) ==> component_id(asset.bytes@, *item) == Some(t@),
        res is None ==> component_id(asset.bytes@, *item) is None,
{
    proof { lemma_get_wf(*item, asset.bytes@, "component"@); }
    match item.get("component") {
        Some(c) => field_text_of(asset, c, "fileID"),
        None => None,
    }
}

fn component_owner_of(asset: &Asset, d: &Document) -> (res: Option<String>)
    requires
        document_wf(*d, asset.bytes@),
    ensures
        res matches Some(t) ==> component_owner(asset.bytes@, *d) == Some(t@),
        res is None ==> component_owner(asset.bytes@, *d) is None,
{
    let b = match body(d) {
        Some(b) => b,
        None => return None,
    };
    proof {
        lemma_child_wf(d.root, asset.bytes@, 0);
        lemma_get_wf(*b, asset.bytes@, "m_GameObject"@);
    }
    match b.get("m_GameObject") {
        Some(g) => field_text_of(asset, g, "fileID"),
        None => None,
    }
}

fn component_check(asset: &Asset, doc: &Document, node: &Node, path: &str, out: &mut Vec<Diagnostic>)
    requires
        node_wf(*node, asset.bytes@),
        documents_wf(*asset),
    ensures
        diags_view(final(out)@) == diags_view(old(out)@) + component_checks(asset.bytes@, asset.documents@, *doc, *node, path@),
{
    let ghost bytes = asset.bytes@;
    let ghost docs = asset.documents@;
    let ghost d0 = diags_view(out@);
    proof { lemma_get_wf(*node, bytes, "m_Component"@); }
    let c = match node.get("m_Component") {
        Some(c) => c,
        None => {
            assert(diags_view(out@) =~= d0 + component_checks(bytes, docs, *doc, *node, path@));
            return;
        },
    };
    let items = match c.items() {
        Some(items) => items,
        None => {
            assert(diags_view(out@) =~= d0 + component_checks(bytes, docs, *doc, *node, path@));
            return;
        },
    };
    let mut seen: Vec<String> = Vec::new();
    let mut k: usize = 0;
    while k < items.len()
        invariant
            k <= items@.len(),
            bytes == asset.bytes@,
            docs == asset.documents@,
            documents_wf(*asset),
            node_wf(*c, bytes),
            c.spec_items() == Some(items@),
            diags_view(out@) == d0 + component_list(bytes, docs, *doc, items@, path@, k as nat),
            forall|t: Seq<char>| strings_view(seen@).contains(t) <==> exists|i: int| 0 <= i < k && component_id(bytes, #[trigger] items@[i].value) == Some(t),
        decreases items@.len() - k,
    {
        let ghost before = diags_view(out@);
        proof {
            assert(child(*c, k as int) == items@[k as int].value);
            lemma_child_wf(*c, bytes, k as int);
        }
        let item = &items[k].value;
        match component_id_of(asset, item) {
            Some(id) => {
                if contains_text(&seen, id.as_str()) {
                    let m = concat3("component fileID ", id.as_str(), " is listed twice");
                    push_diagnostic(out, diagnostic(doc, item, path, "duplicate_component", m));
                }
                let ghost mid = diags_view(out@);
                match asset.document(id.as_str()) {
                    Some(component) => {
                        proof {
                            crate::asset::lemma_last_document(docs, id@);
                            let j = last_document(docs, id@).unwrap();
                            assert(document_wf(docs[j], bytes));
                        }
                        match component_owner_of(asset, component) {
                            Some(owner) => {
                                if !text_eq(owner.as_str(), doc.object_id.as_str()) {
                                    let m = concat3("component ", id.as_str(), " belongs to another GameObject");
                                    push_diagnostic(out, diagnostic(doc, item, path, "component_owner_mismatch", m));
                                }
                            },
                            None => {},
                        }
                    },
                    None => {},
                }
                let ghost seen_before = strings_view(seen@);
                seen.push(id);
                proof {
                    assert(strings_view(seen@) =~= seen_before.push(id@));
                    assert forall|t: Seq<char>| strings_view(seen@).contains(t) <==> exists|i: int| 0 <= i < k + 1 && component_id(bytes, #[trigger] items@[i].value) == Some(t) by {
                        if strings_view(seen@).contains(t) && t != id@ {
                            assert(seen_before.contains(t));
                        }
                        if t == id@ {
                            assert(component_id(bytes, items@[k as int].value) == Some(t));
                        }
                        if exists|i: int| 0 <= i < k + 1 && component_id(bytes, #[trigger] items@[i].value) == Some(t) {
                            let i = choose|i: int| 0 <= i < k + 1 && component_id(bytes, #[trigger] items@[i].value) == Some(t);
                            if i < k {
                                assert(seen_before.contains(t));
                                let w = choose|w: int| 0 <= w < seen_before.len() && seen_before[w] == t;
                                assert(strings_view(seen@)[w] == t);
                            } else {
                                assert(strings_view(seen@)[seen_before.len() as int] == t);
                            }
                        }
                    }
                }
            },
            None => {
                proof {
                    assert forall|t: Seq<char>| strings_view(seen@).contains(t) <==> exists|i: int| 0 <= i < k + 1 && component_id(bytes, #[trigger] items@[i].value) == Some(t) by {
                        if exists|i: int| 0 <= i < k + 1 && component_id(bytes, #[trigger] items@[i].value) == Some(t) {
                            let i = choose|i: int| 0 <= i < k + 1 && component_id(bytes, #[trigger] items@[i].value) == Some(t);
                            assert(i < k);
                        }
                    }
                }
            },
        }
        assert(diags_view(out@) =~= before + component_one(bytes, docs, *doc, items@, path@, k as int));
        k = k + 1;
    }
}

fn walk(asset: &Asset, doc: &Document, node: &Node, path: &str, registry: &Vec<String>, out: &mut Vec<Diagnostic>)
    requires
        node_wf(*node, asset.bytes@),
        documents_wf(*asset),
    ensures
        diags_view(final(out)@) == diags_view(old(out)@) + node_walk(asset.bytes@, asset.documents@, *doc, *node, path@, strings_view(registry@)),
    decreases node,
{
    let ghost bytes = asset.bytes@;
    let ghost d0 = diags_view(out@);
    pointer_check(asset, doc, node, path, out);
    rid_check(asset, doc, node, path, registry, out);
    component_check(asset, doc, node, path, out);
    let ghost d1 = diags_view(out@);
    assert(d1 =~= d0 + walk_here(bytes, asset.documents@, *doc, *node, path@, strings_view(registry@)));
    let n = child_total(node);
    let mut k: usize = 0;
    while k < n
        invariant
            k <= n == child_count(*node),
            bytes == asset.bytes@,
            node_wf(*node, bytes),
            documents_wf(*asset),
            diags_view(out@) == d1 + children_walk(bytes, asset.documents@, *doc, *node, path@, strings_view(registry@), k as nat),
        decreases n - k,
    {
        let c = child_node(node, k);
        let p = child_pointer(node, path, k);
        proof { lemma_child_wf(*node, bytes, k as int); }
        walk(asset, doc, c, p.as_str(), registry, out);
        k = k + 1;
    }
}

/// The registry and reference checks of one document.
fn check_document(asset: &Asset, doc: &Document, out: &mut Vec<Diagnostic>)
    requires
        document_wf(*doc, asset.bytes@),
        documents_wf(*asset),
    ensures
        diags_view(final(out)@) == diags_view(old(out)@) + document_checks(asset.bytes@, asset.documents@, *doc),
{
    let mut registry: Vec<String> = Vec::new();
    proof {
        reveal_strlit("");
        assert(""@ =~= Seq::<char>::empty());
        assert(strings_view(registry@) =~= Seq::<Seq<char>>::empty());
    }
    collect_registry(asset, doc, &doc.root, "", &mut registry, out);
    walk(asset, doc, &doc.root, "", &registry, out);
}

/// What validation reports: the parser's own diagnostics, each document's
/// registry and reference checks in document order, then the ownership
/// checks and parent-cycle reports.
pub open spec fn validation_outcome(a: Asset, out: Seq<DiagnosticView>) -> bool {
    crate::ownership::ownership_outcome(
        a.bytes@,
        a.documents@,
        diags_view(a.diagnostics@) + documents_checks(a.bytes@, a.documents@, a.documents@.len()),
        out,
    )
}

/// Validates identities and references using only this immutable asset
/// snapshot. External GUIDs are returned to the project layer for
/// resolution.
pub fn validate(asset: &Asset) -> (res: Vec<Diagnostic>)
    requires
        documents_wf(*asset),
    ensures
        validation_outcome(*asset, diags_view(res@)),
{
    let ghost bytes = asset.bytes@;
    let ghost docs = asset.documents@;
    let mut out: Vec<Diagnostic> = Vec::new();
    let mut k: usize = 0;
    while k < asset.diagnostics.len()
        invariant
            k <= asset.diagnostics@.len(),
            diags_view(out@) == diags_view(asset.diagnostics@.take(k as int)),
        decreases asset.diagnostics@.len() - k,
    {
        push_diagnostic(&mut out, asset.diagnostics[k].copied());
        k = k + 1;
        assert(diags_view(asset.diagnostics@.take(k as int)) =~= diags_view(asset.diagnostics@.take(k - 1)).push(asset.diagnostics@[k - 1].view()));
    }
    assert(asset.diagnostics@.take(k as int) == asset.diagnostics@);
    let ghost d0 = diags_view(out@);
    let mut j: usize = 0;
    while j < asset.documents.len()
        invariant
            j <= docs.len(),
            bytes == asset.bytes@,
            docs == asset.documents@,
            documents_wf(*asset),
            diags_view(out@) == d0 + documents_checks(bytes, docs, j as nat),
        decreases docs.len() - j,
    {
        assert(document_wf(docs[j as int], bytes));
        check_document(asset, &asset.documents[j], &mut out);
        j = j + 1;
    }
    crate::ownership::validate_ownership(asset, &mut out);
    out
}

} // verus!
