//! Change detection of a three-way merge. Base and source are compared node
//! by node; each difference becomes a change whose status says how the
//! target relates to it. Mappings split by key, identity sequences by their
//! items' identities; everything else is one atomic change.
use vstd::prelude::*;
use std::sync::Arc;

use crate::asset::{text_documents, text_run, text_dup, document_wf, last_document, lemma_last_document, parse, parse_outcome, parse_refused, Asset, Document};
use crate::changes::{
    change_id, change_id_spec, contains_seq, ends_with, occurs_at, sequence_keys, sequence_keys_spec,
    summary, summary_of, texts_view, Change, ChangeKind, ChangeStatus, ChangeView, SummaryView,
    ValueSummary,
};
use crate::pointer::{child_spec, path_child};
use crate::reading::{is_pptr, lemma_child_wf, lemma_get_wf, pptr};
use crate::syntax::{diags_view, CoreError, Diagnostic, DiagnosticView, Entry, Limits, Node, NodeKind, Span};
use crate::text::{chars_of, concat, concat3, text_eq};
use crate::tree::node_wf;
use crate::validation::{documents_wf, validate, validation_outcome};
use crate::aliases::fails;
use crate::decisions::{conflicts_view, same_resolution, Decision, MergeOutput, Resolution};
use crate::render::{decode_pair, encode_pair, json_pair_text, json_string_pair, snapshots_wf, finish, finish_outcome, render_decisions, render_plan, Outcome, Rendered, SessionParts, Snapshots};

verus! {

#[derive(Debug, Clone, Copy, PartialEq, Eq, Structural)]
pub enum RegionKind {
    Value,
    Entry,
    Document,
}

/// The bytes a change covers in one snapshot.
#[derive(Debug, Clone)]
pub struct Region {
    pub span: Span,
    pub kind: RegionKind,
    pub indent: usize,
    pub key: Option<String>,
}

#[derive(Debug, Clone)]
pub struct StoredChange {
    pub base: Option<Region>,
    pub target: Option<Region>,
    pub source: Option<Region>,
    pub insertion: Option<(usize, usize)>,
}

pub ghost struct RegionView {
    pub span: Span,
    pub kind: RegionKind,
    pub indent: usize,
    pub key: Option<Seq<char>>,
}

pub ghost struct StoredView {
    pub base: Option<RegionView>,
    pub target: Option<RegionView>,
    pub source: Option<RegionView>,
    pub insertion: Option<(usize, usize)>,
}

impl Region {
    pub open spec fn view(self) -> RegionView {
        RegionView { span: self.span, kind: self.kind, indent: self.indent, key: crate::syntax::text_view(self.key) }
    }
}

pub open spec fn region_opt(r: Option<Region>) -> Option<RegionView> {
    match r {
        Some(x) => Some(x.view()),
        None => None,
    }
}

impl StoredChange {
    pub open spec fn view(self) -> StoredView {
        StoredView {
            base: region_opt(self.base),
            target: region_opt(self.target),
            source: region_opt(self.source),
            insertion: self.insertion,
        }
    }
}

/// A node of one snapshot, with the mapping entry that holds it and the
/// node that contains it.
pub ghost struct PointView {
    pub node: Node,
    pub entry: Option<Entry>,
    pub parent: Option<Node>,
}

#[derive(Clone, Copy)]
pub struct Point<'a> {
    pub node: &'a Node,
    pub entry: Option<&'a Entry>,
    pub parent: Option<&'a Node>,
}

impl<'a> Point<'a> {
    pub open spec fn view(self) -> PointView {
        PointView {
            node: *self.node,
            entry: match self.entry {
                Some(e) => Some(*e),
                None => None,
            },
            parent: match self.parent {
                Some(p) => Some(*p),
                None => None,
            },
        }
    }
}

pub open spec fn point_opt(p: Option<Point>) -> Option<PointView> {
    match p {
        Some(x) => Some(x.view()),
        None => None,
    }
}

/// The region of a point: the whole entry for an entry of a block mapping,
/// else the value; indented as its parent.
pub open spec fn region_of(p: PointView) -> RegionView {
    let whole_entry = p.entry is Some && (p.parent matches Some(par) && !par.flow);
    RegionView {
        span: if whole_entry { p.entry.unwrap().span } else { p.node.span },
        kind: if whole_entry { RegionKind::Entry } else { RegionKind::Value },
        indent: match p.parent {
            Some(par) => par.indent,
            None => p.node.indent,
        },
        key: match p.entry {
            Some(e) => Some(e.key@),
            None => None,
        },
    }
}

/// Two optional points hold equal values (both missing, or equal
/// fingerprints).
pub open spec fn point_eq(a: Option<PointView>, b: Option<PointView>) -> bool {
    match (a, b) {
        (None, None) => true,
        (Some(x), Some(y)) => x.node.fingerprint@ == y.node.fingerprint@,
        _ => false,
    }
}

pub open spec fn point_node(p: Option<PointView>) -> Option<Node> {
    match p {
        Some(x) => Some(x.node),
        None => None,
    }
}

pub open spec fn point_summary(bytes: Seq<u8>, p: Option<PointView>) -> Option<SummaryView> {
    match p {
        Some(x) => Some(summary_of(bytes, x.node)),
        None => None,
    }
}

pub open spec fn point_region(p: Option<PointView>) -> Option<RegionView> {
    match p {
        Some(x) => Some(region_of(x)),
        None => None,
    }
}

pub open spec fn managed_type_reason() -> Seq<char> {
    "managed-reference type identity changed; type and data require a joint explicit choice"@
}

pub open spec fn pointer_reason() -> Seq<char> {
    "PPtr GUID/fileID/type form one reference identity"@
}

pub open spec fn mapping_reason() -> Seq<char> {
    "mapping representation or flow key set changed; choose the complete mapping"@
}

pub open spec fn collision_reason() -> Seq<char> {
    "both snapshots independently introduced the same managed-reference rid; explicitly choose or remap the complete identity closure"@
}

pub open spec fn order_reason() -> Seq<char> {
    "identity sequence membership/order changed; explicit whole-sequence resolution preserves order and graph closure"@
}

pub open spec fn positional_reason() -> Seq<char> {
    "sequence has no proven unique Unity identity; positional pairing would be ambiguous"@
}

pub open spec fn object_reason() -> Seq<char> {
    "object addition/deletion, class identity, or stripped state requires an object-level decision"@
}

/// One atomic change at `path`.
pub open spec fn leaf(
    bb: Seq<u8>,
    tb: Seq<u8>,
    sb: Seq<u8>,
    oid: Seq<char>,
    path: Seq<char>,
    b: Option<PointView>,
    t: Option<PointView>,
    s: Option<PointView>,
    ins: Option<(usize, usize)>,
    reason: Option<Seq<char>>,
    collision: bool,
) -> (ChangeView, StoredView) {
    let status = if collision {
        ChangeStatus::Conflict
    } else if point_eq(t, s) {
        ChangeStatus::AlreadyApplied
    } else if point_eq(t, b) {
        ChangeStatus::Clean
    } else {
        ChangeStatus::Conflict
    };
    let kind = match b {
        None => ChangeKind::AddField,
        Some(_) => match s {
            None => ChangeKind::RemoveField,
            Some(sp) => if sp.node.kind is Sequence { ChangeKind::ReplaceSequence } else { ChangeKind::ModifyField },
        },
    };
    (
        ChangeView {
            id: change_id_spec(oid, path, point_node(b), point_node(s)),
            object_id: oid,
            property_path: path,
            kind,
            status,
            reason,
            base: point_summary(bb, b),
            target: point_summary(tb, t),
            source: point_summary(sb, s),
        },
        StoredView { base: point_region(b), target: point_region(t), source: point_region(s), insertion: ins },
    )
}

/// The `type` fields of three managed entries agree (or one is missing).
pub open spec fn same_type(b: Node, t: Node, s: Node) -> bool {
    match (b.spec_get("type"@), s.spec_get("type"@), t.spec_get("type"@)) {
        (Some(x), Some(y), Some(z)) => x.fingerprint@ == y.fingerprint@ && x.fingerprint@ == z.fingerprint@,
        _ => true,
    }
}

pub open spec fn has_key(es: Seq<Entry>, key: Seq<char>) -> bool {
    exists|j: int| 0 <= j < es.len() && (#[trigger] es[j]).key@ == key
}

/// Two mappings have the same number of entries and every key of the first
/// occurs in the second.
pub open spec fn same_keys(x: Seq<Entry>, y: Seq<Entry>) -> bool {
    x.len() == y.len() && forall|i: int| 0 <= i < x.len() ==> has_key(y, (#[trigger] x[i]).key@)
}

/// Three mappings are compared key by key: they share one style and, when
/// that style is flow, one key set.
pub open spec fn mapping_splits(b: Node, t: Node, s: Node) -> bool {
    match (b.kind, t.kind, s.kind) {
        (NodeKind::Mapping(bm), NodeKind::Mapping(tm), NodeKind::Mapping(sm)) => b.flow == t.flow && b.flow == s.flow && (!b.flow || (
        same_keys(bm@, sm@) && same_keys(bm@, tm@))),
        _ => false,
    }
}

/// The last entry with this key.
pub open spec fn last_key(es: Seq<Entry>, key: Seq<char>) -> Option<int>
    decreases es.len(),
{
    if es.len() == 0 {
        None
    } else if es.last().key@ == key {
        Some(es.len() - 1)
    } else {
        last_key(es.drop_last(), key)
    }
}

pub proof fn lemma_last_key(es: Seq<Entry>, key: Seq<char>)
    ensures
        last_key(es, key) matches Some(i) ==> 0 <= i < es.len() && es[i].key@ == key,
        last_key(es, key) is None ==> !has_key(es, key),
    decreases es.len(),
{
    if es.len() > 0 {
        lemma_last_key(es.drop_last(), key);
        if es.last().key@ != key && has_key(es, key) {
            let j = choose|j: int| 0 <= j < es.len() && (#[trigger] es[j]).key@ == key;
            assert(es.drop_last()[j] == es[j]);
        }
    }
}

/// The point of the entry with this key, in a mapping.
pub open spec fn entry_point(es: Seq<Entry>, key: Seq<char>, parent: Node) -> Option<PointView> {
    match last_key(es, key) {
        Some(i) => Some(PointView { node: es[i].value, entry: Some(es[i]), parent: Some(parent) }),
        None => None,
    }
}

/// Source introduced a rid that target introduced independently.
pub open spec fn rid_collision(bk: Seq<Seq<char>>, tk: Seq<Seq<char>>, sk: Seq<Seq<char>>) -> bool {
    exists|i: int| 0 <= i < sk.len() && !bk.contains(#[trigger] sk[i]) && tk.contains(sk[i])
}

/// The changes below a point that exists in base.
pub open spec fn base_changes(
    bb: Seq<u8>,
    tb: Seq<u8>,
    sb: Seq<u8>,
    oid: Seq<char>,
    path: Seq<char>,
    bp: PointView,
    t: Option<PointView>,
    s: Option<PointView>,
    ins: Option<(usize, usize)>,
) -> Seq<(ChangeView, StoredView)>
    decreases bp.node, 2nat, 0nat,
{
    let b = Some(bp);
    if point_eq(b, s) {
        Seq::empty()
    } else {
        match (t, s) {
            (Some(tp), Some(sp)) => {
                if contains_seq(path, "/RefIds/@rid="@) && !same_type(bp.node, tp.node, sp.node) {
                    seq![leaf(bb, tb, sb, oid, path, b, t, s, ins, Some(managed_type_reason()), false)]
                } else if is_pptr(bp.node) || is_pptr(sp.node) || is_pptr(tp.node) {
                    seq![leaf(bb, tb, sb, oid, path, b, t, s, ins, Some(pointer_reason()), false)]
                } else {
                    match (bp.node.kind, tp.node.kind, sp.node.kind) {
                        (NodeKind::Mapping(bm), NodeKind::Mapping(tm), NodeKind::Mapping(sm)) => if mapping_splits(bp.node, tp.node, sp.node) {
                            key_changes(bb, tb, sb, oid, path, bp, tp, sp, bm@.len() + sm@.len())
                        } else {
                            seq![leaf(bb, tb, sb, oid, path, b, t, s, ins, Some(mapping_reason()), false)]
                        },
                        (NodeKind::Sequence(_), NodeKind::Sequence(_), NodeKind::Sequence(_)) => match (
                            sequence_keys_spec(bb, bp.node, path),
                            sequence_keys_spec(tb, tp.node, path),
                            sequence_keys_spec(sb, sp.node, path),
                        ) {
                            (Some(bk), Some(tk), Some(sk)) => {
                                let collision = ends_with(path, "/references/RefIds"@) && rid_collision(bk, tk, sk);
                                if bk == tk && bk == sk {
                                    item_changes(bb, tb, sb, oid, path, bp, tp, sp, bk, bk.len())
                                } else {
                                    seq![leaf(bb, tb, sb, oid, path, b, t, s, ins, Some(if collision { collision_reason() } else { order_reason() }), collision)]
                                }
                            },
                            _ => seq![leaf(bb, tb, sb, oid, path, b, t, s, ins, Some(positional_reason()), false)],
                        },
                        _ => seq![leaf(bb, tb, sb, oid, path, b, t, s, ins, None, false)],
                    }
                }
            },
            _ => seq![leaf(bb, tb, sb, oid, path, b, t, s, ins, None, false)],
        }
    }
}

/// The changes of the first `j` keys of base's entries followed by source's,
/// each key taken at its first occurrence.
pub open spec fn key_changes(
    bb: Seq<u8>,
    tb: Seq<u8>,
    sb: Seq<u8>,
    oid: Seq<char>,
    path: Seq<char>,
    bp: PointView,
    tp: PointView,
    sp: PointView,
    j: nat,
) -> Seq<(ChangeView, StoredView)>
    decreases bp.node, 1nat, j,
{
    if j == 0 {
        Seq::empty()
    } else {
        let prior = key_changes(bb, tb, sb, oid, path, bp, tp, sp, (j - 1) as nat);
        match (bp.node.kind, tp.node.kind, sp.node.kind) {
            (NodeKind::Mapping(bm), NodeKind::Mapping(tm), NodeKind::Mapping(sm)) => {
                let all = bm@ + sm@;
                if j > all.len() {
                    prior
                } else {
                    let key = all[j - 1].key@;
                    if exists|i: int| 0 <= i < j - 1 && (#[trigger] all[i]).key@ == key {
                        prior
                    } else {
                        let cpath = child_spec(path, key);
                        let ins = Some((tp.node.span.end, tp.node.indent));
                        let tc = entry_point(tm@, key, tp.node);
                        let sc = entry_point(sm@, key, sp.node);
                        match last_key(bm@, key) {
                            Some(i) => {
                                proof { lemma_last_key(bm@, key); }
                                prior + base_changes(
                                    bb,
                                    tb,
                                    sb,
                                    oid,
                                    cpath,
                                    PointView { node: bm@[i].value, entry: Some(bm@[i]), parent: Some(bp.node) },
                                    tc,
                                    sc,
                                    ins,
                                )
                            },
                            None => if point_eq(None, sc) {
                                prior
                            } else {
                                prior + seq![leaf(bb, tb, sb, oid, cpath, None, tc, sc, ins, None, false)]
                            },
                        }
                    }
                }
            },
            _ => prior,
        }
    }
}

/// The changes of the first `j` items of three identity sequences with the
/// same keys, paired by position.
pub open spec fn item_changes(
    bb: Seq<u8>,
    tb: Seq<u8>,
    sb: Seq<u8>,
    oid: Seq<char>,
    path: Seq<char>,
    bp: PointView,
    tp: PointView,
    sp: PointView,
    keys: Seq<Seq<char>>,
    j: nat,
) -> Seq<(ChangeView, StoredView)>
    decreases bp.node, 1nat, j,
{
    if j == 0 {
        Seq::empty()
    } else {
        let prior = item_changes(bb, tb, sb, oid, path, bp, tp, sp, keys, (j - 1) as nat);
        match (bp.node.kind, tp.node.kind, sp.node.kind) {
            (NodeKind::Sequence(bi), NodeKind::Sequence(ti), NodeKind::Sequence(si)) => {
                if j > bi@.len() || j > ti@.len() || j > si@.len() || j > keys.len() {
                    prior
                } else {
                    let i = j - 1;
                    prior + base_changes(
                        bb,
                        tb,
                        sb,
                        oid,
                        child_spec(path, keys[i]),
                        PointView { node: bi@[i].value, entry: None, parent: Some(bp.node) },
                        Some(PointView { node: ti@[i].value, entry: None, parent: Some(tp.node) }),
                        Some(PointView { node: si@[i].value, entry: None, parent: Some(sp.node) }),
                        None,
                    )
                }
            },
            _ => prior,
        }
    }
}

// ---------------------------------------------------------------------------
// Executable change detection.

pub open spec fn pairs_view(s: Seq<(Change, StoredChange)>) -> Seq<(ChangeView, StoredView)> {
    s.map_values(|p: (Change, StoredChange)| (p.0.view(), p.1.view()))
}

proof fn lemma_pairs_push(s: Seq<(Change, StoredChange)>, p: (Change, StoredChange))
    ensures
        pairs_view(s.push(p)) == pairs_view(s).push((p.0.view(), p.1.view())),
{
    assert(pairs_view(s.push(p)) =~= pairs_view(s).push((p.0.view(), p.1.view())));
}

fn same_fingerprint(x: &[u8; 32], y: &[u8; 32]) -> (res: bool)
    ensures
        res == (x@ == y@),
{
    let mut k: usize = 0;
    while k < 32
        invariant
            k <= 32,
            x@.len() == 32,
            y@.len() == 32,
            forall|j: int| 0 <= j < k ==> x@[j] == y@[j],
        decreases 32 - k,
    {
        if x[k] != y[k] {
            return false;
        }
        k = k + 1;
    }
    assert(x@ =~= y@);
    true
}

fn points_equal(a: Option<Point>, b: Option<Point>) -> (res: bool)
    ensures
        res == point_eq(point_opt(a), point_opt(b)),
{
    match (a, b) {
        (None, None) => true,
        (Some(x), Some(y)) => same_fingerprint(&x.node.fingerprint, &y.node.fingerprint),
        _ => false,
    }
}

pub(crate) fn region(p: Point) -> (res: Region)
    ensures
        res.view() == region_of(p.view()),
{
    let whole_entry = p.entry.is_some() && match p.parent {
        Some(par) => !par.flow,
        None => false,
    };
    let span = if whole_entry {
        match p.entry {
            Some(e) => e.span,
            None => p.node.span,
        }
    } else {
        p.node.span
    };
    Region {
        span,
        kind: if whole_entry { RegionKind::Entry } else { RegionKind::Value },
        indent: match p.parent {
            Some(par) => par.indent,
            None => p.node.indent,
        },
        key: match p.entry {
            Some(e) => Some(e.key.clone()),
            None => None,
        },
    }
}

pub open spec fn point_wf(p: Option<Point>, bytes: Seq<u8>) -> bool {
    p matches Some(x) ==> node_wf(*x.node, bytes) && (x.entry matches Some(e) ==> e.span.within(bytes.len() as int))
}

/// A region, if any, lies within a text of this length.
pub open spec fn region_in(r: Option<RegionView>, len: int) -> bool {
    r matches Some(x) ==> x.span.within(len)
}

/// Each region of a change lies in its snapshot, and the insertion point in
/// the target.
pub open spec fn stored_in(v: StoredView, bl: int, tl: int, sl: int) -> bool {
    &&& region_in(v.base, bl)
    &&& region_in(v.target, tl)
    &&& region_in(v.source, sl)
    &&& v.insertion matches Some(p) ==> p.0 <= tl
}

pub open spec fn pairs_in(ps: Seq<(ChangeView, StoredView)>, bl: int, tl: int, sl: int) -> bool {
    forall|i: int| 0 <= i < ps.len() ==> stored_in(#[trigger] ps[i].1, bl, tl, sl)
}

proof fn lemma_pairs_in_push(ps: Seq<(ChangeView, StoredView)>, p: (ChangeView, StoredView), bl: int, tl: int, sl: int)
    requires
        pairs_in(ps, bl, tl, sl),
        stored_in(p.1, bl, tl, sl),
    ensures
        pairs_in(ps.push(p), bl, tl, sl),
{
    assert forall|i: int| 0 <= i < ps.push(p).len() implies stored_in(#[trigger] ps.push(p)[i].1, bl, tl, sl) by {
        if i < ps.len() {
            assert(ps.push(p)[i] == ps[i]);
        }
    }
}

fn point_summary_of(asset: &Asset, p: Option<Point>) -> (res: Option<ValueSummary>)
    requires
        point_wf(p, asset.bytes@),
    ensures
        crate::changes::summary_view(res) == point_summary(asset.bytes@, point_opt(p)),
{
    match p {
        Some(x) => Some(summary(asset, x.node)),
        None => None,
    }
}

fn point_region_of(p: Option<Point>) -> (res: Option<Region>)
    ensures
        region_opt(res) == point_region(point_opt(p)),
{
    match p {
        Some(x) => Some(region(x)),
        None => None,
    }
}

fn push_leaf(
    base: &Asset,
    target: &Asset,
    source: &Asset,
    oid: &str,
    path: &str,
    b: Option<Point>,
    t: Option<Point>,
    s: Option<Point>,
    ins: Option<(usize, usize)>,
    reason: Option<&str>,
    collision: bool,
    out: &mut Vec<(Change, StoredChange)>,
)
    requires
        point_wf(b, base.bytes@),
        point_wf(t, target.bytes@),
        point_wf(s, source.bytes@),
        ins matches Some(p) ==> p.0 <= target.bytes@.len(),
        pairs_in(pairs_view(old(out)@), base.bytes@.len() as int, target.bytes@.len() as int, source.bytes@.len() as int),
    ensures
        pairs_in(pairs_view(final(out)@), base.bytes@.len() as int, target.bytes@.len() as int, source.bytes@.len() as int),
        pairs_view(final(out)@) == pairs_view(old(out)@).push(leaf(
            base.bytes@,
            target.bytes@,
            source.bytes@,
            oid@,
            path@,
            point_opt(b),
            point_opt(t),
            point_opt(s),
            ins,
            match reason { Some(r) => Some(r@), None => None },
            collision,
        )),
{
    let status = if collision {
        ChangeStatus::Conflict
    } else if points_equal(t, s) {
        ChangeStatus::AlreadyApplied
    } else if points_equal(t, b) {
        ChangeStatus::Clean
    } else {
        ChangeStatus::Conflict
    };
    let kind = match b {
        None => ChangeKind::AddField,
        Some(_) => match s {
            None => ChangeKind::RemoveField,
            Some(sp) => match sp.node.kind {
                NodeKind::Sequence(_) => ChangeKind::ReplaceSequence,
                _ => ChangeKind::ModifyField,
            },
        },
    };
    let id = change_id(
        oid,
        path,
        match b {
            Some(x) => Some(x.node),
            None => None,
        },
        match s {
            Some(x) => Some(x.node),
            None => None,
        },
    );
    let change = Change {
        id,
        object_id: oid.to_owned(),
        property_path: path.to_owned(),
        kind,
        status,
        reason: match reason {
            Some(r) => Some(r.to_owned()),
            None => None,
        },
        base: point_summary_of(base, b),
        target: point_summary_of(target, t),
        source: point_summary_of(source, s),
    };
    let stored = StoredChange {
        base: point_region_of(b),
        target: point_region_of(t),
        source: point_region_of(s),
        insertion: ins,
    };
    proof {
        lemma_pairs_push(out@, (change, stored));
        lemma_pairs_in_push(pairs_view(out@), (change.view(), stored.view()), base.bytes@.len() as int, target.bytes@.len() as int, source.bytes@.len() as int);
    }
    out.push((change, stored));
}

fn contains_text(s: &str, part: &str) -> (res: bool)
    ensures
        res == contains_seq(s@, part@),
{
    let a = chars_of(s);
    let p = chars_of(part);
    if p.len() > a.len() {
        assert forall|i: int| !occurs_at(s@, part@, i) by {}
        return false;
    }
    let mut i: usize = 0;
    while i <= a.len() - p.len()
        invariant
            p@.len() <= a@.len(),
            a@ == s@,
            p@ == part@,
            a@.len() == a.len(),
            i <= a@.len() - p@.len() + 1,
            forall|q: int| 0 <= q < i ==> !occurs_at(s@, part@, q),
        decreases a@.len() - p@.len() + 1 - i,
    {
        let mut k: usize = 0;
        while k < p.len() && a[i + k] == p[k]
            invariant
                k <= p@.len(),
                i + p@.len() <= a@.len(),
                a@.len() == a.len(),
                forall|j: int| 0 <= j < k ==> a@[i + j] == p@[j],
            decreases p@.len() - k,
        {
            k = k + 1;
        }
        if k == p.len() {
            assert(a@.subrange(i as int, i + p@.len()) =~= p@);
            assert(occurs_at(s@, part@, i as int));
            return true;
        }
        assert(a@.subrange(i as int, i + p@.len())[k as int] != p@[k as int]);
        i = i + 1;
    }
    assert forall|q: int| !occurs_at(s@, part@, q) by {
        if 0 <= q && q + part@.len() <= s@.len() {
            assert(q < i);
        }
    }
    false
}

fn same_type_of(b: &Node, t: &Node, s: &Node) -> (res: bool)
    ensures
        res == same_type(*b, *t, *s),
{
    match (b.get("type"), s.get("type"), t.get("type")) {
        (Some(x), Some(y), Some(z)) => same_fingerprint(&x.fingerprint, &y.fingerprint) && same_fingerprint(&x.fingerprint, &z.fingerprint),
        _ => true,
    }
}

fn key_in(es: &[Entry], key: &str) -> (res: bool)
    ensures
        res == has_key(es@, key@),
{
    let mut j: usize = 0;
    while j < es.len()
        invariant
            j <= es@.len(),
            forall|i: int| 0 <= i < j ==> es@[i].key@ != key@,
        decreases es@.len() - j,
    {
        if text_eq(es[j].key.as_str(), key) {
            return true;
        }
        j = j + 1;
    }
    false
}

fn same_key_sets(x: &[Entry], y: &[Entry]) -> (res: bool)
    ensures
        res == same_keys(x@, y@),
{
    if x.len() != y.len() {
        return false;
    }
    let mut i: usize = 0;
    while i < x.len()
        invariant
            i <= x@.len(),
            x@.len() == y@.len(),
            forall|q: int| 0 <= q < i ==> has_key(y@, (#[trigger] x@[q]).key@),
        decreases x@.len() - i,
    {
        if !key_in(y, x[i].key.as_str()) {
            return false;
        }
        i = i + 1;
    }
    true
}

fn splits(b: &Node, t: &Node, s: &Node) -> (res: bool)
    ensures
        res == mapping_splits(*b, *t, *s),
{
    match (&b.kind, &t.kind, &s.kind) {
        (NodeKind::Mapping(bm), NodeKind::Mapping(tm), NodeKind::Mapping(sm)) => {
            b.flow == t.flow && b.flow == s.flow && (!b.flow || (same_key_sets(bm.as_slice(), sm.as_slice()) && same_key_sets(bm.as_slice(), tm.as_slice())))
        },
        _ => false,
    }
}

fn contains_key_text(keys: &Vec<String>, k: &str) -> (res: bool)
    ensures
        res == texts_view(keys@).contains(k@),
{
    let mut j: usize = 0;
    while j < keys.len()
        invariant
            j <= keys@.len(),
            forall|i: int| 0 <= i < j ==> keys@[i]@ != k@,
        decreases keys@.len() - j,
    {
        if text_eq(keys[j].as_str(), k) {
            assert(texts_view(keys@)[j as int] == k@);
            return true;
        }
        j = j + 1;
    }
    assert forall|i: int| 0 <= i < texts_view(keys@).len() implies texts_view(keys@)[i] != k@ by {
        assert(texts_view(keys@)[i] == keys@[i]@);
    }
    false
}

fn collides(bk: &Vec<String>, tk: &Vec<String>, sk: &Vec<String>) -> (res: bool)
    ensures
        res == rid_collision(texts_view(bk@), texts_view(tk@), texts_view(sk@)),
{
    let ghost skv = texts_view(sk@);
    let mut i: usize = 0;
    while i < sk.len()
        invariant
            i <= sk@.len(),
            skv == texts_view(sk@),
            forall|q: int| 0 <= q < i ==> !(!texts_view(bk@).contains(#[trigger] skv[q]) && texts_view(tk@).contains(skv[q])),
        decreases sk@.len() - i,
    {
        assert(skv[i as int] == sk@[i as int]@);
        if !contains_key_text(bk, sk[i].as_str()) && contains_key_text(tk, sk[i].as_str()) {
            return true;
        }
        i = i + 1;
    }
    false
}

fn same_texts(a: &Vec<String>, b: &Vec<String>) -> (res: bool)
    ensures
        res == (texts_view(a@) == texts_view(b@)),
{
    if a.len() != b.len() {
        assert(texts_view(a@).len() != texts_view(b@).len());
        return false;
    }
    let mut k: usize = 0;
    while k < a.len()
        invariant
            k <= a@.len(),
            a@.len() == b@.len(),
            forall|j: int| 0 <= j < k ==> a@[j]@ == b@[j]@,
        decreases a@.len() - k,
    {
        if !text_eq(a[k].as_str(), b[k].as_str()) {
            assert(texts_view(a@)[k as int] != texts_view(b@)[k as int]);
            return false;
        }
        k = k + 1;
    }
    assert(texts_view(a@) =~= texts_view(b@));
    true
}

/// The point of the last entry with this key.
fn entry_at<'a>(es: &'a [Entry], key: &str, parent: &'a Node) -> (res: Option<Point<'a>>)
    ensures
        point_opt(res) == entry_point(es@, key@, *parent),
        res matches Some(p) ==> exists|i: int| 0 <= i < es@.len() && *p.node == (#[trigger] es@[i]).value && p.entry == Some(&es@[i]),
{
    proof { lemma_last_key(es@, key@); }
    let mut k = es.len();
    assert(es@.take(k as int) == es@);
    while k > 0
        invariant
            k <= es@.len(),
            last_key(es@, key@) == last_key(es@.take(k as int), key@),
        decreases k,
    {
        assert(es@.take(k as int).drop_last() == es@.take(k - 1));
        if text_eq(es[k - 1].key.as_str(), key) {
            return Some(Point { node: &es[k - 1].value, entry: Some(&es[k - 1]), parent: Some(parent) });
        }
        k = k - 1;
    }
    None
}

proof fn lemma_entry_wf(n: Node, bytes: Seq<u8>, es: Seq<Entry>, p: Point)
    requires
        node_wf(n, bytes),
        n.spec_entries() == Some(es),
        exists|i: int| 0 <= i < es.len() && *p.node == (#[trigger] es[i]).value && p.entry == Some(&es[i]),
    ensures
        point_wf(Some(p), bytes),
{
    let i = choose|i: int| 0 <= i < es.len() && *p.node == (#[trigger] es[i]).value && p.entry == Some(&es[i]);
    match n.kind {
        NodeKind::Mapping(entries) => {
            assert(node_wf(entries@[i].value, bytes));
            assert(entries@[i].span.within(bytes.len() as int));
        },
        _ => {},
    }
}

/// One key of a three-way mapping comparison: unless an earlier entry had
/// it, compares the key's entries in the three snapshots.
fn key_step(
    base: &Asset,
    target: &Asset,
    source: &Asset,
    oid: &str,
    path: &str,
    bp: Point,
    tp: Point,
    sp: Point,
    key: &str,
    seen: &mut Vec<String>,
    out: &mut Vec<(Change, StoredChange)>,
)
    requires
        node_wf(*bp.node, base.bytes@),
        node_wf(*tp.node, target.bytes@),
        node_wf(*sp.node, source.bytes@),
        bp.node.kind is Mapping,
        tp.node.kind is Mapping,
        sp.node.kind is Mapping,
        pairs_in(pairs_view(old(out)@), base.bytes@.len() as int, target.bytes@.len() as int, source.bytes@.len() as int),
    ensures
        pairs_in(pairs_view(final(out)@), base.bytes@.len() as int, target.bytes@.len() as int, source.bytes@.len() as int),
        texts_view(final(seen)@) == if texts_view(old(seen)@).contains(key@) { texts_view(old(seen)@) } else { texts_view(old(seen)@).push(key@) },
        pairs_view(final(out)@) == pairs_view(old(out)@) + if texts_view(old(seen)@).contains(key@) {
            Seq::empty()
        } else {
            key_entry_changes(base.bytes@, target.bytes@, source.bytes@, oid@, path@, bp.view(), tp.view(), sp.view(), key@)
        },
    decreases bp.node, 0nat,
{
    if contains_key_text(seen, key) {
        assert(pairs_view(out@) =~= pairs_view(out@) + Seq::<(ChangeView, StoredView)>::empty());
        return;
    }
    let ghost before_seen = texts_view(seen@);
    seen.push(key.to_owned());
    assert(texts_view(seen@) =~= before_seen.push(key@));
    match (&bp.node.kind, &tp.node.kind, &sp.node.kind) {
        (NodeKind::Mapping(bm), NodeKind::Mapping(tm), NodeKind::Mapping(sm)) => {
            let cpath = path_child(path, key);
            let ins = Some((tp.node.span.end, tp.node.indent));
            let tc = entry_at(tm.as_slice(), key, tp.node);
            let sc = entry_at(sm.as_slice(), key, sp.node);
            proof {
                if tc is Some {
                    lemma_entry_wf(*tp.node, target.bytes@, tm@, tc.unwrap());
                }
                if sc is Some {
                    lemma_entry_wf(*sp.node, source.bytes@, sm@, sc.unwrap());
                }
            }
            match entry_at(bm.as_slice(), key, bp.node) {
                Some(bc) => {
                    proof { lemma_entry_wf(*bp.node, base.bytes@, bm@, bc); }
                    changes_below(base, target, source, oid, cpath.as_str(), bc, tc, sc, ins, out);
                },
                None => {
                    if !points_equal(None, sc) {
                        push_leaf(base, target, source, oid, cpath.as_str(), None, tc, sc, ins, None, false, out);
                    } else {
                        assert(pairs_view(out@) =~= pairs_view(out@) + Seq::<(ChangeView, StoredView)>::empty());
                    }
                },
            }
        },
        _ => {},
    }
}

/// The changes of one key of three mappings.
pub open spec fn key_entry_changes(
    bb: Seq<u8>,
    tb: Seq<u8>,
    sb: Seq<u8>,
    oid: Seq<char>,
    path: Seq<char>,
    bp: PointView,
    tp: PointView,
    sp: PointView,
    key: Seq<char>,
) -> Seq<(ChangeView, StoredView)> {
    match (bp.node.kind, tp.node.kind, sp.node.kind) {
        (NodeKind::Mapping(bm), NodeKind::Mapping(tm), NodeKind::Mapping(sm)) => {
            let cpath = child_spec(path, key);
            let ins = Some((tp.node.span.end, tp.node.indent));
            let tc = entry_point(tm@, key, tp.node);
            let sc = entry_point(sm@, key, sp.node);
            match entry_point(bm@, key, bp.node) {
                Some(bc) => base_changes(bb, tb, sb, oid, cpath, bc, tc, sc, ins),
                None => if point_eq(None, sc) {
                    Seq::empty()
                } else {
                    seq![leaf(bb, tb, sb, oid, cpath, None, tc, sc, ins, None, false)]
                },
            }
        },
        _ => Seq::empty(),
    }
}

/// The changes below a point that exists in base.
fn changes_below(
    base: &Asset,
    target: &Asset,
    source: &Asset,
    oid: &str,
    path: &str,
    bp: Point,
    t: Option<Point>,
    s: Option<Point>,
    ins: Option<(usize, usize)>,
    out: &mut Vec<(Change, StoredChange)>,
)
    requires
        point_wf(Some(bp), base.bytes@),
        point_wf(t, target.bytes@),
        point_wf(s, source.bytes@),
        ins matches Some(p) ==> p.0 <= target.bytes@.len(),
        pairs_in(pairs_view(old(out)@), base.bytes@.len() as int, target.bytes@.len() as int, source.bytes@.len() as int),
    ensures
        pairs_in(pairs_view(final(out)@), base.bytes@.len() as int, target.bytes@.len() as int, source.bytes@.len() as int),
        pairs_view(final(out)@) == pairs_view(old(out)@) + base_changes(
            base.bytes@,
            target.bytes@,
            source.bytes@,
            oid@,
            path@,
            bp.view(),
            point_opt(t),
            point_opt(s),
            ins,
        ),
    decreases bp.node, 1nat,
{
    let ghost bb = base.bytes@;
    let ghost tb = target.bytes@;
    let ghost sb = source.bytes@;
    let ghost before = pairs_view(out@);
    let ghost spec = base_changes(bb, tb, sb, oid@, path@, bp.view(), point_opt(t), point_opt(s), ins);
    if points_equal(Some(bp), s) {
        assert(pairs_view(out@) =~= before + spec);
        return;
    }
    match (t, s) {
        (Some(tp), Some(sp)) => {
            if contains_text(path, "/RefIds/@rid=") && !same_type_of(bp.node, tp.node, sp.node) {
                push_leaf(base, target, source, oid, path, Some(bp), t, s, ins, Some("managed-reference type identity changed; type and data require a joint explicit choice"), false, out);
                return;
            }
            if pptr(bp.node) || pptr(sp.node) || pptr(tp.node) {
                push_leaf(base, target, source, oid, path, Some(bp), t, s, ins, Some("PPtr GUID/fileID/type form one reference identity"), false, out);
                return;
            }
            match (&bp.node.kind, &tp.node.kind, &sp.node.kind) {
                (NodeKind::Mapping(bm), NodeKind::Mapping(tm), NodeKind::Mapping(sm)) => {
                    if !splits(bp.node, tp.node, sp.node) {
                        push_leaf(base, target, source, oid, path, Some(bp), t, s, ins, Some("mapping representation or flow key set changed; choose the complete mapping"), false, out);
                        return;
                    }
                    let ghost all = bm@ + sm@;
                    let mut seen: Vec<String> = Vec::new();
                    let mut j: usize = 0;
                    while j < bm.len()
                        invariant
                            j <= bm@.len(),
                            bb == base.bytes@,
                            tb == target.bytes@,
                            sb == source.bytes@,
                            pairs_in(pairs_view(out@), bb.len() as int, tb.len() as int, sb.len() as int),
                            node_wf(*bp.node, bb),
                            node_wf(*tp.node, tb),
                            node_wf(*sp.node, sb),
                            bp.node.kind == NodeKind::Mapping(*bm),
                            tp.node.kind == NodeKind::Mapping(*tm),
                            sp.node.kind == NodeKind::Mapping(*sm),
                            all == bm@ + sm@,
                            forall|k: Seq<char>| texts_view(seen@).contains(k) <==> exists|i: int| 0 <= i < j && (#[trigger] all[i]).key@ == k,
                            pairs_view(out@) == before + key_changes(bb, tb, sb, oid@, path@, bp.view(), tp.view(), sp.view(), j as nat),
                        decreases bm@.len() - j,
                    {
                        let ghost seen_before = texts_view(seen@);
                        let ghost out_before = pairs_view(out@);
                        assert(all[j as int] == bm@[j as int]);
                        key_step(base, target, source, oid, path, bp, tp, sp, bm[j].key.as_str(), &mut seen, out);
                        proof {
                            let key = all[j as int].key@;
                            assert(seen_before.contains(key) <==> exists|i: int| 0 <= i < j && (#[trigger] all[i]).key@ == key);
                            assert forall|k: Seq<char>| texts_view(seen@).contains(k) <==> exists|i: int| 0 <= i < j + 1 && (#[trigger] all[i]).key@ == k by {
                                if !seen_before.contains(key) {
                                    assert(texts_view(seen@) == seen_before.push(key));
                                    if texts_view(seen@).contains(k) && k != key {
                                        let w = choose|w: int| 0 <= w < texts_view(seen@).len() && texts_view(seen@)[w] == k;
                                        assert(seen_before[w] == k);
                                    }
                                    if k == key {
                                        assert(texts_view(seen@)[seen_before.len() as int] == k);
                                    } else if seen_before.contains(k) {
                                        let w = choose|w: int| 0 <= w < seen_before.len() && seen_before[w] == k;
                                        assert(texts_view(seen@)[w] == k);
                                    }
                                }
                            }
                            assert(pairs_view(out@) =~= before + key_changes(bb, tb, sb, oid@, path@, bp.view(), tp.view(), sp.view(), (j + 1) as nat));
                        }
                        j = j + 1;
                    }
                    let mut j2: usize = 0;
                    while j2 < sm.len()
                        invariant
                            j2 <= sm@.len(),
                            bb == base.bytes@,
                            tb == target.bytes@,
                            sb == source.bytes@,
                            pairs_in(pairs_view(out@), bb.len() as int, tb.len() as int, sb.len() as int),
                            node_wf(*bp.node, bb),
                            node_wf(*tp.node, tb),
                            node_wf(*sp.node, sb),
                            bp.node.kind == NodeKind::Mapping(*bm),
                            tp.node.kind == NodeKind::Mapping(*tm),
                            sp.node.kind == NodeKind::Mapping(*sm),
                            all == bm@ + sm@,
                            forall|k: Seq<char>| texts_view(seen@).contains(k) <==> exists|i: int| 0 <= i < bm@.len() + j2 && (#[trigger] all[i]).key@ == k,
                            pairs_view(out@) == before + key_changes(bb, tb, sb, oid@, path@, bp.view(), tp.view(), sp.view(), (bm@.len() + j2) as nat),
                        decreases sm@.len() - j2,
                    {
                        let ghost seen_before = texts_view(seen@);
                        let ghost pos = bm@.len() + j2;
                        assert(all[pos] == sm@[j2 as int]);
                        key_step(base, target, source, oid, path, bp, tp, sp, sm[j2].key.as_str(), &mut seen, out);
                        proof {
                            let key = all[pos].key@;
                            assert forall|k: Seq<char>| texts_view(seen@).contains(k) <==> exists|i: int| 0 <= i < pos + 1 && (#[trigger] all[i]).key@ == k by {
                                if !seen_before.contains(key) {
                                    assert(texts_view(seen@) == seen_before.push(key));
                                    if texts_view(seen@).contains(k) && k != key {
                                        let w = choose|w: int| 0 <= w < texts_view(seen@).len() && texts_view(seen@)[w] == k;
                                        assert(seen_before[w] == k);
                                    }
                                    if k == key {
                                        assert(texts_view(seen@)[seen_before.len() as int] == k);
                                    } else if seen_before.contains(k) {
                                        let w = choose|w: int| 0 <= w < seen_before.len() && seen_before[w] == k;
                                        assert(texts_view(seen@)[w] == k);
                                    }
                                }
                            }
                            assert(pairs_view(out@) =~= before + key_changes(bb, tb, sb, oid@, path@, bp.view(), tp.view(), sp.view(), (pos + 1) as nat));
                        }
                        j2 = j2 + 1;
                    }
                    assert(pairs_view(out@) =~= before + spec);
                },
                (NodeKind::Sequence(bi), NodeKind::Sequence(ti), NodeKind::Sequence(si)) => {
                    let keys = (sequence_keys(base, bp.node, path), sequence_keys(target, tp.node, path), sequence_keys(source, sp.node, path));
                    match keys {
                        (Some(bk), Some(tk), Some(sk)) => {
                            let collision = ends_with_text_at(path) && collides(&bk, &tk, &sk);
                            if same_texts(&bk, &tk) && same_texts(&bk, &sk) {
                                let ghost kv = texts_view(bk@);
                                let mut i: usize = 0;
                                while i < bk.len()
                                    invariant
                                        i <= bk@.len(),
                                        bb == base.bytes@,
                                        tb == target.bytes@,
                                        sb == source.bytes@,
                                        pairs_in(pairs_view(out@), bb.len() as int, tb.len() as int, sb.len() as int),
                                        node_wf(*bp.node, bb),
                                        node_wf(*tp.node, tb),
                                        node_wf(*sp.node, sb),
                                        bp.node.kind == NodeKind::Sequence(*bi),
                                        tp.node.kind == NodeKind::Sequence(*ti),
                                        sp.node.kind == NodeKind::Sequence(*si),
                                        kv == texts_view(bk@),
                                        bi@.len() == bk@.len(),
                                        ti@.len() == bk@.len(),
                                        si@.len() == bk@.len(),
                                        pairs_view(out@) == before + item_changes(bb, tb, sb, oid@, path@, bp.view(), tp.view(), sp.view(), kv, i as nat),
                                    decreases bk@.len() - i,
                                {
                                    let cpath = path_child(path, bk[i].as_str());
                                    assert(kv[i as int] == bk@[i as int]@);
                                    proof {
                                        assert(crate::reading::child(*bp.node, i as int) == bi@[i as int].value);
                                        assert(crate::reading::child(*tp.node, i as int) == ti@[i as int].value);
                                        assert(crate::reading::child(*sp.node, i as int) == si@[i as int].value);
                                        lemma_child_wf(*bp.node, bb, i as int);
                                        lemma_child_wf(*tp.node, tb, i as int);
                                        lemma_child_wf(*sp.node, sb, i as int);
                                    }
                                    let bc = Point { node: &bi[i].value, entry: None, parent: Some(bp.node) };
                                    let tc = Point { node: &ti[i].value, entry: None, parent: Some(tp.node) };
                                    let sc = Point { node: &si[i].value, entry: None, parent: Some(sp.node) };
                                    changes_below(base, target, source, oid, cpath.as_str(), bc, Some(tc), Some(sc), None, out);
                                    i = i + 1;
                                }
                                assert(pairs_view(out@) =~= before + spec);
                            } else {
                                let reason = if collision {
                                    "both snapshots independently introduced the same managed-reference rid; explicitly choose or remap the complete identity closure"
                                } else {
                                    "identity sequence membership/order changed; explicit whole-sequence resolution preserves order and graph closure"
                                };
                                push_leaf(base, target, source, oid, path, Some(bp), t, s, ins, Some(reason), collision, out);
                            }
                        },
                        _ => {
                            push_leaf(base, target, source, oid, path, Some(bp), t, s, ins, Some("sequence has no proven unique Unity identity; positional pairing would be ambiguous"), false, out);
                        },
                    }
                },
                _ => {
                    push_leaf(base, target, source, oid, path, Some(bp), t, s, ins, None, false, out);
                },
            }
        },
        _ => {
            push_leaf(base, target, source, oid, path, Some(bp), t, s, ins, None, false, out);
        },
    }
}

fn ends_with_text_at(path: &str) -> (res: bool)
    ensures
        res == ends_with(path@, "/references/RefIds"@),
{
    crate::changes::ends_with_text(path, "/references/RefIds")
}

// ---------------------------------------------------------------------------
// Documents and sessions.

/// Two optional documents are equal: both missing, or the same class,
/// stripped state and root fingerprint.
pub open spec fn docs_eq(a: Option<Document>, b: Option<Document>) -> bool {
    match (a, b) {
        (None, None) => true,
        (Some(x), Some(y)) => crate::syntax::text_view(x.class_id) == crate::syntax::text_view(y.class_id)
            && x.stripped == y.stripped && x.root.fingerprint@ == y.root.fingerprint@,
        _ => false,
    }
}

/// The document an asset holds under a file ID (the last with it).
pub open spec fn doc_at(a: Asset, id: Seq<char>) -> Option<Document> {
    match last_document(a.documents@, id) {
        Some(k) => Some(a.documents@[k]),
        None => None,
    }
}

pub open spec fn root_point(d: Document) -> PointView {
    PointView { node: d.root, entry: None, parent: None }
}

pub open spec fn doc_region(d: Option<Document>) -> Option<RegionView> {
    match d {
        Some(x) => Some(RegionView { span: x.span, kind: RegionKind::Document, indent: 0, key: None }),
        None => None,
    }
}

pub open spec fn doc_root(d: Option<Document>) -> Option<Node> {
    match d {
        Some(x) => Some(x.root),
        None => None,
    }
}

pub open spec fn doc_summary(bytes: Seq<u8>, d: Option<Document>) -> Option<SummaryView> {
    match d {
        Some(x) => Some(summary_of(bytes, x.root)),
        None => None,
    }
}

/// An object-level change: an object added or removed, or its class or
/// stripped state changed.
pub open spec fn object_change(a: Asset, t: Asset, s: Asset, id: Seq<char>) -> (ChangeView, StoredView) {
    let bd = doc_at(a, id);
    let td = doc_at(t, id);
    let sd = doc_at(s, id);
    let kind = if bd is None {
        ChangeKind::AddObject
    } else if sd is None {
        ChangeKind::RemoveObject
    } else {
        ChangeKind::ModifyObject
    };
    let status = if bd is None && td is Some && sd is Some {
        ChangeStatus::Conflict
    } else if docs_eq(td, sd) {
        ChangeStatus::AlreadyApplied
    } else if docs_eq(td, bd) {
        ChangeStatus::Clean
    } else {
        ChangeStatus::Conflict
    };
    (
        ChangeView {
            id: change_id_spec(id, Seq::empty(), doc_root(bd), doc_root(sd)),
            object_id: id,
            property_path: Seq::empty(),
            kind,
            status,
            reason: Some(object_reason()),
            base: doc_summary(a.bytes@, bd),
            target: doc_summary(t.bytes@, td),
            source: doc_summary(s.bytes@, sd),
        },
        StoredView {
            base: doc_region(bd),
            target: doc_region(td),
            source: doc_region(sd),
            insertion: Some((t.bytes@.len() as usize, 0usize)),
        },
    )
}

/// The changes of one object.
pub open spec fn document_changes(a: Asset, t: Asset, s: Asset, id: Seq<char>) -> Seq<(ChangeView, StoredView)> {
    let bd = doc_at(a, id);
    let td = doc_at(t, id);
    let sd = doc_at(s, id);
    if docs_eq(bd, sd) {
        Seq::empty()
    } else {
        match (bd, td, sd) {
            (Some(b), Some(tt), Some(ss)) => if crate::syntax::text_view(b.class_id) == crate::syntax::text_view(ss.class_id)
                && crate::syntax::text_view(b.class_id) == crate::syntax::text_view(tt.class_id) && b.stripped == ss.stripped
                && b.stripped == tt.stripped {
                base_changes(a.bytes@, t.bytes@, s.bytes@, id, Seq::empty(), root_point(b), Some(root_point(tt)), Some(root_point(ss)), None)
            } else {
                seq![object_change(a, t, s, id)]
            },
            _ => seq![object_change(a, t, s, id)],
        }
    }
}

/// The object IDs of base's documents followed by source's.
pub open spec fn object_ids(a: Asset, s: Asset) -> Seq<Seq<char>> {
    (a.documents@ + s.documents@).map_values(|d: Document| d.object_id@)
}

/// The changes of the objects of the first `j` of those IDs, each ID taken
/// at its first occurrence.
pub open spec fn merge_changes(a: Asset, t: Asset, s: Asset, j: nat) -> Seq<(ChangeView, StoredView)>
    decreases j,
{
    let ids = object_ids(a, s);
    if j == 0 || j > ids.len() {
        Seq::empty()
    } else {
        let prior = merge_changes(a, t, s, (j - 1) as nat);
        if ids.take(j - 1).contains(ids[j - 1]) {
            prior
        } else {
            prior + document_changes(a, t, s, ids[j - 1])
        }
    }
}

fn same_class(a: &Option<String>, b: &Option<String>) -> (res: bool)
    ensures
        res == (crate::syntax::text_view(*a) == crate::syntax::text_view(*b)),
{
    match (a, b) {
        (None, None) => true,
        (Some(x), Some(y)) => text_eq(x.as_str(), y.as_str()),
        _ => false,
    }
}

fn docs_equal(a: Option<&Document>, b: Option<&Document>) -> (res: bool)
    ensures
        res == docs_eq(
            match a { Some(x) => Some(*x), None => None },
            match b { Some(x) => Some(*x), None => None },
        ),
{
    match (a, b) {
        (None, None) => true,
        (Some(x), Some(y)) => same_class(&x.class_id, &y.class_id) && x.stripped == y.stripped && same_fingerprint(&x.root.fingerprint, &y.root.fingerprint),
        _ => false,
    }
}

pub(crate) fn doc_in<'a>(asset: &'a Asset, id: &str) -> (res: Option<&'a Document>)
    requires
        documents_wf(*asset),
    ensures
        match res { Some(x) => Some(*x), None => None } == doc_at(*asset, id@),
        res matches Some(d) ==> document_wf(*d, asset.bytes@),
{
    proof { lemma_last_document(asset.documents@, id@); }
    let d = asset.document(id);
    proof {
        if d is Some {
            let k = last_document(asset.documents@, id@).unwrap();
            assert(document_wf(asset.documents@[k], asset.bytes@));
        }
    }
    d
}

fn doc_summary_of(asset: &Asset, d: Option<&Document>) -> (res: Option<ValueSummary>)
    requires
        d matches Some(x) ==> document_wf(*x, asset.bytes@),
    ensures
        crate::changes::summary_view(res) == doc_summary(asset.bytes@, match d { Some(x) => Some(*x), None => None }),
{
    match d {
        Some(x) => Some(summary(asset, &x.root)),
        None => None,
    }
}

fn doc_region_of(d: Option<&Document>) -> (res: Option<Region>)
    ensures
        region_opt(res) == doc_region(match d { Some(x) => Some(*x), None => None }),
{
    match d {
        Some(x) => Some(Region { span: x.span, kind: RegionKind::Document, indent: 0, key: None }),
        None => None,
    }
}

fn document_changes_of(base: &Asset, target: &Asset, source: &Asset, id: &str, out: &mut Vec<(Change, StoredChange)>)
    requires
        documents_wf(*base),
        documents_wf(*target),
        documents_wf(*source),
        pairs_in(pairs_view(old(out)@), base.bytes@.len() as int, target.bytes@.len() as int, source.bytes@.len() as int),
    ensures
        pairs_in(pairs_view(final(out)@), base.bytes@.len() as int, target.bytes@.len() as int, source.bytes@.len() as int),
        pairs_view(final(out)@) == pairs_view(old(out)@) + document_changes(*base, *target, *source, id@),
{
    let ghost before = pairs_view(out@);
    let b = doc_in(base, id);
    let t = doc_in(target, id);
    let s = doc_in(source, id);
    if docs_equal(b, s) {
        assert(pairs_view(out@) =~= before + document_changes(*base, *target, *source, id@));
        return;
    }
    match (b, t, s) {
        (Some(bd), Some(td), Some(sd)) => {
            if same_class(&bd.class_id, &sd.class_id) && same_class(&bd.class_id, &td.class_id) && bd.stripped == sd.stripped && bd.stripped == td.stripped {
                proof {
                    reveal_strlit("");
                    assert(""@ =~= Seq::<char>::empty());
                }
                let bp = Point { node: &bd.root, entry: None, parent: None };
                let tp = Point { node: &td.root, entry: None, parent: None };
                let sp = Point { node: &sd.root, entry: None, parent: None };
                changes_below(base, target, source, id, "", bp, Some(tp), Some(sp), None, out);
                return;
            }
        },
        _ => {},
    }
    let kind = if b.is_none() {
        ChangeKind::AddObject
    } else if s.is_none() {
        ChangeKind::RemoveObject
    } else {
        ChangeKind::ModifyObject
    };
    let status = if b.is_none() && t.is_some() && s.is_some() {
        ChangeStatus::Conflict
    } else if docs_equal(t, s) {
        ChangeStatus::AlreadyApplied
    } else if docs_equal(t, b) {
        ChangeStatus::Clean
    } else {
        ChangeStatus::Conflict
    };
    proof {
        reveal_strlit("");
        assert(""@ =~= Seq::<char>::empty());
    }
    let change_key = change_id(
        id,
        "",
        match b {
            Some(x) => Some(&x.root),
            None => None,
        },
        match s {
            Some(x) => Some(&x.root),
            None => None,
        },
    );
    let change = Change {
        id: change_key,
        object_id: id.to_owned(),
        property_path: String::new(),
        kind,
        status,
        reason: Some("object addition/deletion, class identity, or stripped state requires an object-level decision".to_owned()),
        base: doc_summary_of(base, b),
        target: doc_summary_of(target, t),
        source: doc_summary_of(source, s),
    };
    let stored = StoredChange {
        base: doc_region_of(b),
        target: doc_region_of(t),
        source: doc_region_of(s),
        insertion: Some((target.bytes.len(), 0)),
    };
    proof {
        lemma_pairs_push(out@, (change, stored));
        lemma_pairs_in_push(pairs_view(out@), (change.view(), stored.view()), base.bytes@.len() as int, target.bytes@.len() as int, source.bytes@.len() as int);
    }
    out.push((change, stored));
    assert(pairs_view(out@) =~= before + document_changes(*base, *target, *source, id@));
}

/// The changes of every object of base or source, in document order.
fn all_changes(base: &Asset, target: &Asset, source: &Asset) -> (res: Vec<(Change, StoredChange)>)
    requires
        documents_wf(*base),
        documents_wf(*target),
        documents_wf(*source),
    ensures
        pairs_view(res@) == merge_changes(*base, *target, *source, object_ids(*base, *source).len()),
        pairs_in(pairs_view(res@), base.bytes@.len() as int, target.bytes@.len() as int, source.bytes@.len() as int),
{
    let ghost ids = object_ids(*base, *source);
    let mut out: Vec<(Change, StoredChange)> = Vec::new();
    let mut seen: Vec<String> = Vec::new();
    let nb = base.documents.len();
    let ns = source.documents.len();
    let mut j: usize = 0;
    assert(pairs_view(out@) =~= Seq::<(ChangeView, StoredView)>::empty());
    while j < nb
        invariant
            j <= nb == base.documents@.len(),
            ns == source.documents@.len(),
            ids == object_ids(*base, *source),
            documents_wf(*base),
            documents_wf(*target),
            documents_wf(*source),
            texts_view(seen@) == ids.take(j as int),
            pairs_view(out@) == merge_changes(*base, *target, *source, j as nat),
            pairs_in(pairs_view(out@), base.bytes@.len() as int, target.bytes@.len() as int, source.bytes@.len() as int),
        decreases nb - j,
    {
        let id = base.documents[j].object_id.as_str();
        assert(ids[j as int] == id@);
        let ghost prior = pairs_view(out@);
        if !contains_key_text(&seen, id) {
            document_changes_of(base, target, source, id, &mut out);
        }
        let ghost sv = texts_view(seen@);
        seen.push(id.to_owned());
        assert(texts_view(seen@) =~= sv.push(id@));
        assert(ids.take(j + 1) =~= ids.take(j as int).push(ids[j as int]));
        j = j + 1;
    }
    let mut k: usize = 0;
    while k < ns
        invariant
            k <= ns == source.documents@.len(),
            nb == base.documents@.len(),
            ids == object_ids(*base, *source),
            ids.len() == nb + ns,
            documents_wf(*base),
            documents_wf(*target),
            documents_wf(*source),
            texts_view(seen@) == ids.take(nb + k),
            pairs_view(out@) == merge_changes(*base, *target, *source, (nb + k) as nat),
            pairs_in(pairs_view(out@), base.bytes@.len() as int, target.bytes@.len() as int, source.bytes@.len() as int),
        decreases ns - k,
    {
        let id = source.documents[k].object_id.as_str();
        assert(ids[nb + k] == id@);
        if !contains_key_text(&seen, id) {
            document_changes_of(base, target, source, id, &mut out);
        }
        let ghost sv = texts_view(seen@);
        seen.push(id.to_owned());
        assert(texts_view(seen@) =~= sv.push(id@));
        assert(ids.take(nb + k + 1) =~= ids.take(nb + k).push(ids[nb + k]));
        k = k + 1;
    }
    out
}

/// A rename proven by the caller's immutable C# schema snapshots. Only a
/// same-parent rename into an existing target field is accepted.
#[derive(Debug, Clone, PartialEq, Eq)]
pub struct FieldAlias {
    pub object_id: String,
    pub old_path: String,
    pub new_path: String,
}

#[derive(Debug, Clone)]
pub struct ChangeCatalog {
    pub parser_version: u32,
    pub base_hash: String,
    pub target_hash: String,
    pub source_hash: String,
    pub changes: Vec<Change>,
    pub diagnostics: Vec<Diagnostic>,
    pub aliases: Vec<FieldAlias>,
}

/// An immutable snapshot triple with its change catalog. Creating a plan
/// never edits its input.
#[derive(Debug)]
pub struct MergeSession {
    pub(crate) base: Arc<Asset>,
    pub(crate) target: Arc<Asset>,
    pub(crate) source: Arc<Asset>,
    pub(crate) catalog: ChangeCatalog,
    pub(crate) stored: Vec<StoredChange>,
    /// The base and source as given, when field aliases renamed their keys.
    pub(crate) original_base: Option<Arc<Asset>>,
    pub(crate) original_source: Option<Arc<Asset>>,
}

pub open spec fn decision_ids(ds: Seq<Decision>) -> Seq<String> {
    ds.map_values(|d: Decision| d.change_id)
}

/// The IDs of an object's changes, in order.
pub open spec fn object_change_ids(cs: Seq<ChangeView>, oid: Seq<char>) -> Seq<Seq<char>>
    decreases cs.len(),
{
    if cs.len() == 0 {
        Seq::empty()
    } else if cs.last().object_id == oid {
        object_change_ids(cs.drop_last(), oid).push(cs.last().id)
    } else {
        object_change_ids(cs.drop_last(), oid)
    }
}

pub open spec fn changes_view(s: Seq<Change>) -> Seq<ChangeView> {
    s.map_values(|c: Change| c.view())
}

pub open spec fn stored_view(s: Seq<StoredChange>) -> Seq<StoredView> {
    s.map_values(|c: StoredChange| c.view())
}

/// Each diagnostic with its message prefixed by the snapshot's name.
pub open spec fn prefixed(name: Seq<char>, ds: Seq<DiagnosticView>) -> Seq<DiagnosticView> {
    Seq::new(
        ds.len(),
        |i: int|
            DiagnosticView {
                code: ds[i].code,
                message: name + ": "@ + ds[i].message,
                severity: ds[i].severity,
                span: ds[i].span,
                object_id: ds[i].object_id,
                property_path: ds[i].property_path,
            },
    )
}

/// Whether an asset has no error diagnostic, so structural writes are
/// unambiguous.
pub open spec fn writable(a: Asset) -> bool {
    !crate::tree::has_error(a.diagnostics@)
}

/// What a catalog of the triple holds apart from the base and source hashes
/// and the aliases: the parser version, the target's content hash, every
/// change in order, and each snapshot's validation report with messages
/// prefixed `base: `, `target: ` or `source: `.
pub open spec fn catalog_core(c: ChangeCatalog, a: Asset, t: Asset, s: Asset) -> bool {
    let all = merge_changes(a, t, s, object_ids(a, s).len());
    &&& c.parser_version == 1
    &&& c.target_hash@ == t.content_hash@
    &&& changes_view(c.changes@) == all.map_values(|p: (ChangeView, StoredView)| p.0)
    &&& exists|x: Seq<DiagnosticView>, y: Seq<DiagnosticView>, z: Seq<DiagnosticView>|
        validation_outcome(a, x) && validation_outcome(t, y) && validation_outcome(s, z) && diags_view(c.diagnostics@)
            == prefixed("base"@, x) + prefixed("target"@, y) + prefixed("source"@, z)
}

/// What a catalog of the triple holds: its core, the base and source
/// content hashes, and no aliases.
pub open spec fn catalog_of(c: ChangeCatalog, a: Asset, t: Asset, s: Asset) -> bool {
    &&& catalog_core(c, a, t, s)
    &&& c.base_hash@ == a.content_hash@
    &&& c.source_hash@ == s.content_hash@
    &&& c.aliases@.len() == 0
}

fn append_prefixed(out: &mut Vec<Diagnostic>, name: &str, ds: Vec<Diagnostic>)
    ensures
        diags_view(final(out)@) == diags_view(old(out)@) + prefixed(name@, diags_view(ds@)),
{
    let ghost dv = diags_view(ds@);
    let ghost before = diags_view(out@);
    let mut k: usize = 0;
    while k < ds.len()
        invariant
            k <= ds@.len(),
            dv == diags_view(ds@),
            diags_view(out@) == before + prefixed(name@, dv).take(k as int),
        decreases ds@.len() - k,
    {
        let d = &ds[k];
        let message = concat3(name, ": ", d.message.as_str());
        let copy = d.copied();
        let nd = Diagnostic {
            code: copy.code,
            message,
            severity: copy.severity,
            span: copy.span,
            object_id: copy.object_id,
            property_path: copy.property_path,
        };
        crate::validation::push_diagnostic(out, nd);
        proof {
            assert(prefixed(name@, dv)[k as int] == nd.view());
            assert(prefixed(name@, dv).take(k + 1) =~= prefixed(name@, dv).take(k as int).push(nd.view()));
        }
        k = k + 1;
    }
    assert(prefixed(name@, dv).take(ds@.len() as int) =~= prefixed(name@, dv));
}

/// Splits change/region pairs into two lists in the same order.
fn split_pairs(pairs: Vec<(Change, StoredChange)>) -> (res: (Vec<Change>, Vec<StoredChange>))
    ensures
        changes_view(res.0@) == pairs_view(pairs@).map_values(|p: (ChangeView, StoredView)| p.0),
        stored_view(res.1@) == pairs_view(pairs@).map_values(|p: (ChangeView, StoredView)| p.1),
{
    let ghost pv = pairs_view(pairs@);
    let mut rest = pairs;
    let mut reversed: Vec<(Change, StoredChange)> = Vec::new();
    while rest.len() > 0
        invariant
            pv.len() == rest@.len() + reversed@.len(),
            forall|i: int| 0 <= i < rest@.len() ==> (#[trigger] rest@[i]).0.view() == pv[i].0 && rest@[i].1.view() == pv[i].1,
            forall|i: int| 0 <= i < reversed@.len() ==> (#[trigger] reversed@[i]).0.view() == pv[pv.len() - 1 - i].0
                && reversed@[i].1.view() == pv[pv.len() - 1 - i].1,
        decreases rest@.len(),
    {
        let p = rest.pop().unwrap();
        reversed.push(p);
    }
    let mut changes: Vec<Change> = Vec::new();
    let mut stored: Vec<StoredChange> = Vec::new();
    while reversed.len() > 0
        invariant
            pv.len() == reversed@.len() + changes@.len(),
            changes@.len() == stored@.len(),
            forall|i: int| 0 <= i < reversed@.len() ==> (#[trigger] reversed@[i]).0.view() == pv[pv.len() - 1 - i].0
                && reversed@[i].1.view() == pv[pv.len() - 1 - i].1,
            forall|i: int| 0 <= i < changes@.len() ==> (#[trigger] changes@[i]).view() == pv[i].0,
            forall|i: int| 0 <= i < stored@.len() ==> (#[trigger] stored@[i]).view() == pv[i].1,
        decreases reversed@.len(),
    {
        let p = reversed.pop().unwrap();
        changes.push(p.0);
        stored.push(p.1);
    }
    assert(changes_view(changes@) =~= pv.map_values(|p: (ChangeView, StoredView)| p.0));
    assert(stored_view(stored@) =~= pv.map_values(|p: (ChangeView, StoredView)| p.1));
    (changes, stored)
}

impl MergeSession {
    /// Every snapshot is well formed, each change has its stored regions,
    /// and every region lies in its snapshot.
    #[verifier::type_invariant]
    pub(crate) closed spec fn session_wf(self) -> bool {
        &&& documents_wf(*self.base)
        &&& documents_wf(*self.target)
        &&& documents_wf(*self.source)
        &&& self.original_base matches Some(b) ==> documents_wf(*b)
        &&& self.original_source matches Some(c) ==> documents_wf(*c)
        &&& self.stored@.len() == self.catalog.changes@.len()
        &&& forall|i: int|
            0 <= i < self.stored@.len() ==> stored_in(
                (#[trigger] self.stored@[i]).view(),
                self.base.bytes@.len() as int,
                self.target.bytes@.len() as int,
                self.source.bytes@.len() as int,
            )
    }

    pub closed spec fn base_spec(&self) -> Asset {
        *self.base
    }

    pub closed spec fn target_spec(&self) -> Asset {
        *self.target
    }

    pub closed spec fn source_spec(&self) -> Asset {
        *self.source
    }

    pub closed spec fn catalog_spec(&self) -> ChangeCatalog {
        self.catalog
    }

    /// The stored regions of the changes, one per change.
    pub closed spec fn regions_spec(&self) -> Seq<StoredView> {
        stored_view(self.stored@)
    }

    /// The base as given, before field aliases renamed its keys.
    pub closed spec fn original_base_spec(&self) -> Option<Asset> {
        match self.original_base {
            Some(a) => Some(*a),
            None => None,
        }
    }

    /// The source as given, before field aliases renamed its keys.
    pub closed spec fn original_source_spec(&self) -> Option<Asset> {
        match self.original_source {
            Some(a) => Some(*a),
            None => None,
        }
    }

    /// Builds the catalog of a snapshot triple. Every snapshot must be
    /// writable: duplicate keys or object IDs make structural writes
    /// ambiguous.
    pub fn new(base: Asset, target: Asset, source: Asset) -> (res: Result<Self, CoreError>)
        requires
            documents_wf(base),
            documents_wf(target),
            documents_wf(source),
        ensures
            res is Ok <==> writable(base) && writable(target) && writable(source),
            res matches Err(e) ==> e.code@ == "invalid_asset"@,
            res matches Ok(s) ==> {
                &&& s.base_spec() == base
                &&& s.target_spec() == target
                &&& s.source_spec() == source
                &&& s.original_base_spec() is None
                &&& s.original_source_spec() is None
                &&& catalog_of(s.catalog_spec(), base, target, source)
                &&& s.regions_spec() == merge_changes(base, target, source, object_ids(base, source).len()).map_values(
                    |p: (ChangeView, StoredView)| p.1,
                )
            },
    {
        Self::from_shared(Arc::new(base), Arc::new(target), Arc::new(source))
    }

    /// Builds the catalog of a snapshot triple held in shared snapshots,
    /// which the session keeps without copying.
    pub fn from_shared(base: Arc<Asset>, target: Arc<Asset>, source: Arc<Asset>) -> (res: Result<Self, CoreError>)
        requires
            documents_wf(*base),
            documents_wf(*target),
            documents_wf(*source),
        ensures
            res is Ok <==> writable(*base) && writable(*target) && writable(*source),
            res matches Err(e) ==> e.code@ == "invalid_asset"@,
            res matches Ok(s) ==> {
                &&& s.base_spec() == *base
                &&& s.target_spec() == *target
                &&& s.source_spec() == *source
                &&& s.original_base_spec() is None
                &&& s.original_source_spec() is None
                &&& catalog_of(s.catalog_spec(), *base, *target, *source)
                &&& s.regions_spec() == merge_changes(*base, *target, *source, object_ids(*base, *source).len()).map_values(
                    |p: (ChangeView, StoredView)| p.1,
                )
            },
    {
        if !base.is_writable() || !target.is_writable() || !source.is_writable() {
            return Err(CoreError::new(
                "invalid_asset",
                "duplicate keys/object IDs make structural writes ambiguous; inspect diagnostics or explicitly select a whole file",
                0,
            ));
        }
        // Snapshot diagnostics are informational here; only new output errors
        // block rendering, so pre-existing broken references are neither
        // erased nor mistaken for a merge regression.
        let mut diagnostics: Vec<Diagnostic> = Vec::new();
        let from_base = validate(&*base);
        let from_target = validate(&*target);
        let from_source = validate(&*source);
        let ghost x = diags_view(from_base@);
        let ghost y = diags_view(from_target@);
        let ghost z = diags_view(from_source@);
        append_prefixed(&mut diagnostics, "base", from_base);
        append_prefixed(&mut diagnostics, "target", from_target);
        append_prefixed(&mut diagnostics, "source", from_source);
        assert(diags_view(diagnostics@) =~= prefixed("base"@, x) + prefixed("target"@, y) + prefixed("source"@, z));
        let pairs = all_changes(&*base, &*target, &*source);
        let ghost pv = pairs_view(pairs@);
        let (changes, stored) = split_pairs(pairs);
        proof {
            assert forall|i: int| 0 <= i < stored@.len() implies stored_in(
                (#[trigger] stored@[i]).view(),
                base.bytes@.len() as int,
                target.bytes@.len() as int,
                source.bytes@.len() as int,
            ) by {
                let f = |p: (ChangeView, StoredView)| p.1;
                assert(stored_view(stored@).len() == stored@.len());
                assert(pv.map_values(f).len() == pv.len());
                assert(stored_view(stored@) == pv.map_values(f));
                assert(stored_view(stored@)[i] == stored@[i].view());
                assert(pv.map_values(f)[i] == pv[i].1);
                assert(stored_in(pv[i].1, base.bytes@.len() as int, target.bytes@.len() as int, source.bytes@.len() as int));
            }
            let g = |p: (ChangeView, StoredView)| p.0;
            let f = |p: (ChangeView, StoredView)| p.1;
            assert(changes_view(changes@).len() == changes@.len());
            assert(changes_view(changes@) == pv.map_values(g));
            assert(stored_view(stored@) == pv.map_values(f));
            assert(stored_view(stored@).len() == stored@.len());
            assert(stored@.len() == changes@.len());
        }
        let catalog = ChangeCatalog {
            parser_version: 1,
            base_hash: base.content_hash.clone(),
            target_hash: target.content_hash.clone(),
            source_hash: source.content_hash.clone(),
            changes,
            diagnostics,
            aliases: Vec::new(),
        };
        Ok(MergeSession { base, target, source, catalog, stored, original_base: None, original_source: None })
    }

    /// Records the snapshots as given before field aliases renamed their
    /// keys: their hashes stand in the catalog, with the aliases.
    pub(crate) fn with_originals(self, base: Arc<Asset>, source: Arc<Asset>, aliases: Vec<FieldAlias>) -> (res: Self)
        requires
            documents_wf(*base),
            documents_wf(*source),
        ensures
            res.base_spec() == self.base_spec(),
            res.target_spec() == self.target_spec(),
            res.source_spec() == self.source_spec(),
            res.regions_spec() == self.regions_spec(),
            res.original_base_spec() == Some(*base),
            res.original_source_spec() == Some(*source),
            res.catalog_spec().parser_version == self.catalog_spec().parser_version,
            res.catalog_spec().target_hash == self.catalog_spec().target_hash,
            res.catalog_spec().changes == self.catalog_spec().changes,
            res.catalog_spec().diagnostics == self.catalog_spec().diagnostics,
            res.catalog_spec().base_hash@ == base.content_hash@,
            res.catalog_spec().source_hash@ == source.content_hash@,
            res.catalog_spec().aliases == aliases,
    {
        proof { use_type_invariant(&self); }
        let base_hash = base.content_hash.clone();
        let source_hash = source.content_hash.clone();
        let MergeSession { base: b, target, source: s, catalog, stored, original_base: _, original_source: _ } = self;
        let ChangeCatalog { parser_version, base_hash: _, target_hash, source_hash: _, changes, diagnostics, aliases: _ } = catalog;
        let catalog = ChangeCatalog { parser_version, base_hash, target_hash, source_hash, changes, diagnostics, aliases };
        MergeSession { base: b, target, source: s, catalog, stored, original_base: Some(base), original_source: Some(source) }
    }

    /// The snapshots and regions a render reads.
    pub open spec fn snapshots(&self) -> Snapshots {
        Snapshots {
            base: self.base_spec(),
            target: self.target_spec(),
            source: self.source_spec(),
            original_base: self.original_base_spec(),
            original_source: self.original_source_spec(),
            changes: changes_view(self.catalog_spec().changes@),
            stored: self.regions_spec(),
        }
    }

    /// Applies decisions to the target. A whole-file choice takes a
    /// snapshot as given; otherwise each decision resolves a catalog change,
    /// a whole object or one field, and the resulting replacements of target
    /// spans are applied in order. Conflicts (a concurrent change included,
    /// overlapping replacements, or new validation errors in the result)
    /// leave the target unchanged and not ready.
    pub fn render(&self, decisions: &[Decision]) -> (res: Result<MergeOutput, CoreError>)
        ensures
            snapshots_wf(self.snapshots()),
            match render_plan(self.snapshots(), decisions@) {
                Err(f) => res matches Err(e) && fails(e, f),
                Ok(Outcome::Blocked(cs)) => res matches Ok(out) && out.bytes@ == self.target_spec().bytes@
                    && conflicts_view(out.conflicts@) == cs && out.diagnostics@.len() == 0 && !out.ready
                    && out.applied_change_ids@.len() == 0,
                Ok(Outcome::Candidate(bytes, ids)) => finish_outcome(
                    self.target_spec(),
                    self.source_spec(),
                    self.base_spec(),
                    bytes,
                    ids,
                    res,
                ),
            },
            decisions@.len() == 0 && self.target_spec().documents@.len() > 0 && self.target_spec().bytes@.len() > 0 ==> (
            res matches Ok(out) && out.ready && out.bytes@ == self.target_spec().bytes@ && out.conflicts@.len() == 0
                && out.applied_change_ids@.len() == 0),
    {
        proof { use_type_invariant(self); }
        let parts = SessionParts {
            base: &*self.base,
            target: &*self.target,
            source: &*self.source,
            original_base: match &self.original_base {
                Some(x) => Some(&**x),
                None => None,
            },
            original_source: match &self.original_source {
                Some(x) => Some(&**x),
                None => None,
            },
            changes: &self.catalog.changes,
            stored: &self.stored,
        };
        proof {
            let m = parts.view();
            assert(m.stored.len() == self.stored@.len());
            assert(m.changes.len() == self.catalog.changes@.len());
            assert forall|i: int| 0 <= i < m.stored.len() implies stored_in(
                #[trigger] m.stored[i],
                m.base.bytes@.len() as int,
                m.target.bytes@.len() as int,
                m.source.bytes@.len() as int,
            ) by {
                assert(m.stored[i] == self.stored@[i].view());
            }
            assert(m == self.snapshots());
        }
        let res = match render_decisions(&parts, decisions) {
            Err(e) => Err(e),
            Ok(Rendered::Blocked(cs)) => Ok(MergeOutput {
                bytes: crate::asset::to_vec(self.target.bytes.as_slice()),
                conflicts: cs,
                diagnostics: Vec::new(),
                ready: false,
                applied_change_ids: Vec::new(),
            }),
            Ok(Rendered::Candidate(bytes, ids)) => finish(&*self.target, &*self.source, &*self.base, bytes, ids),
        };
        proof {
            let m = self.snapshots();
            let t = self.target_spec();
            if decisions@.len() == 0 && t.documents@.len() > 0 && t.bytes@.len() > 0 {
                crate::render::lemma_no_decisions_keep_target(m);
                assert(decisions@ == Seq::<Decision>::empty());
                let out_bytes = crate::render::finished_bytes(t, self.source_spec(), self.base_spec(), t.bytes@, Seq::empty());
                assert(out_bytes == t.bytes@);
                let out = res->Ok_0;
                let (parsed, dv, bv) = choose|parsed: Asset, dv: Seq<DiagnosticView>, bv: Seq<DiagnosticView>|
                    #![trigger validation_outcome(parsed, dv), validation_outcome(t, bv)]
                    {
                        let conflicts = crate::render::new_errors(dv, bv, dv.len() as int);
                        &&& (if out_bytes.len() == 0 {
                            parsed.bytes@.len() == 0 && parsed.documents@.len() == 0 && parsed.diagnostics@.len() == 0
                        } else if out_bytes == t.bytes@ {
                            parsed == t
                        } else {
                            parse_outcome(out_bytes, Limits::default_spec(), Ok(parsed))
                        })
                        &&& validation_outcome(parsed, dv)
                        &&& validation_outcome(t, bv)
                        &&& (out_bytes.len() > 0 && out_bytes == t.bytes@ ==> dv == bv)
                        &&& diags_view(out.diagnostics@) == dv
                        &&& crate::decisions::conflicts_view(out.conflicts@) == conflicts
                        &&& out.ready == (conflicts.len() == 0)
                        &&& out.bytes@ == if out.ready { out_bytes } else { t.bytes@ }
                        &&& texts_view(out.applied_change_ids@) == if out.ready { Seq::<Seq<char>>::empty() } else { Seq::empty() }
                    };
                crate::render::lemma_no_new_errors_against_self(bv, bv.len() as int);
                assert(crate::decisions::conflicts_view(out.conflicts@).len() == out.conflicts@.len());
                assert(texts_view(out.applied_change_ids@).len() == out.applied_change_ids@.len());
            }
        }
        res
    }

    /// One decision with this resolution for each catalog change of the
    /// object, in catalog order.
    pub fn decisions_for_object(&self, object_id: &str, resolution: Resolution) -> (res: Vec<Decision>)
        ensures
            texts_view(decision_ids(res@)) == object_change_ids(changes_view(self.catalog_spec().changes@), object_id@),
            forall|i: int| 0 <= i < res@.len() ==> same_resolution(resolution, #[trigger] res@[i].resolution),
    {
        let ghost cv = changes_view(self.catalog.changes@);
        let mut out: Vec<Decision> = Vec::new();
        let mut k: usize = 0;
        assert(texts_view(decision_ids(out@)) =~= Seq::<Seq<char>>::empty());
        while k < self.catalog.changes.len()
            invariant
                k <= self.catalog.changes@.len(),
                cv == changes_view(self.catalog.changes@),
                texts_view(decision_ids(out@)) == object_change_ids(cv.take(k as int), object_id@),
                forall|i: int| 0 <= i < out@.len() ==> same_resolution(resolution, #[trigger] out@[i].resolution),
            decreases self.catalog.changes@.len() - k,
        {
            let c = &self.catalog.changes[k];
            assert(cv.take(k + 1).drop_last() == cv.take(k as int));
            assert(cv.take(k + 1).last() == c.view());
            if text_eq(c.object_id.as_str(), object_id) {
                let ghost before = out@;
                out.push(Decision { change_id: c.id.clone(), resolution: resolution.copied() });
                assert(decision_ids(out@) =~= decision_ids(before).push(out@[before.len() as int].change_id));
                assert(texts_view(decision_ids(out@)) =~= texts_view(decision_ids(before)).push(c.id@));
            }
            k = k + 1;
        }
        assert(cv.take(k as int) == cv);
        out
    }

    /// A whole-object choice, including fields unchanged between base and
    /// source. It overlaps any fine-grained choice for that object.
    pub fn object_decision(object_id: &str, resolution: Resolution) -> (res: Decision)
        ensures
            res.change_id@ == "$object:"@ + object_id@,
            res.resolution == resolution,
    {
        Decision { change_id: concat("$object:", object_id), resolution }
    }

    /// A whole-file choice; it overlaps every inner choice.
    pub fn file_decision(resolution: Resolution) -> (res: Decision)
        ensures
            res.change_id@ == "$file"@,
            res.resolution == resolution,
    {
        Decision { change_id: "$file".to_owned(), resolution }
    }

    /// A choice on a target field, also one without a source change.
    pub fn field_decision(object_id: &str, property_path: &str, resolution: Resolution) -> (res: Decision)
        ensures
            res.change_id@ == "$field:"@ + json_pair_text(object_id@, property_path@),
            json_string_pair(json_pair_text(object_id@, property_path@)) == Ok::<(Seq<char>, Seq<char>), Seq<char>>((
                object_id@,
                property_path@,
            )),
            res.resolution == resolution,
    {
        let pair = encode_pair(object_id, property_path);
        // The selector reads back as the object and path it names.
        let _read = decode_pair(pair.as_str());
        proof {
            assert(pair@ == json_pair_text(object_id@, property_path@));
        }
        Decision { change_id: concat("$field:", pair.as_str()), resolution }
    }

    pub fn catalog(&self) -> (res: &ChangeCatalog)
        ensures
            *res == self.catalog_spec(),
    {
        &self.catalog
    }

    pub fn base_asset(&self) -> (res: &Asset)
        ensures
            *res == self.base_spec(),
    {
        &*self.base
    }

    pub fn target_asset(&self) -> (res: &Asset)
        ensures
            *res == self.target_spec(),
    {
        &*self.target
    }

    pub fn source_asset(&self) -> (res: &Asset)
        ensures
            *res == self.source_spec(),
    {
        &*self.source
    }

    /// The base as given, when field aliases renamed its keys.
    pub fn original_base_asset(&self) -> (res: Option<&Asset>)
        ensures
            match res {
                Some(a) => self.original_base_spec() == Some(*a),
                None => self.original_base_spec() is None,
            },
    {
        match &self.original_base {
            Some(a) => Some(&**a),
            None => None,
        }
    }

    /// The source as given, when field aliases renamed its keys.
    pub fn original_source_asset(&self) -> (res: Option<&Asset>)
        ensures
            match res {
                Some(a) => self.original_source_spec() == Some(*a),
                None => self.original_source_spec() is None,
            },
    {
        match &self.original_source {
            Some(a) => Some(&**a),
            None => None,
        }
    }
}

/// Parses a snapshot triple and builds its change catalog.
pub fn prepare_merge(base: &[u8], target: &[u8], source: &[u8]) -> (res: Result<MergeSession, CoreError>)
    ensures
        res matches Ok(s) ==> {
            &&& s.base_spec().bytes@ == base@
            &&& s.target_spec().bytes@ == target@
            &&& s.source_spec().bytes@ == source@
            &&& s.original_base_spec() is None
            &&& s.original_source_spec() is None
            &&& catalog_of(s.catalog_spec(), s.base_spec(), s.target_spec(), s.source_spec())
            &&& s.regions_spec() == merge_changes(s.base_spec(), s.target_spec(), s.source_spec(), object_ids(s.base_spec(), s.source_spec()).len()).map_values(
                |p: (ChangeView, StoredView)| p.1,
            )
        },
        res is Ok <==> text_writable(base@) && text_writable(target@) && text_writable(source@),
        res matches Ok(s) ==> s.target_spec().documents@.len() > 0 && s.target_spec().bytes@.len() > 0,
        res matches Err(e) ==> setup_failed(e, base@, target@, source@),
{
    let b = match parse(base) {
        Ok(a) => Arc::new(a),
        Err(e) => {
            assert(parse_refused(base@));
            return Err(e);
        },
    };
    let mut known: Vec<Arc<Asset>> = Vec::new();
    known.push(share(&b));
    let t = parse_snapshot(target, &known)?;
    known.push(share(&t));
    let s = parse_snapshot(source, &known)?;
    MergeSession::from_shared(b, t, s)
}

/// The snapshot a shared handle holds.
pub open spec fn held(a: Arc<Asset>) -> Asset {
    *a
}

/// Another handle on a shared snapshot.
///
/// Calls `Arc::clone`, which std documents as making another pointer to
/// the same allocation.
#[verifier::external_body]
pub(crate) fn share(a: &Arc<Asset>) -> (res: Arc<Asset>)
    ensures
        *res == **a,
{
    Arc::clone(a)
}

/// Whether two byte slices hold the same bytes.
pub(crate) fn same_bytes(a: &[u8], b: &[u8]) -> (res: bool)
    ensures
        res == (a@ == b@),
{
    if a.len() != b.len() {
        return false;
    }
    let mut k: usize = 0;
    while k < a.len()
        invariant
            k <= a@.len(),
            a@.len() == b@.len(),
            a@.take(k as int) == b@.take(k as int),
        decreases a@.len() - k,
    {
        if a[k] != b[k] {
            assert(a@[k as int] != b@[k as int]);
            return false;
        }
        assert(a@.take(k + 1) == a@.take(k as int).push(a@[k as int]));
        assert(b@.take(k + 1) == b@.take(k as int).push(b@[k as int]));
        k = k + 1;
    }
    assert(a@.take(k as int) == a@);
    assert(b@.take(k as int) == b@);
    true
}

/// What parsing `bytes` with the default budgets gives, as `parse` states
/// it.
pub open spec fn parsed_from(a: Asset, bytes: Seq<u8>) -> bool {
    &&& parse_outcome(bytes, Limits::default_spec(), Ok(a))
    &&& bytes.len() > 0
    &&& !parse_refused(bytes)
    &&& text_run(bytes, Limits::default_spec()) == Some(a.node_count as int)
    &&& a.documents@.len() == text_documents(bytes, Limits::default_spec())
    &&& (crate::tree::has_error(a.diagnostics@) <==> text_dup(bytes, Limits::default_spec()))
}

/// The snapshot of `bytes`: one already parsed from the same bytes, shared,
/// or else a new parse.
pub(crate) fn parse_snapshot(bytes: &[u8], known: &Vec<Arc<Asset>>) -> (res: Result<Arc<Asset>, CoreError>)
    requires
        forall|k: int| 0 <= k < known@.len() ==> parsed_from(*#[trigger] known@[k], known@[k].bytes@),
    ensures
        res is Err <==> parse_refused(bytes@),
        res matches Ok(a) ==> parsed_from(*a, bytes@) && a.bytes@ == bytes@,
        res matches Err(e) ==> parse_outcome(bytes@, Limits::default_spec(), Err(e)),
{
    let mut k: usize = 0;
    while k < known.len()
        invariant
            k <= known@.len(),
            forall|j: int| 0 <= j < known@.len() ==> parsed_from(*#[trigger] known@[j], known@[j].bytes@),
        decreases known@.len() - k,
    {
        if same_bytes(known[k].bytes.as_slice(), bytes) {
            let found = share(&known[k]);
            proof {
                assert(parsed_from(*known@[k as int], known@[k as int].bytes@));
            }
            return Ok(found);
        }
        k = k + 1;
    }
    match parse(bytes) {
        Ok(a) => Ok(Arc::new(a)),
        Err(e) => Err(e),
    }
}

/// Why preparing a merge of three texts can fail: one of them does not
/// parse, or a parsed snapshot is not writable.
pub open spec fn setup_failed(e: CoreError, base: Seq<u8>, target: Seq<u8>, source: Seq<u8>) -> bool {
    ||| parse_refused(base) && parse_outcome(base, Limits::default_spec(), Err(e))
    ||| !parse_refused(base) && parse_refused(target) && parse_outcome(target, Limits::default_spec(), Err(e))
    ||| !parse_refused(base) && !parse_refused(target) && parse_refused(source) && parse_outcome(
        source,
        Limits::default_spec(),
        Err(e),
    )
    ||| !parse_refused(base) && !parse_refused(target) && !parse_refused(source) && e.code@ == "invalid_asset"@
        && (text_dup(base, Limits::default_spec()) || text_dup(target, Limits::default_spec()) || text_dup(
        source,
        Limits::default_spec(),
    ))
}

/// Whether a text parses with the default budgets to a writable asset: it
/// is read, and repeats neither a document file ID nor a mapping key.
pub open spec fn text_writable(bytes: Seq<u8>) -> bool {
    !parse_refused(bytes) && !text_dup(bytes, Limits::default_spec())
}

// ---------------------------------------------------------------------------
// Laws of change detection.

/// Every change of a list is clean.
pub open spec fn all_clean(cs: Seq<(ChangeView, StoredView)>) -> bool {
    forall|i: int| 0 <= i < cs.len() ==> (#[trigger] cs[i]).0.status == ChangeStatus::Clean
}

proof fn lemma_all_clean_append(a: Seq<(ChangeView, StoredView)>, b: Seq<(ChangeView, StoredView)>)
    requires
        all_clean(a),
        all_clean(b),
    ensures
        all_clean(a + b),
{
    assert forall|i: int| 0 <= i < (a + b).len() implies (#[trigger] (a + b)[i]).0.status == ChangeStatus::Clean by {
        if i < a.len() {
            assert((a + b)[i] == a[i]);
        } else {
            assert((a + b)[i] == b[i - a.len()]);
        }
    }
}

proof fn lemma_base_changes_clean(bb: Seq<u8>, sb: Seq<u8>, oid: Seq<char>, path: Seq<char>, bp: PointView, s: Option<PointView>, ins: Option<(usize, usize)>)
    ensures
        all_clean(base_changes(bb, bb, sb, oid, path, bp, Some(bp), s, ins)),
    decreases bp.node, 2nat, 0nat,
{
    let cs = base_changes(bb, bb, sb, oid, path, bp, Some(bp), s, ins);
    if !point_eq(Some(bp), s) {
        match s {
            Some(sp) => {
                if contains_seq(path, "/RefIds/@rid="@) && !same_type(bp.node, bp.node, sp.node) {
                } else if is_pptr(bp.node) || is_pptr(sp.node) || is_pptr(bp.node) {
                } else {
                    match (bp.node.kind, sp.node.kind) {
                        (NodeKind::Mapping(bm), NodeKind::Mapping(sm)) => {
                            if mapping_splits(bp.node, bp.node, sp.node) {
                                lemma_key_changes_clean(bb, sb, oid, path, bp, sp, bm@.len() + sm@.len());
                            }
                        },
                        (NodeKind::Sequence(_), NodeKind::Sequence(_)) => {
                            match (sequence_keys_spec(bb, bp.node, path), sequence_keys_spec(sb, sp.node, path)) {
                                (Some(bk), Some(sk)) => {
                                    assert(!rid_collision(bk, bk, sk));
                                    if bk == sk {
                                        lemma_item_changes_clean(bb, sb, oid, path, bp, sp, bk, bk.len());
                                    }
                                },
                                _ => {},
                            }
                        },
                        _ => {},
                    }
                }
            },
            None => {},
        }
    }
}

proof fn lemma_key_changes_clean(bb: Seq<u8>, sb: Seq<u8>, oid: Seq<char>, path: Seq<char>, bp: PointView, sp: PointView, j: nat)
    ensures
        all_clean(key_changes(bb, bb, sb, oid, path, bp, bp, sp, j)),
    decreases bp.node, 1nat, j,
{
    if j > 0 {
        lemma_key_changes_clean(bb, sb, oid, path, bp, sp, (j - 1) as nat);
        let prior = key_changes(bb, bb, sb, oid, path, bp, bp, sp, (j - 1) as nat);
        match (bp.node.kind, sp.node.kind) {
            (NodeKind::Mapping(bm), NodeKind::Mapping(sm)) => {
                let all = bm@ + sm@;
                if j <= all.len() {
                    let key = all[j - 1].key@;
                    if !(exists|i: int| 0 <= i < j - 1 && (#[trigger] all[i]).key@ == key) {
                        let cpath = child_spec(path, key);
                        let ins = Some((bp.node.span.end, bp.node.indent));
                        let sc = entry_point(sm@, key, sp.node);
                        match last_key(bm@, key) {
                            Some(i) => {
                                lemma_last_key(bm@, key);
                                let bc = PointView { node: bm@[i].value, entry: Some(bm@[i]), parent: Some(bp.node) };
                                lemma_base_changes_clean(bb, sb, oid, cpath, bc, sc, ins);
                                lemma_all_clean_append(prior, base_changes(bb, bb, sb, oid, cpath, bc, Some(bc), sc, ins));
                            },
                            None => {
                                if !point_eq(None, sc) {
                                    let one = seq![leaf(bb, bb, sb, oid, cpath, None, None, sc, ins, None, false)];
                                    assert(all_clean(one));
                                    lemma_all_clean_append(prior, one);
                                }
                            },
                        }
                    }
                }
            },
            _ => {},
        }
    }
}

proof fn lemma_item_changes_clean(bb: Seq<u8>, sb: Seq<u8>, oid: Seq<char>, path: Seq<char>, bp: PointView, sp: PointView, keys: Seq<Seq<char>>, j: nat)
    ensures
        all_clean(item_changes(bb, bb, sb, oid, path, bp, bp, sp, keys, j)),
    decreases bp.node, 1nat, j,
{
    if j > 0 {
        lemma_item_changes_clean(bb, sb, oid, path, bp, sp, keys, (j - 1) as nat);
        let prior = item_changes(bb, bb, sb, oid, path, bp, bp, sp, keys, (j - 1) as nat);
        match (bp.node.kind, sp.node.kind) {
            (NodeKind::Sequence(bi), NodeKind::Sequence(si)) => {
                if !(j > bi@.len() || j > si@.len() || j > keys.len()) {
                    let i = j - 1;
                    let bc = PointView { node: bi@[i].value, entry: None, parent: Some(bp.node) };
                    let sc = Some(PointView { node: si@[i].value, entry: None, parent: Some(sp.node) });
                    lemma_base_changes_clean(bb, sb, oid, child_spec(path, keys[i]), bc, sc, None);
                    lemma_all_clean_append(prior, base_changes(bb, bb, sb, oid, child_spec(path, keys[i]), bc, Some(bc), sc, None));
                }
            },
            _ => {},
        }
    }
}

/// When the target is the base itself, every change the source makes is
/// clean: nothing in the target competes with it.
pub proof fn lemma_target_at_base_is_clean(a: Asset, s: Asset, j: nat)
    ensures
        all_clean(merge_changes(a, a, s, j)),
    decreases j,
{
    let ids = object_ids(a, s);
    if j > 0 && j <= ids.len() {
        lemma_target_at_base_is_clean(a, s, (j - 1) as nat);
        let prior = merge_changes(a, a, s, (j - 1) as nat);
        if !ids.take(j - 1).contains(ids[j - 1]) {
            let id = ids[j - 1];
            let bd = doc_at(a, id);
            let sd = doc_at(s, id);
            if !docs_eq(bd, sd) {
                match (bd, sd) {
                    (Some(b), Some(ss)) => {
                        if crate::syntax::text_view(b.class_id) == crate::syntax::text_view(ss.class_id) && b.stripped == ss.stripped {
                            lemma_base_changes_clean(a.bytes@, s.bytes@, id, Seq::empty(), root_point(b), Some(root_point(ss)), None);
                        }
                    },
                    _ => {},
                }
                let doc = document_changes(a, a, s, id);
                assert(all_clean(doc));
                lemma_all_clean_append(prior, doc);
            }
        }
    }
}

/// A source equal to the base makes no change, whatever the target holds.
pub proof fn lemma_unchanged_source_has_no_changes(a: Asset, t: Asset, j: nat)
    ensures
        merge_changes(a, t, a, j) == Seq::<(ChangeView, StoredView)>::empty(),
    decreases j,
{
    if j > 0 && j <= object_ids(a, a).len() {
        lemma_unchanged_source_has_no_changes(a, t, (j - 1) as nat);
        let id = object_ids(a, a)[j - 1];
        assert(docs_eq(doc_at(a, id), doc_at(a, id)));
        assert(document_changes(a, t, a, id) == Seq::<(ChangeView, StoredView)>::empty());
    }
}

/// The hash a summary records, where there is a value.
pub open spec fn summary_hash(s: Option<SummaryView>) -> Option<Seq<char>> {
    match s {
        Some(x) => Some(x.hash),
        None => None,
    }
}

/// A change's status agrees with the hashes of its summaries: an already
/// applied change has the same hash (or absence) in target and source, a
/// clean one the same in target and base.
pub open spec fn status_matches_hashes(c: ChangeView) -> bool {
    &&& c.status == ChangeStatus::AlreadyApplied ==> summary_hash(c.target) == summary_hash(c.source)
    &&& c.status == ChangeStatus::Clean ==> summary_hash(c.target) == summary_hash(c.base)
    &&& field_status_exact(c)
}

/// Whether a change is about a field rather than a whole object.
pub open spec fn is_field_change(k: ChangeKind) -> bool {
    k is AddField || k is RemoveField || k is ModifyField || k is ReplaceSequence
}

/// A field change that is no identity collision is already applied exactly
/// when target and source hash alike, clean exactly when they differ and
/// the target hashes as the base does, and a conflict otherwise.
pub open spec fn field_status_exact(c: ChangeView) -> bool {
    is_field_change(c.kind) && c.reason != Some(collision_reason()) ==> {
        &&& (c.status == ChangeStatus::AlreadyApplied <==> summary_hash(c.target) == summary_hash(c.source))
        &&& (c.status == ChangeStatus::Clean <==> summary_hash(c.target) != summary_hash(c.source) && summary_hash(
            c.target,
        ) == summary_hash(c.base))
    }
}

pub open spec fn statuses_match(cs: Seq<(ChangeView, StoredView)>) -> bool {
    forall|i: int| 0 <= i < cs.len() ==> status_matches_hashes((#[trigger] cs[i]).0)
}

proof fn lemma_statuses_append(a: Seq<(ChangeView, StoredView)>, b: Seq<(ChangeView, StoredView)>)
    requires
        statuses_match(a),
        statuses_match(b),
    ensures
        statuses_match(a + b),
{
    assert forall|i: int| 0 <= i < (a + b).len() implies status_matches_hashes((#[trigger] (a + b)[i]).0) by {
        if i < a.len() {
            assert((a + b)[i] == a[i]);
        } else {
            assert((a + b)[i] == b[i - a.len()]);
        }
    }
}

/// A change's kind agrees with which snapshots hold a value: a value
/// absent from the base is an addition, one absent from the source a
/// removal, and one in both a modification; a field change replaces a whole
/// sequence exactly when the source value is a sequence.
pub open spec fn kind_matches_summaries(c: ChangeView) -> bool {
    &&& c.base is None ==> (c.kind == ChangeKind::AddField || c.kind == ChangeKind::AddObject)
    &&& (c.base is Some && c.source is None) ==> (c.kind == ChangeKind::RemoveField || c.kind == ChangeKind::RemoveObject)
    &&& (c.base is Some && c.source is Some) ==> (c.kind == ChangeKind::ModifyField || c.kind == ChangeKind::ReplaceSequence
        || c.kind == ChangeKind::ModifyObject)
    &&& c.kind == ChangeKind::ReplaceSequence ==> (c.source matches Some(x) && x.kind == "sequence"@)
    &&& c.kind == ChangeKind::ModifyField ==> (c.source matches Some(x) && x.kind != "sequence"@)
}

pub open spec fn change_consistent(c: ChangeView) -> bool {
    status_matches_hashes(c) && kind_matches_summaries(c)
}

pub open spec fn changes_consistent(cs: Seq<(ChangeView, StoredView)>) -> bool {
    forall|i: int| 0 <= i < cs.len() ==> change_consistent((#[trigger] cs[i]).0)
}

proof fn lemma_consistent_append(a: Seq<(ChangeView, StoredView)>, b: Seq<(ChangeView, StoredView)>)
    requires
        changes_consistent(a),
        changes_consistent(b),
    ensures
        changes_consistent(a + b),
{
    assert forall|i: int| 0 <= i < (a + b).len() implies change_consistent((#[trigger] (a + b)[i]).0) by {
        if i < a.len() {
            assert((a + b)[i] == a[i]);
        } else {
            assert((a + b)[i] == b[i - a.len()]);
        }
    }
}

proof fn lemma_leaf_status(
    bb: Seq<u8>,
    tb: Seq<u8>,
    sb: Seq<u8>,
    oid: Seq<char>,
    path: Seq<char>,
    b: Option<PointView>,
    t: Option<PointView>,
    s: Option<PointView>,
    ins: Option<(usize, usize)>,
    reason: Option<Seq<char>>,
    collision: bool,
)
    requires
        collision ==> reason == Some(collision_reason()),
    ensures
        changes_consistent(seq![leaf(bb, tb, sb, oid, path, b, t, s, ins, reason, collision)]),
{
    let one = seq![leaf(bb, tb, sb, oid, path, b, t, s, ins, reason, collision)];
    let c = one[0].0;
    match (t, s) {
        (Some(x), Some(y)) => {
            if summary_hash(c.target) == summary_hash(c.source) {
                crate::packed::lemma_hex_injective(x.node.fingerprint@, y.node.fingerprint@);
            }
        },
        _ => {},
    }
    match (t, b) {
        (Some(x), Some(y)) => {
            if summary_hash(c.target) == summary_hash(c.base) {
                crate::packed::lemma_hex_injective(x.node.fingerprint@, y.node.fingerprint@);
            }
        },
        _ => {},
    }
    assert(status_matches_hashes(c));
    reveal_strlit("sequence");
    reveal_strlit("mapping");
    reveal_strlit("scalar:");
    match s {
        Some(y) => {
            if !(y.node.kind is Sequence) {
                let k = crate::changes::kind_name(y.node);
                if y.node.kind is Mapping {
                    assert(k[1] != "sequence"@[1]);
                } else {
                    assert(k[1] == "scalar:"@[1]);
                    assert(k[1] != "sequence"@[1]);
                }
            }
        },
        None => {},
    }
    assert(change_consistent(c));
}

proof fn lemma_base_changes_status(
    bb: Seq<u8>,
    tb: Seq<u8>,
    sb: Seq<u8>,
    oid: Seq<char>,
    path: Seq<char>,
    bp: PointView,
    t: Option<PointView>,
    s: Option<PointView>,
    ins: Option<(usize, usize)>,
)
    ensures
        changes_consistent(base_changes(bb, tb, sb, oid, path, bp, t, s, ins)),
    decreases bp.node, 2nat, 0nat,
{
    let b = Some(bp);
    if !point_eq(b, s) {
        match (t, s) {
            (Some(tp), Some(sp)) => {
                if contains_seq(path, "/RefIds/@rid="@) && !same_type(bp.node, tp.node, sp.node) {
                    lemma_leaf_status(bb, tb, sb, oid, path, b, t, s, ins, Some(managed_type_reason()), false);
                } else if is_pptr(bp.node) || is_pptr(sp.node) || is_pptr(tp.node) {
                    lemma_leaf_status(bb, tb, sb, oid, path, b, t, s, ins, Some(pointer_reason()), false);
                } else {
                    match (bp.node.kind, tp.node.kind, sp.node.kind) {
                        (NodeKind::Mapping(bm), NodeKind::Mapping(tm), NodeKind::Mapping(sm)) => {
                            if mapping_splits(bp.node, tp.node, sp.node) {
                                lemma_key_changes_status(bb, tb, sb, oid, path, bp, tp, sp, bm@.len() + sm@.len());
                            } else {
                                lemma_leaf_status(bb, tb, sb, oid, path, b, t, s, ins, Some(mapping_reason()), false);
                            }
                        },
                        (NodeKind::Sequence(_), NodeKind::Sequence(_), NodeKind::Sequence(_)) => {
                            match (
                                sequence_keys_spec(bb, bp.node, path),
                                sequence_keys_spec(tb, tp.node, path),
                                sequence_keys_spec(sb, sp.node, path),
                            ) {
                                (Some(bk), Some(tk), Some(sk)) => {
                                    let collision = ends_with(path, "/references/RefIds"@) && rid_collision(bk, tk, sk);
                                    if bk == tk && bk == sk {
                                        lemma_item_changes_status(bb, tb, sb, oid, path, bp, tp, sp, bk, bk.len());
                                    } else {
                                        lemma_leaf_status(bb, tb, sb, oid, path, b, t, s, ins,
                                            Some(if collision { collision_reason() } else { order_reason() }), collision);
                                    }
                                },
                                _ => {
                                    lemma_leaf_status(bb, tb, sb, oid, path, b, t, s, ins, Some(positional_reason()), false);
                                },
                            }
                        },
                        _ => {
                            lemma_leaf_status(bb, tb, sb, oid, path, b, t, s, ins, None, false);
                        },
                    }
                }
            },
            _ => {
                lemma_leaf_status(bb, tb, sb, oid, path, b, t, s, ins, None, false);
            },
        }
    }
}

proof fn lemma_key_changes_status(
    bb: Seq<u8>,
    tb: Seq<u8>,
    sb: Seq<u8>,
    oid: Seq<char>,
    path: Seq<char>,
    bp: PointView,
    tp: PointView,
    sp: PointView,
    j: nat,
)
    ensures
        changes_consistent(key_changes(bb, tb, sb, oid, path, bp, tp, sp, j)),
    decreases bp.node, 1nat, j,
{
    if j > 0 {
        lemma_key_changes_status(bb, tb, sb, oid, path, bp, tp, sp, (j - 1) as nat);
        let prior = key_changes(bb, tb, sb, oid, path, bp, tp, sp, (j - 1) as nat);
        match (bp.node.kind, tp.node.kind, sp.node.kind) {
            (NodeKind::Mapping(bm), NodeKind::Mapping(tm), NodeKind::Mapping(sm)) => {
                let all = bm@ + sm@;
                if j <= all.len() {
                    let key = all[j - 1].key@;
                    if !(exists|i: int| 0 <= i < j - 1 && (#[trigger] all[i]).key@ == key) {
                        let cpath = child_spec(path, key);
                        let ins = Some((tp.node.span.end, tp.node.indent));
                        let tc = entry_point(tm@, key, tp.node);
                        let sc = entry_point(sm@, key, sp.node);
                        match last_key(bm@, key) {
                            Some(i) => {
                                lemma_last_key(bm@, key);
                                let bc = PointView { node: bm@[i].value, entry: Some(bm@[i]), parent: Some(bp.node) };
                                lemma_base_changes_status(bb, tb, sb, oid, cpath, bc, tc, sc, ins);
                                lemma_consistent_append(prior, base_changes(bb, tb, sb, oid, cpath, bc, tc, sc, ins));
                            },
                            None => {
                                if !point_eq(None, sc) {
                                    lemma_leaf_status(bb, tb, sb, oid, cpath, None, tc, sc, ins, None, false);
                                    lemma_consistent_append(prior, seq![leaf(bb, tb, sb, oid, cpath, None, tc, sc, ins, None, false)]);
                                }
                            },
                        }
                    }
                }
            },
            _ => {},
        }
    }
}

proof fn lemma_item_changes_status(
    bb: Seq<u8>,
    tb: Seq<u8>,
    sb: Seq<u8>,
    oid: Seq<char>,
    path: Seq<char>,
    bp: PointView,
    tp: PointView,
    sp: PointView,
    keys: Seq<Seq<char>>,
    j: nat,
)
    ensures
        changes_consistent(item_changes(bb, tb, sb, oid, path, bp, tp, sp, keys, j)),
    decreases bp.node, 1nat, j,
{
    if j > 0 {
        lemma_item_changes_status(bb, tb, sb, oid, path, bp, tp, sp, keys, (j - 1) as nat);
        let prior = item_changes(bb, tb, sb, oid, path, bp, tp, sp, keys, (j - 1) as nat);
        match (bp.node.kind, tp.node.kind, sp.node.kind) {
            (NodeKind::Sequence(bi), NodeKind::Sequence(ti), NodeKind::Sequence(si)) => {
                if !(j > bi@.len() || j > ti@.len() || j > si@.len() || j > keys.len()) {
                    let i = j - 1;
                    let bc = PointView { node: bi@[i].value, entry: None, parent: Some(bp.node) };
                    let tc = Some(PointView { node: ti@[i].value, entry: None, parent: Some(tp.node) });
                    let sc = Some(PointView { node: si@[i].value, entry: None, parent: Some(sp.node) });
                    lemma_base_changes_status(bb, tb, sb, oid, child_spec(path, keys[i]), bc, tc, sc, None);
                    lemma_consistent_append(prior, base_changes(bb, tb, sb, oid, child_spec(path, keys[i]), bc, tc, sc, None));
                }
            },
            _ => {},
        }
    }
}

proof fn lemma_merge_changes_status(a: Asset, t: Asset, s: Asset, j: nat)
    ensures
        changes_consistent(merge_changes(a, t, s, j)),
    decreases j,
{
    let ids = object_ids(a, s);
    if j > 0 && j <= ids.len() {
        lemma_merge_changes_status(a, t, s, (j - 1) as nat);
        let prior = merge_changes(a, t, s, (j - 1) as nat);
        if !ids.take(j - 1).contains(ids[j - 1]) {
            let id = ids[j - 1];
            let bd = doc_at(a, id);
            let td = doc_at(t, id);
            let sd = doc_at(s, id);
            let doc = document_changes(a, t, s, id);
            if !docs_eq(bd, sd) {
                match (bd, td, sd) {
                    (Some(b), Some(tt), Some(ss)) => {
                        if crate::syntax::text_view(b.class_id) == crate::syntax::text_view(ss.class_id)
                            && crate::syntax::text_view(b.class_id) == crate::syntax::text_view(tt.class_id)
                            && b.stripped == ss.stripped && b.stripped == tt.stripped {
                            lemma_base_changes_status(a.bytes@, t.bytes@, s.bytes@, id, Seq::empty(), root_point(b),
                                Some(root_point(tt)), Some(root_point(ss)), None);
                        } else {
                            assert(change_consistent(doc[0].0));
                        }
                    },
                    _ => {
                        assert(change_consistent(doc[0].0));
                    },
                }
            }
            lemma_consistent_append(prior, doc);
        }
    }
}

/// Every change of a catalog built from a base, target and source has a
/// status that agrees with its summaries: an already applied change has
/// the same hash (or the same absence) in target and source, and a clean
/// change has the same hash (or absence) in target and base. A field
/// change that is no identity collision is already applied exactly when
/// target and source hash alike, and clean exactly when they differ while
/// the target hashes as the base does.
pub proof fn lemma_catalog_statuses(c: ChangeCatalog, a: Asset, t: Asset, s: Asset)
    requires
        catalog_core(c, a, t, s),
    ensures
        forall|i: int| 0 <= i < c.changes@.len() ==> status_matches_hashes(#[trigger] c.changes@[i].view()),
{
    let all = merge_changes(a, t, s, object_ids(a, s).len());
    lemma_merge_changes_status(a, t, s, object_ids(a, s).len());
    assert forall|i: int| 0 <= i < c.changes@.len() implies status_matches_hashes(#[trigger] c.changes@[i].view()) by {
        let views = changes_view(c.changes@);
        let firsts = all.map_values(|p: (ChangeView, StoredView)| p.0);
        assert(views.len() == c.changes@.len());
        assert(views[i] == c.changes@[i].view());
        assert(firsts.len() == all.len());
        assert(views[i] == firsts[i]);
        assert(firsts[i] == all[i].0);
        assert(change_consistent(all[i].0));
    }
}

/// Every change of a catalog built from a base, target and source has the
/// kind its summaries call for: no base value means an addition (AddField,
/// or AddObject for a whole object), no source value a removal, values in
/// both a modification; and a field change is ReplaceSequence exactly when
/// its source value is a sequence, ModifyField otherwise.
pub proof fn lemma_catalog_kinds(c: ChangeCatalog, a: Asset, t: Asset, s: Asset)
    requires
        catalog_core(c, a, t, s),
    ensures
        forall|i: int| 0 <= i < c.changes@.len() ==> kind_matches_summaries(#[trigger] c.changes@[i].view()),
{
    let all = merge_changes(a, t, s, object_ids(a, s).len());
    lemma_merge_changes_status(a, t, s, object_ids(a, s).len());
    assert forall|i: int| 0 <= i < c.changes@.len() implies kind_matches_summaries(#[trigger] c.changes@[i].view()) by {
        let views = changes_view(c.changes@);
        let firsts = all.map_values(|p: (ChangeView, StoredView)| p.0);
        assert(views.len() == c.changes@.len());
        assert(views[i] == c.changes@[i].view());
        assert(firsts.len() == all.len());
        assert(views[i] == firsts[i]);
        assert(firsts[i] == all[i].0);
        assert(change_consistent(all[i].0));
    }
}

} // verus!
