//! Turning merge decisions into replacements of target spans: the
//! three-way rule for catalog changes, and explicit object and field
//! selections.
use vstd::prelude::*;
use vstd::utf8::encode_utf8;

use crate::aliases::{
    fails, path_failure, point_at, point_at_spec, split_pointer, split_pointer_spec, yaml_key, yaml_key_spec, Failure,
};
use crate::asset::{parse_outcome, Asset, Document};
use crate::syntax::Limits;
use crate::validation::validation_outcome;
use vstd::utf8::{decode_utf8, valid_utf8};
use crate::changes::{Change, ChangeStatus, ChangeView};
use crate::decisions::{active, is_active, ConflictView, Decision, Patch, PatchRec, Resolution};
use crate::indent::{leading_spaces, reindent, reindent_spec};
use crate::json::{json_yaml, yaml_value};
use crate::merge::{doc_at, doc_in, region, region_of, stored_in, RegionKind, RegionView, StoredChange, StoredView};
use crate::syntax::{CoreError, Span};
use crate::text::{chars_of, concat, has_prefix, starts_with, string_of, text_eq};
use crate::validation::documents_wf;

verus! {

/// What serde_json reads from a `$field:` selector: a JSON array of two
/// strings, or its error message.
pub uninterp spec fn json_string_pair(s: Seq<char>) -> Result<(Seq<char>, Seq<char>), Seq<char>>;

/// Reads a JSON array of two strings.
///
/// Calls `serde_json::from_str::<(String, String)>`; the outcome, the pair
/// or the error's message, is named by `json_string_pair` of the text. A
/// text that serde_json wrote for a pair of strings reads back as that pair.
#[verifier::external_body]
pub(crate) fn decode_pair(s: &str) -> (res: Result<(String, String), String>)
    ensures
        match json_string_pair(s@) {
            Ok(p) => res matches Ok(x) && x.0@ == p.0 && x.1@ == p.1,
            Err(m) => res matches Err(e) && e@ == m,
        },
        res matches Ok(x) ==> forall|a: Seq<char>, b: Seq<char>|
            #![trigger json_pair_text(a, b)]
            s@ == json_pair_text(a, b) ==> x.0@ == a && x.1@ == b,
        res is Err ==> forall|a: Seq<char>, b: Seq<char>| #![trigger json_pair_text(a, b)] s@ != json_pair_text(a, b),
{
    match serde_json::from_str::<(String, String)>(s) {
        Ok(pair) => Ok(pair),
        Err(e) => Err(e.to_string()),
    }
}

/// What serde_json writes for a pair of strings: a JSON array of two
/// string literals.
pub uninterp spec fn json_pair_text(a: Seq<char>, b: Seq<char>) -> Seq<char>;

/// Writes a pair of strings as a JSON array.
///
/// Calls `serde_json::to_string` on the tuple, which cannot fail for
/// strings; the text is named by `json_pair_text` of the two strings.
#[verifier::external_body]
pub(crate) fn encode_pair(a: &str, b: &str) -> (res: String)
    ensures
        res@ == json_pair_text(a@, b@),
{
    serde_json::to_string(&(a, b)).unwrap_or_default()
}

/// The snapshots a plan reads: the triple the catalog was built from, the
/// base and source as given before aliases renamed their keys, and the
/// catalog's changes with their stored regions.
pub ghost struct Snapshots {
    pub base: Asset,
    pub target: Asset,
    pub source: Asset,
    pub original_base: Option<Asset>,
    pub original_source: Option<Asset>,
    pub changes: Seq<ChangeView>,
    pub stored: Seq<StoredView>,
}

pub open spec fn snapshots_wf(m: Snapshots) -> bool {
    &&& documents_wf(m.base)
    &&& documents_wf(m.target)
    &&& documents_wf(m.source)
    &&& m.original_base matches Some(b) ==> documents_wf(b)
    &&& m.original_source matches Some(c) ==> documents_wf(c)
    &&& m.stored.len() == m.changes.len()
    &&& forall|i: int|
        0 <= i < m.stored.len() ==> stored_in(
            #[trigger] m.stored[i],
            m.base.bytes@.len() as int,
            m.target.bytes@.len() as int,
            m.source.bytes@.len() as int,
        )
}

/// The changes and conflicts gathered so far.
pub ghost struct Plan {
    pub conflicts: Seq<ConflictView>,
    pub patches: Seq<PatchRec>,
}

pub open spec fn with_patch(plan: Plan, p: PatchRec) -> Plan {
    Plan { conflicts: plan.conflicts, patches: plan.patches.push(p) }
}

pub open spec fn original_or(o: Option<Asset>, a: Asset) -> Asset {
    match o {
        Some(x) => x,
        None => a,
    }
}

pub open spec fn space_chars(n: nat) -> Seq<char> {
    Seq::new(n, |_i: int| ' ')
}

/// A typed field written as one block-mapping line.
pub open spec fn typed_line(indent: nat, key: Seq<char>, rendered: Seq<char>, nl: Seq<char>) -> Seq<u8> {
    encode_utf8(space_chars(indent) + yaml_key_spec(key) + ": "@ + rendered + nl)
}

pub open spec fn guid_failure_view() -> Failure {
    ("invalid_guid"@, "reference GUID must contain exactly 32 hexadecimal characters"@, 0)
}

pub open spec fn span_bytes(bytes: Seq<u8>, s: Span) -> Seq<u8> {
    bytes.subrange(s.start as int, s.end as int)
}

/// Whether an active decision selects the whole object.
pub open spec fn scoped(all: Seq<Decision>, oid: Seq<char>) -> bool {
    exists|j: int| 0 <= j < all.len() && active((#[trigger] all[j]).resolution) && all[j].change_id@ == "$object:"@ + oid
}

// ---------------------------------------------------------------------------
// Explicit field selections.

/// The region an explicit field selection replaces: the target field, or a
/// new entry at the end of an existing block-mapping parent.
pub open spec fn field_region(t: Option<crate::merge::PointView>, parent: Option<crate::merge::PointView>, key: Seq<char>) -> Result<RegionView, Failure> {
    match t {
        Some(p) => Ok(region_of(p)),
        None => match parent {
            None => Err(("missing_parent"@, "field insertion requires an existing target parent mapping"@, 0)),
            Some(par) => if par.node.flow || !(par.node.kind is Mapping) {
                Err((
                    "insert_scope"@,
                    "insert requires a block mapping; set the complete flow mapping instead"@,
                    par.node.span.start as int,
                ))
            } else {
                Ok(RegionView {
                    span: Span { start: par.node.span.end, end: par.node.span.end },
                    kind: RegionKind::Entry,
                    indent: par.node.indent,
                    key: Some(key),
                })
            },
        },
    }
}

/// The bytes an explicit field selection writes into its region.
pub open spec fn field_bytes(
    m: Snapshots,
    oid: Seq<char>,
    path: Seq<char>,
    r: Resolution,
    found: bool,
    region: RegionView,
    key: Seq<char>,
) -> Result<Seq<u8>, Failure> {
    match r {
        Resolution::SetValue { value } => match yaml_value(value) {
            None => Err(guid_failure_view()),
            Some(text) => if region.kind == RegionKind::Entry {
                let first = if region.span.start < region.span.end {
                    leading_spaces(span_bytes(m.target.bytes@, region.span))
                } else {
                    region.indent as nat
                };
                Ok(typed_line(first, key, text, m.target.newline@))
            } else {
                Ok(encode_utf8(text))
            },
        },
        Resolution::Delete => if !found {
            Err(("unknown_field"@, "cannot delete a missing target field"@, 0))
        } else if region.kind != RegionKind::Entry {
            Err((
                "delete_scope"@,
                "delete a complete block entry or set the enclosing flow mapping"@,
                region.span.start as int,
            ))
        } else {
            Ok(Seq::empty())
        },
        Resolution::Source | Resolution::Base => {
            let a = if r is Source { m.source } else { m.base };
            match point_at_spec(a, oid, path) {
                Err(e) => Err(path_failure(e)),
                Ok(None) => Err((
                    "missing_side_field"@,
                    "chosen snapshot has no such field; use explicit delete if intended"@,
                    0,
                )),
                Ok(Some(c)) => {
                    let cr = region_of(c);
                    if (region.kind == RegionKind::Entry) != (cr.kind == RegionKind::Entry) {
                        Err((
                            "field_representation"@,
                            "field representation differs; choose its parent or provide a typed value"@,
                            region.span.start as int,
                        ))
                    } else if region.kind == RegionKind::Entry {
                        Ok(reindent_spec(span_bytes(a.bytes@, cr.span), cr.indent as nat, region.indent as nat, encode_utf8(m.target.newline@)))
                    } else {
                        Ok(span_bytes(a.bytes@, cr.span))
                    }
                },
            }
        },
        _ => Err(("field_resolution"@, "explicit fields require set, delete, source, target, or base"@, 0)),
    }
}

/// The patch of an explicit field selection.
pub open spec fn field_patch(m: Snapshots, oid: Seq<char>, path: Seq<char>, d: Decision) -> Result<PatchRec, Failure> {
    if path.len() == 0 {
        Err(("field_scope"@, "use object_decision for an entire Unity object"@, 0))
    } else {
        match point_at_spec(m.target, oid, path) {
            Err(e) => Err(path_failure(e)),
            Ok(tp) => match split_pointer_spec(path) {
                Err(e) => Err(path_failure(e)),
                Ok(split) => match point_at_spec(m.target, oid, split.0) {
                    Err(e) => Err(path_failure(e)),
                    Ok(pp) => match field_region(tp, pp, split.1) {
                        Err(f) => Err(f),
                        Ok(region) => match field_bytes(m, oid, path, d.resolution, tp is Some, region, split.1) {
                            Err(f) => Err(f),
                            Ok(bytes) => Ok(PatchRec { span: region.span, bytes, id: d.change_id@, object_id: oid, path }),
                        },
                    },
                },
            },
        }
    }
}

// ---------------------------------------------------------------------------
// Whole-object selections.

/// The document a whole-object selection takes, with its snapshot's text.
pub open spec fn chosen_document(m: Snapshots, oid: Seq<char>, r: Resolution) -> Result<Option<(Seq<u8>, Document)>, Failure> {
    let pick = |a: Asset|
        match doc_at(a, oid) {
            Some(x) => Some((a.bytes@, x)),
            None => None,
        };
    match r {
        Resolution::Source => Ok(pick(original_or(m.original_source, m.source))),
        Resolution::Target => Ok(pick(m.target)),
        Resolution::Base => Ok(pick(original_or(m.original_base, m.base))),
        Resolution::Delete => Ok(None),
        _ => Err(("object_resolution"@, "whole-object choice requires source, target, base, or delete"@, 0)),
    }
}

/// The patch of a whole-object selection: the chosen document replaces the
/// target's, or is appended, or the target's is removed.
pub open spec fn object_patch(m: Snapshots, oid: Seq<char>, d: Decision) -> Result<PatchRec, Failure> {
    match chosen_document(m, oid, d.resolution) {
        Err(f) => Err(f),
        Ok(c) => {
            let t = doc_at(m.target, oid);
            if t is None && c is None {
                Err(("unknown_object"@, "no object "@ + oid + " in the chosen snapshot or target"@, 0))
            } else {
                let len = m.target.bytes@.len() as usize;
                Ok(PatchRec {
                    span: match t {
                        Some(x) => x.span,
                        None => Span { start: len, end: len },
                    },
                    bytes: match c {
                        Some(pair) => span_bytes(pair.0, pair.1.span),
                        None => Seq::empty(),
                    },
                    id: d.change_id@,
                    object_id: oid,
                    path: Seq::empty(),
                })
            }
        },
    }
}

// ---------------------------------------------------------------------------
// Catalog changes.

pub open spec fn concurrent_conflict(c: ChangeView) -> ConflictView {
    ConflictView {
        change_id: c.id,
        object_id: c.object_id,
        property_path: c.property_path,
        code: "concurrent_change"@,
        message: match c.reason {
            Some(r) => r,
            None => "target and source changed differently; explicitly choose source, target, base, or a typed value"@,
        },
    }
}

/// The bytes a resolved catalog change writes at its target span.
pub open spec fn change_bytes(m: Snapshots, r: Resolution, v: StoredView, indent: nat) -> Result<Seq<u8>, Failure> {
    match r {
        Resolution::SetValue { value } => {
            let region = match v.target {
                Some(x) => Some(x),
                None => match v.source {
                    Some(x) => Some(x),
                    None => v.base,
                },
            };
            match region {
                None => Err(("set_region"@, "missing field region"@, 0)),
                Some(reg) => if reg.kind == RegionKind::Document {
                    Err(("typed_object"@, "set operates on fields; use object selection for an entire Unity document"@, 0))
                } else {
                    match yaml_value(value) {
                        None => Err(guid_failure_view()),
                        Some(text) => if reg.kind == RegionKind::Entry {
                            match reg.key {
                                None => Err(("set_key"@, "typed field has no key"@, 0)),
                                Some(k) => Ok(typed_line(indent, k, text, m.target.newline@)),
                            }
                        } else {
                            Ok(encode_utf8(text))
                        },
                    }
                },
            }
        },
        _ => {
            let chosen = match r {
                Resolution::Source | Resolution::Include => match v.source {
                    Some(x) => Some((m.source.bytes@, x)),
                    None => None,
                },
                Resolution::Base => match v.base {
                    Some(x) => Some((m.base.bytes@, x)),
                    None => None,
                },
                _ => None,
            };
            match chosen {
                Some(pair) => {
                    let raw = span_bytes(pair.0, pair.1.span);
                    if pair.1.kind == RegionKind::Entry {
                        Ok(reindent_spec(raw, pair.1.indent as nat, indent, encode_utf8(m.target.newline@)))
                    } else {
                        Ok(raw)
                    }
                },
                None => Ok(Seq::empty()),
            }
        },
    }
}

/// Resolving a change with Base writes what resolving it with Source would
/// write if the base were the source: the base snapshot's bytes at the
/// change's base region (nothing when the base has none).
pub proof fn lemma_base_writes_base(m: Snapshots, v: StoredView, indent: nat)
    ensures
        change_bytes(m, Resolution::Base, v, indent) == change_bytes(
            Snapshots { source: m.base, ..m },
            Resolution::Source,
            StoredView { source: v.base, ..v },
            indent,
        ),
{
}

/// Including a change writes what choosing its source writes.
pub proof fn lemma_include_is_source(m: Snapshots, v: StoredView, indent: nat)
    ensures
        change_bytes(m, Resolution::Include, v, indent) == change_bytes(m, Resolution::Source, v, indent),
{
}

/// What resolving a change with Source writes does not depend on the base
/// snapshot or the change's base region.
pub proof fn lemma_source_ignores_base(m: Snapshots, v: StoredView, indent: nat, other: Asset, region: Option<RegionView>)
    ensures
        change_bytes(m, Resolution::Source, v, indent) == change_bytes(
            Snapshots { base: other, ..m },
            Resolution::Source,
            StoredView { base: region, ..v },
            indent,
        ),
{
}

/// What resolving a change with Base writes does not depend on the source
/// snapshot or the change's source region.
pub proof fn lemma_base_ignores_source(m: Snapshots, v: StoredView, indent: nat, other: Asset, region: Option<RegionView>)
    ensures
        change_bytes(m, Resolution::Base, v, indent) == change_bytes(
            Snapshots { source: other, ..m },
            Resolution::Base,
            StoredView { source: region, ..v },
            indent,
        ),
{
}

/// Where a resolved change writes in the target: its target region, or its
/// insertion point.
pub open spec fn change_span(v: StoredView) -> Option<Span> {
    match v.target {
        Some(r) => Some(r.span),
        None => match v.insertion {
            Some(p) => Some(Span { start: p.0, end: p.0 }),
            None => None,
        },
    }
}

pub open spec fn change_indent(v: StoredView) -> nat {
    match v.target {
        Some(r) => r.indent as nat,
        None => match v.insertion {
            Some(p) => p.1 as nat,
            None => 0,
        },
    }
}

/// A decision on the catalog change at `i`.
pub open spec fn change_step(m: Snapshots, all: Seq<Decision>, d: Decision, i: int, plan: Plan) -> Result<Plan, Failure> {
    let c = m.changes[i];
    let v = m.stored[i];
    if !active(d.resolution) {
        Ok(plan)
    } else if scoped(all, c.object_id) {
        Err(("overlapping_scope"@, "object "@ + c.object_id + " choice overlaps field "@ + c.property_path, 0))
    } else if d.resolution is Target {
        Ok(plan)
    } else if d.resolution is Include && c.status == ChangeStatus::Conflict {
        Ok(Plan { conflicts: plan.conflicts.push(concurrent_conflict(c)), patches: plan.patches })
    } else if d.resolution is Include && c.status == ChangeStatus::AlreadyApplied {
        Ok(plan)
    } else {
        match change_span(v) {
            None => Ok(plan),
            Some(sp) => if d.resolution is Delete && (v.target matches Some(r) && r.kind == RegionKind::Value) {
                Err((
                    "delete_scope"@,
                    "delete a complete block field/object or explicitly select the enclosing flow mapping"@,
                    sp.start as int,
                ))
            } else {
                match change_bytes(m, d.resolution, v, change_indent(v)) {
                    Err(f) => Err(f),
                    Ok(bytes) => Ok(with_patch(
                        plan,
                        PatchRec { span: sp, bytes, id: c.id, object_id: c.object_id, path: c.property_path },
                    )),
                }
            },
        }
    }
}

/// The index of the last catalog change with this ID.
pub open spec fn last_change(cs: Seq<ChangeView>, id: Seq<char>) -> Option<int>
    decreases cs.len(),
{
    if cs.len() == 0 {
        None
    } else if cs.last().id == id {
        Some(cs.len() - 1)
    } else {
        last_change(cs.drop_last(), id)
    }
}

/// One decision, after those in `done`.
pub open spec fn decide(m: Snapshots, all: Seq<Decision>, done: Seq<Decision>, d: Decision, plan: Plan) -> Result<Plan, Failure> {
    let id = d.change_id@;
    if exists|j: int| 0 <= j < done.len() && (#[trigger] done[j]).change_id@ == id {
        Err(("duplicate_decision"@, "duplicate decision "@ + id, 0))
    } else if id == "$file"@ {
        Ok(plan)
    } else if starts_with(id, "$field:"@) {
        match json_string_pair(id.skip(7)) {
            Err(msg) => Err(("field_selector"@, msg, 0)),
            Ok(pair) => if !active(d.resolution) {
                Ok(plan)
            } else if scoped(all, pair.0) {
                Err(("overlapping_scope"@, "whole-object choice overlaps an explicit field choice"@, 0))
            } else if d.resolution is Target {
                Ok(plan)
            } else {
                match field_patch(m, pair.0, pair.1, d) {
                    Err(f) => Err(f),
                    Ok(p) => Ok(with_patch(plan, p)),
                }
            },
        }
    } else if starts_with(id, "$object:"@) {
        if !active(d.resolution) {
            Ok(plan)
        } else {
            match object_patch(m, id.skip(8), d) {
                Err(f) => Err(f),
                Ok(p) => Ok(with_patch(plan, p)),
            }
        }
    } else {
        match last_change(m.changes, id) {
            None => Err(("unknown_change"@, "unknown change "@ + id, 0)),
            Some(i) => change_step(m, all, d, i, plan),
        }
    }
}

/// The plan of the first `k` decisions, or the first failure.
pub open spec fn plan_upto(m: Snapshots, all: Seq<Decision>, k: nat) -> Result<Plan, Failure>
    decreases k,
{
    if k == 0 {
        Ok(Plan { conflicts: Seq::empty(), patches: Seq::empty() })
    } else {
        match plan_upto(m, all, (k - 1) as nat) {
            Err(f) => Err(f),
            Ok(p) => decide(m, all, all.take(k - 1), all[k - 1], p),
        }
    }
}

// ---------------------------------------------------------------------------
// Executable planning.

/// The parts of a merge session a plan reads.
pub struct SessionParts<'a> {
    pub base: &'a Asset,
    pub target: &'a Asset,
    pub source: &'a Asset,
    pub original_base: Option<&'a Asset>,
    pub original_source: Option<&'a Asset>,
    pub changes: &'a Vec<Change>,
    pub stored: &'a Vec<StoredChange>,
}

pub open spec fn asset_opt(a: Option<&Asset>) -> Option<Asset> {
    match a {
        Some(x) => Some(*x),
        None => None,
    }
}

impl<'a> SessionParts<'a> {
    pub open spec fn view(self) -> Snapshots {
        Snapshots {
            base: *self.base,
            target: *self.target,
            source: *self.source,
            original_base: asset_opt(self.original_base),
            original_source: asset_opt(self.original_source),
            changes: crate::merge::changes_view(self.changes@),
            stored: crate::merge::stored_view(self.stored@),
        }
    }
}

fn failure(code: &str, message: &str, offset: usize) -> (res: CoreError)
    ensures
        res.code@ == code@,
        res.message@ == message@,
        res.offset == offset,
{
    CoreError::new(code, message, offset)
}

fn space_text(n: usize) -> (res: String)
    ensures
        res@ == space_chars(n as nat),
{
    let mut cs: Vec<char> = Vec::new();
    let mut k: usize = 0;
    while k < n
        invariant
            k <= n,
            cs@ == space_chars(k as nat),
        decreases n - k,
    {
        cs.push(' ');
        assert(cs@ =~= space_chars((k + 1) as nat));
        k = k + 1;
    }
    string_of(cs.as_slice())
}

fn typed_line_bytes(indent: usize, key: &str, rendered: &str, nl: &str) -> (res: Vec<u8>)
    ensures
        res@ == typed_line(indent as nat, key@, rendered@, nl@),
{
    let spaces = space_text(indent);
    let k = yaml_key(key);
    let head = concat(spaces.as_str(), k.as_str());
    let line = crate::text::concat5(head.as_str(), ": ", rendered, nl, "");
    proof { reveal_strlit(""); }
    assert(line@ =~= space_chars(indent as nat) + yaml_key_spec(key@) + ": "@ + rendered@ + nl@);
    crate::asset::to_vec(line.as_str().as_bytes())
}

fn text_bytes(t: &str) -> (res: Vec<u8>)
    ensures
        res@ == encode_utf8(t@),
{
    crate::asset::to_vec(t.as_bytes())
}

fn span_slice(bytes: &[u8], s: Span) -> (res: Vec<u8>)
    requires
        s.within(bytes@.len() as int),
    ensures
        res@ == span_bytes(bytes@, s),
{
    crate::asset::to_vec(crate::syntax::slice_range(bytes, s.start, s.end))
}

fn count_spaces(bytes: &[u8], s: Span) -> (res: usize)
    requires
        s.within(bytes@.len() as int),
    ensures
        res == leading_spaces(span_bytes(bytes@, s)),
{
    let ghost c = span_bytes(bytes@, s);
    let mut k = s.start;
    while k < s.end && bytes[k] == 32
        invariant
            s.start <= k <= s.end <= bytes@.len(),
            c == span_bytes(bytes@, s),
            forall|j: int| s.start <= j < k ==> bytes@[j] == 32,
        decreases s.end - k,
    {
        k = k + 1;
    }
    proof { lemma_count_spaces(c, k - s.start); }
    k - s.start
}

proof fn lemma_count_spaces(c: Seq<u8>, n: int)
    requires
        0 <= n <= c.len(),
        forall|j: int| 0 <= j < n ==> c[j] == 32,
        n < c.len() ==> c[n] != 32,
    ensures
        leading_spaces(c) == n,
    decreases n,
{
    if n > 0 {
        lemma_count_spaces(c.drop_first(), n - 1);
    }
}

/// The patch of an explicit field selection.
fn field_patch_of(m: &SessionParts, oid: &str, path: &str, d: &Decision) -> (res: Result<Patch, CoreError>)
    requires
        snapshots_wf(m.view()),
    ensures
        match field_patch(m.view(), oid@, path@, *d) {
            Ok(p) => res matches Ok(x) && x.view() == p,
            Err(f) => res matches Err(e) && fails(e, f),
        },
        res matches Ok(x) ==> x.span.within(m.target.bytes@.len() as int),
{
    let ghost mv = m.view();
    if chars_of(path).len() == 0 {
        return Err(failure("field_scope", "use object_decision for an entire Unity object", 0));
    }
    let target = point_at(m.target, oid, path)?;
    let (parent_path, key) = split_pointer(path)?;
    let parent = point_at(m.target, oid, parent_path.as_str())?;
    let reg = match target {
        Some(p) => region(p),
        None => match parent {
            None => {
                return Err(failure("missing_parent", "field insertion requires an existing target parent mapping", 0));
            },
            Some(par) => {
                if par.node.flow || par.node.entries().is_none() {
                    return Err(failure(
                        "insert_scope",
                        "insert requires a block mapping; set the complete flow mapping instead",
                        par.node.span.start,
                    ));
                }
                crate::merge::Region {
                    span: Span { start: par.node.span.end, end: par.node.span.end },
                    kind: RegionKind::Entry,
                    indent: par.node.indent,
                    key: Some(key.clone()),
                }
            },
        },
    };
    let ghost tlen = m.target.bytes@.len() as int;
    assert(reg.span.within(tlen));
    assert(field_region(crate::merge::point_opt(target), crate::merge::point_opt(parent), key@) == Ok::<RegionView, Failure>(reg.view()));
    let bytes = match &d.resolution {
        Resolution::SetValue { value } => {
            let rendered = json_yaml(value)?;
            if reg.kind == RegionKind::Entry {
                let first = if reg.span.start < reg.span.end {
                    count_spaces(m.target.bytes.as_slice(), reg.span)
                } else {
                    reg.indent
                };
                typed_line_bytes(first, key.as_str(), rendered.as_str(), m.target.newline)
            } else {
                text_bytes(rendered.as_str())
            }
        },
        Resolution::Delete => {
            if target.is_none() {
                return Err(failure("unknown_field", "cannot delete a missing target field", 0));
            }
            if reg.kind != RegionKind::Entry {
                return Err(failure(
                    "delete_scope",
                    "delete a complete block entry or set the enclosing flow mapping",
                    reg.span.start,
                ));
            }
            Vec::new()
        },
        Resolution::Source | Resolution::Base => {
            let is_source = match &d.resolution {
                Resolution::Source => true,
                _ => false,
            };
            let asset = if is_source { m.source } else { m.base };
            let chosen = match point_at(asset, oid, path)? {
                Some(c) => c,
                None => {
                    return Err(failure(
                        "missing_side_field",
                        "chosen snapshot has no such field; use explicit delete if intended",
                        0,
                    ));
                },
            };
            let cr = region(chosen);
            if (reg.kind == RegionKind::Entry) != (cr.kind == RegionKind::Entry) {
                return Err(failure(
                    "field_representation",
                    "field representation differs; choose its parent or provide a typed value",
                    reg.span.start,
                ));
            }
            assert(cr.span.within(asset.bytes@.len() as int));
            let raw = crate::syntax::slice_range(asset.bytes.as_slice(), cr.span.start, cr.span.end);
            if reg.kind == RegionKind::Entry {
                reindent(raw, cr.indent, reg.indent, m.target.newline)
            } else {
                crate::asset::to_vec(raw)
            }
        },
        _ => {
            return Err(failure("field_resolution", "explicit fields require set, delete, source, target, or base", 0));
        },
    };
    Ok(Patch { span: reg.span, bytes, id: d.change_id.clone(), object_id: oid.to_owned(), path: path.to_owned() })
}

fn pick_document<'a>(asset: &'a Asset, oid: &str) -> (res: Option<(&'a Asset, &'a Document)>)
    requires
        documents_wf(*asset),
    ensures
        match doc_at(*asset, oid@) {
            Some(x) => res matches Some(p) && *p.0 == *asset && *p.1 == x,
            None => res is None,
        },
        res matches Some(p) ==> p.1.span.within(p.0.bytes@.len() as int),
{
    match doc_in(asset, oid) {
        Some(d) => Some((asset, d)),
        None => None,
    }
}

/// The patch of a whole-object selection.
fn object_patch_of(m: &SessionParts, oid: &str, d: &Decision) -> (res: Result<Patch, CoreError>)
    requires
        snapshots_wf(m.view()),
    ensures
        match object_patch(m.view(), oid@, *d) {
            Ok(p) => res matches Ok(x) && x.view() == p,
            Err(f) => res matches Err(e) && fails(e, f),
        },
        res matches Ok(x) ==> x.span.within(m.target.bytes@.len() as int),
{
    let chosen = match &d.resolution {
        Resolution::Source => {
            let a = match m.original_source {
                Some(x) => x,
                None => m.source,
            };
            pick_document(a, oid)
        },
        Resolution::Target => pick_document(m.target, oid),
        Resolution::Base => {
            let a = match m.original_base {
                Some(x) => x,
                None => m.base,
            };
            pick_document(a, oid)
        },
        Resolution::Delete => None,
        _ => {
            return Err(failure("object_resolution", "whole-object choice requires source, target, base, or delete", 0));
        },
    };
    let target = doc_in(m.target, oid);
    if target.is_none() && chosen.is_none() {
        let message = crate::text::concat3("no object ", oid, " in the chosen snapshot or target");
        return Err(CoreError { code: "unknown_object".to_owned(), message, offset: 0 });
    }
    let len = m.target.bytes.len();
    let span = match target {
        Some(t) => t.span,
        None => Span { start: len, end: len },
    };
    let bytes = match chosen {
        Some((a, x)) => span_slice(a.bytes.as_slice(), x.span),
        None => Vec::new(),
    };
    proof { reveal_strlit(""); }
    Ok(Patch { span, bytes, id: d.change_id.clone(), object_id: oid.to_owned(), path: String::new() })
}

fn conflict_of(c: &Change) -> (res: crate::decisions::Conflict)
    ensures
        res.view() == concurrent_conflict(c.view()),
{
    crate::decisions::Conflict {
        change_id: c.id.clone(),
        object_id: c.object_id.clone(),
        property_path: c.property_path.clone(),
        code: "concurrent_change".to_owned(),
        message: match &c.reason {
            Some(r) => r.clone(),
            None => "target and source changed differently; explicitly choose source, target, base, or a typed value".to_owned(),
        },
    }
}

/// Whether an active decision selects the whole object.
fn scoped_in(all: &[Decision], oid: &str) -> (res: bool)
    ensures
        res == scoped(all@, oid@),
{
    let mut j: usize = 0;
    while j < all.len()
        invariant
            j <= all@.len(),
            forall|i: int| 0 <= i < j ==> !(active((#[trigger] all@[i]).resolution) && all@[i].change_id@ == "$object:"@ + oid@),
        decreases all@.len() - j,
    {
        let d = &all[j];
        if is_active(&d.resolution) {
            let cs = chars_of(d.change_id.as_str());
            proof { reveal_strlit("$object:"); }
            if has_prefix(cs.as_slice(), "$object:") {
                let rest = crate::pointer::sub_chars(cs.as_slice(), 8, cs.len());
                if crate::text::chars_eq(rest.as_slice(), oid) {
                    assert(d.change_id@ =~= "$object:"@ + oid@);
                    return true;
                }
                assert(d.change_id@ != "$object:"@ + oid@) by {
                    if d.change_id@ == "$object:"@ + oid@ {
                        assert(rest@ =~= oid@);
                    }
                }
            } else {
                assert(d.change_id@ != "$object:"@ + oid@) by {
                    if d.change_id@ == "$object:"@ + oid@ {
                        assert(d.change_id@.take(8) =~= "$object:"@);
                    }
                }
            }
        }
        j = j + 1;
    }
    false
}

/// The bytes a resolved catalog change writes.
fn change_bytes_of(m: &SessionParts, r: &Resolution, v: &StoredChange, indent: usize) -> (res: Result<Vec<u8>, CoreError>)
    requires
        snapshots_wf(m.view()),
        stored_in(v.view(), m.base.bytes@.len() as int, m.target.bytes@.len() as int, m.source.bytes@.len() as int),
    ensures
        match change_bytes(m.view(), *r, v.view(), indent as nat) {
            Ok(b) => res matches Ok(x) && x@ == b,
            Err(f) => res matches Err(e) && fails(e, f),
        },
{
    match r {
        Resolution::SetValue { value } => {
            let reg = match &v.target {
                Some(x) => Some(x),
                None => match &v.source {
                    Some(x) => Some(x),
                    None => match &v.base {
                        Some(x) => Some(x),
                        None => None,
                    },
                },
            };
            match reg {
                None => Err(failure("set_region", "missing field region", 0)),
                Some(g) => {
                    if g.kind == RegionKind::Document {
                        return Err(failure(
                            "typed_object",
                            "set operates on fields; use object selection for an entire Unity document",
                            0,
                        ));
                    }
                    let rendered = json_yaml(value)?;
                    if g.kind == RegionKind::Entry {
                        match &g.key {
                            None => Err(failure("set_key", "typed field has no key", 0)),
                            Some(k) => Ok(typed_line_bytes(indent, k.as_str(), rendered.as_str(), m.target.newline)),
                        }
                    } else {
                        Ok(text_bytes(rendered.as_str()))
                    }
                },
            }
        },
        _ => {
            let chosen = match r {
                Resolution::Source | Resolution::Include => match &v.source {
                    Some(x) => Some((m.source, x)),
                    None => None,
                },
                Resolution::Base => match &v.base {
                    Some(x) => Some((m.base, x)),
                    None => None,
                },
                _ => None,
            };
            match chosen {
                Some((a, g)) => {
                    let raw = crate::syntax::slice_range(a.bytes.as_slice(), g.span.start, g.span.end);
                    if g.kind == RegionKind::Entry {
                        Ok(reindent(raw, g.indent, indent, m.target.newline))
                    } else {
                        Ok(crate::asset::to_vec(raw))
                    }
                },
                None => Ok(Vec::new()),
            }
        },
    }
}

/// A decision on the catalog change at `i`, added to the conflicts and
/// patches gathered so far.
fn change_step_of(
    m: &SessionParts,
    all: &[Decision],
    d: &Decision,
    i: usize,
    conflicts: &mut Vec<crate::decisions::Conflict>,
    patches: &mut Vec<Patch>,
) -> (res: Result<(), CoreError>)
    requires
        snapshots_wf(m.view()),
        i < m.changes@.len(),
    ensures
        match change_step(
            m.view(),
            all@,
            *d,
            i as int,
            Plan { conflicts: crate::decisions::conflicts_view(old(conflicts)@), patches: crate::decisions::recs_view(old(patches)@) },
        ) {
            Ok(p) => res is Ok && crate::decisions::conflicts_view(final(conflicts)@) == p.conflicts
                && crate::decisions::recs_view(final(patches)@) == p.patches,
            Err(f) => res matches Err(e) && fails(e, f),
        },
        crate::decisions::recs_within(crate::decisions::recs_view(old(patches)@), m.target.bytes@.len() as int)
            ==> crate::decisions::recs_within(crate::decisions::recs_view(final(patches)@), m.target.bytes@.len() as int),
{
    let ghost mv = m.view();
    let c = &m.changes[i];
    assert(mv.changes[i as int] == c.view());
    let v = &m.stored[i];
    assert(mv.stored[i as int] == v.view());
    assert(stored_in(v.view(), m.base.bytes@.len() as int, m.target.bytes@.len() as int, m.source.bytes@.len() as int));
    if !is_active(&d.resolution) {
        return Ok(());
    }
    if scoped_in(all, c.object_id.as_str()) {
        let message = crate::text::concat5("object ", c.object_id.as_str(), " choice overlaps field ", c.property_path.as_str(), "");
        proof { reveal_strlit(""); }
        assert(message@ =~= "object "@ + c.object_id@ + " choice overlaps field "@ + c.property_path@);
        return Err(CoreError { code: "overlapping_scope".to_owned(), message, offset: 0 });
    }
    match &d.resolution {
        Resolution::Target => {
            return Ok(());
        },
        Resolution::Include => {
            if c.status == ChangeStatus::Conflict {
                let ghost before = conflicts@;
                conflicts.push(conflict_of(c));
                assert(crate::decisions::conflicts_view(conflicts@) =~= crate::decisions::conflicts_view(before).push(
                    concurrent_conflict(c.view()),
                ));
                return Ok(());
            }
            if c.status == ChangeStatus::AlreadyApplied {
                return Ok(());
            }
        },
        _ => {},
    }
    let span = match &v.target {
        Some(x) => x.span,
        None => match v.insertion {
            Some(p) => Span { start: p.0, end: p.0 },
            None => {
                return Ok(());
            },
        },
    };
    let indent = match &v.target {
        Some(x) => x.indent,
        None => match v.insertion {
            Some(p) => p.1,
            None => 0,
        },
    };
    let is_delete = match &d.resolution {
        Resolution::Delete => true,
        _ => false,
    };
    let value_target = match &v.target {
        Some(x) => x.kind == RegionKind::Value,
        None => false,
    };
    if is_delete && value_target {
        return Err(failure(
            "delete_scope",
            "delete a complete block field/object or explicitly select the enclosing flow mapping",
            span.start,
        ));
    }
    let bytes = change_bytes_of(m, &d.resolution, v, indent)?;
    let p = Patch {
        span,
        bytes,
        id: c.id.clone(),
        object_id: c.object_id.clone(),
        path: c.property_path.clone(),
    };
    let ghost before = patches@;
    patches.push(p);
    proof {
        assert(crate::decisions::recs_view(patches@) =~= crate::decisions::recs_view(before).push(p.view()));
        if crate::decisions::recs_within(crate::decisions::recs_view(before), m.target.bytes@.len() as int) {
            assert forall|k: int| 0 <= k < crate::decisions::recs_view(patches@).len() implies (
            #[trigger] crate::decisions::recs_view(patches@)[k]).span.within(m.target.bytes@.len() as int) by {
                if k < before.len() {
                    assert(crate::decisions::recs_view(patches@)[k] == crate::decisions::recs_view(before)[k]);
                }
            }
        }
    }
    Ok(())
}

fn last_change_of(changes: &Vec<Change>, id: &str) -> (res: Option<usize>)
    ensures
        res matches Some(x) ==> last_change(crate::merge::changes_view(changes@), id@) == Some(x as int) && x < changes@.len(),
        res is None ==> last_change(crate::merge::changes_view(changes@), id@) is None,
{
    let ghost cv = crate::merge::changes_view(changes@);
    let mut k = changes.len();
    assert(cv.take(k as int) == cv);
    while k > 0
        invariant
            k <= changes@.len(),
            cv == crate::merge::changes_view(changes@),
            last_change(cv, id@) == last_change(cv.take(k as int), id@),
        decreases k,
    {
        assert(cv.take(k as int).drop_last() == cv.take(k - 1));
        assert(cv.take(k as int).last() == changes@[k - 1].view());
        if text_eq(changes[k - 1].id.as_str(), id) {
            return Some(k - 1);
        }
        k = k - 1;
    }
    None
}

fn seen_before(done: &[Decision], id: &str) -> (res: bool)
    ensures
        res == exists|j: int| 0 <= j < done@.len() && (#[trigger] done@[j]).change_id@ == id@,
{
    let mut j: usize = 0;
    while j < done.len()
        invariant
            j <= done@.len(),
            forall|i: int| 0 <= i < j ==> (#[trigger] done@[i]).change_id@ != id@,
        decreases done@.len() - j,
    {
        if text_eq(done[j].change_id.as_str(), id) {
            return true;
        }
        j = j + 1;
    }
    false
}

fn push_patch(patches: &mut Vec<Patch>, p: Patch, len: usize)
    requires
        p.span.within(len as int),
    ensures
        crate::decisions::recs_view(final(patches)@) == crate::decisions::recs_view(old(patches)@).push(p.view()),
        crate::decisions::recs_within(crate::decisions::recs_view(old(patches)@), len as int)
            ==> crate::decisions::recs_within(crate::decisions::recs_view(final(patches)@), len as int),
{
    let ghost before = patches@;
    patches.push(p);
    proof {
        assert(crate::decisions::recs_view(patches@) =~= crate::decisions::recs_view(before).push(p.view()));
        if crate::decisions::recs_within(crate::decisions::recs_view(before), len as int) {
            assert forall|k: int| 0 <= k < crate::decisions::recs_view(patches@).len() implies (
            #[trigger] crate::decisions::recs_view(patches@)[k]).span.within(len as int) by {
                if k < before.len() {
                    assert(crate::decisions::recs_view(patches@)[k] == crate::decisions::recs_view(before)[k]);
                }
            }
        }
    }
}

/// The decision at `k`, after those before it.
fn decide_of(
    m: &SessionParts,
    all: &[Decision],
    k: usize,
    conflicts: &mut Vec<crate::decisions::Conflict>,
    patches: &mut Vec<Patch>,
) -> (res: Result<(), CoreError>)
    requires
        snapshots_wf(m.view()),
        k < all@.len(),
    ensures
        match decide(
            m.view(),
            all@,
            all@.take(k as int),
            all@[k as int],
            Plan { conflicts: crate::decisions::conflicts_view(old(conflicts)@), patches: crate::decisions::recs_view(old(patches)@) },
        ) {
            Ok(p) => res is Ok && crate::decisions::conflicts_view(final(conflicts)@) == p.conflicts
                && crate::decisions::recs_view(final(patches)@) == p.patches,
            Err(f) => res matches Err(e) && fails(e, f),
        },
        crate::decisions::recs_within(crate::decisions::recs_view(old(patches)@), m.target.bytes@.len() as int)
            ==> crate::decisions::recs_within(crate::decisions::recs_view(final(patches)@), m.target.bytes@.len() as int),
{
    let d = &all[k];
    let id = d.change_id.as_str();
    let (done, _) = all.split_at(k);
    assert(done@ == all@.take(k as int));
    if seen_before(done, id) {
        let message = concat("duplicate decision ", id);
        return Err(CoreError { code: "duplicate_decision".to_owned(), message, offset: 0 });
    }
    if text_eq(id, "$file") {
        return Ok(());
    }
    let cs = chars_of(id);
    proof {
        reveal_strlit("$field:");
        reveal_strlit("$object:");
    }
    if has_prefix(cs.as_slice(), "$field:") {
        let encoded = string_of(crate::pointer::sub_chars(cs.as_slice(), 7, cs.len()).as_slice());
        assert(encoded@ =~= id@.skip(7));
        let (oid, path) = match decode_pair(encoded.as_str()) {
            Ok(pair) => pair,
            Err(message) => {
                return Err(CoreError { code: "field_selector".to_owned(), message, offset: 0 });
            },
        };
        if !is_active(&d.resolution) {
            return Ok(());
        }
        if scoped_in(all, oid.as_str()) {
            return Err(failure("overlapping_scope", "whole-object choice overlaps an explicit field choice", 0));
        }
        match &d.resolution {
            Resolution::Target => {
                return Ok(());
            },
            _ => {},
        }
        let p = field_patch_of(m, oid.as_str(), path.as_str(), d)?;
        push_patch(patches, p, m.target.bytes.len());
        return Ok(());
    }
    if has_prefix(cs.as_slice(), "$object:") {
        if !is_active(&d.resolution) {
            return Ok(());
        }
        let oid = string_of(crate::pointer::sub_chars(cs.as_slice(), 8, cs.len()).as_slice());
        assert(oid@ =~= id@.skip(8));
        let p = object_patch_of(m, oid.as_str(), d)?;
        push_patch(patches, p, m.target.bytes.len());
        return Ok(());
    }
    match last_change_of(m.changes, id) {
        None => {
            let message = concat("unknown change ", id);
            Err(CoreError { code: "unknown_change".to_owned(), message, offset: 0 })
        },
        Some(i) => change_step_of(m, all, d, i, conflicts, patches),
    }
}

/// Plans every decision in order: the conflicts they raise and the patches
/// they make, or the first failure.
pub(crate) fn plan_decisions(m: &SessionParts, all: &[Decision]) -> (res: Result<(Vec<crate::decisions::Conflict>, Vec<Patch>), CoreError>)
    requires
        snapshots_wf(m.view()),
    ensures
        match plan_upto(m.view(), all@, all@.len()) {
            Ok(p) => res matches Ok(x) && crate::decisions::conflicts_view(x.0@) == p.conflicts
                && crate::decisions::recs_view(x.1@) == p.patches,
            Err(f) => res matches Err(e) && fails(e, f),
        },
        res matches Ok(x) ==> crate::decisions::recs_within(crate::decisions::recs_view(x.1@), m.target.bytes@.len() as int),
{
    let mut conflicts: Vec<crate::decisions::Conflict> = Vec::new();
    let mut patches: Vec<Patch> = Vec::new();
    let mut k: usize = 0;
    assert(crate::decisions::conflicts_view(conflicts@) =~= Seq::<ConflictView>::empty());
    assert(crate::decisions::recs_view(patches@) =~= Seq::<PatchRec>::empty());
    while k < all.len()
        invariant
            k <= all@.len(),
            snapshots_wf(m.view()),
            plan_upto(m.view(), all@, k as nat) == Ok::<Plan, Failure>(
                Plan { conflicts: crate::decisions::conflicts_view(conflicts@), patches: crate::decisions::recs_view(patches@) },
            ),
            crate::decisions::recs_within(crate::decisions::recs_view(patches@), m.target.bytes@.len() as int),
        decreases all@.len() - k,
    {
        match decide_of(m, all, k, &mut conflicts, &mut patches) {
            Ok(()) => {},
            Err(e) => {
                proof { lemma_plan_stops(m.view(), all@, (k + 1) as nat); }
                return Err(e);
            },
        }
        k = k + 1;
    }
    Ok((conflicts, patches))
}

proof fn lemma_plan_stops(m: Snapshots, all: Seq<Decision>, k: nat)
    requires
        k <= all.len(),
        plan_upto(m, all, k) is Err,
    ensures
        plan_upto(m, all, all.len()) == plan_upto(m, all, k),
    decreases all.len() - k,
{
    if k < all.len() {
        lemma_plan_stops(m, all, k + 1);
    }
}

// ---------------------------------------------------------------------------
// The whole render.

/// The first active `$file` decision.
pub open spec fn file_choice(ds: Seq<Decision>) -> Option<int>
    decreases ds.len(),
{
    if ds.len() == 0 {
        None
    } else {
        match file_choice(ds.drop_last()) {
            Some(i) => Some(i),
            None => if ds.last().change_id@ == "$file"@ && active(ds.last().resolution) {
                Some(ds.len() - 1)
            } else {
                None
            },
        }
    }
}

/// A whole-file choice: the chosen snapshot as given, refused beside any
/// other active decision.
pub open spec fn whole_file(m: Snapshots, ds: Seq<Decision>) -> Option<Result<Seq<u8>, Failure>> {
    match file_choice(ds) {
        None => None,
        Some(i) => if exists|j: int| 0 <= j < ds.len() && (#[trigger] ds[j]).change_id@ != "$file"@ && active(ds[j].resolution) {
            Some(Err(("overlapping_scope"@, "whole-file choice overlaps an object/field choice"@, 0)))
        } else {
            Some(
                match ds[i].resolution {
                    Resolution::Source => Ok(original_or(m.original_source, m.source).bytes@),
                    Resolution::Target => Ok(m.target.bytes@),
                    Resolution::Base => Ok(original_or(m.original_base, m.base).bytes@),
                    _ => Err(("whole_file_resolution"@, "whole-file choice requires source, target, or base"@, 0)),
                },
            )
        },
    }
}

/// A candidate text with the change IDs it applies, or the conflicts that
/// block it.
pub ghost enum Outcome {
    Candidate(Seq<u8>, Seq<Seq<char>>),
    Blocked(Seq<ConflictView>),
}

/// What the decisions make of the target before the result is checked.
pub open spec fn render_plan(m: Snapshots, ds: Seq<Decision>) -> Result<Outcome, Failure> {
    match whole_file(m, ds) {
        Some(Err(f)) => Err(f),
        Some(Ok(bytes)) => Ok(Outcome::Candidate(bytes, seq!["$file"@])),
        None => match plan_upto(m, ds, ds.len()) {
            Err(f) => Err(f),
            Ok(p) => {
                let sorted = crate::decisions::sort_recs(p.patches);
                let all = p.conflicts + crate::decisions::overlaps(sorted, sorted.len() as int);
                if all.len() > 0 {
                    Ok(Outcome::Blocked(all))
                } else {
                    Ok(Outcome::Candidate(
                        crate::decisions::applied(m.target.bytes@, sorted, encode_utf8(m.target.newline@)),
                        crate::decisions::patch_ids(sorted),
                    ))
                }
            },
        },
    }
}

pub enum Rendered {
    Candidate(Vec<u8>, Vec<String>),
    Blocked(Vec<crate::decisions::Conflict>),
}

pub open spec fn rendered_view(r: Rendered) -> Outcome {
    match r {
        Rendered::Candidate(b, ids) => Outcome::Candidate(b@, crate::changes::texts_view(ids@)),
        Rendered::Blocked(cs) => Outcome::Blocked(crate::decisions::conflicts_view(cs@)),
    }
}

fn file_choice_of(ds: &[Decision]) -> (res: Option<usize>)
    ensures
        res matches Some(i) ==> file_choice(ds@) == Some(i as int) && i < ds@.len(),
        res is None ==> file_choice(ds@) is None,
{
    let mut k: usize = 0;
    while k < ds.len()
        invariant
            k <= ds@.len(),
            file_choice(ds@.take(k as int)) is None,
        decreases ds@.len() - k,
    {
        assert(ds@.take(k + 1).drop_last() == ds@.take(k as int));
        assert(ds@.take(k + 1).last() == ds@[k as int]);
        if text_eq(ds[k].change_id.as_str(), "$file") && is_active(&ds[k].resolution) {
            proof { lemma_file_choice_stays(ds@, k + 1); }
            return Some(k);
        }
        k = k + 1;
    }
    assert(ds@.take(k as int) == ds@);
    None
}

proof fn lemma_file_choice_stays(ds: Seq<Decision>, n: int)
    requires
        0 <= n <= ds.len(),
        file_choice(ds.take(n)) is Some,
    ensures
        file_choice(ds) == file_choice(ds.take(n)),
    decreases ds.len(),
{
    if n < ds.len() {
        assert(ds.drop_last().take(n) == ds.take(n));
        lemma_file_choice_stays(ds.drop_last(), n);
    } else {
        assert(ds.take(n) == ds);
    }
}

fn other_active(ds: &[Decision]) -> (res: bool)
    ensures
        res == exists|j: int| 0 <= j < ds@.len() && (#[trigger] ds@[j]).change_id@ != "$file"@ && active(ds@[j].resolution),
{
    let mut j: usize = 0;
    while j < ds.len()
        invariant
            j <= ds@.len(),
            forall|i: int| 0 <= i < j ==> !((#[trigger] ds@[i]).change_id@ != "$file"@ && active(ds@[i].resolution)),
        decreases ds@.len() - j,
    {
        if !text_eq(ds[j].change_id.as_str(), "$file") && is_active(&ds[j].resolution) {
            return true;
        }
        j = j + 1;
    }
    false
}

/// What the decisions make of the target: a candidate text with the change
/// IDs it applies, the conflicts that block it, or the first failure.
pub(crate) fn render_decisions(m: &SessionParts, ds: &[Decision]) -> (res: Result<Rendered, CoreError>)
    requires
        snapshots_wf(m.view()),
    ensures
        match render_plan(m.view(), ds@) {
            Ok(o) => res matches Ok(r) && rendered_view(r) == o,
            Err(f) => res matches Err(e) && fails(e, f),
        },
{
    proof { reveal_strlit("$file"); }
    match file_choice_of(ds) {
        Some(i) => {
            if other_active(ds) {
                return Err(failure("overlapping_scope", "whole-file choice overlaps an object/field choice", 0));
            }
            let bytes = match &ds[i].resolution {
                Resolution::Source => {
                    let a = match m.original_source {
                        Some(x) => x,
                        None => m.source,
                    };
                    crate::asset::to_vec(a.bytes.as_slice())
                },
                Resolution::Target => crate::asset::to_vec(m.target.bytes.as_slice()),
                Resolution::Base => {
                    let a = match m.original_base {
                        Some(x) => x,
                        None => m.base,
                    };
                    crate::asset::to_vec(a.bytes.as_slice())
                },
                _ => {
                    return Err(failure("whole_file_resolution", "whole-file choice requires source, target, or base", 0));
                },
            };
            let mut ids: Vec<String> = Vec::new();
            ids.push("$file".to_owned());
            assert(crate::changes::texts_view(ids@) =~= seq!["$file"@]);
            Ok(Rendered::Candidate(bytes, ids))
        },
        None => {
            let (conflicts, patches) = plan_decisions(m, ds)?;
            let sorted = crate::decisions::sort_patch_list(&patches, m.target.bytes.len());
            let overlapping = crate::decisions::overlap_conflicts(&sorted);
            if conflicts.len() > 0 || overlapping.len() > 0 {
                let mut all = conflicts;
                let ghost first = crate::decisions::conflicts_view(all@);
                let mut k: usize = 0;
                while k < overlapping.len()
                    invariant
                        k <= overlapping@.len(),
                        crate::decisions::conflicts_view(all@) == first + crate::decisions::conflicts_view(overlapping@).take(k as int),
                    decreases overlapping@.len() - k,
                {
                    let c = &overlapping[k];
                    let ghost before = all@;
                    all.push(crate::decisions::Conflict {
                        change_id: c.change_id.clone(),
                        object_id: c.object_id.clone(),
                        property_path: c.property_path.clone(),
                        code: c.code.clone(),
                        message: c.message.clone(),
                    });
                    assert(crate::decisions::conflicts_view(all@) =~= crate::decisions::conflicts_view(before).push(c.view()));
                    assert(crate::decisions::conflicts_view(overlapping@).take(k + 1) =~= crate::decisions::conflicts_view(
                        overlapping@,
                    ).take(k as int).push(c.view()));
                    k = k + 1;
                }
                assert(crate::decisions::conflicts_view(overlapping@).take(k as int) == crate::decisions::conflicts_view(overlapping@));
                return Ok(Rendered::Blocked(all));
            }
            proof {
                crate::decisions::lemma_no_overlap(crate::decisions::recs_view(sorted@), sorted@.len() as int);
            }
            let (bytes, ids) = crate::decisions::apply_sorted(m.target.bytes.as_slice(), sorted, m.target.newline);
            Ok(Rendered::Candidate(bytes, ids))
        },
    }
}

// ---------------------------------------------------------------------------
// Checking a candidate.

/// The characters after any leading byte-order marks.
pub open spec fn strip_boms(s: Seq<char>) -> Seq<char>
    decreases s.len(),
{
    if s.len() > 0 && s[0] == '\u{feff}' { strip_boms(s.drop_first()) } else { s }
}

/// A line holds nothing but white space, a `%` directive or a `#` comment.
pub open spec fn trivia_line(line: Seq<char>) -> bool {
    let t = crate::text::trimmed(strip_boms(line));
    t.len() == 0 || t[0] == '%' || t[0] == '#'
}

/// Every line of a text is trivia.
pub open spec fn only_trivia(s: Seq<char>) -> bool {
    let lines = crate::pointer::split_spec(s, '\n');
    forall|k: int| 0 <= k < lines.len() ==> trivia_line(#[trigger] lines[k])
}

pub open spec fn unity_header() -> Seq<u8> {
    seq![45u8, 45u8, 45u8, 32u8, 33u8, 117u8, 33u8]
}

/// A candidate for an empty target that starts with a document header
/// takes the source's (else the base's) text before its first document;
/// a candidate that applied changes and holds only trivia is empty.
pub open spec fn finished_bytes(t: Asset, src: Asset, base: Asset, bytes: Seq<u8>, ids: Seq<Seq<char>>) -> Seq<u8> {
    let first = if t.documents@.len() == 0 && bytes.len() >= 7 && bytes.take(7) == unity_header() {
        let from = if src.documents@.len() == 0 { base } else { src };
        if from.documents@.len() > 0 && from.documents@[0].span.start > 0 {
            from.bytes@.take(from.documents@[0].span.start as int) + bytes
        } else {
            bytes
        }
    } else {
        bytes
    };
    if ids.len() > 0 && valid_utf8(first) && only_trivia(decode_utf8(first)) {
        Seq::empty()
    } else {
        first
    }
}

/// Whether a baseline diagnostic has the same code, object, path and
/// message.
pub open spec fn in_baseline(d: crate::syntax::DiagnosticView, bv: Seq<crate::syntax::DiagnosticView>) -> bool {
    exists|j: int|
        0 <= j < bv.len() && (#[trigger] bv[j]).code == d.code && bv[j].object_id == d.object_id && bv[j].property_path
            == d.property_path && bv[j].message == d.message
}

pub open spec fn diagnostic_conflict(d: crate::syntax::DiagnosticView) -> ConflictView {
    ConflictView {
        change_id: Seq::empty(),
        object_id: match d.object_id {
            Some(o) => o,
            None => Seq::empty(),
        },
        property_path: match d.property_path {
            Some(p) => p,
            None => Seq::empty(),
        },
        code: d.code,
        message: d.message,
    }
}

/// A conflict for each error among the first `k` diagnostics that the
/// target's own validation does not report.
pub open spec fn new_errors(dv: Seq<crate::syntax::DiagnosticView>, bv: Seq<crate::syntax::DiagnosticView>, k: int) -> Seq<ConflictView>
    decreases k,
{
    if k <= 0 {
        Seq::empty()
    } else if dv[k - 1].severity == crate::syntax::Severity::Error && !in_baseline(dv[k - 1], bv) {
        new_errors(dv, bv, k - 1).push(diagnostic_conflict(dv[k - 1]))
    } else {
        new_errors(dv, bv, k - 1)
    }
}

/// What checking a candidate gives: the candidate is parsed (an empty one
/// is an absent file) and validated; errors the target does not already
/// have become conflicts; only a result without conflicts is ready, with
/// its bytes and change IDs, else the target stands. A candidate that is
/// the target's own text is the target snapshot. It fails exactly when a
/// non-empty candidate of other bytes does not parse, with the parser's
/// error.
pub open spec fn finish_outcome(
    t: Asset,
    src: Asset,
    base: Asset,
    bytes: Seq<u8>,
    ids: Seq<Seq<char>>,
    res: Result<crate::decisions::MergeOutput, CoreError>,
) -> bool {
    let out_bytes = finished_bytes(t, src, base, bytes, ids);
    match res {
        Err(e) => out_bytes.len() > 0 && out_bytes != t.bytes@ && crate::asset::parse_refused(out_bytes) && parse_outcome(
            out_bytes,
            Limits::default_spec(),
            Err(e),
        ),
        Ok(out) => exists|parsed: Asset, dv: Seq<crate::syntax::DiagnosticView>, bv: Seq<crate::syntax::DiagnosticView>|
            #![trigger validation_outcome(parsed, dv), validation_outcome(t, bv)]
            {
                let conflicts = new_errors(dv, bv, dv.len() as int);
                &&& if out_bytes.len() == 0 {
                    parsed.bytes@.len() == 0 && parsed.documents@.len() == 0 && parsed.diagnostics@.len() == 0
                } else if out_bytes == t.bytes@ {
                    parsed == t
                } else {
                    parse_outcome(out_bytes, Limits::default_spec(), Ok(parsed))
                }
                &&& validation_outcome(parsed, dv)
                &&& validation_outcome(t, bv)
                &&& (out_bytes.len() > 0 && out_bytes == t.bytes@ ==> dv == bv)
                &&& crate::syntax::diags_view(out.diagnostics@) == dv
                &&& crate::decisions::conflicts_view(out.conflicts@) == conflicts
                &&& out.ready == (conflicts.len() == 0)
                &&& out.bytes@ == if out.ready { out_bytes } else { t.bytes@ }
                &&& crate::changes::texts_view(out.applied_change_ids@) == if out.ready { ids } else { Seq::empty() }
            },
    }
}

fn trivia_text(bytes: &[u8]) -> (res: bool)
    ensures
        res == (valid_utf8(bytes@) && only_trivia(decode_utf8(bytes@))),
{
    let text = match crate::text::decode_bytes(bytes) {
        Ok(t) => t,
        Err(_) => {
            return false;
        },
    };
    let cs = chars_of(text.as_str());
    let lines = crate::pointer::split_chars(cs.as_slice(), '\n');
    let ghost ls = crate::pointer::split_spec(cs@, '\n');
    assert(cs@ == decode_utf8(bytes@));
    let mut k: usize = 0;
    while k < lines.len()
        invariant
            k <= lines@.len(),
            valid_utf8(bytes@),
            ls == crate::pointer::split_spec(decode_utf8(bytes@), '\n'),
            lines@.len() == ls.len(),
            forall|j: int| 0 <= j < lines@.len() ==> (#[trigger] lines@[j])@ == ls[j],
            forall|j: int| 0 <= j < k ==> trivia_line(#[trigger] ls[j]),
        decreases lines@.len() - k,
    {
        let line = &lines[k];
        let mut a: usize = 0;
        assert(line@.skip(0) == line@);
        while a < line.len() && line[a] == '\u{feff}'
            invariant
                a <= line@.len(),
                strip_boms(line@) == strip_boms(line@.skip(a as int)),
            decreases line@.len() - a,
        {
            assert(line@.skip(a as int).drop_first() == line@.skip(a + 1));
            a = a + 1;
        }
        let rest = crate::pointer::sub_chars(line.as_slice(), a, line.len());
        assert(rest@ == line@.skip(a as int));
        assert(strip_boms(rest@) == rest@);
        let t = crate::text::trim_chars(rest.as_slice());
        assert(lines@[k as int]@ == ls[k as int]);
        if !(t.len() == 0 || t[0] == '%' || t[0] == '#') {
            assert(!trivia_line(ls[k as int]));
            return false;
        }
        k = k + 1;
    }
    true
}

fn has_header(bytes: &[u8]) -> (res: bool)
    ensures
        res == (bytes@.len() >= 7 && bytes@.take(7) == unity_header()),
{
    if bytes.len() < 7 {
        return false;
    }
    let ok = bytes[0] == 45 && bytes[1] == 45 && bytes[2] == 45 && bytes[3] == 32 && bytes[4] == 33 && bytes[5] == 117
        && bytes[6] == 33;
    assert(ok ==> bytes@.take(7) =~= unity_header());
    assert(bytes@.take(7) == unity_header() ==> ok) by {
        if bytes@.take(7) == unity_header() {
            assert(bytes@.take(7)[0] == bytes@[0]);
            assert(bytes@.take(7)[1] == bytes@[1]);
            assert(bytes@.take(7)[2] == bytes@[2]);
            assert(bytes@.take(7)[3] == bytes@[3]);
            assert(bytes@.take(7)[4] == bytes@[4]);
            assert(bytes@.take(7)[5] == bytes@[5]);
            assert(bytes@.take(7)[6] == bytes@[6]);
        }
    }
    ok
}

fn same_diagnostic(a: &crate::syntax::Diagnostic, b: &crate::syntax::Diagnostic) -> (res: bool)
    ensures
        res == (a.view().code == b.view().code && a.view().object_id == b.view().object_id && a.view().property_path
            == b.view().property_path && a.view().message == b.view().message),
{
    text_eq(a.code.as_str(), b.code.as_str()) && same_text_opt(&a.object_id, &b.object_id) && same_text_opt(
        &a.property_path,
        &b.property_path,
    ) && text_eq(a.message.as_str(), b.message.as_str())
}

fn same_text_opt(a: &Option<String>, b: &Option<String>) -> (res: bool)
    ensures
        res == (crate::syntax::text_view(*a) == crate::syntax::text_view(*b)),
{
    match (a, b) {
        (Some(x), Some(y)) => text_eq(x.as_str(), y.as_str()),
        (None, None) => true,
        _ => false,
    }
}

fn baseline_has(baseline: &Vec<crate::syntax::Diagnostic>, d: &crate::syntax::Diagnostic) -> (res: bool)
    ensures
        res == in_baseline(d.view(), crate::syntax::diags_view(baseline@)),
{
    let ghost bv = crate::syntax::diags_view(baseline@);
    let mut j: usize = 0;
    while j < baseline.len()
        invariant
            j <= baseline@.len(),
            bv == crate::syntax::diags_view(baseline@),
            forall|i: int|
                0 <= i < j ==> !((#[trigger] bv[i]).code == d.view().code && bv[i].object_id == d.view().object_id
                    && bv[i].property_path == d.view().property_path && bv[i].message == d.view().message),
        decreases baseline@.len() - j,
    {
        assert(bv[j as int] == baseline@[j as int].view());
        if same_diagnostic(&baseline[j], d) {
            return true;
        }
        j = j + 1;
    }
    false
}

/// The same diagnostics, one for one.
fn copy_diagnostics(ds: &Vec<crate::syntax::Diagnostic>) -> (res: Vec<crate::syntax::Diagnostic>)
    ensures
        crate::syntax::diags_view(res@) == crate::syntax::diags_view(ds@),
{
    let mut out: Vec<crate::syntax::Diagnostic> = Vec::new();
    let mut k: usize = 0;
    while k < ds.len()
        invariant
            k <= ds@.len(),
            crate::syntax::diags_view(out@) == crate::syntax::diags_view(ds@.take(k as int)),
        decreases ds@.len() - k,
    {
        let d = &ds[k];
        let c = d.copied();
        proof {
            assert(c.view() == d.view());
            crate::syntax::lemma_diags_push(out@, c);
            crate::syntax::lemma_diags_push(ds@.take(k as int), *d);
            assert(ds@.take(k + 1) == ds@.take(k as int).push(*d));
        }
        out.push(c);
        k = k + 1;
    }
    assert(ds@.take(k as int) == ds@);
    out
}

/// Nothing in a diagnostic list is new against itself.
pub proof fn lemma_no_new_errors_against_self(v: Seq<crate::syntax::DiagnosticView>, k: int)
    requires
        k <= v.len(),
    ensures
        new_errors(v, v, k) == Seq::<ConflictView>::empty(),
    decreases k,
{
    if k > 0 {
        lemma_no_new_errors_against_self(v, k - 1);
        assert(in_baseline(v[k - 1], v));
    }
}

/// Checks a candidate text: parses and validates it, and reports each
/// error the target does not already have as a conflict.
pub(crate) fn finish(target: &Asset, source: &Asset, base: &Asset, bytes: Vec<u8>, ids: Vec<String>) -> (res: Result<
    crate::decisions::MergeOutput,
    CoreError,
>)
    requires
        documents_wf(*target),
        documents_wf(*source),
        documents_wf(*base),
    ensures
        finish_outcome(*target, *source, *base, bytes@, crate::changes::texts_view(ids@), res),
{
    let ghost idv = crate::changes::texts_view(ids@);
    let ghost original = bytes@;
    let mut bytes = bytes;
    if target.documents.len() == 0 && has_header(bytes.as_slice()) {
        let from = if source.documents.len() == 0 { base } else { source };
        if from.documents.len() > 0 && from.documents[0].span.start > 0 {
            let ghost d0 = from.documents@[0];
            assert(crate::asset::document_wf(d0, from.bytes@));
            let mut prefixed = crate::asset::to_vec(crate::syntax::slice_range(from.bytes.as_slice(), 0, from.documents[0].span.start));
            let mut k: usize = 0;
            let ghost head = prefixed@;
            while k < bytes.len()
                invariant
                    k <= bytes@.len(),
                    prefixed@ == head + bytes@.take(k as int),
                decreases bytes@.len() - k,
            {
                prefixed.push(bytes[k]);
                assert(bytes@.take(k + 1) == bytes@.take(k as int).push(bytes@[k as int]));
                k = k + 1;
            }
            assert(bytes@.take(k as int) == bytes@);
            assert(head == from.bytes@.take(from.documents@[0].span.start as int));
            bytes = prefixed;
        }
    }
    let ghost first = bytes@;
    assert(first == {
        if target.documents@.len() == 0 && original.len() >= 7 && original.take(7) == unity_header() {
            let from = if source.documents@.len() == 0 { *base } else { *source };
            if from.documents@.len() > 0 && from.documents@[0].span.start > 0 {
                from.bytes@.take(from.documents@[0].span.start as int) + original
            } else {
                original
            }
        } else {
            original
        }
    });
    if ids.len() > 0 && trivia_text(bytes.as_slice()) {
        bytes = Vec::new();
    }
    assert(ids@.len() == idv.len());
    assert(bytes@ =~= finished_bytes(*target, *source, *base, original, idv));
    let baseline = crate::validation::validate(target);
    let diagnostics = if bytes.len() > 0 && crate::merge::same_bytes(bytes.as_slice(), target.bytes.as_slice()) {
        copy_diagnostics(&baseline)
    } else {
        let parsed = if bytes.len() == 0 {
            Asset::absent()
        } else {
            crate::asset::parse(bytes.as_slice())?
        };
        crate::validation::validate(&parsed)
    };
    let ghost dv = crate::syntax::diags_view(diagnostics@);
    let ghost bv = crate::syntax::diags_view(baseline@);
    let mut conflicts: Vec<crate::decisions::Conflict> = Vec::new();
    let mut k: usize = 0;
    assert(crate::decisions::conflicts_view(conflicts@) =~= Seq::<ConflictView>::empty());
    while k < diagnostics.len()
        invariant
            k <= diagnostics@.len(),
            dv == crate::syntax::diags_view(diagnostics@),
            bv == crate::syntax::diags_view(baseline@),
            crate::decisions::conflicts_view(conflicts@) == new_errors(dv, bv, k as int),
        decreases diagnostics@.len() - k,
    {
        let d = &diagnostics[k];
        assert(dv[k as int] == d.view());
        if d.severity == crate::syntax::Severity::Error && !baseline_has(&baseline, d) {
            let c = crate::decisions::Conflict {
                change_id: String::new(),
                object_id: match &d.object_id {
                    Some(o) => o.clone(),
                    None => String::new(),
                },
                property_path: match &d.property_path {
                    Some(p) => p.clone(),
                    None => String::new(),
                },
                code: d.code.clone(),
                message: d.message.clone(),
            };
            proof { reveal_strlit(""); }
            let ghost before = conflicts@;
            conflicts.push(c);
            assert(crate::decisions::conflicts_view(conflicts@) =~= crate::decisions::conflicts_view(before).push(
                diagnostic_conflict(dv[k as int]),
            ));
        }
        k = k + 1;
    }
    let ready = conflicts.len() == 0;
    let out_bytes = if ready { bytes } else { crate::asset::to_vec(target.bytes.as_slice()) };
    let applied = if ready { ids } else { Vec::new() };
    assert(!ready ==> crate::changes::texts_view(applied@) =~= Seq::<Seq<char>>::empty());
    Ok(crate::decisions::MergeOutput { bytes: out_bytes, conflicts, diagnostics, ready, applied_change_ids: applied })
}

// ---------------------------------------------------------------------------
// Laws of rendering.

/// With no decisions the candidate is the target as it is, applying nothing.
pub proof fn lemma_no_decisions_keep_target(m: Snapshots)
    ensures
        render_plan(m, Seq::empty()) == Ok::<Outcome, Failure>(Outcome::Candidate(m.target.bytes@, Seq::empty())),
{
    let ds = Seq::<Decision>::empty();
    assert(file_choice(ds) is None);
    assert(plan_upto(m, ds, 0) == Ok::<Plan, Failure>(Plan { conflicts: Seq::empty(), patches: Seq::empty() }));
    let sorted = crate::decisions::sort_recs(Seq::<PatchRec>::empty());
    assert(sorted == Seq::<PatchRec>::empty());
    assert(crate::decisions::overlaps(sorted, 0) == Seq::<ConflictView>::empty());
    assert(crate::decisions::stitched(m.target.bytes@, sorted, 0, encode_utf8(m.target.newline@)) == Seq::<u8>::empty());
    assert(m.target.bytes@.subrange(0, m.target.bytes@.len() as int) == m.target.bytes@);
    assert(crate::decisions::patch_ids(sorted) =~= Seq::<Seq<char>>::empty());
    assert(Seq::<ConflictView>::empty() + Seq::<ConflictView>::empty() =~= Seq::<ConflictView>::empty());
}

/// A lone whole-file choice of source, target or base takes that snapshot
/// as given (before any alias renamed its keys), applying `$file`.
pub proof fn lemma_whole_file_choice(m: Snapshots, d: Decision)
    requires
        d.change_id@ == "$file"@,
        d.resolution is Source || d.resolution is Target || d.resolution is Base,
    ensures
        render_plan(m, seq![d]) == Ok::<Outcome, Failure>(
            Outcome::Candidate(
                match d.resolution {
                    Resolution::Source => original_or(m.original_source, m.source).bytes@,
                    Resolution::Base => original_or(m.original_base, m.base).bytes@,
                    _ => m.target.bytes@,
                },
                seq!["$file"@],
            ),
        ),
{
    let ds = seq![d];
    assert(ds.drop_last() =~= Seq::<Decision>::empty());
    assert(file_choice(ds.drop_last()) is None);
    assert(file_choice(ds) == Some(0int));
    assert(!exists|j: int| 0 <= j < ds.len() && (#[trigger] ds[j]).change_id@ != "$file"@ && active(ds[j].resolution));
}

/// A decision that changes nothing: one that is excluded or deferred, on
/// a known change, a whole object or the file.
pub open spec fn idle(m: Snapshots, d: Decision) -> bool {
    &&& !active(d.resolution)
    &&& (d.change_id@ == "$file"@ || starts_with(d.change_id@, "$object:"@) || (!starts_with(d.change_id@, "$field:"@)
        && last_change(m.changes, d.change_id@) is Some))
}

/// Decisions that exclude or defer distinct known changes, objects or the
/// file leave the target as it is.
pub proof fn lemma_idle_decisions_keep_target(m: Snapshots, ds: Seq<Decision>)
    requires
        forall|i: int| 0 <= i < ds.len() ==> idle(m, #[trigger] ds[i]),
        forall|i: int, j: int| 0 <= i < j < ds.len() ==> (#[trigger] ds[i]).change_id@ != (#[trigger] ds[j]).change_id@,
    ensures
        render_plan(m, ds) == Ok::<Outcome, Failure>(Outcome::Candidate(m.target.bytes@, Seq::empty())),
{
    lemma_no_file_choice(ds);
    lemma_idle_plan(m, ds, ds.len());
    let sorted = crate::decisions::sort_recs(Seq::<PatchRec>::empty());
    assert(sorted == Seq::<PatchRec>::empty());
    assert(crate::decisions::overlaps(sorted, 0) == Seq::<ConflictView>::empty());
    assert(crate::decisions::stitched(m.target.bytes@, sorted, 0, encode_utf8(m.target.newline@)) == Seq::<u8>::empty());
    assert(m.target.bytes@.subrange(0, m.target.bytes@.len() as int) == m.target.bytes@);
    assert(crate::decisions::patch_ids(sorted) =~= Seq::<Seq<char>>::empty());
    assert(Seq::<ConflictView>::empty() + Seq::<ConflictView>::empty() =~= Seq::<ConflictView>::empty());
}

proof fn lemma_no_file_choice(ds: Seq<Decision>)
    requires
        forall|i: int| 0 <= i < ds.len() ==> !active((#[trigger] ds[i]).resolution),
    ensures
        file_choice(ds) is None,
    decreases ds.len(),
{
    if ds.len() > 0 {
        assert forall|i: int| 0 <= i < ds.drop_last().len() implies !active((#[trigger] ds.drop_last()[i]).resolution) by {
            assert(ds.drop_last()[i] == ds[i]);
        }
        lemma_no_file_choice(ds.drop_last());
        assert(!active(ds[ds.len() - 1].resolution));
    }
}

proof fn lemma_idle_plan(m: Snapshots, ds: Seq<Decision>, k: nat)
    requires
        k <= ds.len(),
        forall|i: int| 0 <= i < ds.len() ==> idle(m, #[trigger] ds[i]),
        forall|i: int, j: int| 0 <= i < j < ds.len() ==> (#[trigger] ds[i]).change_id@ != (#[trigger] ds[j]).change_id@,
    ensures
        plan_upto(m, ds, k) == Ok::<Plan, Failure>(Plan { conflicts: Seq::empty(), patches: Seq::empty() }),
    decreases k,
{
    if k > 0 {
        lemma_idle_plan(m, ds, (k - 1) as nat);
        let d = ds[k - 1];
        let done = ds.take(k - 1);
        assert(idle(m, d));
        assert(!exists|j: int| 0 <= j < done.len() && (#[trigger] done[j]).change_id@ == d.change_id@) by {
            if exists|j: int| 0 <= j < done.len() && (#[trigger] done[j]).change_id@ == d.change_id@ {
                let j = choose|j: int| 0 <= j < done.len() && (#[trigger] done[j]).change_id@ == d.change_id@;
                assert(done[j] == ds[j]);
            }
        }
        reveal_strlit("$file");
        reveal_strlit("$field:");
        reveal_strlit("$object:");
        if d.change_id@ == "$file"@ {
        } else if starts_with(d.change_id@, "$field:"@) {
            assert(d.change_id@.take(7) == "$field:"@);
            if starts_with(d.change_id@, "$object:"@) {
                assert(d.change_id@.take(8)[1] == d.change_id@.take(7)[1]);
            }
        } else if starts_with(d.change_id@, "$object:"@) {
        } else {
            let i = last_change(m.changes, d.change_id@).unwrap();
        }
    }
}

proof fn lemma_field_patch_within(m: Snapshots, oid: Seq<char>, path: Seq<char>, d: Decision)
    requires
        snapshots_wf(m),
    ensures
        field_patch(m, oid, path, d) matches Ok(p) ==> p.span.within(m.target.bytes@.len() as int),
{
    crate::aliases::lemma_point_at_within(m.target, oid, path);
    match split_pointer_spec(path) {
        Ok(split) => crate::aliases::lemma_point_at_within(m.target, oid, split.0),
        Err(_) => {},
    }
}

proof fn lemma_object_patch_within(m: Snapshots, oid: Seq<char>, d: Decision)
    requires
        snapshots_wf(m),
    ensures
        object_patch(m, oid, d) matches Ok(p) ==> p.span.within(m.target.bytes@.len() as int),
{
    crate::asset::lemma_last_document(m.target.documents@, oid);
    match crate::asset::last_document(m.target.documents@, oid) {
        Some(k) => assert(crate::asset::document_wf(m.target.documents@[k], m.target.bytes@)),
        None => {},
    }
}

/// Every patch a plan makes lies in the target.
pub proof fn lemma_plan_within(m: Snapshots, all: Seq<Decision>, k: nat)
    requires
        snapshots_wf(m),
        k <= all.len(),
    ensures
        plan_upto(m, all, k) matches Ok(p) ==> crate::decisions::recs_within(p.patches, m.target.bytes@.len() as int),
    decreases k,
{
    if k > 0 {
        lemma_plan_within(m, all, (k - 1) as nat);
        match plan_upto(m, all, (k - 1) as nat) {
            Ok(prev) => {
                let d = all[k - 1];
                let id = d.change_id@;
                let tl = m.target.bytes@.len() as int;
                match json_string_pair(id.skip(7)) {
                    Ok(pair) => lemma_field_patch_within(m, pair.0, pair.1, d),
                    Err(_) => {},
                }
                lemma_object_patch_within(m, id.skip(8), d);
                match last_change(m.changes, id) {
                    Some(i) => {
                        lemma_last_change(m.changes, id);
                        assert(stored_in(m.stored[i], m.base.bytes@.len() as int, tl, m.source.bytes@.len() as int));
                    },
                    None => {},
                }
                match plan_upto(m, all, k) {
                    Ok(next) => {
                        assert forall|j: int| 0 <= j < next.patches.len() implies (#[trigger] next.patches[j]).span.within(tl) by {
                            if j < prev.patches.len() {
                                assert(next.patches.len() == prev.patches.len() || next.patches.len() == prev.patches.len() + 1);
                                if next.patches.len() == prev.patches.len() + 1 {
                                    assert(next.patches == prev.patches.push(next.patches.last()));
                                }
                                assert(next.patches[j] == prev.patches[j]);
                            }
                        }
                    },
                    Err(_) => {},
                }
            },
            Err(_) => {},
        }
    }
}

proof fn lemma_last_change(cs: Seq<ChangeView>, id: Seq<char>)
    ensures
        last_change(cs, id) matches Some(i) ==> 0 <= i < cs.len(),
    decreases cs.len(),
{
    if cs.len() > 0 && cs.last().id != id {
        lemma_last_change(cs.drop_last(), id);
    }
}

/// Target bytes that no chosen replacement touches come through unchanged:
/// when the decisions make a candidate, a range of the target that lies
/// wholly before or after each of their patches appears in it.
pub proof fn lemma_untouched_target_kept(m: Snapshots, ds: Seq<Decision>, a: int, b: int)
    requires
        snapshots_wf(m),
        0 <= a < b <= m.target.bytes@.len(),
        whole_file(m, ds) is None,
        plan_upto(m, ds, ds.len()) matches Ok(p) && forall|k: int|
            0 <= k < p.patches.len() ==> (#[trigger] p.patches[k]).span.end <= a || p.patches[k].span.start >= b,
    ensures
        render_plan(m, ds) matches Ok(Outcome::Candidate(bytes, _)) ==> exists|o: int|
            0 <= o && o + (b - a) <= bytes.len() && (#[trigger] bytes.subrange(o, o + (b - a))) == m.target.bytes@.subrange(a, b),
{
    let p = plan_upto(m, ds, ds.len())->Ok_0;
    let sorted = crate::decisions::sort_recs(p.patches);
    crate::decisions::lemma_sorted_from(p.patches);
    lemma_plan_within(m, ds, ds.len());
    assert forall|k: int| 0 <= k < sorted.len() implies (#[trigger] sorted[k]).span.within(m.target.bytes@.len() as int) by {
        let w = choose|w: int| 0 <= w < p.patches.len() && p.patches[w] == sorted[k];
        assert(p.patches[w].span.within(m.target.bytes@.len() as int));
    }
    assert forall|k: int| 0 <= k < sorted.len() implies (#[trigger] sorted[k]).span.end <= a || sorted[k].span.start >= b by {
        let w = choose|w: int| 0 <= w < p.patches.len() && p.patches[w] == sorted[k];
        assert(p.patches[w].span.end <= a || p.patches[w].span.start >= b);
    }
    let nl = encode_utf8(m.target.newline@);
    crate::decisions::lemma_untouched_range_kept(m.target.bytes@, sorted, nl, a, b);
    let out = crate::decisions::applied(m.target.bytes@, sorted, nl);
    let o = choose|o: int| 0 <= o && o + (b - a) <= out.len() && (#[trigger] out.subrange(o, o + (b - a))) == m.target.bytes@.subrange(a, b);
    match render_plan(m, ds) {
        Ok(Outcome::Candidate(bytes, _)) => {
            assert(bytes == out);
            assert(bytes.subrange(o, o + (b - a)) == m.target.bytes@.subrange(a, b));
        },
        _ => {},
    }
}

} // verus!
