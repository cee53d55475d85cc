//! Merge decisions, their outcome, and how chosen replacements of target
//! spans are ordered, checked for overlap and applied.
use vstd::prelude::*;

use crate::json::JsonValue;
use crate::syntax::{Diagnostic, Span};

verus! {

/// What to do with a change, an object, a field or the whole file.
#[derive(Debug)]
pub enum Resolution {
    /// Apply the source delta only if the three-way rule proves it
    /// unambiguous.
    Include,
    Source,
    Target,
    Base,
    /// Delete an object or a complete block-mapping entry. Deleting a flow
    /// entry requires selecting the enclosing mapping.
    Delete,
    /// A JSON scalar, array or map; strings are written as JSON literals,
    /// never as raw YAML.
    SetValue { value: JsonValue },
    Exclude,
    Defer,
}

/// A resolution for one change ID, or for the `$file`, `$object:<id>` or
/// `$field:<json pair>` selectors.
#[derive(Debug)]
pub struct Decision {
    pub change_id: String,
    pub resolution: Resolution,
}

#[derive(Debug, Clone)]
pub struct Conflict {
    pub change_id: String,
    pub object_id: String,
    pub property_path: String,
    pub code: String,
    pub message: String,
}

pub ghost struct ConflictView {
    pub change_id: Seq<char>,
    pub object_id: Seq<char>,
    pub property_path: Seq<char>,
    pub code: Seq<char>,
    pub message: Seq<char>,
}

impl Conflict {
    pub open spec fn view(self) -> ConflictView {
        ConflictView {
            change_id: self.change_id@,
            object_id: self.object_id@,
            property_path: self.property_path@,
            code: self.code@,
            message: self.message@,
        }
    }
}

pub open spec fn conflicts_view(cs: Seq<Conflict>) -> Seq<ConflictView> {
    cs.map_values(|c: Conflict| c.view())
}

/// The rendered file, or the target unchanged with the conflicts that keep
/// it from being ready.
#[derive(Debug, Clone)]
pub struct MergeOutput {
    pub bytes: Vec<u8>,
    pub conflicts: Vec<Conflict>,
    pub diagnostics: Vec<Diagnostic>,
    pub ready: bool,
    pub applied_change_ids: Vec<String>,
}

/// Exclude and Defer leave a change out.
pub open spec fn active(r: Resolution) -> bool {
    !(r is Exclude) && !(r is Defer)
}

pub fn is_active(r: &Resolution) -> (res: bool)
    ensures
        res == active(*r),
{
    match r {
        Resolution::Exclude => false,
        Resolution::Defer => false,
        _ => true,
    }
}

/// A replacement of a span of the target, with the change it carries out.
pub struct Patch {
    pub span: Span,
    pub bytes: Vec<u8>,
    pub id: String,
    pub object_id: String,
    pub path: String,
}

pub ghost struct PatchRec {
    pub span: Span,
    pub bytes: Seq<u8>,
    pub id: Seq<char>,
    pub object_id: Seq<char>,
    pub path: Seq<char>,
}

impl Patch {
    pub open spec fn view(self) -> PatchRec {
        PatchRec { span: self.span, bytes: self.bytes@, id: self.id@, object_id: self.object_id@, path: self.path@ }
    }
}

pub open spec fn recs_view(ps: Seq<Patch>) -> Seq<PatchRec> {
    ps.map_values(|p: Patch| p.view())
}

pub open spec fn recs_within(ps: Seq<PatchRec>, len: int) -> bool {
    forall|k: int| 0 <= k < ps.len() ==> (#[trigger] ps[k]).span.within(len)
}

/// Patches are ordered by span start, then span end.
pub open spec fn patch_before(a: PatchRec, b: PatchRec) -> bool {
    a.span.start < b.span.start || (a.span.start == b.span.start && a.span.end < b.span.end)
}

/// Inserts a patch after every patch that does not order after it.
pub open spec fn insert_rec(sorted: Seq<PatchRec>, p: PatchRec) -> Seq<PatchRec>
    decreases sorted.len(),
{
    if sorted.len() == 0 {
        seq![p]
    } else if patch_before(p, sorted.last()) {
        insert_rec(sorted.drop_last(), p).push(sorted.last())
    } else {
        sorted.push(p)
    }
}

/// The patches ordered by (start, end), equal keys keeping their order.
pub open spec fn sort_recs(ps: Seq<PatchRec>) -> Seq<PatchRec>
    decreases ps.len(),
{
    if ps.len() == 0 {
        Seq::empty()
    } else {
        insert_rec(sort_recs(ps.drop_last()), ps.last())
    }
}

/// The furthest end among the first `k` patches.
pub open spec fn reach(ps: Seq<PatchRec>, k: int) -> usize
    decreases k,
{
    if k <= 0 {
        0
    } else {
        let r = reach(ps, k - 1);
        if ps[k - 1].span.end > r { ps[k - 1].span.end } else { r }
    }
}

pub open spec fn overlap_conflict(p: PatchRec) -> ConflictView {
    ConflictView {
        change_id: p.id,
        object_id: p.object_id,
        property_path: p.path,
        code: "overlapping_patch"@,
        message: "coarse and fine operations overlap; choose one scope or explicitly expand it"@,
    }
}

/// A conflict for each sorted patch that starts before an earlier one ends.
pub open spec fn overlaps(ps: Seq<PatchRec>, k: int) -> Seq<ConflictView>
    decreases k,
{
    if k <= 0 {
        Seq::empty()
    } else if ps[k - 1].span.start < reach(ps, k - 1) {
        overlaps(ps, k - 1).push(overlap_conflict(ps[k - 1]))
    } else {
        overlaps(ps, k - 1)
    }
}

/// The target with the first `k` sorted patches applied, up to the last
/// one's end. An insertion into text that does not end a line starts a new
/// line first.
pub open spec fn stitched(bytes: Seq<u8>, ps: Seq<PatchRec>, k: int, nl: Seq<u8>) -> Seq<u8>
    decreases k,
{
    if k <= 0 {
        Seq::empty()
    } else {
        let before = stitched(bytes, ps, k - 1, nl);
        let cursor = if k == 1 { 0 } else { ps[k - 2].span.end as int };
        let p = ps[k - 1];
        let head = before + bytes.subrange(cursor, p.span.start as int);
        let sep = if p.span.start == p.span.end && p.bytes.len() > 0 && head.len() > 0 && head.last() != 10 {
            nl
        } else {
            Seq::empty()
        };
        head + sep + p.bytes
    }
}

/// The target with all sorted patches applied.
pub open spec fn applied(bytes: Seq<u8>, ps: Seq<PatchRec>, nl: Seq<u8>) -> Seq<u8> {
    let cursor = if ps.len() == 0 { 0 } else { ps.last().span.end as int };
    stitched(bytes, ps, ps.len() as int, nl) + bytes.subrange(cursor, bytes.len() as int)
}

pub open spec fn patch_ids(ps: Seq<PatchRec>) -> Seq<Seq<char>> {
    ps.map_values(|p: PatchRec| p.id)
}

proof fn lemma_insert_rec_at(sorted: Seq<PatchRec>, p: PatchRec, pos: int)
    requires
        0 <= pos <= sorted.len(),
        forall|k: int| pos <= k < sorted.len() ==> patch_before(p, #[trigger] sorted[k]),
        pos > 0 ==> !patch_before(p, sorted[pos - 1]),
    ensures
        insert_rec(sorted, p) == sorted.take(pos).push(p) + sorted.skip(pos),
    decreases sorted.len(),
{
    if sorted.len() == 0 {
        assert(sorted.take(pos).push(p) + sorted.skip(pos) =~= seq![p]);
    } else if pos == sorted.len() {
        assert(sorted.take(pos) == sorted);
        assert(sorted.skip(pos) =~= Seq::<PatchRec>::empty());
        assert(sorted.take(pos).push(p) + sorted.skip(pos) =~= sorted.push(p));
    } else {
        let init = sorted.drop_last();
        assert(patch_before(p, sorted.last()));
        assert forall|k: int| pos <= k < init.len() implies patch_before(p, #[trigger] init[k]) by {
            assert(init[k] == sorted[k]);
        }
        if pos > 0 {
            assert(init[pos - 1] == sorted[pos - 1]);
        }
        lemma_insert_rec_at(init, p, pos);
        assert(init.take(pos) == sorted.take(pos));
        assert(init.skip(pos).push(sorted.last()) =~= sorted.skip(pos));
        assert(init.take(pos).push(p) + init.skip(pos).push(sorted.last()) =~= (init.take(pos).push(p) + init.skip(
            pos,
        )).push(sorted.last()));
    }
}

proof fn lemma_insert_rec_within(sorted: Seq<PatchRec>, p: PatchRec, len: int)
    requires
        recs_within(sorted, len),
        p.span.within(len),
    ensures
        recs_within(insert_rec(sorted, p), len),
        insert_rec(sorted, p).len() == sorted.len() + 1,
    decreases sorted.len(),
{
    if sorted.len() > 0 && patch_before(p, sorted.last()) {
        let init = sorted.drop_last();
        assert forall|k: int| 0 <= k < init.len() implies (#[trigger] init[k]).span.within(len) by {
            assert(init[k] == sorted[k]);
        }
        lemma_insert_rec_within(init, p, len);
        let r = insert_rec(init, p).push(sorted.last());
        assert forall|k: int| 0 <= k < r.len() implies (#[trigger] r[k]).span.within(len) by {
            if k < r.len() - 1 {
                assert(r[k] == insert_rec(init, p)[k]);
            }
        }
    } else {
        let r = if sorted.len() == 0 { seq![p] } else { sorted.push(p) };
        assert forall|k: int| 0 <= k < r.len() implies (#[trigger] r[k]).span.within(len) by {
            if k < sorted.len() {
                assert(r[k] == sorted[k]);
            }
        }
    }
}

fn copy_patch(p: &Patch) -> (res: Patch)
    ensures
        res.view() == p.view(),
{
    Patch {
        span: p.span,
        bytes: crate::asset::to_vec(p.bytes.as_slice()),
        id: p.id.clone(),
        object_id: p.object_id.clone(),
        path: p.path.clone(),
    }
}

/// Orders patches by (start, end), stably.
pub fn sort_patch_list(patches: &Vec<Patch>, len: usize) -> (res: Vec<Patch>)
    requires
        recs_within(recs_view(patches@), len as int),
    ensures
        recs_view(res@) == sort_recs(recs_view(patches@)),
        recs_within(recs_view(res@), len as int),
{
    let ghost input = recs_view(patches@);
    let mut sorted: Vec<Patch> = Vec::new();
    let mut n: usize = 0;
    assert(sort_recs(input.take(0)) =~= Seq::<PatchRec>::empty());
    assert(recs_view(sorted@) =~= Seq::<PatchRec>::empty());
    while n < patches.len()
        invariant
            n <= patches@.len(),
            input == recs_view(patches@),
            recs_within(input, len as int),
            recs_view(sorted@) == sort_recs(input.take(n as int)),
            recs_within(recs_view(sorted@), len as int),
        decreases patches@.len() - n,
    {
        let p = copy_patch(&patches[n]);
        assert(p.view() == input[n as int]);
        let ghost sv = recs_view(sorted@);
        let mut pos = sorted.len();
        while pos > 0 && (p.span.start < sorted[pos - 1].span.start || (p.span.start == sorted[pos - 1].span.start
            && p.span.end < sorted[pos - 1].span.end))
            invariant
                pos <= sorted@.len(),
                sv == recs_view(sorted@),
                forall|k: int| pos <= k < sv.len() ==> patch_before(p.view(), #[trigger] sv[k]),
            decreases pos,
        {
            assert(sv[pos - 1] == sorted@[pos - 1].view());
            pos = pos - 1;
        }
        proof {
            if pos > 0 {
                assert(sv[pos - 1] == sorted@[pos - 1].view());
            }
            lemma_insert_rec_at(sv, p.view(), pos as int);
            assert(input.take(n + 1).drop_last() == input.take(n as int));
            assert(input.take(n + 1).last() == input[n as int]);
            assert(input[n as int].span.within(len as int));
            lemma_insert_rec_within(sv, p.view(), len as int);
        }
        sorted.insert(pos, p);
        assert(recs_view(sorted@) =~= sv.take(pos as int).push(p.view()) + sv.skip(pos as int));
        n = n + 1;
    }
    assert(input.take(n as int) == input);
    sorted
}

/// Conflicts for sorted patches that start before an earlier one ends.
pub fn overlap_conflicts(sorted: &Vec<Patch>) -> (res: Vec<Conflict>)
    ensures
        conflicts_view(res@) == overlaps(recs_view(sorted@), sorted@.len() as int),
{
    let ghost ps = recs_view(sorted@);
    let mut out: Vec<Conflict> = Vec::new();
    let mut end: usize = 0;
    let mut k: usize = 0;
    assert(conflicts_view(out@) =~= Seq::<ConflictView>::empty());
    while k < sorted.len()
        invariant
            k <= sorted@.len(),
            ps == recs_view(sorted@),
            end == reach(ps, k as int),
            conflicts_view(out@) == overlaps(ps, k as int),
        decreases sorted@.len() - k,
    {
        let p = &sorted[k];
        assert(ps[k as int] == p.view());
        if p.span.start < end {
            let c = Conflict {
                change_id: p.id.clone(),
                object_id: p.object_id.clone(),
                property_path: p.path.clone(),
                code: "overlapping_patch".to_owned(),
                message: "coarse and fine operations overlap; choose one scope or explicitly expand it".to_owned(),
            };
            let ghost before = out@;
            out.push(c);
            assert(conflicts_view(out@) =~= conflicts_view(before).push(c.view()));
        }
        if p.span.end > end {
            end = p.span.end;
        }
        k = k + 1;
    }
    out
}

/// Whether the first `k` sorted patches never overlap.
pub open spec fn disjoint_upto(ps: Seq<PatchRec>, k: int) -> bool {
    forall|j: int| 0 <= j < k ==> (#[trigger] ps[j]).span.start >= reach(ps, j)
}

pub proof fn lemma_no_overlap(ps: Seq<PatchRec>, k: int)
    requires
        0 <= k <= ps.len(),
        overlaps(ps, k).len() == 0,
    ensures
        disjoint_upto(ps, k),
    decreases k,
{
    if k > 0 {
        if ps[k - 1].span.start < reach(ps, k - 1) {
            assert(overlaps(ps, k).len() == overlaps(ps, k - 1).len() + 1);
        }
        lemma_no_overlap(ps, k - 1);
    }
}

proof fn lemma_reach_bounds(ps: Seq<PatchRec>, k: int)
    requires
        0 < k <= ps.len(),
    ensures
        reach(ps, k) >= ps[k - 1].span.end,
{
}

fn append(out: &mut Vec<u8>, data: &[u8])
    ensures
        final(out)@ == old(out)@ + data@,
{
    let mut i: usize = 0;
    while i < data.len()
        invariant
            i <= data@.len(),
            out@ == old(out)@ + data@.take(i as int),
        decreases data@.len() - i,
    {
        out.push(data[i]);
        i = i + 1;
        assert(data@.take(i as int) == data@.take(i - 1).push(data@[i - 1]));
    }
    assert(data@.take(data@.len() as int) == data@);
}

/// Applies sorted patches that do not overlap to the target text, and lists
/// their change IDs in order.
pub fn apply_sorted(bytes: &[u8], sorted: Vec<Patch>, newline: &str) -> (res: (Vec<u8>, Vec<String>))
    requires
        recs_within(recs_view(sorted@), bytes@.len() as int),
        disjoint_upto(recs_view(sorted@), sorted@.len() as int),
    ensures
        res.0@ == applied(bytes@, recs_view(sorted@), vstd::utf8::encode_utf8(newline@)),
        crate::changes::texts_view(res.1@) == patch_ids(recs_view(sorted@)),
{
    let ghost ps = recs_view(sorted@);
    let nl = newline.as_bytes();
    let mut out: Vec<u8> = Vec::new();
    let mut ids: Vec<String> = Vec::new();
    let mut cursor: usize = 0;
    let mut k: usize = 0;
    assert(crate::changes::texts_view(ids@) =~= Seq::<Seq<char>>::empty());
    while k < sorted.len()
        invariant
            k <= sorted@.len(),
            ps == recs_view(sorted@),
            recs_within(ps, bytes@.len() as int),
            disjoint_upto(ps, ps.len() as int),
            nl@ == vstd::utf8::encode_utf8(newline@),
            cursor == if k == 0 { 0 } else { ps[k - 1].span.end },
            k > 0 ==> reach(ps, k as int) >= cursor,
            out@ == stitched(bytes@, ps, k as int, nl@),
            crate::changes::texts_view(ids@) == patch_ids(ps).take(k as int),
        decreases sorted@.len() - k,
    {
        let p = &sorted[k];
        assert(ps[k as int] == p.view());
        assert(p.span.within(bytes@.len() as int));
        assert(p.span.start >= reach(ps, k as int));
        append(&mut out, crate::syntax::slice_range(bytes, cursor, p.span.start));
        if p.span.start == p.span.end && p.bytes.len() > 0 && out.len() > 0 && out[out.len() - 1] != 10 {
            append(&mut out, nl);
        }
        append(&mut out, p.bytes.as_slice());
        let ghost before_ids = ids@;
        ids.push(p.id.clone());
        proof {
            lemma_reach_bounds(ps, k + 1);
            assert(crate::changes::texts_view(ids@) =~= crate::changes::texts_view(before_ids).push(p.id@));
            assert(patch_ids(ps).take(k + 1) =~= patch_ids(ps).take(k as int).push(p.id@));
        }
        cursor = p.span.end;
        k = k + 1;
    }
    assert(patch_ids(ps).take(k as int) =~= patch_ids(ps));
    append(&mut out, crate::syntax::slice_range(bytes, cursor, bytes.len()));
    (out, ids)
}

/// Two resolutions alike: the same variant, and for a typed value the same
/// JSON content.
pub open spec fn same_resolution(a: Resolution, b: Resolution) -> bool {
    match a {
        Resolution::SetValue { value } => b matches Resolution::SetValue { value: w } && crate::json::json_same(value, w),
        _ => a == b,
    }
}

impl Resolution {
    /// A copy of the resolution.
    pub fn copied(&self) -> (res: Resolution)
        ensures
            same_resolution(*self, res),
    {
        match self {
            Resolution::Include => Resolution::Include,
            Resolution::Source => Resolution::Source,
            Resolution::Target => Resolution::Target,
            Resolution::Base => Resolution::Base,
            Resolution::Delete => Resolution::Delete,
            Resolution::SetValue { value } => Resolution::SetValue { value: value.copied() },
            Resolution::Exclude => Resolution::Exclude,
            Resolution::Defer => Resolution::Defer,
        }
    }
}

proof fn lemma_stitched_grows(bytes: Seq<u8>, ps: Seq<PatchRec>, j: int, k: int, nl: Seq<u8>)
    requires
        0 <= j <= k,
    ensures
        stitched(bytes, ps, j, nl).len() <= stitched(bytes, ps, k, nl).len(),
        stitched(bytes, ps, k, nl).subrange(0, stitched(bytes, ps, j, nl).len() as int) == stitched(bytes, ps, j, nl),
    decreases k - j,
{
    if j < k {
        lemma_stitched_grows(bytes, ps, j, k - 1, nl);
        let prev = stitched(bytes, ps, k - 1, nl);
        let cur = stitched(bytes, ps, k, nl);
        let small = stitched(bytes, ps, j, nl);
        assert(cur.subrange(0, prev.len() as int) == prev);
        assert(cur.subrange(0, small.len() as int) =~= prev.subrange(0, small.len() as int));
    } else {
        assert(stitched(bytes, ps, k, nl).subrange(0, stitched(bytes, ps, k, nl).len() as int) =~= stitched(bytes, ps, k, nl));
    }
}

/// The index of the first patch, from `k` on, that starts at or after `b`.
spec fn first_from(ps: Seq<PatchRec>, b: int, k: int) -> int
    decreases ps.len() - k,
{
    if k >= ps.len() {
        ps.len() as int
    } else if ps[k].span.start >= b {
        k
    } else {
        first_from(ps, b, k + 1)
    }
}

proof fn lemma_first_from(ps: Seq<PatchRec>, b: int, k: int)
    requires
        0 <= k <= ps.len(),
    ensures
        k <= first_from(ps, b, k) <= ps.len(),
        forall|i: int| k <= i < first_from(ps, b, k) ==> (#[trigger] ps[i]).span.start < b,
        first_from(ps, b, k) < ps.len() ==> ps[first_from(ps, b, k)].span.start >= b,
    decreases ps.len() - k,
{
    if k < ps.len() && ps[k].span.start < b {
        lemma_first_from(ps, b, k + 1);
    }
}

/// Replacing sorted, non-overlapping patches keeps every target byte that
/// no patch touches: a range of the target that lies wholly before or
/// after each patch appears unchanged in the result.
pub proof fn lemma_untouched_range_kept(t: Seq<u8>, ps: Seq<PatchRec>, nl: Seq<u8>, a: int, b: int)
    requires
        0 <= a < b <= t.len(),
        recs_within(ps, t.len() as int),
        forall|k: int| 0 <= k < ps.len() ==> (#[trigger] ps[k]).span.end <= a || ps[k].span.start >= b,
    ensures
        exists|o: int|
            0 <= o && o + (b - a) <= applied(t, ps, nl).len() && (#[trigger] applied(t, ps, nl).subrange(o, o + (b - a)))
                == t.subrange(a, b),
{
    let n = ps.len() as int;
    lemma_first_from(ps, b, 0);
    let j = first_from(ps, b, 0);
    assert forall|i: int| 0 <= i < j implies (#[trigger] ps[i]).span.end <= a by {
        assert(ps[i].span.start < b);
    }
    let cursor: int = if j == 0 { 0 } else { ps[j - 1].span.end as int };
    assert(cursor <= a);
    let out = applied(t, ps, nl);
    if j < n {
        let p = ps[j];
        assert(p.span.start >= b);
        assert(p.span.within(t.len() as int));
        let before = stitched(t, ps, j, nl);
        let mid = stitched(t, ps, j + 1, nl);
        let o = before.len() + (a - cursor);
        assert(mid.subrange(o, o + (b - a)) =~= t.subrange(a, b));
        lemma_stitched_grows(t, ps, j + 1, n, nl);
        let full = stitched(t, ps, n, nl);
        assert(full.subrange(0, mid.len() as int) == mid);
        assert(out.subrange(o, o + (b - a)) =~= full.subrange(0, mid.len() as int).subrange(o, o + (b - a)));
    } else {
        let full = stitched(t, ps, n, nl);
        let o = full.len() + (a - cursor);
        if n > 0 {
            assert(ps[n - 1].span.end <= a);
        }
        assert(out.subrange(o, o + (b - a)) =~= t.subrange(a, b));
    }
}

proof fn lemma_insert_rec_from(sorted: Seq<PatchRec>, p: PatchRec)
    ensures
        forall|k: int|
            0 <= k < insert_rec(sorted, p).len() ==> (#[trigger] insert_rec(sorted, p)[k] == p || sorted.contains(
                insert_rec(sorted, p)[k],
            )),
    decreases sorted.len(),
{
    if sorted.len() > 0 && patch_before(p, sorted.last()) {
        let init = sorted.drop_last();
        lemma_insert_rec_from(init, p);
        let r = insert_rec(sorted, p);
        assert forall|k: int| 0 <= k < r.len() implies (#[trigger] r[k] == p || sorted.contains(r[k])) by {
            if k < r.len() - 1 {
                assert(r[k] == insert_rec(init, p)[k]);
                if r[k] != p {
                    let w = choose|w: int| 0 <= w < init.len() && init[w] == r[k];
                    assert(sorted[w] == r[k]);
                }
            } else {
                assert(r[k] == sorted[sorted.len() - 1]);
            }
        }
    } else {
        let r = insert_rec(sorted, p);
        assert forall|k: int| 0 <= k < r.len() implies (#[trigger] r[k] == p || sorted.contains(r[k])) by {
            if k < sorted.len() {
                assert(r[k] == sorted[k]);
            }
        }
    }
}

/// Every patch of the sorted list is one of the given patches.
pub proof fn lemma_sorted_from(ps: Seq<PatchRec>)
    ensures
        forall|k: int| 0 <= k < sort_recs(ps).len() ==> ps.contains(#[trigger] sort_recs(ps)[k]),
    decreases ps.len(),
{
    if ps.len() > 0 {
        let init = ps.drop_last();
        lemma_sorted_from(init);
        lemma_insert_rec_from(sort_recs(init), ps.last());
        let r = sort_recs(ps);
        assert forall|k: int| 0 <= k < r.len() implies ps.contains(#[trigger] r[k]) by {
            if r[k] == ps.last() {
                assert(ps[ps.len() - 1] == r[k]);
            } else {
                let w = choose|w: int| 0 <= w < sort_recs(init).len() && sort_recs(init)[w] == r[k];
                let v = choose|v: int| 0 <= v < init.len() && init[v] == sort_recs(init)[w];
                assert(ps[v] == r[k]);
            }
        }
    }
}

} // verus!
