//! Rewriting a text by replacing byte spans, keeping every byte outside them.
use vstd::prelude::*;

use crate::syntax::{CoreError, Span};

verus! {

/// A patch as a mathematical value: the span it replaces and its bytes.
pub type PatchView = (Span, Seq<u8>);

pub open spec fn patches_view(ps: Seq<(Span, Vec<u8>)>) -> Seq<PatchView> {
    ps.map_values(|p: (Span, Vec<u8>)| (p.0, p.1@))
}

/// Inserts a patch after every patch that starts no later than it.
pub open spec fn insert_patch(sorted: Seq<PatchView>, p: PatchView) -> Seq<PatchView>
    decreases sorted.len(),
{
    if sorted.len() == 0 {
        seq![p]
    } else if p.0.start < sorted.last().0.start {
        insert_patch(sorted.drop_last(), p).push(sorted.last())
    } else {
        sorted.push(p)
    }
}

/// The patches in order of their start; patches with equal starts keep
/// their given order.
pub open spec fn sort_patches(ps: Seq<PatchView>) -> Seq<PatchView>
    decreases ps.len(),
{
    if ps.len() == 0 {
        Seq::empty()
    } else {
        insert_patch(sort_patches(ps.drop_last()), ps.last())
    }
}

/// The text from `cursor` on with the sorted patches applied, or the start
/// of the first patch that begins before the previous one ended.
pub open spec fn splice(bytes: Seq<u8>, sorted: Seq<PatchView>, cursor: int) -> Result<Seq<u8>, usize>
    decreases sorted.len(),
{
    if sorted.len() == 0 {
        Ok(bytes.subrange(cursor, bytes.len() as int))
    } else {
        let p = sorted[0];
        if p.0.start < cursor {
            Err(p.0.start)
        } else {
            match splice(bytes, sorted.drop_first(), p.0.end as int) {
                Ok(rest) => Ok(bytes.subrange(cursor, p.0.start as int) + p.1 + rest),
                Err(at) => Err(at),
            }
        }
    }
}

pub open spec fn spans_within(ps: Seq<PatchView>, len: int) -> bool {
    forall|k: int| 0 <= k < ps.len() ==> (#[trigger] ps[k]).0.within(len)
}

proof fn lemma_insert_at(sorted: Seq<PatchView>, p: PatchView, pos: int)
    requires
        0 <= pos <= sorted.len(),
        forall|k: int| pos <= k < sorted.len() ==> p.0.start < (#[trigger] sorted[k]).0.start,
        pos > 0 ==> sorted[pos - 1].0.start <= p.0.start,
    ensures
        insert_patch(sorted, p) == sorted.take(pos).push(p) + sorted.skip(pos),
    decreases sorted.len(),
{
    if sorted.len() == 0 {
        assert(sorted.take(pos).push(p) + sorted.skip(pos) =~= seq![p]);
    } else if pos == sorted.len() {
        assert(sorted.take(pos) == sorted);
        assert(sorted.skip(pos) =~= Seq::<PatchView>::empty());
        assert(sorted.take(pos).push(p) + sorted.skip(pos) =~= sorted.push(p));
    } else {
        let init = sorted.drop_last();
        assert(p.0.start < sorted.last().0.start);
        assert forall|k: int| pos <= k < init.len() implies p.0.start < (#[trigger] init[k]).0.start by {
            assert(init[k] == sorted[k]);
        }
        if pos > 0 {
            assert(init[pos - 1] == sorted[pos - 1]);
        }
        lemma_insert_at(init, p, pos);
        assert(insert_patch(sorted, p) == insert_patch(init, p).push(sorted.last()));
        assert(init.take(pos) == sorted.take(pos));
        assert(init.skip(pos).push(sorted.last()) =~= sorted.skip(pos));
        assert(init.take(pos).push(p) + init.skip(pos).push(sorted.last()) =~= (init.take(pos).push(p) + init.skip(pos)).push(sorted.last()));
    }
}

proof fn lemma_insert_keeps(sorted: Seq<PatchView>, p: PatchView, len: int)
    requires
        spans_within(sorted, len),
        p.0.within(len),
    ensures
        spans_within(insert_patch(sorted, p), len),
        insert_patch(sorted, p).len() == sorted.len() + 1,
    decreases sorted.len(),
{
    if sorted.len() > 0 && p.0.start < sorted.last().0.start {
        let init = sorted.drop_last();
        assert forall|k: int| 0 <= k < init.len() implies (#[trigger] init[k]).0.within(len) by {
            assert(init[k] == sorted[k]);
        }
        lemma_insert_keeps(init, p, len);
        let r = insert_patch(init, p).push(sorted.last());
        assert forall|k: int| 0 <= k < r.len() implies (#[trigger] r[k]).0.within(len) by {
            if k < r.len() - 1 {
                assert(r[k] == insert_patch(init, p)[k]);
            }
        }
    } else {
        let r = if sorted.len() == 0 { seq![p] } else { sorted.push(p) };
        assert forall|k: int| 0 <= k < r.len() implies (#[trigger] r[k]).0.within(len) by {
            if k < sorted.len() {
                assert(r[k] == sorted[k]);
            }
        }
    }
}

/// Orders patches by start, stably.
fn sorted_patches(patches: Vec<(Span, Vec<u8>)>, len: usize) -> (res: Vec<(Span, Vec<u8>)>)
    requires
        spans_within(patches_view(patches@), len as int),
    ensures
        patches_view(res@) == sort_patches(patches_view(patches@)),
        spans_within(patches_view(res@), len as int),
{
    let ghost input = patches_view(patches@);
    assert(patches@.len() == patches.len());
    let mut rest = patches;
    let mut taken: Vec<(Span, Vec<u8>)> = Vec::new();
    while rest.len() > 0
        invariant
            input.len() == rest@.len() + taken@.len(),
            input.len() <= usize::MAX,
            patches_view(rest@) == input.take(rest@.len() as int),
            forall|k: int| 0 <= k < taken@.len() ==> (#[trigger] taken@[k]).0 == input[input.len() - 1 - k].0
                && taken@[k].1@ == input[input.len() - 1 - k].1,
        decreases rest@.len(),
    {
        let ghost before = patches_view(rest@);
        let p = rest.pop().unwrap();
        assert(patches_view(rest@) =~= before.drop_last());
        assert(before[before.len() - 1] == (p.0, p.1@));
        taken.push(p);
    }
    let mut sorted: Vec<(Span, Vec<u8>)> = Vec::new();
    let mut n: usize = 0;
    assert(sort_patches(input.take(0)) =~= Seq::<PatchView>::empty());
    while taken.len() > 0
        invariant
            input.len() == n + taken@.len(),
            input.len() <= usize::MAX,
            spans_within(input, len as int),
            forall|k: int| 0 <= k < taken@.len() ==> (#[trigger] taken@[k]).0 == input[input.len() - 1 - k].0
                && taken@[k].1@ == input[input.len() - 1 - k].1,
            patches_view(sorted@) == sort_patches(input.take(n as int)),
            spans_within(patches_view(sorted@), len as int),
        decreases taken@.len(),
    {
        let ghost last = taken@.len() - 1;
        assert(taken@[last].0 == input[n as int].0 && taken@[last].1@ == input[n as int].1);
        let p = taken.pop().unwrap();
        assert((p.0, p.1@) == input[n as int]);
        let ghost sv = patches_view(sorted@);
        let mut pos = sorted.len();
        while pos > 0 && p.0.start < sorted[pos - 1].0.start
            invariant
                pos <= sorted@.len(),
                sv == patches_view(sorted@),
                forall|k: int| pos <= k < sv.len() ==> p.0.start < (#[trigger] sv[k]).0.start,
            decreases pos,
        {
            assert(sv[pos - 1] == (sorted@[pos - 1].0, sorted@[pos - 1].1@));
            pos = pos - 1;
        }
        proof {
            if pos > 0 {
                assert(sv[pos - 1] == (sorted@[pos - 1].0, sorted@[pos - 1].1@));
            }
            lemma_insert_at(sv, (p.0, p.1@), pos as int);
            assert(input.take(n + 1).drop_last() == input.take(n as int));
            assert(input.take(n + 1).last() == input[n as int]);
            assert(input[n as int].0.within(len as int));
            lemma_insert_keeps(sv, (p.0, p.1@), len as int);
        }
        sorted.insert(pos, p);
        assert(patches_view(sorted@) =~= sv.take(pos as int).push((p.0, p.1@)) + sv.skip(pos as int));
        n = n + 1;
    }
    assert(input.take(n as int) == input);
    sorted
}

fn append(out: &mut Vec<u8>, data: &[u8])
    ensures
        final(out)@ == old(out)@ + data@,
{
    let mut i: usize = 0;
    while i < data.len()
        invariant
            i <= data@.len(),
            out@ == old(out)@ + data@.take(i as int),
        decreases data@.len() - i,
    {
        out.push(data[i]);
        i = i + 1;
        assert(data@.take(i as int) == data@.take(i - 1).push(data@[i - 1]));
    }
    assert(data@.take(data@.len() as int) == data@);
}

proof fn lemma_splice_step(bytes: Seq<u8>, sorted: Seq<PatchView>, k: int, cursor: int)
    requires
        0 <= k < sorted.len(),
        sorted[k].0.start >= cursor,
    ensures
        splice(bytes, sorted.skip(k), cursor) == match splice(bytes, sorted.skip(k + 1), sorted[k].0.end as int) {
            Ok(rest) => Ok(bytes.subrange(cursor, sorted[k].0.start as int) + sorted[k].1 + rest),
            Err(at) => Err(at),
        },
{
    assert(sorted.skip(k)[0] == sorted[k]);
    assert(sorted.skip(k).drop_first() == sorted.skip(k + 1));
}

/// Replaces each patch's span with its bytes, in order of the spans'
/// starts (stably). Gives the start of the first patch that begins before
/// the previous one ended, if one does.
pub(crate) fn apply_patches(bytes: &[u8], patches: Vec<(Span, Vec<u8>)>) -> (res: Result<Vec<u8>, usize>)
    requires
        spans_within(patches_view(patches@), bytes@.len() as int),
    ensures
        splice(bytes@, sort_patches(patches_view(patches@)), 0) matches Ok(out) ==> res matches Ok(v) && v@ == out,
        splice(bytes@, sort_patches(patches_view(patches@)), 0) matches Err(at) ==> res == Err::<Vec<u8>, usize>(at),
{
    let sorted = sorted_patches(patches, bytes.len());
    let ghost sv = patches_view(sorted@);
    let mut output: Vec<u8> = Vec::new();
    let mut cursor: usize = 0;
    let mut k: usize = 0;
    assert(sv.skip(0) == sv);
    while k < sorted.len()
        invariant
            k <= sorted@.len(),
            sv == patches_view(sorted@),
            sv == sort_patches(patches_view(patches@)),
            spans_within(sv, bytes@.len() as int),
            cursor <= bytes@.len(),
            splice(bytes@, sv, 0) == match splice(bytes@, sv.skip(k as int), cursor as int) {
                Ok(rest) => Ok(output@ + rest),
                Err(at) => Err::<Seq<u8>, usize>(at),
            },
        decreases sorted@.len() - k,
    {
        let span = sorted[k].0;
        assert(sv[k as int] == (span, sorted@[k as int].1@));
        assert(sv[k as int].0.within(bytes@.len() as int));
        if span.start < cursor {
            proof {
                assert(sv.skip(k as int)[0] == sv[k as int]);
            }
            return Err(span.start);
        }
        proof { lemma_splice_step(bytes@, sv, k as int, cursor as int); }
        let ghost before = output@;
        append(&mut output, crate::syntax::slice_range(bytes, cursor, span.start));
        append(&mut output, sorted[k].1.as_slice());
        proof {
            match splice(bytes@, sv.skip(k + 1), span.end as int) {
                Ok(rest) => {
                    assert(before + (bytes@.subrange(cursor as int, span.start as int) + sv[k as int].1 + rest) =~= output@ + rest);
                },
                Err(_) => {},
            }
        }
        cursor = span.end;
        k = k + 1;
    }
    assert(sv.skip(k as int) =~= Seq::<PatchView>::empty());
    append(&mut output, crate::syntax::slice_range(bytes, cursor, bytes.len()));
    Ok(output)
}

/// Replaces each patch's span with its bytes. Patches are applied in order
/// of their start (stably); a patch that starts before the previous one
/// ended is refused.
pub fn replace_spans(bytes: &[u8], patches: Vec<(Span, Vec<u8>)>) -> (res: Result<Vec<u8>, CoreError>)
    requires
        spans_within(patches_view(patches@), bytes@.len() as int),
    ensures
        splice(bytes@, sort_patches(patches_view(patches@)), 0) matches Ok(out) ==> res matches Ok(v) && v@ == out,
        splice(bytes@, sort_patches(patches_view(patches@)), 0) matches Err(at) ==> res matches Err(e) && e.code@
            == "overlapping_patch"@ && e.message@ == "compact array spans overlap"@ && e.offset == at,
{
    match apply_patches(bytes, patches) {
        Ok(v) => Ok(v),
        Err(at) => Err(CoreError::new("overlapping_patch", "compact array spans overlap", at)),
    }
}

/// With no patches the text is unchanged.
pub proof fn lemma_no_patches_keep_text(bytes: Seq<u8>)
    ensures
        splice(bytes, sort_patches(Seq::empty()), 0) == Ok::<Seq<u8>, usize>(bytes),
{
    assert(bytes.subrange(0, bytes.len() as int) == bytes);
}

/// One patch keeps the text before and after its span and puts its bytes
/// in between.
pub proof fn lemma_one_patch(bytes: Seq<u8>, p: PatchView)
    requires
        p.0.within(bytes.len() as int),
    ensures
        splice(bytes, sort_patches(seq![p]), 0) == Ok::<Seq<u8>, usize>(
            bytes.subrange(0, p.0.start as int) + p.1 + bytes.subrange(p.0.end as int, bytes.len() as int),
        ),
{
    assert(seq![p].drop_last() =~= Seq::<PatchView>::empty());
    assert(sort_patches(Seq::<PatchView>::empty()) == Seq::<PatchView>::empty());
    assert(insert_patch(Seq::<PatchView>::empty(), p) == seq![p]);
    assert(sort_patches(seq![p]) == insert_patch(sort_patches(seq![p].drop_last()), seq![p].last()));
    assert(sort_patches(seq![p]) == seq![p]);
    assert(seq![p].drop_first() =~= Seq::<PatchView>::empty());
    assert(splice(bytes, seq![p].drop_first(), p.0.end as int) == Ok::<Seq<u8>, usize>(bytes.subrange(p.0.end as int, bytes.len() as int)));
    assert(seq![p][0] == p);
}

} // verus!
