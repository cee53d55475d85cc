//! The physical line table of a Unity YAML text.
use vstd::prelude::*;

use crate::lexer::line_feed_or_end;

verus! {

/// One physical line: `start..end` is its content without the line break,
/// `start..full_end` includes the break, and `indent` counts leading spaces.
#[derive(Debug, Clone, Copy, PartialEq, Eq, Structural)]
pub struct Line {
    pub start: usize,
    pub end: usize,
    pub full_end: usize,
    pub indent: usize,
}

/// The number of consecutive spaces at `start` before `end`.
pub open spec fn leading_spaces(bytes: Seq<u8>, start: int, end: int) -> nat
    decreases end - start,
{
    if start < end && bytes[start] == 0x20 {
        1 + leading_spaces(bytes, start + 1, end)
    } else {
        0
    }
}

/// The line that begins at `start`: it runs to the next line feed (or the end
/// of the text), and a carriage return before the line feed is not content.
pub open spec fn line_at(bytes: Seq<u8>, start: int) -> Line {
    let len = bytes.len() as int;
    let nl = line_feed_or_end(bytes, start, len);
    let full_end = if nl < len { nl + 1 } else { len };
    let end = if nl > start && bytes[nl - 1] == 0x0d { nl - 1 } else { nl };
    Line {
        start: start as usize,
        end: end as usize,
        full_end: full_end as usize,
        indent: leading_spaces(bytes, start, end) as usize,
    }
}

/// The lines from `start` to the end of the text, in order.
pub open spec fn lines_from(bytes: Seq<u8>, start: int) -> Seq<Line>
    decreases bytes.len() - start,
{
    if start < 0 || start >= bytes.len() || bytes.len() > usize::MAX {
        Seq::empty()
    } else {
        proof { lemma_line_at(bytes, start); }
        seq![line_at(bytes, start)] + lines_from(bytes, line_at(bytes, start).full_end as int)
    }
}

/// The offset of the first tab that follows a line's indentation, if any line
/// from `start` on has one.
pub open spec fn indentation_tab(bytes: Seq<u8>, start: int) -> Option<int>
    decreases bytes.len() - start,
{
    if start < 0 || start >= bytes.len() || bytes.len() > usize::MAX {
        None
    } else {
        proof { lemma_line_at(bytes, start); }
        let l = line_at(bytes, start);
        if l.start + l.indent < l.end && bytes[l.start + l.indent] == 0x09 {
            Some(l.start + l.indent)
        } else {
            indentation_tab(bytes, l.full_end as int)
        }
    }
}

/// The length of a leading UTF-8 byte order mark, if there is one.
pub open spec fn bom_len(bytes: Seq<u8>) -> int {
    if bytes.len() >= 3 && bytes[0] == 0xef && bytes[1] == 0xbb && bytes[2] == 0xbf {
        3
    } else {
        0
    }
}

/// The line table: lines partition the text after any byte order mark.
pub open spec fn line_table(bytes: Seq<u8>) -> Seq<Line> {
    lines_from(bytes, bom_len(bytes))
}

pub open spec fn line_wf(l: Line, len: int) -> bool {
    &&& l.start <= l.end <= l.full_end <= len
    &&& l.start < l.full_end
    &&& l.start + l.indent <= l.end
}

/// Lines are well formed and each begins where the previous one ends.
pub open spec fn lines_wf(lines: Seq<Line>, len: int) -> bool {
    &&& forall|k: int| 0 <= k < lines.len() ==> line_wf(#[trigger] lines[k], len)
    &&& forall|k: int| 0 <= k < lines.len() - 1 ==> (#[trigger] lines[k]).full_end == lines[k + 1].start
    &&& lines.len() > 0 ==> lines.last().full_end == len
}

proof fn lemma_leading_spaces(bytes: Seq<u8>, start: int, end: int)
    ensures
        start <= end ==> start + leading_spaces(bytes, start, end) <= end,
        forall|k: int| start <= k < start + leading_spaces(bytes, start, end) ==> bytes[k] == 0x20,
        start + leading_spaces(bytes, start, end) < end ==> bytes[start + leading_spaces(
            bytes,
            start,
            end,
        )] != 0x20,
    decreases end - start,
{
    if start < end && bytes[start] == 0x20 {
        lemma_leading_spaces(bytes, start + 1, end);
    }
}

proof fn lemma_lfe(bytes: Seq<u8>, pos: int, end: int)
    ensures
        pos <= line_feed_or_end(bytes, pos, end),
        pos <= end ==> line_feed_or_end(bytes, pos, end) <= end,
        forall|k: int| pos <= k < line_feed_or_end(bytes, pos, end) ==> bytes[k] != 0x0a,
        line_feed_or_end(bytes, pos, end) < end ==> bytes[line_feed_or_end(bytes, pos, end)] == 0x0a,
    decreases end - pos,
{
    if pos < end && bytes[pos] != 0x0a {
        lemma_lfe(bytes, pos + 1, end);
    }
}

pub proof fn lemma_line_at(bytes: Seq<u8>, start: int)
    requires
        0 <= start < bytes.len() <= usize::MAX,
    ensures
        line_wf(line_at(bytes, start), bytes.len() as int),
        line_at(bytes, start).start == start,
{
    let len = bytes.len() as int;
    lemma_lfe(bytes, start, len);
    let nl = line_feed_or_end(bytes, start, len);
    let end = if nl > start && bytes[nl - 1] == 0x0d { nl - 1 } else { nl };
    lemma_leading_spaces(bytes, start, end);
}

pub proof fn lemma_lines_from_wf(bytes: Seq<u8>, start: int)
    requires
        0 <= start <= bytes.len() <= usize::MAX,
    ensures
        lines_wf(lines_from(bytes, start), bytes.len() as int),
        lines_from(bytes, start).len() > 0 ==> lines_from(bytes, start)[0].start == start,
    decreases bytes.len() - start,
{
    if start < bytes.len() {
        lemma_line_at(bytes, start);
        let l = line_at(bytes, start);
        lemma_lines_from_wf(bytes, l.full_end as int);
        let rest = lines_from(bytes, l.full_end as int);
        let all = lines_from(bytes, start);
        assert(all == seq![l] + rest);
        assert forall|k: int| 0 <= k < all.len() - 1 implies (#[trigger] all[k]).full_end == all[k
            + 1].start by {
            if k > 0 {
                assert(all[k] == rest[k - 1]);
                assert(all[k + 1] == rest[k]);
            }
        }
        assert forall|k: int| 0 <= k < all.len() implies line_wf(#[trigger] all[k], bytes.len() as int) by {
            if k > 0 {
                assert(all[k] == rest[k - 1]);
            }
        }
    }
}

/// The number of leading spaces of `start..end`.
fn count_spaces(bytes: &[u8], start: usize, end: usize) -> (res: usize)
    requires
        start <= end <= bytes@.len(),
    ensures
        res == leading_spaces(bytes@, start as int, end as int),
{
    let mut k = start;
    while k < end && bytes[k] == 0x20
        invariant
            start <= k <= end,
            end <= bytes@.len(),
            leading_spaces(bytes@, start as int, end as int) == (k - start) + leading_spaces(
                bytes@,
                k as int,
                end as int,
            ),
        decreases end - k,
    {
        k = k + 1;
    }
    k - start
}

/// The line beginning at `start`.
pub fn read_line(bytes: &[u8], start: usize) -> (res: Line)
    requires
        start < bytes@.len(),
    ensures
        res == line_at(bytes@, start as int),
{
    let len = bytes.len();
    let mut nl = start;
    while nl < len && bytes[nl] != 0x0a
        invariant
            start <= nl <= len,
            len == bytes@.len(),
            line_feed_or_end(bytes@, nl as int, len as int) == line_feed_or_end(
                bytes@,
                start as int,
                len as int,
            ),
        decreases len - nl,
    {
        nl = nl + 1;
    }
    let full_end = if nl < len { nl + 1 } else { len };
    let end = if nl > start && bytes[nl - 1] == 0x0d { nl - 1 } else { nl };
    let indent = count_spaces(bytes, start, end);
    Line { start, end, full_end, indent }
}

/// Splits the text after any byte order mark into lines, failing at the
/// first line whose indentation is followed by a tab.
pub fn split_lines(bytes: &[u8]) -> (res: Result<Vec<Line>, usize>)
    ensures
        res matches Ok(lines) ==> lines@ == line_table(bytes@) && indentation_tab(
            bytes@,
            bom_len(bytes@),
        ) is None,
        res matches Err(offset) ==> indentation_tab(bytes@, bom_len(bytes@)) == Some(offset as int),
{
    let mut lines: Vec<Line> = Vec::new();
    let mut start: usize = if bytes.len() >= 3 && bytes[0] == 0xef && bytes[1] == 0xbb && bytes[2]
        == 0xbf {
        3
    } else {
        0
    };
    let ghost first = start as int;
    while start < bytes.len()
        invariant
            0 <= first <= start <= bytes@.len(),
            first == bom_len(bytes@),
            lines@ + lines_from(bytes@, start as int) == lines_from(bytes@, first),
            indentation_tab(bytes@, start as int) == indentation_tab(bytes@, first),
        decreases bytes@.len() - start,
    {
        let l = read_line(bytes, start);
        proof { lemma_line_at(bytes@, start as int); }
        if l.start + l.indent < l.end && bytes[l.start + l.indent] == 0x09 {
            return Err(l.start + l.indent);
        }
        proof {
            assert(lines_from(bytes@, start as int) == seq![l] + lines_from(bytes@, l.full_end as int));
            assert(lines@.push(l) + lines_from(bytes@, l.full_end as int) == lines@ + lines_from(
                bytes@,
                start as int,
            ));
        }
        lines.push(l);
        start = l.full_end;
    }
    proof {
        assert(lines@ + Seq::<Line>::empty() == lines@);
    }
    Ok(lines)
}

/// Earlier lines end before later lines begin.
pub proof fn lemma_lines_ordered(lines: Seq<Line>, len: int, a: int, b: int)
    requires
        lines_wf(lines, len),
        0 <= a < b < lines.len(),
    ensures
        lines[a].full_end <= lines[b].start,
    decreases b - a,
{
    assert(line_wf(lines[a], len));
    assert(lines[a].full_end == lines[a + 1].start);
    if a + 1 < b {
        assert(line_wf(lines[a + 1], len));
        lemma_lines_ordered(lines, len, a + 1, b);
    }
}

} // verus!
