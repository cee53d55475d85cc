//! Byte-level scanning primitives of the Unity YAML dialect.
use vstd::prelude::*;

use crate::syntax::ScalarStyle;

verus! {

/// `u8::is_ascii_whitespace`: space, tab, line feed, form feed, carriage return.
pub open spec fn is_ws(b: u8) -> bool {
    b == 0x20 || b == 0x09 || b == 0x0a || b == 0x0c || b == 0x0d
}

pub fn ws(b: u8) -> (res: bool)
    ensures
        res == is_ws(b),
{
    b == 0x20 || b == 0x09 || b == 0x0a || b == 0x0c || b == 0x0d
}

/// A space or a tab.
pub open spec fn is_blank(b: u8) -> bool {
    b == 0x20 || b == 0x09
}

/// The first position at or after `pos` that is `end` or holds neither a
/// space nor a tab.
pub open spec fn spaces_end(bytes: Seq<u8>, pos: int, end: int) -> int
    decreases end - pos,
{
    if pos < end && is_blank(bytes[pos]) {
        spaces_end(bytes, pos + 1, end)
    } else {
        pos
    }
}

pub fn skip_spaces(bytes: &[u8], pos: usize, end: usize) -> (res: usize)
    requires
        end <= bytes@.len(),
    ensures
        res == spaces_end(bytes@, pos as int, end as int),
        pos <= res,
        pos <= end ==> res <= end,
        pos > end ==> res == pos,
        forall|k: int| pos <= k < res ==> is_blank(#[trigger] bytes@[k]),
        res < end ==> !is_blank(bytes@[res as int]),
{
    let mut p = pos;
    while p < end && (bytes[p] == 0x20 || bytes[p] == 0x09)
        invariant
            pos <= p,
            end <= bytes@.len(),
            pos <= end ==> p <= end,
            pos > end ==> p == pos,
            forall|k: int| pos <= k < p ==> is_blank(#[trigger] bytes@[k]),
            spaces_end(bytes@, pos as int, end as int) == spaces_end(bytes@, p as int, end as int),
        decreases end - p,
    {
        p = p + 1;
    }
    p
}

/// The end of `start..end` once trailing ASCII whitespace is removed.
pub open spec fn trimmed(bytes: Seq<u8>, start: int, end: int) -> int
    decreases end - start,
{
    if end > start && is_ws(bytes[end - 1]) {
        trimmed(bytes, start, end - 1)
    } else {
        end
    }
}

/// The end of `start..end` once trailing ASCII whitespace is removed.
pub fn trim_end(bytes: &[u8], start: usize, end: usize) -> (res: usize)
    requires
        end <= bytes@.len(),
    ensures
        res == trimmed(bytes@, start as int, end as int),
        res <= end,
        start <= end ==> start <= res,
        start > end ==> res == end,
        forall|k: int| res <= k < end ==> is_ws(#[trigger] bytes@[k]),
        res > start ==> !is_ws(bytes@[res - 1]),
{
    let mut e = end;
    while e > start && ws(bytes[e - 1])
        invariant
            e <= end,
            end <= bytes@.len(),
            start <= end ==> start <= e,
            start > end ==> e == end,
            forall|k: int| e <= k < end ==> is_ws(#[trigger] bytes@[k]),
            trimmed(bytes@, start as int, end as int) == trimmed(bytes@, start as int, e as int),
        decreases e,
    {
        e = e - 1;
    }
    e
}

/// The first line feed at or after `pos` before `end`, or `end`.
pub open spec fn line_feed_or_end(bytes: Seq<u8>, pos: int, end: int) -> int
    decreases end - pos,
{
    if pos >= end {
        pos
    } else if bytes[pos] == 0x0a {
        pos
    } else {
        line_feed_or_end(bytes, pos + 1, end)
    }
}

/// Skips whitespace and `#` comments (up to the line feed) inside flow
/// collections.
pub open spec fn flow_trivia_end(bytes: Seq<u8>, pos: int, end: int) -> int
    decreases end - pos,
{
    if pos >= end {
        pos
    } else if is_ws(bytes[pos]) {
        flow_trivia_end(bytes, pos + 1, end)
    } else if bytes[pos] == 0x23 {
        proof { lemma_line_feed_bounds(bytes, pos + 1, end); }
        flow_trivia_end(bytes, line_feed_or_end(bytes, pos + 1, end), end)
    } else {
        pos
    }
}

pub proof fn lemma_line_feed_bounds(bytes: Seq<u8>, pos: int, end: int)
    ensures
        pos <= line_feed_or_end(bytes, pos, end),
        pos <= end ==> line_feed_or_end(bytes, pos, end) <= end,
    decreases end - pos,
{
    if pos < end && bytes[pos] != 0x0a {
        lemma_line_feed_bounds(bytes, pos + 1, end);
    }
}

pub proof fn lemma_flow_trivia_bounds(bytes: Seq<u8>, pos: int, end: int)
    ensures
        pos <= flow_trivia_end(bytes, pos, end),
        pos <= end ==> flow_trivia_end(bytes, pos, end) <= end,
        flow_trivia_end(bytes, pos, end) < end ==> {
            let p = flow_trivia_end(bytes, pos, end);
            !is_ws(bytes[p]) && bytes[p] != 0x23
        },
    decreases end - pos,
{
    if pos < end {
        if is_ws(bytes[pos]) {
            lemma_flow_trivia_bounds(bytes, pos + 1, end);
        } else if bytes[pos] == 0x23 {
            lemma_line_feed_bounds(bytes, pos + 1, end);
            lemma_flow_trivia_bounds(bytes, line_feed_or_end(bytes, pos + 1, end), end);
        }
    }
}

/// Advances `pos` past whitespace and comments inside a flow collection.
pub fn flow_ws(bytes: &[u8], pos: &mut usize, end: usize)
    requires
        end <= bytes@.len(),
    ensures
        *final(pos) == flow_trivia_end(bytes@, *old(pos) as int, end as int),
{
    proof { lemma_flow_trivia_bounds(bytes@, *pos as int, end as int); }
    loop
        invariant
            end <= bytes@.len(),
            flow_trivia_end(bytes@, *pos as int, end as int) == flow_trivia_end(
                bytes@,
                *old(pos) as int,
                end as int,
            ),
        decreases end - *pos,
    {
        if *pos < end && ws(bytes[*pos]) {
            *pos = *pos + 1;
        } else if *pos < end && bytes[*pos] == 0x23 {
            let before = *pos;
            *pos = *pos + 1;
            while *pos < end && bytes[*pos] != 0x0a
                invariant
                    before < *pos <= end,
                    end <= bytes@.len(),
                    line_feed_or_end(bytes@, *pos as int, end as int) == line_feed_or_end(
                        bytes@,
                        before + 1,
                        end as int,
                    ),
                decreases end - *pos,
            {
                *pos = *pos + 1;
            }
            assert(flow_trivia_end(bytes@, before as int, end as int) == flow_trivia_end(
                bytes@,
                *pos as int,
                end as int,
            ));
        } else {
            return;
        }
    }
}

/// Scanner state of `find_colon`: the open quote byte (0 for none) and the
/// flow nesting depth.
pub open spec fn colon_from(bytes: Seq<u8>, start: int, i: int, end: int, quote: u8, nesting: int) -> Option<int>
    decreases end - i,
{
    if i >= end {
        None
    } else {
        let b = bytes[i];
        if quote != 0 {
            if quote == 0x22 && b == 0x5c {
                if i + 2 >= end {
                    None
                } else {
                    colon_from(bytes, start, i + 2, end, quote, nesting)
                }
            } else if b == quote {
                if quote == 0x27 && i + 1 < end && bytes[i + 1] == quote {
                    colon_from(bytes, start, i + 2, end, quote, nesting)
                } else {
                    colon_from(bytes, start, i + 1, end, 0, nesting)
                }
            } else {
                colon_from(bytes, start, i + 1, end, quote, nesting)
            }
        } else if b == 0x27 || b == 0x22 {
            colon_from(bytes, start, i + 1, end, b, nesting)
        } else if b == 0x7b || b == 0x5b {
            colon_from(bytes, start, i + 1, end, quote, nesting + 1)
        } else if b == 0x7d || b == 0x5d {
            colon_from(bytes, start, i + 1, end, quote, nesting - 1)
        } else if b == 0x3a && nesting == 0 && (i + 1 == end || is_ws(bytes[i + 1])) {
            Some(i)
        } else if b == 0x23 && (i == start || is_ws(bytes[i - 1])) {
            None
        } else {
            colon_from(bytes, start, i + 1, end, quote, nesting)
        }
    }
}

/// The first `:` of `start..end` that separates a mapping key from its value:
/// outside quotes and flow brackets, followed by whitespace or the end, and
/// before any comment.
pub open spec fn colon_spec(bytes: Seq<u8>, start: int, end: int) -> Option<int> {
    colon_from(bytes, start, start, end, 0, 0)
}

proof fn lemma_colon_from_bounds(bytes: Seq<u8>, start: int, i: int, end: int, quote: u8, nesting: int)
    ensures
        colon_from(bytes, start, i, end, quote, nesting) matches Some(c) ==> i <= c < end && bytes[c]
            == 0x3a,
    decreases end - i,
{
    if i < end {
        let b = bytes[i];
        if quote != 0 {
            if quote == 0x22 && b == 0x5c {
                if i + 2 < end {
                    lemma_colon_from_bounds(bytes, start, i + 2, end, quote, nesting);
                }
            } else if b == quote {
                if quote == 0x27 && i + 1 < end && bytes[i + 1] == quote {
                    lemma_colon_from_bounds(bytes, start, i + 2, end, quote, nesting);
                } else {
                    lemma_colon_from_bounds(bytes, start, i + 1, end, 0, nesting);
                }
            } else {
                lemma_colon_from_bounds(bytes, start, i + 1, end, quote, nesting);
            }
        } else if b == 0x27 || b == 0x22 {
            lemma_colon_from_bounds(bytes, start, i + 1, end, b, nesting);
        } else if b == 0x7b || b == 0x5b {
            lemma_colon_from_bounds(bytes, start, i + 1, end, quote, nesting + 1);
        } else if b == 0x7d || b == 0x5d {
            lemma_colon_from_bounds(bytes, start, i + 1, end, quote, nesting - 1);
        } else if b == 0x3a && nesting == 0 && (i + 1 == end || is_ws(bytes[i + 1])) {
        } else if b == 0x23 && (i == start || is_ws(bytes[i - 1])) {
        } else {
            lemma_colon_from_bounds(bytes, start, i + 1, end, quote, nesting);
        }
    }
}

/// The position of the key/value separator of a mapping line, if any.
pub fn find_colon(bytes: &[u8], start: usize, end: usize) -> (res: Option<usize>)
    requires
        end <= bytes@.len(),
        bytes@.len() <= isize::MAX,
    ensures
        res matches Some(c) ==> colon_spec(bytes@, start as int, end as int) == Some(c as int),
        res is None ==> colon_spec(bytes@, start as int, end as int) is None,
        res matches Some(c) ==> start <= c < end && bytes@[c as int] == 0x3a,
{
    proof { lemma_colon_from_bounds(bytes@, start as int, start as int, end as int, 0, 0); }
    let mut quote: u8 = 0;
    let mut nesting: i64 = 0;
    let mut i: usize = start;
    while i < end
        invariant
            end <= bytes@.len(),
            bytes@.len() <= isize::MAX,
            start <= i,
            -(i - start) <= nesting <= i - start,
            i <= usize::MAX,
            colon_from(bytes@, start as int, i as int, end as int, quote, nesting as int) == colon_from(
                bytes@,
                start as int,
                start as int,
                end as int,
                0,
                0,
            ),
        decreases end - i,
    {
        let b = bytes[i];
        if quote != 0 {
            if quote == 0x22 && b == 0x5c {
                if end - i <= 2 {
                    return None;
                }
                i = i + 2;
                continue;
            }
            if b == quote {
                if quote == 0x27 && i + 1 < end && bytes[i + 1] == quote {
                    i = i + 2;
                    continue;
                }
                quote = 0;
            }
        } else {
            if b == 0x27 || b == 0x22 {
                quote = b;
            } else if b == 0x7b || b == 0x5b {
                nesting = nesting + 1;
            } else if b == 0x7d || b == 0x5d {
                nesting = nesting - 1;
            } else if b == 0x3a && nesting == 0 && (i + 1 == end || ws(bytes[i + 1])) {
                return Some(i);
            } else if b == 0x23 && (i == start || ws(bytes[i - 1])) {
                return None;
            }
        }
        i = i + 1;
    }
    None
}

/// The end of a block value's text on one line: flow and quoted values own
/// their delimiters, other values stop before a `#` comment. Trailing
/// whitespace is removed.
pub open spec fn comment_stop(bytes: Seq<u8>, start: int, i: int, end: int) -> int
    decreases end - i,
{
    if i >= end {
        end
    } else if bytes[i] == 0x23 && (i == start || is_ws(bytes[i - 1])) {
        i
    } else {
        comment_stop(bytes, start, i + 1, end)
    }
}

/// Whether `b` opens a flow collection or a quoted scalar.
pub open spec fn is_flow_opener(b: u8) -> bool {
    b == 0x7b || b == 0x5b || b == 0x27 || b == 0x22
}

proof fn lemma_comment_stop_bounds(bytes: Seq<u8>, start: int, i: int, end: int)
    ensures
        i <= end ==> i <= comment_stop(bytes, start, i, end) <= end,
        i > end ==> comment_stop(bytes, start, i, end) == end,
    decreases end - i,
{
    if i < end && !(bytes[i] == 0x23 && (i == start || is_ws(bytes[i - 1]))) {
        lemma_comment_stop_bounds(bytes, start, i + 1, end);
    }
}

/// Where a block value's text on one line ends: before trailing whitespace,
/// and for a value that is not flow or quoted, before a `#` comment.
pub open spec fn value_end_spec(bytes: Seq<u8>, start: int, end: int) -> int {
    if start < bytes.len() && is_flow_opener(bytes[start]) {
        trimmed(bytes, start, end)
    } else {
        trimmed(bytes, start, comment_stop(bytes, start, start, end))
    }
}

pub fn comment_end(bytes: &[u8], start: usize, end: usize) -> (res: usize)
    requires
        end <= bytes@.len(),
    ensures
        res == value_end_spec(bytes@, start as int, end as int),
        start < bytes@.len() && is_flow_opener(bytes@[start as int]) ==> forall|k: int|
            res <= k < end ==> is_ws(#[trigger] bytes@[k]),
        start < bytes@.len() && is_flow_opener(bytes@[start as int]) ==> (start <= end ==> start
            <= res <= end) && (res > start ==> !is_ws(bytes@[res - 1])),
        !(start < bytes@.len() && is_flow_opener(bytes@[start as int])) ==> {
            let stop = comment_stop(bytes@, start as int, start as int, end as int);
            &&& forall|k: int| res <= k < stop ==> is_ws(#[trigger] bytes@[k])
            &&& (start <= stop ==> start <= res <= stop)
            &&& (start > stop ==> res == stop)
            &&& (res > start ==> !is_ws(bytes@[res - 1]))
        },
        res <= end,
{
    if start < bytes.len() && (bytes[start] == 0x7b || bytes[start] == 0x5b || bytes[start] == 0x27
        || bytes[start] == 0x22) {
        return trim_end(bytes, start, end);
    }
    proof { lemma_comment_stop_bounds(bytes@, start as int, start as int, end as int); }
    let mut i = start;
    while i < end
        invariant
            start <= i,
            !(start < bytes@.len() && is_flow_opener(bytes@[start as int])),
            end <= bytes@.len(),
            comment_stop(bytes@, start as int, i as int, end as int) == comment_stop(
                bytes@,
                start as int,
                start as int,
                end as int,
            ),
        decreases end - i,
    {
        if bytes[i] == 0x23 && (i == start || ws(bytes[i - 1])) {
            return trim_end(bytes, start, i);
        }
        i = i + 1;
    }
    trim_end(bytes, start, end)
}

pub open spec fn is_null_word(text: Seq<u8>) -> bool {
    ||| text == seq![0x6eu8, 0x75, 0x6c, 0x6c]
    ||| text == seq![0x4eu8, 0x75, 0x6c, 0x6c]
    ||| text == seq![0x4eu8, 0x55, 0x4c, 0x4c]
    ||| text == seq![0x7eu8]
}

/// Plain scalars spelled `null`, `Null`, `NULL` or `~` are null; an empty
/// text is empty; anything else is plain.
pub open spec fn scalar_style_of(text: Seq<u8>) -> ScalarStyle {
    if text.len() == 0 {
        ScalarStyle::Empty
    } else if is_null_word(text) {
        ScalarStyle::Null
    } else {
        ScalarStyle::Plain
    }
}

pub fn scalar_style(bytes: &[u8], start: usize, end: usize) -> (res: ScalarStyle)
    requires
        start <= end <= bytes@.len(),
    ensures
        res == scalar_style_of(bytes@.subrange(start as int, end as int)),
{
    let ghost t = bytes@.subrange(start as int, end as int);
    let n = end - start;
    if n == 0 {
        return ScalarStyle::Empty;
    }
    if n == 1 {
        if bytes[start] == 0x7e {
            assert(t == seq![0x7eu8]);
            return ScalarStyle::Null;
        }
        assert(!is_null_word(t)) by {
            assert(t.len() == 1 && t[0] == bytes@[start as int]);
        }
        return ScalarStyle::Plain;
    }
    if n == 4 {
        let a = bytes[start];
        let b = bytes[start + 1];
        let c = bytes[start + 2];
        let d = bytes[start + 3];
        if (a == 0x6e && b == 0x75 && c == 0x6c && d == 0x6c) || (a == 0x4e && b == 0x75 && c == 0x6c
            && d == 0x6c) || (a == 0x4e && b == 0x55 && c == 0x4c && d == 0x4c) {
            assert(t == seq![a, b, c, d]);
            return ScalarStyle::Null;
        }
        assert(!is_null_word(t)) by {
            assert(t.len() == 4 && t[0] == a && t[1] == b && t[2] == c && t[3] == d);
        }
        return ScalarStyle::Plain;
    }
    assert(!is_null_word(t)) by {
        assert(t.len() == n);
    }
    ScalarStyle::Plain
}

/// The outcome of scanning a quoted scalar's body.
#[derive(Debug, Clone, Copy, PartialEq, Eq, Structural)]
pub enum QuoteScan {
    /// Closed; the position just after the closing quote.
    Closed(usize),
    /// An escape character YAML does not define, at this position.
    BadEscape(usize),
    /// A `\x`, `\u` or `\U` escape without its hexadecimal digits, at this position.
    BadHex(usize),
    /// The text ends before the closing quote.
    Unterminated,
}

/// The escape characters YAML allows after a backslash.
pub open spec fn valid_escape(b: u8) -> bool {
    b == 0x30 || b == 0x61 || b == 0x62 || b == 0x74 || b == 0x6e || b == 0x76 || b == 0x66 || b
        == 0x72 || b == 0x65 || b == 0x20 || b == 0x2f || b == 0x5c || b == 0x22 || b == 0x4e || b
        == 0x5f || b == 0x4c || b == 0x50 || b == 0x75 || b == 0x78 || b == 0x55 || b == 0x0d || b
        == 0x0a
}

/// The number of hexadecimal digits an escape character requires.
pub open spec fn escape_digits(b: u8) -> int {
    if b == 0x78 { 2 } else if b == 0x75 { 4 } else if b == 0x55 { 8 } else { 0 }
}

pub open spec fn is_hex_digit(b: u8) -> bool {
    (0x30 <= b <= 0x39) || (0x41 <= b <= 0x46) || (0x61 <= b <= 0x66)
}

pub open spec fn all_hex(bytes: Seq<u8>, from: int, to: int) -> bool {
    forall|k: int| from <= k < to ==> is_hex_digit(#[trigger] bytes[k])
}

/// Scans a quoted scalar's body from `pos`: `''` is a quote inside single
/// quotes; inside double quotes a backslash starts an escape.
pub open spec fn quote_scan(bytes: Seq<u8>, quote: u8, pos: int, end: int) -> QuoteScan
    decreases end - pos,
{
    if pos >= end {
        QuoteScan::Unterminated
    } else {
        let b = bytes[pos];
        let p = pos + 1;
        if quote == 0x22 && b == 0x5c {
            if p >= end {
                QuoteScan::Unterminated
            } else if !valid_escape(bytes[p]) {
                QuoteScan::BadEscape(p as usize)
            } else {
                let q = p + 1;
                let d = escape_digits(bytes[p]);
                if d > 0 && (q + d > end || !all_hex(bytes, q, q + d)) {
                    QuoteScan::BadHex(q as usize)
                } else {
                    quote_scan(bytes, quote, q + d, end)
                }
            }
        } else if b == quote {
            if quote == 0x27 && p < end && bytes[p] == 0x27 {
                quote_scan(bytes, quote, p + 1, end)
            } else {
                QuoteScan::Closed(p as usize)
            }
        } else {
            quote_scan(bytes, quote, p, end)
        }
    }
}

proof fn lemma_quote_scan(bytes: Seq<u8>, quote: u8, pos: int, end: int)
    requires
        0 <= pos,
        end <= usize::MAX,
    ensures
        quote_scan(bytes, quote, pos, end) matches QuoteScan::Closed(p) ==> pos < p <= end && bytes[p
            - 1] == quote,
        quote_scan(bytes, quote, pos, end) matches QuoteScan::BadEscape(p) ==> pos < p < end,
        quote_scan(bytes, quote, pos, end) matches QuoteScan::BadHex(p) ==> pos < p <= end,
    decreases end - pos,
{
    if pos < end {
        let b = bytes[pos];
        let p = pos + 1;
        if quote == 0x22 && b == 0x5c {
            if p < end && valid_escape(bytes[p]) {
                let q = p + 1;
                let d = escape_digits(bytes[p]);
                if !(d > 0 && (q + d > end || !all_hex(bytes, q, q + d))) {
                    lemma_quote_scan(bytes, quote, q + d, end);
                }
            }
        } else if b == quote {
            if quote == 0x27 && p < end && bytes[p] == 0x27 {
                lemma_quote_scan(bytes, quote, p + 1, end);
            }
        } else {
            lemma_quote_scan(bytes, quote, p, end);
        }
    }
}

fn hex_digit(b: u8) -> (res: bool)
    ensures
        res == is_hex_digit(b),
{
    (0x30 <= b && b <= 0x39) || (0x41 <= b && b <= 0x46) || (0x61 <= b && b <= 0x66)
}

fn hex_run(bytes: &[u8], from: usize, to: usize) -> (res: bool)
    requires
        from <= to <= bytes@.len(),
    ensures
        res == all_hex(bytes@, from as int, to as int),
{
    let mut k = from;
    while k < to
        invariant
            from <= k <= to,
            to <= bytes@.len(),
            all_hex(bytes@, from as int, k as int),
        decreases to - k,
    {
        if !hex_digit(bytes[k]) {
            return false;
        }
        k = k + 1;
    }
    true
}

/// Scans the quoted scalar whose opening quote is at `start`.
pub fn scan_quoted(bytes: &[u8], start: usize, end: usize) -> (res: QuoteScan)
    requires
        start < end <= bytes@.len(),
        bytes@.len() <= isize::MAX,
    ensures
        res == quote_scan(bytes@, bytes@[start as int], start + 1, end as int),
        res matches QuoteScan::Closed(p) ==> start + 1 < p <= end && bytes@[p - 1] == bytes@[start as int],
        res matches QuoteScan::BadEscape(p) ==> start + 1 < p < end,
        res matches QuoteScan::BadHex(p) ==> start + 1 < p <= end,
{
    let quote = bytes[start];
    proof { lemma_quote_scan(bytes@, quote, start + 1, end as int); }
    let mut pos = start + 1;
    while pos < end
        invariant
            start < pos,
            end <= bytes@.len(),
            bytes@.len() <= isize::MAX,
            quote == bytes@[start as int],
            quote_scan(bytes@, quote, pos as int, end as int) == quote_scan(
                bytes@,
                quote,
                start + 1,
                end as int,
            ),
        decreases end - pos,
    {
        let b = bytes[pos];
        let p = pos + 1;
        if quote == 0x22 && b == 0x5c {
            if p >= end {
                return QuoteScan::Unterminated;
            }
            let e = bytes[p];
            if !(e == 0x30 || e == 0x61 || e == 0x62 || e == 0x74 || e == 0x6e || e == 0x76 || e
                == 0x66 || e == 0x72 || e == 0x65 || e == 0x20 || e == 0x2f || e == 0x5c || e == 0x22
                || e == 0x4e || e == 0x5f || e == 0x4c || e == 0x50 || e == 0x75 || e == 0x78 || e
                == 0x55 || e == 0x0d || e == 0x0a) {
                return QuoteScan::BadEscape(p);
            }
            let q = p + 1;
            let d: usize = if e == 0x78 { 2 } else if e == 0x75 { 4 } else if e == 0x55 { 8 } else { 0 };
            if d > 0 {
                if q + d > end {
                    return QuoteScan::BadHex(q);
                }
                if !hex_run(bytes, q, q + d) {
                    return QuoteScan::BadHex(q);
                }
            }
            pos = q + d;
        } else if b == quote {
            if quote == 0x27 && p < end && bytes[p] == 0x27 {
                pos = p + 1;
            } else {
                return QuoteScan::Closed(p);
            }
        } else {
            pos = p;
        }
    }
    QuoteScan::Unterminated
}

} // verus!
