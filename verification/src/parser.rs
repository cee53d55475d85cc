//! The recursive-descent parser of the Unity YAML dialect.
//!
//! Block structure is read line by line from the line table; flow
//! collections and quoted scalars are read byte by byte. Every node keeps
//! the span of its bytes, so unchanged content is never re-rendered.
use vstd::prelude::*;
use vstd::utf8::*;

use crate::fingerprint::{fingerprint, fingerprint_of};
use crate::keys::{decode_key, key_value};
use crate::lexer::{
    colon_spec, comment_end, find_colon, flow_trivia_end, flow_ws, is_blank, is_ws, lemma_flow_trivia_bounds, quote_scan,
    scan_quoted, scalar_style, scalar_style_of, skip_spaces, spaces_end, trim_end, trimmed, value_end_spec, QuoteScan,
};
use crate::lines::{line_wf, lines_wf, Line};
use crate::syntax::{CoreError, Diagnostic, Entry, Item, Limits, Node, NodeKind, ScalarStyle, Severity, Span};
use crate::text::{concat, text_eq};
use crate::changes::texts_view;
use crate::lexer::ws;
use crate::tree::{has_code, repeat_at, keys_unique, node_nested, node_read, node_wf, repeats_key};

verus! {

pub struct Parser<'a> {
    pub bytes: &'a [u8],
    pub lines: Vec<Line>,
    pub limits: Limits,
    pub nodes: usize,
    pub diagnostics: Vec<Diagnostic>,
}

/// The entries of a flow mapping that opens at `s` and closes before `to`:
/// each key is the decoding of its key span, each entry starts at its key,
/// the entries come in order inside the brackets, and every value is a
/// flow node at `indent`.
pub open spec fn flow_entries(es: Seq<Entry>, bytes: Seq<u8>, s: int, to: int, indent: int) -> bool {
    &&& forall|j: int| 0 <= j < es.len() ==> {
        &&& key_value(bytes.subrange((#[trigger] es[j]).key_span.start as int, es[j].key_span.end as int))
            == Some(es[j].key@)
        &&& s < es[j].key_span.start
        &&& es[j].span.start == es[j].key_span.start
        &&& es[j].key_span.end <= es[j].value.span.start
        &&& es[j].value.span.end <= es[j].span.end
        &&& es[j].span.end < to
        &&& es[j].value.flow
        &&& es[j].value.indent == indent
    }
    &&& forall|j: int, k: int| 0 <= j < k < es.len() ==> (#[trigger] es[j]).span.end <= (#[trigger] es[k]).key_span.start
}

/// The items of a flow sequence that opens at `s` and closes before `to`:
/// each item spans its value, the items come in order inside the
/// brackets, and every value is a flow node at `indent`.
pub open spec fn flow_items(items: Seq<Item>, s: int, to: int, indent: int) -> bool {
    &&& forall|j: int| 0 <= j < items.len() ==> {
        &&& (#[trigger] items[j]).span == items[j].value.span
        &&& s < items[j].span.start
        &&& items[j].span.end < to
        &&& items[j].value.flow
        &&& items[j].value.indent == indent
    }
    &&& forall|j: int, k: int| 0 <= j < k < items.len() ==> (#[trigger] items[j]).span.end <= (#[trigger] items[k]).span.start
}

/// A flow mapping's entries stay in shape when its end moves right.
pub proof fn lemma_entries_grow(es: Seq<Entry>, bytes: Seq<u8>, s: int, to: int, to2: int, indent: int)
    requires
        flow_entries(es, bytes, s, to, indent),
        to <= to2,
    ensures
        flow_entries(es, bytes, s, to2, indent),
{
}

/// A flow sequence's items stay in shape when its end moves right.
pub proof fn lemma_items_grow(items: Seq<Item>, s: int, to: int, to2: int, indent: int)
    requires
        flow_items(items, s, to, indent),
        to <= to2,
    ensures
        flow_items(items, s, to2, indent),
{
}

/// Appending an entry that starts at or after the end of every earlier
/// entry, and ends before `to`, keeps a flow mapping's entries in shape.
pub proof fn lemma_push_entry(es: Seq<Entry>, e: Entry, bytes: Seq<u8>, s: int, to: int, indent: int)
    requires
        flow_entries(es, bytes, s, e.key_span.start + 1, indent),
        key_value(bytes.subrange(e.key_span.start as int, e.key_span.end as int)) == Some(e.key@),
        s < e.key_span.start,
        e.span.start == e.key_span.start,
        e.key_span.end <= e.value.span.start,
        e.value.span.end <= e.span.end,
        e.span.start <= e.span.end < to,
        e.value.flow,
        e.value.indent == indent,
    ensures
        flow_entries(es.push(e), bytes, s, to, indent),
{
    let all = es.push(e);
    assert forall|j: int| 0 <= j < all.len() implies {
        &&& key_value(bytes.subrange((#[trigger] all[j]).key_span.start as int, all[j].key_span.end as int))
            == Some(all[j].key@)
        &&& s < all[j].key_span.start
        &&& all[j].span.start == all[j].key_span.start
        &&& all[j].key_span.end <= all[j].value.span.start
        &&& all[j].value.span.end <= all[j].span.end
        &&& all[j].span.end < to
        &&& all[j].value.flow
        &&& all[j].value.indent == indent
    } by {
        if j < es.len() {
            assert(all[j] == es[j]);
        } else {
            assert(all[j] == e);
        }
    }
    assert forall|j: int, k: int| 0 <= j < k < all.len() implies (#[trigger] all[j]).span.end <= (#[trigger] all[k]).key_span.start by {
        assert(all[j] == es[j]);
        if k < es.len() {
            assert(all[k] == es[k]);
        }
    }
}

/// Appending an item that starts at or after the end of every earlier
/// item, and ends before `to`, keeps a flow sequence's items in shape.
pub proof fn lemma_push_item(items: Seq<Item>, it: Item, s: int, to: int, indent: int)
    requires
        flow_items(items, s, it.span.start + 1, indent),
        it.span == it.value.span,
        s < it.span.start,
        it.span.start <= it.span.end < to,
        it.value.flow,
        it.value.indent == indent,
    ensures
        flow_items(items.push(it), s, to, indent),
{
    let all = items.push(it);
    assert forall|j: int| 0 <= j < all.len() implies {
        &&& (#[trigger] all[j]).span == all[j].value.span
        &&& s < all[j].span.start
        &&& all[j].span.end < to
        &&& all[j].value.flow
        &&& all[j].value.indent == indent
    } by {
        if j < items.len() {
            assert(all[j] == items[j]);
        } else {
            assert(all[j] == it);
        }
    }
    assert forall|j: int, k: int| 0 <= j < k < all.len() implies (#[trigger] all[j]).span.end <= (#[trigger] all[k]).span.start by {
        assert(all[j] == items[j]);
        if k < items.len() {
            assert(all[k] == items[k]);
        }
    }
}

/// What a flow value read from `from` up to `to` is: a flow node at
/// `indent` that starts at the first byte after trivia, whose kind follows
/// that byte. `{` opens a mapping and `[` a sequence, each closed by its
/// bracket just before `to`; a quote opens a quoted scalar that ends at
/// `to`; anything else is a plain scalar of the style its text has.
pub open spec fn flow_node(n: Node, bytes: Seq<u8>, from: int, end: int, to: int, indent: int) -> bool {
    let s = flow_trivia_end(bytes, from, end);
    &&& n.flow
    &&& n.indent == indent
    &&& n.span.start == s
    &&& match n.kind {
        NodeKind::Mapping(es) => {
            &&& bytes[s] == 0x7b
            &&& n.span.end == to
            &&& bytes[to - 1] == 0x7d
            &&& flow_entries(es@, bytes, s, to, indent)
        },
        NodeKind::Sequence(items) => {
            &&& bytes[s] == 0x5b
            &&& n.span.end == to
            &&& bytes[to - 1] == 0x5d
            &&& flow_items(items@, s, to, indent)
        },
        NodeKind::Scalar(style) => if bytes[s] == 0x27 {
            style == ScalarStyle::SingleQuoted && n.span.end == to
        } else if bytes[s] == 0x22 {
            style == ScalarStyle::DoubleQuoted && n.span.end == to
        } else {
            &&& bytes[s] != 0x7b
            &&& bytes[s] != 0x5b
            &&& s < n.span.end <= to
            &&& style == scalar_style_of(bytes.subrange(s, n.span.end as int))
        },
    }
}

/// Where an unquoted flow scalar's scan from `p` stops: at `end`, a `,`,
/// `}` or `]`, or a comment; `None` where it meets a collection opener or a
/// `: ` mapping separator first.
pub open spec fn plain_scan(b: Seq<u8>, s: int, p: int, end: int) -> Option<int>
    decreases end - p,
{
    if p >= end || b[p] == 0x2c || b[p] == 0x7d || b[p] == 0x5d {
        Some(p)
    } else if b[p] == 0x7b || b[p] == 0x5b || (b[p] == 0x3a && p + 1 < b.len() && is_ws(b[p + 1])) {
        None
    } else if b[p] == 0x23 && (p == s || is_ws(b[p - 1])) {
        Some(p)
    } else {
        plain_scan(b, s, p + 1, end)
    }
}

/// Where an unquoted flow mapping key's text from `p` stops.
pub open spec fn key_scan(b: Seq<u8>, p: int, end: int) -> int
    decreases end - p,
{
    if p >= end || b[p] == 0x3a || b[p] == 0x2c || b[p] == 0x7d || b[p] == 0x0a || b[p] == 0x0d {
        p
    } else {
        key_scan(b, p + 1, end)
    }
}

/// One nesting level deeper, saturating at the largest depth.
pub open spec fn deeper_spec(depth: int) -> int {
    if depth < usize::MAX { depth + 1 } else { depth }
}

/// The outcome of reading a flow value from `pos` with `n` nodes counted:
/// the node count and the position after the value, or `None` where the
/// value is refused (a syntax error or an exhausted node or depth budget).
pub open spec fn flow_run(b: Seq<u8>, pos: int, end: int, n: int, lim: Limits, depth: int) -> Option<(int, int)>
    decreases end - pos, 0int,
{
    if depth > lim.max_depth || pos > end {
        None
    } else {
        proof { lemma_flow_trivia_bounds(b, pos, end); }
        let s = flow_trivia_end(b, pos, end);
        if s >= end {
            None
        } else if b[s] == 0x7b {
            match map_run(b, s + 1, end, n, lim, depth) {
                Some((n2, q)) => if n2 < lim.max_nodes { Some((n2 + 1, q)) } else { None },
                None => None,
            }
        } else if b[s] == 0x5b {
            match seq_run(b, s + 1, end, n, lim, depth) {
                Some((n2, q)) => if n2 < lim.max_nodes { Some((n2 + 1, q)) } else { None },
                None => None,
            }
        } else if b[s] == 0x27 || b[s] == 0x22 {
            match quote_scan(b, b[s], s + 1, end) {
                QuoteScan::Closed(q) => if n < lim.max_nodes { Some((n + 1, q as int)) } else { None },
                _ => None,
            }
        } else if b[s] == 0x26 || b[s] == 0x2a || b[s] == 0x21 {
            None
        } else {
            match plain_scan(b, s, s, end) {
                Some(q) => if trimmed(b, s, q) > s && n < lim.max_nodes { Some((n + 1, q)) } else { None },
                None => None,
            }
        }
    }
}

/// The outcome of reading a flow mapping's entries from `pos` up to and
/// including its `}`; its own node is not yet counted. Each key is a quoted
/// scalar or plain text up to `:`, decodes, and is not the merge key `<<`; a
/// missing value is an empty scalar.
pub open spec fn map_run(b: Seq<u8>, pos: int, end: int, n: int, lim: Limits, depth: int) -> Option<(int, int)>
    decreases end - pos, 1int,
{
    if pos > end {
        None
    } else {
        proof { lemma_flow_trivia_bounds(b, pos, end); }
        let p = flow_trivia_end(b, pos, end);
        if p >= end {
            None
        } else if b[p] == 0x7d {
            Some((n, p + 1))
        } else {
            let kend = if b[p] == 0x27 || b[p] == 0x22 {
                match quote_scan(b, b[p], p + 1, end) {
                    QuoteScan::Closed(q) => Some(q as int),
                    _ => None,
                }
            } else {
                Some(key_scan(b, p, end))
            };
            match kend {
                None => None,
                Some(ke) => {
                    let raw = b.subrange(p, trimmed(b, p, ke));
                    if ke < p || ke > end {
                        None
                    } else {
                        proof { lemma_flow_trivia_bounds(b, ke, end); }
                        let c = flow_trivia_end(b, ke, end);
                        if c >= end || b[c] != 0x3a {
                            None
                        } else if !(valid_utf8(raw) && key_value(raw) is Some) || key_value(raw) == Some("<<"@) {
                            None
                        } else {
                            proof { lemma_flow_trivia_bounds(b, c + 1, end); }
                            let v = flow_trivia_end(b, c + 1, end);
                            let value = if v < end && (b[v] == 0x2c || b[v] == 0x7d) {
                                if n < lim.max_nodes { Some((n + 1, v)) } else { None }
                            } else {
                                flow_run(b, v, end, n, lim, deeper_spec(depth))
                            };
                            match value {
                                None => None,
                                Some((n2, ve)) => if ve < v || ve > end {
                                    None
                                } else {
                                    proof { lemma_flow_trivia_bounds(b, ve, end); }
                                    let q = flow_trivia_end(b, ve, end);
                                    if q >= end {
                                        None
                                    } else if b[q] == 0x2c {
                                        map_run(b, q + 1, end, n2, lim, depth)
                                    } else if b[q] == 0x7d {
                                        Some((n2, q + 1))
                                    } else {
                                        None
                                    }
                                },
                            }
                        }
                    }
                },
            }
        }
    }
}

/// The outcome of reading a flow sequence's items from `pos` up to and
/// including its `]`; its own node is not yet counted.
pub open spec fn seq_run(b: Seq<u8>, pos: int, end: int, n: int, lim: Limits, depth: int) -> Option<(int, int)>
    decreases end - pos, 1int,
{
    if pos > end {
        None
    } else {
        proof { lemma_flow_trivia_bounds(b, pos, end); }
        let p = flow_trivia_end(b, pos, end);
        if p >= end {
            None
        } else if b[p] == 0x5d {
            Some((n, p + 1))
        } else {
            match flow_run(b, p, end, n, lim, deeper_spec(depth)) {
                None => None,
                Some((n2, ve)) => if ve <= p || ve > end {
                    None
                } else {
                    proof { lemma_flow_trivia_bounds(b, ve, end); }
                    let q = flow_trivia_end(b, ve, end);
                    if q >= end {
                        None
                    } else if b[q] == 0x2c {
                        seq_run(b, q + 1, end, n2, lim, depth)
                    } else if b[q] == 0x5d {
                        Some((n2, q + 1))
                    } else {
                        None
                    }
                },
            }
        }
    }
}

/// How many entries a flow mapping read from `pos` holds: one for each key
/// whose value `map_run` reads, up to the closing `}`.
pub open spec fn map_count(b: Seq<u8>, pos: int, end: int, n: int, lim: Limits, depth: int) -> int
    decreases end - pos,
{
    if pos > end {
        0
    } else {
        proof { lemma_flow_trivia_bounds(b, pos, end); }
        let p = flow_trivia_end(b, pos, end);
        if p >= end || b[p] == 0x7d {
            0
        } else {
            let kend = if b[p] == 0x27 || b[p] == 0x22 {
                match quote_scan(b, b[p], p + 1, end) {
                    QuoteScan::Closed(q) => Some(q as int),
                    _ => None,
                }
            } else {
                Some(key_scan(b, p, end))
            };
            match kend {
                None => 0,
                Some(ke) => if ke < p || ke > end {
                    0
                } else {
                    proof { lemma_flow_trivia_bounds(b, ke, end); }
                    let c = flow_trivia_end(b, ke, end);
                    proof { lemma_flow_trivia_bounds(b, c + 1, end); }
                    let v = flow_trivia_end(b, c + 1, end);
                    let value = if v < end && (b[v] == 0x2c || b[v] == 0x7d) {
                        if n < lim.max_nodes { Some((n + 1, v)) } else { None }
                    } else {
                        flow_run(b, v, end, n, lim, deeper_spec(depth))
                    };
                    match value {
                        None => 0,
                        Some((n2, ve)) => if ve < v || ve > end || c >= end {
                            0
                        } else {
                            proof { lemma_flow_trivia_bounds(b, ve, end); }
                            let q = flow_trivia_end(b, ve, end);
                            if q < end && b[q] == 0x2c {
                                1 + map_count(b, q + 1, end, n2, lim, depth)
                            } else {
                                1
                            }
                        },
                    }
                },
            }
        }
    }
}

/// How many items a flow sequence read from `pos` holds: one for each
/// value `seq_run` reads, up to the closing `]`.
pub open spec fn seq_count(b: Seq<u8>, pos: int, end: int, n: int, lim: Limits, depth: int) -> int
    decreases end - pos,
{
    if pos > end {
        0
    } else {
        proof { lemma_flow_trivia_bounds(b, pos, end); }
        let p = flow_trivia_end(b, pos, end);
        if p >= end || b[p] == 0x5d {
            0
        } else {
            match flow_run(b, p, end, n, lim, deeper_spec(depth)) {
                None => 0,
                Some((n2, ve)) => if ve <= p || ve > end {
                    0
                } else {
                    proof { lemma_flow_trivia_bounds(b, ve, end); }
                    let q = flow_trivia_end(b, ve, end);
                    if q < end && b[q] == 0x2c {
                        1 + seq_count(b, q + 1, end, n2, lim, depth)
                    } else {
                        1
                    }
                },
            }
        }
    }
}

/// The key a flow or block mapping key text decodes to (empty where it
/// does not decode, which refuses the mapping).
pub open spec fn key_text(raw: Seq<u8>) -> Seq<char> {
    match key_value(raw) {
        Some(k) => k,
        None => Seq::empty(),
    }
}

/// Whether the flow value read from `pos` holds a mapping that repeats a
/// key, at any depth.
pub open spec fn flow_dup(b: Seq<u8>, pos: int, end: int, n: int, lim: Limits, depth: int) -> bool
    decreases end - pos, 0int,
{
    if depth > lim.max_depth || pos > end {
        false
    } else {
        proof { lemma_flow_trivia_bounds(b, pos, end); }
        let s = flow_trivia_end(b, pos, end);
        if s >= end {
            false
        } else if b[s] == 0x7b {
            map_dup(b, s + 1, end, n, lim, depth, Seq::empty())
        } else if b[s] == 0x5b {
            seq_dup(b, s + 1, end, n, lim, depth)
        } else {
            false
        }
    }
}

/// Whether the flow mapping entries read from `pos`, after the keys
/// `seen`, repeat a key or hold a value that does.
pub open spec fn map_dup(b: Seq<u8>, pos: int, end: int, n: int, lim: Limits, depth: int, seen: Seq<Seq<char>>) -> bool
    decreases end - pos, 1int,
{
    if pos > end {
        false
    } else {
        proof { lemma_flow_trivia_bounds(b, pos, end); }
        let p = flow_trivia_end(b, pos, end);
        if p >= end || b[p] == 0x7d {
            false
        } else {
            let kend = if b[p] == 0x27 || b[p] == 0x22 {
                match quote_scan(b, b[p], p + 1, end) {
                    QuoteScan::Closed(q) => Some(q as int),
                    _ => None,
                }
            } else {
                Some(key_scan(b, p, end))
            };
            match kend {
                None => false,
                Some(ke) => if ke < p || ke > end {
                    false
                } else {
                    proof { lemma_flow_trivia_bounds(b, ke, end); }
                    let c = flow_trivia_end(b, ke, end);
                    if c >= end {
                        false
                    } else {
                        let key = key_text(b.subrange(p, trimmed(b, p, ke)));
                        proof { lemma_flow_trivia_bounds(b, c + 1, end); }
                        let v = flow_trivia_end(b, c + 1, end);
                        let empty = v < end && (b[v] == 0x2c || b[v] == 0x7d);
                        let value = if empty {
                            if n < lim.max_nodes { Some((n + 1, v)) } else { None }
                        } else {
                            flow_run(b, v, end, n, lim, deeper_spec(depth))
                        };
                        let inner = !empty && flow_dup(b, v, end, n, lim, deeper_spec(depth));
                        match value {
                            None => false,
                            Some((n2, ve)) => if ve < v || ve > end {
                                false
                            } else {
                                proof { lemma_flow_trivia_bounds(b, ve, end); }
                                let q = flow_trivia_end(b, ve, end);
                                let rest = if q < end && b[q] == 0x2c {
                                    map_dup(b, q + 1, end, n2, lim, depth, seen.push(key))
                                } else {
                                    false
                                };
                                seen.contains(key) || inner || rest
                            },
                        }
                    }
                },
            }
        }
    }
}

/// Whether a flow sequence's items read from `pos` hold a mapping that
/// repeats a key.
pub open spec fn seq_dup(b: Seq<u8>, pos: int, end: int, n: int, lim: Limits, depth: int) -> bool
    decreases end - pos, 1int,
{
    if pos > end {
        false
    } else {
        proof { lemma_flow_trivia_bounds(b, pos, end); }
        let p = flow_trivia_end(b, pos, end);
        if p >= end || b[p] == 0x5d {
            false
        } else {
            let inner = flow_dup(b, p, end, n, lim, deeper_spec(depth));
            match flow_run(b, p, end, n, lim, deeper_spec(depth)) {
                None => false,
                Some((n2, ve)) => if ve <= p || ve > end {
                    false
                } else {
                    proof { lemma_flow_trivia_bounds(b, ve, end); }
                    let q = flow_trivia_end(b, ve, end);
                    let rest = if q < end && b[q] == 0x2c { seq_dup(b, q + 1, end, n2, lim, depth) } else { false };
                    inner || rest
                },
            }
        }
    }
}

/// Whether line `i` is blank or a comment.
pub open spec fn is_trivia(lines: Seq<Line>, bytes: Seq<u8>, i: int) -> bool {
    let l = lines[i];
    l.start + l.indent == l.end || bytes[l.start + l.indent] == 0x23
}

/// Whether line `i` is a block sequence item: `-` alone or followed by a space.
pub open spec fn is_sequence_line(lines: Seq<Line>, bytes: Seq<u8>, i: int) -> bool {
    let l = lines[i];
    let p = l.start + l.indent;
    p < l.end && bytes[p] == 0x2d && (p + 1 == l.end || bytes[p + 1] == 0x20)
}

/// The first line from `i` on that is neither blank nor a comment, or `end`.
pub open spec fn skip_to(lines: Seq<Line>, b: Seq<u8>, i: int, end: int) -> int
    decreases end - i,
{
    if i < end && is_trivia(lines, b, i) { skip_to(lines, b, i + 1, end) } else { i }
}

pub proof fn lemma_skip_to(lines: Seq<Line>, b: Seq<u8>, i: int, end: int)
    ensures
        i <= skip_to(lines, b, i, end),
        i <= end ==> skip_to(lines, b, i, end) <= end,
    decreases end - i,
{
    if i < end && is_trivia(lines, b, i) {
        lemma_skip_to(lines, b, i + 1, end);
    }
}

/// The line after a block scalar's body: its lines are blank, comments, or
/// indented deeper than `indent`.
pub open spec fn scalar_lines(lines: Seq<Line>, b: Seq<u8>, i: int, end: int, indent: int) -> int
    decreases end - i,
{
    if i < end && (is_trivia(lines, b, i) || lines[i].indent > indent) { scalar_lines(lines, b, i + 1, end, indent) } else { i }
}

/// The line after a plain scalar's continuation lines, or `None` where a
/// continuation line holds a mapping separator.
pub open spec fn plain_lines(lines: Seq<Line>, b: Seq<u8>, i: int, end: int, indent: int) -> Option<int>
    decreases end - i,
{
    if i < end && !is_trivia(lines, b, i) && lines[i].indent > indent {
        if colon_spec(b, lines[i].start + lines[i].indent, lines[i].end as int) is Some {
            None
        } else {
            plain_lines(lines, b, i + 1, end, indent)
        }
    } else {
        Some(i)
    }
}

/// The line on which a flow value that ends at `pos` ends.
pub open spec fn flow_last(lines: Seq<Line>, last: int, end: int, pos: int) -> int
    decreases end - last,
{
    if last + 1 < end && pos > lines[last].full_end { flow_last(lines, last + 1, end, pos) } else { last }
}

pub open spec fn opt_int(o: Option<usize>) -> Option<int> {
    match o {
        Some(p) => Some(p as int),
        None => None,
    }
}

/// The outcome of reading the block value that starts at `vs` on line `i`,
/// with `n` nodes counted: the node count and the first line after it, or
/// `None` where it is refused.
pub open spec fn value_run(
    lines: Seq<Line>, b: Seq<u8>, i: int, end: int, vs: int, indent: int, depth: int, allow: bool, n: int,
    lim: Limits,
) -> Option<(int, int)>
    decreases end - i, 0int,
{
    if !(0 <= i < end && end <= lines.len()) {
        None
    } else {
        let l = lines[i];
        let ve = value_end_spec(b, vs, l.end as int);
        if vs >= ve {
            proof { lemma_skip_to(lines, b, i + 1, end); }
            let nx = skip_to(lines, b, i + 1, end);
            if nx < end && (lines[nx].indent > indent || (allow && lines[nx].indent == indent && is_sequence_line(lines, b, nx))) {
                block_run(lines, b, nx, end, lines[nx].indent as int, deeper_spec(depth), n, lim)
            } else if n < lim.max_nodes && depth <= lim.max_depth {
                Some((n + 1, i + 1))
            } else {
                None
            }
        } else if b[vs] == 0x7c || b[vs] == 0x3e {
            if !is_block_header(b, vs + 1, ve) {
                None
            } else if n < lim.max_nodes && depth <= lim.max_depth {
                Some((n + 1, scalar_lines(lines, b, i + 1, end, indent)))
            } else {
                None
            }
        } else if b[vs] == 0x7b || b[vs] == 0x5b || b[vs] == 0x27 || b[vs] == 0x22 {
            let max = if end < lines.len() { lines[end].start as int } else { b.len() as int };
            match flow_run(b, vs, max, n, lim, deeper_spec(depth)) {
                None => None,
                Some((n2, pos)) => {
                    let last0 = flow_last(lines, i, end, pos);
                    let last = if 0 <= last0 < lines.len() && pos == lines[last0].full_end && last0 + 1 < end { last0 + 1 } else { last0 };
                    let rest = spaces_end(b, pos, lines[last].end as int);
                    if rest < lines[last].end && b[rest] != 0x23 { None } else { Some((n2, last + 1)) }
                },
            }
        } else if b[vs] == 0x26 || b[vs] == 0x2a || b[vs] == 0x21 {
            None
        } else {
            match plain_lines(lines, b, i + 1, end, indent) {
                None => None,
                Some(nx) => if n < lim.max_nodes && depth <= lim.max_depth { Some((n + 1, nx)) } else { None },
            }
        }
    }
}

/// The outcome of reading a block mapping's entries from line `cur` on;
/// `any` records whether an entry was read. The mapping's own node is not
/// yet counted.
pub open spec fn map_entries(
    lines: Seq<Line>, b: Seq<u8>, cur: int, end: int, indent: int, first: Option<int>, depth: int, n: int,
    lim: Limits, any: bool,
) -> Option<(int, int)>
    decreases end - cur, 1int,
{
    if cur > end || end > lines.len() {
        None
    } else {
        proof { lemma_skip_to(lines, b, cur, end); }
        let c = skip_to(lines, b, cur, end);
        if c >= end {
            if any { Some((n, c)) } else { None }
        } else {
            let l = lines[c];
            let ks = match first {
                Some(p) => Some(p),
                None => if l.indent != indent || is_sequence_line(lines, b, c) { None } else { Some(l.start + indent) },
            };
            match ks {
                None => if any { Some((n, c)) } else { None },
                Some(k) => match colon_spec(b, k, l.end as int) {
                    None => None,
                    Some(co) => {
                        let raw = b.subrange(k, trimmed(b, k, co));
                        if !(valid_utf8(raw) && key_value(raw) is Some) || key_value(raw) == Some("<<"@) {
                            None
                        } else {
                            match value_run(lines, b, c, end, spaces_end(b, co + 1, l.end as int), indent, depth, true, n, lim) {
                                None => None,
                                Some((n2, nx)) => if nx <= c || nx > end {
                                    None
                                } else {
                                    map_entries(lines, b, nx, end, indent, None, depth, n2, lim, true)
                                },
                            }
                        }
                    },
                },
            }
        }
    }
}

/// How many entries a block mapping read from line `cur` holds: one for
/// each key whose value `map_entries` reads.
pub open spec fn map_entry_count(
    lines: Seq<Line>, b: Seq<u8>, cur: int, end: int, indent: int, first: Option<int>, depth: int, n: int, lim: Limits,
) -> int
    decreases end - cur,
{
    if cur > end || end > lines.len() {
        0
    } else {
        proof { lemma_skip_to(lines, b, cur, end); }
        let c = skip_to(lines, b, cur, end);
        if c >= end {
            0
        } else {
            let l = lines[c];
            let ks = match first {
                Some(p) => Some(p),
                None => if l.indent != indent || is_sequence_line(lines, b, c) { None } else { Some(l.start + indent) },
            };
            match ks {
                None => 0,
                Some(k) => match colon_spec(b, k, l.end as int) {
                    None => 0,
                    Some(co) => match value_run(lines, b, c, end, spaces_end(b, co + 1, l.end as int), indent, depth, true, n, lim) {
                        None => 0,
                        Some((n2, nx)) => if nx <= c || nx > end {
                            0
                        } else {
                            1 + map_entry_count(lines, b, nx, end, indent, None, depth, n2, lim)
                        },
                    },
                },
            }
        }
    }
}

/// The outcome of reading a block mapping that starts on line `i` (at
/// `first` when it starts inside a sequence item's line).
pub open spec fn mapping_run(
    lines: Seq<Line>, b: Seq<u8>, i: int, end: int, indent: int, first: Option<int>, depth: int, n: int, lim: Limits,
) -> Option<(int, int)>
    decreases end - i, 2int,
{
    match map_entries(lines, b, i, end, indent, first, depth, n, lim, false) {
        Some((n2, c)) => if n2 < lim.max_nodes && depth <= lim.max_depth { Some((n2 + 1, c)) } else { None },
        None => None,
    }
}

/// The outcome of reading a block sequence's items from line `cur` on.
pub open spec fn seq_entries(
    lines: Seq<Line>, b: Seq<u8>, cur: int, end: int, indent: int, depth: int, n: int, lim: Limits, any: bool,
) -> Option<(int, int)>
    decreases end - cur, 3int,
{
    if cur > end || end > lines.len() {
        None
    } else {
        proof { lemma_skip_to(lines, b, cur, end); }
        let c = skip_to(lines, b, cur, end);
        if c >= end || lines[c].indent != indent || !is_sequence_line(lines, b, c) {
            if any { Some((n, c)) } else { None }
        } else {
            let l = lines[c];
            let vs = spaces_end(b, l.start + indent + 1, l.end as int);
            let value = if colon_spec(b, vs, l.end as int) is Some && !(vs < b.len() && (b[vs] == 0x7b || b[vs] == 0x5b
                || b[vs] == 0x27 || b[vs] == 0x22)) {
                mapping_run(lines, b, c, end, indent + 2, Some(vs), deeper_spec(depth), n, lim)
            } else {
                value_run(lines, b, c, end, vs, indent, deeper_spec(depth), false, n, lim)
            };
            match value {
                None => None,
                Some((n2, nx)) => if nx <= c || nx > end {
                    None
                } else {
                    seq_entries(lines, b, nx, end, indent, depth, n2, lim, true)
                },
            }
        }
    }
}

/// How many items a block sequence read from line `cur` holds: one for each
/// `- ` line whose value `seq_entries` reads.
pub open spec fn seq_entry_count(
    lines: Seq<Line>, b: Seq<u8>, cur: int, end: int, indent: int, depth: int, n: int, lim: Limits,
) -> int
    decreases end - cur,
{
    if cur > end || end > lines.len() {
        0
    } else {
        proof { lemma_skip_to(lines, b, cur, end); }
        let c = skip_to(lines, b, cur, end);
        if c >= end || lines[c].indent != indent || !is_sequence_line(lines, b, c) {
            0
        } else {
            let l = lines[c];
            let vs = spaces_end(b, l.start + indent + 1, l.end as int);
            let value = if colon_spec(b, vs, l.end as int) is Some && !(vs < b.len() && (b[vs] == 0x7b || b[vs] == 0x5b
                || b[vs] == 0x27 || b[vs] == 0x22)) {
                mapping_run(lines, b, c, end, indent + 2, Some(vs), deeper_spec(depth), n, lim)
            } else {
                value_run(lines, b, c, end, vs, indent, deeper_spec(depth), false, n, lim)
            };
            match value {
                None => 0,
                Some((n2, nx)) => if nx <= c || nx > end {
                    0
                } else {
                    1 + seq_entry_count(lines, b, nx, end, indent, depth, n2, lim)
                },
            }
        }
    }
}

/// Whether the value read on line `i` from `vs` holds a mapping that
/// repeats a key.
pub open spec fn value_dup(
    lines: Seq<Line>, b: Seq<u8>, i: int, end: int, vs: int, indent: int, depth: int, allow: bool, n: int,
    lim: Limits,
) -> bool
    decreases end - i, 0int,
{
    if !(0 <= i < end && end <= lines.len()) {
        false
    } else {
        let l = lines[i];
        let ve = value_end_spec(b, vs, l.end as int);
        if vs >= ve {
            proof { lemma_skip_to(lines, b, i + 1, end); }
            let nx = skip_to(lines, b, i + 1, end);
            if nx < end && (lines[nx].indent > indent || (allow && lines[nx].indent == indent && is_sequence_line(lines, b, nx))) {
                block_dup(lines, b, nx, end, lines[nx].indent as int, deeper_spec(depth), n, lim)
            } else {
                false
            }
        } else if b[vs] == 0x7c || b[vs] == 0x3e {
            false
        } else if b[vs] == 0x7b || b[vs] == 0x5b || b[vs] == 0x27 || b[vs] == 0x22 {
            let max = if end < lines.len() { lines[end].start as int } else { b.len() as int };
            flow_dup(b, vs, max, n, lim, deeper_spec(depth))
        } else {
            false
        }
    }
}

/// Whether a block mapping's entries read from line `cur`, after the keys
/// `seen`, repeat a key or hold a value that does.
pub open spec fn map_entries_dup(
    lines: Seq<Line>, b: Seq<u8>, cur: int, end: int, indent: int, first: Option<int>, depth: int, n: int,
    lim: Limits, seen: Seq<Seq<char>>,
) -> bool
    decreases end - cur, 1int,
{
    if cur > end || end > lines.len() {
        false
    } else {
        proof { lemma_skip_to(lines, b, cur, end); }
        let c = skip_to(lines, b, cur, end);
        if c >= end {
            false
        } else {
            let l = lines[c];
            let ks = match first {
                Some(p) => Some(p),
                None => if l.indent != indent || is_sequence_line(lines, b, c) { None } else { Some(l.start + indent) },
            };
            match ks {
                None => false,
                Some(k) => match colon_spec(b, k, l.end as int) {
                    None => false,
                    Some(co) => {
                        let key = key_text(b.subrange(k, trimmed(b, k, co)));
                        let vs = spaces_end(b, co + 1, l.end as int);
                        let inner = value_dup(lines, b, c, end, vs, indent, depth, true, n, lim);
                        match value_run(lines, b, c, end, vs, indent, depth, true, n, lim) {
                            None => false,
                            Some((n2, nx)) => if nx <= c || nx > end {
                                false
                            } else {
                                seen.contains(key) || inner || map_entries_dup(lines, b, nx, end, indent, None, depth, n2, lim, seen.push(key))
                            },
                        }
                    },
                },
            }
        }
    }
}

/// Whether the block mapping read from line `i` repeats a key at any depth.
pub open spec fn mapping_dup(
    lines: Seq<Line>, b: Seq<u8>, i: int, end: int, indent: int, first: Option<int>, depth: int, n: int, lim: Limits,
) -> bool
    decreases end - i, 2int,
{
    map_entries_dup(lines, b, i, end, indent, first, depth, n, lim, Seq::empty())
}

/// Whether a block sequence's items read from line `cur` hold a mapping
/// that repeats a key.
pub open spec fn seq_entries_dup(
    lines: Seq<Line>, b: Seq<u8>, cur: int, end: int, indent: int, depth: int, n: int, lim: Limits,
) -> bool
    decreases end - cur, 3int,
{
    if cur > end || end > lines.len() {
        false
    } else {
        proof { lemma_skip_to(lines, b, cur, end); }
        let c = skip_to(lines, b, cur, end);
        if c >= end || lines[c].indent != indent || !is_sequence_line(lines, b, c) {
            false
        } else {
            let l = lines[c];
            let vs = spaces_end(b, l.start + indent + 1, l.end as int);
            let nested = colon_spec(b, vs, l.end as int) is Some && !(vs < b.len() && (b[vs] == 0x7b || b[vs] == 0x5b
                || b[vs] == 0x27 || b[vs] == 0x22));
            let value = if nested {
                mapping_run(lines, b, c, end, indent + 2, Some(vs), deeper_spec(depth), n, lim)
            } else {
                value_run(lines, b, c, end, vs, indent, deeper_spec(depth), false, n, lim)
            };
            let inner = if nested {
                mapping_dup(lines, b, c, end, indent + 2, Some(vs), deeper_spec(depth), n, lim)
            } else {
                value_dup(lines, b, c, end, vs, indent, deeper_spec(depth), false, n, lim)
            };
            match value {
                None => false,
                Some((n2, nx)) => if nx <= c || nx > end {
                    false
                } else {
                    inner || seq_entries_dup(lines, b, nx, end, indent, depth, n2, lim)
                },
            }
        }
    }
}

/// Whether the block sequence read from line `i` holds a mapping that
/// repeats a key.
pub open spec fn sequence_dup(
    lines: Seq<Line>, b: Seq<u8>, i: int, end: int, indent: int, depth: int, n: int, lim: Limits,
) -> bool
    decreases end - i, 4int,
{
    seq_entries_dup(lines, b, i, end, indent, depth, n, lim)
}

/// Whether the block node read from line `i` repeats a key at any depth.
pub open spec fn block_dup(
    lines: Seq<Line>, b: Seq<u8>, i: int, end: int, indent: int, depth: int, n: int, lim: Limits,
) -> bool
    decreases end - i, 5int,
{
    if !(0 <= i < end) || depth > lim.max_depth {
        false
    } else if is_sequence_line(lines, b, i) {
        sequence_dup(lines, b, i, end, indent, deeper_spec(depth), n, lim)
    } else {
        mapping_dup(lines, b, i, end, indent, None, deeper_spec(depth), n, lim)
    }
}

/// The outcome of reading a block sequence that starts on line `i`.
pub open spec fn sequence_run(
    lines: Seq<Line>, b: Seq<u8>, i: int, end: int, indent: int, depth: int, n: int, lim: Limits,
) -> Option<(int, int)>
    decreases end - i, 4int,
{
    match seq_entries(lines, b, i, end, indent, depth, n, lim, false) {
        Some((n2, c)) => if n2 < lim.max_nodes && depth <= lim.max_depth { Some((n2 + 1, c)) } else { None },
        None => None,
    }
}

/// The outcome of reading the block node whose first line is `i`: a
/// sequence when that line is a sequence item, a mapping otherwise.
pub open spec fn block_run(
    lines: Seq<Line>, b: Seq<u8>, i: int, end: int, indent: int, depth: int, n: int, lim: Limits,
) -> Option<(int, int)>
    decreases end - i, 5int,
{
    if !(0 <= i < end) || depth > lim.max_depth {
        None
    } else if is_sequence_line(lines, b, i) {
        sequence_run(lines, b, i, end, indent, deeper_spec(depth), n, lim)
    } else {
        mapping_run(lines, b, i, end, indent, None, deeper_spec(depth), n, lim)
    }
}

/// A block-level step succeeds exactly when its spec run does, and then
/// ends where the run ends, with the run's node count.
pub open spec fn step_run(res: Result<(Node, usize), CoreError>, run: Option<(int, int)>, nodes: int) -> bool {
    &&& (res is Ok <==> run is Some)
    &&& (res matches Ok((_, next)) ==> run == Some((nodes, next as int)))
}

/// The outcome a block-level parse step promises: the parser stays well
/// formed, the node is well formed, input lines are consumed, and any
/// repeated key was reported as an error.
pub open spec fn step_ok(p: Parser, res: Result<(Node, usize), CoreError>, i: int, end: int) -> bool {
    res matches Ok((n, next)) ==> {
        &&& node_wf(n, p.bytes@)
        &&& node_read(n, p.bytes@)
        &&& i < next <= end
        &&& (!keys_unique(n) ==> has_code(p.diagnostics@, "duplicate_key"@))
    }
}

/// Where a block-level step's node lies: from `lo` on, up to the end of the
/// last line it consumed, with its children nested inside it.
pub open spec fn step_spans(p: Parser, res: Result<(Node, usize), CoreError>, lo: int) -> bool {
    res matches Ok((n, next)) ==> {
        &&& lo <= n.span.start
        &&& n.span.end <= p.lines@[next - 1].full_end
        &&& node_nested(n)
    }
}

/// Later lines end later.
pub proof fn lemma_full_end_mono(lines: Seq<Line>, len: int, a: int, b: int)
    requires
        lines_wf(lines, len),
        0 <= a <= b < lines.len(),
    ensures
        lines[a].full_end <= lines[b].full_end,
{
    if a < b {
        crate::lines::lemma_lines_ordered(lines, len, a, b);
        assert(line_wf(lines[b], len));
    }
}

/// Keeping diagnostics as a prefix keeps any error among them.
pub proof fn lemma_error_kept(before: Seq<Diagnostic>, after: Seq<Diagnostic>, code: Seq<char>)
    requires
        before.len() <= after.len(),
        after.take(before.len() as int) =~= before,
        has_code(before, code),
    ensures
        has_code(after, code),
{
    let k = choose|k: int| 0 <= k < before.len() && (#[trigger] before[k]).severity == Severity::Error && before[k].code@ == code;
    assert(after[k] == after.take(before.len() as int)[k]);
}

impl<'a> Parser<'a> {
    /// `keeps` composes.
    pub proof fn lemma_keeps_trans(a: &Parser, b: &Parser, c: &Parser)
        requires
            b.keeps(a),
            c.keeps(b),
        ensures
            c.keeps(a),
    {
        assert(c.diagnostics@.take(a.diagnostics@.len() as int) =~= c.diagnostics@.take(
            b.diagnostics@.len() as int,
        ).take(a.diagnostics@.len() as int));
    }

    /// `keeps` holds of an unchanged parser.
    pub proof fn lemma_keeps_refl(a: &Parser)
        ensures
            a.keeps(a),
    {
        assert(a.diagnostics@.take(a.diagnostics@.len() as int) =~= a.diagnostics@);
    }
}

/// Appending an entry whose key is new keeps a mapping free of repeats.
pub proof fn lemma_new_key(entries: Seq<Entry>, e: Entry)
    requires
        !repeats_key(entries),
        forall|j: int| 0 <= j < entries.len() ==> (#[trigger] entries[j]).key@ != e.key@,
    ensures
        !repeats_key(entries.push(e)),
{
    let all = entries.push(e);
    if repeats_key(all) {
        let (a, b) = choose|a: int, b: int| 0 <= a < b < all.len() && all[a].key@ == all[b].key@;
        if b == entries.len() {
            assert(entries[a].key@ == e.key@);
        } else {
            assert(all[a] == entries[a] && all[b] == entries[b]);
        }
    }
}

/// One level deeper, saturating at the largest depth.
pub fn deeper(depth: usize) -> (res: usize)
    ensures
        res == if depth < usize::MAX { depth + 1 } else { depth as int },
{
    if depth < usize::MAX { depth + 1 } else { depth }
}

/// Whether a block scalar indicator is followed only by chomping (`+`, `-`)
/// and indentation (`1`..`9`) indicators.
pub open spec fn is_block_header(bytes: Seq<u8>, from: int, to: int) -> bool {
    forall|k: int| from <= k < to ==> {
        let c = #[trigger] bytes[k];
        c == 0x2b || c == 0x2d || (0x31 <= c && c <= 0x39)
    }
}

fn block_scalar_header(bytes: &[u8], from: usize, to: usize) -> (res: bool)
    requires
        to <= bytes@.len(),
    ensures
        res == is_block_header(bytes@, from as int, to as int),
{
    let mut k = from;
    while k < to
        invariant
            from <= k,
            to <= bytes@.len(),
            is_block_header(bytes@, from as int, k as int),
        decreases to - k,
    {
        let c = bytes[k];
        if !(c == 0x2b || c == 0x2d || (0x31 <= c && c <= 0x39)) {
            return false;
        }
        k = k + 1;
    }
    true
}

/// Whether the quoted scalar opening at `start` is closed before `end`.
pub open spec fn quote_scan_closes(bytes: Seq<u8>, start: int, end: int) -> bool {
    crate::lexer::quote_scan(bytes, bytes[start], start + 1, end) is Closed
}

/// Whether a key string occurs among `keys`.
/// Whether a mapping's entries have a key that repeats an earlier key at
/// `span`, or a value with such a repeat inside.
pub open spec fn entries_repeat_at(es: Seq<Entry>, span: Span) -> bool {
    (exists|a: int, b: int| #![trigger es[a], es[b]] 0 <= a < b < es.len() && es[a].key@ == es[b].key@ && es[b].key_span == span)
        || exists|k: int| 0 <= k < es.len() && repeat_at(#[trigger] es[k].value, span)
}

/// Whether a sequence's items hold a repeated key at `span`.
pub open spec fn items_repeat_at(items: Seq<Item>, span: Span) -> bool {
    exists|k: int| 0 <= k < items.len() && repeat_at(#[trigger] items[k].value, span)
}

/// Every diagnostic from index `from` on reports a repeated key of `n` at
/// its span.
pub open spec fn reports_in(ds: Seq<Diagnostic>, from: int, n: Node) -> bool {
    forall|m: int| from <= m < ds.len() ==> repeat_at(n, (#[trigger] ds[m]).span)
}

pub proof fn lemma_entries_push_repeat(es: Seq<Entry>, e: Entry, span: Span, dup_key: bool)
    requires
        entries_repeat_at(es, span) || repeat_at(e.value, span) || (dup_key && e.key_span == span && exists|j: int|
            0 <= j < es.len() && (#[trigger] es[j]).key@ == e.key@),
    ensures
        entries_repeat_at(es.push(e), span),
{
    let all = es.push(e);
    if exists|a: int, b: int| #![trigger es[a], es[b]] 0 <= a < b < es.len() && es[a].key@ == es[b].key@ && es[b].key_span == span {
        let (a, b) = choose|a: int, b: int| #![trigger es[a], es[b]] 0 <= a < b < es.len() && es[a].key@ == es[b].key@ && es[b].key_span == span;
        assert(all[a] == es[a] && all[b] == es[b]);
    } else if exists|k: int| 0 <= k < es.len() && repeat_at(#[trigger] es[k].value, span) {
        let k = choose|k: int| 0 <= k < es.len() && repeat_at(#[trigger] es[k].value, span);
        assert(all[k] == es[k]);
    } else if repeat_at(e.value, span) {
        assert(all[es.len() as int] == e);
    } else {
        let j = choose|j: int| 0 <= j < es.len() && (#[trigger] es[j]).key@ == e.key@;
        assert(all[j] == es[j] && all[es.len() as int] == e);
    }
}

pub proof fn lemma_items_push_repeat(items: Seq<Item>, it: Item, span: Span)
    requires
        items_repeat_at(items, span) || repeat_at(it.value, span),
    ensures
        items_repeat_at(items.push(it), span),
{
    let all = items.push(it);
    if exists|k: int| 0 <= k < items.len() && repeat_at(#[trigger] items[k].value, span) {
        let k = choose|k: int| 0 <= k < items.len() && repeat_at(#[trigger] items[k].value, span);
        assert(all[k] == items[k]);
    } else {
        assert(all[items.len() as int] == it);
    }
}

/// What a mapping's reports become when an entry is added: earlier
/// reports stay at repeats of the earlier entries, a report of the entry's
/// own key names a key an earlier entry has, and the reports made while
/// reading its value lie inside it.
pub proof fn lemma_entry_reports(top: Seq<Diagnostic>, mid: Seq<Diagnostic>, now: Seq<Diagnostic>, from: int, es: Seq<Entry>, e: Entry)
    requires
        0 <= from <= top.len() <= mid.len() <= now.len(),
        mid.take(top.len() as int) =~= top,
        now.take(mid.len() as int) =~= mid,
        forall|m: int| from <= m < top.len() ==> entries_repeat_at(es, (#[trigger] top[m]).span),
        mid.len() > top.len() ==> mid.len() == top.len() + 1 && mid[top.len() as int].span == e.key_span && exists|j: int|
            0 <= j < es.len() && (#[trigger] es[j]).key@ == e.key@,
        forall|m: int| mid.len() <= m < now.len() ==> repeat_at(e.value, (#[trigger] now[m]).span),
    ensures
        forall|m: int| from <= m < now.len() ==> entries_repeat_at(es.push(e), (#[trigger] now[m]).span),
{
    assert forall|m: int| from <= m < now.len() implies entries_repeat_at(es.push(e), (#[trigger] now[m]).span) by {
        let sp = now[m].span;
        if m < top.len() {
            assert(now[m] == mid[m]);
            assert(mid[m] == top[m]);
            lemma_entries_push_repeat(es, e, sp, false);
        } else if m < mid.len() {
            assert(now[m] == mid[m]);
            lemma_entries_push_repeat(es, e, sp, true);
        } else {
            lemma_entries_push_repeat(es, e, sp, false);
        }
    }
}

pub(crate) proof fn lemma_texts_contains(ks: Seq<String>, k: Seq<char>)
    ensures
        texts_view(ks).contains(k) == exists|j: int| 0 <= j < ks.len() && (#[trigger] ks[j])@ == k,
{
    if exists|j: int| 0 <= j < ks.len() && (#[trigger] ks[j])@ == k {
        let j = choose|j: int| 0 <= j < ks.len() && (#[trigger] ks[j])@ == k;
        assert(texts_view(ks)[j] == k);
    }
    if texts_view(ks).contains(k) {
        let j = choose|j: int| 0 <= j < texts_view(ks).len() && texts_view(ks)[j] == k;
        assert(ks[j]@ == k);
    }
}

pub(crate) proof fn lemma_texts_push(ks: Seq<String>, k: String)
    ensures
        texts_view(ks.push(k)) == texts_view(ks).push(k@),
{
    assert(texts_view(ks.push(k)) =~= texts_view(ks).push(k@));
}

fn seen_key(keys: &Vec<String>, key: &String) -> (res: bool)
    ensures
        res == exists|j: int| 0 <= j < keys@.len() && (#[trigger] keys@[j])@ == key@,
{
    let mut j: usize = 0;
    while j < keys.len()
        invariant
            j <= keys@.len(),
            forall|k: int| 0 <= k < j ==> (#[trigger] keys@[k])@ != key@,
        decreases keys@.len() - j,
    {
        if text_eq(keys[j].as_str(), key.as_str()) {
            return true;
        }
        j = j + 1;
    }
    false
}

/// A diagnostic the parser reports: an error for a repeated mapping key or
/// a repeated document file ID, with no object or property named.
pub open spec fn duplicate_report(d: Diagnostic) -> bool {
    &&& d.severity == Severity::Error
    &&& d.code@ == "duplicate_key"@ || d.code@ == "duplicate_object_id"@
    &&& d.object_id is None
    &&& d.property_path is None
}

impl<'a> Parser<'a> {
    pub open spec fn wf(&self) -> bool {
        &&& valid_utf8(self.bytes@)
        &&& self.bytes@.len() <= isize::MAX
        &&& lines_wf(self.lines@, self.bytes@.len() as int)
        &&& self.nodes <= self.limits.max_nodes
        &&& forall|k: int| 0 <= k < self.diagnostics@.len() ==> duplicate_report(#[trigger] self.diagnostics@[k])
    }

    /// What every step preserves: the input, the line table and the limits;
    /// the node count only grows and diagnostics are only appended.
    pub open spec fn keeps(&self, before: &Parser) -> bool {
        &&& self.bytes == before.bytes
        &&& self.lines@ == before.lines@
        &&& self.limits == before.limits
        &&& before.nodes <= self.nodes
        &&& before.diagnostics@.len() <= self.diagnostics@.len()
        &&& self.diagnostics@.take(before.diagnostics@.len() as int) =~= before.diagnostics@
    }

    pub(crate) fn trivia(&self, i: usize) -> (res: bool)
        requires
            self.wf(),
            i < self.lines@.len(),
        ensures
            res == is_trivia(self.lines@, self.bytes@, i as int),
    {
        let l = self.lines[i];
        proof { assert(line_wf(self.lines@[i as int], self.bytes@.len() as int)); }
        l.start + l.indent == l.end || self.bytes[l.start + l.indent] == 0x23
    }

    pub(crate) fn skip(&self, i: usize, end: usize) -> (res: usize)
        requires
            self.wf(),
            end <= self.lines@.len(),
        ensures
            i <= res,
            i <= end ==> res <= end,
            i > end ==> res == i,
            forall|k: int| i <= k < res ==> is_trivia(self.lines@, self.bytes@, k),
            res < end ==> !is_trivia(self.lines@, self.bytes@, res as int),
            res == skip_to(self.lines@, self.bytes@, i as int, end as int),
    {
        let mut k = i;
        while k < end && self.trivia(k)
            invariant
                self.wf(),
                end <= self.lines@.len(),
                i <= k,
                i <= end ==> k <= end,
                i > end ==> k == i,
                forall|j: int| i <= j < k ==> is_trivia(self.lines@, self.bytes@, j),
                skip_to(self.lines@, self.bytes@, i as int, end as int) == skip_to(self.lines@, self.bytes@, k as int, end as int),
            decreases end - k,
        {
            k = k + 1;
        }
        k
    }

    fn sequence_line(&self, i: usize) -> (res: bool)
        requires
            self.wf(),
            i < self.lines@.len(),
        ensures
            res == is_sequence_line(self.lines@, self.bytes@, i as int),
    {
        let l = self.lines[i];
        proof { assert(line_wf(self.lines@[i as int], self.bytes@.len() as int)); }
        let p = l.start + l.indent;
        p < l.end && self.bytes[p] == 0x2d && (p + 1 == l.end || self.bytes[p + 1] == 0x20)
    }

    pub(crate) fn diagnostic(&mut self, code: &str, message: String, span: Span)
        requires
            old(self).wf(),
            code@ == "duplicate_key"@ || code@ == "duplicate_object_id"@,
        ensures
            final(self).diagnostics@.last().span == span,
            final(self).wf(),
            final(self).keeps(&*old(self)),
            final(self).diagnostics@.len() == old(self).diagnostics@.len() + 1,
            final(self).diagnostics@.last().severity == Severity::Error,
            final(self).diagnostics@.last().code@ == code@,
            final(self).nodes == old(self).nodes,
    {
        self.diagnostics.push(
            Diagnostic {
                code: code.to_owned(),
                message,
                span,
                severity: Severity::Error,
                object_id: None,
                property_path: None,
            },
        );
    }

    /// Counts a new node and computes its fingerprint, within the node and
    /// depth budgets.
    fn make(&mut self, span: Span, kind: NodeKind, flow: bool, indent: usize, depth: usize) -> (res:
        Result<Node, CoreError>)
        requires
            old(self).wf(),
            span.within(old(self).bytes@.len() as int),
        ensures
            final(self).wf(),
            final(self).keeps(&*old(self)),
            final(self).diagnostics@ == old(self).diagnostics@,
            res matches Ok(n) ==> {
                &&& n.span == span
                &&& n.kind == kind
                &&& n.flow == flow
                &&& n.indent == indent
                &&& n.fingerprint@ == fingerprint_of(kind, span, old(self).bytes@)
                &&& final(self).nodes == old(self).nodes + 1
            },
            res matches Err(e) ==> (e.code@ == "node_limit"@ <==> old(self).nodes
                >= old(self).limits.max_nodes),
            res matches Err(e) ==> (e.code@ == "node_limit"@ || e.code@ == "depth_limit"@),
            res is Err <==> (old(self).nodes >= old(self).limits.max_nodes || depth
                > old(self).limits.max_depth),
    {
        if self.nodes >= self.limits.max_nodes {
            return Err(CoreError::new("node_limit", "asset exceeds parser node budget", span.start));
        }
        self.nodes = self.nodes + 1;
        if depth > self.limits.max_depth {
            proof {
                reveal_strlit("node_limit");
                reveal_strlit("depth_limit");
                assert("depth_limit"@[0] != "node_limit"@[0]);
            }
            return Err(CoreError::new("depth_limit", "asset exceeds parser nesting budget", span.start));
        }
        let fingerprint = fingerprint(&kind, span, self.bytes);
        Ok(Node { span, kind, flow, indent, fingerprint })
    }

    /// Moves `pos` past the quoted scalar that opens at `pos`.
    fn quoted(&self, pos: &mut usize, end: usize) -> (res: Result<(), CoreError>)
        requires
            self.wf(),
            *old(pos) < end <= self.bytes@.len(),
        ensures
            res is Ok <==> quote_scan_closes(self.bytes@, *old(pos) as int, end as int),
            res is Ok ==> *old(pos) + 1 < *final(pos) <= end && self.bytes@[*final(pos) - 1]
                == self.bytes@[*old(pos) as int],
            res is Err ==> *final(pos) == *old(pos),
            res is Ok ==> quote_scan(self.bytes@, self.bytes@[*old(pos) as int], *old(pos) + 1, end as int)
                == QuoteScan::Closed(*final(pos)),
    {
        match scan_quoted(self.bytes, *pos, end) {
            QuoteScan::Closed(p) => {
                *pos = p;
                Ok(())
            },
            QuoteScan::BadEscape(p) => Err(
                CoreError::new("quoted_escape", "invalid YAML double-quoted escape", p),
            ),
            QuoteScan::BadHex(p) => Err(CoreError::new("quoted_escape", "invalid Unicode escape", p)),
            QuoteScan::Unterminated => Err(
                CoreError::new("unterminated_quote", "quoted scalar is not closed", *pos),
            ),
        }
    }

    /// The block node whose first line is `i`: a sequence when that line is
    /// a sequence item, a mapping otherwise.
    pub(crate) fn block(&mut self, i: usize, end: usize, indent: usize, depth: usize) -> (res: Result<(Node, usize), CoreError>)
        requires
            old(self).wf(),
            i < end <= old(self).lines@.len(),
            old(self).lines@[i as int].indent == indent,
        ensures
            final(self).wf(),
            final(self).keeps(&*old(self)),
            step_ok(*final(self), res, i as int, end as int),
            step_spans(*final(self), res, old(self).lines@[i as int].start as int),
            step_run(res, block_run(old(self).lines@, old(self).bytes@, i as int, end as int, indent as int, depth as int, old(self).nodes as int, old(self).limits), final(self).nodes as int),
            res matches Ok((n, _)) ==> (n.kind is Mapping <==> !is_sequence_line(old(self).lines@, old(self).bytes@, i as int)),
            res matches Ok((n, _)) ==> (final(self).diagnostics@.len() > old(self).diagnostics@.len() ==> !keys_unique(n)),
            res matches Ok((n, _)) ==> reports_in(final(self).diagnostics@, old(self).diagnostics@.len() as int, n),
            res is Ok ==> ((final(self).diagnostics@.len() > old(self).diagnostics@.len()) == block_dup(old(self).lines@, old(self).bytes@, i as int, end as int, indent as int,
                depth as int, old(self).nodes as int, old(self).limits)),
        decreases end - i, 3int,
    {
        if depth > self.limits.max_depth {
            return Err(CoreError::new("depth_limit", "asset exceeds parser nesting budget", self.lines[i].start));
        }
        if self.sequence_line(i) {
            self.sequence(i, end, indent, deeper(depth))
        } else {
            self.mapping(i, end, indent, None, deeper(depth))
        }
    }

    /// A block mapping whose entries sit at `indent`; `first` is the position
    /// of its first key when it starts inside a sequence item's line.
    #[verifier::rlimit(100)]
    #[verifier::spinoff_prover]
    fn mapping(&mut self, i: usize, end: usize, indent: usize, first: Option<usize>, depth: usize) -> (res: Result<(Node, usize), CoreError>)
        requires
            old(self).wf(),
            i < end <= old(self).lines@.len(),
            first is None ==> old(self).lines@[i as int].indent == indent,
            first matches Some(p) ==> old(self).lines@[i as int].start <= p <= old(self).lines@[i as int].end
                && !is_trivia(old(self).lines@, old(self).bytes@, i as int),
        ensures
            final(self).wf(),
            final(self).keeps(&*old(self)),
            step_ok(*final(self), res, i as int, end as int),
            step_spans(*final(self), res, (match first { Some(p) => p as int, None => old(self).lines@[i as int].start as int })),
            step_run(res, mapping_run(old(self).lines@, old(self).bytes@, i as int, end as int, indent as int, opt_int(first), depth as int, old(self).nodes as int, old(self).limits), final(self).nodes as int),
            res matches Ok((n, _)) ==> n.kind is Mapping,
            res matches Ok((n, _)) ==> (final(self).diagnostics@.len() > old(self).diagnostics@.len() ==> !keys_unique(n)),
            res matches Ok((n, _)) ==> reports_in(final(self).diagnostics@, old(self).diagnostics@.len() as int, n),
            res is Ok ==> ((final(self).diagnostics@.len() > old(self).diagnostics@.len()) == mapping_dup(old(self).lines@, old(self).bytes@, i as int, end as int, indent as int,
                opt_int(first), depth as int, old(self).nodes as int, old(self).limits)),
            res matches Ok((n, _)) ==> (n.kind matches NodeKind::Mapping(es) ==> es@.len() == map_entry_count(
                old(self).lines@,
                old(self).bytes@,
                i as int,
                end as int,
                indent as int,
                opt_int(first),
                depth as int,
                old(self).nodes as int,
                old(self).limits,
            )),
        decreases end - i, 1int,
    {
        proof {
            Parser::lemma_keeps_refl(&*self);
            assert(line_wf(self.lines@[i as int], self.bytes@.len() as int));
        }
        let i0 = i;
        let start = match first {
            Some(p) => p,
            None => self.lines[i].start + indent,
        };
        let mut first_pos = first;
        let mut cur = i;
        let mut entries: Vec<Entry> = Vec::new();
        let mut keys: Vec<String> = Vec::new();
        assert(texts_view(keys@) =~= Seq::<Seq<char>>::empty());
        let mut node_end = start;
        loop
            invariant_except_break
                map_entries(self.lines@, self.bytes@, cur as int, end as int, indent as int, opt_int(first_pos), depth as int,
                    self.nodes as int, self.limits, entries@.len() > 0) == map_entries(self.lines@, self.bytes@, i as int,
                    end as int, indent as int, opt_int(first), depth as int, old(self).nodes as int, self.limits, false),
                entries@.len() + map_entry_count(self.lines@, self.bytes@, cur as int, end as int, indent as int, opt_int(first_pos),
                    depth as int, self.nodes as int, self.limits) == map_entry_count(self.lines@, self.bytes@, i as int, end as int,
                    indent as int, opt_int(first), depth as int, old(self).nodes as int, self.limits),
                (self.diagnostics@.len() > old(self).diagnostics@.len() || map_entries_dup(self.lines@, self.bytes@, cur as int,
                    end as int, indent as int, opt_int(first_pos), depth as int, self.nodes as int, self.limits, texts_view(keys@)))
                    == map_entries_dup(self.lines@, self.bytes@, i as int, end as int, indent as int, opt_int(first), depth as int,
                    old(self).nodes as int, self.limits, Seq::empty()),
            invariant
                self.wf(),
                self.keeps(&*old(self)),
                i0 == i,
                i0 <= cur <= end,
                end <= self.lines@.len(),
                i0 < end,
                self.lines@[i0 as int].start <= start <= self.lines@[i0 as int].end,
                start <= node_end <= self.bytes@.len(),
                first_pos matches Some(p) ==> cur == i0 && entries@.len() == 0 && p == start
                    && !is_trivia(self.lines@, self.bytes@, cur as int),
                first is None ==> indent == self.lines@[i0 as int].indent,
                first is None ==> start == self.lines@[i0 as int].start + indent,
                first is Some && entries@.len() == 0 ==> first_pos is Some,
                entries@.len() > 0 ==> i0 < cur,
                keys@.len() == entries@.len(),
                forall|j: int| 0 <= j < entries@.len() ==> (#[trigger] keys@[j])@ == entries@[j].key@,
                forall|j: int| 0 <= j < entries@.len() ==> {
                    &&& (#[trigger] entries@[j]).key_span.within(self.bytes@.len() as int)
                    &&& entries@[j].span.within(self.bytes@.len() as int)
                    &&& node_wf(entries@[j].value, self.bytes@)
                    &&& node_read(entries@[j].value, self.bytes@)
                    &&& key_value(self.bytes@.subrange(entries@[j].key_span.start as int, entries@[j].key_span.end as int))
                        == Some(entries@[j].key@)
                },
                forall|j: int| 0 <= j < entries@.len() ==> {
                    &&& start <= (#[trigger] entries@[j]).key_span.start
                    &&& entries@[j].key_span.end <= entries@[j].value.span.start
                    &&& entries@[j].value.span.end <= node_end
                    &&& node_nested(entries@[j].value)
                },
                forall|j: int, k: int| 0 <= j < k < entries@.len() ==> (#[trigger] entries@[j]).value.span.end
                    <= (#[trigger] entries@[k]).key_span.start,
                entries@.len() > 0 ==> node_end <= self.lines@[cur - 1].full_end,
                entries@.len() == 0 ==> node_end == start,
                (repeats_key(entries@) || exists|j: int|
                    0 <= j < entries@.len() && !keys_unique(#[trigger] entries@[j].value))
                    ==> has_code(self.diagnostics@, "duplicate_key"@),
                self.diagnostics@.len() > old(self).diagnostics@.len() ==> (repeats_key(entries@) || exists|j: int|
                    0 <= j < entries@.len() && !keys_unique(#[trigger] entries@[j].value)),
                forall|m: int| old(self).diagnostics@.len() <= m < self.diagnostics@.len() ==> entries_repeat_at(entries@,
                    (#[trigger] self.diagnostics@[m]).span),
            ensures
                map_entries(self.lines@, self.bytes@, i as int, end as int, indent as int, opt_int(first), depth as int,
                    old(self).nodes as int, self.limits, false) == (if entries@.len() > 0 {
                    Some((self.nodes as int, cur as int))
                } else {
                    None
                }),
                entries@.len() == map_entry_count(self.lines@, self.bytes@, i as int, end as int, indent as int, opt_int(first),
                    depth as int, old(self).nodes as int, self.limits),
                (self.diagnostics@.len() > old(self).diagnostics@.len()) == map_entries_dup(self.lines@, self.bytes@, i as int,
                    end as int, indent as int, opt_int(first), depth as int, old(self).nodes as int, self.limits, Seq::empty()),
            decreases end - cur,
        {
            let ghost cur0 = cur;
            cur = self.skip(cur, end);
            proof {
                if entries@.len() > 0 && cur0 < cur && cur <= end {
                    lemma_full_end_mono(self.lines@, self.bytes@.len() as int, cur0 - 1, cur - 1);
                }
            }
            if cur >= end {
                break;
            }
            let l = self.lines[cur];
            proof {
                assert(line_wf(self.lines@[cur as int], self.bytes@.len() as int));
                if i0 < cur {
                    crate::lines::lemma_lines_ordered(self.lines@, self.bytes@.len() as int, i0 as int, cur as int);
                }
                if entries@.len() > 0 {
                    crate::lines::lemma_lines_ordered(self.lines@, self.bytes@.len() as int, cur0 - 1, cur as int);
                }
            }
            let key_start = match first_pos {
                Some(p) => {
                    first_pos = None;
                    p
                },
                None => {
                    if l.indent != indent || self.sequence_line(cur) {
                        break;
                    }
                    l.start + indent
                },
            };
            proof {
                assert(line_wf(self.lines@[i0 as int], self.bytes@.len() as int));
                assert(node_end <= key_start);
            }
            let colon = match find_colon(self.bytes, key_start, l.end) {
                Some(c) => c,
                None => {
                    return Err(CoreError::new("mapping_key", "expected a mapping key followed by ':'", key_start));
                },
            };
            let key_end = trim_end(self.bytes, key_start, colon);
            let key_span = Span::new(key_start, key_end);
            let key = match decode_key(crate::syntax::slice_range(self.bytes, key_start, key_end)) {
                Ok(k) => k,
                Err(m) => return Err(CoreError::new("mapping_key", m, key_start)),
            };
            if text_eq(key.as_str(), "<<") {
                return Err(CoreError::new(
                    "yaml_merge_key",
                    "YAML aliases/merge keys are outside the Unity dialect",
                    key_start,
                ));
            }
            let ghost d_iter = self.diagnostics@.len();
            let ghost ds_top = self.diagnostics@;
            let duplicate = seen_key(&keys, &key);
            proof { lemma_texts_contains(keys@, key@); }
            if duplicate {
                let message = concat("duplicate mapping key ", key.as_str());
                self.diagnostic("duplicate_key", message, key_span);
                proof {
                    assert(self.diagnostics@[self.diagnostics@.len() - 1].severity == Severity::Error);
                }
            }
            let value_start = skip_spaces(self.bytes, colon + 1, l.end);
            let ghost before_value = *self;
            let (value, next) = self.block_value(cur, end, value_start, indent, depth, true)?;
            proof {
                if has_code(before_value.diagnostics@, "duplicate_key"@) {
                    lemma_error_kept(before_value.diagnostics@, self.diagnostics@, "duplicate_key"@);
                }
                assert(line_wf(self.lines@[next - 1], self.bytes@.len() as int));
                if cur < next - 1 {
                    crate::lines::lemma_lines_ordered(self.lines@, self.bytes@.len() as int, cur as int, next - 1);
                }
            }
            let entry_start = if key_start == l.start + l.indent { l.start } else { key_start };
            let entry_end = self.lines[next - 1].full_end;
            node_end = entry_end;
            let ghost old_entries = entries@;
            let e = Entry { key, key_span, span: Span::new(entry_start, entry_end), value };
            proof {
                if !duplicate {
                    if !repeats_key(old_entries) {
                        assert forall|j: int| 0 <= j < old_entries.len() implies (#[trigger] old_entries[j]).key@ != e.key@ by {
                            assert(keys@[j]@ == old_entries[j].key@);
                        }
                        lemma_new_key(old_entries, e);
                    }
                } else {
                    let j = choose|j: int| 0 <= j < keys@.len() && (#[trigger] keys@[j])@ == e.key@;
                    assert(old_entries.push(e)[j].key@ == old_entries.push(e)[old_entries.len() as int].key@);
                }
            }
            let ghost old_keys = keys@;
            keys.push(e.key.clone());
            proof { lemma_texts_push(old_keys, keys@.last()); assert(keys@ == old_keys.push(keys@.last())); }
            entries.push(e);
            proof {
                assert(entries@ == old_entries.push(e));
                if self.diagnostics@.len() > old(self).diagnostics@.len() {
                    if d_iter > old(self).diagnostics@.len() {
                        if repeats_key(old_entries) {
                            let (a, b) = choose|a: int, b: int| 0 <= a < b < old_entries.len() && old_entries[a].key@ == old_entries[b].key@;
                            assert(entries@[a] == old_entries[a] && entries@[b] == old_entries[b]);
                        } else {
                            let j = choose|j: int| 0 <= j < old_entries.len() && !keys_unique(#[trigger] old_entries[j].value);
                            assert(entries@[j] == old_entries[j]);
                        }
                    } else if !duplicate {
                        assert(!keys_unique(entries@[old_entries.len() as int].value));
                    }
                }
                if duplicate {
                    let j = choose|j: int| 0 <= j < keys@.len() - 1 && (#[trigger] old_keys[j])@ == e.key@;
                    assert(old_entries[j].key@ == e.key@);
                }
                lemma_entry_reports(ds_top, before_value.diagnostics@, self.diagnostics@, old(self).diagnostics@.len() as int,
                    old_entries, e);
                if exists|j: int| 0 <= j < entries@.len() && !keys_unique(#[trigger] entries@[j].value) {
                    let j = choose|j: int| 0 <= j < entries@.len() && !keys_unique(#[trigger] entries@[j].value);
                    if j < old_entries.len() {
                        assert(entries@[j] == old_entries[j]);
                        lemma_error_kept(before_value.diagnostics@, self.diagnostics@, "duplicate_key"@);
                    }
                }
                assert forall|j: int| 0 <= j < entries@.len() implies {
                    &&& start <= (#[trigger] entries@[j]).key_span.start
                    &&& entries@[j].key_span.end <= entries@[j].value.span.start
                    &&& entries@[j].value.span.end <= node_end
                    &&& node_nested(entries@[j].value)
                } by {
                    if j < old_entries.len() {
                        assert(entries@[j] == old_entries[j]);
                    }
                }
                assert forall|j: int, k: int| 0 <= j < k < entries@.len() implies (#[trigger] entries@[j]).value.span.end
                    <= (#[trigger] entries@[k]).key_span.start by {
                    assert(entries@[j] == old_entries[j]);
                    if k < old_entries.len() {
                        assert(entries@[k] == old_entries[k]);
                    }
                }
            }
            cur = next;
        }
        if entries.len() == 0 {
            return Err(CoreError::new("empty_mapping", "expected a mapping entry", start));
        }
        let node = self.make(Span::new(start, node_end), NodeKind::Mapping(entries), false, indent, depth)?;
        Ok((node, cur))
    }

    /// A block sequence whose items sit at `indent`.
    #[verifier::rlimit(100)]
    #[verifier::spinoff_prover]
    fn sequence(&mut self, i: usize, end: usize, indent: usize, depth: usize) -> (res: Result<(Node, usize), CoreError>)
        requires
            old(self).wf(),
            i < end <= old(self).lines@.len(),
            old(self).lines@[i as int].indent == indent,
            is_sequence_line(old(self).lines@, old(self).bytes@, i as int),
        ensures
            final(self).wf(),
            final(self).keeps(&*old(self)),
            step_ok(*final(self), res, i as int, end as int),
            step_spans(*final(self), res, old(self).lines@[i as int].start as int),
            step_run(res, sequence_run(old(self).lines@, old(self).bytes@, i as int, end as int, indent as int, depth as int, old(self).nodes as int, old(self).limits), final(self).nodes as int),
            res matches Ok((n, _)) ==> n.kind is Sequence,
            res matches Ok((n, _)) ==> (final(self).diagnostics@.len() > old(self).diagnostics@.len() ==> !keys_unique(n)),
            res matches Ok((n, _)) ==> reports_in(final(self).diagnostics@, old(self).diagnostics@.len() as int, n),
            res is Ok ==> ((final(self).diagnostics@.len() > old(self).diagnostics@.len()) == sequence_dup(old(self).lines@, old(self).bytes@, i as int, end as int, indent as int,
                depth as int, old(self).nodes as int, old(self).limits)),
            res matches Ok((n, _)) ==> (n.kind matches NodeKind::Sequence(items) ==> items@.len() == seq_entry_count(
                old(self).lines@,
                old(self).bytes@,
                i as int,
                end as int,
                indent as int,
                depth as int,
                old(self).nodes as int,
                old(self).limits,
            )),
        decreases end - i, 2int,
    {
        proof {
            Parser::lemma_keeps_refl(&*self);
            assert(line_wf(self.lines@[i as int], self.bytes@.len() as int));
        }
        let i0 = i;
        let start = self.lines[i].start + indent;
        let mut cur = i;
        let mut items: Vec<Item> = Vec::new();
        let mut node_end = start;
        loop
            invariant_except_break
                seq_entries(self.lines@, self.bytes@, cur as int, end as int, indent as int, depth as int, self.nodes as int,
                    self.limits, items@.len() > 0) == seq_entries(self.lines@, self.bytes@, i as int, end as int, indent as int,
                    depth as int, old(self).nodes as int, self.limits, false),
                items@.len() + seq_entry_count(self.lines@, self.bytes@, cur as int, end as int, indent as int, depth as int,
                    self.nodes as int, self.limits) == seq_entry_count(self.lines@, self.bytes@, i as int, end as int, indent as int,
                    depth as int, old(self).nodes as int, self.limits),
                (self.diagnostics@.len() > old(self).diagnostics@.len() || seq_entries_dup(self.lines@, self.bytes@, cur as int,
                    end as int, indent as int, depth as int, self.nodes as int, self.limits)) == seq_entries_dup(self.lines@,
                    self.bytes@, i as int, end as int, indent as int, depth as int, old(self).nodes as int, self.limits),
            invariant
                self.wf(),
                self.keeps(&*old(self)),
                i0 == i,
                i0 <= cur <= end,
                end <= self.lines@.len(),
                i0 < end,
                self.lines@[i0 as int].indent == indent,
                is_sequence_line(self.lines@, self.bytes@, i0 as int),
                !is_trivia(self.lines@, self.bytes@, i0 as int),
                start == self.lines@[i0 as int].start + indent,
                start <= node_end <= self.bytes@.len(),
                items@.len() == 0 ==> cur == i0,
                items@.len() > 0 ==> i0 < cur,
                forall|j: int| 0 <= j < items@.len() ==> {
                    &&& (#[trigger] items@[j]).span.within(self.bytes@.len() as int)
                    &&& node_wf(items@[j].value, self.bytes@)
                    &&& node_read(items@[j].value, self.bytes@)
                },
                forall|j: int| 0 <= j < items@.len() ==> {
                    &&& start <= (#[trigger] items@[j]).value.span.start
                    &&& items@[j].value.span.end <= node_end
                    &&& node_nested(items@[j].value)
                },
                forall|j: int, k: int| 0 <= j < k < items@.len() ==> (#[trigger] items@[j]).value.span.end
                    <= (#[trigger] items@[k]).value.span.start,
                items@.len() > 0 ==> node_end <= self.lines@[cur - 1].full_end,
                items@.len() == 0 ==> node_end == start,
                (exists|j: int| 0 <= j < items@.len() && !keys_unique(#[trigger] items@[j].value))
                    ==> has_code(self.diagnostics@, "duplicate_key"@),
                self.diagnostics@.len() > old(self).diagnostics@.len() ==> (exists|j: int| 0 <= j < items@.len() && !keys_unique(#[trigger] items@[j].value)),
                forall|m: int| old(self).diagnostics@.len() <= m < self.diagnostics@.len() ==> items_repeat_at(items@,
                    (#[trigger] self.diagnostics@[m]).span),
            ensures
                items@.len() > 0,
                seq_entries(self.lines@, self.bytes@, i as int, end as int, indent as int, depth as int,
                    old(self).nodes as int, self.limits, false) == Some((self.nodes as int, cur as int)),
                items@.len() == seq_entry_count(self.lines@, self.bytes@, i as int, end as int, indent as int, depth as int,
                    old(self).nodes as int, self.limits),
                (self.diagnostics@.len() > old(self).diagnostics@.len()) == seq_entries_dup(self.lines@, self.bytes@, i as int,
                    end as int, indent as int, depth as int, old(self).nodes as int, self.limits),
            decreases end - cur,
        {
            let ghost before_skip = cur;
            cur = self.skip(cur, end);
            proof {
                if items@.len() > 0 && before_skip < cur && cur <= end {
                    lemma_full_end_mono(self.lines@, self.bytes@.len() as int, before_skip - 1, cur - 1);
                }
                if items@.len() == 0 {
                    assert(before_skip == i0);
                    if cur > i0 {
                        assert(is_trivia(self.lines@, self.bytes@, i0 as int));
                    }
                    assert(cur == i0);
                }
            }
            if cur >= end || self.lines[cur].indent != indent || !self.sequence_line(cur) {
                break;
            }
            let l = self.lines[cur];
            proof {
                assert(line_wf(self.lines@[cur as int], self.bytes@.len() as int));
                if items@.len() > 0 {
                    crate::lines::lemma_lines_ordered(self.lines@, self.bytes@.len() as int, before_skip - 1, cur as int);
                }
            }
            let value_start = skip_spaces(self.bytes, l.start + indent + 1, l.end);
            let mapping_colon = find_colon(self.bytes, value_start, l.end);
            let ghost d_iter = self.diagnostics@.len();
            let ghost ds_top = self.diagnostics@;
            let ghost before_value = *self;
            let (value, next) = if mapping_colon.is_some() && !(value_start < self.bytes.len() && (
            self.bytes[value_start] == 0x7b || self.bytes[value_start] == 0x5b || self.bytes[value_start]
                == 0x27 || self.bytes[value_start] == 0x22)) {
                self.mapping(cur, end, indent + 2, Some(value_start), deeper(depth))?
            } else {
                self.block_value(cur, end, value_start, indent, deeper(depth), false)?
            };
            proof {
                assert(line_wf(self.lines@[next - 1], self.bytes@.len() as int));
                if cur < next - 1 {
                    crate::lines::lemma_lines_ordered(self.lines@, self.bytes@.len() as int, cur as int, next - 1);
                }
                if i0 < cur {
                    crate::lines::lemma_lines_ordered(self.lines@, self.bytes@.len() as int, i0 as int, cur as int);
                }
                assert(line_wf(self.lines@[i0 as int], self.bytes@.len() as int));
            }
            node_end = self.lines[next - 1].full_end;
            let ghost old_items = items@;
            let item = Item { span: Span::new(l.start, node_end), value };
            items.push(item);
            proof {
                assert(items@ == old_items.push(item));
                if self.diagnostics@.len() > old(self).diagnostics@.len() {
                    if d_iter > old(self).diagnostics@.len() {
                        let j = choose|j: int| 0 <= j < old_items.len() && !keys_unique(#[trigger] old_items[j].value);
                        assert(items@[j] == old_items[j]);
                    } else {
                        assert(!keys_unique(items@[old_items.len() as int].value));
                    }
                }
                assert forall|m: int| old(self).diagnostics@.len() <= m < self.diagnostics@.len() implies items_repeat_at(
                    items@,
                    (#[trigger] self.diagnostics@[m]).span,
                ) by {
                    let sp = self.diagnostics@[m].span;
                    if m < d_iter {
                        assert(self.diagnostics@[m] == ds_top[m]);
                    }
                    lemma_items_push_repeat(old_items, item, sp);
                }
                if exists|j: int| 0 <= j < items@.len() && !keys_unique(#[trigger] items@[j].value) {
                    let j = choose|j: int| 0 <= j < items@.len() && !keys_unique(#[trigger] items@[j].value);
                    if j < old_items.len() {
                        assert(items@[j] == old_items[j]);
                        lemma_error_kept(before_value.diagnostics@, self.diagnostics@, "duplicate_key"@);
                    }
                }
                assert forall|j: int| 0 <= j < items@.len() implies {
                    &&& start <= (#[trigger] items@[j]).value.span.start
                    &&& items@[j].value.span.end <= node_end
                    &&& node_nested(items@[j].value)
                } by {
                    if j < old_items.len() {
                        assert(items@[j] == old_items[j]);
                    }
                }
                assert forall|j: int, k: int| 0 <= j < k < items@.len() implies (#[trigger] items@[j]).value.span.end
                    <= (#[trigger] items@[k]).value.span.start by {
                    assert(items@[j] == old_items[j]);
                    if k < old_items.len() {
                        assert(items@[k] == old_items[k]);
                    }
                }
            }
            cur = next;
        }
        assert(items@.len() > 0);
        let ghost items_seq = items@;
        let node = self.make(Span::new(start, node_end), NodeKind::Sequence(items), false, indent, depth)?;
        assert(node_wf(node, self.bytes@));
        assert(i < cur <= end);
        Ok((node, cur))
    }

    /// The value of a mapping entry or sequence item whose text starts at
    /// `value_start` on line `i`: nested block, block scalar, flow value or
    /// (possibly wrapped) plain scalar.
    #[verifier::rlimit(100)]
    #[verifier::spinoff_prover]
    fn block_value(&mut self, i: usize, end: usize, value_start: usize, indent: usize, depth: usize, allow_indentless_sequence: bool) -> (res: Result<(Node, usize), CoreError>)
        requires
            old(self).wf(),
            i < end <= old(self).lines@.len(),
            old(self).lines@[i as int].start <= value_start <= old(self).lines@[i as int].end,
        ensures
            final(self).wf(),
            final(self).keeps(&*old(self)),
            step_ok(*final(self), res, i as int, end as int),
            step_spans(*final(self), res, value_start as int),
            step_run(res, value_run(old(self).lines@, old(self).bytes@, i as int, end as int, value_start as int, indent as int, depth as int, allow_indentless_sequence, old(self).nodes as int, old(self).limits), final(self).nodes as int),
            res matches Ok((n, _)) ==> (final(self).diagnostics@.len() > old(self).diagnostics@.len() ==> !keys_unique(n)),
            res matches Ok((n, _)) ==> reports_in(final(self).diagnostics@, old(self).diagnostics@.len() as int, n),
            res is Ok ==> ((final(self).diagnostics@.len() > old(self).diagnostics@.len()) == value_dup(old(self).lines@, old(self).bytes@, i as int, end as int, value_start as int,
                indent as int, depth as int, allow_indentless_sequence, old(self).nodes as int, old(self).limits)),
        decreases end - i, 0int,
    {
        proof {
            Parser::lemma_keeps_refl(&*self);
            assert(line_wf(self.lines@[i as int], self.bytes@.len() as int));
        }
        let l = self.lines[i];
        let value_end = comment_end(self.bytes, value_start, l.end);
        if value_start >= value_end {
            let next = self.skip(i + 1, end);
            if next < end && (self.lines[next].indent > indent || (allow_indentless_sequence
                && self.lines[next].indent == indent && self.sequence_line(next))) {
                let indent_next = self.lines[next].indent;
                proof {
                    crate::lines::lemma_lines_ordered(self.lines@, self.bytes@.len() as int, i as int, next as int);
                }
                return self.block(next, end, indent_next, deeper(depth));
            }
            let node = self.make(Span::new(value_start, value_start), NodeKind::Scalar(ScalarStyle::Empty), false, indent, depth)?;
            return Ok((node, i + 1));
        }
        let first = self.bytes[value_start];
        if first == 0x7c || first == 0x3e {
            if !block_scalar_header(self.bytes, value_start + 1, value_end) {
                return Err(CoreError::new("block_scalar", "invalid block scalar chomping/indent indicator", value_start));
            }
            let mut next = i + 1;
            while next < end && (self.trivia(next) || self.lines[next].indent > indent)
                invariant
                    self.wf(),
                    i < next <= end,
                    end <= self.lines@.len(),
                    scalar_lines(self.lines@, self.bytes@, i + 1, end as int, indent as int)
                        == scalar_lines(self.lines@, self.bytes@, next as int, end as int, indent as int),
                decreases end - next,
            {
                next = next + 1;
            }
            proof {
                assert(line_wf(self.lines@[next - 1], self.bytes@.len() as int));
                if i < next - 1 {
                    crate::lines::lemma_lines_ordered(self.lines@, self.bytes@.len() as int, i as int, next - 1);
                }
            }
            let scalar_end = if next > i + 1 { self.lines[next - 1].full_end } else { l.full_end };
            let style = if first == 0x7c { ScalarStyle::Literal } else { ScalarStyle::Folded };
            let node = self.make(Span::new(value_start, scalar_end), NodeKind::Scalar(style), false, indent, depth)?;
            return Ok((node, next));
        }
        if first == 0x7b || first == 0x5b || first == 0x27 || first == 0x22 {
            let max = if end < self.lines.len() { self.lines[end].start } else { self.bytes.len() };
            proof {
                if end < self.lines@.len() {
                    crate::lines::lemma_lines_ordered(self.lines@, self.bytes@.len() as int, i as int, end as int);
                }
            }
            let mut pos = value_start;
            let node = self.flow_value(&mut pos, max, indent, deeper(depth))?;
            proof {
                assert(self.lines@[end - 1].full_end == max) by {
                    assert(line_wf(self.lines@[end - 1], self.bytes@.len() as int));
                }
            }
            let mut last = i;
            while last + 1 < end && pos > self.lines[last].full_end
                invariant
                    i <= last < end,
                    end <= self.lines@.len(),
                    flow_last(self.lines@, i as int, end as int, pos as int)
                        == flow_last(self.lines@, last as int, end as int, pos as int),
                decreases end - last,
            {
                last = last + 1;
            }
            proof {
                assert(pos <= self.lines@[last as int].full_end);
            }
            if pos == self.lines[last].full_end && last + 1 < end {
                proof { lemma_full_end_mono(self.lines@, self.bytes@.len() as int, last as int, last + 1); }
                last = last + 1;
            }
            proof { assert(line_wf(self.lines@[last as int], self.bytes@.len() as int)); }
            let rest_start = skip_spaces(self.bytes, pos, self.lines[last].end);
            if rest_start < self.lines[last].end && self.bytes[rest_start] != 0x23 {
                return Err(CoreError::new("trailing_content", "unexpected content after a quoted/flow value", rest_start));
            }
            return Ok((node, last + 1));
        }
        if first == 0x26 || first == 0x2a || first == 0x21 {
            return Err(CoreError::new("unsupported_alias_tag", "only Unity document tags/anchors are supported", value_start));
        }
        let mut next = i + 1;
        while next < end && !self.trivia(next) && self.lines[next].indent > indent
            invariant
                self.wf(),
                self.keeps(&*old(self)),
                i < next <= end,
                end <= self.lines@.len(),
                self.nodes == old(self).nodes,
                plain_lines(self.lines@, self.bytes@, i + 1, end as int, indent as int)
                    == plain_lines(self.lines@, self.bytes@, next as int, end as int, indent as int),
                plain_lines(self.lines@, self.bytes@, i + 1, end as int, indent as int) is None ==> value_run(
                    old(self).lines@, old(self).bytes@, i as int, end as int, value_start as int, indent as int, depth as int,
                    allow_indentless_sequence, old(self).nodes as int, old(self).limits) is None,
            decreases end - next,
        {
            let ln = self.lines[next];
            proof { assert(line_wf(self.lines@[next as int], self.bytes@.len() as int)); }
            if find_colon(self.bytes, ln.start + ln.indent, ln.end).is_some() {
                return Err(CoreError::new("plain_continuation", "mapping content cannot continue an unquoted scalar", ln.start));
            }
            next = next + 1;
        }
        proof {
            assert(line_wf(self.lines@[next - 1], self.bytes@.len() as int));
            if i < next - 1 {
                crate::lines::lemma_lines_ordered(self.lines@, self.bytes@.len() as int, i as int, next - 1);
            }
        }
        let scalar_end = if next > i + 1 { self.lines[next - 1].end } else { value_end };
        let style = scalar_style(self.bytes, value_start, scalar_end);
        let node = self.make(Span::new(value_start, scalar_end), NodeKind::Scalar(style), false, indent, depth)?;
        Ok((node, next))
    }

    /// A flow mapping, flow sequence, quoted scalar or plain flow scalar
    /// starting at `pos` (after trivia), ending before `end`.
    #[verifier::rlimit(100)]
    #[verifier::spinoff_prover]
    fn flow_value(&mut self, pos: &mut usize, end: usize, indent: usize, depth: usize) -> (res: Result<Node, CoreError>)
        requires
            old(self).wf(),
            *old(pos) <= end <= old(self).bytes@.len(),
        ensures
            final(self).wf(),
            final(self).keeps(&*old(self)),
            *old(pos) <= *final(pos) <= end,
            res matches Ok(n) ==> {
                &&& node_wf(n, final(self).bytes@)
                &&& *old(pos) <= n.span.start <= n.span.end <= *final(pos)
                &&& n.span.start < *final(pos)
                &&& (!keys_unique(n) ==> has_code(final(self).diagnostics@, "duplicate_key"@))
                &&& flow_node(n, old(self).bytes@, *old(pos) as int, end as int, *final(pos) as int, indent as int)
                &&& node_read(n, final(self).bytes@)
                &&& node_nested(n)
            },
            res is Ok <==> flow_run(old(self).bytes@, *old(pos) as int, end as int, old(self).nodes as int,
                old(self).limits, depth as int) is Some,
            res is Ok ==> flow_run(old(self).bytes@, *old(pos) as int, end as int, old(self).nodes as int,
                old(self).limits, depth as int) == Some((final(self).nodes as int, *final(pos) as int)),
            res matches Ok(n) ==> (final(self).diagnostics@.len() > old(self).diagnostics@.len() ==> !keys_unique(n)),
            res matches Ok(n) ==> reports_in(final(self).diagnostics@, old(self).diagnostics@.len() as int, n),
            res is Ok ==> ((final(self).diagnostics@.len() > old(self).diagnostics@.len()) == flow_dup(
                old(self).bytes@,
                *old(pos) as int,
                end as int,
                old(self).nodes as int,
                old(self).limits,
                depth as int,
            )),
            res matches Ok(n) ==> (n.kind matches NodeKind::Sequence(items) ==> items@.len() == seq_count(
                old(self).bytes@,
                n.span.start + 1,
                end as int,
                old(self).nodes as int,
                old(self).limits,
                depth as int,
            )),
            res matches Ok(n) ==> (n.kind matches NodeKind::Mapping(es) ==> es@.len() == map_count(
                old(self).bytes@,
                n.span.start + 1,
                end as int,
                old(self).nodes as int,
                old(self).limits,
                depth as int,
            )),
        decreases end - *old(pos),
    {
        proof { Parser::lemma_keeps_refl(&*self); }
        if depth > self.limits.max_depth {
            return Err(CoreError::new("depth_limit", "asset exceeds parser nesting budget", *pos));
        }
        proof { crate::lexer::lemma_flow_trivia_bounds(self.bytes@, *pos as int, end as int); }
        flow_ws(self.bytes, pos, end);
        let start = *pos;
        if start >= end {
            return Err(CoreError::new("unterminated_flow", "unexpected end of value", start));
        }
        let opener = self.bytes[start];
        if opener == 0x7b {
            *pos = *pos + 1;
            let mut entries: Vec<Entry> = Vec::new();
            let mut keys: Vec<String> = Vec::new();
            assert(texts_view(keys@) =~= Seq::<Seq<char>>::empty());
            loop
                invariant_except_break
                    map_run(self.bytes@, *pos as int, end as int, self.nodes as int, self.limits, depth as int)
                        == map_run(self.bytes@, start + 1, end as int, old(self).nodes as int, self.limits, depth as int),
                    entries@.len() + map_count(self.bytes@, *pos as int, end as int, self.nodes as int, self.limits, depth as int)
                        == map_count(self.bytes@, start + 1, end as int, old(self).nodes as int, self.limits, depth as int),
                    (self.diagnostics@.len() > old(self).diagnostics@.len() || map_dup(self.bytes@, *pos as int, end as int,
                        self.nodes as int, self.limits, depth as int, texts_view(keys@))) == map_dup(self.bytes@, start + 1,
                        end as int, old(self).nodes as int, self.limits, depth as int, Seq::empty()),
                invariant
                    self.wf(),
                    self.keeps(&*old(self)),
                    *old(pos) <= start < *pos <= end,
                    end <= self.bytes@.len(),
                    keys@.len() == entries@.len(),
                    forall|j: int| 0 <= j < entries@.len() ==> (#[trigger] keys@[j])@ == entries@[j].key@,
                    forall|j: int| 0 <= j < entries@.len() ==> {
                        &&& (#[trigger] entries@[j]).key_span.within(self.bytes@.len() as int)
                        &&& entries@[j].span.within(self.bytes@.len() as int)
                        &&& node_wf(entries@[j].value, self.bytes@)
                        &&& node_read(entries@[j].value, self.bytes@)
                        &&& node_nested(entries@[j].value)
                    },
                    (repeats_key(entries@) || exists|j: int|
                        0 <= j < entries@.len() && !keys_unique(#[trigger] entries@[j].value))
                        ==> has_code(self.diagnostics@, "duplicate_key"@),
                    self.diagnostics@.len() > old(self).diagnostics@.len() ==> (repeats_key(entries@) || exists|j: int|
                        0 <= j < entries@.len() && !keys_unique(#[trigger] entries@[j].value)),
                    forall|m: int| old(self).diagnostics@.len() <= m < self.diagnostics@.len() ==> entries_repeat_at(entries@,
                        (#[trigger] self.diagnostics@[m]).span),
                    start == flow_trivia_end(self.bytes@, *old(pos) as int, end as int),
                    self.bytes@[start as int] == 0x7b,
                    flow_entries(entries@, self.bytes@, start as int, *pos + 1, indent as int),
                    depth <= self.limits.max_depth,
                ensures
                    self.bytes@[*pos - 1] == 0x7d,
                    flow_entries(entries@, self.bytes@, start as int, *pos as int, indent as int),
                    map_run(self.bytes@, start + 1, end as int, old(self).nodes as int, self.limits, depth as int)
                        == Some((self.nodes as int, *pos as int)),
                    entries@.len() == map_count(self.bytes@, start + 1, end as int, old(self).nodes as int, self.limits, depth as int),
                    (self.diagnostics@.len() > old(self).diagnostics@.len()) == map_dup(self.bytes@, start + 1, end as int,
                        old(self).nodes as int, self.limits, depth as int, Seq::empty()),
                decreases end - *pos,
            {
                let ghost iter_pos = *pos;
                proof { crate::lexer::lemma_flow_trivia_bounds(self.bytes@, *pos as int, end as int); }
                flow_ws(self.bytes, pos, end);
                if *pos >= end {
                    return Err(CoreError::new("unterminated_flow", "missing '}'", start));
                }
                if self.bytes[*pos] == 0x7d {
                    proof {
                        lemma_entries_grow(entries@, self.bytes@, start as int, iter_pos + 1, *pos + 1, indent as int);
                    }
                    *pos = *pos + 1;
                    break;
                }
                let key_start = *pos;
                proof {
                    lemma_entries_grow(entries@, self.bytes@, start as int, iter_pos + 1, key_start + 1, indent as int);
                }
                if self.bytes[*pos] == 0x27 || self.bytes[*pos] == 0x22 {
                    self.quoted(pos, end)?;
                } else {
                    while *pos < end && !(self.bytes[*pos] == 0x3a || self.bytes[*pos] == 0x2c
                        || self.bytes[*pos] == 0x7d || self.bytes[*pos] == 0x0a || self.bytes[*pos]
                        == 0x0d)
                        invariant
                            self.wf(),
                            self.keeps(&*old(self)),
                            *old(pos) <= start < key_start <= *pos <= end,
                            end <= self.bytes@.len(),
                            key_scan(self.bytes@, key_start as int, end as int) == key_scan(self.bytes@, *pos as int, end as int),
                        decreases end - *pos,
                    {
                        *pos = *pos + 1;
                    }
                }
                let key_end = trim_end(self.bytes, key_start, *pos);
                proof { crate::lexer::lemma_flow_trivia_bounds(self.bytes@, *pos as int, end as int); }
                flow_ws(self.bytes, pos, end);
                if *pos >= end || self.bytes[*pos] != 0x3a {
                    return Err(CoreError::new("flow_key", "expected ':' after flow mapping key", *pos));
                }
                let key = match decode_key(crate::syntax::slice_range(self.bytes, key_start, key_end)) {
                    Ok(k) => k,
                    Err(m) => return Err(CoreError::new("flow_key", m, key_start)),
                };
                if text_eq(key.as_str(), "<<") {
                    return Err(CoreError::new("yaml_merge_key", "YAML merge keys are unsupported", key_start));
                }
                let ghost d_iter = self.diagnostics@.len();
                let ghost ds_top = self.diagnostics@;
                let duplicate = seen_key(&keys, &key);
                proof { lemma_texts_contains(keys@, key@); }
                if duplicate {
                    let message = concat("duplicate mapping key ", key.as_str());
                    let ghost before = self.diagnostics@;
                    self.diagnostic("duplicate_key", message, Span::new(key_start, key_end));
                    proof {
                        assert(self.diagnostics@[self.diagnostics@.len() - 1].severity == Severity::Error);
                    }
                }
                *pos = *pos + 1;
                proof { crate::lexer::lemma_flow_trivia_bounds(self.bytes@, *pos as int, end as int); }
                flow_ws(self.bytes, pos, end);
                let ghost before_value = *self;
                let value = if *pos < end && (self.bytes[*pos] == 0x2c || self.bytes[*pos] == 0x7d) {
                    self.make(Span::new(*pos, *pos), NodeKind::Scalar(ScalarStyle::Empty), true, indent, depth)?
                } else {
                    self.flow_value(pos, end, indent, deeper(depth))?
                };
                proof {
                    if has_code(before_value.diagnostics@, "duplicate_key"@) {
                        lemma_error_kept(before_value.diagnostics@, self.diagnostics@, "duplicate_key"@);
                    }
                }
                let ghost old_entries = entries@;
                let e = Entry { key, key_span: Span::new(key_start, key_end), span: Span::new(key_start, *pos), value };
                proof {
                    lemma_push_entry(old_entries, e, self.bytes@, start as int, *pos + 1, indent as int);
                    if !duplicate {
                        if !repeats_key(old_entries) {
                            assert forall|j: int| 0 <= j < old_entries.len() implies (#[trigger] old_entries[j]).key@ != e.key@ by {
                                assert(keys@[j]@ == old_entries[j].key@);
                            }
                            lemma_new_key(old_entries, e);
                        }
                    } else {
                        let j = choose|j: int| 0 <= j < keys@.len() && (#[trigger] keys@[j])@ == e.key@;
                        assert(old_entries.push(e)[j].key@ == old_entries.push(e)[old_entries.len() as int].key@);
                    }
                }
                let ghost old_keys = keys@;
                keys.push(e.key.clone());
                proof { lemma_texts_push(old_keys, keys@.last()); assert(keys@ == old_keys.push(keys@.last())); }
                entries.push(e);
                proof {
                    assert(entries@ == old_entries.push(e));
                    if self.diagnostics@.len() > old(self).diagnostics@.len() {
                        if d_iter > old(self).diagnostics@.len() {
                            if repeats_key(old_entries) {
                                let (a, b) = choose|a: int, b: int| 0 <= a < b < old_entries.len() && old_entries[a].key@ == old_entries[b].key@;
                                assert(entries@[a] == old_entries[a] && entries@[b] == old_entries[b]);
                            } else {
                                let j = choose|j: int| 0 <= j < old_entries.len() && !keys_unique(#[trigger] old_entries[j].value);
                                assert(entries@[j] == old_entries[j]);
                            }
                        } else if !duplicate {
                            assert(!keys_unique(entries@[old_entries.len() as int].value));
                        }
                    }
                    assert forall|m: int| old(self).diagnostics@.len() <= m < self.diagnostics@.len() implies entries_repeat_at(
                        entries@,
                        (#[trigger] self.diagnostics@[m]).span,
                    ) by {
                        let sp = self.diagnostics@[m].span;
                        if m < d_iter {
                            assert(self.diagnostics@[m] == before_value.diagnostics@[m]);
                            assert(before_value.diagnostics@[m] == ds_top[m]);
                            lemma_entries_push_repeat(old_entries, e, sp, false);
                        } else if m < before_value.diagnostics@.len() {
                            assert(self.diagnostics@[m] == before_value.diagnostics@[m]);
                            let j = choose|j: int| 0 <= j < keys@.len() - 1 && (#[trigger] old_keys[j])@ == e.key@;
                            assert(old_entries[j].key@ == e.key@);
                            lemma_entries_push_repeat(old_entries, e, sp, true);
                        } else {
                            lemma_entries_push_repeat(old_entries, e, sp, false);
                        }
                    }
                    if exists|j: int| 0 <= j < entries@.len() && !keys_unique(#[trigger] entries@[j].value) {
                        let j = choose|j: int| 0 <= j < entries@.len() && !keys_unique(#[trigger] entries@[j].value);
                        if j < old_entries.len() {
                            assert(entries@[j] == old_entries[j]);
                        }
                    }
                }
                let ghost after_value = *pos;
                proof { crate::lexer::lemma_flow_trivia_bounds(self.bytes@, *pos as int, end as int); }
                flow_ws(self.bytes, pos, end);
                if *pos >= end {
                    return Err(CoreError::new("unterminated_flow", "missing '}'", start));
                }
                proof {
                    lemma_entries_grow(entries@, self.bytes@, start as int, after_value + 1, *pos + 1, indent as int);
                }
                if self.bytes[*pos] == 0x2c {
                    *pos = *pos + 1;
                } else if self.bytes[*pos] == 0x7d {
                    *pos = *pos + 1;
                    break;
                } else {
                    return Err(CoreError::new("flow_separator", "expected ',' or '}'", *pos));
                }
            }
            let ghost before_make = *self;
            let node = self.make(Span::new(start, *pos), NodeKind::Mapping(entries), true, indent, depth)?;
            return Ok(node);
        }
        if opener == 0x5b {
            *pos = *pos + 1;
            let mut items: Vec<Item> = Vec::new();
            loop
                invariant_except_break
                    seq_run(self.bytes@, *pos as int, end as int, self.nodes as int, self.limits, depth as int)
                        == seq_run(self.bytes@, start + 1, end as int, old(self).nodes as int, self.limits, depth as int),
                    items@.len() + seq_count(self.bytes@, *pos as int, end as int, self.nodes as int, self.limits, depth as int)
                        == seq_count(self.bytes@, start + 1, end as int, old(self).nodes as int, self.limits, depth as int),
                    (self.diagnostics@.len() > old(self).diagnostics@.len() || seq_dup(self.bytes@, *pos as int, end as int,
                        self.nodes as int, self.limits, depth as int)) == seq_dup(self.bytes@, start + 1, end as int,
                        old(self).nodes as int, self.limits, depth as int),
                invariant
                    self.wf(),
                    self.keeps(&*old(self)),
                    *old(pos) <= start < *pos <= end,
                    end <= self.bytes@.len(),
                    forall|j: int| 0 <= j < items@.len() ==> {
                        &&& (#[trigger] items@[j]).span.within(self.bytes@.len() as int)
                        &&& node_wf(items@[j].value, self.bytes@)
                        &&& node_read(items@[j].value, self.bytes@)
                        &&& node_nested(items@[j].value)
                    },
                    (exists|j: int| 0 <= j < items@.len() && !keys_unique(#[trigger] items@[j].value))
                        ==> has_code(self.diagnostics@, "duplicate_key"@),
                    self.diagnostics@.len() > old(self).diagnostics@.len() ==> (exists|j: int| 0 <= j < items@.len() && !keys_unique(#[trigger] items@[j].value)),
                    forall|m: int| old(self).diagnostics@.len() <= m < self.diagnostics@.len() ==> items_repeat_at(items@,
                        (#[trigger] self.diagnostics@[m]).span),
                    start == flow_trivia_end(self.bytes@, *old(pos) as int, end as int),
                    self.bytes@[start as int] == 0x5b,
                    flow_items(items@, start as int, *pos + 1, indent as int),
                    depth <= self.limits.max_depth,
                ensures
                    self.bytes@[*pos - 1] == 0x5d,
                    flow_items(items@, start as int, *pos as int, indent as int),
                    seq_run(self.bytes@, start + 1, end as int, old(self).nodes as int, self.limits, depth as int)
                        == Some((self.nodes as int, *pos as int)),
                    items@.len() == seq_count(self.bytes@, start + 1, end as int, old(self).nodes as int, self.limits, depth as int),
                    (self.diagnostics@.len() > old(self).diagnostics@.len()) == seq_dup(self.bytes@, start + 1, end as int,
                        old(self).nodes as int, self.limits, depth as int),
                decreases end - *pos,
            {
                let ghost iter_pos = *pos;
                proof { crate::lexer::lemma_flow_trivia_bounds(self.bytes@, *pos as int, end as int); }
                flow_ws(self.bytes, pos, end);
                if *pos >= end {
                    return Err(CoreError::new("unterminated_flow", "missing ']'", start));
                }
                proof {
                    lemma_items_grow(items@, start as int, iter_pos + 1, *pos + 1, indent as int);
                }
                if self.bytes[*pos] == 0x5d {
                    *pos = *pos + 1;
                    break;
                }
                let ghost before_value = *self;
                let ghost d_iter = self.diagnostics@.len();
                let ghost ds_top = self.diagnostics@;
                let value = self.flow_value(pos, end, indent, deeper(depth))?;
                let ghost old_items = items@;
                let item = Item { span: value.span, value };
                proof {
                    lemma_push_item(old_items, item, start as int, *pos + 1, indent as int);
                }
                items.push(item);
                proof {
                    assert(items@ == old_items.push(item));
                    if self.diagnostics@.len() > old(self).diagnostics@.len() {
                        if d_iter > old(self).diagnostics@.len() {
                            let j = choose|j: int| 0 <= j < old_items.len() && !keys_unique(#[trigger] old_items[j].value);
                            assert(items@[j] == old_items[j]);
                        } else {
                            assert(!keys_unique(items@[old_items.len() as int].value));
                        }
                    }
                    assert forall|m: int| old(self).diagnostics@.len() <= m < self.diagnostics@.len() implies items_repeat_at(
                        items@,
                        (#[trigger] self.diagnostics@[m]).span,
                    ) by {
                        let sp = self.diagnostics@[m].span;
                        if m < d_iter {
                            assert(self.diagnostics@[m] == ds_top[m]);
                        }
                        lemma_items_push_repeat(old_items, item, sp);
                    }
                    if exists|j: int| 0 <= j < items@.len() && !keys_unique(#[trigger] items@[j].value) {
                        let j = choose|j: int| 0 <= j < items@.len() && !keys_unique(#[trigger] items@[j].value);
                        if j < old_items.len() {
                            assert(items@[j] == old_items[j]);
                            lemma_error_kept(before_value.diagnostics@, self.diagnostics@, "duplicate_key"@);
                        }
                    }
                }
                let ghost after_value = *pos;
                proof { crate::lexer::lemma_flow_trivia_bounds(self.bytes@, *pos as int, end as int); }
                flow_ws(self.bytes, pos, end);
                if *pos >= end {
                    return Err(CoreError::new("unterminated_flow", "missing ']'", start));
                }
                proof {
                    lemma_items_grow(items@, start as int, after_value + 1, *pos + 1, indent as int);
                }
                if self.bytes[*pos] == 0x2c {
                    *pos = *pos + 1;
                } else if self.bytes[*pos] == 0x5d {
                    *pos = *pos + 1;
                    break;
                } else {
                    return Err(CoreError::new("flow_separator", "expected ',' or ']'", *pos));
                }
            }
            let node = self.make(Span::new(start, *pos), NodeKind::Sequence(items), true, indent, depth)?;
            return Ok(node);
        }
        if opener == 0x27 || opener == 0x22 {
            let style = if opener == 0x27 { ScalarStyle::SingleQuoted } else { ScalarStyle::DoubleQuoted };
            self.quoted(pos, end)?;
            let node = self.make(Span::new(start, *pos), NodeKind::Scalar(style), true, indent, depth)?;
            return Ok(node);
        }
        if opener == 0x26 || opener == 0x2a || opener == 0x21 {
            return Err(CoreError::new("unsupported_alias_tag", "YAML aliases/custom tags are unsupported", start));
        }
        while *pos < end && !(self.bytes[*pos] == 0x2c || self.bytes[*pos] == 0x7d || self.bytes[*pos] == 0x5d)
            invariant
                self.wf(),
                self.keeps(&*old(self)),
                *old(pos) <= start <= *pos <= end,
                end <= self.bytes@.len(),
                self.nodes == old(self).nodes,
                plain_scan(self.bytes@, start as int, start as int, end as int)
                    == plain_scan(self.bytes@, start as int, *pos as int, end as int),
                plain_scan(self.bytes@, start as int, start as int, end as int) is None ==> flow_run(
                    old(self).bytes@, *old(pos) as int, end as int, old(self).nodes as int, old(self).limits,
                    depth as int) is None,
            ensures
                *old(pos) <= start <= *pos <= end,
                self.nodes == old(self).nodes,
                plain_scan(self.bytes@, start as int, start as int, end as int) == Some(*pos as int),
            decreases end - *pos,
        {
            let b = self.bytes[*pos];
            if b == 0x7b || b == 0x5b || (b == 0x3a && *pos + 1 < self.bytes.len() && ws(self.bytes[*pos + 1])) {
                proof {
                    assert(plain_scan(self.bytes@, start as int, *pos as int, end as int) is None);
                }
                return Err(CoreError::new(
                    "flow_plain_scalar",
                    "unquoted flow scalar contains a collection delimiter or mapping separator",
                    *pos,
                ));
            }
            if b == 0x23 && (*pos == start || ws(self.bytes[*pos - 1])) {
                break;
            }
            *pos = *pos + 1;
        }
        let scalar_end = trim_end(self.bytes, start, *pos);
        if scalar_end == start {
            return Err(CoreError::new("empty_flow_value", "missing flow sequence value", start));
        }
        let style = scalar_style(self.bytes, start, scalar_end);
        let node = self.make(Span::new(start, scalar_end), NodeKind::Scalar(style), true, indent, depth)?;
        Ok(node)
    }
}

} // verus!
