//! Well-formedness of syntax trees produced from a text.
use vstd::prelude::*;

use crate::fingerprint::fingerprint_of;
use crate::keys::key_value;
use crate::lexer::scalar_style_of;
use crate::syntax::{Diagnostic, Entry, Item, Node, NodeKind, ScalarStyle, Severity, Span};

verus! {

/// Every span lies in the text and every fingerprint matches its node.
pub open spec fn node_wf(n: Node, bytes: Seq<u8>) -> bool
    decreases n,
{
    &&& n.span.within(bytes.len() as int)
    &&& n.fingerprint@ == fingerprint_of(n.kind, n.span, bytes)
    &&& match n.kind {
        NodeKind::Scalar(_) => true,
        NodeKind::Mapping(entries) => forall|k: int|
            0 <= k < entries@.len() ==> {
                &&& (#[trigger] entries@[k]).key_span.within(bytes.len() as int)
                &&& entries@[k].span.within(bytes.len() as int)
                &&& node_wf(entries@[k].value, bytes)
            },
        NodeKind::Sequence(items) => forall|k: int|
            0 <= k < items@.len() ==> {
                &&& (#[trigger] items@[k]).span.within(bytes.len() as int)
                &&& node_wf(items@[k].value, bytes)
            },
    }
}

/// A scalar's style is the one its text shows: a quoted or block scalar
/// opens with its indicator, any other is empty, null or plain as its text
/// reads.
pub open spec fn scalar_read(style: ScalarStyle, bytes: Seq<u8>, span: Span) -> bool {
    match style {
        ScalarStyle::SingleQuoted => bytes[span.start as int] == 0x27,
        ScalarStyle::DoubleQuoted => bytes[span.start as int] == 0x22,
        ScalarStyle::Literal => bytes[span.start as int] == 0x7c,
        ScalarStyle::Folded => bytes[span.start as int] == 0x3e,
        _ => style == scalar_style_of(bytes.subrange(span.start as int, span.end as int)),
    }
}

/// Every mapping key in the tree is what its key span decodes to, and every
/// scalar has the style its text shows.
pub open spec fn node_read(n: Node, bytes: Seq<u8>) -> bool
    decreases n,
{
    match n.kind {
        NodeKind::Scalar(style) => scalar_read(style, bytes, n.span),
        NodeKind::Mapping(entries) => forall|k: int|
            0 <= k < entries@.len() ==> {
                &&& key_value(bytes.subrange((#[trigger] entries@[k]).key_span.start as int, entries@[k].key_span.end as int))
                    == Some(entries@[k].key@)
                &&& node_read(entries@[k].value, bytes)
            },
        NodeKind::Sequence(items) => forall|k: int|
            0 <= k < items@.len() ==> node_read(#[trigger] items@[k].value, bytes),
    }
}

/// Children lie inside their parent and in text order: each mapping key
/// precedes its value, and each entry or item ends before the next one
/// begins.
pub open spec fn node_nested(n: Node) -> bool
    decreases n,
{
    match n.kind {
        NodeKind::Scalar(_) => true,
        NodeKind::Mapping(entries) => {
            &&& forall|k: int|
                0 <= k < entries@.len() ==> {
                    &&& n.span.start <= (#[trigger] entries@[k]).key_span.start
                    &&& entries@[k].key_span.end <= entries@[k].value.span.start
                    &&& entries@[k].value.span.end <= n.span.end
                    &&& node_nested(entries@[k].value)
                }
            &&& forall|j: int, k: int|
                0 <= j < k < entries@.len() ==> (#[trigger] entries@[j]).value.span.end
                    <= (#[trigger] entries@[k]).key_span.start
        },
        NodeKind::Sequence(items) => {
            &&& forall|k: int|
                0 <= k < items@.len() ==> {
                    &&& n.span.start <= (#[trigger] items@[k]).value.span.start
                    &&& items@[k].value.span.end <= n.span.end
                    &&& node_nested(items@[k].value)
                }
            &&& forall|j: int, k: int|
                0 <= j < k < items@.len() ==> (#[trigger] items@[j]).value.span.end
                    <= (#[trigger] items@[k]).value.span.start
        },
    }
}

/// Whether two entries of one mapping share a key.
pub open spec fn repeats_key(entries: Seq<Entry>) -> bool {
    exists|a: int, b: int| 0 <= a < b < entries.len() && entries[a].key@ == entries[b].key@
}

/// Whether some mapping in the tree has a key that repeats an earlier key
/// of the same mapping at `span`.
pub open spec fn repeat_at(n: Node, span: Span) -> bool
    decreases n,
{
    match n.kind {
        NodeKind::Scalar(_) => false,
        NodeKind::Mapping(entries) => (exists|a: int, b: int|
            #![trigger entries@[a], entries@[b]]
            0 <= a < b < entries@.len() && entries@[a].key@ == entries@[b].key@ && entries@[b].key_span == span)
            || exists|k: int| 0 <= k < entries@.len() && repeat_at(#[trigger] entries@[k].value, span),
        NodeKind::Sequence(items) => exists|k: int| 0 <= k < items@.len() && repeat_at(#[trigger] items@[k].value, span),
    }
}

/// No mapping anywhere in the tree repeats a key.
pub open spec fn keys_unique(n: Node) -> bool
    decreases n,
{
    match n.kind {
        NodeKind::Scalar(_) => true,
        NodeKind::Mapping(entries) => !repeats_key(entries@) && forall|k: int|
            0 <= k < entries@.len() ==> keys_unique(#[trigger] entries@[k].value),
        NodeKind::Sequence(items) => forall|k: int|
            0 <= k < items@.len() ==> keys_unique(#[trigger] items@[k].value),
    }
}

/// Whether some diagnostic is an error.
pub open spec fn has_error(diagnostics: Seq<Diagnostic>) -> bool {
    exists|k: int| 0 <= k < diagnostics.len() && (#[trigger] diagnostics[k]).severity == Severity::Error
}

/// Whether an error with this code was reported.
pub open spec fn has_code(diagnostics: Seq<Diagnostic>, code: Seq<char>) -> bool {
    exists|k: int| 0 <= k < diagnostics.len() && (#[trigger] diagnostics[k]).severity == Severity::Error
        && diagnostics[k].code@ == code
}

} // verus!
