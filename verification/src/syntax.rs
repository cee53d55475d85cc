//! The lossless syntax tree: every node records the byte span it came from.
use vstd::prelude::*;

use crate::text::text_eq;

verus! {

/// A half-open byte range `start..end` into the parsed input.
#[derive(Debug, Clone, Copy, PartialEq, Eq, Structural)]
pub struct Span {
    pub start: usize,
    pub end: usize,
}

impl Span {
    pub fn new(start: usize, end: usize) -> (res: Self)
        ensures
            res.start == start,
            res.end == end,
    {
        Span { start, end }
    }

    /// Whether the span is ordered and lies inside a text of `len` bytes.
    pub open spec fn within(self, len: int) -> bool {
        self.start <= self.end <= len
    }

    /// The bytes the span covers.
    pub fn bytes<'a>(&self, bytes: &'a [u8]) -> (res: &'a [u8])
        requires
            self.within(bytes@.len() as int),
        ensures
            res@ == bytes@.subrange(self.start as int, self.end as int),
    {
        slice_range(bytes, self.start, self.end)
    }
}

impl Default for Span {
    fn default() -> (res: Self)
        ensures
            res.start == 0 && res.end == 0,
    {
        Span { start: 0, end: 0 }
    }
}

/// A sub-slice `bytes[start..end]`.
pub(crate) fn slice_range<'a>(bytes: &'a [u8], start: usize, end: usize) -> (res: &'a [u8])
    requires
        start <= end <= bytes@.len(),
    ensures
        res@ == bytes@.subrange(start as int, end as int),
{
    let (head, _) = bytes.split_at(end);
    let (_, tail) = head.split_at(start);
    tail
}

#[derive(Debug, Clone, Copy, PartialEq, Eq, Structural)]
pub enum Severity {
    Warning,
    Error,
}

#[derive(Debug, Clone)]
pub struct Diagnostic {
    pub code: String,
    pub message: String,
    pub severity: Severity,
    pub span: Span,
    pub object_id: Option<String>,
    pub property_path: Option<String>,
}

/// A diagnostic as a mathematical value.
pub ghost struct DiagnosticView {
    pub code: Seq<char>,
    pub message: Seq<char>,
    pub severity: Severity,
    pub span: Span,
    pub object_id: Option<Seq<char>>,
    pub property_path: Option<Seq<char>>,
}

pub open spec fn text_view(s: Option<String>) -> Option<Seq<char>> {
    match s {
        Some(t) => Some(t@),
        None => None,
    }
}

impl Diagnostic {
    pub open spec fn view(self) -> DiagnosticView {
        DiagnosticView {
            code: self.code@,
            message: self.message@,
            severity: self.severity,
            span: self.span,
            object_id: text_view(self.object_id),
            property_path: text_view(self.property_path),
        }
    }

    /// A copy with the same fields.
    pub fn copied(&self) -> (res: Diagnostic)
        ensures
            res.view() == self.view(),
    {
        Diagnostic {
            code: self.code.clone(),
            message: self.message.clone(),
            severity: self.severity,
            span: self.span,
            object_id: match &self.object_id {
                Some(t) => Some(t.clone()),
                None => None,
            },
            property_path: match &self.property_path {
                Some(t) => Some(t.clone()),
                None => None,
            },
        }
    }
}

pub open spec fn diags_view(s: Seq<Diagnostic>) -> Seq<DiagnosticView> {
    s.map_values(|d: Diagnostic| d.view())
}

pub proof fn lemma_diags_push(s: Seq<Diagnostic>, d: Diagnostic)
    ensures
        diags_view(s.push(d)) == diags_view(s).push(d.view()),
{
    assert(diags_view(s.push(d)) =~= diags_view(s).push(d.view()));
}

#[derive(Debug, Clone)]
pub struct CoreError {
    pub code: String,
    pub message: String,
    pub offset: usize,
}

impl CoreError {
    pub fn new(code: &str, message: &str, offset: usize) -> (res: Self)
        ensures
            res.code@ == code@,
            res.message@ == message@,
            res.offset == offset,
    {
        CoreError { code: code.to_owned(), message: message.to_owned(), offset }
    }

    /// `code at byte offset: message`, as the error is displayed.
    pub fn to_text(&self) -> (res: String)
        ensures
            res@ == self.code@ + " at byte "@ + crate::text::decimal_digits(self.offset as nat)
                + ": "@ + self.message@,
    {
        let offset = crate::text::string_of(crate::text::decimal_u64(self.offset as u64).as_slice());
        let a = crate::text::concat(self.code.as_str(), " at byte ");
        let b = crate::text::concat(a.as_str(), offset.as_str());
        let c = crate::text::concat(b.as_str(), ": ");
        crate::text::concat(c.as_str(), self.message.as_str())
    }
}

/// Budgets that bound the parser's work on untrusted input.
#[derive(Debug, Clone, Copy)]
pub struct Limits {
    pub max_bytes: usize,
    pub max_nodes: usize,
    pub max_depth: usize,
}

impl Limits {
    /// The default budgets: 128 MiB, two million nodes, nesting depth 128.
    pub open spec fn default_spec() -> Limits {
        Limits { max_bytes: 134_217_728usize, max_nodes: 2_000_000usize, max_depth: 128usize }
    }
}

impl Default for Limits {
    fn default() -> (res: Self)
        ensures
            res.max_bytes == 128 * 1024 * 1024,
            res.max_nodes == 2_000_000,
            res.max_depth == 128,
    {
        Limits { max_bytes: 128 * 1024 * 1024, max_nodes: 2_000_000, max_depth: 128 }
    }
}

#[derive(Debug, Clone, Copy, PartialEq, Eq, Structural)]
pub enum ScalarStyle {
    Empty,
    Null,
    Plain,
    SingleQuoted,
    DoubleQuoted,
    Literal,
    Folded,
}

impl ScalarStyle {
    /// The style's tag byte in node fingerprints (its declaration order).
    pub open spec fn tag(self) -> u8 {
        match self {
            ScalarStyle::Empty => 0,
            ScalarStyle::Null => 1,
            ScalarStyle::Plain => 2,
            ScalarStyle::SingleQuoted => 3,
            ScalarStyle::DoubleQuoted => 4,
            ScalarStyle::Literal => 5,
            ScalarStyle::Folded => 6,
        }
    }

    pub fn tag_byte(self) -> (res: u8)
        ensures
            res == self.tag(),
    {
        match self {
            ScalarStyle::Empty => 0,
            ScalarStyle::Null => 1,
            ScalarStyle::Plain => 2,
            ScalarStyle::SingleQuoted => 3,
            ScalarStyle::DoubleQuoted => 4,
            ScalarStyle::Literal => 5,
            ScalarStyle::Folded => 6,
        }
    }
}

#[derive(Debug)]
pub struct Entry {
    pub key: String,
    pub key_span: Span,
    /// Entire entry for block syntax; key/value only for flow syntax.
    pub span: Span,
    pub value: Node,
}

#[derive(Debug)]
pub struct Item {
    pub span: Span,
    pub value: Node,
}

#[derive(Debug)]
pub enum NodeKind {
    Scalar(ScalarStyle),
    Mapping(Vec<Entry>),
    Sequence(Vec<Item>),
}

#[derive(Debug)]
pub struct Node {
    pub span: Span,
    pub kind: NodeKind,
    pub flow: bool,
    pub indent: usize,
    /// Semantic structure hash. Scalars intentionally retain their lexical type.
    pub fingerprint: [u8; 32],
}

/// Index of the first entry whose key is `key`, if any.
pub open spec fn first_key_index(entries: Seq<Entry>, key: Seq<char>) -> Option<int>
    decreases entries.len(),
{
    if entries.len() == 0 {
        None
    } else if entries[0].key@ == key {
        Some(0)
    } else {
        match first_key_index(entries.drop_first(), key) {
            Some(i) => Some(i + 1),
            None => None,
        }
    }
}

pub proof fn lemma_first_key_index(entries: Seq<Entry>, key: Seq<char>)
    ensures
        first_key_index(entries, key) matches Some(i) ==> {
            &&& 0 <= i < entries.len()
            &&& entries[i].key@ == key
            &&& forall|j: int| 0 <= j < i ==> entries[j].key@ != key
        },
        first_key_index(entries, key) is None ==> forall|j: int|
            0 <= j < entries.len() ==> entries[j].key@ != key,
    decreases entries.len(),
{
    if entries.len() > 0 {
        lemma_first_key_index(entries.drop_first(), key);
        if entries[0].key@ != key {
            assert forall|j: int| 1 <= j < entries.len() implies entries[j] == entries.drop_first()[j - 1] by {}
        }
    }
}

impl Node {
    /// The value of the first mapping entry named `key`.
    pub open spec fn spec_get(self, key: Seq<char>) -> Option<Node> {
        match self.kind {
            NodeKind::Mapping(entries) => match first_key_index(entries@, key) {
                Some(i) => Some(entries@[i].value),
                None => None,
            },
            _ => None,
        }
    }

    pub fn get(&self, key: &str) -> (res: Option<&Node>)
        ensures
            res matches Some(n) ==> self.spec_get(key@) == Some(*n),
            res is None ==> self.spec_get(key@) is None,
    {
        match &self.kind {
            NodeKind::Mapping(entries) => {
                proof { lemma_first_key_index(entries@, key@); }
                let mut i: usize = 0;
                while i < entries.len()
                    invariant
                        i <= entries@.len(),
                        self.kind == NodeKind::Mapping(*entries),
                        forall|j: int| 0 <= j < i ==> entries@[j].key@ != key@,
                        first_key_index(entries@, key@) matches Some(k) ==> {
                            &&& 0 <= k < entries@.len()
                            &&& entries@[k].key@ == key@
                            &&& forall|j: int| 0 <= j < k ==> entries@[j].key@ != key@
                        },
                        first_key_index(entries@, key@) is None ==> forall|j: int|
                            0 <= j < entries@.len() ==> entries@[j].key@ != key@,
                    decreases entries@.len() - i,
                {
                    if text_eq(entries[i].key.as_str(), key) {
                        assert(first_key_index(entries@, key@) == Some(i as int));
                        assert(self.spec_get(key@) == Some(entries@[i as int].value));
                        return Some(&entries[i].value);
                    }
                    i = i + 1;
                }
                None
            },
            _ => None,
        }
    }

    pub open spec fn spec_entries(self) -> Option<Seq<Entry>> {
        match self.kind {
            NodeKind::Mapping(entries) => Some(entries@),
            _ => None,
        }
    }

    pub fn entries(&self) -> (res: Option<&[Entry]>)
        ensures
            res matches Some(s) ==> self.spec_entries() == Some(s@),
            res is None ==> self.spec_entries() is None,
    {
        match &self.kind {
            NodeKind::Mapping(v) => Some(v.as_slice()),
            _ => None,
        }
    }

    pub open spec fn spec_items(self) -> Option<Seq<Item>> {
        match self.kind {
            NodeKind::Sequence(items) => Some(items@),
            _ => None,
        }
    }

    pub fn items(&self) -> (res: Option<&[Item]>)
        ensures
            res matches Some(s) ==> self.spec_items() == Some(s@),
            res is None ==> self.spec_items() is None,
    {
        match &self.kind {
            NodeKind::Sequence(v) => Some(v.as_slice()),
            _ => None,
        }
    }

    pub fn is_scalar(&self) -> (res: bool)
        ensures
            res == (self.kind is Scalar),
    {
        match self.kind {
            NodeKind::Scalar(_) => true,
            _ => false,
        }
    }
}

} // verus!
