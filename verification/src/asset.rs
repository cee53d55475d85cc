//! Parsed Unity assets: a sequence of `--- !u!<class> &<fileID>` documents,
//! each with a mapping root.
use vstd::prelude::*;
use vstd::utf8::*;

use crate::digest::{blake3_digest, content_hash, hex_spec};
use crate::lines::{bom_len, indentation_tab, line_table, line_wf, lines_wf, split_lines, Line};
use crate::numbers::{i32_value, i64_value, parse_i32, parse_i64};
use crate::parser::{block_dup, block_run, lemma_texts_contains, lemma_texts_push, is_sequence_line, is_trivia, lemma_error_kept, lemma_skip_to, skip_to, step_ok, step_spans, Parser};
use crate::syntax::{CoreError, Diagnostic, Limits, Node, NodeKind, Severity, Span};
use crate::text::{chars_eq, chars_of, concat, decode_bytes, has_prefix, split_words, starts_with, string_of, text_eq, words};
use crate::tree::{has_code, has_error, repeat_at, keys_unique, node_nested, node_read, node_wf};

verus! {

#[derive(Debug)]
pub struct Document {
    /// A decimal string, never converted through a floating point representation.
    pub object_id: String,
    pub class_id: Option<String>,
    pub stripped: bool,
    pub header: Span,
    pub span: Span,
    pub root: Node,
}

#[derive(Debug)]
pub struct Asset {
    pub bytes: Vec<u8>,
    pub documents: Vec<Document>,
    pub diagnostics: Vec<Diagnostic>,
    pub content_hash: String,
    pub newline: &'static str,
    pub node_count: usize,
}

/// A document header's words: `---`, `!u!<classID>`, `&<fileID>` and an
/// optional `stripped`.
pub open spec fn header_shape(parts: Seq<Seq<char>>) -> bool {
    &&& (parts.len() == 3 || (parts.len() == 4 && parts[3] == "stripped"@))
    &&& parts[0] == "---"@
    &&& starts_with(parts[1], "!u!"@)
    &&& starts_with(parts[2], "&"@)
}

/// The class ID and file ID a well-shaped header names, when the class ID is
/// a 32-bit and the file ID a 64-bit signed integer.
pub open spec fn header_ids(text: Seq<char>) -> Option<(Seq<char>, Seq<char>)> {
    let parts = words(text);
    if header_shape(parts) {
        let class = parts[1].skip(3);
        let file = parts[2].skip(1);
        if i32_value(class) is Some && i64_value(file) is Some {
            Some((class, file))
        } else {
            None
        }
    } else {
        None
    }
}

/// Whether the text contains a CR LF pair.
pub open spec fn has_crlf(bytes: Seq<u8>) -> bool {
    exists|k: int| 0 <= k < bytes.len() - 1 && bytes[k] == 0x0d && #[trigger] bytes[k + 1] == 0x0a
}

/// A document is well formed: its root is a well-formed mapping read from
/// the text, with its children nested in text order, and its spans lie in
/// the text.
pub open spec fn document_wf(d: Document, bytes: Seq<u8>) -> bool {
    &&& node_wf(d.root, bytes)
    &&& node_read(d.root, bytes)
    &&& node_nested(d.root)
    &&& d.root.kind is Mapping
    &&& d.header.within(bytes.len() as int)
    &&& d.span.within(bytes.len() as int)
    &&& (d.object_id@ == "$root"@ || i64_value(d.object_id@) is Some)
    &&& (d.class_id matches Some(c) ==> i32_value(c@) is Some)
    &&& (d.stripped ==> d.class_id is Some)
}

/// Documents come in text order, each ending at or before the next one
/// starts.
pub open spec fn docs_ordered(docs: Seq<Document>) -> bool {
    forall|j: int, k: int| 0 <= j < k < docs.len() ==> (#[trigger] docs[j]).span.end <= (#[trigger] docs[k]).span.start
}

/// Where a report of the parser stands: at a mapping key that repeats an
/// earlier key of the same mapping, or at the header of a document whose
/// file ID an earlier document has.
pub open spec fn report_located(d: Diagnostic, docs: Seq<Document>) -> bool {
    (exists|k: int| 0 <= k < docs.len() && repeat_at(#[trigger] docs[k].root, d.span)) || exists|a: int, b: int|
        #![trigger docs[a], docs[b]]
        0 <= a < b < docs.len() && docs[a].object_id@ == docs[b].object_id@ && docs[b].header == d.span
}

proof fn lemma_doc_reports(top: Seq<Diagnostic>, mid: Seq<Diagnostic>, now: Seq<Diagnostic>, docs: Seq<Document>, d: Document)
    requires
        top.len() <= mid.len() <= now.len(),
        mid.take(top.len() as int) =~= top,
        now.take(mid.len() as int) =~= mid,
        forall|m: int| 0 <= m < top.len() ==> report_located(#[trigger] top[m], docs),
        mid.len() > top.len() ==> mid.len() == top.len() + 1 && mid[top.len() as int].span == d.header && exists|j: int|
            0 <= j < docs.len() && (#[trigger] docs[j]).object_id@ == d.object_id@,
        crate::parser::reports_in(now, mid.len() as int, d.root),
    ensures
        forall|m: int| 0 <= m < now.len() ==> report_located(#[trigger] now[m], docs.push(d)),
{
    let all = docs.push(d);
    assert forall|m: int| 0 <= m < now.len() implies report_located(#[trigger] now[m], all) by {
        let sp = now[m].span;
        if m < top.len() {
            assert(now[m] == mid[m]);
            assert(mid[m] == top[m]);
            assert(report_located(top[m], docs));
            if exists|k: int| 0 <= k < docs.len() && repeat_at(#[trigger] docs[k].root, sp) {
                let k = choose|k: int| 0 <= k < docs.len() && repeat_at(#[trigger] docs[k].root, sp);
                assert(all[k] == docs[k]);
            } else {
                let (a, b) = choose|a: int, b: int|
                    #![trigger docs[a], docs[b]]
                    0 <= a < b < docs.len() && docs[a].object_id@ == docs[b].object_id@ && docs[b].header == sp;
                assert(all[a] == docs[a] && all[b] == docs[b]);
            }
        } else if m < mid.len() {
            assert(now[m] == mid[m]);
            let j = choose|j: int| 0 <= j < docs.len() && (#[trigger] docs[j]).object_id@ == d.object_id@;
            assert(all[j] == docs[j] && all[docs.len() as int] == d);
        } else {
            assert(repeat_at(d.root, now[m].span));
            assert(all[docs.len() as int] == d);
        }
    }
}

/// Whether two documents share a file ID.
pub open spec fn repeats_object_id(docs: Seq<Document>) -> bool {
    exists|a: int, b: int| 0 <= a < b < docs.len() && docs[a].object_id@ == docs[b].object_id@
}

/// What a successful parse guarantees of the asset it returns.
pub open spec fn asset_wf(a: Asset, limits: Limits) -> bool {
    &&& a.documents@.len() > 0
    &&& forall|k: int| 0 <= k < a.documents@.len() ==> document_wf(#[trigger] a.documents@[k], a.bytes@)
    &&& docs_ordered(a.documents@)
    &&& a.node_count <= limits.max_nodes
    &&& forall|k: int| 0 <= k < a.diagnostics@.len() ==> crate::parser::duplicate_report(#[trigger] a.diagnostics@[k])
    &&& forall|m: int| 0 <= m < a.diagnostics@.len() ==> report_located(#[trigger] a.diagnostics@[m], a.documents@)
    &&& (has_error(a.diagnostics@) ==> (repeats_object_id(a.documents@) || exists|k: int| 0 <= k < a.documents@.len() && !keys_unique(#[trigger] a.documents@[k].root)))
    &&& (repeats_object_id(a.documents@) ==> has_code(a.diagnostics@, "duplicate_object_id"@))
    &&& ((exists|k: int| 0 <= k < a.documents@.len() && !keys_unique(#[trigger] a.documents@[k].root)) ==> has_code(
        a.diagnostics@,
        "duplicate_key"@,
    ))
}

/// Whether the content of line `i` (after its indentation) begins with the
/// given bytes.
pub open spec fn line_starts(lines: Seq<Line>, bytes: Seq<u8>, i: int, prefix: Seq<u8>) -> bool {
    let l = lines[i];
    l.start + l.indent + prefix.len() <= l.end && bytes.subrange(
        l.start + l.indent,
        l.start + l.indent + prefix.len(),
    ) == prefix
}

/// Whether line `i` starts a new document or ends the current one: `---` or
/// `...` at column zero.
pub open spec fn is_document_break(lines: Seq<Line>, bytes: Seq<u8>, i: int) -> bool {
    let l = lines[i];
    l.indent == 0 && (line_starts(lines, bytes, i, seq![0x2du8, 0x2d, 0x2d]) || (l.end - l.start == 3
        && line_starts(lines, bytes, i, seq![0x2eu8, 0x2e, 0x2e])))
}

/// The characters of `s` from index `k` on.
fn slice_from(s: &[char], k: usize) -> (res: Vec<char>)
    requires
        k <= s@.len(),
    ensures
        res@ == s@.skip(k as int),
{
    let mut out: Vec<char> = Vec::new();
    let mut j = k;
    while j < s.len()
        invariant
            k <= j <= s@.len(),
            out@ == s@.subrange(k as int, j as int),
        decreases s@.len() - j,
    {
        out.push(s[j]);
        j = j + 1;
        assert(s@.subrange(k as int, j as int) == s@.subrange(k as int, j - 1).push(s@[j - 1]));
    }
    out
}

/// Whether a document ID occurs among earlier IDs.
fn seen_id(ids: &Vec<String>, id: &String) -> (res: bool)
    ensures
        res == exists|j: int| 0 <= j < ids@.len() && (#[trigger] ids@[j])@ == id@,
{
    let mut j: usize = 0;
    while j < ids.len()
        invariant
            j <= ids@.len(),
            forall|k: int| 0 <= k < j ==> (#[trigger] ids@[k])@ != id@,
        decreases ids@.len() - j,
    {
        if text_eq(ids[j].as_str(), id.as_str()) {
            return true;
        }
        j = j + 1;
    }
    false
}

impl<'a> Parser<'a> {
    /// Whether line `i`'s content begins with `c1 c2 c3`.
    fn line_starts3(&self, i: usize, c1: u8, c2: u8, c3: u8) -> (res: bool)
        requires
            self.wf(),
            i < self.lines@.len(),
        ensures
            res == line_starts(self.lines@, self.bytes@, i as int, seq![c1, c2, c3]),
    {
        let l = self.lines[i];
        proof { assert(line_wf(self.lines@[i as int], self.bytes@.len() as int)); }
        let p = l.start + l.indent;
        if p + 3 > l.end {
            return false;
        }
        let res = self.bytes[p] == c1 && self.bytes[p + 1] == c2 && self.bytes[p + 2] == c3;
        proof {
            let sub = self.bytes@.subrange(p as int, p + 3);
            if res {
                assert(sub =~= seq![c1, c2, c3]);
            } else {
                assert(sub[0] == self.bytes@[p as int] && sub[1] == self.bytes@[p + 1] && sub[2]
                    == self.bytes@[p + 2]);
            }
        }
        res
    }

    /// Whether line `i` is a `%` directive.
    fn percent_line(&self, i: usize) -> (res: bool)
        requires
            self.wf(),
            i < self.lines@.len(),
        ensures
            res == {
                let l = self.lines@[i as int];
                l.start + l.indent < l.end && self.bytes@[l.start + l.indent] == 0x25
            },
    {
        let l = self.lines[i];
        proof { assert(line_wf(self.lines@[i as int], self.bytes@.len() as int)); }
        l.start + l.indent < l.end && self.bytes[l.start + l.indent] == 0x25
    }

    /// Whether line `i` is exactly `...`.
    fn dots_line(&self, i: usize) -> (res: bool)
        requires
            self.wf(),
            i < self.lines@.len(),
        ensures
            res == {
                let l = self.lines@[i as int];
                l.end - (l.start + l.indent) == 3 && line_starts(self.lines@, self.bytes@, i as int, seq![0x2eu8, 0x2e, 0x2e])
            },
    {
        let l = self.lines[i];
        proof { assert(line_wf(self.lines@[i as int], self.bytes@.len() as int)); }
        l.end - (l.start + l.indent) == 3 && self.line_starts3(i, 0x2e, 0x2e, 0x2e)
    }

    fn document_break(&self, i: usize) -> (res: bool)
        requires
            self.wf(),
            i < self.lines@.len(),
        ensures
            res == is_document_break(self.lines@, self.bytes@, i as int),
    {
        let l = self.lines[i];
        l.indent == 0 && (self.line_starts3(i, 0x2d, 0x2d, 0x2d) || (l.end - l.start == 3
            && self.line_starts3(i, 0x2e, 0x2e, 0x2e)))
    }

    /// The class ID, file ID and stripped flag of a `--- !u!<class> &<id>`
    /// header on line `i`.
    fn header(&self, i: usize) -> (res: Result<(String, String, bool), CoreError>)
        requires
            self.wf(),
            i < self.lines@.len(),
        ensures
            res matches Ok((class, file, stripped)) ==> {
                let l = self.lines@[i as int];
                let raw = self.bytes@.subrange(l.start + l.indent, l.end as int);
                &&& valid_utf8(raw)
                &&& header_ids(decode_utf8(raw)) == Some((class@, file@))
                &&& stripped == (words(decode_utf8(raw)).len() == 4)
                &&& i32_value(class@) is Some
                &&& i64_value(file@) is Some
            },
            ({
                let l = self.lines@[i as int];
                let raw = self.bytes@.subrange(l.start + l.indent, l.end as int);
                res is Ok <==> valid_utf8(raw) && header_ids(decode_utf8(raw)) is Some
            }),
            res matches Err(e) ==> {
                let l = self.lines@[i as int];
                let raw = self.bytes@.subrange(l.start + l.indent, l.end as int);
                &&& e.offset == l.start
                &&& if valid_utf8(raw) && header_shape(words(decode_utf8(raw))) {
                    e.code@ == "document_id"@ && e.message@ == "classID/fileID is outside its signed integer range"@
                } else {
                    e.code@ == "document_header"@ && e.message@ == "expected a Unity !u! class tag and fileID anchor"@
                }
            },
    {
        let l = self.lines[i];
        proof { assert(line_wf(self.lines@[i as int], self.bytes@.len() as int)); }
        let text = match decode_bytes(crate::syntax::slice_range(self.bytes, l.start + l.indent, l.end)) {
            Ok(t) => t,
            Err(_) => return Err(CoreError::new(
                "document_header",
                "expected a Unity !u! class tag and fileID anchor",
                l.start,
            )),
        };
        let chars = chars_of(text.as_str());
        let parts = split_words(chars.as_slice());
        let ghost w = words(chars@);
        if !(parts.len() == 3 || (parts.len() == 4 && chars_eq(parts[3].as_slice(), "stripped")))
            || !chars_eq(parts[0].as_slice(), "---") || !has_prefix(parts[1].as_slice(), "!u!")
            || !has_prefix(parts[2].as_slice(), "&") {
            return Err(CoreError::new(
                "document_header",
                "expected a Unity !u! class tag and fileID anchor",
                l.start,
            ));
        }
        proof {
            reveal_strlit("!u!");
            reveal_strlit("&");
            assert(header_shape(w));
        }
        let class_chars = slice_from(parts[1].as_slice(), 3);
        let file_chars = slice_from(parts[2].as_slice(), 1);
        let class_ok = parse_i32(class_chars.as_slice());
        let file_ok = parse_i64(file_chars.as_slice());
        if class_ok.is_none() || file_ok.is_none() {
            return Err(CoreError::new(
                "document_id",
                "classID/fileID is outside its signed integer range",
                l.start,
            ));
        }
        let stripped = parts.len() == 4;
        Ok((string_of(class_chars.as_slice()), string_of(file_chars.as_slice()), stripped))
    }

    /// A document's root block, from line `i` before line `end`.
    fn root(&mut self, i: usize, end: usize) -> (res: Result<(Node, usize), CoreError>)
        requires
            old(self).wf(),
            i < end <= old(self).lines@.len(),
        ensures
            final(self).wf(),
            final(self).keeps(&*old(self)),
            step_ok(*final(self), res, i as int, end as int),
            step_spans(*final(self), res, old(self).lines@[i as int].start as int),
            res is Ok <==> root_run(old(self).lines@, old(self).bytes@, i as int, end as int, old(self).nodes as int,
                old(self).limits) is Some,
            res matches Ok((_, next)) ==> root_run(old(self).lines@, old(self).bytes@, i as int, end as int,
                old(self).nodes as int, old(self).limits) == Some((final(self).nodes as int, next as int)),
            res matches Ok((n, _)) ==> (n.kind is Mapping <==> !is_sequence_line(old(self).lines@, old(self).bytes@, i as int)),
            res matches Ok((n, _)) ==> (final(self).diagnostics@.len() > old(self).diagnostics@.len() ==> !keys_unique(n)),
            res matches Ok((n, _)) ==> crate::parser::reports_in(final(self).diagnostics@, old(self).diagnostics@.len() as int, n),
            res is Ok ==> ((final(self).diagnostics@.len() > old(self).diagnostics@.len()) == root_dup(old(self).lines@,
                old(self).bytes@, i as int, end as int, old(self).nodes as int, old(self).limits)),
    {
        let indent = self.lines[i].indent;
        let r = self.block(i, end, indent, 0);
        proof {
            reveal(root_run);
            reveal(root_dup);
        }
        r
    }

    /// The documents of the text, in order.
    #[verifier::rlimit(100)]
    #[verifier::spinoff_prover]
    fn documents(&mut self) -> (res: Result<Vec<Document>, CoreError>)
        requires
            old(self).wf(),
            old(self).diagnostics@.len() == 0,
        ensures
            final(self).wf(),
            final(self).keeps(&*old(self)),
            res matches Ok(docs) ==> {
                &&& docs@.len() > 0
                &&& forall|k: int| 0 <= k < docs@.len() ==> document_wf(#[trigger] docs@[k], final(self).bytes@)
                &&& docs_ordered(docs@)
                &&& forall|m: int| 0 <= m < final(self).diagnostics@.len() ==> report_located(#[trigger] final(self).diagnostics@[m], docs@)
                &&& (final(self).diagnostics@.len() > 0 ==> (repeats_object_id(docs@) || exists|k: int| 0 <= k < docs@.len() && !keys_unique(#[trigger] docs@[k].root)))
                &&& (repeats_object_id(docs@) ==> has_code(final(self).diagnostics@, "duplicate_object_id"@))
                &&& ((exists|k: int| 0 <= k < docs@.len() && !keys_unique(#[trigger] docs@[k].root)) ==> has_code(
                    final(self).diagnostics@,
                    "duplicate_key"@,
                ))
            },
            ({
                let first = after_directives(old(self).lines@, old(self).bytes@, skip_to(old(self).lines@, old(self).bytes@, 0,
                    old(self).lines@.len() as int), old(self).lines@.len() as int);
                let run = docs_run(old(self).lines@, old(self).bytes@, first, old(self).nodes as int, old(self).limits, false);
                &&& (res is Ok <==> run is Some)
                &&& (res is Ok ==> run == Some(final(self).nodes as int))
                &&& (res matches Ok(docs) ==> docs@.len() == docs_count(old(self).lines@, old(self).bytes@, first,
                    old(self).nodes as int, old(self).limits))
                &&& (res is Ok ==> ((final(self).diagnostics@.len() > 0) == docs_dup(old(self).lines@, old(self).bytes@, first,
                    old(self).nodes as int, old(self).limits, Seq::empty())))
                &&& (first >= old(self).lines@.len() ==> (res matches Err(e) && e.code@ == "empty_asset"@))
            }),
    {
        proof { Parser::lemma_keeps_refl(&*self); }
        let n = self.lines.len();
        let mut docs: Vec<Document> = Vec::new();
        let mut ids: Vec<String> = Vec::new();
        let mut i = self.skip(0, n);
        let ghost i_skip = i;
        while i < n && self.percent_line(i)
            invariant
                self.wf(),
                self.keeps(&*old(self)),
                i <= n,
                n == self.lines@.len(),
                self.nodes == old(self).nodes,
                after_directives(self.lines@, self.bytes@, i_skip as int, n as int)
                    == after_directives(self.lines@, self.bytes@, i as int, n as int),
            decreases n - i,
        {
            i = self.skip(i + 1, n);
        }
        let ghost first = i;
        assert(crate::changes::texts_view(ids@) =~= Seq::<Seq<char>>::empty());
        while i < n
            invariant
                self.wf(),
                self.keeps(&*old(self)),
                i <= n,
                n == self.lines@.len(),
                docs_run(self.lines@, self.bytes@, i as int, self.nodes as int, self.limits, docs@.len() > 0)
                    == docs_run(self.lines@, self.bytes@, first as int, old(self).nodes as int, self.limits, false),
                docs_run(self.lines@, self.bytes@, i as int, self.nodes as int, self.limits, docs@.len() > 0) is Some
                    ==> docs@.len() + docs_count(self.lines@, self.bytes@, i as int, self.nodes as int, self.limits)
                    == docs_count(self.lines@, self.bytes@, first as int, old(self).nodes as int, self.limits),
                docs_run(self.lines@, self.bytes@, i as int, self.nodes as int, self.limits, docs@.len() > 0) is Some
                    ==> (self.diagnostics@.len() > 0 || docs_dup(self.lines@, self.bytes@, i as int, self.nodes as int,
                    self.limits, crate::changes::texts_view(ids@))) == docs_dup(self.lines@, self.bytes@, first as int,
                    old(self).nodes as int, self.limits, Seq::empty()),
                first == after_directives(self.lines@, self.bytes@, skip_to(self.lines@, self.bytes@, 0, n as int), n as int),
                ids@.len() == docs@.len(),
                forall|j: int| 0 <= j < docs@.len() ==> (#[trigger] ids@[j])@ == docs@[j].object_id@,
                forall|j: int| 0 <= j < docs@.len() ==> document_wf(#[trigger] docs@[j], self.bytes@),
                docs_ordered(docs@),
                forall|m: int| 0 <= m < self.diagnostics@.len() ==> report_located(#[trigger] self.diagnostics@[m], docs@),
                self.diagnostics@.len() > 0 ==> (repeats_object_id(docs@) || exists|k: int| 0 <= k < docs@.len() && !keys_unique(#[trigger] docs@[k].root)),
                first <= i,
                docs@.len() > 0 ==> first < n,
                docs@.len() > 0 ==> docs@.last().span.end <= (if i < n { self.lines@[i as int].start as int } else {
                    self.bytes@.len() as int
                }),
                repeats_object_id(docs@) ==> has_code(self.diagnostics@, "duplicate_object_id"@),
                (exists|k: int| 0 <= k < docs@.len() && !keys_unique(#[trigger] docs@[k].root)) ==> has_code(
                    self.diagnostics@,
                    "duplicate_key"@,
                ),
            decreases n - i,
        {
            let start = i;
            let mut object_id = string_of(chars_of("$root").as_slice());
            let mut class_id: Option<String> = None;
            let mut stripped = false;
            proof { assert(line_wf(self.lines@[i as int], self.bytes@.len() as int)); }
            let mut header = Span::new(self.lines[i].start, self.lines[i].start);
            if self.line_starts3(i, 0x2d, 0x2d, 0x2d) {
                let l = self.lines[i];
                header.end = l.full_end;
                if l.end - (l.start + l.indent) != 3 {
                    let (class, file, strip) = self.header(i)?;
                    class_id = Some(class);
                    object_id = file;
                    stripped = strip;
                }
                i = self.skip(i + 1, n);
            }
            let ghost d_iter = self.diagnostics@.len();
            let ghost ds_top = self.diagnostics@;
            let duplicate = seen_id(&ids, &object_id);
            proof { lemma_texts_contains(ids@, object_id@); }
            if duplicate {
                let message = concat("duplicate document fileID ", object_id.as_str());
                self.diagnostic("duplicate_object_id", message, header);
                proof {
                    assert(self.diagnostics@[self.diagnostics@.len() - 1].severity == Severity::Error);
                    assert(self.diagnostics@[self.diagnostics@.len() - 1].code@ == "duplicate_object_id"@);
                }
            }
            let mut end = i;
            while end < n && !self.document_break(end)
                invariant
                    self.wf(),
                    i <= end <= n,
                    n == self.lines@.len(),
                    doc_end(self.lines@, self.bytes@, i as int, n as int) == doc_end(self.lines@, self.bytes@, end as int, n as int),
                decreases n - end,
            {
                end = end + 1;
            }
            if i >= end {
                return Err(CoreError::new("empty_document", "Unity asset document has no root", header.end));
            }
            let indent = self.lines[i].indent;
            let ghost before_block = *self;
            let (root, consumed) = self.root(i, end)?;
            proof {
                Parser::lemma_keeps_trans(&*old(self), &before_block, &*self);
                if has_code(before_block.diagnostics@, "duplicate_object_id"@) {
                    lemma_error_kept(before_block.diagnostics@, self.diagnostics@, "duplicate_object_id"@);
                }
                if has_code(before_block.diagnostics@, "duplicate_key"@) {
                    lemma_error_kept(before_block.diagnostics@, self.diagnostics@, "duplicate_key"@);
                }
            }
            if self.skip(consumed, end) != end {
                return Err(CoreError::new("unparsed_content", "content remains after the root node", self.lines[consumed].start));
            }
            let is_mapping = match root.kind {
                NodeKind::Mapping(_) => true,
                _ => false,
            };
            if !is_mapping {
                return Err(CoreError::new("document_root", "Unity asset root must be a mapping", root.span.start));
            }
            let doc_end = if end < n { self.lines[end].start } else { self.bytes.len() };
            proof {
                assert(line_wf(self.lines@[start as int], self.bytes@.len() as int));
                if end < n {
                    crate::lines::lemma_lines_ordered(self.lines@, self.bytes@.len() as int, start as int, end as int);
                }
            }
            let ghost old_docs = docs@;
            let doc = Document {
                object_id,
                class_id,
                stripped,
                header,
                span: Span::new(self.lines[start].start, doc_end),
                root,
            };
            proof {
                reveal_strlit("$root");
                if !duplicate && !repeats_object_id(old_docs) {
                    let all = old_docs.push(doc);
                    if repeats_object_id(all) {
                        let (a, b) = choose|a: int, b: int| 0 <= a < b < all.len() && all[a].object_id@ == all[b].object_id@;
                        if b == old_docs.len() {
                            assert(ids@[a]@ == old_docs[a].object_id@);
                        } else {
                            assert(all[a] == old_docs[a] && all[b] == old_docs[b]);
                        }
                    }
                }
                if duplicate {
                    let j = choose|j: int| 0 <= j < ids@.len() && (#[trigger] ids@[j])@ == doc.object_id@;
                    assert(old_docs.push(doc)[j].object_id@ == old_docs.push(doc)[old_docs.len() as int].object_id@);
                }
            }
            let ghost old_ids = ids@;
            ids.push(doc.object_id.clone());
            proof { lemma_texts_push(old_ids, ids@.last()); assert(ids@ == old_ids.push(ids@.last())); }
            docs.push(doc);
            proof {
                assert(docs@ == old_docs.push(doc));
                lemma_doc_reports(ds_top, before_block.diagnostics@, self.diagnostics@, old_docs, doc);
                if self.diagnostics@.len() > 0 {
                    if d_iter > 0 {
                        if repeats_object_id(old_docs) {
                            let (a, b) = choose|a: int, b: int| 0 <= a < b < old_docs.len() && old_docs[a].object_id@ == old_docs[b].object_id@;
                            assert(docs@[a] == old_docs[a] && docs@[b] == old_docs[b]);
                        } else {
                            let k = choose|k: int| 0 <= k < old_docs.len() && !keys_unique(#[trigger] old_docs[k].root);
                            assert(docs@[k] == old_docs[k]);
                        }
                    } else if !duplicate {
                        assert(!keys_unique(docs@[old_docs.len() as int].root));
                    }
                }
                if exists|k: int| 0 <= k < docs@.len() && !keys_unique(#[trigger] docs@[k].root) {
                    let k = choose|k: int| 0 <= k < docs@.len() && !keys_unique(#[trigger] docs@[k].root);
                    if k < old_docs.len() {
                        assert(docs@[k] == old_docs[k]);
                        lemma_error_kept(before_block.diagnostics@, self.diagnostics@, "duplicate_key"@);
                    }
                }
                assert forall|j: int| 0 <= j < docs@.len() implies document_wf(#[trigger] docs@[j], self.bytes@) by {
                    if j < old_docs.len() {
                        assert(docs@[j] == old_docs[j]);
                    }
                }
                assert forall|j: int, k: int| 0 <= j < k < docs@.len() implies (#[trigger] docs@[j]).span.end
                    <= (#[trigger] docs@[k]).span.start by {
                    if k < old_docs.len() {
                        assert(docs@[j] == old_docs[j] && docs@[k] == old_docs[k]);
                    } else {
                        assert(docs@[j] == old_docs[j]);
                        if j < old_docs.len() - 1 {
                            assert(old_docs[j].span.end <= old_docs.last().span.start);
                            assert(old_docs.last().span.start <= old_docs.last().span.end);
                        }
                    }
                }
            }
            i = end;
            if i < n && self.dots_line(i) {
                i = self.skip(i + 1, n);
            }
            proof {
                if end < n {
                    assert(line_wf(self.lines@[end as int], self.bytes@.len() as int));
                    if end < i && i < n {
                        crate::lines::lemma_lines_ordered(self.lines@, self.bytes@.len() as int, end as int, i as int);
                    }
                }
                assert(docs@.last() == doc);
            }
        }
        if docs.len() == 0 {
            return Err(CoreError::new("empty_asset", "no Unity YAML documents", 0));
        }
        Ok(docs)
    }
}

/// Whether line `i` is a `%` directive.
pub open spec fn is_percent_line(lines: Seq<Line>, b: Seq<u8>, i: int) -> bool {
    let l = lines[i];
    l.start + l.indent < l.end && b[l.start + l.indent] == 0x25
}

/// Whether line `i` is exactly `...`.
pub open spec fn is_dots_line(lines: Seq<Line>, b: Seq<u8>, i: int) -> bool {
    let l = lines[i];
    l.end - (l.start + l.indent) == 3 && line_starts(lines, b, i, seq![0x2eu8, 0x2e, 0x2e])
}

/// The first line from `i` on that is not a `%` directive, passing blank
/// and comment lines after each directive.
pub open spec fn after_directives(lines: Seq<Line>, b: Seq<u8>, i: int, n: int) -> int
    decreases n - i,
{
    if 0 <= i < n && is_percent_line(lines, b, i) {
        proof { lemma_skip_to(lines, b, i + 1, n); }
        after_directives(lines, b, skip_to(lines, b, i + 1, n), n)
    } else {
        i
    }
}

/// The first document break from line `j` on, or `n`.
pub open spec fn doc_end(lines: Seq<Line>, b: Seq<u8>, j: int, n: int) -> int
    decreases n - j,
{
    if j < n && !is_document_break(lines, b, j) { doc_end(lines, b, j + 1, n) } else { j }
}

pub proof fn lemma_doc_end(lines: Seq<Line>, b: Seq<u8>, j: int, n: int)
    ensures
        j <= doc_end(lines, b, j, n),
        j <= n ==> doc_end(lines, b, j, n) <= n,
    decreases n - j,
{
    if j < n && !is_document_break(lines, b, j) {
        lemma_doc_end(lines, b, j + 1, n);
    }
}

/// Whether line `i` holds a Unity header whose class and file IDs read.
pub open spec fn header_ok(lines: Seq<Line>, b: Seq<u8>, i: int) -> bool {
    let l = lines[i];
    let raw = b.subrange(l.start + l.indent, l.end as int);
    valid_utf8(raw) && header_ids(decode_utf8(raw)) is Some
}

/// The outcome of reading a document's root block from line `j`, before
/// line `e`, with `nodes` counted.
#[verifier::opaque]
pub open spec fn root_run(lines: Seq<Line>, b: Seq<u8>, j: int, e: int, nodes: int, lim: Limits) -> Option<(int, int)> {
    block_run(lines, b, j, e, lines[j].indent as int, 0, nodes, lim)
}

/// Whether the root block read from line `j`, before line `e`, repeats a
/// mapping key at any depth.
#[verifier::opaque]
pub open spec fn root_dup(lines: Seq<Line>, b: Seq<u8>, j: int, e: int, nodes: int, lim: Limits) -> bool {
    block_dup(lines, b, j, e, lines[j].indent as int, 0, nodes, lim)
}

/// The file ID of the document whose first line is `i`: the one its
/// `--- !u!<classID> &<fileID>` header names, or `$root` without one.
pub open spec fn doc_id(lines: Seq<Line>, b: Seq<u8>, i: int) -> Seq<char> {
    let l = lines[i];
    if line_starts(lines, b, i, seq![0x2du8, 0x2d, 0x2d]) && l.end - (l.start + l.indent) != 3 {
        match header_ids(decode_utf8(b.subrange(l.start + l.indent, l.end as int))) {
            Some((_, file)) => file,
            None => Seq::empty(),
        }
    } else {
        "$root"@
    }
}

/// Whether the documents read from line `i`, after the file IDs `seen`,
/// repeat a file ID or hold a root that repeats a key.
pub open spec fn docs_dup(lines: Seq<Line>, b: Seq<u8>, i: int, nodes: int, lim: Limits, seen: Seq<Seq<char>>) -> bool
    decreases lines.len() - i,
{
    let n = lines.len() as int;
    if i < 0 || i >= n {
        false
    } else {
        let hdr = line_starts(lines, b, i, seq![0x2du8, 0x2d, 0x2d]);
        proof { lemma_skip_to(lines, b, i + 1, n); }
        let j = if hdr { skip_to(lines, b, i + 1, n) } else { i };
        proof { lemma_doc_end(lines, b, j, n); }
        let e = doc_end(lines, b, j, n);
        if j >= e {
            false
        } else {
            let id = doc_id(lines, b, i);
            match root_run(lines, b, j, e, nodes, lim) {
                None => false,
                Some((n2, consumed)) => {
                    proof { lemma_skip_to(lines, b, e + 1, n); }
                    let k = if e < n && is_dots_line(lines, b, e) { skip_to(lines, b, e + 1, n) } else { e };
                    seen.contains(id) || root_dup(lines, b, j, e, nodes, lim) || docs_dup(lines, b, k, n2, lim, seen.push(id))
                },
            }
        }
    }
}

/// The outcome of reading the documents from line `i` on with `nodes`
/// counted: the final node count, or `None` where a document is refused
/// (a bad header, an empty document, a root that does not parse, is not a
/// mapping or leaves content behind) or where no document is read at all.
pub open spec fn docs_run(lines: Seq<Line>, b: Seq<u8>, i: int, nodes: int, lim: Limits, any: bool) -> Option<int>
    decreases lines.len() - i,
{
    let n = lines.len() as int;
    if i < 0 {
        None
    } else if i >= n {
        if any { Some(nodes) } else { None }
    } else {
        let l = lines[i];
        let hdr = line_starts(lines, b, i, seq![0x2du8, 0x2d, 0x2d]);
        if hdr && l.end - (l.start + l.indent) != 3 && !header_ok(lines, b, i) {
            None
        } else {
            proof { lemma_skip_to(lines, b, i + 1, n); }
            let j = if hdr { skip_to(lines, b, i + 1, n) } else { i };
            proof { lemma_doc_end(lines, b, j, n); }
            let e = doc_end(lines, b, j, n);
            if j >= e {
                None
            } else {
                match root_run(lines, b, j, e, nodes, lim) {
                    None => None,
                    Some((n2, consumed)) => if skip_to(lines, b, consumed, e) != e || is_sequence_line(lines, b, j) {
                        None
                    } else {
                        proof { lemma_skip_to(lines, b, e + 1, n); }
                        let k = if e < n && is_dots_line(lines, b, e) { skip_to(lines, b, e + 1, n) } else { e };
                        docs_run(lines, b, k, n2, lim, true)
                    },
                }
            }
        }
    }
}

/// How many documents reading the text from line `i` yields: one for each
/// document `docs_run` reads.
pub open spec fn docs_count(lines: Seq<Line>, b: Seq<u8>, i: int, nodes: int, lim: Limits) -> int
    decreases lines.len() - i,
{
    let n = lines.len() as int;
    if i < 0 || i >= n {
        0
    } else {
        let l = lines[i];
        let hdr = line_starts(lines, b, i, seq![0x2du8, 0x2d, 0x2d]);
        proof { lemma_skip_to(lines, b, i + 1, n); }
        let j = if hdr { skip_to(lines, b, i + 1, n) } else { i };
        proof { lemma_doc_end(lines, b, j, n); }
        let e = doc_end(lines, b, j, n);
        if j >= e {
            0
        } else {
            match root_run(lines, b, j, e, nodes, lim) {
                None => 0,
                Some((n2, consumed)) => {
                    proof { lemma_skip_to(lines, b, e + 1, n); }
                    let k = if e < n && is_dots_line(lines, b, e) { skip_to(lines, b, e + 1, n) } else { e };
                    1 + docs_count(lines, b, k, n2, lim)
                },
            }
        }
    }
}

/// Whether some byte is NUL.
pub open spec fn has_nul(bytes: Seq<u8>) -> bool {
    exists|k: int| 0 <= k < bytes.len() && bytes[k] == 0
}

/// The checks a text passes before it is parsed as YAML: a size within the
/// budget, valid UTF-8, no NUL byte, and no tab after any line's indentation.
pub open spec fn admissible(bytes: Seq<u8>, limits: Limits) -> bool {
    &&& bytes.len() <= limits.max_bytes
    &&& bytes.len() <= isize::MAX
    &&& valid_utf8(bytes)
    &&& !has_nul(bytes)
    &&& indentation_tab(bytes, bom_len(bytes)) is None
}

fn find_nul(bytes: &[u8]) -> (res: bool)
    ensures
        res == has_nul(bytes@),
{
    let mut k: usize = 0;
    while k < bytes.len()
        invariant
            k <= bytes@.len(),
            forall|j: int| 0 <= j < k ==> bytes@[j] != 0,
        decreases bytes@.len() - k,
    {
        if bytes[k] == 0 {
            return true;
        }
        k = k + 1;
    }
    false
}

fn find_crlf(bytes: &[u8]) -> (res: bool)
    ensures
        res == has_crlf(bytes@),
{
    let mut k: usize = 0;
    while k < bytes.len() && k + 1 < bytes.len()
        invariant
            k <= bytes@.len(),
            forall|j: int| 0 <= j < k && j + 1 < bytes@.len() ==> !(bytes@[j] == 0x0d && #[trigger] bytes@[j + 1] == 0x0a),
        decreases bytes@.len() - k,
    {
        if bytes[k] == 0x0d && bytes[k + 1] == 0x0a {
            return true;
        }
        k = k + 1;
    }
    assert(!has_crlf(bytes@)) by {
        if has_crlf(bytes@) {
            let j = choose|j: int| 0 <= j < bytes@.len() - 1 && bytes@[j] == 0x0d && #[trigger] bytes@[j + 1] == 0x0a;
            assert(j < k);
        }
    }
    false
}

/// Copies a byte slice into a vector.
pub(crate) fn to_vec(bytes: &[u8]) -> (res: Vec<u8>)
    ensures
        res@ == bytes@,
{
    let mut out: Vec<u8> = Vec::new();
    let mut k: usize = 0;
    while k < bytes.len()
        invariant
            k <= bytes@.len(),
            out@ == bytes@.take(k as int),
        decreases bytes@.len() - k,
    {
        out.push(bytes[k]);
        k = k + 1;
        assert(bytes@.take(k as int) == bytes@.take(k - 1).push(bytes@[k - 1]));
    }
    assert(bytes@.take(bytes@.len() as int) == bytes@);
    out
}

/// The characters a span of UTF-8 text spells; empty where the span does not
/// hold whole characters.
pub open spec fn span_text(bytes: Seq<u8>, span: Span) -> Seq<char> {
    let raw = bytes.subrange(span.start as int, span.end as int);
    if valid_utf8(raw) { decode_utf8(raw) } else { Seq::empty() }
}

/// The index of the last document with this file ID.
pub open spec fn last_document(docs: Seq<Document>, object_id: Seq<char>) -> Option<int>
    decreases docs.len(),
{
    if docs.len() == 0 {
        None
    } else if docs.last().object_id@ == object_id {
        Some(docs.len() - 1)
    } else {
        last_document(docs.drop_last(), object_id)
    }
}

/// The last document with a file ID is one of the documents and has it.
pub proof fn lemma_last_document(docs: Seq<Document>, object_id: Seq<char>)
    ensures
        last_document(docs, object_id) matches Some(k) ==> 0 <= k < docs.len() && docs[k].object_id@ == object_id,
        last_document(docs, object_id) is None ==> forall|k: int| 0 <= k < docs.len() ==> (#[trigger] docs[k]).object_id@ != object_id,
    decreases docs.len(),
{
    if docs.len() > 0 {
        lemma_last_document(docs.drop_last(), object_id);
        if docs.last().object_id@ != object_id {
            assert forall|k: int| 0 <= k < docs.len() - 1 implies docs[k] == docs.drop_last()[k] by {}
        }
    }
}

impl Asset {
    /// An absent file, explicitly represented by the caller. Parsing an
    /// existing empty file still fails, preserving the absent/invalid
    /// distinction.
    pub fn absent() -> (res: Self)
        ensures
            res.bytes@.len() == 0,
            res.documents@.len() == 0,
            res.diagnostics@.len() == 0,
            res.content_hash@ == hex_spec(blake3_digest(Seq::empty())),
            res.newline@ == "\n"@,
            res.node_count == 0,
    {
        let bytes: Vec<u8> = Vec::new();
        let hash = content_hash(bytes.as_slice());
        assert(bytes@ == Seq::<u8>::empty());
        Asset {
            bytes,
            documents: Vec::new(),
            diagnostics: Vec::new(),
            content_hash: hash,
            newline: "\n",
            node_count: 0,
        }
    }

    /// Parses with the default budgets.
    pub fn parse(bytes: &[u8]) -> (res: Result<Self, CoreError>)
        ensures
            parse_outcome(bytes@, Limits::default_spec(), res),
            res is Err <==> parse_refused(bytes@),
            admissible(bytes@, Limits::default_spec()) ==> (res is Ok <==> text_run(bytes@, Limits::default_spec()) is Some),
            res matches Ok(a) ==> text_run(bytes@, Limits::default_spec()) == Some(a.node_count as int),
            res matches Ok(a) ==> a.documents@.len() == text_documents(bytes@, Limits::default_spec()),
            res matches Ok(a) ==> (has_error(a.diagnostics@) <==> text_dup(bytes@, Limits::default_spec())),
            bytes@.len() == 0 ==> (res matches Err(e) && e.code@ == "empty_asset"@),
    {
        parse_with_limits(bytes, Limits::default())
    }

    pub fn parse_with_limits(bytes: &[u8], limits: Limits) -> (res: Result<Self, CoreError>)
        ensures
            parse_outcome(bytes@, limits, res),
            admissible(bytes@, limits) ==> (res is Ok <==> text_run(bytes@, limits) is Some),
            res matches Ok(a) ==> text_run(bytes@, limits) == Some(a.node_count as int),
            res matches Ok(a) ==> a.documents@.len() == text_documents(bytes@, limits),
            res matches Ok(a) ==> (has_error(a.diagnostics@) <==> text_dup(bytes@, limits)),
            bytes@.len() == 0 ==> (res matches Err(e) && e.code@ == "empty_asset"@),
    {
        parse_with_limits(bytes, limits)
    }

    /// The text of a span of the asset's bytes.
    ///
    /// Parser spans start and end on character boundaries; a span that does
    /// not (which the parser never produces) yields the empty string.
    pub fn text(&self, span: Span) -> (res: String)
        requires
            span.within(self.bytes@.len() as int),
        ensures
            res@ == span_text(self.bytes@, span),
    {
        match decode_bytes(crate::syntax::slice_range(self.bytes.as_slice(), span.start, span.end)) {
            Ok(t) => t,
            Err(_) => String::new(),
        }
    }

    /// The document with this file ID (the last one, should IDs repeat).
    pub fn document(&self, object_id: &str) -> (res: Option<&Document>)
        ensures
            res matches Some(d) ==> last_document(self.documents@, object_id@) matches Some(k)
                && *d == self.documents@[k],
            res is None ==> last_document(self.documents@, object_id@) is None,
    {
        let mut k = self.documents.len();
        assert(self.documents@.take(k as int) == self.documents@);
        while k > 0
            invariant
                k <= self.documents@.len(),
                last_document(self.documents@, object_id@) == last_document(self.documents@.take(k as int), object_id@),
            decreases k,
        {
            let ghost prefix = self.documents@.take(k as int);
            assert(prefix.drop_last() == self.documents@.take(k - 1));
            if text_eq(self.documents[k - 1].object_id.as_str(), object_id) {
                return Some(&self.documents[k - 1]);
            }
            k = k - 1;
        }
        None
    }

    /// Whether no diagnostic is an error.
    pub fn is_writable(&self) -> (res: bool)
        ensures
            res == !has_error(self.diagnostics@),
    {
        let mut k: usize = 0;
        while k < self.diagnostics.len()
            invariant
                k <= self.diagnostics@.len(),
                forall|j: int| 0 <= j < k ==> (#[trigger] self.diagnostics@[j]).severity != Severity::Error,
            decreases self.diagnostics@.len() - k,
        {
            if self.diagnostics[k].severity == Severity::Error {
                return false;
            }
            k = k + 1;
        }
        true
    }
}

impl Node {
    /// The text of a scalar node.
    pub fn scalar(&self, asset: &Asset) -> (res: Option<String>)
        requires
            self.span.within(asset.bytes@.len() as int),
        ensures
            res is Some <==> self.kind is Scalar,
            res matches Some(t) ==> t@ == span_text(asset.bytes@, self.span),
    {
        match self.kind {
            NodeKind::Scalar(_) => Some(asset.text(self.span)),
            _ => None,
        }
    }
}

/// The outcome of reading the documents of an admissible text: the final
/// node count, or `None` where a document is refused.
#[verifier::opaque]
pub open spec fn text_run(bytes: Seq<u8>, limits: Limits) -> Option<int> {
    let lines = line_table(bytes);
    let n = lines.len() as int;
    docs_run(lines, bytes, after_directives(lines, bytes, skip_to(lines, bytes, 0, n), n), 0, limits, false)
}

/// How many documents an admissible text that reads yields: every document
/// the text holds, repeated file IDs included.
#[verifier::opaque]
pub open spec fn text_documents(bytes: Seq<u8>, limits: Limits) -> int {
    let lines = line_table(bytes);
    let n = lines.len() as int;
    docs_count(lines, bytes, after_directives(lines, bytes, skip_to(lines, bytes, 0, n), n), 0, limits)
}

/// Whether a text that reads repeats a document file ID, or a mapping key
/// anywhere in its documents.
#[verifier::opaque]
pub open spec fn text_dup(bytes: Seq<u8>, limits: Limits) -> bool {
    let lines = line_table(bytes);
    let n = lines.len() as int;
    docs_dup(lines, bytes, after_directives(lines, bytes, skip_to(lines, bytes, 0, n), n), 0, limits, Seq::empty())
}

/// Whether parsing a text with the default budgets fails: it is not
/// admissible, or a document of it is refused.
pub open spec fn parse_refused(bytes: Seq<u8>) -> bool {
    !admissible(bytes, Limits::default_spec()) || text_run(bytes, Limits::default_spec()) is None
}

/// What parsing `bytes` within `limits` yields: the first failed pre-check's
/// error, or (when the YAML structure is supported) an asset that holds the
/// exact input bytes.
pub open spec fn parse_outcome(bytes: Seq<u8>, limits: Limits, res: Result<Asset, CoreError>) -> bool {
    let sized = bytes.len() <= limits.max_bytes && bytes.len() <= isize::MAX;
    &&& !sized ==> (res matches Err(e) && e.code@ == "size_limit"@ && e.offset == 0)
    &&& (sized && !valid_utf8(bytes)) ==> (res matches Err(e) && e.code@ == "invalid_utf8"@
        && e.offset < bytes.len() && valid_utf8(bytes.take(e.offset as int)))
    &&& (sized && valid_utf8(bytes) && has_nul(bytes)) ==> (res matches Err(e) && e.code@
        == "binary_asset"@ && e.offset == 0)
    &&& (sized && valid_utf8(bytes) && !has_nul(bytes) && indentation_tab(bytes, bom_len(bytes)) is Some)
        ==> (res matches Err(e) && e.code@ == "tab_indentation"@ && Some(e.offset as int)
        == indentation_tab(bytes, bom_len(bytes)))
    &&& res matches Ok(a) ==> {
        &&& admissible(bytes, limits)
        &&& a.bytes@ == bytes
        &&& a.content_hash@ == hex_spec(blake3_digest(bytes))
        &&& a.newline@ == (if has_crlf(bytes) { "\r\n"@ } else { "\n"@ })
        &&& asset_wf(a, limits)
    }
}

/// Parses a Unity YAML text.
pub fn parse(bytes: &[u8]) -> (res: Result<Asset, CoreError>)
    ensures
        parse_outcome(bytes@, Limits::default_spec(), res),
        res is Err <==> parse_refused(bytes@),
        admissible(bytes@, Limits::default_spec()) ==> (res is Ok <==> text_run(bytes@, Limits::default_spec()) is Some),
        res matches Ok(a) ==> text_run(bytes@, Limits::default_spec()) == Some(a.node_count as int),
        res matches Ok(a) ==> a.documents@.len() == text_documents(bytes@, Limits::default_spec()),
        res matches Ok(a) ==> (has_error(a.diagnostics@) <==> text_dup(bytes@, Limits::default_spec())),
        bytes@.len() == 0 ==> (res matches Err(e) && e.code@ == "empty_asset"@),
{
    parse_with_limits(bytes, Limits::default())
}

pub fn parse_with_limits(bytes: &[u8], limits: Limits) -> (res: Result<Asset, CoreError>)
    ensures
        parse_outcome(bytes@, limits, res),
        admissible(bytes@, limits) ==> (res is Ok <==> text_run(bytes@, limits) is Some),
        res matches Ok(a) ==> text_run(bytes@, limits) == Some(a.node_count as int),
        res matches Ok(a) ==> a.documents@.len() == text_documents(bytes@, limits),
        res matches Ok(a) ==> (has_error(a.diagnostics@) <==> text_dup(bytes@, limits)),
        bytes@.len() == 0 ==> (res matches Err(e) && e.code@ == "empty_asset"@),
{
    if bytes.len() > limits.max_bytes || bytes.len() > isize::MAX as usize {
        return Err(CoreError::new("size_limit", "asset exceeds parser byte budget", 0));
    }
    match decode_bytes(bytes) {
        Ok(_) => {},
        Err(k) => {
            return Err(CoreError::new(
                "invalid_utf8",
                "opaque/non-UTF-8 asset requires whole-file selection",
                k,
            ));
        },
    }
    if find_nul(bytes) {
        return Err(CoreError::new("binary_asset", "NUL byte in YAML input", 0));
    }
    let lines = match split_lines(bytes) {
        Ok(lines) => lines,
        Err(offset) => {
            return Err(CoreError::new(
                "tab_indentation",
                "tab indentation is outside the supported Unity dialect",
                offset,
            ));
        },
    };
    proof {
        crate::lines::lemma_lines_from_wf(bytes@, bom_len(bytes@));
    }
    let mut parser = Parser { bytes, lines, limits, nodes: 0, diagnostics: Vec::new() };
    proof {
        reveal(text_run);
        reveal(text_documents);
        reveal(text_dup);
    }
    let documents = parser.documents()?;
    proof {
        if parser.diagnostics@.len() > 0 {
            assert(crate::parser::duplicate_report(parser.diagnostics@[0]));
        }
    }
    let newline = if find_crlf(bytes) { "\r\n" } else { "\n" };
    let content_hash = content_hash(bytes);
    Ok(Asset {
        bytes: to_vec(bytes),
        documents,
        diagnostics: parser.diagnostics,
        content_hash,
        newline,
        node_count: parser.nodes,
    })
}

} // verus!
