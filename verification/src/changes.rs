//! The vocabulary of a three-way merge: changes between base and source,
//! their status against the target, bounded value previews, and stable
//! change IDs.
use vstd::prelude::*;
use vstd::utf8::*;

use crate::asset::{span_text, Asset};
use crate::digest::{blake3_digest, blake3_hash, hex, hex_spec};
use crate::numbers::{i64_value, parse_i64};
use crate::reading::{field_text, field_text_of, is_pptr, lemma_child_wf, lemma_get_wf, pptr};
use crate::syntax::{Entry, Item, Node, NodeKind, ScalarStyle, Span};
use crate::text::{chars_of, concat, concat3, string_of, text_eq};
use crate::tree::node_wf;
use vstd::string::StringSliceAdditionalSpecFns;

verus! {

#[derive(Debug, Clone, PartialEq, Eq, Structural)]
pub enum ChangeKind {
    AddField,
    RemoveField,
    ModifyField,
    AddObject,
    RemoveObject,
    ModifyObject,
    ReplaceSequence,
}

#[derive(Debug, Clone, PartialEq, Eq, Structural)]
pub enum ChangeStatus {
    Clean,
    Conflict,
    AlreadyApplied,
}

#[derive(Debug, Clone)]
pub struct ValueSummary {
    pub kind: String,
    pub hash: String,
    /// Bounded preview, not a round-trip serialization API.
    pub raw: String,
    pub truncated: bool,
}

#[derive(Debug, Clone)]
pub struct Change {
    pub id: String,
    pub object_id: String,
    /// RFC 6901 pointer. Stable identity selectors replace array indices where
    /// the Unity format provides an identity (e.g. `@rid=101`).
    pub property_path: String,
    pub kind: ChangeKind,
    pub status: ChangeStatus,
    pub reason: Option<String>,
    pub base: Option<ValueSummary>,
    pub target: Option<ValueSummary>,
    pub source: Option<ValueSummary>,
}

/// A value preview as a mathematical value.
pub ghost struct SummaryView {
    pub kind: Seq<char>,
    pub hash: Seq<char>,
    pub raw: Seq<char>,
    pub truncated: bool,
}

/// A change as a mathematical value.
pub ghost struct ChangeView {
    pub id: Seq<char>,
    pub object_id: Seq<char>,
    pub property_path: Seq<char>,
    pub kind: ChangeKind,
    pub status: ChangeStatus,
    pub reason: Option<Seq<char>>,
    pub base: Option<SummaryView>,
    pub target: Option<SummaryView>,
    pub source: Option<SummaryView>,
}

impl ValueSummary {
    pub open spec fn view(self) -> SummaryView {
        SummaryView { kind: self.kind@, hash: self.hash@, raw: self.raw@, truncated: self.truncated }
    }
}

pub open spec fn summary_view(s: Option<ValueSummary>) -> Option<SummaryView> {
    match s {
        Some(v) => Some(v.view()),
        None => None,
    }
}

impl Change {
    pub open spec fn view(self) -> ChangeView {
        ChangeView {
            id: self.id@,
            object_id: self.object_id@,
            property_path: self.property_path@,
            kind: self.kind,
            status: self.status,
            reason: crate::syntax::text_view(self.reason),
            base: summary_view(self.base),
            target: summary_view(self.target),
            source: summary_view(self.source),
        }
    }
}

// ---------------------------------------------------------------------------
// Value previews.

/// The `Debug` name of a scalar style.
pub open spec fn style_name(s: ScalarStyle) -> Seq<char> {
    match s {
        ScalarStyle::Empty => "Empty"@,
        ScalarStyle::Null => "Null"@,
        ScalarStyle::Plain => "Plain"@,
        ScalarStyle::SingleQuoted => "SingleQuoted"@,
        ScalarStyle::DoubleQuoted => "DoubleQuoted"@,
        ScalarStyle::Literal => "Literal"@,
        ScalarStyle::Folded => "Folded"@,
    }
}

/// `scalar:<style>`, `mapping` or `sequence`.
pub open spec fn kind_name(n: Node) -> Seq<char> {
    match n.kind {
        NodeKind::Scalar(style) => "scalar:"@ + style_name(style),
        NodeKind::Mapping(_) => "mapping"@,
        NodeKind::Sequence(_) => "sequence"@,
    }
}

/// The number of bytes UTF-8 spends on a character.
pub open spec fn char_width(c: char) -> nat {
    encode_scalar(c as u32).len()
}

/// The longest prefix of `s` whose UTF-8 encoding fits in `budget` bytes.
pub open spec fn prefix_within(s: Seq<char>, budget: nat) -> Seq<char>
    decreases s.len(),
{
    if s.len() == 0 || char_width(s[0]) > budget {
        Seq::empty()
    } else {
        seq![s[0]] + prefix_within(s.drop_first(), (budget - char_width(s[0])) as nat)
    }
}

/// The preview of a node: its kind, its fingerprint in hex, and at most
/// 1200 bytes of its text, cut at a character boundary.
pub open spec fn summary_of(bytes: Seq<u8>, n: Node) -> SummaryView {
    let text = span_text(bytes, n.span);
    let raw = prefix_within(text, 1200);
    SummaryView { kind: kind_name(n), hash: hex_spec(n.fingerprint@), raw, truncated: raw.len() < text.len() }
}

fn char_width_of(c: char) -> (res: usize)
    ensures
        res == char_width(c),
{
    let u = c as u32;
    if u <= 0x7f {
        1
    } else if u <= 0x7ff {
        2
    } else if u <= 0xffff {
        3
    } else {
        4
    }
}

fn style_text(s: ScalarStyle) -> (res: &'static str)
    ensures
        res@ == style_name(s),
{
    match s {
        ScalarStyle::Empty => "Empty",
        ScalarStyle::Null => "Null",
        ScalarStyle::Plain => "Plain",
        ScalarStyle::SingleQuoted => "SingleQuoted",
        ScalarStyle::DoubleQuoted => "DoubleQuoted",
        ScalarStyle::Literal => "Literal",
        ScalarStyle::Folded => "Folded",
    }
}

proof fn lemma_prefix_within_step(s: Seq<char>, k: int, budget: nat)
    requires
        0 <= k < s.len(),
        char_width(s[k]) <= budget,
    ensures
        prefix_within(s.skip(k), budget) == seq![s[k]] + prefix_within(s.skip(k + 1), (budget - char_width(s[k])) as nat),
{
    assert(s.skip(k)[0] == s[k]);
    assert(s.skip(k).drop_first() == s.skip(k + 1));
}

/// A bounded preview of a node.
pub(crate) fn summary(asset: &Asset, node: &Node) -> (res: ValueSummary)
    requires
        node.span.within(asset.bytes@.len() as int),
    ensures
        res.view() == summary_of(asset.bytes@, *node),
{
    let text = asset.text(node.span);
    let chars = chars_of(text.as_str());
    let ghost all = chars@;
    let mut k: usize = 0;
    let mut left: usize = 1200;
    let mut raw: Vec<char> = Vec::new();
    assert(all.skip(0) == all);
    while k < chars.len() && char_width_of(chars[k]) <= left
        invariant
            k <= all.len(),
            all == chars@,
            left <= 1200,
            raw@ == all.take(k as int),
            prefix_within(all, 1200) == raw@ + prefix_within(all.skip(k as int), left as nat),
        decreases all.len() - k,
    {
        let w = char_width_of(chars[k]);
        proof { lemma_prefix_within_step(all, k as int, left as nat); }
        raw.push(chars[k]);
        assert(all.take(k + 1) == all.take(k as int).push(all[k as int]));
        left = left - w;
        k = k + 1;
    }
    proof {
        if k < all.len() {
            assert(all.skip(k as int)[0] == all[k as int]);
        }
        assert(prefix_within(all.skip(k as int), left as nat) == Seq::<char>::empty());
    }
    let kind = match &node.kind {
        NodeKind::Scalar(style) => concat("scalar:", style_text(*style)),
        NodeKind::Mapping(_) => "mapping".to_owned(),
        NodeKind::Sequence(_) => "sequence".to_owned(),
    };
    let digits = hex(&node.fingerprint);
    ValueSummary {
        kind,
        hash: string_of(digits.as_slice()),
        raw: string_of(raw.as_slice()),
        truncated: k < chars.len(),
    }
}

// ---------------------------------------------------------------------------
// Change IDs.

pub open spec fn node_tag(n: Option<Node>) -> Seq<u8> {
    match n {
        Some(n) => seq![1u8] + n.fingerprint@,
        None => seq![0u8],
    }
}

/// What a change ID hashes: the object ID and path (each followed by a zero
/// byte), then for base and source a one byte and the fingerprint, or a zero
/// byte where the value is missing.
pub open spec fn change_preimage(object_id: Seq<char>, path: Seq<char>, base: Option<Node>, source: Option<Node>) -> Seq<u8> {
    encode_utf8(object_id) + seq![0u8] + encode_utf8(path) + seq![0u8] + node_tag(base) + node_tag(source)
}

/// A change ID: the hex BLAKE3 digest of its preimage. It depends on base and
/// source only, never on the target.
pub open spec fn change_id_spec(object_id: Seq<char>, path: Seq<char>, base: Option<Node>, source: Option<Node>) -> Seq<char> {
    hex_spec(blake3_digest(change_preimage(object_id, path, base, source)))
}

fn append_bytes(out: &mut Vec<u8>, data: &[u8])
    ensures
        final(out)@ == old(out)@ + data@,
{
    let mut i: usize = 0;
    while i < data.len()
        invariant
            i <= data@.len(),
            out@ == old(out)@ + data@.take(i as int),
        decreases data@.len() - i,
    {
        out.push(data[i]);
        i = i + 1;
        assert(data@.take(i as int) == data@.take(i - 1).push(data@[i - 1]));
    }
    assert(data@.take(data@.len() as int) == data@);
}

fn append_tag(out: &mut Vec<u8>, n: Option<&Node>)
    ensures
        final(out)@ == old(out)@ + node_tag(match n { Some(x) => Some(*x), None => None }),
{
    match n {
        Some(x) => {
            out.push(1);
            let ghost mid = out@;
            append_bytes(out, &x.fingerprint);
            assert(out@ == old(out)@ + (seq![1u8] + x.fingerprint@));
        },
        None => {
            out.push(0);
            assert(out@ == old(out)@ + seq![0u8]);
        },
    }
}

pub(crate) fn change_id(object_id: &str, path: &str, base: Option<&Node>, source: Option<&Node>) -> (res: String)
    ensures
        res@ == change_id_spec(
            object_id@,
            path@,
            match base { Some(x) => Some(*x), None => None },
            match source { Some(x) => Some(*x), None => None },
        ),
{
    let mut pre: Vec<u8> = Vec::new();
    append_bytes(&mut pre, object_id.as_bytes());
    pre.push(0);
    append_bytes(&mut pre, path.as_bytes());
    pre.push(0);
    append_tag(&mut pre, base);
    append_tag(&mut pre, source);
    assert(pre@ =~= change_preimage(
        object_id@,
        path@,
        match base { Some(x) => Some(*x), None => None },
        match source { Some(x) => Some(*x), None => None },
    ));
    let digest = blake3_hash(pre.as_slice());
    let digits = hex(&digest);
    string_of(digits.as_slice())
}

// ---------------------------------------------------------------------------
// Identity keys of sequences.

pub open spec fn ends_with(s: Seq<char>, suffix: Seq<char>) -> bool {
    suffix.len() <= s.len() && s.skip(s.len() - suffix.len()) == suffix
}

pub open spec fn occurs_at(s: Seq<char>, part: Seq<char>, i: int) -> bool {
    0 <= i && i + part.len() <= s.len() && s.subrange(i, i + part.len()) == part
}

pub open spec fn contains_seq(s: Seq<char>, part: Seq<char>) -> bool {
    exists|i: int| #[trigger] occurs_at(s, part, i)
}

/// The identity key of one item of a sequence at `path`: a managed
/// reference's `@rid=`, a prefab modification's target and property, a
/// component's or child's file ID. `None` where the sequence kind has no
/// identity or the item lacks one.
pub open spec fn item_key(bytes: Seq<u8>, item: Node, path: Seq<char>) -> Option<Seq<char>> {
    if ends_with(path, "/references/RefIds"@) {
        match field_text(bytes, item, "rid"@) {
            Some(rid) => if i64_value(rid) is Some { Some("@rid="@ + rid) } else { None },
            None => None,
        }
    } else if ends_with(path, "/m_Modifications"@) {
        match item.spec_get("target"@) {
            Some(target) => if !is_pptr(target) {
                None
            } else {
                match field_text(bytes, item, "propertyPath"@) {
                    Some(property) => Some("@override="@ + hex_spec(target.fingerprint@) + ":"@ + property),
                    None => None,
                }
            },
            None => None,
        }
    } else if ends_with(path, "/m_Component"@) {
        match item.spec_get("component"@) {
            Some(component) => if !is_pptr(component) {
                None
            } else {
                match field_text(bytes, component, "fileID"@) {
                    Some(id) => Some("@component="@ + id),
                    None => None,
                }
            },
            None => None,
        }
    } else if ends_with(path, "/m_Children"@) {
        if !is_pptr(item) {
            None
        } else {
            match field_text(bytes, item, "fileID"@) {
                Some(id) => Some("@child="@ + id),
                None => None,
            }
        }
    } else {
        None
    }
}

/// The identity keys of a sequence: present when every item has one and no
/// two items share one.
pub open spec fn sequence_keys_spec(bytes: Seq<u8>, n: Node, path: Seq<char>) -> Option<Seq<Seq<char>>> {
    match n.spec_items() {
        Some(items) => {
            let keys = Seq::new(items.len(), |i: int| item_key(bytes, items[i].value, path).unwrap());
            if (forall|i: int| 0 <= i < items.len() ==> (#[trigger] item_key(bytes, items[i].value, path)) is Some) && keys.no_duplicates() {
                Some(keys)
            } else {
                None
            }
        },
        None => None,
    }
}

pub(crate) fn ends_with_text(s: &str, suffix: &str) -> (res: bool)
    ensures
        res == ends_with(s@, suffix@),
{
    let a = chars_of(s);
    let b = chars_of(suffix);
    if b.len() > a.len() {
        return false;
    }
    let off = a.len() - b.len();
    let mut k: usize = 0;
    while k < b.len()
        invariant
            k <= b@.len(),
            off + b@.len() == a@.len(),
            a@ == s@,
            b@ == suffix@,
            a@.len() == a.len(),
            forall|j: int| 0 <= j < k ==> a@[off + j] == b@[j],
        decreases b@.len() - k,
    {
        if a[off + k] != b[k] {
            assert(a@.skip(off as int)[k as int] != b@[k as int]);
            return false;
        }
        k = k + 1;
    }
    assert(a@.skip(off as int) =~= b@);
    true
}

fn item_key_of(asset: &Asset, item: &Node, path: &str) -> (res: Option<String>)
    requires
        node_wf(*item, asset.bytes@),
    ensures
        res matches Some(k) ==> item_key(asset.bytes@, *item, path@) == Some(k@),
        res is None ==> item_key(asset.bytes@, *item, path@) is None,
{
    let ghost bytes = asset.bytes@;
    if ends_with_text(path, "/references/RefIds") {
        match field_text_of(asset, item, "rid") {
            Some(rid) => {
                let chars = chars_of(rid.as_str());
                if parse_i64(chars.as_slice()).is_some() {
                    Some(concat("@rid=", rid.as_str()))
                } else {
                    None
                }
            },
            None => None,
        }
    } else if ends_with_text(path, "/m_Modifications") {
        proof { lemma_get_wf(*item, bytes, "target"@); }
        match item.get("target") {
            Some(target) => {
                if !pptr(target) {
                    None
                } else {
                    match field_text_of(asset, item, "propertyPath") {
                        Some(property) => {
                            let digits = hex(&target.fingerprint);
                            let h = string_of(digits.as_slice());
                            let a = concat3("@override=", h.as_str(), ":");
                            Some(concat(a.as_str(), property.as_str()))
                        },
                        None => None,
                    }
                }
            },
            None => None,
        }
    } else if ends_with_text(path, "/m_Component") {
        proof { lemma_get_wf(*item, bytes, "component"@); }
        match item.get("component") {
            Some(component) => {
                if !pptr(component) {
                    None
                } else {
                    match field_text_of(asset, component, "fileID") {
                        Some(id) => Some(concat("@component=", id.as_str())),
                        None => None,
                    }
                }
            },
            None => None,
        }
    } else if ends_with_text(path, "/m_Children") {
        if !pptr(item) {
            None
        } else {
            match field_text_of(asset, item, "fileID") {
                Some(id) => Some(concat("@child=", id.as_str())),
                None => None,
            }
        }
    } else {
        None
    }
}

pub open spec fn texts_view(s: Seq<String>) -> Seq<Seq<char>> {
    s.map_values(|t: String| t@)
}

/// The identity keys of a sequence node.
pub fn sequence_keys(asset: &Asset, node: &Node, path: &str) -> (res: Option<Vec<String>>)
    requires
        node_wf(*node, asset.bytes@),
    ensures
        res matches Some(keys) ==> sequence_keys_spec(asset.bytes@, *node, path@) == Some(texts_view(keys@)),
        res is None ==> sequence_keys_spec(asset.bytes@, *node, path@) is None,
{
    let ghost bytes = asset.bytes@;
    let items = match node.items() {
        Some(items) => items,
        None => return None,
    };
    let ghost spec_keys = Seq::new(items@.len(), |i: int| item_key(bytes, items@[i].value, path@).unwrap());
    let mut keys: Vec<String> = Vec::new();
    let mut k: usize = 0;
    while k < items.len()
        invariant
            k <= items@.len(),
            bytes == asset.bytes@,
            node_wf(*node, bytes),
            node.spec_items() == Some(items@),
            spec_keys == Seq::new(items@.len(), |i: int| item_key(bytes, items@[i].value, path@).unwrap()),
            texts_view(keys@) == spec_keys.take(k as int),
            keys@.len() == k,
            forall|i: int| 0 <= i < k ==> (#[trigger] item_key(bytes, items@[i].value, path@)) is Some,
            spec_keys.take(k as int).no_duplicates(),
        decreases items@.len() - k,
    {
        proof {
            assert(crate::reading::child(*node, k as int) == items@[k as int].value);
            lemma_child_wf(*node, bytes, k as int);
        }
        let key = match item_key_of(asset, &items[k].value, path) {
            Some(key) => key,
            None => return None,
        };
        assert(key@ == spec_keys[k as int]);
        let mut j: usize = 0;
        while j < keys.len()
            invariant
                j <= keys@.len(),
                k < items@.len(),
                spec_keys.len() == items@.len(),
                texts_view(keys@) == spec_keys.take(k as int),
                keys@.len() == k,
                key@ == spec_keys[k as int],
                bytes == asset.bytes@,
                node.spec_items() == Some(items@),
                spec_keys == Seq::new(items@.len(), |i: int| item_key(bytes, items@[i].value, path@).unwrap()),
                forall|i: int| 0 <= i < j ==> keys@[i]@ != key@,
            decreases keys@.len() - j,
        {
            if text_eq(keys[j].as_str(), key.as_str()) {
                proof {
                    assert(texts_view(keys@)[j as int] == key@);
                    assert(spec_keys.take(k as int)[j as int] == spec_keys[j as int]);
                    assert(spec_keys[j as int] == spec_keys[k as int]);
                    assert(!spec_keys.no_duplicates());
                }
                return None;
            }
            j = j + 1;
        }
        let ghost before = texts_view(keys@);
        keys.push(key);
        proof {
            assert(texts_view(keys@) =~= before.push(spec_keys[k as int]));
            assert(spec_keys.take(k + 1) =~= spec_keys.take(k as int).push(spec_keys[k as int]));
            let ghost grown = spec_keys.take(k + 1);
            assert forall|a: int, b: int| 0 <= a < b < k + 1 implies #[trigger] grown[a] != #[trigger] grown[b] by {
                if b == k {
                    assert(texts_view(keys@)[a] == keys@[a]@);
                }
            }
        }
        k = k + 1;
    }
    assert(spec_keys.take(k as int) == spec_keys);
    Some(keys)
}

} // verus!
