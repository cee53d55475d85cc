//! Addressing fields by pointer, and renaming fields that a proven schema
//! rename moved, so that base and source line up with the target.
use vstd::prelude::*;
use std::sync::Arc;
use vstd::utf8::encode_utf8;

use crate::asset::{parse_outcome, parse_refused, text_dup, Asset};
use crate::changes::{sequence_keys, sequence_keys_spec, texts_view};
use crate::changes::ChangeView;
use crate::merge::{held, parse_snapshot, parsed_from, share, text_writable, 
    catalog_core, catalog_of, doc_at, merge_changes, object_ids, point_opt, root_point, writable, FieldAlias, MergeSession, Point,
    PointView, StoredView,
};
use crate::numbers::{all_digits, digits_value};
use crate::pointer::{child_spec, decode_chars, decode_spec, path_child, split_chars, split_spec};
use crate::reading::lemma_child_wf;
use crate::splice::{apply_patches, patches_view, sort_patches, splice, spans_within, PatchView};
use crate::syntax::{first_key_index, lemma_first_key_index, CoreError, Entry, Limits, Node, NodeKind, Span};
use crate::text::{chars_of, string_of, text_eq};
use crate::tree::node_wf;
use crate::validation::documents_wf;

verus! {

/// What `serde_json::to_string` makes of a string: its JSON literal.
pub uninterp spec fn json_quoted(s: Seq<char>) -> Seq<char>;

/// Writes a string as a JSON string literal.
///
/// Calls `serde_json::to_string` on the string, which cannot fail for a
/// string. The literal is named by `json_quoted` of the text.
#[verifier::external_body]
pub(crate) fn json_quote(s: &str) -> (res: String)
    ensures
        res@ == json_quoted(s@),
{
    serde_json::to_string(s).unwrap_or_default()
}

pub open spec fn plain_key_char(c: char) -> bool {
    ('0' <= c && c <= '9') || ('a' <= c && c <= 'z') || ('A' <= c && c <= 'Z') || c == '_'
}

/// A mapping key as YAML: as is when it is ASCII letters, digits and `_`,
/// else as a JSON string literal.
pub open spec fn yaml_key_spec(key: Seq<char>) -> Seq<char> {
    if forall|k: int| 0 <= k < key.len() ==> plain_key_char(#[trigger] key[k]) {
        key
    } else {
        json_quoted(key)
    }
}

pub fn yaml_key(key: &str) -> (res: String)
    ensures
        res@ == yaml_key_spec(key@),
{
    let chars = chars_of(key);
    let mut k: usize = 0;
    while k < chars.len()
        invariant
            k <= chars@.len(),
            chars@ == key@,
            forall|j: int| 0 <= j < k ==> plain_key_char(#[trigger] chars@[j]),
        decreases chars@.len() - k,
    {
        let c = chars[k];
        if !(('0' <= c && c <= '9') || ('a' <= c && c <= 'z') || ('A' <= c && c <= 'Z') || c == '_') {
            assert(!plain_key_char(key@[k as int]));
            return json_quote(key);
        }
        k = k + 1;
    }
    key.to_owned()
}

/// The index of the last `/`.
pub open spec fn last_slash(s: Seq<char>) -> int
    decreases s.len(),
{
    if s.len() == 0 {
        -1
    } else if s.last() == '/' {
        s.len() - 1
    } else {
        last_slash(s.drop_last())
    }
}

proof fn lemma_last_slash(s: Seq<char>)
    ensures
        -1 <= last_slash(s) < s.len(),
        last_slash(s) >= 0 ==> s[last_slash(s)] == '/',
        forall|k: int| last_slash(s) < k < s.len() ==> s[k] != '/',
    decreases s.len(),
{
    if s.len() > 0 && s.last() != '/' {
        lemma_last_slash(s.drop_last());
        assert forall|k: int| last_slash(s) < k < s.len() - 1 implies s[k] != '/' by {
            assert(s[k] == s.drop_last()[k]);
        }
    }
}

/// A pointer split at its last `/` into the parent pointer and the decoded
/// last token.
pub open spec fn split_pointer_spec(path: Seq<char>) -> Result<(Seq<char>, Seq<char>), Seq<char>> {
    if path.len() == 0 || path[0] != '/' {
        Err("property path must be an RFC 6901 pointer"@)
    } else {
        let at = last_slash(path);
        match decode_spec(path.skip(at + 1)) {
            Some(key) => Ok((path.take(at), key)),
            None => Err("invalid JSON pointer escape"@),
        }
    }
}

pub fn split_pointer(path: &str) -> (res: Result<(String, String), CoreError>)
    ensures
        match split_pointer_spec(path@) {
            Ok(p) => res matches Ok(x) && x.0@ == p.0 && x.1@ == p.1,
            Err(m) => res matches Err(e) && e.code@ == "property_path"@ && e.message@ == m && e.offset == 0,
        },
{
    let chars = chars_of(path);
    if chars.len() == 0 || chars[0] != '/' {
        return Err(CoreError::new("property_path", "property path must be an RFC 6901 pointer", 0));
    }
    proof { lemma_last_slash(path@); }
    let mut k = chars.len();
    assert(chars@.take(k as int) == chars@);
    while k > 0 && chars[k - 1] != '/'
        invariant
            k <= chars@.len(),
            chars@ == path@,
            last_slash(path@) == last_slash(chars@.take(k as int)),
        decreases k,
    {
        assert(chars@.take(k as int).drop_last() == chars@.take(k - 1));
        k = k - 1;
    }
    proof {
        if k > 0 {
            assert(chars@.take(k as int).last() == '/');
        }
    }
    let at = k - 1;
    let parent = crate::pointer::sub_chars(chars.as_slice(), 0, at);
    let last = crate::pointer::sub_chars(chars.as_slice(), at + 1, chars.len());
    assert(last@ == path@.skip(at + 1));
    match decode_chars(last.as_slice()) {
        Some(key) => Ok((string_of(parent.as_slice()), string_of(key.as_slice()))),
        None => Err(CoreError::new("property_path", "invalid JSON pointer escape", 0)),
    }
}

/// The value of a sequence index token, as `str::parse::<usize>` reads it.
pub open spec fn index_token(key: Seq<char>) -> Option<nat> {
    let digits = if key.len() > 0 && key[0] == '+' { key.drop_first() } else { key };
    if digits.len() > 0 && all_digits(digits) && digits_value(digits) <= usize::MAX {
        Some(digits_value(digits))
    } else {
        None
    }
}

/// The first position of a key.
pub open spec fn position_of(keys: Seq<Seq<char>>, key: Seq<char>) -> Option<int>
    decreases keys.len(),
{
    if keys.len() == 0 {
        None
    } else if keys.last() == key {
        match position_of(keys.drop_last(), key) {
            Some(i) => Some(i),
            None => Some(keys.len() - 1),
        }
    } else {
        position_of(keys.drop_last(), key)
    }
}

/// One step of a pointer: the first entry with the key in a mapping; in a
/// sequence, the item at the index or with the identity key (`@...`).
pub open spec fn step(bytes: Seq<u8>, p: PointView, key: Seq<char>, walked: Seq<char>) -> Option<PointView> {
    match p.node.kind {
        NodeKind::Mapping(es) => match first_key_index(es@, key) {
            Some(i) => Some(PointView { node: es@[i].value, entry: Some(es@[i]), parent: Some(p.node) }),
            None => None,
        },
        NodeKind::Sequence(items) => {
            let index = if key.len() > 0 && key[0] == '@' {
                match sequence_keys_spec(bytes, p.node, walked) {
                    Some(keys) => position_of(keys, key),
                    None => None,
                }
            } else {
                match index_token(key) {
                    Some(v) => Some(v as int),
                    None => None,
                }
            };
            match index {
                Some(i) => if 0 <= i < items@.len() {
                    Some(PointView { node: items@[i].value, entry: None, parent: Some(p.node) })
                } else {
                    None
                },
                None => None,
            }
        },
        NodeKind::Scalar(_) => None,
    }
}

/// Following raw pointer tokens from a point; each token is decoded when the
/// walk reaches it.
pub open spec fn walk_tokens(bytes: Seq<u8>, p: PointView, raws: Seq<Seq<char>>, walked: Seq<char>) -> Result<Option<PointView>, Seq<char>>
    decreases raws.len(),
{
    if raws.len() == 0 {
        Ok(Some(p))
    } else {
        match decode_spec(raws[0]) {
            None => Err("invalid JSON pointer escape"@),
            Some(key) => match step(bytes, p, key, walked) {
                None => Ok(None),
                Some(q) => walk_tokens(bytes, q, raws.drop_first(), child_spec(walked, key)),
            },
        }
    }
}

/// A point's node is well formed in the text and its entry's key lies in it.
pub open spec fn point_within(p: PointView, bytes: Seq<u8>) -> bool {
    &&& node_wf(p.node, bytes)
    &&& p.entry matches Some(e) ==> e.key_span.within(bytes.len() as int) && e.span.within(bytes.len() as int)
}

/// The point a pointer names in an object of an asset.
pub open spec fn point_at_spec(a: Asset, id: Seq<char>, path: Seq<char>) -> Result<Option<PointView>, Seq<char>> {
    match doc_at(a, id) {
        None => Ok(None),
        Some(d) => if path.len() == 0 {
            Ok(Some(root_point(d)))
        } else if path[0] != '/' {
            Err("property path must be an RFC 6901 pointer"@)
        } else {
            walk_tokens(a.bytes@, root_point(d), split_spec(path.drop_first(), '/'), Seq::empty())
        },
    }
}

fn first_entry<'a>(node: &'a Node, es: &'a Vec<Entry>, key: &str) -> (res: Option<Point<'a>>)
    requires
        node.kind == NodeKind::Mapping(*es),
    ensures
        point_opt(res) == match first_key_index(es@, key@) {
            Some(i) => Some(PointView { node: es@[i].value, entry: Some(es@[i]), parent: Some(*node) }),
            None => None,
        },
        res matches Some(p) ==> exists|i: int| 0 <= i < es@.len() && *p.node == (#[trigger] es@[i]).value,
{
    proof { lemma_first_key_index(es@, key@); }
    let mut i: usize = 0;
    while i < es.len()
        invariant
            i <= es@.len(),
            forall|j: int| 0 <= j < i ==> es@[j].key@ != key@,
            first_key_index(es@, key@) matches Some(k) ==> {
                &&& 0 <= k < es@.len()
                &&& es@[k].key@ == key@
                &&& forall|j: int| 0 <= j < k ==> es@[j].key@ != key@
            },
            first_key_index(es@, key@) is None ==> forall|j: int| 0 <= j < es@.len() ==> es@[j].key@ != key@,
        decreases es@.len() - i,
    {
        if text_eq(es[i].key.as_str(), key) {
            assert(first_key_index(es@, key@) == Some(i as int));
            return Some(Point { node: &es[i].value, entry: Some(&es[i]), parent: Some(node) });
        }
        i = i + 1;
    }
    None
}

fn first_position(keys: &Vec<String>, key: &str) -> (res: Option<usize>)
    ensures
        res matches Some(i) ==> position_of(texts_view(keys@), key@) == Some(i as int),
        res is None ==> position_of(texts_view(keys@), key@) is None,
{
    let ghost kv = texts_view(keys@);
    let mut i: usize = 0;
    while i < keys.len()
        invariant
            i <= keys@.len(),
            kv == texts_view(keys@),
            kv.len() == keys@.len(),
            forall|j: int| 0 <= j < i ==> kv[j] != key@,
        decreases keys@.len() - i,
    {
        if text_eq(keys[i].as_str(), key) {
            proof {
                assert(kv[i as int] == keys@[i as int]@);
                lemma_position_first(kv, key@, i as int);
            }
            return Some(i);
        }
        i = i + 1;
    }
    proof { lemma_position_none(kv, key@); }
    None
}

proof fn lemma_position_first(keys: Seq<Seq<char>>, key: Seq<char>, i: int)
    requires
        0 <= i < keys.len(),
        keys[i] == key,
        forall|j: int| 0 <= j < i ==> keys[j] != key,
    ensures
        position_of(keys, key) == Some(i),
    decreases keys.len(),
{
    if i < keys.len() - 1 {
        lemma_position_first(keys.drop_last(), key, i);
    } else {
        lemma_position_none(keys.drop_last(), key);
    }
}

proof fn lemma_position_none(keys: Seq<Seq<char>>, key: Seq<char>)
    requires
        forall|j: int| 0 <= j < keys.len() ==> keys[j] != key,
    ensures
        position_of(keys, key) is None,
    decreases keys.len(),
{
    if keys.len() > 0 {
        lemma_position_none(keys.drop_last(), key);
    }
}

fn index_of_token(key: &[char]) -> (res: Option<usize>)
    ensures
        res matches Some(v) ==> index_token(key@) == Some(v as nat),
        res is None ==> index_token(key@) is None,
{
    let digits = if key.len() > 0 && key[0] == '+' {
        crate::pointer::sub_chars(key, 1, key.len())
    } else {
        crate::pointer::sub_chars(key, 0, key.len())
    };
    proof {
        if key@.len() > 0 && key@[0] == '+' {
            assert(digits@ == key@.drop_first());
        } else {
            assert(digits@ == key@);
        }
    }
    if digits.len() == 0 || !crate::pointer::all_digit_chars(digits.as_slice()) {
        return None;
    }
    crate::property_path::index_value(digits.as_slice())
}

/// One pointer step from a point.
pub(crate) fn step_from<'a>(asset: &'a Asset, p: Point<'a>, key: &str, walked: &str) -> (res: Option<Point<'a>>)
    requires
        node_wf(*p.node, asset.bytes@),
    ensures
        point_opt(res) == step(asset.bytes@, p.view(), key@, walked@),
        res matches Some(q) ==> point_within(q.view(), asset.bytes@),
{
    match &p.node.kind {
        NodeKind::Mapping(es) => {
            let found = first_entry(p.node, es, key);
            proof {
                lemma_first_key_index(es@, key@);
                if found is Some {
                    let i = first_key_index(es@, key@).unwrap();
                    assert(node_wf(es@[i].value, asset.bytes@));
                    assert(es@[i].key_span.within(asset.bytes@.len() as int));
                    assert(es@[i].span.within(asset.bytes@.len() as int));
                }
            }
            found
        },
        NodeKind::Sequence(items) => {
            let kc = chars_of(key);
            let index = if kc.len() > 0 && kc[0] == '@' {
                match sequence_keys(asset, p.node, walked) {
                    Some(keys) => first_position(&keys, key),
                    None => None,
                }
            } else {
                index_of_token(kc.as_slice())
            };
            match index {
                Some(i) => if i < items.len() {
                    proof {
                        assert(crate::reading::child(*p.node, i as int) == items@[i as int].value);
                        lemma_child_wf(*p.node, asset.bytes@, i as int);
                    }
                    Some(Point { node: &items[i].value, entry: None, parent: Some(p.node) })
                } else {
                    None
                },
                None => None,
            }
        },
        NodeKind::Scalar(_) => None,
    }
}

/// The point a pointer names in an object of an asset; `None` where the
/// object or a step is missing.
pub fn point_at<'a>(asset: &'a Asset, object_id: &str, path: &str) -> (res: Result<Option<Point<'a>>, CoreError>)
    requires
        documents_wf(*asset),
    ensures
        match point_at_spec(*asset, object_id@, path@) {
            Ok(p) => res matches Ok(x) && point_opt(x) == p,
            Err(m) => res matches Err(e) && e.code@ == "property_path"@ && e.message@ == m && e.offset == 0,
        },
        res matches Ok(Some(p)) ==> point_within(p.view(), asset.bytes@),
{
    proof { crate::asset::lemma_last_document(asset.documents@, object_id@); }
    let doc = match asset.document(object_id) {
        Some(d) => d,
        None => return Ok(None),
    };
    proof {
        let k = crate::asset::last_document(asset.documents@, object_id@).unwrap();
        assert(crate::asset::document_wf(asset.documents@[k], asset.bytes@));
    }
    let mut point = Point { node: &doc.root, entry: None, parent: None };
    let chars = chars_of(path);
    if chars.len() == 0 {
        return Ok(Some(point));
    }
    if chars[0] != '/' {
        return Err(CoreError::new("property_path", "property path must be an RFC 6901 pointer", 0));
    }
    let rest = crate::pointer::sub_chars(chars.as_slice(), 1, chars.len());
    assert(rest@ == path@.drop_first());
    let parts = split_chars(rest.as_slice(), '/');
    let ghost raws = split_spec(rest@, '/');
    let mut walked = String::new();
    let mut k: usize = 0;
    proof {
        reveal_strlit("");
        assert(raws.skip(0) == raws);
    }
    while k < parts.len()
        invariant
            k <= parts@.len(),
            parts@.len() == raws.len(),
            forall|i: int| 0 <= i < parts@.len() ==> (#[trigger] parts@[i])@ == raws[i],
            point_within(point.view(), asset.bytes@),
            point_at_spec(*asset, object_id@, path@) == walk_tokens(asset.bytes@, point.view(), raws.skip(k as int), walked@),
        decreases parts@.len() - k,
    {
        assert(raws.skip(k as int)[0] == raws[k as int]);
        assert(raws.skip(k as int).drop_first() == raws.skip(k + 1));
        let key = match decode_chars(parts[k].as_slice()) {
            Some(d) => string_of(d.as_slice()),
            None => return Err(CoreError::new("property_path", "invalid JSON pointer escape", 0)),
        };
        match step_from(asset, point, key.as_str(), walked.as_str()) {
            Some(next) => {
                point = next;
            },
            None => return Ok(None),
        }
        walked = path_child(walked.as_str(), key.as_str());
        k = k + 1;
    }
    assert(raws.skip(k as int) =~= Seq::<Seq<char>>::empty());
    Ok(Some(point))
}

// ---------------------------------------------------------------------------
// Renaming aliased keys.

/// An error as values: its code, its message and its byte offset.
pub type Failure = (Seq<char>, Seq<char>, int);

pub open spec fn fails(e: CoreError, f: Failure) -> bool {
    e.code@ == f.0 && e.message@ == f.1 && e.offset == f.2
}

pub open spec fn path_failure(m: Seq<char>) -> Failure {
    ("property_path"@, m, 0)
}

/// The patch an alias makes in a snapshot: where the old field stands, its
/// key becomes the new key. A snapshot holding both names is refused.
pub open spec fn alias_patch(a: Asset, al: FieldAlias) -> Result<Option<PatchView>, Failure> {
    match point_at_spec(a, al.object_id@, al.old_path@) {
        Err(m) => Err(path_failure(m)),
        Ok(old) => match point_at_spec(a, al.object_id@, al.new_path@) {
            Err(m) => Err(path_failure(m)),
            Ok(new) => if old is Some && new is Some {
                Err(("ambiguous_alias"@, "snapshot contains both the old and new field"@, 0))
            } else {
                match old {
                    None => Ok(None),
                    Some(p) => match p.entry {
                        None => Err(("alias_scope"@, "only mapping field keys can be renamed"@, p.node.span.start as int)),
                        Some(e) => match split_pointer_spec(al.new_path@) {
                            Err(m) => Err(path_failure(m)),
                            Ok(parts) => Ok(Some((e.key_span, encode_utf8(yaml_key_spec(parts.1))))),
                        },
                    },
                }
            },
        },
    }
}

/// The patches of the aliases, in order, or the first failure.
pub open spec fn rename_patches(a: Asset, als: Seq<FieldAlias>) -> Result<Seq<PatchView>, Failure>
    decreases als.len(),
{
    if als.len() == 0 {
        Ok(Seq::empty())
    } else {
        match rename_patches(a, als.drop_last()) {
            Err(f) => Err(f),
            Ok(ps) => match alias_patch(a, als.last()) {
                Err(f) => Err(f),
                Ok(None) => Ok(ps),
                Ok(Some(p)) => Ok(ps.push(p)),
            },
        }
    }
}

/// A snapshot's text with every aliased key renamed; two renames of one key
/// are refused at the second one's start.
pub open spec fn renamed(a: Asset, als: Seq<FieldAlias>) -> Result<Seq<u8>, Failure> {
    match rename_patches(a, als) {
        Err(f) => Err(f),
        Ok(ps) => match splice(a.bytes@, sort_patches(ps), 0) {
            Ok(out) => Ok(out),
            Err(at) => Err(("ambiguous_alias"@, "multiple aliases modify the same key"@, at as int)),
        },
    }
}

proof fn lemma_rename_failed(a: Asset, als: Seq<FieldAlias>, n: int)
    requires
        0 <= n <= als.len(),
        rename_patches(a, als.take(n)) is Err,
    ensures
        rename_patches(a, als) == rename_patches(a, als.take(n)),
    decreases als.len(),
{
    if n < als.len() {
        assert(als.drop_last().take(n) == als.take(n));
        lemma_rename_failed(a, als.drop_last(), n);
    } else {
        assert(als.take(n) == als);
    }
}

fn alias_patch_of(asset: &Asset, al: &FieldAlias) -> (res: Result<Option<(Span, Vec<u8>)>, CoreError>)
    requires
        documents_wf(*asset),
    ensures
        match alias_patch(*asset, *al) {
            Ok(None) => res matches Ok(None),
            Ok(Some(p)) => res matches Ok(Some(x)) && x.0 == p.0 && x.1@ == p.1 && p.0.within(asset.bytes@.len() as int),
            Err(f) => res matches Err(e) && fails(e, f),
        },
{
    let old = point_at(asset, al.object_id.as_str(), al.old_path.as_str())?;
    let new = point_at(asset, al.object_id.as_str(), al.new_path.as_str())?;
    if old.is_some() && new.is_some() {
        return Err(CoreError::new("ambiguous_alias", "snapshot contains both the old and new field", 0));
    }
    match old {
        None => Ok(None),
        Some(p) => match p.entry {
            None => Err(CoreError::new("alias_scope", "only mapping field keys can be renamed", p.node.span.start)),
            Some(e) => {
                let (_, new_key) = split_pointer(al.new_path.as_str())?;
                let text = yaml_key(new_key.as_str());
                let bytes = crate::asset::to_vec(text.as_str().as_bytes());
                Ok(Some((e.key_span, bytes)))
            },
        },
    }
}

/// Renames, in a snapshot, each aliased field from its old key to its new
/// one, keeping every other byte.
pub fn rename_snapshot_keys(asset: &Asset, aliases: &[FieldAlias]) -> (res: Result<Vec<u8>, CoreError>)
    requires
        documents_wf(*asset),
    ensures
        match renamed(*asset, aliases@) {
            Ok(out) => res matches Ok(v) && v@ == out,
            Err(f) => res matches Err(e) && fails(e, f),
        },
{
    let mut patches: Vec<(Span, Vec<u8>)> = Vec::new();
    let mut k: usize = 0;
    assert(aliases@.take(0) =~= Seq::<FieldAlias>::empty());
    assert(patches_view(patches@) =~= Seq::<PatchView>::empty());
    while k < aliases.len()
        invariant
            k <= aliases@.len(),
            documents_wf(*asset),
            rename_patches(*asset, aliases@.take(k as int)) == Ok::<Seq<PatchView>, Failure>(patches_view(patches@)),
            spans_within(patches_view(patches@), asset.bytes@.len() as int),
        decreases aliases@.len() - k,
    {
        assert(aliases@.take(k + 1).drop_last() == aliases@.take(k as int));
        assert(aliases@.take(k + 1).last() == aliases@[k as int]);
        match alias_patch_of(asset, &aliases[k]) {
            Err(e) => {
                proof { lemma_rename_failed(*asset, aliases@, k + 1); }
                return Err(e);
            },
            Ok(None) => {},
            Ok(Some(p)) => {
                let ghost before = patches@;
                patches.push(p);
                assert(patches_view(patches@) =~= patches_view(before).push((p.0, p.1@)));
            },
        }
        k = k + 1;
    }
    assert(aliases@.take(k as int) == aliases@);
    match apply_patches(asset.bytes.as_slice(), patches) {
        Ok(v) => Ok(v),
        Err(at) => Err(CoreError::new("ambiguous_alias", "multiple aliases modify the same key", at)),
    }
}

// ---------------------------------------------------------------------------
// Merging with aliases.

/// Whether an earlier alias already maps the same object's same new path.
pub open spec fn maps_same_target(earlier: Seq<FieldAlias>, al: FieldAlias) -> bool {
    exists|j: int|
        0 <= j < earlier.len() && (#[trigger] earlier[j]).object_id@ == al.object_id@ && earlier[j].new_path@
            == al.new_path@
}

/// Why an alias is refused against the target, if it is: it repeats an
/// earlier alias's target field; it does not rename one key within one
/// parent mapping; or the target lacks the new field or still has the old.
pub open spec fn alias_refusal(t: Asset, earlier: Seq<FieldAlias>, al: FieldAlias) -> Option<Failure> {
    if maps_same_target(earlier, al) {
        Some(("ambiguous_alias"@, "multiple aliases map to the same target field"@, 0))
    } else {
        match split_pointer_spec(al.old_path@) {
            Err(m) => Some(path_failure(m)),
            Ok(o) => match split_pointer_spec(al.new_path@) {
                Err(m) => Some(path_failure(m)),
                Ok(n) => if o.0 != n.0 || o.1 == n.1 {
                    Some(("alias_scope"@, "field aliases must rename one key within the same parent mapping"@, 0))
                } else {
                    match point_at_spec(t, al.object_id@, al.new_path@) {
                        Err(m) => Some(path_failure(m)),
                        Ok(None) => Some(target_failure()),
                        Ok(Some(_)) => match point_at_spec(t, al.object_id@, al.old_path@) {
                            Err(m) => Some(path_failure(m)),
                            Ok(Some(_)) => Some(target_failure()),
                            Ok(None) => None,
                        },
                    }
                },
            },
        }
    }
}

pub open spec fn target_failure() -> Failure {
    ("alias_target"@, "target must contain only the proven new field name"@, 0)
}

/// The refusal of the first refused alias, if any is refused.
pub open spec fn aliases_refusal(t: Asset, als: Seq<FieldAlias>) -> Option<Failure>
    decreases als.len(),
{
    if als.len() == 0 {
        None
    } else {
        match aliases_refusal(t, als.drop_last()) {
            Some(f) => Some(f),
            None => alias_refusal(t, als.drop_last(), als.last()),
        }
    }
}

proof fn lemma_refusal_stops(t: Asset, als: Seq<FieldAlias>, n: int)
    requires
        0 <= n <= als.len(),
        aliases_refusal(t, als.take(n)) is Some,
    ensures
        aliases_refusal(t, als) == aliases_refusal(t, als.take(n)),
    decreases als.len(),
{
    if n < als.len() {
        assert(als.drop_last().take(n) == als.take(n));
        lemma_refusal_stops(t, als.drop_last(), n);
    } else {
        assert(als.take(n) == als);
    }
}

fn repeats_target(earlier: &[FieldAlias], al: &FieldAlias) -> (res: bool)
    ensures
        res == maps_same_target(earlier@, *al),
{
    let mut j: usize = 0;
    while j < earlier.len()
        invariant
            j <= earlier@.len(),
            forall|i: int|
                0 <= i < j ==> !((#[trigger] earlier@[i]).object_id@ == al.object_id@ && earlier@[i].new_path@
                    == al.new_path@),
        decreases earlier@.len() - j,
    {
        if text_eq(earlier[j].object_id.as_str(), al.object_id.as_str())
            && text_eq(earlier[j].new_path.as_str(), al.new_path.as_str()) {
            return true;
        }
        j = j + 1;
    }
    false
}

fn check_alias(target: &Asset, earlier: &[FieldAlias], al: &FieldAlias) -> (res: Result<(), CoreError>)
    requires
        documents_wf(*target),
    ensures
        match alias_refusal(*target, earlier@, *al) {
            Some(f) => res matches Err(e) && fails(e, f),
            None => res is Ok,
        },
{
    if repeats_target(earlier, al) {
        return Err(CoreError::new("ambiguous_alias", "multiple aliases map to the same target field", 0));
    }
    let (old_parent, old_key) = split_pointer(al.old_path.as_str())?;
    let (new_parent, new_key) = split_pointer(al.new_path.as_str())?;
    if !text_eq(old_parent.as_str(), new_parent.as_str()) || text_eq(old_key.as_str(), new_key.as_str()) {
        return Err(CoreError::new(
            "alias_scope",
            "field aliases must rename one key within the same parent mapping",
            0,
        ));
    }
    let missing_new = point_at(target, al.object_id.as_str(), al.new_path.as_str())?.is_none();
    if missing_new || point_at(target, al.object_id.as_str(), al.old_path.as_str())?.is_some() {
        return Err(CoreError::new("alias_target", "target must contain only the proven new field name", 0));
    }
    Ok(())
}

fn copy_aliases(aliases: &[FieldAlias]) -> (res: Vec<FieldAlias>)
    ensures
        res@ == aliases@,
{
    let mut out: Vec<FieldAlias> = Vec::new();
    let mut k: usize = 0;
    while k < aliases.len()
        invariant
            k <= aliases@.len(),
            out@ == aliases@.take(k as int),
        decreases aliases@.len() - k,
    {
        let a = &aliases[k];
        out.push(FieldAlias {
            object_id: a.object_id.clone(),
            old_path: a.old_path.clone(),
            new_path: a.new_path.clone(),
        });
        assert(out@ =~= aliases@.take(k + 1));
        k = k + 1;
    }
    assert(aliases@.take(k as int) =~= aliases@);
    out
}

/// What a session built with aliases holds: the target as given; base and
/// source with the aliased keys renamed, reparsed; the change catalog of that
/// triple, with the hashes of the base and source as given and the aliases;
/// and the base and source as given.
pub open spec fn aliased_session(
    s: MergeSession,
    base: Asset,
    target: Asset,
    source: Asset,
    als: Seq<FieldAlias>,
) -> bool {
    &&& s.target_spec() == target
    &&& renamed(base, als) == Ok::<Seq<u8>, Failure>(s.base_spec().bytes@)
    &&& renamed(source, als) == Ok::<Seq<u8>, Failure>(s.source_spec().bytes@)
    &&& s.original_base_spec() == Some(base)
    &&& s.original_source_spec() == Some(source)
    &&& catalog_core(s.catalog_spec(), s.base_spec(), target, s.source_spec())
    &&& s.catalog_spec().base_hash@ == base.content_hash@
    &&& s.catalog_spec().source_hash@ == source.content_hash@
    &&& s.catalog_spec().aliases@ == als
    &&& s.regions_spec() == merge_changes(s.base_spec(), target, s.source_spec(), object_ids(s.base_spec(), s.source_spec()).len()).map_values(
        |p: (ChangeView, StoredView)| p.1,
    )
}

/// Why building a session of renamed texts and a target can fail: a renamed
/// text does not parse, or one of the three snapshots is not writable.
pub open spec fn rebuild_failed(e: CoreError, rb: Seq<u8>, target: Asset, rs: Seq<u8>) -> bool {
    ||| parse_refused(rb) && parse_outcome(rb, Limits::default_spec(), Err(e))
    ||| !parse_refused(rb) && parse_refused(rs) && parse_outcome(rs, Limits::default_spec(), Err(e))
    ||| !parse_refused(rb) && !parse_refused(rs) && e.code@ == "invalid_asset"@ && (text_dup(rb, Limits::default_spec())
        || !writable(target) || text_dup(rs, Limits::default_spec()))
}

proof fn lemma_failed_triple(base: Seq<u8>, target: Seq<u8>, source: Seq<u8>, b: Asset, t: Asset, c: Asset, e: CoreError, als: Seq<FieldAlias>)
    requires
        parse_outcome(base, Limits::default_spec(), Ok(b)),
        parse_outcome(target, Limits::default_spec(), Ok(t)),
        parse_outcome(source, Limits::default_spec(), Ok(c)),
        aliases_failed(e, b, t, c, als),
    ensures
        exists|x: Asset, y: Asset, z: Asset|
            #![trigger parse_outcome(base, Limits::default_spec(), Ok(x)), parse_outcome(target, Limits::default_spec(), Ok(y)), parse_outcome(source, Limits::default_spec(), Ok(z))]
            parse_outcome(base, Limits::default_spec(), Ok(x)) && parse_outcome(target, Limits::default_spec(), Ok(y))
                && parse_outcome(source, Limits::default_spec(), Ok(z)) && aliases_failed(e, x, y, z, als),
{
}

/// Why building a session with aliases from parsed snapshots can fail: an
/// alias is refused, a rename is refused, or the renamed texts do not make a
/// writable triple.
pub open spec fn aliases_failed(e: CoreError, base: Asset, target: Asset, source: Asset, als: Seq<FieldAlias>) -> bool {
    match aliases_refusal(target, als) {
        Some(f) => fails(e, f),
        None => match renamed(base, als) {
            Err(f) => fails(e, f),
            Ok(rb) => match renamed(source, als) {
                Err(f) => fails(e, f),
                Ok(rs) => rebuild_failed(e, rb, target, rs),
            },
        },
    }
}

/// Builds the change catalog of a triple whose base and source still use
/// field names that proven aliases renamed in the target. Each alias must
/// rename one key within one parent mapping, name a target field no earlier
/// alias names, and match a target that has the new field and not the old;
/// base and source then have the old keys renamed and are parsed again.
pub fn merge_with_aliases(base: Asset, target: Asset, source: Asset, aliases: &[FieldAlias]) -> (res: Result<
    MergeSession,
    CoreError,
>)
    requires
        documents_wf(base),
        documents_wf(target),
        documents_wf(source),
    ensures
        aliases_refusal(target, aliases@) matches Some(f) ==> res matches Err(e) && fails(e, f),
        aliases_refusal(target, aliases@) is None ==> match renamed(base, aliases@) {
            Err(f) => res matches Err(e) && fails(e, f),
            Ok(_) => renamed(source, aliases@) matches Err(f) ==> res matches Err(e) && fails(e, f),
        },
        res matches Ok(s) ==> aliased_session(s, base, target, source, aliases@) && writable(s.base_spec())
            && writable(target) && writable(s.source_spec()),
        aliases_refusal(target, aliases@) is None ==> (renamed(base, aliases@) matches Ok(rb) ==> (renamed(
            source,
            aliases@,
        ) matches Ok(rs) ==> (res matches Err(e) ==> rebuild_failed(e, rb, target, rs)))),
        res matches Err(e) ==> aliases_failed(e, base, target, source, aliases@),
        aliases_refusal(target, aliases@) is None ==> (renamed(base, aliases@) matches Ok(rb) ==> (renamed(
            source,
            aliases@,
        ) matches Ok(rs) ==> (res is Ok <==> text_writable(rb) && writable(target) && text_writable(rs)))),
{
    merge_shared(Arc::new(base), Arc::new(target), Arc::new(source), aliases, Vec::new())
}

fn merge_shared(
    base: Arc<Asset>,
    target: Arc<Asset>,
    source: Arc<Asset>,
    aliases: &[FieldAlias],
    known: Vec<Arc<Asset>>,
) -> (res: Result<
    MergeSession,
    CoreError,
>)
    requires
        forall|k: int| 0 <= k < known@.len() ==> parsed_from(*#[trigger] known@[k], known@[k].bytes@),
        documents_wf(*base),
        documents_wf(*target),
        documents_wf(*source),
    ensures
        aliases_refusal(*target, aliases@) matches Some(f) ==> res matches Err(e) && fails(e, f),
        aliases_refusal(*target, aliases@) is None ==> match renamed(*base, aliases@) {
            Err(f) => res matches Err(e) && fails(e, f),
            Ok(_) => renamed(*source, aliases@) matches Err(f) ==> res matches Err(e) && fails(e, f),
        },
        res matches Ok(s) ==> aliased_session(s, *base, *target, *source, aliases@) && writable(s.base_spec())
            && writable(*target) && writable(s.source_spec()),
        aliases_refusal(*target, aliases@) is None ==> (renamed(*base, aliases@) matches Ok(rb) ==> (renamed(
            *source,
            aliases@,
        ) matches Ok(rs) ==> (res matches Err(e) ==> rebuild_failed(e, rb, *target, rs)))),
        res matches Err(e) ==> aliases_failed(e, *base, *target, *source, aliases@),
        aliases_refusal(*target, aliases@) is None ==> (renamed(*base, aliases@) matches Ok(rb) ==> (renamed(
            *source,
            aliases@,
        ) matches Ok(rs) ==> (res is Ok <==> text_writable(rb) && writable(*target) && text_writable(rs)))),
{
    let mut k: usize = 0;
    assert(aliases@.take(0) =~= Seq::<FieldAlias>::empty());
    while k < aliases.len()
        invariant
            k <= aliases@.len(),
            documents_wf(*target),
            aliases_refusal(*target, aliases@.take(k as int)) is None,
        decreases aliases@.len() - k,
    {
        assert(aliases@.take(k + 1).drop_last() == aliases@.take(k as int));
        assert(aliases@.take(k + 1).last() == aliases@[k as int]);
        let (earlier, _) = aliases.split_at(k);
        assert(earlier@ == aliases@.take(k as int));
        match check_alias(&*target, earlier, &aliases[k]) {
            Err(e) => {
                proof { lemma_refusal_stops(held(target), aliases@, k + 1); }
                return Err(e);
            },
            Ok(()) => {},
        }
        k = k + 1;
    }
    assert(aliases@.take(k as int) == aliases@);
    let normalized_base = rename_snapshot_keys(&*base, aliases)?;
    let normalized_source = rename_snapshot_keys(&*source, aliases)?;
    let mut known = known;
    let nb = parse_snapshot(normalized_base.as_slice(), &known)?;
    known.push(share(&nb));
    let ns = parse_snapshot(normalized_source.as_slice(), &known)?;
    let session = MergeSession::from_shared(nb, target, ns)?;
    Ok(session.with_originals(base, source, copy_aliases(aliases)))
}

/// Parses a snapshot triple and builds its change catalog, with base and
/// source keys renamed by the proven field aliases first. With no aliases
/// this is `prepare_merge`.
pub fn prepare_merge_with_aliases(base: &[u8], target: &[u8], source: &[u8], aliases: &[FieldAlias]) -> (res: Result<
    MergeSession,
    CoreError,
>)
    ensures
        aliases@.len() == 0 ==> (res matches Ok(s) ==> {
            &&& s.base_spec().bytes@ == base@
            &&& s.target_spec().bytes@ == target@
            &&& s.source_spec().bytes@ == source@
            &&& s.original_base_spec() is None
            &&& s.original_source_spec() is None
            &&& catalog_of(s.catalog_spec(), s.base_spec(), s.target_spec(), s.source_spec())
        }),
        aliases@.len() > 0 ==> (res matches Ok(s) ==> {
            &&& s.original_base_spec() matches Some(b) && b.bytes@ == base@ && documents_wf(b)
            &&& s.original_source_spec() matches Some(c) && c.bytes@ == source@ && documents_wf(c)
            &&& s.target_spec().bytes@ == target@
            &&& aliased_session(s, s.original_base_spec().unwrap(), s.target_spec(), s.original_source_spec().unwrap(), aliases@)
        }),
        aliases@.len() == 0 ==> (res matches Err(e) ==> crate::merge::setup_failed(e, base@, target@, source@)),
        aliases@.len() == 0 ==> (res is Ok <==> text_writable(base@) && text_writable(target@) && text_writable(source@)),
        res matches Ok(s) ==> s.target_spec().documents@.len() > 0 && s.target_spec().bytes@.len() > 0,
        aliases@.len() > 0 ==> (res matches Err(e) ==> {
            ||| parse_refused(base@) && parse_outcome(base@, Limits::default_spec(), Err(e))
            ||| !parse_refused(base@) && parse_refused(target@) && parse_outcome(target@, Limits::default_spec(), Err(e))
            ||| !parse_refused(base@) && !parse_refused(target@) && parse_refused(source@) && parse_outcome(
                source@,
                Limits::default_spec(),
                Err(e),
            )
            ||| !parse_refused(base@) && !parse_refused(target@) && !parse_refused(source@) && exists|b: Asset, t: Asset, c: Asset|
                #![trigger parse_outcome(base@, Limits::default_spec(), Ok(b)), parse_outcome(target@, Limits::default_spec(), Ok(t)), parse_outcome(source@, Limits::default_spec(), Ok(c))]
                parse_outcome(base@, Limits::default_spec(), Ok(b)) && parse_outcome(target@, Limits::default_spec(), Ok(t))
                    && parse_outcome(source@, Limits::default_spec(), Ok(c)) && aliases_failed(e, b, t, c, aliases@)
        }),
{
    if aliases.len() == 0 {
        return crate::merge::prepare_merge(base, target, source);
    }
    let b = match crate::asset::parse(base) {
        Ok(a) => Arc::new(a),
        Err(e) => {
            return Err(e);
        },
    };
    let mut known: Vec<Arc<Asset>> = Vec::new();
    known.push(share(&b));
    let t = parse_snapshot(target, &known)?;
    known.push(share(&t));
    let s = parse_snapshot(source, &known)?;
    let ghost (bv, tv, sv) = (held(b), held(t), held(s));
    let mut targets: Vec<Arc<Asset>> = Vec::new();
    targets.push(share(&t));
    let r = merge_shared(b, t, s, aliases, targets);
    proof {
        if r is Err {
            lemma_failed_triple(base@, target@, source@, bv, tv, sv, r->Err_0, aliases@);
        }
    }
    r
}

/// Aliases that find no old field leave a snapshot's text as it was.
pub proof fn lemma_no_renames_keep_text(a: Asset, als: Seq<FieldAlias>)
    requires
        rename_patches(a, als) == Ok::<Seq<PatchView>, Failure>(Seq::empty()),
    ensures
        renamed(a, als) == Ok::<Seq<u8>, Failure>(a.bytes@),
{
    crate::splice::lemma_no_patches_keep_text(a.bytes@);
}

proof fn lemma_step_within(bytes: Seq<u8>, p: PointView, key: Seq<char>, walked: Seq<char>)
    requires
        point_within(p, bytes),
    ensures
        step(bytes, p, key, walked) matches Some(q) ==> point_within(q, bytes),
{
    match p.node.kind {
        NodeKind::Mapping(es) => {
            lemma_first_key_index(es@, key);
            match first_key_index(es@, key) {
                Some(i) => {
                    assert(node_wf(es@[i].value, bytes));
                    assert(es@[i].key_span.within(bytes.len() as int));
                },
                None => {},
            }
        },
        NodeKind::Sequence(items) => {
            match step(bytes, p, key, walked) {
                Some(q) => {
                    let i = choose|i: int| 0 <= i < items@.len() && q.node == (#[trigger] items@[i]).value;
                    assert(node_wf(items@[i].value, bytes));
                },
                None => {},
            }
        },
        NodeKind::Scalar(_) => {},
    }
}

proof fn lemma_walk_within(bytes: Seq<u8>, p: PointView, raws: Seq<Seq<char>>, walked: Seq<char>)
    requires
        point_within(p, bytes),
    ensures
        walk_tokens(bytes, p, raws, walked) matches Ok(Some(q)) ==> point_within(q, bytes),
    decreases raws.len(),
{
    if raws.len() > 0 {
        match decode_spec(raws[0]) {
            Some(key) => {
                lemma_step_within(bytes, p, key, walked);
                match step(bytes, p, key, walked) {
                    Some(q) => lemma_walk_within(bytes, q, raws.drop_first(), child_spec(walked, key)),
                    None => {},
                }
            },
            None => {},
        }
    }
}

/// A point a pointer names lies in its snapshot.
pub proof fn lemma_point_at_within(a: Asset, id: Seq<char>, path: Seq<char>)
    requires
        documents_wf(a),
    ensures
        point_at_spec(a, id, path) matches Ok(Some(p)) ==> point_within(p, a.bytes@),
{
    crate::asset::lemma_last_document(a.documents@, id);
    match doc_at(a, id) {
        Some(d) => {
            let k = crate::asset::last_document(a.documents@, id).unwrap();
            assert(crate::asset::document_wf(a.documents@[k], a.bytes@));
            if path.len() > 0 && path[0] == '/' {
                lemma_walk_within(a.bytes@, root_point(d), split_spec(path.drop_first(), '/'), Seq::empty());
            }
        },
        None => {},
    }
}

} // verus!
