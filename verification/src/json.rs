//! JSON values chosen for a merge, and the flow-YAML text they are written
//! as: JSON is a safe subset of flow YAML for Unity's structural fields.
use vstd::prelude::*;
use vstd::utf8::encode_utf8;

use crate::aliases::{json_quote, json_quoted, yaml_key, yaml_key_spec};
use crate::fingerprint::{bytes_view, key_order, key_order_of, lemma_key_order};
use crate::syntax::CoreError;
use crate::text::{chars_of, concat3, text_eq};

verus! {

/// A JSON value.
#[derive(Debug)]
pub enum JsonValue {
    Null,
    Bool(bool),
    /// A number, as its JSON text.
    Number(String),
    Text(String),
    Array(Vec<JsonValue>),
    /// An object's members; JSON objects have distinct keys.
    Object(Vec<(String, JsonValue)>),
    /// A packed array (the `$locus_packed_array` marker), already written as
    /// its hexadecimal text.
    Packed(String),
}

/// The parts joined by a separator.
pub open spec fn join(parts: Seq<Seq<char>>, sep: Seq<char>) -> Seq<char>
    decreases parts.len(),
{
    if parts.len() == 0 {
        Seq::empty()
    } else if parts.len() == 1 {
        parts[0]
    } else {
        join(parts.drop_last(), sep) + sep + parts.last()
    }
}

/// The UTF-8 bytes of the members' keys, by which they are ordered.
pub open spec fn member_keys(ms: Seq<(String, JsonValue)>) -> Seq<Seq<u8>> {
    ms.map_values(|m: (String, JsonValue)| encode_utf8(m.0@))
}

/// An object is a Unity reference when it has `fileID` and no key but
/// `fileID`, `guid` and `type`.
pub open spec fn is_reference(ms: Seq<(String, JsonValue)>) -> bool {
    &&& exists|i: int| 0 <= i < ms.len() && (#[trigger] ms[i]).0@ == "fileID"@
    &&& forall|i: int|
        0 <= i < ms.len() ==> (#[trigger] ms[i]).0@ == "fileID"@ || ms[i].0@ == "guid"@ || ms[i].0@ == "type"@
}

pub open spec fn hex_char(c: char) -> bool {
    ('0' <= c && c <= '9') || ('a' <= c && c <= 'f') || ('A' <= c && c <= 'F')
}

/// A reference GUID is written bare; it must be 32 hexadecimal characters.
pub open spec fn guid_text(v: JsonValue) -> Option<Seq<char>> {
    match v {
        JsonValue::Text(g) => if g@.len() == 32 && forall|k: int| 0 <= k < g@.len() ==> hex_char(#[trigger] g@[k]) {
            Some(g@)
        } else {
            None
        },
        _ => None,
    }
}

/// The flow-YAML text of a value: `null`, `1`/`0` for booleans, numbers as
/// written, strings as JSON literals, `[a, b]`, and `{k: v}` with the keys
/// in byte order. `None` when a reference GUID is malformed.
pub open spec fn yaml_value(v: JsonValue) -> Option<Seq<char>>
    decreases v, 2nat, 0nat,
{
    match v {
        JsonValue::Null => Some("null"@),
        JsonValue::Bool(b) => Some(if b { "1"@ } else { "0"@ }),
        JsonValue::Number(n) => Some(n@),
        JsonValue::Text(t) => Some(json_quoted(t@)),
        JsonValue::Packed(p) => Some(p@),
        JsonValue::Array(items) => match yaml_items(v, items@.len()) {
            Some(ps) => Some("["@ + join(ps, ", "@) + "]"@),
            None => None,
        },
        JsonValue::Object(ms) => match yaml_members(v, ms@.len()) {
            Some(ps) => Some("{"@ + join(ps, ", "@) + "}"@),
            None => None,
        },
    }
}

/// The texts of an array's first `n` items.
pub open spec fn yaml_items(v: JsonValue, n: nat) -> Option<Seq<Seq<char>>>
    decreases v, 1nat, n,
{
    if n == 0 {
        Some(Seq::empty())
    } else {
        match v {
            JsonValue::Array(items) => if n > items@.len() {
                None
            } else {
                match yaml_items(v, (n - 1) as nat) {
                    None => None,
                    Some(ps) => match yaml_value(items@[n - 1]) {
                        None => None,
                        Some(x) => Some(ps.push(x)),
                    },
                }
            },
            _ => None,
        }
    }
}

/// The `key: value` texts of an object's first `n` members in key order.
pub open spec fn yaml_members(v: JsonValue, n: nat) -> Option<Seq<Seq<char>>>
    decreases v, 1nat, n,
{
    if n == 0 {
        Some(Seq::empty())
    } else {
        match v {
            JsonValue::Object(ms) => if n > ms@.len() {
                None
            } else {
                match yaml_members(v, (n - 1) as nat) {
                    None => None,
                    Some(ps) => {
                        proof { lemma_key_order(member_keys(ms@), ms@.len()); }
                        let m = ms@[key_order(member_keys(ms@), ms@.len())[n - 1]];
                        let rendered = if is_reference(ms@) && m.0@ == "guid"@ {
                            guid_text(m.1)
                        } else {
                            yaml_value(m.1)
                        };
                        match rendered {
                            None => None,
                            Some(x) => Some(ps.push(yaml_key_spec(m.0@) + ": "@ + x)),
                        }
                    },
                }
            },
            _ => None,
        }
    }
}

pub open spec fn guid_failure(e: CoreError) -> bool {
    e.code@ == "invalid_guid"@ && e.message@ == "reference GUID must contain exactly 32 hexadecimal characters"@
        && e.offset == 0
}

fn join_texts(parts: &Vec<String>, sep: &str) -> (res: String)
    ensures
        res@ == join(parts@.map_values(|p: String| p@), sep@),
{
    let ghost pv = parts@.map_values(|p: String| p@);
    if parts.len() == 0 {
        assert(pv.len() == 0);
        return String::new();
    }
    let mut out = parts[0].clone();
    let mut k: usize = 1;
    assert(pv.take(1).drop_last() =~= Seq::<Seq<char>>::empty());
    while k < parts.len()
        invariant
            1 <= k <= parts@.len(),
            pv == parts@.map_values(|p: String| p@),
            out@ == join(pv.take(k as int), sep@),
        decreases parts@.len() - k,
    {
        assert(pv.take(k + 1).drop_last() == pv.take(k as int));
        assert(pv.take(k + 1).last() == parts@[k as int]@);
        out = concat3(out.as_str(), sep, parts[k].as_str());
        k = k + 1;
    }
    assert(pv.take(k as int) == pv);
    out
}

fn is_hex(c: char) -> (res: bool)
    ensures
        res == hex_char(c),
{
    ('0' <= c && c <= '9') || ('a' <= c && c <= 'f') || ('A' <= c && c <= 'F')
}

fn guid_of(v: &JsonValue) -> (res: Option<String>)
    ensures
        match guid_text(*v) {
            Some(g) => res matches Some(s) && s@ == g,
            None => res is None,
        },
{
    match v {
        JsonValue::Text(g) => {
            let cs = chars_of(g.as_str());
            if cs.len() != 32 {
                return None;
            }
            let mut k: usize = 0;
            while k < cs.len()
                invariant
                    k <= cs@.len(),
                    cs@ == g@,
                    *v == JsonValue::Text(*g),
                    forall|j: int| 0 <= j < k ==> hex_char(#[trigger] cs@[j]),
                decreases cs@.len() - k,
            {
                if !is_hex(cs[k]) {
                    assert(!hex_char(g@[k as int]));
                    return None;
                }
                k = k + 1;
            }
            Some(g.clone())
        },
        _ => None,
    }
}

fn reference_members(ms: &Vec<(String, JsonValue)>) -> (res: bool)
    ensures
        res == is_reference(ms@),
{
    let mut has_file_id = false;
    let mut k: usize = 0;
    while k < ms.len()
        invariant
            k <= ms@.len(),
            has_file_id == exists|i: int| 0 <= i < k && (#[trigger] ms@[i]).0@ == "fileID"@,
            forall|i: int|
                0 <= i < k ==> (#[trigger] ms@[i]).0@ == "fileID"@ || ms@[i].0@ == "guid"@ || ms@[i].0@ == "type"@,
        decreases ms@.len() - k,
    {
        let key = ms[k].0.as_str();
        let is_file_id = text_eq(key, "fileID");
        if !is_file_id && !text_eq(key, "guid") && !text_eq(key, "type") {
            return false;
        }
        if is_file_id {
            has_file_id = true;
        }
        k = k + 1;
    }
    has_file_id
}

/// Writes a JSON value as flow YAML; a Unity reference's GUID must be 32
/// hexadecimal characters.
pub fn json_yaml(v: &JsonValue) -> (res: Result<String, CoreError>)
    ensures
        match yaml_value(*v) {
            Some(t) => res matches Ok(s) && s@ == t,
            None => res matches Err(e) && guid_failure(e),
        },
    decreases *v,
{
    proof {
        reveal_strlit("null");
        reveal_strlit("1");
        reveal_strlit("0");
    }
    match v {
        JsonValue::Null => Ok("null".to_owned()),
        JsonValue::Bool(b) => Ok(if *b { "1".to_owned() } else { "0".to_owned() }),
        JsonValue::Number(n) => Ok(n.clone()),
        JsonValue::Text(t) => Ok(json_quote(t.as_str())),
        JsonValue::Packed(p) => Ok(p.clone()),
        JsonValue::Array(items) => {
            let mut parts: Vec<String> = Vec::new();
            let mut k: usize = 0;
            while k < items.len()
                invariant
                    k <= items@.len(),
                    *v == JsonValue::Array(*items),
                    yaml_items(*v, k as nat) == Some(parts@.map_values(|p: String| p@)),
                decreases items@.len() - k,
            {
                let ghost before = parts@;
                let x = match json_yaml(&items[k]) {
                    Ok(x) => x,
                    Err(e) => {
                        proof { lemma_items_fail(*v, (k + 1) as nat); }
                        return Err(e);
                    },
                };
                parts.push(x);
                assert(parts@.map_values(|p: String| p@) =~= before.map_values(|p: String| p@).push(x@));
                k = k + 1;
            }
            let inner = join_texts(&parts, ", ");
            Ok(concat3("[", inner.as_str(), "]"))
        },
        JsonValue::Object(ms) => {
            let mut keys: Vec<Vec<u8>> = Vec::new();
            let mut k: usize = 0;
            while k < ms.len()
                invariant
                    k <= ms@.len(),
                    bytes_view(keys@) == member_keys(ms@).take(k as int),
                decreases ms@.len() - k,
            {
                let ghost before = keys@;
                keys.push(crate::asset::to_vec(ms[k].0.as_str().as_bytes()));
                assert(bytes_view(keys@) =~= bytes_view(before).push(encode_utf8(ms@[k as int].0@)));
                assert(member_keys(ms@).take(k + 1) =~= member_keys(ms@).take(k as int).push(encode_utf8(ms@[k as int].0@)));
                k = k + 1;
            }
            assert(member_keys(ms@).take(ms@.len() as int) == member_keys(ms@));
            let order = key_order_of(&keys);
            proof { lemma_key_order(member_keys(ms@), ms@.len()); }
            let reference = reference_members(ms);
            let mut parts: Vec<String> = Vec::new();
            let mut n: usize = 0;
            while n < order.len()
                invariant
                    n <= order@.len(),
                    order@.len() == ms@.len(),
                    *v == JsonValue::Object(*ms),
                    reference == is_reference(ms@),
                    forall|j: int| 0 <= j < order@.len() ==> order@[j] as int == key_order(member_keys(ms@), ms@.len())[j],
                    forall|j: int| 0 <= j < ms@.len() ==> 0 <= #[trigger] key_order(member_keys(ms@), ms@.len())[j] < ms@.len(),
                    yaml_members(*v, n as nat) == Some(parts@.map_values(|p: String| p@)),
                decreases order@.len() - n,
            {
                let i = order[n];
                assert(i as int == key_order(member_keys(ms@), ms@.len())[n as int]);
                let m = &ms[i];
                let rendered = if reference && text_eq(m.0.as_str(), "guid") {
                    match guid_of(&m.1) {
                        Some(g) => g,
                        None => {
                            proof { lemma_members_fail(*v, (n + 1) as nat); }
                            return Err(CoreError::new(
                                "invalid_guid",
                                "reference GUID must contain exactly 32 hexadecimal characters",
                                0,
                            ));
                        },
                    }
                } else {
                    match json_yaml(&m.1) {
                        Ok(x) => x,
                        Err(e) => {
                            proof { lemma_members_fail(*v, (n + 1) as nat); }
                            return Err(e);
                        },
                    }
                };
                let key = yaml_key(m.0.as_str());
                let part = concat3(key.as_str(), ": ", rendered.as_str());
                let ghost before = parts@;
                parts.push(part);
                assert(parts@.map_values(|p: String| p@) =~= before.map_values(|p: String| p@).push(part@));
                n = n + 1;
            }
            let inner = join_texts(&parts, ", ");
            Ok(concat3("{", inner.as_str(), "}"))
        },
    }
}

proof fn lemma_items_fail(v: JsonValue, n: nat)
    requires
        v is Array,
        n <= v->Array_0@.len(),
        yaml_items(v, n) is None,
    ensures
        yaml_items(v, v->Array_0@.len()) is None,
    decreases v->Array_0@.len() - n,
{
    if n < v->Array_0@.len() {
        lemma_items_fail(v, n + 1);
    }
}

proof fn lemma_members_fail(v: JsonValue, n: nat)
    requires
        v is Object,
        n <= v->Object_0@.len(),
        yaml_members(v, n) is None,
    ensures
        yaml_members(v, v->Object_0@.len()) is None,
    decreases v->Object_0@.len() - n,
{
    if n < v->Object_0@.len() {
        lemma_members_fail(v, n + 1);
    }
}

/// Two JSON values with the same content.
pub open spec fn json_same(a: JsonValue, b: JsonValue) -> bool
    decreases a,
{
    match a {
        JsonValue::Null => b is Null,
        JsonValue::Bool(x) => b matches JsonValue::Bool(y) && x == y,
        JsonValue::Number(x) => b matches JsonValue::Number(y) && x@ == y@,
        JsonValue::Text(x) => b matches JsonValue::Text(y) && x@ == y@,
        JsonValue::Packed(x) => b matches JsonValue::Packed(y) && x@ == y@,
        JsonValue::Array(xs) => b matches JsonValue::Array(ys) && xs@.len() == ys@.len() && forall|i: int|
            0 <= i < xs@.len() ==> json_same(#[trigger] xs@[i], ys@[i]),
        JsonValue::Object(xs) => b matches JsonValue::Object(ys) && xs@.len() == ys@.len() && forall|i: int|
            0 <= i < xs@.len() ==> (#[trigger] xs@[i]).0@ == ys@[i].0@ && json_same(xs@[i].1, ys@[i].1),
    }
}

/// Values with the same content are written alike.
pub proof fn lemma_same_yaml(a: JsonValue, b: JsonValue)
    requires
        json_same(a, b),
    ensures
        yaml_value(a) == yaml_value(b),
    decreases a, 2nat, 0nat,
{
    match a {
        JsonValue::Array(xs) => {
            lemma_same_items(a, b, xs@.len());
        },
        JsonValue::Object(xs) => {
            lemma_same_members(a, b, xs@.len());
        },
        _ => {},
    }
}

proof fn lemma_same_items(a: JsonValue, b: JsonValue, n: nat)
    requires
        json_same(a, b),
        a is Array,
        n <= a->Array_0@.len(),
    ensures
        yaml_items(a, n) == yaml_items(b, n),
    decreases a, 1nat, n,
{
    if n > 0 {
        lemma_same_items(a, b, (n - 1) as nat);
        let xs = a->Array_0;
        let ys = b->Array_0;
        assert(json_same(xs@[n - 1], ys@[n - 1]));
        lemma_same_yaml(xs@[n - 1], ys@[n - 1]);
    }
}

proof fn lemma_same_members(a: JsonValue, b: JsonValue, n: nat)
    requires
        json_same(a, b),
        a is Object,
        n <= a->Object_0@.len(),
    ensures
        yaml_members(a, n) == yaml_members(b, n),
    decreases a, 1nat, n,
{
    if n > 0 {
        lemma_same_members(a, b, (n - 1) as nat);
        let xs = a->Object_0;
        let ys = b->Object_0;
        assert(member_keys(xs@) =~= member_keys(ys@)) by {
            assert forall|i: int| 0 <= i < xs@.len() implies member_keys(xs@)[i] == member_keys(ys@)[i] by {
                assert(xs@[i].0@ == ys@[i].0@);
            }
        }
        assert(is_reference(xs@) == is_reference(ys@)) by {
            assert forall|i: int| 0 <= i < xs@.len() implies (#[trigger] xs@[i]).0@ == ys@[i].0@ by {}
            if is_reference(xs@) {
                let w = choose|i: int| 0 <= i < xs@.len() && (#[trigger] xs@[i]).0@ == "fileID"@;
                assert(ys@[w].0@ == "fileID"@);
                assert forall|i: int| 0 <= i < ys@.len() implies (#[trigger] ys@[i]).0@ == "fileID"@ || ys@[i].0@
                    == "guid"@ || ys@[i].0@ == "type"@ by {
                    assert(xs@[i].0@ == ys@[i].0@);
                }
            }
            if is_reference(ys@) {
                let w = choose|i: int| 0 <= i < ys@.len() && (#[trigger] ys@[i]).0@ == "fileID"@;
                assert(xs@[w].0@ == "fileID"@);
                assert forall|i: int| 0 <= i < xs@.len() implies (#[trigger] xs@[i]).0@ == "fileID"@ || xs@[i].0@
                    == "guid"@ || xs@[i].0@ == "type"@ by {
                    assert(xs@[i].0@ == ys@[i].0@);
                }
            }
        }
        lemma_key_order(member_keys(xs@), xs@.len());
        let idx = key_order(member_keys(xs@), xs@.len())[n - 1];
        assert(0 <= idx < xs@.len());
        assert(xs@[idx].0@ == ys@[idx].0@ && json_same(xs@[idx].1, ys@[idx].1));
        lemma_same_yaml(xs@[idx].1, ys@[idx].1);
    }
}

impl JsonValue {
    /// A copy with the same content.
    pub fn copied(&self) -> (res: JsonValue)
        ensures
            json_same(*self, res),
        decreases *self,
    {
        match self {
            JsonValue::Null => JsonValue::Null,
            JsonValue::Bool(b) => JsonValue::Bool(*b),
            JsonValue::Number(n) => JsonValue::Number(n.clone()),
            JsonValue::Text(t) => JsonValue::Text(t.clone()),
            JsonValue::Packed(p) => JsonValue::Packed(p.clone()),
            JsonValue::Array(items) => {
                let mut out: Vec<JsonValue> = Vec::new();
                let mut k: usize = 0;
                while k < items.len()
                    invariant
                        k <= items@.len(),
                        *self == JsonValue::Array(*items),
                        out@.len() == k,
                        forall|i: int| 0 <= i < k ==> json_same(#[trigger] items@[i], out@[i]),
                    decreases items@.len() - k,
                {
                    let item = &items[k];
                    assert(self->Array_0 == *items);
                    assert(decreases_to!(*self => self->Array_0));
                    assert(decreases_to!(*items => items@));
                    assert(decreases_to!(items@ => items@[k as int]));
                    assert(*item == items@[k as int]);
                    let c = item.copied();
                    out.push(c);
                    k = k + 1;
                }
                JsonValue::Array(out)
            },
            JsonValue::Object(ms) => {
                let mut out: Vec<(String, JsonValue)> = Vec::new();
                let mut k: usize = 0;
                while k < ms.len()
                    invariant
                        k <= ms@.len(),
                        *self == JsonValue::Object(*ms),
                        out@.len() == k,
                        forall|i: int| 0 <= i < k ==> (#[trigger] ms@[i]).0@ == out@[i].0@ && json_same(ms@[i].1, out@[i].1),
                    decreases ms@.len() - k,
                {
                    let member = &ms[k];
                    assert(self->Object_0 == *ms);
                    assert(decreases_to!(*self => self->Object_0));
                    assert(decreases_to!(*ms => ms@));
                    assert(decreases_to!(ms@ => ms@[k as int]));
                    assert(decreases_to!(ms@[k as int] => ms@[k as int].1));
                    assert(*member == ms@[k as int]);
                    let c = member.1.copied();
                    out.push((ms[k].0.clone(), c));
                    k = k + 1;
                }
                JsonValue::Object(out)
            },
        }
    }
}

} // verus!
