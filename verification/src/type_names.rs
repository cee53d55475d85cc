//! The C# type vocabulary of offline schema evidence: spelling-normalized
//! type names, element types of arrays and lists, the ranges and compact
//! codecs of primitive types, and Unity's built-in value and object types.
use vstd::prelude::*;

use crate::asset::Asset;
use crate::packed::PackedElement;
use crate::pointer::{decode_chars, decode_spec, split_chars, split_spec};
use crate::reading::{scalar_text, text_of};
use crate::syntax::Node;
use crate::text::{chars_eq, chars_of, has_prefix, starts_with, string_of, text_eq};

verus! {

/// `s` with every non-overlapping occurrence of `pat` removed, scanning from
/// the left (as `str::replace(pat, "")`).
pub open spec fn drop_pattern(s: Seq<char>, pat: Seq<char>) -> Seq<char>
    decreases s.len(),
{
    if s.len() == 0 {
        Seq::empty()
    } else if pat.len() > 0 && starts_with(s, pat) {
        drop_pattern(s.skip(pat.len() as int), pat)
    } else {
        seq![s[0]] + drop_pattern(s.drop_first(), pat)
    }
}

pub open spec fn is_layout_space(c: char) -> bool {
    c == ' ' || c == '\t' || c == '\r' || c == '\n'
}

/// The characters of `s` that are not spaces, tabs or line breaks.
pub open spec fn drop_spaces(s: Seq<char>) -> Seq<char>
    decreases s.len(),
{
    if s.len() == 0 {
        Seq::empty()
    } else if is_layout_space(s[0]) {
        drop_spaces(s.drop_first())
    } else {
        seq![s[0]] + drop_spaces(s.drop_first())
    }
}

/// Nested-type separators `+` and `/` become `.`.
pub open spec fn dot_separators(s: Seq<char>) -> Seq<char> {
    s.map_values(|c: char| if c == '+' || c == '/' { '.' } else { c })
}

/// A type name without `global::` qualifiers and layout space, with nested
/// types separated by `.`.
pub open spec fn normalized_spec(name: Seq<char>) -> Seq<char> {
    dot_separators(drop_spaces(drop_pattern(name, "global::"@)))
}

/// Index just past the last `.`, or 0.
pub open spec fn after_last_dot(s: Seq<char>) -> int
    decreases s.len(),
{
    if s.len() == 0 {
        0
    } else if s.last() == '.' {
        s.len() as int
    } else {
        after_last_dot(s.drop_last())
    }
}

/// The last `.`-separated segment of a name.
pub open spec fn short_spec(name: Seq<char>) -> Seq<char> {
    name.skip(after_last_dot(name))
}

fn matches_at(s: &[char], i: usize, pat: &[char]) -> (res: bool)
    requires
        i <= s@.len(),
    ensures
        res == starts_with(s@.skip(i as int), pat@),
{
    let ghost rest = s@.skip(i as int);
    assert(s@.len() == s.len());
    if pat.len() > s.len() - i {
        return false;
    }
    let mut k: usize = 0;
    while k < pat.len()
        invariant
            k <= pat@.len(),
            i + pat@.len() <= s@.len(),
            s@.len() == s.len(),
            rest == s@.skip(i as int),
            forall|j: int| 0 <= j < k ==> rest[j] == pat@[j],
        decreases pat@.len() - k,
    {
        if s[i + k] != pat[k] {
            assert(rest.take(pat@.len() as int)[k as int] != pat@[k as int]);
            return false;
        }
        k = k + 1;
    }
    assert(rest.take(pat@.len() as int) =~= pat@);
    true
}

fn drop_global(s: &[char]) -> (res: Vec<char>)
    ensures
        res@ == drop_pattern(s@, "global::"@),
{
    let pat = chars_of("global::");
    proof { reveal_strlit("global::"); }
    let mut out: Vec<char> = Vec::new();
    let mut i: usize = 0;
    assert(s@.skip(0) == s@);
    while i < s.len()
        invariant
            i <= s@.len(),
            pat@ == "global::"@,
            pat@.len() == 8,
            drop_pattern(s@, pat@) == out@ + drop_pattern(s@.skip(i as int), pat@),
        decreases s@.len() - i,
    {
        let ghost rest = s@.skip(i as int);
        if matches_at(s, i, pat.as_slice()) {
            proof {
                assert(rest.skip(pat@.len() as int) == s@.skip(i + pat@.len()));
            }
            i = i + pat.len();
        } else {
            proof {
                assert(rest.drop_first() == s@.skip(i + 1));
                assert(rest[0] == s@[i as int]);
            }
            let ghost before = out@;
            out.push(s[i]);
            assert(out@ + drop_pattern(s@.skip(i + 1), pat@) =~= before + (seq![s@[i as int]] + drop_pattern(s@.skip(i + 1), pat@)));
            i = i + 1;
        }
    }
    assert(s@.skip(i as int) =~= Seq::<char>::empty());
    assert(out@ + Seq::<char>::empty() == out@);
    out
}

proof fn lemma_drop_spaces_push(s: Seq<char>, c: char)
    ensures
        drop_spaces(s.push(c)) == drop_spaces(s) + if is_layout_space(c) { Seq::<char>::empty() } else { seq![c] },
    decreases s.len(),
{
    if s.len() == 0 {
        assert(s.push(c).drop_first() =~= Seq::<char>::empty());
        assert(s.push(c)[0] == c);
        assert(drop_spaces(Seq::<char>::empty()) == Seq::<char>::empty());
        assert(s == Seq::<char>::empty());
    } else {
        lemma_drop_spaces_push(s.drop_first(), c);
        assert(s.push(c).drop_first() =~= s.drop_first().push(c));
        assert(s.push(c)[0] == s[0]);
    }
}

/// A type name without `global::`, layout space and nested-type separators.
pub fn normalized_type(name: &str) -> (res: String)
    ensures
        res@ == normalized_spec(name@),
{
    let chars = chars_of(name);
    let without = drop_global(chars.as_slice());
    let mut out: Vec<char> = Vec::new();
    let mut k: usize = 0;
    let ghost d = without@;
    while k < without.len()
        invariant
            k <= d.len(),
            d == without@,
            out@ == dot_separators(drop_spaces(d.take(k as int))),
        decreases d.len() - k,
    {
        let c = without[k];
        proof {
            assert(d.take(k + 1) == d.take(k as int).push(c));
            lemma_drop_spaces_push(d.take(k as int), c);
        }
        if !(c == ' ' || c == '\t' || c == '\r' || c == '\n') {
            let ghost before = out@;
            out.push(if c == '+' || c == '/' { '.' } else { c });
            assert(out@ =~= dot_separators(drop_spaces(d.take(k + 1))));
        } else {
            assert(out@ =~= dot_separators(drop_spaces(d.take(k + 1))));
        }
        k = k + 1;
    }
    assert(d.take(d.len() as int) == d);
    string_of(out.as_slice())
}

fn last_segment(s: &[char]) -> (res: Vec<char>)
    ensures
        res@ == short_spec(s@),
{
    let mut k = s.len();
    assert(s@.take(k as int) == s@);
    while k > 0 && s[k - 1] != '.'
        invariant
            k <= s@.len(),
            after_last_dot(s@) == after_last_dot(s@.take(k as int)),
        decreases k,
    {
        assert(s@.take(k as int).drop_last() == s@.take(k - 1));
        k = k - 1;
    }
    proof {
        if k > 0 {
            assert(s@.take(k as int).last() == '.');
        }
    }
    let mut out: Vec<char> = Vec::new();
    let mut j = k;
    while j < s.len()
        invariant
            k <= j <= s@.len(),
            out@ == s@.subrange(k as int, j as int),
        decreases s@.len() - j,
    {
        out.push(s[j]);
        j = j + 1;
        assert(s@.subrange(k as int, j as int) == s@.subrange(k as int, j - 1).push(s@[j - 1]));
    }
    out
}

/// The last `.`-separated segment of a type name.
pub fn short_name(name: &str) -> (res: String)
    ensures
        res@ == short_spec(name@),
{
    let chars = chars_of(name);
    string_of(last_segment(chars.as_slice()).as_slice())
}

/// The element type an array or `List<>` type name declares.
pub open spec fn element_spec(name: Seq<char>) -> Option<Seq<char>> {
    let n = normalized_spec(name);
    if n.len() >= 2 && n.skip(n.len() - 2) == "[]"@ {
        Some(n.take(n.len() - 2))
    } else if starts_with(n, "List<"@) && n.len() > 5 && n.last() == '>' {
        Some(n.subrange(5, n.len() - 1))
    } else if starts_with(n, "System.Collections.Generic.List<"@) && n.len() > 32 && n.last() == '>' {
        Some(n.subrange(32, n.len() - 1))
    } else {
        None
    }
}

fn sub_text(s: &[char], from: usize, to: usize) -> (res: String)
    requires
        from <= to <= s@.len(),
    ensures
        res@ == s@.subrange(from as int, to as int),
{
    string_of(crate::pointer::sub_chars(s, from, to).as_slice())
}

pub fn element_type(name: &str) -> (res: Option<String>)
    ensures
        match element_spec(name@) {
            Some(e) => res matches Some(r) && r@ == e,
            None => res is None,
        },
{
    let normal = normalized_type(name);
    let n = chars_of(normal.as_str());
    let len = n.len();
    if len >= 2 && n[len - 2] == '[' && n[len - 1] == ']' {
        proof {
            reveal_strlit("[]");
            assert(n@.skip(len - 2) =~= "[]"@);
        }
        return Some(sub_text(n.as_slice(), 0, len - 2));
    }
    proof {
        reveal_strlit("[]");
        if n@.len() >= 2 {
            assert(!(n@.skip(len - 2) =~= "[]"@) || (n@[len - 2] == '[' && n@[len - 1] == ']')) by {
                if n@.skip(len - 2) =~= "[]"@ {
                    assert(n@.skip(len - 2)[0] == n@[len - 2]);
                    assert(n@.skip(len - 2)[1] == n@[len - 1]);
                }
            }
        }
    }
    proof {
        reveal_strlit("List<");
        reveal_strlit("System.Collections.Generic.List<");
    }
    if has_prefix(n.as_slice(), "List<") && len > 5 && n[len - 1] == '>' {
        return Some(sub_text(n.as_slice(), 5, len - 1));
    }
    if has_prefix(n.as_slice(), "System.Collections.Generic.List<") && len > 32 && n[len - 1] == '>' {
        return Some(sub_text(n.as_slice(), 32, len - 1));
    }
    None
}

/// The value range of an integral C# type, by its short name.
pub open spec fn integer_range_spec(name: Seq<char>) -> Option<(int, int)> {
    let s = short_spec(name);
    if s == "sbyte"@ || s == "SByte"@ {
        Some((-0x80, 0x7f))
    } else if s == "byte"@ || s == "Byte"@ {
        Some((0, 0xff))
    } else if s == "short"@ || s == "Int16"@ {
        Some((-0x8000, 0x7fff))
    } else if s == "ushort"@ || s == "UInt16"@ || s == "char"@ || s == "Char"@ {
        Some((0, 0xffff))
    } else if s == "int"@ || s == "Int32"@ || s == "LayerMask"@ {
        Some((-0x8000_0000, 0x7fff_ffff))
    } else if s == "uint"@ || s == "UInt32"@ {
        Some((0, 0xffff_ffff))
    } else if s == "long"@ || s == "Int64"@ {
        Some((-0x8000_0000_0000_0000, 0x7fff_ffff_ffff_ffff))
    } else if s == "ulong"@ || s == "UInt64"@ {
        Some((0, 0xffff_ffff_ffff_ffff))
    } else {
        None
    }
}

pub fn integer_range(name: &str) -> (res: Option<(i128, i128)>)
    ensures
        match integer_range_spec(name@) {
            Some(r) => res matches Some(x) && x.0 as int == r.0 && x.1 as int == r.1,
            None => res is None,
        },
{
    let short = short_name(name);
    let s = short.as_str();
    if text_eq(s, "sbyte") || text_eq(s, "SByte") {
        Some((-0x80, 0x7f))
    } else if text_eq(s, "byte") || text_eq(s, "Byte") {
        Some((0, 0xff))
    } else if text_eq(s, "short") || text_eq(s, "Int16") {
        Some((-0x8000, 0x7fff))
    } else if text_eq(s, "ushort") || text_eq(s, "UInt16") || text_eq(s, "char") || text_eq(s, "Char") {
        Some((0, 0xffff))
    } else if text_eq(s, "int") || text_eq(s, "Int32") || text_eq(s, "LayerMask") {
        Some((-0x8000_0000, 0x7fff_ffff))
    } else if text_eq(s, "uint") || text_eq(s, "UInt32") {
        Some((0, 0xffff_ffff))
    } else if text_eq(s, "long") || text_eq(s, "Int64") {
        Some((-0x8000_0000_0000_0000, 0x7fff_ffff_ffff_ffff))
    } else if text_eq(s, "ulong") || text_eq(s, "UInt64") {
        Some((0, 0xffff_ffff_ffff_ffff))
    } else {
        None
    }
}

/// The compact-array element type of a primitive C# type, by its short
/// name.
pub open spec fn packed_element_spec(name: Seq<char>) -> Option<PackedElement> {
    let s = short_spec(name);
    if s == "bool"@ || s == "Boolean"@ {
        Some(PackedElement::Bool)
    } else if s == "sbyte"@ || s == "SByte"@ {
        Some(PackedElement::I8)
    } else if s == "byte"@ || s == "Byte"@ {
        Some(PackedElement::U8)
    } else if s == "short"@ || s == "Int16"@ {
        Some(PackedElement::I16)
    } else if s == "ushort"@ || s == "UInt16"@ || s == "char"@ || s == "Char"@ {
        Some(PackedElement::U16)
    } else if s == "int"@ || s == "Int32"@ {
        Some(PackedElement::I32)
    } else if s == "uint"@ || s == "UInt32"@ {
        Some(PackedElement::U32)
    } else if s == "long"@ || s == "Int64"@ {
        Some(PackedElement::I64)
    } else if s == "ulong"@ || s == "UInt64"@ {
        Some(PackedElement::U64)
    } else if s == "float"@ || s == "Single"@ {
        Some(PackedElement::F32)
    } else if s == "double"@ || s == "Double"@ {
        Some(PackedElement::F64)
    } else {
        None
    }
}

pub fn packed_element(name: &str) -> (res: Option<PackedElement>)
    ensures
        res == packed_element_spec(name@),
{
    let short = short_name(name);
    let s = short.as_str();
    if text_eq(s, "bool") || text_eq(s, "Boolean") {
        Some(PackedElement::Bool)
    } else if text_eq(s, "sbyte") || text_eq(s, "SByte") {
        Some(PackedElement::I8)
    } else if text_eq(s, "byte") || text_eq(s, "Byte") {
        Some(PackedElement::U8)
    } else if text_eq(s, "short") || text_eq(s, "Int16") {
        Some(PackedElement::I16)
    } else if text_eq(s, "ushort") || text_eq(s, "UInt16") || text_eq(s, "char") || text_eq(s, "Char") {
        Some(PackedElement::U16)
    } else if text_eq(s, "int") || text_eq(s, "Int32") {
        Some(PackedElement::I32)
    } else if text_eq(s, "uint") || text_eq(s, "UInt32") {
        Some(PackedElement::U32)
    } else if text_eq(s, "long") || text_eq(s, "Int64") {
        Some(PackedElement::I64)
    } else if text_eq(s, "ulong") || text_eq(s, "UInt64") {
        Some(PackedElement::U64)
    } else if text_eq(s, "float") || text_eq(s, "Single") {
        Some(PackedElement::F32)
    } else if text_eq(s, "double") || text_eq(s, "Double") {
        Some(PackedElement::F64)
    } else {
        None
    }
}

/// The serialized members of Unity's built-in value types, with their types.
pub open spec fn builtin_members_spec(name: Seq<char>) -> Option<Seq<(Seq<char>, Seq<char>)>> {
    let s = short_spec(name);
    if s == "Vector2"@ {
        Some(seq![("x"@, "float"@), ("y"@, "float"@)])
    } else if s == "Vector3"@ {
        Some(seq![("x"@, "float"@), ("y"@, "float"@), ("z"@, "float"@)])
    } else if s == "Vector4"@ || s == "Quaternion"@ {
        Some(seq![("x"@, "float"@), ("y"@, "float"@), ("z"@, "float"@), ("w"@, "float"@)])
    } else if s == "Vector2Int"@ {
        Some(seq![("x"@, "int"@), ("y"@, "int"@)])
    } else if s == "Vector3Int"@ {
        Some(seq![("x"@, "int"@), ("y"@, "int"@), ("z"@, "int"@)])
    } else if s == "Color"@ {
        Some(seq![("r"@, "float"@), ("g"@, "float"@), ("b"@, "float"@), ("a"@, "float"@)])
    } else if s == "Color32"@ {
        Some(seq![("r"@, "byte"@), ("g"@, "byte"@), ("b"@, "byte"@), ("a"@, "byte"@)])
    } else if s == "Rect"@ {
        Some(seq![("x"@, "float"@), ("y"@, "float"@), ("width"@, "float"@), ("height"@, "float"@)])
    } else {
        None
    }
}

pub open spec fn members_view(v: Seq<(&str, &str)>) -> Seq<(Seq<char>, Seq<char>)> {
    v.map_values(|p: (&str, &str)| (p.0@, p.1@))
}

pub fn builtin_members(name: &str) -> (res: Option<Vec<(&'static str, &'static str)>>)
    ensures
        match builtin_members_spec(name@) {
            Some(m) => res matches Some(v) && members_view(v@) == m,
            None => res is None,
        },
{
    let short = short_name(name);
    let s = short.as_str();
    let v: Vec<(&'static str, &'static str)> = if text_eq(s, "Vector2") {
        vec![("x", "float"), ("y", "float")]
    } else if text_eq(s, "Vector3") {
        vec![("x", "float"), ("y", "float"), ("z", "float")]
    } else if text_eq(s, "Vector4") || text_eq(s, "Quaternion") {
        vec![("x", "float"), ("y", "float"), ("z", "float"), ("w", "float")]
    } else if text_eq(s, "Vector2Int") {
        vec![("x", "int"), ("y", "int")]
    } else if text_eq(s, "Vector3Int") {
        vec![("x", "int"), ("y", "int"), ("z", "int")]
    } else if text_eq(s, "Color") {
        vec![("r", "float"), ("g", "float"), ("b", "float"), ("a", "float")]
    } else if text_eq(s, "Color32") {
        vec![("r", "byte"), ("g", "byte"), ("b", "byte"), ("a", "byte")]
    } else if text_eq(s, "Rect") {
        vec![("x", "float"), ("y", "float"), ("width", "float"), ("height", "float")]
    } else {
        return None;
    };
    assert(members_view(v@) =~= builtin_members_spec(name@).unwrap());
    Some(v)
}

/// The first member of that name among a built-in type's members.
pub open spec fn member_type(members: Seq<(Seq<char>, Seq<char>)>, member: Seq<char>) -> Option<Seq<char>>
    decreases members.len(),
{
    if members.len() == 0 {
        None
    } else if members[0].0 == member {
        Some(members[0].1)
    } else {
        member_type(members.drop_first(), member)
    }
}

pub fn builtin_member(name: &str, member: &str) -> (res: Option<&'static str>)
    ensures
        match builtin_members_spec(name@) {
            Some(m) => match member_type(m, member@) {
                Some(t) => res matches Some(r) && r@ == t,
                None => res is None,
            },
            None => res is None,
        },
{
    let members = match builtin_members(name) {
        Some(m) => m,
        None => return None,
    };
    let ghost mv = members_view(members@);
    let mut k: usize = 0;
    assert(mv.skip(0) == mv);
    while k < members.len()
        invariant
            k <= members@.len(),
            mv == members_view(members@),
            builtin_members_spec(name@) == Some(mv),
            member_type(mv, member@) == member_type(mv.skip(k as int), member@),
        decreases members@.len() - k,
    {
        assert(mv.skip(k as int)[0] == mv[k as int]);
        assert(mv[k as int] == (members@[k as int].0@, members@[k as int].1@));
        assert(mv.skip(k as int).drop_first() == mv.skip(k + 1));
        if text_eq(members[k].0, member) {
            return Some(members[k].1);
        }
        k = k + 1;
    }
    None
}

/// Unity's built-in object types, by short name.
pub open spec fn builtin_object_spec(name: Seq<char>) -> bool {
    let s = short_spec(name);
    s == "Object"@ || s == "GameObject"@ || s == "Component"@ || s == "Behaviour"@ || s == "MonoBehaviour"@
        || s == "ScriptableObject"@ || s == "Transform"@ || s == "RectTransform"@ || s == "Material"@
        || s == "Shader"@ || s == "Texture"@ || s == "Texture2D"@ || s == "Texture3D"@ || s == "RenderTexture"@
        || s == "Sprite"@ || s == "Mesh"@ || s == "AudioClip"@ || s == "AnimationClip"@
        || s == "RuntimeAnimatorController"@ || s == "AnimatorController"@ || s == "AnimatorOverrideController"@
        || s == "MonoScript"@ || s == "TextAsset"@
}

pub fn builtin_object(name: &str) -> (res: bool)
    ensures
        res == builtin_object_spec(name@),
{
    let short = short_name(name);
    let s = short.as_str();
    text_eq(s, "Object") || text_eq(s, "GameObject") || text_eq(s, "Component") || text_eq(s, "Behaviour")
        || text_eq(s, "MonoBehaviour") || text_eq(s, "ScriptableObject") || text_eq(s, "Transform")
        || text_eq(s, "RectTransform") || text_eq(s, "Material") || text_eq(s, "Shader") || text_eq(s, "Texture")
        || text_eq(s, "Texture2D") || text_eq(s, "Texture3D") || text_eq(s, "RenderTexture") || text_eq(s, "Sprite")
        || text_eq(s, "Mesh") || text_eq(s, "AudioClip") || text_eq(s, "AnimationClip")
        || text_eq(s, "RuntimeAnimatorController") || text_eq(s, "AnimatorController")
        || text_eq(s, "AnimatorOverrideController") || text_eq(s, "MonoScript") || text_eq(s, "TextAsset")
}

/// The base type of a built-in object type; `Object` has none.
pub open spec fn builtin_parent_spec(name: Seq<char>) -> Option<Seq<char>> {
    let s = short_spec(name);
    if s == "Object"@ {
        None
    } else if s == "MonoBehaviour"@ {
        Some("Behaviour"@)
    } else if s == "Behaviour"@ {
        Some("Component"@)
    } else if s == "Component"@ {
        Some("Object"@)
    } else if s == "RectTransform"@ {
        Some("Transform"@)
    } else if s == "Transform"@ {
        Some("Component"@)
    } else if s == "Texture2D"@ || s == "Texture3D"@ || s == "RenderTexture"@ {
        Some("Texture"@)
    } else if s == "AnimatorController"@ || s == "AnimatorOverrideController"@ {
        Some("RuntimeAnimatorController"@)
    } else if builtin_object_spec(name) {
        Some("Object"@)
    } else {
        None
    }
}

pub fn builtin_parent(name: &str) -> (res: Option<&'static str>)
    ensures
        match builtin_parent_spec(name@) {
            Some(p) => res matches Some(r) && r@ == p,
            None => res is None,
        },
{
    let short = short_name(name);
    let s = short.as_str();
    if text_eq(s, "Object") {
        None
    } else if text_eq(s, "MonoBehaviour") {
        Some("Behaviour")
    } else if text_eq(s, "Behaviour") {
        Some("Component")
    } else if text_eq(s, "Component") {
        Some("Object")
    } else if text_eq(s, "RectTransform") {
        Some("Transform")
    } else if text_eq(s, "Transform") {
        Some("Component")
    } else if text_eq(s, "Texture2D") || text_eq(s, "Texture3D") || text_eq(s, "RenderTexture") {
        Some("Texture")
    } else if text_eq(s, "AnimatorController") || text_eq(s, "AnimatorOverrideController") {
        Some("RuntimeAnimatorController")
    } else if builtin_object(name) {
        Some("Object")
    } else {
        None
    }
}

/// The declared type of a field, with where it was declared.
#[derive(Debug, Clone)]
pub struct FieldType {
    pub name: String,
    pub context: String,
    pub managed: bool,
}

/// The type of a field every Unity object of a given root type serializes.
pub open spec fn builtin_field_spec(root: Seq<char>, field: Seq<char>) -> Option<Seq<char>> {
    let go = root == "GameObject"@;
    let transform = root == "Transform"@ || root == "RectTransform"@;
    if field == "serializedVersion"@ {
        Some("int"@)
    } else if field == "m_Name"@ || field == "m_EditorClassIdentifier"@ {
        Some("string"@)
    } else if field == "m_ObjectHideFlags"@ || field == "m_EditorHideFlags"@ {
        Some("uint"@)
    } else if field == "m_CorrespondingSourceObject"@ || field == "m_PrefabInstance"@ || field == "m_PrefabAsset"@ {
        Some("UnityEngine.Object"@)
    } else if field == "m_Script"@ && root == "MonoBehaviour"@ {
        Some("MonoScript"@)
    } else if field == "m_GameObject"@ {
        Some("GameObject"@)
    } else if field == "m_Enabled"@ && root == "MonoBehaviour"@ {
        Some("bool"@)
    } else if field == "m_Layer"@ && go {
        Some("int"@)
    } else if field == "m_IsActive"@ && go {
        Some("bool"@)
    } else if field == "m_TagString"@ && go {
        Some("string"@)
    } else if field == "m_Icon"@ && go {
        Some("UnityEngine.Object"@)
    } else if field == "m_Component"@ && go {
        Some("__GameObjectComponents"@)
    } else if field == "m_NavMeshLayer"@ && go {
        Some("int"@)
    } else if field == "m_StaticEditorFlags"@ && go {
        Some("uint"@)
    } else if field == "m_RootOrder"@ && transform {
        Some("int"@)
    } else if (field == "m_LocalPosition"@ || field == "m_LocalScale"@ || field == "m_LocalEulerAnglesHint"@) && transform {
        Some("Vector3"@)
    } else if field == "m_LocalRotation"@ && transform {
        Some("Quaternion"@)
    } else if field == "m_ConstrainProportionsScale"@ && transform {
        Some("bool"@)
    } else if field == "m_Father"@ && transform {
        Some("Transform"@)
    } else if field == "m_Children"@ && transform {
        Some("Transform[]"@)
    } else if (field == "m_AnchorMin"@ || field == "m_AnchorMax"@ || field == "m_AnchoredPosition"@ || field == "m_SizeDelta"@
        || field == "m_Pivot"@) && root == "RectTransform"@ {
        Some("Vector2"@)
    } else {
        None
    }
}

fn builtin_field_name(root: &str, field: &str) -> (res: Option<&'static str>)
    ensures
        match builtin_field_spec(root@, field@) {
            Some(t) => res matches Some(r) && r@ == t,
            None => res is None,
        },
{
    let go = text_eq(root, "GameObject");
    let transform = text_eq(root, "Transform") || text_eq(root, "RectTransform");
    let f = field;
    if text_eq(f, "serializedVersion") {
        Some("int")
    } else if text_eq(f, "m_Name") || text_eq(f, "m_EditorClassIdentifier") {
        Some("string")
    } else if text_eq(f, "m_ObjectHideFlags") || text_eq(f, "m_EditorHideFlags") {
        Some("uint")
    } else if text_eq(f, "m_CorrespondingSourceObject") || text_eq(f, "m_PrefabInstance") || text_eq(f, "m_PrefabAsset") {
        Some("UnityEngine.Object")
    } else if text_eq(f, "m_Script") && text_eq(root, "MonoBehaviour") {
        Some("MonoScript")
    } else if text_eq(f, "m_GameObject") {
        Some("GameObject")
    } else if text_eq(f, "m_Enabled") && text_eq(root, "MonoBehaviour") {
        Some("bool")
    } else if text_eq(f, "m_Layer") && go {
        Some("int")
    } else if text_eq(f, "m_IsActive") && go {
        Some("bool")
    } else if text_eq(f, "m_TagString") && go {
        Some("string")
    } else if text_eq(f, "m_Icon") && go {
        Some("UnityEngine.Object")
    } else if text_eq(f, "m_Component") && go {
        Some("__GameObjectComponents")
    } else if text_eq(f, "m_NavMeshLayer") && go {
        Some("int")
    } else if text_eq(f, "m_StaticEditorFlags") && go {
        Some("uint")
    } else if text_eq(f, "m_RootOrder") && transform {
        Some("int")
    } else if (text_eq(f, "m_LocalPosition") || text_eq(f, "m_LocalScale") || text_eq(f, "m_LocalEulerAnglesHint")) && transform {
        Some("Vector3")
    } else if text_eq(f, "m_LocalRotation") && transform {
        Some("Quaternion")
    } else if text_eq(f, "m_ConstrainProportionsScale") && transform {
        Some("bool")
    } else if text_eq(f, "m_Father") && transform {
        Some("Transform")
    } else if text_eq(f, "m_Children") && transform {
        Some("Transform[]")
    } else if (text_eq(f, "m_AnchorMin") || text_eq(f, "m_AnchorMax") || text_eq(f, "m_AnchoredPosition") || text_eq(f, "m_SizeDelta")
        || text_eq(f, "m_Pivot")) && text_eq(root, "RectTransform") {
        Some("Vector2")
    } else {
        None
    }
}

/// The declared type of a field every object of the root type has.
pub fn builtin_field(root: &str, field: &str) -> (res: Option<FieldType>)
    ensures
        match builtin_field_spec(root@, field@) {
            Some(t) => res matches Some(r) && r.name@ == t && r.context@ == Seq::<char>::empty() && !r.managed,
            None => res is None,
        },
{
    match builtin_field_name(root, field) {
        Some(name) => Some(FieldType { name: name.to_owned(), context: String::new(), managed: false }),
        None => None,
    }
}

/// The decoded tokens of an RFC 6901 pointer.
pub open spec fn tokens_spec(path: Seq<char>) -> Option<Seq<Seq<char>>> {
    if path.len() == 0 || path[0] != '/' {
        None
    } else {
        let parts = split_spec(path.drop_first(), '/');
        if forall|i: int| 0 <= i < parts.len() ==> (#[trigger] decode_spec(parts[i])) is Some {
            Some(Seq::new(parts.len(), |i: int| decode_spec(parts[i]).unwrap()))
        } else {
            None
        }
    }
}

pub fn tokens(path: &str) -> (res: Option<Vec<String>>)
    ensures
        match tokens_spec(path@) {
            Some(t) => res matches Some(v) && v@.len() == t.len() && forall|i: int| 0 <= i < t.len() ==> (#[trigger] v@[i])@ == t[i],
            None => res is None,
        },
{
    let chars = chars_of(path);
    if chars.len() == 0 || chars[0] != '/' {
        return None;
    }
    let rest = crate::pointer::sub_chars(chars.as_slice(), 1, chars.len());
    assert(rest@ == path@.drop_first());
    let parts = split_chars(rest.as_slice(), '/');
    let ghost ps = split_spec(rest@, '/');
    let mut out: Vec<String> = Vec::new();
    let mut k: usize = 0;
    while k < parts.len()
        invariant
            k <= parts@.len(),
            parts@.len() == ps.len(),
            ps == split_spec(path@.drop_first(), '/'),
            forall|i: int| 0 <= i < parts@.len() ==> (#[trigger] parts@[i])@ == ps[i],
            out@.len() == k,
            forall|i: int| 0 <= i < k ==> (#[trigger] decode_spec(ps[i])) is Some && out@[i]@ == decode_spec(ps[i]).unwrap(),
        decreases parts@.len() - k,
    {
        match decode_chars(parts[k].as_slice()) {
            Some(d) => {
                out.push(string_of(d.as_slice()));
            },
            None => {
                assert(decode_spec(ps[k as int]) is None);
                return None;
            },
        }
        k = k + 1;
    }
    Some(out)
}

/// Removes every leading and trailing `c`.
pub open spec fn strip_front(s: Seq<char>, c: char) -> Seq<char>
    decreases s.len(),
{
    if s.len() > 0 && s[0] == c { strip_front(s.drop_first(), c) } else { s }
}

pub open spec fn strip_back(s: Seq<char>, c: char) -> Seq<char>
    decreases s.len(),
{
    if s.len() > 0 && s.last() == c { strip_back(s.drop_last(), c) } else { s }
}

pub open spec fn strip_char(s: Seq<char>, c: char) -> Seq<char> {
    strip_back(strip_front(s, c), c)
}

/// A scalar's text without surrounding white space and quote characters.
pub open spec fn raw_spec(bytes: Seq<u8>, n: Node) -> Option<Seq<char>> {
    match text_of(bytes, n) {
        Some(t) => Some(strip_char(strip_char(t, '"'), '\'')),
        None => None,
    }
}

proof fn lemma_strip_front(s: Seq<char>, c: char, a: int)
    requires
        0 <= a <= s.len(),
        forall|j: int| 0 <= j < a ==> #[trigger] s[j] == c,
        a == s.len() || s[a] != c,
    ensures
        strip_front(s, c) == s.skip(a),
    decreases a,
{
    if a == 0 {
        assert(s.skip(0) == s);
    } else {
        let t = s.drop_first();
        assert forall|j: int| 0 <= j < a - 1 implies #[trigger] t[j] == c by {
            assert(t[j] == s[j + 1]);
        }
        if a - 1 < t.len() {
            assert(t[a - 1] == s[a]);
        }
        lemma_strip_front(t, c, a - 1);
        assert(t.skip(a - 1) == s.skip(a));
    }
}

proof fn lemma_strip_back(s: Seq<char>, c: char, b: int)
    requires
        0 <= b <= s.len(),
        forall|j: int| b <= j < s.len() ==> #[trigger] s[j] == c,
        b == 0 || s[b - 1] != c,
    ensures
        strip_back(s, c) == s.take(b),
    decreases s.len() - b,
{
    if b == s.len() {
        assert(s.take(b) == s);
    } else {
        let t = s.drop_last();
        assert forall|j: int| b <= j < t.len() implies #[trigger] t[j] == c by {
            assert(t[j] == s[j]);
        }
        if b > 0 {
            assert(t[b - 1] == s[b - 1]);
        }
        lemma_strip_back(t, c, b);
        assert(t.take(b) == s.take(b));
    }
}

fn strip_chars(s: &[char], c: char) -> (res: Vec<char>)
    ensures
        res@ == strip_char(s@, c),
{
    let mut a: usize = 0;
    while a < s.len() && s[a] == c
        invariant
            a <= s@.len(),
            forall|j: int| 0 <= j < a ==> #[trigger] s@[j] == c,
        decreases s@.len() - a,
    {
        a = a + 1;
    }
    proof { lemma_strip_front(s@, c, a as int); }
    let mut b: usize = s.len();
    while b > a && s[b - 1] == c
        invariant
            a <= b <= s@.len(),
            forall|j: int| b <= j < s@.len() ==> #[trigger] s@[j] == c,
        decreases b,
    {
        b = b - 1;
    }
    let ghost t = s@.skip(a as int);
    proof {
        assert forall|j: int| b - a <= j < t.len() implies #[trigger] t[j] == c by {
            assert(t[j] == s@[j + a]);
        }
        if b > a {
            assert(t[b - a - 1] == s@[b - 1]);
        }
        lemma_strip_back(t, c, b - a);
        assert(t.take(b - a) == s@.subrange(a as int, b as int));
    }
    crate::pointer::sub_chars(s, a, b)
}

/// A scalar's text without surrounding white space and quote characters.
pub fn raw(asset: &Asset, node: &Node) -> (res: Option<String>)
    requires
        node.span.within(asset.bytes@.len() as int),
    ensures
        match raw_spec(asset.bytes@, *node) {
            Some(t) => res matches Some(r) && r@ == t,
            None => res is None,
        },
{
    match scalar_text(asset, node) {
        Some(t) => {
            let chars = chars_of(t.as_str());
            let a = strip_chars(chars.as_slice(), '"');
            let b = strip_chars(a.as_slice(), '\'');
            Some(string_of(b.as_slice()))
        },
        None => None,
    }
}

} // verus!
