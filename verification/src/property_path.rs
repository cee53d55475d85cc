//! Unity `SerializedProperty` paths (`a.b.Array.data[3].c`) and object IDs.
use vstd::prelude::*;

use crate::numbers::{all_digits, digits_value, i64_value, is_digit, parse_i64};
use crate::pointer::{join_spec, split_chars, split_spec, lemma_split_len};
use crate::text::{chars_eq, chars_of, decimal_digits, digit_char, decimal_u64, has_prefix, starts_with, string_of};

verus! {

#[derive(Debug, Clone, PartialEq)]
pub enum PropertyToken {
    Field(String),
    Index(usize),
}

/// A property token as a mathematical value.
pub ghost enum TokenView {
    Field(Seq<char>),
    Index(nat),
}

impl PropertyToken {
    pub open spec fn view(self) -> TokenView {
        match self {
            PropertyToken::Field(s) => TokenView::Field(s@),
            PropertyToken::Index(i) => TokenView::Index(i as nat),
        }
    }
}

pub open spec fn index_error() -> Seq<char> {
    "property.invalid_path: invalid array index"@
}

pub open spec fn overflow_error() -> Seq<char> {
    "property.invalid_path: array index overflow"@
}

pub open spec fn path_error(path: Seq<char>) -> Seq<char> {
    "property.invalid_path: "@ + path
}

pub open spec fn limit_error() -> Seq<char> {
    "property.limit: path is too deep"@
}

pub open spec fn has_bracket(p: Seq<char>) -> bool {
    exists|k: int| 0 <= k < p.len() && (p[k] == '[' || p[k] == ']')
}

/// The digits of an `Array.data[...]` piece, when it has that shape.
pub open spec fn bracket_digits(p: Seq<char>) -> Option<Seq<char>> {
    if p.len() >= 6 && p.last() == ']' { Some(p.subrange(5, p.len() - 1)) } else { None }
}

/// Whether array-index digits are canonical: non-empty, digits only, and no
/// leading zero unless the index is zero itself.
pub open spec fn canonical_index(raw: Seq<char>) -> bool {
    raw.len() > 0 && !(raw.len() > 1 && raw[0] == '0') && all_digits(raw)
}

/// The tokens of the pieces from `i` on.
pub open spec fn tokens_from(parts: Seq<Seq<char>>, i: int, path: Seq<char>) -> Result<Seq<TokenView>, Seq<char>>
    decreases parts.len() - i,
{
    if i < 0 || i >= parts.len() {
        Ok(Seq::empty())
    } else if parts[i] == "Array"@ && i + 1 < parts.len() && starts_with(parts[i + 1], "data["@) {
        match bracket_digits(parts[i + 1]) {
            None => Err(index_error()),
            Some(raw) => if !canonical_index(raw) {
                Err(index_error())
            } else if digits_value(raw) > usize::MAX {
                Err(overflow_error())
            } else {
                match tokens_from(parts, i + 2, path) {
                    Ok(rest) => Ok(seq![TokenView::Index(digits_value(raw))] + rest),
                    Err(e) => Err(e),
                }
            },
        }
    } else if parts[i].len() == 0 || has_bracket(parts[i]) || (parts[i] == "Array"@ && i + 1 < parts.len()
        && parts[i + 1] == "size"@) {
        Err(path_error(path))
    } else {
        match tokens_from(parts, i + 1, path) {
            Ok(rest) => Ok(seq![TokenView::Field(parts[i])] + rest),
            Err(e) => Err(e),
        }
    }
}

/// The tokens of a property path: fields separated by `.`, with
/// `Array.data[i]` standing for index `i`.
pub open spec fn tokens_spec(path: Seq<char>) -> Result<Seq<TokenView>, Seq<char>> {
    if path.len() == 0 {
        Ok(Seq::empty())
    } else if split_spec(path, '.').len() > 512 {
        Err(limit_error())
    } else {
        tokens_from(split_spec(path, '.'), 0, path)
    }
}

fn contains_bracket(p: &[char]) -> (res: bool)
    ensures
        res == has_bracket(p@),
{
    let mut k: usize = 0;
    while k < p.len()
        invariant
            k <= p@.len(),
            forall|j: int| 0 <= j < k ==> !(p@[j] == '[' || p@[j] == ']'),
        decreases p@.len() - k,
    {
        if p[k] == '[' || p[k] == ']' {
            return true;
        }
        k = k + 1;
    }
    false
}

/// Reads canonical index digits into a `usize`, failing on overflow.
pub(crate) fn index_value(raw: &[char]) -> (res: Option<usize>)
    requires
        all_digits(raw@),
    ensures
        res matches Some(v) ==> v as nat == digits_value(raw@),
        res is None ==> digits_value(raw@) > usize::MAX,
{
    let mut acc: usize = 0;
    let mut k: usize = 0;
    while k < raw.len()
        invariant
            k <= raw@.len(),
            all_digits(raw@),
            acc as nat == digits_value(raw@.take(k as int)),
        decreases raw@.len() - k,
    {
        let d = (raw[k] as u32 - '0' as u32) as usize;
        assert(is_digit(raw@[k as int]));
        assert(raw@.take(k + 1).drop_last() == raw@.take(k as int));
        assert(raw@.take(k + 1).last() == raw@[k as int]);
        if acc > (usize::MAX - d) / 10 {
            proof { lemma_digits_grow(raw@, (k + 1) as int); }
            assert(digits_value(raw@.take(k + 1)) > usize::MAX) by (nonlinear_arith)
                requires
                    digits_value(raw@.take(k + 1)) == acc * 10 + d,
                    acc > (usize::MAX - d) / 10,
                    d <= 9,
            ;
            return None;
        }
        assert(acc * 10 + d <= usize::MAX) by (nonlinear_arith)
            requires
                acc <= (usize::MAX - d) / 10,
                d <= 9,
        ;
        acc = acc * 10 + d;
        k = k + 1;
    }
    assert(raw@.take(raw@.len() as int) == raw@);
    Some(acc)
}

/// A longer digit prefix is worth at least as much.
proof fn lemma_digits_grow(s: Seq<char>, k: int)
    requires
        0 <= k <= s.len(),
        all_digits(s),
    ensures
        digits_value(s) >= digits_value(s.take(k)),
    decreases s.len() - k,
{
    if k < s.len() {
        lemma_digits_grow(s, k + 1);
        assert(s.take(k + 1).drop_last() == s.take(k));
    } else {
        assert(s.take(k) == s);
    }
}

/// The path text a token stands for: a field's name, or
/// `Array.data[i]` for index `i`.
pub open spec fn token_text(t: TokenView) -> Seq<char> {
    match t {
        TokenView::Field(f) => f,
        TokenView::Index(n) => "Array.data["@ + decimal_digits(n) + "]"@,
    }
}

/// The path text of tokens, with `.` between them.
pub open spec fn tokens_text(ts: Seq<TokenView>) -> Seq<char>
    decreases ts.len(),
{
    if ts.len() == 0 {
        Seq::empty()
    } else if ts.len() == 1 {
        token_text(ts[0])
    } else {
        token_text(ts[0]) + "."@ + tokens_text(ts.skip(1))
    }
}

/// Pieces from `i` on, joined with `.` between them.
pub open spec fn join_from(parts: Seq<Seq<char>>, i: int) -> Seq<char>
    decreases parts.len() - i,
{
    if i < 0 || i >= parts.len() {
        Seq::empty()
    } else if i == parts.len() - 1 {
        parts[i]
    } else {
        parts[i] + "."@ + join_from(parts, i + 1)
    }
}

proof fn lemma_join_from_push(parts: Seq<Seq<char>>, x: Seq<char>, i: int)
    requires
        0 <= i < parts.len(),
    ensures
        join_from(parts.push(x), i) == join_from(parts, i) + "."@ + x,
    decreases parts.len() - i,
{
    reveal_strlit(".");
    let all = parts.push(x);
    assert(all[i] == parts[i]);
    if i < parts.len() - 1 {
        lemma_join_from_push(parts, x, i + 1);
        assert(join_from(all, i) == parts[i] + "."@ + join_from(all, i + 1));
        assert(parts[i] + "."@ + (join_from(parts, i + 1) + "."@ + x) =~= (parts[i] + "."@ + join_from(parts, i + 1)) + "."@ + x);
    } else {
        assert(all[i + 1] == x);
        assert(join_from(all, i + 1) == x);
    }
}

proof fn lemma_join_spec_from(parts: Seq<Seq<char>>)
    requires
        parts.len() >= 1,
    ensures
        join_spec(parts, '.') == join_from(parts, 0),
    decreases parts.len(),
{
    reveal_strlit(".");
    if parts.len() > 1 {
        let q = parts.drop_last();
        lemma_join_spec_from(q);
        lemma_join_from_push(q, parts.last(), 0);
        assert(q.push(parts.last()) =~= parts);
        assert(seq!['.'] =~= "."@);
    }
}

/// Splitting a text at a separator and joining the pieces with it gives
/// the text back.
proof fn lemma_join_split(s: Seq<char>, sep: char)
    ensures
        join_spec(split_spec(s, sep), sep) == s,
    decreases s.len(),
{
    if s.len() > 0 {
        lemma_join_split(s.drop_last(), sep);
        lemma_split_len(s.drop_last(), sep);
        let p = split_spec(s.drop_last(), sep);
        if s.last() == sep {
            assert(p.push(Seq::<char>::empty()).drop_last() =~= p);
            assert(join_spec(p, sep) + seq![sep] + Seq::<char>::empty() =~= s);
        } else {
            let q = p.update(p.len() - 1, p.last().push(s.last()));
            if p.len() == 1 {
                assert(join_spec(p, sep) == p[0]);
                assert(q[0] =~= s);
            } else {
                assert(q.drop_last() =~= p.drop_last());
                assert(join_spec(q, sep) == join_spec(p.drop_last(), sep) + seq![sep] + q.last());
                assert(join_spec(p, sep) == join_spec(p.drop_last(), sep) + seq![sep] + p.last());
                assert(join_spec(q, sep) =~= join_spec(p, sep).push(s.last()));
                assert(s.drop_last().push(s.last()) =~= s);
            }
        }
    }
}

/// A run of digits without a leading zero has at least the value of its
/// first digit.
proof fn lemma_digits_positive(s: Seq<char>)
    requires
        s.len() > 0,
        all_digits(s),
        s[0] != '0',
    ensures
        digits_value(s) >= 1,
    decreases s.len(),
{
    if s.len() > 1 {
        assert(s.drop_last()[0] == s[0]);
        assert(all_digits(s.drop_last()));
        lemma_digits_positive(s.drop_last());
    }
}

/// The decimal text of a value read from canonical digits is those digits.
proof fn lemma_decimal_of_digits(s: Seq<char>)
    requires
        canonical_index(s),
    ensures
        decimal_digits(digits_value(s)) == s,
    decreases s.len(),
{
    let c = s.last();
    assert(is_digit(c));
    let d = (c as u32 - '0' as u32) as nat;
    assert(digit_char(d) == c) by {
        assert('0' <= c <= '9');
    }
    assert(d < 10);
    assert(digits_value(s) == digits_value(s.drop_last()) * 10 + d);
    if s.len() == 1 {
        assert(s.drop_last().len() == 0);
        assert(digits_value(s) == d);
        assert(decimal_digits(d) == seq![digit_char(d)]);
        assert(seq![c] =~= s);
    } else {
        let q = s.drop_last();
        assert(q[0] == s[0]);
        assert(all_digits(q));
        assert(canonical_index(q));
        lemma_digits_positive(q);
        lemma_decimal_of_digits(q);
        let v = digits_value(s);
        assert(v == digits_value(q) * 10 + d);
        assert(v / 10 == digits_value(q) && v % 10 == d) by (nonlinear_arith)
            requires
                v == digits_value(q) * 10 + d,
                d < 10,
        ;
        assert(v >= 10);
        assert(decimal_digits(v) == decimal_digits(v / 10).push(digit_char(v % 10)));
        assert(q.push(c) =~= s);
    }
}

/// Reading tokens from piece `i` yields a token whenever a piece is left.
proof fn lemma_tokens_nonempty(parts: Seq<Seq<char>>, i: int, path: Seq<char>)
    requires
        0 <= i < parts.len(),
        tokens_from(parts, i, path) is Ok,
    ensures
        tokens_from(parts, i, path)->Ok_0.len() >= 1,
{
}

/// The tokens read from piece `i` on spell those pieces joined by `.`.
proof fn lemma_tokens_text_from(parts: Seq<Seq<char>>, i: int, path: Seq<char>)
    requires
        0 <= i < parts.len(),
        tokens_from(parts, i, path) is Ok,
    ensures
        tokens_text(tokens_from(parts, i, path)->Ok_0) == join_from(parts, i),
    decreases parts.len() - i,
{
    reveal_strlit(".");
    reveal_strlit("Array");
    reveal_strlit("data[");
    reveal_strlit("]");
    reveal_strlit("Array.data[");
    let ts = tokens_from(parts, i, path)->Ok_0;
    if parts[i] == "Array"@ && i + 1 < parts.len() && starts_with(parts[i + 1], "data["@) {
        let p = parts[i + 1];
        let raw = bracket_digits(p).unwrap();
        let rest = tokens_from(parts, i + 2, path)->Ok_0;
        lemma_decimal_of_digits(raw);
        assert(p =~= p.take(5) + raw + seq![']']);
        assert(p.take(5) == "data["@);
        let t = TokenView::Index(digits_value(raw));
        assert(ts == seq![t] + rest);
        assert(token_text(t) =~= parts[i] + "."@ + p);
        if i + 2 < parts.len() {
            lemma_tokens_text_from(parts, i + 2, path);
            lemma_tokens_nonempty(parts, i + 2, path);
            assert(ts.skip(1) =~= rest);
            assert(join_from(parts, i + 1) == p + "."@ + join_from(parts, i + 2));
            assert(tokens_text(ts) =~= parts[i] + "."@ + (p + "."@ + join_from(parts, i + 2)));
        } else {
            assert(rest.len() == 0);
            assert(ts =~= seq![t]);
            assert(join_from(parts, i + 1) == p);
        }
    } else {
        let rest = tokens_from(parts, i + 1, path)->Ok_0;
        let t = TokenView::Field(parts[i]);
        assert(ts == seq![t] + rest);
        if i + 1 < parts.len() {
            lemma_tokens_text_from(parts, i + 1, path);
            lemma_tokens_nonempty(parts, i + 1, path);
            assert(ts.skip(1) =~= rest);
        } else {
            assert(ts =~= seq![t]);
        }
    }
}

/// A property path reads as tokens that spell it back: each field is its
/// name and each index `i` is `Array.data[i]` with `i` in decimal, joined
/// by `.`. So every index token carries the full value of its digits.
pub proof fn lemma_tokens_spell_path(path: Seq<char>)
    requires
        tokens_spec(path) is Ok,
    ensures
        tokens_text(tokens_spec(path)->Ok_0) == path,
{
    if path.len() > 0 {
        let parts = split_spec(path, '.');
        lemma_split_len(path, '.');
        lemma_join_split(path, '.');
        lemma_join_spec_from(parts);
        lemma_tokens_text_from(parts, 0, path);
    }
}

/// The tokens of a Unity property path.
pub fn property_tokens(path: &str) -> (res: Result<Vec<PropertyToken>, String>)
    ensures
        res matches Ok(v) ==> tokens_spec(path@) == Ok::<Seq<TokenView>, Seq<char>>(v@.map_values(|t: PropertyToken| t.view())),
        res matches Err(e) ==> tokens_spec(path@) == Err::<Seq<TokenView>, Seq<char>>(e@),
{
    let chars = chars_of(path);
    if chars.len() == 0 {
        let v: Vec<PropertyToken> = Vec::new();
        assert(v@.map_values(|t: PropertyToken| t.view()) =~= Seq::<TokenView>::empty());
        return Ok(v);
    }
    let parts = split_chars(chars.as_slice(), '.');
    let ghost ps = split_spec(chars@, '.');
    if parts.len() > 512 {
        return Err(string_of(chars_of("property.limit: path is too deep").as_slice()));
    }
    let mut tokens: Vec<PropertyToken> = Vec::new();
    let mut index: usize = 0;
    while index < parts.len()
        invariant
            index <= parts@.len(),
            parts@.len() == ps.len(),
            ps == split_spec(path@, '.'),
            chars@ == path@,
            tokens_spec(path@) == tokens_from(ps, 0, path@),
            forall|k: int| 0 <= k < parts@.len() ==> (#[trigger] parts@[k])@ == ps[k],
            tokens_from(ps, 0, path@) == match tokens_from(ps, index as int, path@) {
                Ok(rest) => Ok(tokens@.map_values(|t: PropertyToken| t.view()) + rest),
                Err(e) => Err::<Seq<TokenView>, Seq<char>>(e),
            },
        decreases parts@.len() - index,
    {
        let ghost before = tokens@.map_values(|t: PropertyToken| t.view());
        let part = parts[index].as_slice();
        if chars_eq(part, "Array") && index + 1 < parts.len() && has_prefix(parts[index + 1].as_slice(), "data[") {
            let p = parts[index + 1].as_slice();
            if !(p.len() >= 6 && p[p.len() - 1] == ']') {
                return Err(string_of(chars_of("property.invalid_path: invalid array index").as_slice()));
            }
            let raw = crate::pointer::sub_chars(p, 5, p.len() - 1);
            let canonical = raw.len() > 0 && !(raw.len() > 1 && raw[0] == '0') && crate::pointer::all_digit_chars(raw.as_slice());
            if !canonical {
                return Err(string_of(chars_of("property.invalid_path: invalid array index").as_slice()));
            }
            let value = match index_value(raw.as_slice()) {
                Some(v) => v,
                None => return Err(string_of(chars_of("property.invalid_path: array index overflow").as_slice())),
            };
            let t = PropertyToken::Index(value);
            tokens.push(t);
            proof {
                assert(tokens@.map_values(|t: PropertyToken| t.view()) == before.push(t.view()));
                match tokens_from(ps, index + 2, path@) {
                    Ok(rest) => assert(before.push(t.view()) + rest == before + (seq![t.view()] + rest)),
                    Err(_) => {},
                }
            }
            index = index + 2;
        } else {
            let is_size = chars_eq(part, "Array") && index + 1 < parts.len() && chars_eq(parts[index + 1].as_slice(), "size");
            if part.len() == 0 || contains_bracket(part) || is_size {
                let prefix = chars_of("property.invalid_path: ");
                let mut message = prefix;
                let mut k: usize = 0;
                let ghost pre = message@;
                while k < chars.len()
                    invariant
                        k <= chars@.len(),
                        message@ == pre + chars@.take(k as int),
                    decreases chars@.len() - k,
                {
                    message.push(chars[k]);
                    k = k + 1;
                    assert(chars@.take(k as int) == chars@.take(k - 1).push(chars@[k - 1]));
                }
                assert(chars@.take(chars@.len() as int) == chars@);
                return Err(string_of(message.as_slice()));
            }
            let t = PropertyToken::Field(string_of(part));
            tokens.push(t);
            proof {
                assert(tokens@.map_values(|t: PropertyToken| t.view()) == before.push(t.view()));
                match tokens_from(ps, index + 1, path@) {
                    Ok(rest) => assert(before.push(t.view()) + rest == before + (seq![t.view()] + rest)),
                    Err(_) => {},
                }
            }
            index = index + 1;
        }
    }
    assert(tokens@.map_values(|t: PropertyToken| t.view()) + Seq::<TokenView>::empty() == tokens@.map_values(|t: PropertyToken| t.view()));
    Ok(tokens)
}

/// `i64::to_string`.
pub open spec fn signed_decimal(n: int) -> Seq<char> {
    if n < 0 { seq!['-'] + decimal_digits((-n) as nat) } else { decimal_digits(n as nat) }
}

/// A Unity object ID: a non-zero 64-bit integer in canonical decimal form.
pub open spec fn id_spec(v: Seq<char>) -> Option<i64> {
    match i64_value(v) {
        Some(n) => if signed_decimal(n as int) == v && n != 0 { Some(n) } else { None },
        None => None,
    }
}

fn signed_text(n: i64) -> (res: Vec<char>)
    ensures
        res@ == signed_decimal(n as int),
{
    if n < 0 {
        let magnitude: u64 = (0i128 - n as i128) as u64;
        let digits = decimal_u64(magnitude);
        let mut out: Vec<char> = Vec::new();
        out.push('-');
        let mut k: usize = 0;
        while k < digits.len()
            invariant
                k <= digits@.len(),
                out@ == seq!['-'] + digits@.take(k as int),
            decreases digits@.len() - k,
        {
            out.push(digits[k]);
            k = k + 1;
            assert(digits@.take(k as int) == digits@.take(k - 1).push(digits@[k - 1]));
        }
        assert(digits@.take(digits@.len() as int) == digits@);
        out
    } else {
        decimal_u64(n as u64)
    }
}

/// Reads a Unity object ID.
pub fn id(v: &str) -> (res: Result<i64, String>)
    ensures
        res matches Ok(n) ==> id_spec(v@) == Some(n),
        res matches Err(e) ==> id_spec(v@) is None && e@ == "property.invalid_id"@,
{
    let chars = chars_of(v);
    let n = match parse_i64(chars.as_slice()) {
        Some(n) => n,
        None => return Err(string_of(chars_of("property.invalid_id").as_slice())),
    };
    let text = signed_text(n);
    if !vec_eq(&text, &chars) || n == 0 {
        return Err(string_of(chars_of("property.invalid_id").as_slice()));
    }
    Ok(n)
}

fn vec_eq(a: &Vec<char>, b: &Vec<char>) -> (res: bool)
    ensures
        res == (a@ == b@),
{
    if a.len() != b.len() {
        return false;
    }
    let mut k: usize = 0;
    while k < a.len()
        invariant
            k <= a@.len(),
            a@.len() == b@.len(),
            forall|j: int| 0 <= j < k ==> a@[j] == b@[j],
        decreases a@.len() - k,
    {
        if a[k] != b[k] {
            return false;
        }
        k = k + 1;
    }
    assert(a@ =~= b@);
    true
}

} // verus!
