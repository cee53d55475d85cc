//! RFC 6901 pointer tokens, property paths and identifiers.
use vstd::prelude::*;

use crate::numbers::{all_digits, decimal_value, digits_value, i64_value, is_digit, parse_i64};
use crate::syntax::CoreError;
use crate::text::{chars_of, decimal_digits, decimal_u64, string_of};

verus! {

/// `~` is written `~0` and `/` is written `~1`; other characters stand for
/// themselves.
pub open spec fn escape_spec(s: Seq<char>) -> Seq<char>
    decreases s.len(),
{
    if s.len() == 0 {
        Seq::empty()
    } else {
        escape_spec(s.drop_last()) + if s.last() == '~' {
            seq!['~', '0']
        } else if s.last() == '/' {
            seq!['~', '1']
        } else {
            seq![s.last()]
        }
    }
}

fn push_str(out: &mut Vec<char>, s: &[char])
    ensures
        final(out)@ == old(out)@ + s@,
{
    let mut i: usize = 0;
    while i < s.len()
        invariant
            i <= s@.len(),
            out@ == old(out)@ + s@.take(i as int),
        decreases s@.len() - i,
    {
        out.push(s[i]);
        i = i + 1;
        assert(s@.take(i as int) == s@.take(i - 1).push(s@[i - 1]));
    }
    assert(s@.take(s@.len() as int) == s@);
}

pub(crate) fn escape_chars(s: &[char]) -> (res: Vec<char>)
    ensures
        res@ == escape_spec(s@),
{
    let mut out: Vec<char> = Vec::new();
    let mut i: usize = 0;
    while i < s.len()
        invariant
            i <= s@.len(),
            out@ == escape_spec(s@.take(i as int)),
        decreases s@.len() - i,
    {
        let c = s[i];
        if c == '~' {
            out.push('~');
            out.push('0');
        } else if c == '/' {
            out.push('~');
            out.push('1');
        } else {
            out.push(c);
        }
        assert(s@.take(i + 1).drop_last() == s@.take(i as int));
        i = i + 1;
    }
    assert(s@.take(s@.len() as int) == s@);
    out
}

/// Escapes one pointer token.
pub fn escape_pointer(value: &str) -> (res: String)
    ensures
        res@ == escape_spec(value@),
{
    let chars = chars_of(value);
    let escaped = escape_chars(chars.as_slice());
    string_of(escaped.as_slice())
}

/// Decodes a pointer token: `~0` is `~`, `~1` is `/`, any other `~` is an
/// error.
pub open spec fn decode_spec(s: Seq<char>) -> Option<Seq<char>>
    decreases s.len(),
{
    if s.len() == 0 {
        Some(Seq::empty())
    } else if s[0] != '~' {
        match decode_spec(s.drop_first()) {
            Some(rest) => Some(seq![s[0]] + rest),
            None => None,
        }
    } else if s.len() >= 2 && s[1] == '0' {
        match decode_spec(s.skip(2)) {
            Some(rest) => Some(seq!['~'] + rest),
            None => None,
        }
    } else if s.len() >= 2 && s[1] == '1' {
        match decode_spec(s.skip(2)) {
            Some(rest) => Some(seq!['/'] + rest),
            None => None,
        }
    } else {
        None
    }
}

pub(crate) fn decode_chars(s: &[char]) -> (res: Option<Vec<char>>)
    ensures
        res matches Some(v) ==> decode_spec(s@) == Some(v@),
        res is None ==> decode_spec(s@) is None,
{
    let mut out: Vec<char> = Vec::new();
    let mut i: usize = 0;
    assert(s@.skip(0) == s@);
    while i < s.len()
        invariant
            i <= s@.len(),
            decode_spec(s@) == match decode_spec(s@.skip(i as int)) {
                Some(rest) => Some(out@ + rest),
                None => None::<Seq<char>>,
            },
        decreases s@.len() - i,
    {
        let ghost rest = s@.skip(i as int);
        let c = s[i];
        if c != '~' {
            assert(rest.drop_first() == s@.skip(i + 1));
            proof {
                match decode_spec(s@.skip(i + 1)) {
                    Some(r) => assert(out@.push(c) + r == out@ + (seq![c] + r)),
                    None => {},
                }
            }
            out.push(c);
            i = i + 1;
        } else if i + 1 < s.len() && (s[i + 1] == '0' || s[i + 1] == '1') {
            let d = if s[i + 1] == '0' { '~' } else { '/' };
            assert(rest.skip(2) == s@.skip(i + 2));
            proof {
                match decode_spec(s@.skip(i + 2)) {
                    Some(r) => assert(out@.push(d) + r == out@ + (seq![d] + r)),
                    None => {},
                }
            }
            out.push(d);
            i = i + 2;
        } else {
            return None;
        }
    }
    assert(s@.skip(i as int).len() == 0);
    assert(out@ + Seq::<char>::empty() == out@);
    Some(out)
}

/// Decodes one pointer token.
pub fn decode_token(token: &str) -> (res: Result<String, CoreError>)
    ensures
        res matches Ok(t) ==> decode_spec(token@) == Some(t@),
        res matches Err(e) ==> decode_spec(token@) is None && e.code@ == "property_path"@,
{
    let chars = chars_of(token);
    match decode_chars(chars.as_slice()) {
        Some(v) => Ok(string_of(v.as_slice())),
        None => Err(CoreError::new("property_path", "invalid JSON pointer escape", 0)),
    }
}

/// Decoding an escaped token gives the token back.
pub proof fn lemma_escape_decode(s: Seq<char>)
    ensures
        decode_spec(escape_spec(s)) == Some(s),
    decreases s.len(),
{
    if s.len() > 0 {
        let pre = s.drop_last();
        lemma_escape_decode(pre);
        lemma_decode_append(escape_spec(pre), s.last(), pre);
        assert(pre.push(s.last()) == s);
    }
}

/// Decoding distributes over appending one escaped character.
proof fn lemma_decode_append(e: Seq<char>, c: char, d: Seq<char>)
    requires
        decode_spec(e) == Some(d),
    ensures
        decode_spec(e + (if c == '~' { seq!['~', '0'] } else if c == '/' { seq!['~', '1'] } else {
            seq![c]
        })) == Some(d.push(c)),
    decreases e.len(),
{
    let tail = if c == '~' { seq!['~', '0'] } else if c == '/' { seq!['~', '1'] } else { seq![c] };
    let all = e + tail;
    if e.len() == 0 {
        assert(all == tail);
        assert(d.len() == 0);
        if c == '~' || c == '/' {
            assert(tail.skip(2) == Seq::<char>::empty());
            assert(decode_spec(Seq::<char>::empty()) == Some(Seq::<char>::empty()));
            assert(seq![c] + Seq::<char>::empty() == d.push(c));
        } else {
            assert(tail.drop_first() == Seq::<char>::empty());
            assert(decode_spec(Seq::<char>::empty()) == Some(Seq::<char>::empty()));
            assert(seq![c] + Seq::<char>::empty() == d.push(c));
        }
    } else if e[0] != '~' {
        let r = decode_spec(e.drop_first()).unwrap();
        lemma_decode_append(e.drop_first(), c, r);
        assert(all[0] == e[0]);
        assert(all.drop_first() == e.drop_first() + tail);
        assert(d == seq![e[0]] + r);
        assert(seq![e[0]] + r.push(c) == d.push(c));
    } else {
        assert(e.len() >= 2 && (e[1] == '0' || e[1] == '1'));
        let r = decode_spec(e.skip(2)).unwrap();
        lemma_decode_append(e.skip(2), c, r);
        assert(all[0] == e[0] && all[1] == e[1]);
        assert(all.skip(2) == e.skip(2) + tail);
        let h = if e[1] == '0' { '~' } else { '/' };
        assert(d == seq![h] + r);
        assert(seq![h] + r.push(c) == d.push(c));
    }
}

/// Unescaping with `~1` then `~0` replaced, as `str::replace` does in turn.
pub open spec fn replace_pair(s: Seq<char>, a: char, b: char, r: char) -> Seq<char>
    decreases s.len(),
{
    if s.len() == 0 {
        Seq::empty()
    } else if s.len() >= 2 && s[0] == a && s[1] == b {
        seq![r] + replace_pair(s.skip(2), a, b, r)
    } else {
        seq![s[0]] + replace_pair(s.drop_first(), a, b, r)
    }
}

fn replace_chars(s: &[char], a: char, b: char, r: char) -> (res: Vec<char>)
    ensures
        res@ == replace_pair(s@, a, b, r),
{
    let mut out: Vec<char> = Vec::new();
    let mut i: usize = 0;
    assert(s@.skip(0) == s@);
    while i < s.len()
        invariant
            i <= s@.len(),
            out@ + replace_pair(s@.skip(i as int), a, b, r) == replace_pair(s@, a, b, r),
        decreases s@.len() - i,
    {
        let ghost rest = s@.skip(i as int);
        if i + 1 < s.len() && s[i] == a && s[i + 1] == b {
            assert(rest.skip(2) == s@.skip(i + 2));
            out.push(r);
            i = i + 2;
        } else {
            assert(rest.drop_first() == s@.skip(i + 1));
            out.push(s[i]);
            i = i + 1;
        }
    }
    assert(s@.skip(i as int).len() == 0);
    out
}

pub open spec fn unescape_spec(s: Seq<char>) -> Seq<char> {
    replace_pair(replace_pair(s, '~', '1', '/'), '~', '0', '~')
}

/// Unescapes a pointer token leniently: `~1` becomes `/`, then `~0` becomes `~`.
pub fn unescape(value: &str) -> (res: String)
    ensures
        res@ == unescape_spec(value@),
{
    let chars = chars_of(value);
    let once = replace_chars(chars.as_slice(), '~', '1', '/');
    let twice = replace_chars(once.as_slice(), '~', '0', '~');
    string_of(twice.as_slice())
}

/// `path` followed by `/` and the escaped key.
pub open spec fn child_spec(path: Seq<char>, key: Seq<char>) -> Seq<char> {
    path + seq!['/'] + escape_spec(key)
}

/// The pointer of a child of `path`.
pub fn path_child(path: &str, key: &str) -> (res: String)
    ensures
        res@ == child_spec(path@, key@),
{
    let mut out = chars_of(path);
    out.push('/');
    let k = chars_of(key);
    let e = escape_chars(k.as_slice());
    push_str(&mut out, e.as_slice());
    string_of(out.as_slice())
}

/// The pointer of item `index` of the sequence at `path`.
pub fn path_index(path: &str, index: usize) -> (res: String)
    ensures
        res@ == child_spec(path@, decimal_digits(index as nat)),
{
    let digits = decimal_u64(index as u64);
    let key = string_of(digits.as_slice());
    proof { lemma_digits_plain(index as nat); }
    path_child(path, key.as_str())
}

/// Decimal digits need no escaping.
pub proof fn lemma_digits_plain(n: nat)
    ensures
        escape_spec(decimal_digits(n)) == decimal_digits(n),
        all_digits(decimal_digits(n)),
    decreases n,
{
    if n >= 10 {
        lemma_digits_plain(n / 10);
        let s = decimal_digits(n);
        assert(s == decimal_digits(n / 10).push(crate::text::digit_char(n % 10)));
        assert forall|k: int| 0 <= k < s.len() implies is_digit(#[trigger] s[k]) by {
            if k < s.len() - 1 {
                assert(s[k] == decimal_digits(n / 10)[k]);
            }
        }
    }
    lemma_escape_plain_all(decimal_digits(n));
}

proof fn lemma_escape_plain_all(s: Seq<char>)
    requires
        all_digits(s),
    ensures
        escape_spec(s) == s,
    decreases s.len(),
{
    if s.len() > 0 {
        assert(all_digits(s.drop_last())) by {
            assert forall|k: int| 0 <= k < s.drop_last().len() implies is_digit(#[trigger] s.drop_last()[k]) by {
                assert(s.drop_last()[k] == s[k]);
            }
        }
        lemma_escape_plain_all(s.drop_last());
        assert(is_digit(s[s.len() - 1]));
        assert(s.drop_last().push(s.last()) == s);
    }
}

/// Whether one pointer equals the other or lies inside it.
pub open spec fn overlaps_spec(left: Seq<char>, right: Seq<char>) -> bool {
    ||| left == right
    ||| (right.len() < left.len() && left.take(right.len() as int) == right && left[right.len() as int] == '/')
    ||| (left.len() < right.len() && right.take(left.len() as int) == left && right[left.len() as int] == '/')
}

fn is_prefix_then_slash(long: &[char], short: &[char]) -> (res: bool)
    ensures
        res == (short@.len() < long@.len() && long@.take(short@.len() as int) == short@ && long@[short@.len() as int] == '/'),
{
    if short.len() >= long.len() {
        return false;
    }
    let mut k: usize = 0;
    while k < short.len()
        invariant
            k <= short@.len() < long@.len(),
            forall|j: int| 0 <= j < k ==> long@[j] == short@[j],
        decreases short@.len() - k,
    {
        if long[k] != short[k] {
            assert(long@.take(short@.len() as int)[k as int] != short@[k as int]);
            return false;
        }
        k = k + 1;
    }
    assert(long@.take(short@.len() as int) =~= short@);
    long[short.len()] == '/'
}

/// Whether two pointers address the same node or one addresses a node
/// inside the other's.
pub fn paths_overlap(left: &str, right: &str) -> (res: bool)
    ensures
        res == overlaps_spec(left@, right@),
{
    let l = chars_of(left);
    let r = chars_of(right);
    crate::text::text_eq(left, right) || is_prefix_then_slash(l.as_slice(), r.as_slice())
        || is_prefix_then_slash(r.as_slice(), l.as_slice())
}

/// The pieces of `s` between occurrences of `sep`, as `str::split` yields
/// them (one more piece than separators).
pub open spec fn split_spec(s: Seq<char>, sep: char) -> Seq<Seq<char>>
    decreases s.len(),
{
    if s.len() == 0 {
        seq![Seq::empty()]
    } else {
        let p = split_spec(s.drop_last(), sep);
        if s.last() == sep {
            p.push(Seq::empty())
        } else {
            p.update(p.len() - 1, p.last().push(s.last()))
        }
    }
}

pub proof fn lemma_split_len(s: Seq<char>, sep: char)
    ensures
        split_spec(s, sep).len() >= 1,
    decreases s.len(),
{
    if s.len() > 0 {
        lemma_split_len(s.drop_last(), sep);
    }
}

pub fn split_chars(s: &[char], sep: char) -> (res: Vec<Vec<char>>)
    ensures
        res@.len() == split_spec(s@, sep).len(),
        forall|k: int| 0 <= k < res@.len() ==> (#[trigger] res@[k])@ == split_spec(s@, sep)[k],
{
    let mut parts: Vec<Vec<char>> = Vec::new();
    parts.push(Vec::new());
    let mut i: usize = 0;
    assert(s@.take(0).len() == 0);
    while i < s.len()
        invariant
            i <= s@.len(),
            parts@.len() == split_spec(s@.take(i as int), sep).len(),
            parts@.len() >= 1,
            forall|k: int| 0 <= k < parts@.len() ==> (#[trigger] parts@[k])@ == split_spec(s@.take(i as int), sep)[k],
        decreases s@.len() - i,
    {
        let c = s[i];
        proof {
            assert(s@.take(i + 1).drop_last() == s@.take(i as int));
            assert(s@.take(i + 1).last() == c);
        }
        if c == sep {
            parts.push(Vec::new());
        } else {
            let last = parts.len() - 1;
            let mut piece = parts.pop().unwrap();
            piece.push(c);
            parts.push(piece);
            proof {
                let prev = split_spec(s@.take(i as int), sep);
                let next = split_spec(s@.take(i + 1), sep);
                assert(next == prev.update(prev.len() - 1, prev.last().push(c)));
                assert forall|k: int| 0 <= k < parts@.len() implies (#[trigger] parts@[k])@ == next[k] by {
                    if k < last {
                    }
                }
            }
        }
        i = i + 1;
    }
    assert(s@.take(s@.len() as int) == s@);
    parts
}

/// Pieces joined with `sep` between them.
pub open spec fn join_spec(parts: Seq<Seq<char>>, sep: char) -> Seq<char>
    decreases parts.len(),
{
    if parts.len() == 0 {
        Seq::empty()
    } else if parts.len() == 1 {
        parts[0]
    } else {
        join_spec(parts.drop_last(), sep) + seq![sep] + parts.last()
    }
}

/// A piece of decimal digits stands for any array index.
pub open spec fn hint_piece(p: Seq<char>) -> Seq<char> {
    if p.len() > 0 && all_digits(p) { seq!['*'] } else { p }
}

pub open spec fn hint_pattern_spec(pointer: Seq<char>) -> Seq<char> {
    join_spec(split_spec(pointer, '/').map_values(|p: Seq<char>| hint_piece(p)), '/')
}

/// No piece `str::split` yields holds the separator.
pub proof fn lemma_split_pieces_plain(s: Seq<char>, sep: char)
    ensures
        forall|k: int, i: int| 0 <= k < split_spec(s, sep).len() && 0 <= i < split_spec(s, sep)[k].len()
            ==> #[trigger] split_spec(s, sep)[k][i] != sep,
    decreases s.len(),
{
    if s.len() > 0 {
        lemma_split_pieces_plain(s.drop_last(), sep);
        lemma_split_len(s.drop_last(), sep);
        let p = split_spec(s.drop_last(), sep);
        if s.last() != sep {
            let q = p.update(p.len() - 1, p.last().push(s.last()));
            assert forall|k: int, i: int| 0 <= k < q.len() && 0 <= i < q[k].len() implies #[trigger] q[k][i] != sep by {
                if k == p.len() - 1 {
                    if i < p.last().len() {
                        assert(q[k][i] == p[k][i]);
                    }
                } else {
                    assert(q[k] == p[k]);
                }
            }
        } else {
            let q = p.push(Seq::<char>::empty());
            assert forall|k: int, i: int| 0 <= k < q.len() && 0 <= i < q[k].len() implies #[trigger] q[k][i] != sep by {
                assert(q[k] == p[k]);
            }
        }
    }
}

/// A text without the separator splits into itself alone.
proof fn lemma_split_plain(y: Seq<char>, sep: char)
    requires
        forall|i: int| 0 <= i < y.len() ==> y[i] != sep,
    ensures
        split_spec(y, sep) == seq![y],
    decreases y.len(),
{
    if y.len() > 0 {
        lemma_split_plain(y.drop_last(), sep);
        assert(y.drop_last().push(y.last()) =~= y);
        assert(seq![y.drop_last()].update(0, y.drop_last().push(y.last())) =~= seq![y]);
    } else {
        assert(y =~= Seq::<char>::empty());
    }
}

/// Text, the separator, then a piece without it: one more piece.
proof fn lemma_split_append_piece(x: Seq<char>, y: Seq<char>, sep: char)
    requires
        forall|i: int| 0 <= i < y.len() ==> y[i] != sep,
    ensures
        split_spec(x + seq![sep] + y, sep) == split_spec(x, sep).push(y),
    decreases y.len(),
{
    let s = x + seq![sep] + y;
    if y.len() == 0 {
        assert(s.drop_last() =~= x);
        assert(y =~= Seq::<char>::empty());
    } else {
        lemma_split_append_piece(x, y.drop_last(), sep);
        assert(s.drop_last() =~= x + seq![sep] + y.drop_last());
        let p = split_spec(x, sep).push(y.drop_last());
        assert(y.drop_last().push(y.last()) =~= y);
        assert(p.update(p.len() - 1, p.last().push(y.last())) =~= split_spec(x, sep).push(y));
    }
}

/// Splitting pieces joined by the separator gives the pieces back, when no
/// piece holds the separator.
pub proof fn lemma_split_join(ps: Seq<Seq<char>>, sep: char)
    requires
        ps.len() >= 1,
        forall|k: int, i: int| 0 <= k < ps.len() && 0 <= i < ps[k].len() ==> #[trigger] ps[k][i] != sep,
    ensures
        split_spec(join_spec(ps, sep), sep) == ps,
    decreases ps.len(),
{
    if ps.len() == 1 {
        assert forall|i: int| 0 <= i < ps[0].len() implies ps[0][i] != sep by {
            assert(ps[0][i] != sep);
        }
        lemma_split_plain(ps[0], sep);
        assert(seq![ps[0]] =~= ps);
    } else {
        let q = ps.drop_last();
        assert forall|k: int, i: int| 0 <= k < q.len() && 0 <= i < q[k].len() implies #[trigger] q[k][i] != sep by {
            assert(q[k] == ps[k]);
            assert(ps[k][i] != sep);
        }
        lemma_split_join(q, sep);
        let y = ps.last();
        assert forall|i: int| 0 <= i < y.len() implies y[i] != sep by {
            assert(ps[ps.len() - 1][i] != sep);
        }
        lemma_split_append_piece(join_spec(q, sep), y, sep);
        assert(q.push(y) =~= ps);
    }
}

/// The pattern keeps every token of the pointer and its order: each
/// non-empty all-digit token, of any length, becomes `*`, and every other
/// token stays as it is.
pub proof fn lemma_hint_pattern_tokens(pointer: Seq<char>)
    ensures
        split_spec(hint_pattern_spec(pointer), '/').len() == split_spec(pointer, '/').len(),
        forall|k: int| 0 <= k < split_spec(pointer, '/').len() ==> {
            let t = #[trigger] split_spec(pointer, '/')[k];
            split_spec(hint_pattern_spec(pointer), '/')[k] == if t.len() > 0 && all_digits(t) { seq!['*'] } else { t }
        },
{
    let parts = split_spec(pointer, '/');
    let pieces = parts.map_values(|p: Seq<char>| hint_piece(p));
    lemma_split_len(pointer, '/');
    lemma_split_pieces_plain(pointer, '/');
    assert forall|k: int, i: int| 0 <= k < pieces.len() && 0 <= i < pieces[k].len() implies #[trigger] pieces[k][i] != '/' by {
        assert(pieces[k] == hint_piece(parts[k]));
        if !(parts[k].len() > 0 && all_digits(parts[k])) {
            assert(parts[k][i] != '/');
        }
    }
    lemma_split_join(pieces, '/');
}

fn digits_only(p: &[char]) -> (res: bool)
    ensures
        res == (p@.len() > 0 && all_digits(p@)),
{
    if p.len() == 0 {
        return false;
    }
    let mut k: usize = 0;
    while k < p.len()
        invariant
            k <= p@.len(),
            forall|j: int| 0 <= j < k ==> is_digit(#[trigger] p@[j]),
        decreases p@.len() - k,
    {
        if !('0' <= p[k] && p[k] <= '9') {
            return false;
        }
        k = k + 1;
    }
    true
}

/// The pointer with every all-digit token replaced by `*`, so that hints
/// recorded for one array element apply to all of them.
pub fn array_hint_pattern(pointer: &str) -> (res: String)
    ensures
        res@ == hint_pattern_spec(pointer@),
{
    let chars = chars_of(pointer);
    let parts = split_chars(chars.as_slice(), '/');
    let ghost pieces = split_spec(chars@, '/').map_values(|p: Seq<char>| hint_piece(p));
    let mut out: Vec<char> = Vec::new();
    let mut k: usize = 0;
    while k < parts.len()
        invariant
            k <= parts@.len(),
            parts@.len() == pieces.len(),
            forall|j: int| 0 <= j < parts@.len() ==> hint_piece((#[trigger] parts@[j])@) == pieces[j],
            out@ == join_spec(pieces.take(k as int), '/'),
        decreases parts@.len() - k,
    {
        if k > 0 {
            out.push('/');
        }
        if digits_only(parts[k].as_slice()) {
            out.push('*');
        } else {
            push_str(&mut out, parts[k].as_slice());
        }
        proof {
            let t = pieces.take(k + 1);
            assert(t.drop_last() == pieces.take(k as int));
            assert(t.last() == pieces[k as int]);
            if k == 0 {
                assert(out@ == seq![] + pieces[0] || true);
            }
        }
        k = k + 1;
    }
    assert(pieces.take(pieces.len() as int) == pieces);
    string_of(out.as_slice())
}

/// `s[from..to]` as characters.
pub fn sub_chars(s: &[char], from: usize, to: usize) -> (res: Vec<char>)
    requires
        from <= to <= s@.len(),
    ensures
        res@ == s@.subrange(from as int, to as int),
{
    let mut out: Vec<char> = Vec::new();
    let mut j = from;
    while j < to
        invariant
            from <= j <= to <= s@.len(),
            out@ == s@.subrange(from as int, j as int),
        decreases to - j,
    {
        out.push(s[j]);
        j = j + 1;
        assert(s@.subrange(from as int, j as int) == s@.subrange(from as int, j - 1).push(s@[j - 1]));
    }
    out
}

/// Whether every character is an ASCII digit.
pub fn all_digit_chars(s: &[char]) -> (res: bool)
    ensures
        res == all_digits(s@),
{
    let mut k: usize = 0;
    while k < s.len()
        invariant
            k <= s@.len(),
            forall|j: int| 0 <= j < k ==> is_digit(#[trigger] s@[j]),
        decreases s@.len() - k,
    {
        if !('0' <= s[k] && s[k] <= '9') {
            return false;
        }
        k = k + 1;
    }
    true
}

} // verus!
