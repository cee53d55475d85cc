//! Text primitives over `char` sequences and UTF-8 bytes.
use vstd::prelude::*;
use vstd::utf8::*;

verus! {

/// The characters of a string slice, in order.
///
/// Calls `str::chars` and collects the iterator; std documents that the
/// iterator yields every `char` of the slice in order.
#[verifier::external_body]
pub(crate) fn chars_of(s: &str) -> (res: Vec<char>)
    ensures
        res@ == s@,
{
    s.chars().collect()
}

/// A string holding exactly the given characters.
///
/// Calls `String::from_iter` over the characters; std documents that the
/// string is their concatenation.
#[verifier::external_body]
pub(crate) fn string_of(chars: &[char]) -> (res: String)
    ensures
        res@ == chars@,
{
    String::from_iter(chars.iter())
}

/// Decodes UTF-8 bytes.
///
/// Calls `std::str::from_utf8`. On success std documents that the slice
/// holds exactly these bytes, so its characters are their UTF-8 decoding; on
/// failure `Utf8Error::valid_up_to` is the length of the longest valid
/// prefix, which is shorter than the input.
#[verifier::external_body]
pub(crate) fn decode_bytes(bytes: &[u8]) -> (res: Result<String, usize>)
    ensures
        res is Ok <==> valid_utf8(bytes@),
        res matches Ok(s) ==> s@ == decode_utf8(bytes@),
        res matches Err(k) ==> k < bytes@.len() && valid_utf8(bytes@.take(k as int)),
{
    match std::str::from_utf8(bytes) {
        Ok(s) => Ok(s.to_owned()),
        Err(error) => Err(error.valid_up_to()),
    }
}

/// Whether two string slices hold the same characters.
///
/// Calls `<str as PartialEq>::eq`, which std documents as comparing the
/// contents.
#[verifier::external_body]
pub(crate) fn text_eq(a: &str, b: &str) -> (res: bool)
    ensures
        res == (a@ == b@),
{
    a == b
}

/// The characters `a` followed by the characters `b`.
pub fn concat(a: &str, b: &str) -> (res: String)
    ensures
        res@ == a@ + b@,
{
    let mut out = chars_of(a);
    let tail = chars_of(b);
    let mut i: usize = 0;
    while i < tail.len()
        invariant
            i <= tail@.len(),
            tail@ == b@,
            out@ == a@ + tail@.take(i as int),
        decreases tail@.len() - i,
    {
        out.push(tail[i]);
        i = i + 1;
        assert(tail@.take(i as int) == tail@.take(i - 1).push(tail@[i - 1]));
    }
    assert(tail@.take(tail@.len() as int) == tail@);
    string_of(out.as_slice())
}

/// The decimal digits of a natural number, most significant first.
pub open spec fn decimal_digits(n: nat) -> Seq<char>
    decreases n,
{
    if n < 10 {
        seq![digit_char(n)]
    } else {
        decimal_digits(n / 10).push(digit_char(n % 10))
    }
}

/// The character of a single decimal digit.
pub open spec fn digit_char(d: nat) -> char {
    if d == 0 { '0' } else if d == 1 { '1' } else if d == 2 { '2' } else if d == 3 { '3' }
    else if d == 4 { '4' } else if d == 5 { '5' } else if d == 6 { '6' } else if d == 7 { '7' }
    else if d == 8 { '8' } else { '9' }
}

fn digit(d: u64) -> (c: char)
    requires
        d < 10,
    ensures
        c == digit_char(d as nat),
{
    if d == 0 { '0' } else if d == 1 { '1' } else if d == 2 { '2' } else if d == 3 { '3' }
    else if d == 4 { '4' } else if d == 5 { '5' } else if d == 6 { '6' } else if d == 7 { '7' }
    else if d == 8 { '8' } else { '9' }
}

/// The decimal spelling of `n`, as `u64::to_string` writes it.
pub fn decimal_u64(n: u64) -> (res: Vec<char>)
    ensures
        res@ == decimal_digits(n as nat),
    decreases n,
{
    if n < 10 {
        let mut out = Vec::new();
        out.push(digit(n));
        out
    } else {
        let mut out = decimal_u64(n / 10);
        out.push(digit(n % 10));
        out
    }
}

/// The Unicode `White_Space` property, which `char::is_whitespace` tests.
pub open spec fn white_space(c: char) -> bool {
    let u = c as u32;
    ||| (0x09 <= u && u <= 0x0d)
    ||| u == 0x20
    ||| u == 0x85
    ||| u == 0xa0
    ||| u == 0x1680
    ||| (0x2000 <= u && u <= 0x200a)
    ||| u == 0x2028
    ||| u == 0x2029
    ||| u == 0x202f
    ||| u == 0x205f
    ||| u == 0x3000
}

pub fn is_white_space(c: char) -> (res: bool)
    ensures
        res == white_space(c),
{
    let u = c as u32;
    (0x09 <= u && u <= 0x0d) || u == 0x20 || u == 0x85 || u == 0xa0 || u == 0x1680 || (0x2000 <= u
        && u <= 0x200a) || u == 0x2028 || u == 0x2029 || u == 0x202f || u == 0x205f || u == 0x3000
}

/// The whitespace-separated words of `s[i..]`, `cur` being the word in
/// progress (as `str::split_whitespace` yields them).
pub open spec fn words_from(s: Seq<char>, i: int, cur: Seq<char>) -> Seq<Seq<char>>
    decreases s.len() - i,
{
    if i >= s.len() {
        if cur.len() > 0 { seq![cur] } else { Seq::empty() }
    } else if white_space(s[i]) {
        (if cur.len() > 0 { seq![cur] } else { Seq::empty() }) + words_from(s, i + 1, Seq::empty())
    } else {
        words_from(s, i + 1, cur.push(s[i]))
    }
}

pub open spec fn words(s: Seq<char>) -> Seq<Seq<char>> {
    words_from(s, 0, Seq::empty())
}

/// The whitespace-separated words of `s`.
pub fn split_words(s: &[char]) -> (res: Vec<Vec<char>>)
    ensures
        res@.len() == words(s@).len(),
        forall|k: int| 0 <= k < res@.len() ==> (#[trigger] res@[k])@ == words(s@)[k],
{
    let mut out: Vec<Vec<char>> = Vec::new();
    let mut cur: Vec<char> = Vec::new();
    let mut i: usize = 0;
    let ghost mut views: Seq<Seq<char>> = Seq::empty();
    while i < s.len()
        invariant
            i <= s@.len(),
            views.len() == out@.len(),
            forall|k: int| 0 <= k < out@.len() ==> (#[trigger] out@[k])@ == views[k],
            views + words_from(s@, i as int, cur@) == words(s@),
        decreases s@.len() - i,
    {
        let c = s[i];
        if is_white_space(c) {
            if cur.len() > 0 {
                proof {
                    assert(views.push(cur@) + words_from(s@, i + 1, Seq::empty()) == views + (seq![cur@]
                        + words_from(s@, i + 1, Seq::empty())));
                    views = views.push(cur@);
                }
                out.push(cur);
                cur = Vec::new();
            } else {
                proof {
                    assert(Seq::<Seq<char>>::empty() + words_from(s@, i + 1, Seq::empty()) == words_from(
                        s@,
                        i + 1,
                        Seq::empty(),
                    ));
                }
                cur = Vec::new();
            }
        } else {
            cur.push(c);
        }
        i = i + 1;
    }
    if cur.len() > 0 {
        proof {
            views = views.push(cur@);
        }
        out.push(cur);
    } else {
        proof {
            assert(views + Seq::<Seq<char>>::empty() == views);
        }
    }
    out
}

/// Whether `s` begins with `prefix`.
pub open spec fn starts_with(s: Seq<char>, prefix: Seq<char>) -> bool {
    prefix.len() <= s.len() && s.take(prefix.len() as int) == prefix
}

pub fn has_prefix(s: &[char], prefix: &str) -> (res: bool)
    ensures
        res == starts_with(s@, prefix@),
{
    let p = chars_of(prefix);
    if p.len() > s.len() {
        return false;
    }
    let mut k: usize = 0;
    while k < p.len()
        invariant
            k <= p@.len() <= s@.len(),
            p@ == prefix@,
            forall|j: int| 0 <= j < k ==> s@[j] == p@[j],
        decreases p@.len() - k,
    {
        if s[k] != p[k] {
            assert(s@.take(p@.len() as int)[k as int] != p@[k as int]);
            return false;
        }
        k = k + 1;
    }
    assert(s@.take(p@.len() as int) =~= p@);
    true
}

/// Whether `s` holds exactly the characters of `t`.
pub fn chars_eq(s: &[char], t: &str) -> (res: bool)
    ensures
        res == (s@ == t@),
{
    let p = chars_of(t);
    if p.len() != s.len() {
        return false;
    }
    let mut k: usize = 0;
    while k < p.len()
        invariant
            k <= p@.len(),
            p@.len() == s@.len(),
            p@ == t@,
            forall|j: int| 0 <= j < k ==> s@[j] == p@[j],
        decreases p@.len() - k,
    {
        if s[k] != p[k] {
            return false;
        }
        k = k + 1;
    }
    assert(s@ =~= p@);
    true
}

/// Whether position `i` of `bytes` starts a character (or is the end).
pub open spec fn char_boundary(bytes: Seq<u8>, i: int) -> bool {
    i == bytes.len() || (0 <= i < bytes.len() && !is_continuation_byte(bytes[i]))
}

/// Splitting valid UTF-8 at a character boundary leaves two valid halves.
pub proof fn lemma_utf8_split(bytes: Seq<u8>, i: int)
    requires
        valid_utf8(bytes),
        0 <= i <= bytes.len(),
        char_boundary(bytes, i),
    ensures
        valid_utf8(bytes.take(i)),
        valid_utf8(bytes.skip(i)),
    decreases bytes.len(),
{
    if i == 0 {
        assert(bytes.skip(0) == bytes);
        assert(bytes.take(0).len() == 0);
    } else {
        let n = length_of_first_scalar(bytes);
        let rest = pop_first_scalar(bytes);
        assert(1 <= n <= 4);
        if i < n {
            assert(is_continuation_byte(bytes[i]));
            assert(false);
        }
        assert(rest.len() == bytes.len() - n);
        lemma_utf8_split(rest, i - n);
        assert(rest.skip(i - n) == bytes.skip(i));
        let pre = bytes.take(i);
        assert forall|k: int| 0 <= k < n implies pre[k] == bytes[k] by {}
        assert(valid_first_scalar(pre));
        assert(length_of_first_scalar(pre) == n);
        assert(pop_first_scalar(pre) == rest.take(i - n));
    }
}

/// The byte after a one-byte character starts a character.
pub proof fn lemma_boundary_after_ascii(bytes: Seq<u8>, i: int)
    requires
        valid_utf8(bytes),
        0 <= i < bytes.len(),
        char_boundary(bytes, i),
        bytes[i] < 0x80,
    ensures
        char_boundary(bytes, i + 1),
{
    lemma_utf8_split(bytes, i);
    let tail = bytes.skip(i);
    assert(tail[0] == bytes[i]);
    assert(length_of_first_scalar(tail) == 1);
    let rest = pop_first_scalar(tail);
    assert(valid_utf8(rest));
    if i + 1 < bytes.len() {
        assert(rest[0] == bytes[i + 1]);
        assert(valid_first_scalar(rest));
    }
}

/// A range of valid UTF-8 cut at character boundaries is valid UTF-8.
pub proof fn lemma_utf8_subrange(bytes: Seq<u8>, i: int, j: int)
    requires
        valid_utf8(bytes),
        0 <= i <= j <= bytes.len(),
        char_boundary(bytes, i),
        char_boundary(bytes, j),
    ensures
        valid_utf8(bytes.subrange(i, j)),
{
    lemma_utf8_split(bytes, i);
    let tail = bytes.skip(i);
    assert(char_boundary(tail, j - i));
    lemma_utf8_split(tail, j - i);
    assert(tail.take(j - i) == bytes.subrange(i, j));
}

/// `str::trim_start`: the text without its leading white space.
pub open spec fn trim_front(s: Seq<char>) -> Seq<char>
    decreases s.len(),
{
    if s.len() > 0 && white_space(s[0]) { trim_front(s.drop_first()) } else { s }
}

/// `str::trim_end`: the text without its trailing white space.
pub open spec fn trim_back(s: Seq<char>) -> Seq<char>
    decreases s.len(),
{
    if s.len() > 0 && white_space(s.last()) { trim_back(s.drop_last()) } else { s }
}

/// `str::trim`: the text without leading and trailing white space.
pub open spec fn trimmed(s: Seq<char>) -> Seq<char> {
    trim_back(trim_front(s))
}

proof fn lemma_trim_front(s: Seq<char>, a: int)
    requires
        0 <= a <= s.len(),
        forall|j: int| 0 <= j < a ==> white_space(#[trigger] s[j]),
        a == s.len() || !white_space(s[a]),
    ensures
        trim_front(s) == s.skip(a),
    decreases a,
{
    if a == 0 {
        assert(s.skip(0) == s);
    } else {
        let t = s.drop_first();
        assert forall|j: int| 0 <= j < a - 1 implies white_space(#[trigger] t[j]) by {
            assert(t[j] == s[j + 1]);
        }
        if a - 1 < t.len() {
            assert(t[a - 1] == s[a]);
        }
        lemma_trim_front(t, a - 1);
        assert(t.skip(a - 1) == s.skip(a));
    }
}

proof fn lemma_trim_back(s: Seq<char>, b: int)
    requires
        0 <= b <= s.len(),
        forall|j: int| b <= j < s.len() ==> white_space(#[trigger] s[j]),
        b == 0 || !white_space(s[b - 1]),
    ensures
        trim_back(s) == s.take(b),
    decreases s.len() - b,
{
    if b == s.len() {
        assert(s.take(b) == s);
    } else {
        let t = s.drop_last();
        assert forall|j: int| b <= j < t.len() implies white_space(#[trigger] t[j]) by {
            assert(t[j] == s[j]);
        }
        if b > 0 {
            assert(t[b - 1] == s[b - 1]);
        }
        assert(white_space(s.last()));
        lemma_trim_back(t, b);
        assert(t.take(b) == s.take(b));
    }
}

/// The characters of `s` without leading and trailing white space.
pub fn trim_chars(s: &[char]) -> (res: Vec<char>)
    ensures
        res@ == trimmed(s@),
{
    let mut a: usize = 0;
    while a < s.len() && is_white_space(s[a])
        invariant
            a <= s@.len(),
            forall|j: int| 0 <= j < a ==> white_space(#[trigger] s@[j]),
        decreases s@.len() - a,
    {
        a = a + 1;
    }
    proof { lemma_trim_front(s@, a as int); }
    let mut b: usize = s.len();
    while b > a && is_white_space(s[b - 1])
        invariant
            a <= b <= s@.len(),
            forall|j: int| b <= j < s@.len() ==> white_space(#[trigger] s@[j]),
        decreases b,
    {
        b = b - 1;
    }
    let ghost t = s@.skip(a as int);
    proof {
        assert forall|j: int| b - a <= j < t.len() implies white_space(#[trigger] t[j]) by {
            assert(t[j] == s@[j + a]);
        }
        if b > a {
            assert(t[b - a - 1] == s@[b - 1]);
        }
        lemma_trim_back(t, b - a);
        assert(t.take(b - a) == s@.subrange(a as int, b as int));
    }
    let mut out: Vec<char> = Vec::new();
    let mut k = a;
    while k < b
        invariant
            a <= k <= b <= s@.len(),
            out@ == s@.subrange(a as int, k as int),
        decreases b - k,
    {
        out.push(s[k]);
        k = k + 1;
        assert(s@.subrange(a as int, k as int) == s@.subrange(a as int, k - 1).push(s@[k - 1]));
    }
    out
}

/// Whether every character of `s` is `c`.
pub open spec fn all_char(s: Seq<char>, c: char) -> bool {
    forall|k: int| 0 <= k < s.len() ==> s[k] == c
}

pub fn only_char(s: &[char], c: char) -> (res: bool)
    ensures
        res == all_char(s@, c),
{
    let mut k: usize = 0;
    while k < s.len()
        invariant
            k <= s@.len(),
            forall|j: int| 0 <= j < k ==> s@[j] == c,
        decreases s@.len() - k,
    {
        if s[k] != c {
            return false;
        }
        k = k + 1;
    }
    true
}

/// The characters of the three texts one after another.
pub fn concat3(a: &str, b: &str, c: &str) -> (res: String)
    ensures
        res@ == a@ + b@ + c@,
{
    let ab = concat(a, b);
    concat(ab.as_str(), c)
}

/// The characters of the five texts one after another.
pub fn concat5(a: &str, b: &str, c: &str, d: &str, e: &str) -> (res: String)
    ensures
        res@ == a@ + b@ + c@ + d@ + e@,
{
    let abc = concat3(a, b, c);
    concat3(abc.as_str(), d, e)
}

} // verus!
