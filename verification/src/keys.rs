//! Mapping keys: plain, single-quoted or JSON-compatible double-quoted.
use vstd::prelude::*;
use vstd::utf8::*;

use crate::text::{chars_of, decode_bytes, string_of};

verus! {

/// What `serde_json::from_str::<String>` makes of a text: the decoded string
/// when the text is one JSON string literal, `None` otherwise.
pub uninterp spec fn json_string_value(raw: Seq<char>) -> Option<Seq<char>>;

/// Decodes a JSON string literal.
///
/// Calls `serde_json::from_str::<String>` and keeps the value on success. The
/// result, including whether there is one, is named by `json_string_value`
/// of the text.
#[verifier::external_body]
fn json_string(raw: &str) -> (res: Option<String>)
    ensures
        res is Some <==> json_string_value(raw@) is Some,
        res matches Some(s) ==> json_string_value(raw@) == Some(s@),
{
    serde_json::from_str::<String>(raw).ok()
}

/// `''` stands for one quote inside a single-quoted scalar.
pub open spec fn unquote_single(s: Seq<char>) -> Seq<char>
    decreases s.len(),
{
    if s.len() == 0 {
        Seq::empty()
    } else if s.len() >= 2 && s[0] == '\'' && s[1] == '\'' {
        seq!['\''] + unquote_single(s.skip(2))
    } else {
        seq![s[0]] + unquote_single(s.skip(1))
    }
}

fn unquote(s: &Vec<char>) -> (res: Vec<char>)
    ensures
        res@ == unquote_single(s@),
{
    let mut out: Vec<char> = Vec::new();
    let mut i: usize = 0;
    assert(s@.skip(0) == s@);
    assert(out@ + unquote_single(s@) == unquote_single(s@));
    while i < s.len()
        invariant
            i <= s@.len(),
            out@ + unquote_single(s@.skip(i as int)) == unquote_single(s@),
        decreases s@.len() - i,
    {
        let ghost rest = s@.skip(i as int);
        if i + 1 < s.len() && s[i] == '\'' && s[i + 1] == '\'' {
            out.push('\'');
            assert(rest.skip(2) == s@.skip(i + 2));
            i = i + 2;
        } else {
            out.push(s[i]);
            assert(rest.skip(1) == s@.skip(i + 1));
            i = i + 1;
        }
    }
    assert(s@.skip(i as int).len() == 0);
    out
}

/// Whether a key's first byte makes it a complex key (`?`, `[`, `{`, `!`,
/// `&`, `*`), which the Unity dialect never writes.
pub open spec fn complex_key_start(b: u8) -> bool {
    b == 0x3f || b == 0x5b || b == 0x7b || b == 0x21 || b == 0x26 || b == 0x2a
}

/// The key spelled by the raw (valid UTF-8) bytes between a key's start and
/// its `:`, or `None` where the dialect rejects the spelling.
pub open spec fn key_value(raw: Seq<u8>) -> Option<Seq<char>> {
    if raw.len() == 0 {
        None
    } else if raw[0] == 0x22 {
        json_string_value(decode_utf8(raw))
    } else if raw[0] == 0x27 {
        if raw.len() < 2 || raw.last() != 0x27 {
            None
        } else {
            Some(unquote_single(decode_utf8(raw.subrange(1, raw.len() - 1))))
        }
    } else if complex_key_start(raw[0]) {
        None
    } else {
        Some(decode_utf8(raw))
    }
}

/// Decodes the key spelled by the raw bytes between a key's start and its `:`.
pub fn decode_key(raw: &[u8]) -> (res: Result<String, &'static str>)
    ensures
        res matches Ok(k) ==> valid_utf8(raw@) && key_value(raw@) == Some(k@),
        valid_utf8(raw@) ==> (res is Ok <==> key_value(raw@) is Some),
{
    if raw.len() == 0 {
        return Err("empty mapping key");
    }
    let text = match decode_bytes(raw) {
        Ok(t) => t,
        Err(_) => return Err("key is not UTF-8 text"),
    };
    let first = raw[0];
    if first == 0x22 {
        return match json_string(text.as_str()) {
            Some(s) => Ok(s),
            None => Err("unsupported quoted key escape"),
        };
    }
    if first == 0x27 {
        let n = raw.len();
        if n < 2 || raw[n - 1] != 0x27 {
            return Err("unterminated quoted key");
        }
        proof {
            crate::text::lemma_boundary_after_ascii(raw@, 0);
            crate::text::lemma_utf8_subrange(raw@, 1, n - 1);
        }
        let inner = match decode_bytes(crate::syntax::slice_range(raw, 1, n - 1)) {
            Ok(t) => t,
            Err(_) => return Err("unterminated quoted key"),
        };
        let chars = chars_of(inner.as_str());
        let unquoted = unquote(&chars);
        return Ok(string_of(unquoted.as_slice()));
    }
    if first == 0x3f || first == 0x5b || first == 0x7b || first == 0x21 || first == 0x26 || first
        == 0x2a {
        return Err("complex mapping keys are outside the Unity dialect");
    }
    Ok(text)
}

} // verus!
