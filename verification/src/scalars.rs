//! A scalar node read as one string, as identities and typed values need it.
use vstd::prelude::*;

use crate::asset::{span_text, Asset};
use crate::packed::PackedElement;
use crate::syntax::{CoreError, Node, NodeKind, ScalarStyle};
use crate::text::{chars_of, string_of, trim_chars, trimmed};

verus! {

/// A source-proven reading of a scalar spelling that raw YAML leaves
/// ambiguous: the field is a string, a boolean, an integer, a float, or a
/// packed array of the given element.
#[derive(Debug, Clone, Copy, PartialEq, Eq, Structural)]
pub enum ScalarHint {
    String,
    Boolean,
    Integer,
    Float,
    PackedArray(PackedElement),
}

/// What `serde_yaml::from_str::<String>` makes of a text: the string it
/// decodes, or the display text of the error it reports.
pub uninterp spec fn yaml_string_value(raw: Seq<char>) -> Result<Seq<char>, Seq<char>>;

/// Decodes a YAML text that holds one string.
///
/// Calls `serde_yaml::from_str::<String>` and keeps the string, or the
/// error's display text. Both are named by `yaml_string_value` of the text.
#[verifier::external_body]
fn yaml_string(raw: &str) -> (res: Result<String, String>)
    ensures
        match yaml_string_value(raw@) {
            Ok(v) => res matches Ok(s) && s@ == v,
            Err(m) => res matches Err(e) && e@ == m,
        },
{
    serde_yaml::from_str::<String>(raw).map_err(|e| e.to_string())
}

/// Whether `s` holds a line feed.
pub open spec fn has_line_feed(s: Seq<char>) -> bool {
    exists|k: int| 0 <= k < s.len() && s[k] == '\n'
}

fn contains_line_feed(s: &str) -> (res: bool)
    ensures
        res == has_line_feed(s@),
{
    let cs = chars_of(s);
    let mut k: usize = 0;
    while k < cs.len()
        invariant
            k <= cs@.len(),
            cs@ == s@,
            forall|m: int| 0 <= m < k ==> cs@[m] != '\n',
        decreases cs@.len() - k,
    {
        if cs[k] == '\n' {
            return true;
        }
        k = k + 1;
    }
    false
}

/// What reading a scalar node as one string gives: the empty string for
/// an empty scalar; the trimmed text of a plain or null scalar on one line;
/// otherwise what YAML decoding of its text gives.
pub open spec fn scalar_string_spec(text: Seq<char>, style: ScalarStyle) -> Result<Seq<char>, Seq<char>> {
    if style is Empty {
        Ok(Seq::empty())
    } else if (style is Plain || style is Null) && !has_line_feed(text) {
        Ok(trimmed(text))
    } else {
        yaml_string_value(text)
    }
}

/// Reads a scalar node as one string. Identity-looking values stay lexical
/// strings: a single-line plain scalar is its trimmed text, and only folded
/// or quoted text goes through YAML decoding. A node that is not a scalar
/// is refused with `reference_value`; text YAML cannot read as a string is
/// refused with `scalar_value`; both at the node's start.
pub fn scalar_string(asset: &Asset, node: &Node) -> (res: Result<String, CoreError>)
    requires
        node.span.within(asset.bytes@.len() as int),
    ensures
        !(node.kind is Scalar) ==> (res matches Err(e) && e.code@ == "reference_value"@ && e.offset == node.span.start),
        node.kind matches NodeKind::Scalar(style) ==> match scalar_string_spec(span_text(asset.bytes@, node.span), style) {
            Ok(v) => res matches Ok(s) && s@ == v,
            Err(m) => res matches Err(e) && e.code@ == "scalar_value"@ && e.message@ == m && e.offset == node.span.start,
        },
{
    let style = match node.kind {
        NodeKind::Scalar(style) => style,
        _ => {
            return Err(CoreError::new("reference_value", "reference identity must be scalar", node.span.start));
        },
    };
    let raw = asset.text(node.span);
    let plain = match style {
        ScalarStyle::Empty => {
            return Ok(String::new());
        },
        ScalarStyle::Plain | ScalarStyle::Null => true,
        _ => false,
    };
    if plain && !contains_line_feed(raw.as_str()) {
        let chars = chars_of(raw.as_str());
        return Ok(string_of(trim_chars(chars.as_slice()).as_slice()));
    }
    match yaml_string(raw.as_str()) {
        Ok(s) => Ok(s),
        Err(m) => Err(CoreError::new("scalar_value", m.as_str(), node.span.start)),
    }
}

} // verus!
