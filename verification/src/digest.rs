//! BLAKE3 digests of byte strings and their lowercase hexadecimal spelling.
use vstd::prelude::*;

verus! {

/// The 32-byte BLAKE3 digest of a byte string.
pub uninterp spec fn blake3_digest(data: Seq<u8>) -> Seq<u8>;

/// Hashes `data` with BLAKE3.
///
/// Calls `blake3::hash` and copies out `Hash::as_bytes`. The result is named
/// by `blake3_digest` of the input; BLAKE3's output is 32 bytes long.
#[verifier::external_body]
pub(crate) fn blake3_hash(data: &[u8]) -> (res: [u8; 32])
    ensures
        res@ == blake3_digest(data@),
        res@.len() == 32,
{
    *blake3::hash(data).as_bytes()
}

/// The lowercase hexadecimal character of a nibble.
pub open spec fn hex_char(n: u8) -> char {
    if n < 10 {
        ((n + 48) as u8) as char
    } else {
        ((n + 87) as u8) as char
    }
}

/// Two lowercase hexadecimal characters per byte, high nibble first.
pub open spec fn hex_spec(bytes: Seq<u8>) -> Seq<char>
    decreases bytes.len(),
{
    if bytes.len() == 0 {
        Seq::empty()
    } else {
        hex_spec(bytes.drop_last()) + seq![hex_char(bytes.last() / 16), hex_char(bytes.last() % 16)]
    }
}

fn nibble(n: u8) -> (c: char)
    requires
        n < 16,
    ensures
        c == hex_char(n),
{
    if n < 10 {
        ((n + 48) as u8) as char
    } else {
        ((n + 87) as u8) as char
    }
}

/// Lowercase hexadecimal spelling of bytes, as `blake3::Hash::to_hex` writes
/// a digest.
pub fn hex(bytes: &[u8]) -> (res: Vec<char>)
    ensures
        res@ == hex_spec(bytes@),
        res@.len() == 2 * bytes@.len(),
{
    let mut out: Vec<char> = Vec::new();
    let mut i: usize = 0;
    while i < bytes.len()
        invariant
            i <= bytes@.len(),
            out@ == hex_spec(bytes@.take(i as int)),
            out@.len() == 2 * i,
        decreases bytes@.len() - i,
    {
        let b = bytes[i];
        out.push(nibble(b / 16));
        out.push(nibble(b % 16));
        assert(bytes@.take(i + 1).drop_last() == bytes@.take(i as int));
        i = i + 1;
    }
    assert(bytes@.take(bytes@.len() as int) == bytes@);
    out
}

/// The lowercase hexadecimal BLAKE3 digest of `data`.
pub fn content_hash(data: &[u8]) -> (res: String)
    ensures
        res@ == hex_spec(blake3_digest(data@)),
{
    let digest = blake3_hash(data);
    let chars = hex(&digest);
    crate::text::string_of(chars.as_slice())
}

} // verus!
