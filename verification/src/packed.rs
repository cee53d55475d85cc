//! Unity's compact primitive-array scalar codec: each element is its
//! little-endian bytes in hexadecimal. The element type must come from
//! schema evidence; hexadecimal appearance alone proves nothing.
//!
//! This module covers the boolean and integer element types; the float
//! element types are decoded and encoded by the host program.
use vstd::prelude::*;

use crate::digest::{hex, hex_char, hex_spec};
use crate::fingerprint::le_bytes;
use crate::syntax::CoreError;
use crate::text::{chars_of, concat, concat5, decimal_digits, decimal_u64, is_white_space, string_of, trim_chars, trimmed, white_space};
use crate::validation::is_hex_char;

verus! {

#[derive(Debug, Clone, Copy, PartialEq, Eq, Structural)]
pub enum PackedElement {
    Bool,
    I8,
    U8,
    I16,
    U16,
    I32,
    U32,
    I64,
    U64,
    F32,
    F64,
}

impl PackedElement {
    /// Bytes per element.
    pub open spec fn spec_width(self) -> nat {
        match self {
            PackedElement::Bool | PackedElement::I8 | PackedElement::U8 => 1,
            PackedElement::I16 | PackedElement::U16 => 2,
            PackedElement::I32 | PackedElement::U32 | PackedElement::F32 => 4,
            PackedElement::I64 | PackedElement::U64 | PackedElement::F64 => 8,
        }
    }

    pub fn width(self) -> (res: usize)
        ensures
            res == self.spec_width(),
    {
        match self {
            PackedElement::Bool | PackedElement::I8 | PackedElement::U8 => 1,
            PackedElement::I16 | PackedElement::U16 => 2,
            PackedElement::I32 | PackedElement::U32 | PackedElement::F32 => 4,
            PackedElement::I64 | PackedElement::U64 | PackedElement::F64 => 8,
        }
    }

    /// The boolean and integer element types.
    pub open spec fn is_integer(self) -> bool {
        !(self is F32 || self is F64)
    }

    pub open spec fn signed(self) -> bool {
        self is I8 || self is I16 || self is I32 || self is I64
    }

    /// `256` to the power of the width.
    pub open spec fn modulus(self) -> nat {
        match self {
            PackedElement::Bool | PackedElement::I8 | PackedElement::U8 => 0x100,
            PackedElement::I16 | PackedElement::U16 => 0x1_0000,
            PackedElement::I32 | PackedElement::U32 | PackedElement::F32 => 0x1_0000_0000,
            PackedElement::I64 | PackedElement::U64 | PackedElement::F64 => 0x1_0000_0000_0000_0000,
        }
    }

    /// The least value of the element type.
    pub open spec fn low(self) -> int {
        match self {
            PackedElement::I8 => -0x80,
            PackedElement::I16 => -0x8000,
            PackedElement::I32 => -0x8000_0000,
            PackedElement::I64 => -0x8000_0000_0000_0000,
            _ => 0,
        }
    }

    /// The greatest value of the element type.
    pub open spec fn high(self) -> int {
        match self {
            PackedElement::Bool => 1,
            PackedElement::I8 => 0x7f,
            PackedElement::U8 => 0xff,
            PackedElement::I16 => 0x7fff,
            PackedElement::U16 => 0xffff,
            PackedElement::I32 => 0x7fff_ffff,
            PackedElement::U32 => 0xffff_ffff,
            PackedElement::I64 => 0x7fff_ffff_ffff_ffff,
            PackedElement::U64 => 0xffff_ffff_ffff_ffff,
            _ => 0,
        }
    }

    /// The element type's `Debug` name.
    pub open spec fn debug_name(self) -> Seq<char> {
        match self {
            PackedElement::Bool => "Bool"@,
            PackedElement::I8 => "I8"@,
            PackedElement::U8 => "U8"@,
            PackedElement::I16 => "I16"@,
            PackedElement::U16 => "U16"@,
            PackedElement::I32 => "I32"@,
            PackedElement::U32 => "U32"@,
            PackedElement::I64 => "I64"@,
            PackedElement::U64 => "U64"@,
            PackedElement::F32 => "F32"@,
            PackedElement::F64 => "F64"@,
        }
    }

    fn name_text(self) -> (res: &'static str)
        ensures
            res@ == self.debug_name(),
    {
        match self {
            PackedElement::Bool => "Bool",
            PackedElement::I8 => "I8",
            PackedElement::U8 => "U8",
            PackedElement::I16 => "I16",
            PackedElement::U16 => "U16",
            PackedElement::I32 => "I32",
            PackedElement::U32 => "U32",
            PackedElement::I64 => "I64",
            PackedElement::U64 => "U64",
            PackedElement::F32 => "F32",
            PackedElement::F64 => "F64",
        }
    }
}

/// `256` to the power `k`.
pub open spec fn pow256(k: nat) -> nat
    decreases k,
{
    if k == 0 { 1 } else { 256 * pow256((k - 1) as nat) }
}

/// The value of a hexadecimal digit of either case.
pub open spec fn hex_value(c: char) -> nat {
    if '0' <= c && c <= '9' {
        (c as u32 - '0' as u32) as nat
    } else if 'a' <= c && c <= 'f' {
        (c as u32 - 'a' as u32 + 10) as nat
    } else {
        (c as u32 - 'A' as u32 + 10) as nat
    }
}

/// The byte spelled by the two hex digits at `k`.
pub open spec fn pair_byte(t: Seq<char>, k: int) -> u8 {
    (hex_value(t[k]) * 16 + hex_value(t[k + 1])) as u8
}

/// The `w` bytes spelled from position `start` on.
pub open spec fn chunk_bytes(t: Seq<char>, start: int, w: nat) -> Seq<u8> {
    Seq::new(w, |j: int| pair_byte(t, start + 2 * j))
}

/// The number little-endian bytes spell.
pub open spec fn le_value(bs: Seq<u8>) -> nat
    decreases bs.len(),
{
    if bs.len() == 0 {
        0
    } else {
        (bs[0] + 256 * le_value(bs.drop_first())) as nat
    }
}

/// The element little-endian bytes spell, as two's complement for the
/// signed types.
pub open spec fn element_value(e: PackedElement, bs: Seq<u8>) -> int {
    let u = le_value(bs);
    if e.signed() && u * 2 >= e.modulus() {
        u - e.modulus()
    } else {
        u as int
    }
}

pub open spec fn all_hex_text(t: Seq<char>) -> bool {
    forall|k: int| 0 <= k < t.len() ==> is_hex_char(#[trigger] t[k])
}

pub open spec fn group_message(e: PackedElement) -> Seq<char> {
    "compact "@ + e.debug_name() + " array requires hexadecimal groups of "@ + decimal_digits(2 * e.spec_width()) + " characters"@
}

/// Whether some boolean element byte is neither 0 nor 1.
pub open spec fn bad_boolean(t: Seq<char>, n: int) -> bool {
    exists|i: int| 0 <= i < n && #[trigger] pair_byte(t, 2 * i) > 1
}

/// What decoding a compact array scalar gives: its (trimmed) text must be
/// whole groups of hex digits, no more groups than the parser's node budget
/// (two million), and booleans must be 0 or 1.
pub open spec fn decode_spec(raw: Seq<char>, e: PackedElement) -> Result<Seq<int>, Seq<char>> {
    let t = trimmed(raw);
    let g = 2 * e.spec_width();
    let n = t.len() / g;
    if t.len() % g != 0 || !all_hex_text(t) {
        Err(group_message(e))
    } else if n > 2_000_000 {
        Err("compact array exceeds node limit"@)
    } else if e is Bool && bad_boolean(t, n as int) {
        Err("compact boolean elements must be 0 or 1"@)
    } else {
        Ok(Seq::new(n, |i: int| element_value(e, chunk_bytes(t, i * g, e.spec_width()))))
    }
}

/// The hex of one element, or why it cannot be written.
pub open spec fn value_hex(e: PackedElement, v: int) -> Result<Seq<char>, Seq<char>> {
    if e is Bool {
        if v == 0 || v == 1 {
            Ok(hex_spec(seq![v as u8]))
        } else {
            Err("compact boolean writes require boolean or integer 0/1"@)
        }
    } else if v < e.low() || v > e.high() {
        Err("value exceeds "@ + e.debug_name() + " element range"@)
    } else {
        Ok(hex_spec(le_bytes((v % (e.modulus() as int)) as nat, e.spec_width())))
    }
}

/// What encoding gives: the elements' hex one after another, or the first
/// element's error.
pub open spec fn encode_spec(vs: Seq<int>, e: PackedElement) -> Result<Seq<char>, Seq<char>>
    decreases vs.len(),
{
    if vs.len() == 0 {
        Ok(Seq::empty())
    } else {
        match encode_spec(vs.drop_last(), e) {
            Err(m) => Err(m),
            Ok(s) => match value_hex(e, vs.last()) {
                Err(m) => Err(m),
                Ok(h) => Ok(s + h),
            },
        }
    }
}

pub open spec fn ints(v: Seq<i128>) -> Seq<int> {
    v.map_values(|x: i128| x as int)
}

fn packed_error(message: String) -> (res: CoreError)
    ensures
        res.code@ == "packed_array"@,
        res.message@ == message@,
        res.offset == 0,
{
    CoreError { code: "packed_array".to_owned(), message, offset: 0 }
}

fn hex_digit_value(c: char) -> (res: u8)
    requires
        is_hex_char(c),
    ensures
        res as nat == hex_value(c),
        res < 16,
{
    if '0' <= c && c <= '9' {
        (c as u32 - '0' as u32) as u8
    } else if 'a' <= c && c <= 'f' {
        (c as u32 - 'a' as u32 + 10) as u8
    } else {
        (c as u32 - 'A' as u32 + 10) as u8
    }
}

fn modulus_of(e: PackedElement) -> (res: u128)
    ensures
        res as nat == e.modulus(),
{
    match e {
        PackedElement::Bool | PackedElement::I8 | PackedElement::U8 => 0x100,
        PackedElement::I16 | PackedElement::U16 => 0x1_0000,
        PackedElement::I32 | PackedElement::U32 | PackedElement::F32 => 0x1_0000_0000,
        PackedElement::I64 | PackedElement::U64 | PackedElement::F64 => 0x1_0000_0000_0000_0000,
    }
}

fn is_signed(e: PackedElement) -> (res: bool)
    ensures
        res == e.signed(),
{
    match e {
        PackedElement::I8 | PackedElement::I16 | PackedElement::I32 | PackedElement::I64 => true,
        _ => false,
    }
}

proof fn lemma_le_value_bound(bs: Seq<u8>)
    ensures
        le_value(bs) < pow256(bs.len()),
    decreases bs.len(),
{
    if bs.len() > 0 {
        lemma_le_value_bound(bs.drop_first());
        let p = pow256((bs.len() - 1) as nat);
        assert(bs[0] + 256 * le_value(bs.drop_first()) < 256 * p) by (nonlinear_arith)
            requires
                bs[0] < 256,
                le_value(bs.drop_first()) < p,
        ;
    }
}

proof fn lemma_modulus_pow(e: PackedElement)
    ensures
        e.modulus() == pow256(e.spec_width()),
{
    assert(pow256(1) == 256) by { reveal_with_fuel(pow256, 9); }
    assert(pow256(2) == 0x1_0000) by { reveal_with_fuel(pow256, 9); }
    assert(pow256(4) == 0x1_0000_0000) by { reveal_with_fuel(pow256, 9); }
    assert(pow256(8) == 0x1_0000_0000_0000_0000) by { reveal_with_fuel(pow256, 9); }
}

proof fn lemma_pow256_mono(a: nat, b: nat)
    requires
        a <= b,
    ensures
        pow256(a) <= pow256(b),
    decreases b,
{
    if a < b {
        lemma_pow256_mono(a, (b - 1) as nat);
        assert(pow256(b) == 256 * pow256((b - 1) as nat));
    }
}

proof fn lemma_le_value_skip(bs: Seq<u8>, j: int)
    requires
        0 <= j < bs.len(),
    ensures
        le_value(bs.skip(j)) == bs[j] + 256 * le_value(bs.skip(j + 1)),
{
    assert(bs.skip(j)[0] == bs[j]);
    assert(bs.skip(j).drop_first() == bs.skip(j + 1));
}

/// Decodes a compact array of boolean or integer elements.
pub fn decode_integers(raw: &str, element: PackedElement) -> (res: Result<Vec<i128>, CoreError>)
    requires
        element.is_integer(),
    ensures
        decode_spec(raw@, element) matches Ok(vs) ==> res matches Ok(v) && ints(v@) == vs,
        decode_spec(raw@, element) matches Err(m) ==> res matches Err(e) && e.code@ == "packed_array"@ && e.message@ == m && e.offset == 0,
{
    let chars = chars_of(raw);
    let t = trim_chars(chars.as_slice());
    let ghost tv = t@;
    assert(t@.len() == t.len());
    let w = element.width();
    let g = 2 * w;
    let ghost gi = g as int;
    if t.len() % g != 0 || !all_hex_chars(t.as_slice()) {
        let digits = decimal_u64(g as u64);
        let count = string_of(digits.as_slice());
        let m = concat5("compact ", element.name_text(), " array requires hexadecimal groups of ", count.as_str(), " characters");
        return Err(packed_error(m));
    }
    let n = t.len() / g;
    if n > 2_000_000 {
        return Err(packed_error("compact array exceeds node limit".to_owned()));
    }
    proof {
        assert(tv.len() == n * gi) by (nonlinear_arith)
            requires
                (tv.len() as int) % gi == 0,
                n == (tv.len() as int) / gi,
                gi > 0,
        ;
        lemma_modulus_pow(element);
    }
    let modulus = modulus_of(element);
    let signed = is_signed(element);
    let ghost spec_values = Seq::new(n as nat, |i: int| element_value(element, chunk_bytes(tv, i * gi, w as nat)));
    let mut values: Vec<i128> = Vec::new();
    let mut i: usize = 0;
    while i < n
        invariant
            i <= n,
            n <= 2_000_000,
            tv == t@,
            tv == trimmed(raw@),
            (tv.len() as int) % gi == 0,
            n as int == (tv.len() as int) / gi,
            tv.len() == n * gi,
            gi == 2 * w,
            g == gi,
            1 <= w <= 8,
            w == element.spec_width(),
            element.is_integer(),
            all_hex_text(tv),
            modulus as nat == element.modulus(),
            element.modulus() == pow256(w as nat),
            signed == element.signed(),
            spec_values == Seq::new(n as nat, |i: int| element_value(element, chunk_bytes(tv, i * gi, w as nat))),
            ints(values@) == spec_values.take(i as int),
            element is Bool ==> forall|q: int| 0 <= q < i ==> #[trigger] pair_byte(tv, 2 * q) <= 1,
        decreases n - i,
    {
        proof {
            assert(i * gi <= 2_000_000 * 16) by (nonlinear_arith)
                requires
                    i < n,
                    n <= 2_000_000,
                    0 < gi <= 16,
            ;
            assert((i + 1) * gi <= n * gi) by (nonlinear_arith)
                requires
                    i + 1 <= n,
                    gi > 0,
            ;
            assert((i + 1) * gi == i * gi + gi) by (nonlinear_arith);
        }
        let start = i * g;
        let ghost bs = chunk_bytes(tv, start as int, w as nat);
        let mut acc: u128 = 0;
        let mut j = w;
        assert(bs.skip(w as int) =~= Seq::<u8>::empty());
        while j > 0
            invariant
                j <= w <= 8,
                start + 2 * w <= tv.len(),
                tv == t@,
                t@.len() == t.len(),
                all_hex_text(tv),
                bs == chunk_bytes(tv, start as int, w as nat),
                acc as nat == le_value(bs.skip(j as int)),
                acc < pow256((w - j) as nat),
            decreases j,
        {
            let k = start + 2 * (j - 1);
            let hi = hex_digit_value(t[k]);
            let lo = hex_digit_value(t[k + 1]);
            let byte = hi * 16 + lo;
            proof {
                assert(bs[j - 1] == pair_byte(tv, start + 2 * (j - 1)));
                assert(byte == pair_byte(tv, k as int));
                lemma_le_value_skip(bs, j - 1);
                let p = pow256((w - j) as nat);
                assert(p <= pow256(7)) by {
                    lemma_pow256_mono((w - j) as nat, 7);
                }
                assert(pow256(7) == 0x100_0000_0000_0000) by { reveal_with_fuel(pow256, 9); }
                assert(acc * 256 + byte < 256 * p) by (nonlinear_arith)
                    requires
                        acc < p,
                        byte < 256,
                ;
                assert(256 * p <= 0x1_0000_0000_0000_0000) by (nonlinear_arith)
                    requires
                        p <= 0x100_0000_0000_0000,
                ;
            }
            acc = acc * 256 + byte as u128;
            j = j - 1;
        }
        proof {
            assert(bs.skip(0) == bs);
            assert(w - 0 == w);
        }
        let value: i128 = if signed && acc * 2 >= modulus {
            acc as i128 - modulus as i128
        } else {
            acc as i128
        };
        if element == PackedElement::Bool && pair_value(t.as_slice(), start) > 1 {
            proof {
                assert(g == 2);
                assert(start == i * 2);
                assert(pair_byte(tv, 2 * i) > 1);
                assert(bad_boolean(tv, n as int));
            }
            return Err(packed_error("compact boolean elements must be 0 or 1".to_owned()));
        }
        proof {
            assert(value as int == element_value(element, bs));
            assert(spec_values[i as int] == element_value(element, chunk_bytes(tv, i * gi, w as nat)));
            assert(i * gi == start);
        }
        let ghost before = ints(values@);
        values.push(value);
        proof {
            assert(ints(values@) =~= before.push(value as int));
            assert(spec_values.take(i + 1) =~= spec_values.take(i as int).push(spec_values[i as int]));
            if element is Bool {
                assert(g == 2);
                assert(start == i * 2);
            }
        }
        i = i + 1;
    }
    proof {
        assert(spec_values.take(n as int) == spec_values);
        if element is Bool {
            assert(!bad_boolean(tv, n as int));
        }
    }
    Ok(values)
}

fn pair_value(t: &[char], k: usize) -> (res: u8)
    requires
        k + 1 < t@.len(),
        is_hex_char(t@[k as int]),
        is_hex_char(t@[k + 1]),
    ensures
        res == pair_byte(t@, k as int),
{
    hex_digit_value(t[k]) * 16 + hex_digit_value(t[k + 1])
}

fn all_hex_chars(t: &[char]) -> (res: bool)
    ensures
        res == all_hex_text(t@),
{
    let mut k: usize = 0;
    while k < t.len()
        invariant
            k <= t@.len(),
            forall|j: int| 0 <= j < k ==> is_hex_char(#[trigger] t@[j]),
        decreases t@.len() - k,
    {
        let c = t[k];
        if !(('0' <= c && c <= '9') || ('a' <= c && c <= 'f') || ('A' <= c && c <= 'F')) {
            assert(!is_hex_char(t@[k as int]));
            return false;
        }
        k = k + 1;
    }
    true
}

fn bounds_of(e: PackedElement) -> (res: (i128, i128))
    ensures
        res.0 as int == e.low(),
        res.1 as int == e.high(),
{
    match e {
        PackedElement::Bool => (0, 1),
        PackedElement::I8 => (-0x80, 0x7f),
        PackedElement::U8 => (0, 0xff),
        PackedElement::I16 => (-0x8000, 0x7fff),
        PackedElement::U16 => (0, 0xffff),
        PackedElement::I32 => (-0x8000_0000, 0x7fff_ffff),
        PackedElement::U32 => (0, 0xffff_ffff),
        PackedElement::I64 => (-0x8000_0000_0000_0000, 0x7fff_ffff_ffff_ffff),
        PackedElement::U64 => (0, 0xffff_ffff_ffff_ffff),
        _ => (0, 0),
    }
}

/// The `w` low-order bytes of `m`, least significant first.
fn low_bytes(m: u128, w: usize) -> (res: Vec<u8>)
    ensures
        res@ == le_bytes(m as nat, w as nat),
{
    let mut out: Vec<u8> = Vec::new();
    let mut rest = m;
    let mut k: usize = 0;
    while k < w
        invariant
            k <= w,
            out@ + le_bytes(rest as nat, (w - k) as nat) == le_bytes(m as nat, w as nat),
        decreases w - k,
    {
        let ghost before = out@;
        out.push((rest % 256) as u8);
        proof {
            let tail = le_bytes((rest / 256) as nat, (w - k - 1) as nat);
            assert(le_bytes(rest as nat, (w - k) as nat) == seq![(rest % 256) as u8] + tail);
            assert(out@ + tail == before + (seq![(rest % 256) as u8] + tail));
        }
        rest = rest / 256;
        k = k + 1;
    }
    assert(out@ + Seq::<u8>::empty() == out@);
    out
}

/// The hex of one element.
fn element_hex(e: PackedElement, v: i128) -> (res: Result<Vec<char>, String>)
    requires
        e.is_integer(),
    ensures
        value_hex(e, v as int) matches Ok(h) ==> res matches Ok(x) && x@ == h,
        value_hex(e, v as int) matches Err(m) ==> res matches Err(x) && x@ == m,
{
    if e == PackedElement::Bool {
        if v == 0 || v == 1 {
            let b: Vec<u8> = vec![v as u8];
            assert(b@ =~= seq![v as u8]);
            return Ok(hex(b.as_slice()));
        }
        return Err("compact boolean writes require boolean or integer 0/1".to_owned());
    }
    let (low, high) = bounds_of(e);
    if v < low || v > high {
        return Err(crate::text::concat3("value exceeds ", e.name_text(), " element range"));
    }
    let modulus = modulus_of(e);
    let ghost mi = modulus as int;
    let m: u128 = if v < 0 {
        (v + modulus as i128) as u128
    } else {
        v as u128
    };
    proof {
        if v < 0 {
            vstd::arithmetic::div_mod::lemma_mod_add_multiples_vanish(v as int, mi);
            vstd::arithmetic::div_mod::lemma_small_mod((v + mi) as nat, mi as nat);
        } else {
            vstd::arithmetic::div_mod::lemma_small_mod(v as nat, mi as nat);
        }
        assert(m as int == (v as int) % mi);
    }
    let bytes = low_bytes(m, e.width());
    Ok(hex(bytes.as_slice()))
}

/// Encodes boolean or integer elements as a compact array scalar.
pub fn encode_integers(values: &[i128], element: PackedElement) -> (res: Result<String, CoreError>)
    requires
        element.is_integer(),
    ensures
        encode_spec(ints(values@), element) matches Ok(s) ==> res matches Ok(x) && x@ == s,
        encode_spec(ints(values@), element) matches Err(m) ==> res matches Err(e) && e.code@ == "packed_array"@ && e.message@ == m && e.offset == 0,
{
    let mut out: Vec<char> = Vec::new();
    let mut k: usize = 0;
    assert(ints(values@).take(0) =~= Seq::<int>::empty());
    while k < values.len()
        invariant
            k <= values@.len(),
            element.is_integer(),
            encode_spec(ints(values@).take(k as int), element) == Ok::<Seq<char>, Seq<char>>(out@),
        decreases values@.len() - k,
    {
        let ghost prefix = ints(values@).take(k + 1);
        assert(prefix.drop_last() =~= ints(values@).take(k as int));
        assert(prefix.last() == values@[k as int] as int);
        match element_hex(element, values[k]) {
            Ok(h) => {
                let mut q: usize = 0;
                let ghost before = out@;
                while q < h.len()
                    invariant
                        q <= h@.len(),
                        out@ == before + h@.take(q as int),
                    decreases h@.len() - q,
                {
                    out.push(h[q]);
                    q = q + 1;
                    assert(h@.take(q as int) =~= h@.take(q - 1).push(h@[q - 1]));
                }
                assert(h@.take(h@.len() as int) == h@);
            },
            Err(m) => {
                proof {
                    let rest = ints(values@).take(k as int);
                    assert(encode_spec(ints(values@).take(k + 1), element) == Err::<Seq<char>, Seq<char>>(m@));
                    lemma_encode_error_stays(ints(values@), element, k + 1);
                }
                return Err(packed_error(m));
            },
        }
        k = k + 1;
    }
    assert(ints(values@).take(values@.len() as int) == ints(values@));
    Ok(string_of(out.as_slice()))
}

/// Once a prefix fails to encode, the whole sequence fails the same way.
proof fn lemma_encode_error_stays(vs: Seq<int>, e: PackedElement, k: int)
    requires
        0 <= k <= vs.len(),
        encode_spec(vs.take(k), e) is Err,
    ensures
        encode_spec(vs, e) == encode_spec(vs.take(k), e),
    decreases vs.len() - k,
{
    if k == vs.len() {
        assert(vs.take(k) == vs);
    } else {
        let longer = vs.take(k + 1);
        assert(longer.drop_last() == vs.take(k));
        lemma_encode_error_stays(vs, e, k + 1);
    }
}

// ---------------------------------------------------------------------------
// The round trip.

/// The hex one in-range element encodes to.
pub open spec fn element_text(e: PackedElement, v: int) -> Seq<char> {
    hex_spec(le_bytes((v % (e.modulus() as int)) as nat, e.spec_width()))
}

/// The hex of elements one after another.
pub open spec fn elements_text(vs: Seq<int>, e: PackedElement) -> Seq<char>
    decreases vs.len(),
{
    if vs.len() == 0 {
        Seq::empty()
    } else {
        elements_text(vs.drop_last(), e) + element_text(e, vs.last())
    }
}

/// Every element lies in the element type's range.
pub open spec fn in_range(vs: Seq<int>, e: PackedElement) -> bool {
    forall|i: int| 0 <= i < vs.len() ==> e.low() <= #[trigger] vs[i] <= e.high()
}

proof fn lemma_le_bytes_len(m: nat, w: nat)
    ensures
        le_bytes(m, w).len() == w,
    decreases w,
{
    if w > 0 {
        lemma_le_bytes_len(m / 256, (w - 1) as nat);
    }
}

/// Equal hexadecimal texts come from equal bytes.
pub proof fn lemma_hex_injective(a: Seq<u8>, b: Seq<u8>)
    requires
        hex_spec(a) == hex_spec(b),
    ensures
        a == b,
{
    lemma_hex_spec_len(a);
    lemma_hex_spec_len(b);
    assert forall|j: int| 0 <= j < a.len() implies a[j] == b[j] by {
        lemma_hex_spec_at(a, j);
        lemma_hex_spec_at(b, j);
        lemma_hex_char_digit(a[j] / 16);
        lemma_hex_char_digit(a[j] % 16);
        lemma_hex_char_digit(b[j] / 16);
        lemma_hex_char_digit(b[j] % 16);
        assert(a[j] == (a[j] / 16) * 16 + a[j] % 16);
        assert(b[j] == (b[j] / 16) * 16 + b[j] % 16);
    }
    assert(a =~= b);
}

proof fn lemma_hex_spec_at(bytes: Seq<u8>, j: int)
    requires
        0 <= j < bytes.len(),
    ensures
        hex_spec(bytes).len() == 2 * bytes.len(),
        hex_spec(bytes)[2 * j] == hex_char(bytes[j] / 16),
        hex_spec(bytes)[2 * j + 1] == hex_char(bytes[j] % 16),
    decreases bytes.len(),
{
    lemma_hex_spec_len(bytes);
    if j < bytes.len() - 1 {
        lemma_hex_spec_at(bytes.drop_last(), j);
        assert(bytes.drop_last()[j] == bytes[j]);
    } else {
        lemma_hex_spec_len(bytes.drop_last());
    }
}

proof fn lemma_hex_spec_len(bytes: Seq<u8>)
    ensures
        hex_spec(bytes).len() == 2 * bytes.len(),
        forall|k: int| 0 <= k < hex_spec(bytes).len() ==> is_hex_char(#[trigger] hex_spec(bytes)[k]),
    decreases bytes.len(),
{
    if bytes.len() > 0 {
        lemma_hex_spec_len(bytes.drop_last());
        let b = bytes.last();
        lemma_hex_char_digit(b / 16);
        lemma_hex_char_digit(b % 16);
        let prior = hex_spec(bytes.drop_last());
        let pair = seq![hex_char(b / 16), hex_char(b % 16)];
        assert forall|k: int| 0 <= k < hex_spec(bytes).len() implies is_hex_char(#[trigger] hex_spec(bytes)[k]) by {
            if k < prior.len() {
                assert(hex_spec(bytes)[k] == prior[k]);
            } else {
                assert(hex_spec(bytes)[k] == pair[k - prior.len()]);
            }
        }
    }
}

proof fn lemma_hex_char_digit(n: u8)
    requires
        n < 16,
    ensures
        is_hex_char(hex_char(n)),
        hex_value(hex_char(n)) == n,
        !white_space(hex_char(n)),
{
}

proof fn lemma_le_round_trip(m: nat, w: nat)
    requires
        m < pow256(w),
    ensures
        le_value(le_bytes(m, w)) == m,
    decreases w,
{
    if w == 0 {
    } else {
        let p = pow256((w - 1) as nat);
        assert(m / 256 < p) by (nonlinear_arith)
            requires
                m < 256 * p,
        ;
        lemma_le_round_trip(m / 256, (w - 1) as nat);
        let bs = le_bytes(m, w);
        assert(bs.drop_first() == le_bytes(m / 256, (w - 1) as nat));
        assert(bs[0] == (m % 256) as u8);
        assert(m % 256 + 256 * (m / 256) == m) by (nonlinear_arith);
    }
}

proof fn lemma_element_text(e: PackedElement, v: int)
    requires
        e.is_integer(),
        e.low() <= v <= e.high(),
    ensures
        value_hex(e, v) == Ok::<Seq<char>, Seq<char>>(element_text(e, v)),
        element_text(e, v).len() == 2 * e.spec_width(),
        (v % (e.modulus() as int)) < pow256(e.spec_width()),
        element_value(e, le_bytes((v % (e.modulus() as int)) as nat, e.spec_width())) == v,
{
    let mi = e.modulus() as int;
    lemma_modulus_pow(e);
    let m = v % mi;
    if v < 0 {
        vstd::arithmetic::div_mod::lemma_mod_add_multiples_vanish(v, mi);
        vstd::arithmetic::div_mod::lemma_small_mod((v + mi) as nat, mi as nat);
    } else {
        vstd::arithmetic::div_mod::lemma_small_mod(v as nat, mi as nat);
    }
    assert(0 <= m < mi);
    lemma_le_bytes_len(m as nat, e.spec_width());
    lemma_hex_spec_len(le_bytes(m as nat, e.spec_width()));
    lemma_le_round_trip(m as nat, e.spec_width());
    if e is Bool {
        assert(le_bytes(m as nat, 1) =~= seq![v as u8]);
    }
}

proof fn lemma_encode_in_range(vs: Seq<int>, e: PackedElement)
    requires
        e.is_integer(),
        in_range(vs, e),
    ensures
        encode_spec(vs, e) == Ok::<Seq<char>, Seq<char>>(elements_text(vs, e)),
        elements_text(vs, e).len() == vs.len() * (2 * e.spec_width()),
    decreases vs.len(),
{
    if vs.len() > 0 {
        assert(in_range(vs.drop_last(), e)) by {
            assert forall|i: int| 0 <= i < vs.drop_last().len() implies e.low() <= #[trigger] vs.drop_last()[i] <= e.high() by {
                assert(vs.drop_last()[i] == vs[i]);
            }
        }
        lemma_encode_in_range(vs.drop_last(), e);
        assert(e.low() <= vs[vs.len() - 1] <= e.high());
        lemma_element_text(e, vs.last());
        let g = 2 * e.spec_width();
        assert((vs.len() - 1) * g + g == vs.len() * g) by (nonlinear_arith);
    }
}

/// Position `i * g + k` of the encoding is position `k` of element `i`.
proof fn lemma_elements_text_at(vs: Seq<int>, e: PackedElement, i: int, k: int)
    requires
        e.is_integer(),
        in_range(vs, e),
        0 <= i < vs.len(),
        0 <= k < 2 * e.spec_width(),
    ensures
        elements_text(vs, e)[i * (2 * e.spec_width()) + k] == element_text(e, vs[i])[k],
    decreases vs.len(),
{
    let g = 2 * e.spec_width();
    let prior = vs.drop_last();
    assert(in_range(prior, e)) by {
        assert forall|q: int| 0 <= q < prior.len() implies e.low() <= #[trigger] prior[q] <= e.high() by {
            assert(prior[q] == vs[q]);
        }
    }
    lemma_encode_in_range(prior, e);
    assert(e.low() <= vs[vs.len() - 1] <= e.high());
    lemma_element_text(e, vs.last());
    if i < vs.len() - 1 {
        lemma_elements_text_at(prior, e, i, k);
        assert(i * g + k < prior.len() * g) by (nonlinear_arith)
            requires
                i + 1 <= prior.len(),
                0 <= k < g,
        ;
        assert(prior[i] == vs[i]);
    } else {
        assert(i * g == prior.len() * g);
    }
}

proof fn lemma_trimmed_hex(t: Seq<char>)
    requires
        all_hex_text(t),
    ensures
        trimmed(t) == t,
{
    assert(t.len() > 0 ==> !white_space(t[0]) && !white_space(t.last())) by {
        if t.len() > 0 {
            assert(is_hex_char(t[0]));
            assert(is_hex_char(t[t.len() - 1]));
        }
    }
}

/// Encoding in-range elements and decoding the text gives the elements
/// back, for every boolean and integer element type.
pub proof fn lemma_round_trip(vs: Seq<int>, e: PackedElement)
    requires
        e.is_integer(),
        in_range(vs, e),
        vs.len() <= 2_000_000,
    ensures
        encode_spec(vs, e) matches Ok(text) && decode_spec(text, e) == Ok::<Seq<int>, Seq<char>>(vs),
{
    lemma_encode_in_range(vs, e);
    let t = elements_text(vs, e);
    let w = e.spec_width();
    let g: int = (2 * w) as int;
    let n = vs.len();
    assert forall|q: int| 0 <= q < t.len() implies is_hex_char(#[trigger] t[q]) by {
        let i = q / g;
        let k = q % g;
        assert(q == i * g + k && 0 <= k < g && 0 <= i < n) by (nonlinear_arith)
            requires
                0 <= q < n * g,
                g > 0,
                i == q / g,
                k == q % g,
        ;
        lemma_elements_text_at(vs, e, i, k);
        assert(e.low() <= vs[i] <= e.high());
        lemma_element_text(e, vs[i]);
        lemma_hex_spec_len(le_bytes((vs[i] % (e.modulus() as int)) as nat, w));
    }
    lemma_trimmed_hex(t);
    assert((n * g) % g == 0 && (n * g) / g == n) by {
        vstd::arithmetic::div_mod::lemma_mod_multiples_basic(n as int, g as int);
        vstd::arithmetic::div_mod::lemma_div_multiples_vanish(n as int, g as int);
        assert(n * g == g * n) by (nonlinear_arith);
    }
    assert forall|i: int| 0 <= i < n implies #[trigger] chunk_bytes(t, i * g, w) == le_bytes((vs[i] % (e.modulus() as int)) as nat, w) by {
        let m = (vs[i] % (e.modulus() as int)) as nat;
        let bs = le_bytes(m, w);
        assert(e.low() <= vs[i] <= e.high());
        lemma_element_text(e, vs[i]);
        lemma_le_bytes_len(m, w);
        assert forall|j: int| 0 <= j < w implies #[trigger] chunk_bytes(t, i * g, w)[j] == bs[j] by {
            lemma_elements_text_at(vs, e, i, 2 * j);
            lemma_elements_text_at(vs, e, i, 2 * j + 1);
            lemma_hex_spec_at(bs, j);
            lemma_hex_char_digit(bs[j] / 16);
            lemma_hex_char_digit(bs[j] % 16);
            assert(i * g + 2 * j + 1 == i * g + (2 * j + 1));
            assert((bs[j] / 16) * 16 + bs[j] % 16 == bs[j]);
        }
        assert(chunk_bytes(t, i * g, w) =~= bs);
    }
    if e is Bool {
        assert forall|i: int| 0 <= i < n implies #[trigger] pair_byte(t, 2 * i) <= 1 by {
            assert(g == 2);
            assert(i * g == 2 * i);
            assert(chunk_bytes(t, i * g, w) == le_bytes((vs[i] % (e.modulus() as int)) as nat, w));
            assert(chunk_bytes(t, i * g, w)[0] == pair_byte(t, 2 * i));
            assert(e.low() <= vs[i] <= e.high());
            lemma_element_text(e, vs[i]);
            vstd::arithmetic::div_mod::lemma_small_mod(vs[i] as nat, 256);
        }
    }
    let decoded = Seq::new(n, |i: int| element_value(e, chunk_bytes(t, i * g, w)));
    assert forall|i: int| 0 <= i < n implies decoded[i] == vs[i] by {
        assert(e.low() <= vs[i] <= e.high());
        lemma_element_text(e, vs[i]);
        assert(chunk_bytes(t, i * g, w) == le_bytes((vs[i] % (e.modulus() as int)) as nat, w));
    }
    assert(decoded =~= vs);
}

} // verus!
