//! Decimal integers as `str::parse` reads and `to_string` writes them.
use vstd::prelude::*;

verus! {

pub open spec fn is_digit(c: char) -> bool {
    '0' <= c && c <= '9'
}

/// The value of a run of decimal digits.
pub open spec fn digits_value(s: Seq<char>) -> nat
    decreases s.len(),
{
    if s.len() == 0 {
        0
    } else {
        digits_value(s.drop_last()) * 10 + ((s.last() as u32 - '0' as u32) as nat)
    }
}

pub open spec fn all_digits(s: Seq<char>) -> bool {
    forall|k: int| 0 <= k < s.len() ==> is_digit(#[trigger] s[k])
}

/// The integer a text spells as `str::parse` reads it: an optional `+` or
/// `-`, then one or more ASCII digits, and nothing else.
pub open spec fn decimal_value(s: Seq<char>) -> Option<int> {
    if s.len() > 0 && (s[0] == '+' || s[0] == '-') {
        let d = s.drop_first();
        if d.len() > 0 && all_digits(d) {
            Some(if s[0] == '-' { -(digits_value(d) as int) } else { digits_value(d) as int })
        } else {
            None
        }
    } else if s.len() > 0 && all_digits(s) {
        Some(digits_value(s) as int)
    } else {
        None
    }
}

/// `str::parse::<i64>`: the spelled integer when it fits in 64 signed bits.
pub open spec fn i64_value(s: Seq<char>) -> Option<i64> {
    match decimal_value(s) {
        Some(v) => if i64::MIN <= v <= i64::MAX { Some(v as i64) } else { None },
        None => None,
    }
}

/// `str::parse::<i32>`: the spelled integer when it fits in 32 signed bits.
pub open spec fn i32_value(s: Seq<char>) -> Option<i32> {
    match decimal_value(s) {
        Some(v) => if i32::MIN <= v <= i32::MAX { Some(v as i32) } else { None },
        None => None,
    }
}

/// Reads a decimal integer within `lo..=hi`, as `str::parse` does for a
/// signed primitive integer type with that range.
fn parse_bounded(s: &[char], lo: i128, hi: i128) -> (res: Option<i128>)
    requires
        i64::MIN <= lo < 0,
        0 <= hi <= i64::MAX,
    ensures
        res matches Some(v) ==> decimal_value(s@) == Some(v as int) && lo <= v <= hi,
        res is None ==> match decimal_value(s@) {
            Some(v) => v < lo || v > hi,
            None => true,
        },
{
    let n = s.len();
    if n == 0 {
        return None;
    }
    let negative = s[0] == '-';
    let signed = s[0] == '+' || negative;
    let first: usize = if signed { 1 } else { 0 };
    if first == n {
        return None;
    }
    let ghost d = s@.skip(first as int);
    proof {
        if signed {
            assert(s@.drop_first() == d);
        } else {
            assert(s@ == d);
        }
    }
    let bound: i128 = if negative { -lo } else { hi };
    let mut acc: i128 = 0;
    let mut k = first;
    let mut over = false;
    while k < n
        invariant
            first <= k <= n,
            n == s@.len(),
            d == s@.skip(first as int),
            0 <= bound <= u64::MAX,
            n > 0,
            signed == (s@[0] == '+' || s@[0] == '-'),
            negative == (s@[0] == '-'),
            bound == (if negative { -lo } else { hi as int }),
            lo < 0 && 0 <= hi,
            signed ==> s@.drop_first() == d,
            !signed ==> s@ == d,
            0 <= acc <= bound,
            !over ==> acc == digits_value(d.take(k - first)),
            over ==> digits_value(d.take(k - first)) > bound,
            all_digits(d.take(k - first)),
        decreases n - k,
    {
        let c = s[k];
        if !('0' <= c && c <= '9') {
            assert(!all_digits(d)) by {
                assert(d[k - first] == c);
            }
            proof {
                if signed {
                    assert(s@.drop_first() == d);
                    assert(decimal_value(s@) is None);
                } else {
                    assert(!all_digits(s@));
                    assert(decimal_value(s@) is None);
                }
            }
            return None;
        }
        let digit = (c as u32 - '0' as u32) as i128;
        let ghost prefix = d.take(k - first);
        assert(d.take(k + 1 - first).drop_last() == prefix);
        assert(d.take(k + 1 - first).last() == c);
        if !over {
            if acc * 10 + digit > bound {
                over = true;
            } else {
                acc = acc * 10 + digit;
            }
        } else {
            assert(digits_value(prefix) * 10 + digit > bound) by (nonlinear_arith)
                requires
                    digits_value(prefix) > bound,
                    0 <= digit,
                    0 <= bound,
            ;
        }
        assert forall|j: int| 0 <= j < k + 1 - first implies is_digit(#[trigger] d.take(k + 1 - first)[j]) by {
            if j < k - first {
                assert(d.take(k + 1 - first)[j] == prefix[j]);
            }
        }
        k = k + 1;
    }
    assert(d.take(n - first) == d);
    if signed {
        assert(s@.drop_first() == d);
    } else {
        assert(d == s@);
    }
    if over {
        return None;
    }
    if negative {
        Some(-acc)
    } else {
        Some(acc)
    }
}

/// `str::parse::<i64>`.
pub fn parse_i64(s: &[char]) -> (res: Option<i64>)
    ensures
        res matches Some(v) ==> i64_value(s@) == Some(v),
        res is None ==> i64_value(s@) is None,
{
    match parse_bounded(s, i64::MIN as i128, i64::MAX as i128) {
        Some(v) => Some(v as i64),
        None => None,
    }
}

/// `str::parse::<i32>`.
pub fn parse_i32(s: &[char]) -> (res: Option<i32>)
    ensures
        res matches Some(v) ==> i32_value(s@) == Some(v),
        res is None ==> i32_value(s@) is None,
{
    match parse_bounded(s, i32::MIN as i128, i32::MAX as i128) {
        Some(v) => Some(v as i32),
        None => None,
    }
}

} // verus!
