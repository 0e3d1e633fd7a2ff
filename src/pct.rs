//! Percent-decoding of URL components, and decimal `usize` parsing.
use vstd::prelude::*;
use vstd::string::StringExecFns;
use vstd::utf8::{decode_utf8, valid_utf8};

use crate::dicomweb::dec_digits_value;

verus! {

pub open spec fn hex_digit_of(b: u8) -> Option<u8> {
    if 48 <= b <= 57 {
        Some((b - 48) as u8)
    } else if 97 <= b <= 102 {
        Some((b - 97 + 10) as u8)
    } else if 65 <= b <= 70 {
        Some((b - 65 + 10) as u8)
    } else {
        None
    }
}

/// The value of one hexadecimal digit byte.
pub fn decode_hex_digit(value: u8) -> (r: Option<u8>)
    ensures
        r == hex_digit_of(value),
{
    if 48 <= value && value <= 57 {
        Some(value - 48)
    } else if 97 <= value && value <= 102 {
        Some(value - 97 + 10)
    } else if 65 <= value && value <= 70 {
        Some(value - 65 + 10)
    } else {
        None
    }
}

/// Percent-decoding of the bytes from position `i` on: `+` is a space,
/// `%XY` is the byte with hex value XY (it fails when two digits do not
/// follow), every other byte stands for itself.
pub open spec fn pct_decode_from(b: Seq<u8>, i: int) -> Option<Seq<u8>>
    decreases b.len() - i,
{
    if i < 0 || i >= b.len() {
        Some(seq![])
    } else if b[i] == 43 {
        match pct_decode_from(b, i + 1) {
            Some(t) => Some(seq![32u8] + t),
            None => None,
        }
    } else if b[i] == 37 {
        if i + 2 >= b.len() {
            None
        } else {
            match (hex_digit_of(b[i + 1]), hex_digit_of(b[i + 2])) {
                (Some(h), Some(l)) => match pct_decode_from(b, i + 3) {
                    Some(t) => Some(seq![(h * 16 + l) as u8] + t),
                    None => None,
                },
                _ => None,
            }
        }
    } else {
        match pct_decode_from(b, i + 1) {
            Some(t) => Some(seq![b[i]] + t),
            None => None,
        }
    }
}

/// The text that a percent-encoded component stands for, when the encoding
/// is well formed and the decoded bytes are UTF-8.
pub open spec fn percent_decoded(v: Seq<char>) -> Option<Seq<char>> {
    match pct_decode_from(vstd::utf8::encode_utf8(v), 0) {
        Some(bs) => if valid_utf8(bs) {
            Some(decode_utf8(bs))
        } else {
            None
        },
        None => None,
    }
}

/// Relies on `String::from_utf8`: it succeeds exactly on valid UTF-8 and then holds the decoded text.
#[verifier::external_body]
fn string_from_utf8(bytes: Vec<u8>) -> (r: Option<String>)
    ensures
        r is Some <==> valid_utf8(bytes@),
        r matches Some(s) ==> s@ == decode_utf8(bytes@),
{
    String::from_utf8(bytes).ok()
}

/// Decodes a percent-encoded URL component (see `percent_decoded`).
pub fn percent_decode(value: &str) -> (r: Result<String, String>)
    ensures
        match r {
            Ok(s) => percent_decoded(value@) == Some(s@),
            Err(m) => percent_decoded(value@) is None && (m@ == "Invalid percent-encoding in URL."@
                || m@ == "URL contains invalid UTF-8 after decoding."@),
        },
{
    let bytes = value.as_bytes();
    let ghost b = bytes@;
    assert(b == vstd::utf8::encode_utf8(value@));
    let n = bytes.len();
    let mut decoded: Vec<u8> = Vec::new();
    let mut index: usize = 0;
    while index < n
        invariant
            n == b.len(),
            b == bytes@,
            b == vstd::utf8::encode_utf8(value@),
            index <= n,
            pct_decode_from(b, 0) == match pct_decode_from(b, index as int) {
                Some(t) => Some(decoded@ + t),
                None => None,
            },
        decreases n - index,
    {
        let c = bytes[index];
        if c == 43 {
            proof {
                assert(decoded@.push(32u8) + pct_decode_from(b, index + 1)->0 =~= decoded@ + (seq![32u8] + pct_decode_from(b, index + 1)->0));
            }
            decoded.push(32);
            index = index + 1;
        } else if c == 37 {
            if n - index <= 2 {
                return Err(String::from_str("Invalid percent-encoding in URL."));
            }
            let hi = match decode_hex_digit(bytes[index + 1]) {
                Some(h) => h,
                None => {
                    return Err(String::from_str("Invalid percent-encoding in URL."));
                },
            };
            let lo = match decode_hex_digit(bytes[index + 2]) {
                Some(l) => l,
                None => {
                    return Err(String::from_str("Invalid percent-encoding in URL."));
                },
            };
            let v: u8 = hi * 16 + lo;
            proof {
                assert(decoded@.push(v) + pct_decode_from(b, index + 3)->0 =~= decoded@ + (seq![v] + pct_decode_from(b, index + 3)->0));
            }
            decoded.push(v);
            index = index + 3;
        } else {
            proof {
                assert(decoded@.push(c) + pct_decode_from(b, index + 1)->0 =~= decoded@ + (seq![c] + pct_decode_from(b, index + 1)->0));
            }
            decoded.push(c);
            index = index + 1;
        }
    }
    proof {
        assert(decoded@ + seq![] =~= decoded@);
    }
    match string_from_utf8(decoded) {
        Some(s) => Ok(s),
        None => Err(String::from_str("URL contains invalid UTF-8 after decoding.")),
    }
}

/// `str::parse::<usize>`: an optional `+`, then decimal digits, in range.
pub open spec fn parse_usize_spec(s: Seq<char>) -> Option<usize> {
    let d = if s.len() > 0 && s[0] == '+' {
        s.skip(1)
    } else {
        s
    };
    match dec_digits_value(d) {
        Some(v) => if v <= usize::MAX {
            Some(v as usize)
        } else {
            None
        },
        None => None,
    }
}

proof fn lemma_dec_none_at(s: Seq<char>, a: int, i: int, b: int)
    requires
        0 <= a <= i < b <= s.len(),
        !('0' <= s[i] && s[i] <= '9'),
    ensures
        dec_digits_value(s.subrange(a, b)) is None,
    decreases b - i,
{
    let t = s.subrange(a, b);
    if b - 1 == i {
        assert(t.last() == s[i]);
    } else {
        lemma_dec_none_at(s, a, i, b - 1);
        assert(t.drop_last() =~= s.subrange(a, b - 1));
    }
}

/// Parses a decimal `usize` as `str::parse` does.
pub fn parse_usize(s: &[char]) -> (r: Option<usize>)
    ensures
        r == parse_usize_spec(s@),
{
    let n = s.len();
    let a: usize = if n > 0 && s[0] == '+' { 1 } else { 0 };
    proof {
        assert(s@.skip(a as int) =~= s@.subrange(a as int, n as int));
        assert(a == 0 ==> s@.subrange(0, n as int) =~= s@);
    }
    if a >= n {
        return None;
    }
    let mut acc: usize = 0;
    let mut too_big = false;
    let mut i: usize = a;
    while i < n
        invariant
            n == s@.len(),
            a < n,
            a <= i <= n,
            a <= 1,
            a == 1 <==> s@[0] == '+',
            i == a ==> acc == 0 && !too_big,
            i > a ==> (dec_digits_value(s@.subrange(a as int, i as int)) matches Some(v) && (
            too_big ==> v > usize::MAX) && (!too_big ==> v == acc as int)),
        decreases n - i,
    {
        let c = s[i];
        if !('0' <= c && c <= '9') {
            proof {
                lemma_dec_none_at(s@, a as int, i as int, n as int);
                if a == 1 {
                    assert(s@.skip(1) =~= s@.subrange(1, n as int));
                } else {
                    assert(s@ =~= s@.subrange(0, n as int));
                }
            }
            return None;
        }
        let d = ((c as u32) - ('0' as u32)) as usize;
        let ghost prev: int = if i > a {
            dec_digits_value(s@.subrange(a as int, i as int))->0
        } else {
            0
        };
        proof {
            let t = s@.subrange(a as int, i + 1);
            assert(t.drop_last() =~= s@.subrange(a as int, i as int));
            assert(t.last() == c);
            if i > a {
                assert(dec_digits_value(t) == Some(prev * 10 + d));
                if too_big {
                    assert(prev * 10 + d > usize::MAX) by (nonlinear_arith)
                        requires prev > usize::MAX, d >= 0;
                }
            } else {
                assert(t.len() == 1);
                assert(dec_digits_value(t) == Some(d as int));
            }
        }
        if !too_big {
            if acc > (usize::MAX - d) / 10 {
                proof {
                    assert(acc * 10 + d > usize::MAX) by (nonlinear_arith)
                        requires acc > (usize::MAX - d) / 10, d <= 9;
                }
                too_big = true;
            } else {
                proof {
                    assert(acc * 10 + d <= usize::MAX) by (nonlinear_arith)
                        requires acc <= (usize::MAX - d) / 10, d <= 9;
                }
                acc = acc * 10 + d;
            }
        }
        i = i + 1;
    }
    proof {
        if a == 1 {
            assert(s@.skip(1) =~= s@.subrange(1, n as int));
        } else {
            assert(s@ =~= s@.subrange(0, n as int));
        }
    }
    if too_big {
        return None;
    }
    Some(acc)
}

} // verus!
