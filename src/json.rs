//! A deliberately small JSON reader: it splits a document into its top-level
//! objects and reads the first array value that follows a tag key. It is
//! tolerant of anything it does not need to understand.
use vstd::prelude::*;
use vstd::string::StringExecFns;

use crate::text::{
    chars_of, find, find_seq, lemma_find_from_facts, occurs_at, slice_vec, string_of, trim,
    trim_seq,
};

verus! {

/// The state of the top-level object scanner after some prefix of the input.
pub struct ScanState {
    pub depth: nat,
    pub start: int,
    pub in_string: bool,
    pub escaped: bool,
    pub failed: bool,
    pub objects: Seq<Seq<char>>,
}

pub open spec fn scan_init() -> ScanState {
    ScanState {
        depth: 0,
        start: 0,
        in_string: false,
        escaped: false,
        failed: false,
        objects: seq![],
    }
}

/// One character of the scanner: strings (with backslash escapes) are skipped,
/// braces outside strings change the depth, and an object is recorded each
/// time the depth returns to zero. A closing brace at depth zero fails.
pub open spec fn scan_step(st: ScanState, s: Seq<char>, index: int) -> ScanState {
    let ch = s[index];
    if st.failed {
        st
    } else if st.in_string {
        if st.escaped {
            ScanState { escaped: false, ..st }
        } else if ch == '\\' {
            ScanState { escaped: true, ..st }
        } else if ch == '"' {
            ScanState { in_string: false, ..st }
        } else {
            st
        }
    } else if ch == '"' {
        ScanState { in_string: true, ..st }
    } else if ch == '{' {
        if st.depth == 0 {
            ScanState { depth: 1, start: index, ..st }
        } else {
            ScanState { depth: st.depth + 1, ..st }
        }
    } else if ch == '}' {
        if st.depth == 0 {
            ScanState { failed: true, ..st }
        } else if st.depth == 1 {
            ScanState {
                depth: 0,
                objects: st.objects.push(s.subrange(st.start, index + 1)),
                ..st
            }
        } else {
            ScanState { depth: (st.depth - 1) as nat, ..st }
        }
    } else {
        st
    }
}

pub open spec fn scan_prefix(s: Seq<char>, n: int) -> ScanState
    decreases n,
{
    if n <= 0 {
        scan_init()
    } else {
        scan_step(scan_prefix(s, n - 1), s, n - 1)
    }
}

/// The top-level objects of `s`, or `None` when its braces or strings do not balance.
pub open spec fn top_level_objects(s: Seq<char>) -> Option<Seq<Seq<char>>> {
    let st = scan_prefix(s, s.len() as int);
    if st.failed || st.depth != 0 || st.in_string {
        None
    } else {
        Some(st.objects)
    }
}

pub open spec fn strings_view(v: Seq<String>) -> Seq<Seq<char>> {
    v.map_values(|x: String| x@)
}

/// Splits `input` into the text of each of its top-level `{...}` objects.
pub fn split_top_level_json_objects(input: &str) -> (r: Result<Vec<String>, String>)
    ensures
        match r {
            Ok(v) => top_level_objects(input@) == Some(strings_view(v@)),
            Err(_) => top_level_objects(input@) is None,
        },
{
    let s = chars_of(input);
    let mut objects: Vec<String> = Vec::new();
    let mut depth: usize = 0;
    let mut start: usize = 0;
    let mut in_string = false;
    let mut escaped = false;
    let mut index: usize = 0;
    while index < s.len()
        invariant
            index <= s@.len(),
            s@ == input@,
            ({
                let st = scan_prefix(s@, index as int);
                &&& !st.failed
                &&& st.depth == depth
                &&& st.start == start
                &&& st.in_string == in_string
                &&& st.escaped == escaped
                &&& st.objects == strings_view(objects@)
                &&& depth <= index
                &&& (depth > 0 ==> start < index)
            }),
        decreases s@.len() - index,
    {
        let ch = s[index];
        if in_string {
            if escaped {
                escaped = false;
            } else if ch == '\\' {
                escaped = true;
            } else if ch == '"' {
                in_string = false;
            }
        } else if ch == '"' {
            in_string = true;
        } else if ch == '{' {
            if depth == 0 {
                start = index;
            }
            depth = depth + 1;
        } else if ch == '}' {
            if depth == 0 {
                proof {
                    lemma_scan_failed_sticks(s@, index as int + 1);
                }
                return Err(String::from_str("Unexpected closing brace in JSON"));
            }
            depth = depth - 1;
            if depth == 0 {
                let piece = slice_vec(&s, start, index + 1);
                objects.push(string_of(&piece));
                assert(strings_view(objects@) =~= scan_prefix(s@, index as int).objects.push(
                    s@.subrange(start as int, index + 1),
                ));
            }
        }
        index = index + 1;
    }
    if depth != 0 || in_string {
        return Err(String::from_str("Unbalanced JSON while parsing metadata"));
    }
    Ok(objects)
}

proof fn lemma_scan_failed_sticks(s: Seq<char>, n: int)
    requires
        0 < n <= s.len(),
        scan_prefix(s, n).failed,
    ensures
        scan_prefix(s, s.len() as int).failed,
    decreases s.len() - n,
{
    if n < s.len() {
        lemma_scan_failed_sticks(s, n + 1);
    }
}

pub open spec fn is_ascii_ws(c: char) -> bool {
    c == ' ' || c == '\t' || c == '\n' || c == '\u{0C}' || c == '\r'
}

/// The first position at or after `i` that is not ASCII whitespace.
pub open spec fn skip_ascii_ws(v: Seq<char>, i: int) -> int
    decreases v.len() - i,
{
    if 0 <= i < v.len() && is_ascii_ws(v[i]) {
        skip_ascii_ws(v, i + 1)
    } else {
        i
    }
}

/// The position of the quote that closes a string whose body starts at `i`.
pub open spec fn closing_quote(v: Seq<char>, i: int, escaped: bool) -> Option<int>
    decreases v.len() - i,
{
    if i < 0 || i >= v.len() {
        None
    } else if escaped {
        closing_quote(v, i + 1, false)
    } else if v[i] == '\\' {
        closing_quote(v, i + 1, true)
    } else if v[i] == '"' {
        Some(i)
    } else {
        closing_quote(v, i + 1, false)
    }
}

/// The first position at or after `i` holding `,` or `]`, else the length.
pub open spec fn bare_token_end(v: Seq<char>, i: int) -> int
    decreases v.len() - i,
{
    if 0 <= i < v.len() && v[i] != ',' && v[i] != ']' {
        bare_token_end(v, i + 1)
    } else {
        i
    }
}

/// The first value of a JSON array whose `[` has just been read: a quoted
/// string with its quotes, or a bare token up to the next `,` or `]`, trimmed.
pub open spec fn first_json_token(v: Seq<char>) -> Option<Seq<char>> {
    let i = skip_ascii_ws(v, 0);
    if i >= v.len() || v[i] == ']' {
        None
    } else if v[i] == '"' {
        match closing_quote(v, i + 1, false) {
            Some(e) => Some(v.subrange(i, e + 1)),
            None => None,
        }
    } else {
        Some(trim_seq(v.subrange(i, bare_token_end(v, i))))
    }
}

proof fn lemma_skip_ws_bounds(v: Seq<char>, i: int)
    requires
        0 <= i <= v.len(),
    ensures
        i <= skip_ascii_ws(v, i) <= v.len(),
    decreases v.len() - i,
{
    if i < v.len() && is_ascii_ws(v[i]) {
        lemma_skip_ws_bounds(v, i + 1);
    }
}

pub fn parse_first_json_token(v: &[char]) -> (r: Option<Vec<char>>)
    ensures
        match r {
            Some(t) => first_json_token(v@) == Some(t@),
            None => first_json_token(v@) is None,
        },
{
    let n = v.len();
    let mut i: usize = 0;
    while i < n && (v[i] == ' ' || v[i] == '\t' || v[i] == '\n' || v[i] == '\u{0C}' || v[i]
        == '\r')
        invariant
            n == v@.len(),
            i <= n,
            skip_ascii_ws(v@, i as int) == skip_ascii_ws(v@, 0),
        decreases n - i,
    {
        i = i + 1;
    }
    if i >= n {
        return None;
    }
    if v[i] == ']' {
        return None;
    }
    if v[i] == '"' {
        let start = i;
        i = i + 1;
        let mut escaped = false;
        while i < n
            invariant
                n == v@.len(),
                start < i <= n,
                start == skip_ascii_ws(v@, 0),
                v@[start as int] == '"',
                closing_quote(v@, i as int, escaped) == closing_quote(v@, start + 1, false),
            decreases n - i,
        {
            let b = v[i];
            if escaped {
                escaped = false;
            } else if b == '\\' {
                escaped = true;
            } else if b == '"' {
                return Some(slice_vec(v, start, i + 1));
            }
            i = i + 1;
        }
        return None;
    }
    let start = i;
    while i < n && v[i] != ',' && v[i] != ']'
        invariant
            n == v@.len(),
            start <= i <= n,
            start == skip_ascii_ws(v@, 0),
            bare_token_end(v@, i as int) == bare_token_end(v@, start as int),
        decreases n - i,
    {
        i = i + 1;
    }
    let piece = slice_vec(v, start, i);
    Some(trim(&piece))
}

/// JSON string escapes decoded; an unknown escape keeps the escaped character,
/// a trailing backslash is dropped, and `\u` takes up to four characters.
pub open spec fn unescape_json(s: Seq<char>) -> Seq<char>
    decreases s.len(),
{
    if s.len() == 0 {
        seq![]
    } else if s[0] != '\\' {
        seq![s[0]] + unescape_json(s.skip(1))
    } else if s.len() == 1 {
        seq![]
    } else if s[1] == 'u' {
        let hlen = if s.len() - 2 < 4 { s.len() - 2 } else { 4 };
        let hex = s.subrange(2, 2 + hlen);
        let rest = s.skip(2 + hlen);
        match hex4_value(hex) {
            Some(cp) => if is_scalar_value(cp) {
                seq![scalar_char(cp)] + unescape_json(rest)
            } else {
                unescape_json(rest)
            },
            None => unescape_json(rest),
        }
    } else {
        seq![json_escape_char(s[1])] + unescape_json(s.skip(2))
    }
}

pub open spec fn json_escape_char(c: char) -> char {
    if c == 'b' {
        '\u{08}'
    } else if c == 'f' {
        '\u{0C}'
    } else if c == 'n' {
        '\n'
    } else if c == 'r' {
        '\r'
    } else if c == 't' {
        '\t'
    } else {
        c
    }
}

pub open spec fn hex_val(c: char) -> Option<int> {
    if '0' <= c && c <= '9' {
        Some(c as int - '0' as int)
    } else if 'a' <= c && c <= 'f' {
        Some(c as int - 'a' as int + 10)
    } else if 'A' <= c && c <= 'F' {
        Some(c as int - 'A' as int + 10)
    } else {
        None
    }
}

/// Base-16 value of a digit string (`None` when empty or a non-digit appears).
pub open spec fn hex_digits_value(s: Seq<char>) -> Option<int>
    decreases s.len(),
{
    if s.len() == 0 {
        None
    } else if s.len() == 1 {
        hex_val(s[0])
    } else {
        match (hex_digits_value(s.drop_last()), hex_val(s.last())) {
            (Some(a), Some(b)) => Some(a * 16 + b),
            _ => None,
        }
    }
}

/// `u16::from_str_radix(_, 16)` on exactly four characters: an optional `+`
/// followed by hex digits.
pub open spec fn hex4_value(hex: Seq<char>) -> Option<int> {
    if hex.len() != 4 {
        None
    } else if hex[0] == '+' {
        hex_digits_value(hex.skip(1))
    } else {
        hex_digits_value(hex)
    }
}

/// The character whose code point is `cp`.
pub open spec fn scalar_char(cp: int) -> char {
    choose|c: char| #[trigger] code_of(c) == cp
}

pub open spec fn code_of(c: char) -> int {
    c as int
}

pub open spec fn is_scalar_value(v: int) -> bool {
    (0 <= v < 0xD800) || (0xE000 <= v <= 0x10FFFF)
}

/// Relies on `char::from_u32`: `Some` exactly for Unicode scalar values, holding that code point.
#[verifier::external_body]
fn char_from_u32(v: u32) -> (r: Option<char>)
    ensures
        r is Some <==> is_scalar_value(v as int),
        r matches Some(c) ==> code_of(c) == v as int,
{
    char::from_u32(v)
}

fn hex_digit_value(c: char) -> (r: Option<u32>)
    ensures
        match r {
            Some(x) => hex_val(c) == Some(x as int),
            None => hex_val(c) is None,
        },
{
    if '0' <= c && c <= '9' {
        Some((c as u32) - ('0' as u32))
    } else if 'a' <= c && c <= 'f' {
        Some((c as u32) - ('a' as u32) + 10)
    } else if 'A' <= c && c <= 'F' {
        Some((c as u32) - ('A' as u32) + 10)
    } else {
        None
    }
}

fn hex_run_value(s: &[char], a: usize, b: usize) -> (r: Option<u32>)
    requires
        a < b <= s@.len(),
        b - a <= 4,
    ensures
        match r {
            Some(x) => hex_digits_value(s@.subrange(a as int, b as int)) == Some(x as int),
            None => hex_digits_value(s@.subrange(a as int, b as int)) is None,
        },
{
    let mut acc: u32 = 0;
    let mut i: usize = a;
    while i < b
        invariant
            a <= i <= b <= s@.len(),
            b - a <= 4,
            acc < pow16(i - a),
            i > a ==> hex_digits_value(s@.subrange(a as int, i as int)) == Some(acc as int),
        decreases b - i,
    {
        match hex_digit_value(s[i]) {
            None => {
                proof {
                    lemma_hex_digits_none(s@, a as int, i as int, b as int);
                }
                return None;
            },
            Some(d) => {
                proof {
                    let t = s@.subrange(a as int, i + 1);
                    assert(t.drop_last() =~= s@.subrange(a as int, i as int));
                    assert(t.last() == s@[i as int]);
                    assert(pow16(i + 1 - a) == pow16(i - a) * 16);
                    assert(acc * 16 + d < pow16(i + 1 - a)) by (nonlinear_arith)
                        requires acc < pow16(i - a), d < 16, pow16(i + 1 - a) == pow16(i - a) * 16;
                    assert(pow16(i + 1 - a) <= 65536) by {
                        lemma_pow16_le4(i + 1 - a);
                    }
                }
                acc = acc * 16 + d;
            },
        }
        i = i + 1;
    }
    Some(acc)
}

pub open spec fn pow16(n: int) -> int
    decreases n,
{
    if n <= 0 {
        1
    } else {
        16 * pow16(n - 1)
    }
}

proof fn lemma_pow16_le4(n: int)
    requires
        n <= 4,
    ensures
        pow16(n) <= 65536,
{
    reveal_with_fuel(pow16, 5);
}

proof fn lemma_hex_digits_none(s: Seq<char>, a: int, i: int, b: int)
    requires
        0 <= a <= i < b <= s.len(),
        hex_val(s[i]) is None,
    ensures
        hex_digits_value(s.subrange(a, b)) is None,
    decreases b - i,
{
    let t = s.subrange(a, b);
    if b - 1 == i {
        assert(t.last() == s[i]);
    } else {
        lemma_hex_digits_none(s, a, i, b - 1);
        assert(t.drop_last() =~= s.subrange(a, b - 1));
    }
}

/// Decodes the escapes of a JSON string body (see `unescape_json`).
pub fn unescape_json_string(input: &[char]) -> (r: Vec<char>)
    ensures
        r@ == unescape_json(input@),
{
    let n = input.len();
    let mut out: Vec<char> = Vec::new();
    let mut i: usize = 0;
    assert(input@.skip(0) =~= input@);
    while i < n
        invariant
            n == input@.len(),
            i <= n,
            out@ + unescape_json(input@.skip(i as int)) == unescape_json(input@),
        decreases n - i,
    {
        let ghost rest = input@.skip(i as int);
        let ch = input[i];
        if ch != '\\' {
            out.push(ch);
            i = i + 1;
            proof {
                assert(rest.skip(1) =~= input@.skip(i as int));
                assert(out@ + unescape_json(input@.skip(i as int)) =~= (out@.drop_last() + (seq![ch] + unescape_json(rest.skip(1)))));
            }
            continue;
        }
        if i + 1 >= n {
            proof {
                assert(input@.skip(n as int) =~= seq![]);
                assert(out@ + unescape_json(input@.skip(n as int)) =~= out@);
            }
            proof {
                assert(rest.len() == 1);
                assert(unescape_json(rest) == Seq::<char>::empty());
            }
            i = n;
            continue;
        }
        let next = input[i + 1];
        if next == 'u' {
            let avail = n - (i + 2);
            let take = if avail < 4 { avail } else { 4 };
            let ghost hex = rest.subrange(2, 2 + take);
            proof {
                assert(hex =~= input@.subrange(i + 2, i + 2 + take));
            }
            if take == 4 {
                let (plus, first) = if input[i + 2] == '+' {
                    (true, i + 3)
                } else {
                    (false, i + 2)
                };
                let v = hex_run_value(input, first, i + 6);
                proof {
                    if plus {
                        assert(hex.skip(1) =~= input@.subrange(i + 3, i + 6));
                    }
                }
                if let Some(cp) = v {
                    if let Some(decoded) = char_from_u32(cp) {
                        out.push(decoded);
                        proof {
                            assert(code_of(decoded) == cp as int);
                            assert(code_of(scalar_char(cp as int)) == cp as int);
                        }
                    }
                }
            }
            i = i + 2 + take;
            proof {
                assert(rest.skip(2 + take) =~= input@.skip(i as int));
            }
            continue;
        }
        let e = if next == 'b' {
            '\u{08}'
        } else if next == 'f' {
            '\u{0C}'
        } else if next == 'n' {
            '\n'
        } else if next == 'r' {
            '\r'
        } else if next == 't' {
            '\t'
        } else {
            next
        };
        out.push(e);
        i = i + 2;
        proof {
            assert(rest.skip(2) =~= input@.skip(i as int));
            assert(out@ + unescape_json(input@.skip(i as int)) =~= (out@.drop_last() + (seq![e] + unescape_json(rest.skip(2)))));
        }
    }
    proof {
        assert(input@.skip(n as int) =~= seq![]);
        assert(out@ + unescape_json(input@.skip(n as int)) =~= out@);
    }
    out
}

/// A token read by `first_json_token` turned into a value: `null` or nothing
/// gives `None`, a quoted string gives its unescaped body, anything else itself.
pub open spec fn token_value(token: Seq<char>) -> Option<Seq<char>> {
    let t = trim_seq(token);
    if t.len() == 0 || t == seq!['n', 'u', 'l', 'l'] {
        None
    } else if t.len() >= 2 && t[0] == '"' && t.last() == '"' {
        Some(unescape_json(t.subrange(1, t.len() - 1)))
    } else {
        Some(t)
    }
}

pub fn first_token_to_string(token: &[char]) -> (r: Option<Vec<char>>)
    ensures
        match r {
            Some(v) => token_value(token@) == Some(v@),
            None => token_value(token@) is None,
        },
{
    let t = trim(token);
    let n = t.len();
    proof {
        if n == 4 && t@[0] == 'n' && t@[1] == 'u' && t@[2] == 'l' && t@[3] == 'l' {
            assert(t@ =~= seq!['n', 'u', 'l', 'l']);
        }
    }
    if n == 0 || (n == 4 && t[0] == 'n' && t[1] == 'u' && t[2] == 'l' && t[3] == 'l') {
        return None;
    }
    proof {
        if t@ == seq!['n', 'u', 'l', 'l'] {
            assert(t@[0] == 'n' && t@[1] == 'u' && t@[2] == 'l' && t@[3] == 'l');
        }
    }
    if n >= 2 && t[0] == '"' && t[n - 1] == '"' {
        let inner = slice_vec(&t, 1, n - 1);
        return Some(unescape_json_string(&inner));
    }
    Some(t)
}

pub open spec fn quoted(tag: Seq<char>) -> Seq<char> {
    seq!['"'] + tag + seq!['"']
}

pub open spec fn value_key() -> Seq<char> {
    seq!['"', 'V', 'a', 'l', 'u', 'e', '"']
}

/// The first array value stored under `"tag"` in `object`: after the tag key,
/// the next `"Value"` key, then the next `[`, then the first token there.
pub open spec fn first_tag_value(object: Seq<char>, tag: Seq<char>) -> Option<Seq<char>> {
    let needle = quoted(tag);
    match find_seq(object, needle) {
        None => None,
        Some(p) => {
            let tail = object.skip(p + needle.len());
            match find_seq(tail, value_key()) {
                None => None,
                Some(q) => {
                    let after = tail.skip(q + 7);
                    match find_seq(after, seq!['[']) {
                        None => None,
                        Some(b) => match first_json_token(after.skip(b + 1)) {
                            None => None,
                            Some(tok) => token_value(tok),
                        },
                    }
                },
            }
        },
    }
}

fn skip_after(s: &[char], needle: &[char]) -> (r: Option<Vec<char>>)
    ensures
        match r {
            Some(t) => find_seq(s@, needle@) matches Some(p) && t@ == s@.skip(p + needle@.len()),
            None => find_seq(s@, needle@) is None,
        },
{
    let sl = s.len();
    match find(s, needle) {
        None => None,
        Some(p) => {
            proof {
                lemma_find_from_facts(s@, needle@, 0);
                assert(occurs_at(s@, needle@, p as int));
            }
            let r = slice_vec(s, p + needle.len(), sl);
            assert(r@ =~= s@.skip(p + needle@.len()));
            Some(r)
        },
    }
}

pub fn first_tag_chars(object: &[char], tag: &[char]) -> (r: Option<Vec<char>>)
    ensures
        match r {
            Some(v) => first_tag_value(object@, tag@) == Some(v@),
            None => first_tag_value(object@, tag@) is None,
        },
{
    let mut needle: Vec<char> = Vec::new();
    needle.push('"');
    let mut k: usize = 0;
    while k < tag.len()
        invariant
            k <= tag@.len(),
            needle@ == seq!['"'] + tag@.take(k as int),
        decreases tag@.len() - k,
    {
        needle.push(tag[k]);
        k = k + 1;
        assert(needle@ =~= seq!['"'] + tag@.take(k as int));
    }
    needle.push('"');
    assert(needle@ =~= quoted(tag@));
    let tail = match skip_after(object, &needle) {
        None => return None,
        Some(t) => t,
    };
    let key = ['"', 'V', 'a', 'l', 'u', 'e', '"'];
    assert(key@ =~= value_key());
    let after = match skip_after(&tail, &key) {
        None => return None,
        Some(t) => t,
    };
    let open = ['['];
    assert(open@ =~= seq!['[']);
    let inner = match skip_after(&after, &open) {
        None => return None,
        Some(t) => t,
    };
    match parse_first_json_token(&inner) {
        None => None,
        Some(tok) => first_token_to_string(&tok),
    }
}

/// The first value stored under `tag` in a JSON object, as text.
pub fn first_tag_string(object: &str, tag: &str) -> (r: Option<String>)
    ensures
        match r {
            Some(v) => first_tag_value(object@, tag@) == Some(v@),
            None => first_tag_value(object@, tag@) is None,
        },
{
    let o = chars_of(object);
    let t = chars_of(tag);
    match first_tag_chars(&o, &t) {
        None => None,
        Some(v) => Some(string_of(&v)),
    }
}

} // verus!
