//! The line codec of the event log: one JSON object per line.
//!
//! The encoder renders an event as a compact JSON object; the parser reads
//! the subset of JSON that the log uses: an object of string, unsigned
//! integer, id-array and null members, in any key order, with unknown
//! scalar members skipped. A line that does not fit this shape parses to
//! `None`, and the projection skips it.

use vstd::prelude::*;
use vstd::string::StrSliceExecFns;

use crate::text::{dec_val, dec_render, digit_run_end, is_digit, push_decimal};

verus! {

// ---------------------------------------------------------------------
// Whitespace
// ---------------------------------------------------------------------
pub open spec fn is_ws(c: char) -> bool {
    c == ' ' || c == '\t' || c == '\r'
}

/// The first index at or after `i` that holds no blank.
pub open spec fn ws_end(s: Seq<char>, i: int) -> int
    decreases s.len() - i,
{
    if i < 0 || i >= s.len() || !is_ws(s[i]) {
        i
    } else {
        ws_end(s, i + 1)
    }
}

pub proof fn lemma_ws_end_bounds(s: Seq<char>, i: int)
    requires
        0 <= i <= s.len(),
    ensures
        i <= ws_end(s, i) <= s.len(),
    decreases s.len() - i,
{
    if i < s.len() && is_ws(s[i]) {
        lemma_ws_end_bounds(s, i + 1);
    }
}

/// Exec scan for `ws_end`.
fn skip_ws(s: &str, i: usize, n: usize) -> (r: usize)
    requires
        i <= n,
        n == s@.len(),
    ensures
        r == ws_end(s@, i as int),
        i <= r <= n,
{
    let mut j: usize = i;
    while j < n
        invariant
            i <= j <= n,
            n == s@.len(),
            ws_end(s@, i as int) == ws_end(s@, j as int),
        decreases n - j,
    {
        let c = s.get_char(j);
        if !(c == ' ' || c == '\t' || c == '\r') {
            return j;
        }
        j = j + 1;
    }
    j
}

// ---------------------------------------------------------------------
// String escapes
// ---------------------------------------------------------------------
/// The character named by a single-letter escape, if any.
pub open spec fn esc_code(e: char) -> Option<char> {
    if e == '"' {
        Some('"')
    } else if e == '\\' {
        Some('\\')
    } else if e == '/' {
        Some('/')
    } else if e == 'n' {
        Some('\n')
    } else if e == 'r' {
        Some('\r')
    } else if e == 't' {
        Some('\t')
    } else if e == 'b' {
        Some('\u{0008}')
    } else if e == 'f' {
        Some('\u{000C}')
    } else {
        None
    }
}

pub open spec fn hex_val(c: char) -> int {
    if '0' <= c && c <= '9' {
        c as int - '0' as int
    } else if 'a' <= c && c <= 'f' {
        c as int - 'a' as int + 10
    } else if 'A' <= c && c <= 'F' {
        c as int - 'A' as int + 10
    } else {
        -1
    }
}

/// The value of the four hex digits at `i`, or `-1` when one is not a hex
/// digit.
pub open spec fn hex4_val(s: Seq<char>, i: int) -> int {
    if hex_val(s[i]) < 0 || hex_val(s[i + 1]) < 0 || hex_val(s[i + 2]) < 0 || hex_val(s[i + 3])
        < 0 {
        -1
    } else {
        hex_val(s[i]) * 4096 + hex_val(s[i + 1]) * 256 + hex_val(s[i + 2]) * 16 + hex_val(
            s[i + 3],
        )
    }
}

/// Exec hex digit value, `-1` as `None`.
fn hex_digit(c: char) -> (r: Option<u8>)
    ensures
        match r {
            Some(v) => hex_val(c) == v as int && v < 16,
            None => hex_val(c) < 0,
        },
{
    if '0' <= c && c <= '9' {
        Some(c as u8 - ('0' as u8))
    } else if 'a' <= c && c <= 'f' {
        Some(c as u8 - ('a' as u8) + 10)
    } else if 'A' <= c && c <= 'F' {
        Some(c as u8 - ('A' as u8) + 10)
    } else {
        None
    }
}

// ---------------------------------------------------------------------
// String bodies: the text between the quotes of a JSON string
// ---------------------------------------------------------------------
/// Parse the rest of a string body starting at `i` (the opening quote
/// already consumed), with `acc` the characters read so far. Yields the
/// full decoded text and the index just past the closing quote.
///
/// Escapes: the single-letter JSON escapes, and `\uXXXX` for codes below
/// 128 only; other `\u` escapes fail the line. Characters other than `"`
/// and `\` stand for themselves.
pub open spec fn str_body(s: Seq<char>, i: int, acc: Seq<char>) -> Option<(Seq<char>, int)>
    decreases s.len() - i,
{
    if i < 0 || i >= s.len() {
        None
    } else if s[i] == '"' {
        Some((acc, i + 1))
    } else if s[i] == '\\' {
        if i + 1 >= s.len() {
            None
        } else if s[i + 1] == 'u' {
            if i + 6 > s.len() {
                None
            } else {
                let v = hex4_val(s, i + 2);
                if v < 0 || v >= 128 {
                    None
                } else {
                    str_body(s, i + 6, acc.push((v as u8) as char))
                }
            }
        } else {
            match esc_code(s[i + 1]) {
                Some(c) => str_body(s, i + 2, acc.push(c)),
                None => None,
            }
        }
    } else {
        str_body(s, i + 1, acc.push(s[i]))
    }
}

pub proof fn lemma_str_body_bounds(s: Seq<char>, i: int, acc: Seq<char>)
    requires
        0 <= i <= s.len(),
    ensures
        match str_body(s, i, acc) {
            Some(p) => i < p.1 <= s.len(),
            None => true,
        },
    decreases s.len() - i,
{
    if i < s.len() {
        if s[i] == '"' {
        } else if s[i] == '\\' {
            if i + 1 < s.len() {
                if s[i + 1] == 'u' {
                    if i + 6 <= s.len() {
                        let v = hex4_val(s, i + 2);
                        if 0 <= v < 128 {
                            lemma_str_body_bounds(s, i + 6, acc.push((v as u8) as char));
                        }
                    }
                } else {
                    match esc_code(s[i + 1]) {
                        Some(c) => {
                            lemma_str_body_bounds(s, i + 2, acc.push(c));
                        },
                        None => {},
                    }
                }
            }
        } else {
            lemma_str_body_bounds(s, i + 1, acc.push(s[i]));
        }
    }
}

/// Exec parse of a string body; `i` just past the opening quote.
fn parse_str_body(s: &str, i: usize, n: usize) -> (r: Option<(String, usize)>)
    requires
        i <= n,
        n == s@.len(),
    ensures
        match r {
            Some(p) => str_body(s@, i as int, Seq::empty()) == Some((p.0@, p.1 as int)) && i < p.1
                <= n,
            None => str_body(s@, i as int, Seq::empty()) is None,
        },
{
    let mut out = String::new();
    let mut j: usize = i;
    loop
        invariant
            i <= j <= n,
            n == s@.len(),
            str_body(s@, i as int, Seq::empty()) == str_body(s@, j as int, out@),
        decreases n - j,
    {
        proof {
            lemma_str_body_bounds(s@, j as int, out@);
        }
        if j >= n {
            return None;
        }
        let c = s.get_char(j);
        if c == '"' {
            return Some((out, j + 1));
        } else if c == '\\' {
            if j + 1 >= n {
                return None;
            }
            let e = s.get_char(j + 1);
            if e == 'u' {
                if n - j < 6 {
                    return None;
                }
                let h0 = hex_digit(s.get_char(j + 2));
                let h1 = hex_digit(s.get_char(j + 3));
                let h2 = hex_digit(s.get_char(j + 4));
                let h3 = hex_digit(s.get_char(j + 5));
                match (h0, h1, h2, h3) {
                    (Some(a), Some(b), Some(cc), Some(d)) => {
                        let v: u32 = a as u32 * 4096 + b as u32 * 256 + cc as u32 * 16 + d as u32;
                        if v >= 128 {
                            return None;
                        }
                        out.push(v as u8 as char);
                        j = j + 6;
                    },
                    _ => {
                        return None;
                    },
                }
            } else {
                let decoded: Option<char> = if e == '"' {
                    Some('"')
                } else if e == '\\' {
                    Some('\\')
                } else if e == '/' {
                    Some('/')
                } else if e == 'n' {
                    Some('\n')
                } else if e == 'r' {
                    Some('\r')
                } else if e == 't' {
                    Some('\t')
                } else if e == 'b' {
                    Some('\u{0008}')
                } else if e == 'f' {
                    Some('\u{000C}')
                } else {
                    None
                };
                match decoded {
                    Some(d) => {
                        out.push(d);
                        j = j + 2;
                    },
                    None => {
                        return None;
                    },
                }
            }
        } else {
            out.push(c);
            j = j + 1;
        }
    }
}

// ---------------------------------------------------------------------
// Unsigned numbers
// ---------------------------------------------------------------------
/// Parse a `u64` at `i`: a nonempty digit run whose value fits.
pub open spec fn u64_at(s: Seq<char>, i: int) -> Option<(u64, int)> {
    let e = digit_run_end(s, i, s.len() as int);
    if e <= i {
        None
    } else if dec_val(s.subrange(i, e)) > u64::MAX {
        None
    } else {
        Some((dec_val(s.subrange(i, e)) as u64, e))
    }
}

/// Exec parse of a `u64` at `i`.
fn parse_u64_at(s: &str, i: usize, n: usize) -> (r: Option<(u64, usize)>)
    requires
        i <= n,
        n == s@.len(),
    ensures
        match r {
            Some(p) => u64_at(s@, i as int) == Some((p.0, p.1 as int)) && i < p.1 <= n,
            None => u64_at(s@, i as int) is None,
        },
{
    let e = crate::text::find_digit_run_end(s, i, n);
    if e == i {
        return None;
    }
    proof {
        lemma_all_digits_of_run(s@, i as int, e as int);
    }
    match crate::text::parse_digit_run(s, i, e) {
        Some(v) => Some((v, e)),
        None => None,
    }
}

proof fn lemma_all_digits_of_run(s: Seq<char>, i: int, e: int)
    requires
        0 <= i <= e <= s.len(),
        digit_run_end(s, i, s.len() as int) == e,
    ensures
        crate::text::all_digits(s.subrange(i, e)),
    decreases e - i,
{
    if i < e {
        assert(is_digit(s[i]));
        lemma_all_digits_of_run(s, i + 1, e);
        let sub = s.subrange(i, e);
        assert forall|m: int| 0 <= m < sub.len() implies is_digit(#[trigger] sub[m]) by {
            if m == 0 {
                assert(sub[0] == s[i]);
            } else {
                assert(sub[m] == s.subrange(i + 1, e)[m - 1]);
                assert(crate::text::all_digits(s.subrange(i + 1, e)));
            }
        }
    } else {
        assert(s.subrange(i, e) =~= Seq::<char>::empty());
    }
}

// ---------------------------------------------------------------------
// Encoder
// ---------------------------------------------------------------------
pub open spec fn hex_char(d: int) -> char {
    if d < 10 {
        (('0' as u8) + d as u8) as char
    } else {
        (('a' as u8) + (d - 10) as u8) as char
    }
}

/// How one character is written inside a JSON string.
pub open spec fn esc_char(c: char) -> Seq<char> {
    if c == '"' {
        seq!['\\', '"']
    } else if c == '\\' {
        seq!['\\', '\\']
    } else if c == '\n' {
        seq!['\\', 'n']
    } else if c == '\r' {
        seq!['\\', 'r']
    } else if c == '\t' {
        seq!['\\', 't']
    } else if (c as int) < 32 {
        seq!['\\', 'u', '0', '0', hex_char((c as int) / 16), hex_char((c as int) % 16)]
    } else {
        seq![c]
    }
}

pub open spec fn esc_str(s: Seq<char>) -> Seq<char>
    decreases s.len(),
{
    if s.len() == 0 {
        Seq::empty()
    } else {
        esc_str(s.drop_last()) + esc_char(s.last())
    }
}

/// A JSON string literal: quotes around the escaped text.
pub open spec fn json_string(s: Seq<char>) -> Seq<char> {
    seq!['"'] + esc_str(s) + seq!['"']
}

/// Append the JSON string literal for `s` to `out`.
fn push_json_string(out: &mut String, s: &str)
    ensures
        final(out)@ == old(out)@ + json_string(s@),
{
    let n = s.unicode_len();
    out.push('"');
    let mut i: usize = 0;
    while i < n
        invariant
            i <= n,
            n == s@.len(),
            out@ == old(out)@ + seq!['"'] + esc_str(s@.subrange(0, i as int)),
        decreases n - i,
    {
        let ghost pre = s@.subrange(0, i as int);
        let ghost cur = s@.subrange(0, i as int + 1);
        proof {
            assert(cur.drop_last() =~= pre);
            assert(cur.last() == s@[i as int]);
        }
        let c = s.get_char(i);
        if c == '"' {
            out.push('\\');
            out.push('"');
        } else if c == '\\' {
            out.push('\\');
            out.push('\\');
        } else if c == '\n' {
            out.push('\\');
            out.push('n');
        } else if c == '\r' {
            out.push('\\');
            out.push('r');
        } else if c == '\t' {
            out.push('\\');
            out.push('t');
        } else if (c as u32) < 32 {
            out.push('\\');
            out.push('u');
            out.push('0');
            out.push('0');
            let lo: u8 = c as u8;
            let hi_digit: u8 = lo / 16;
            let lo_digit: u8 = lo % 16;
            out.push(
                if hi_digit < 10 {
                    (('0' as u8) + hi_digit) as char
                } else {
                    (('a' as u8) + (hi_digit - 10)) as char
                },
            );
            out.push(
                if lo_digit < 10 {
                    (('0' as u8) + lo_digit) as char
                } else {
                    (('a' as u8) + (lo_digit - 10)) as char
                },
            );
        } else {
            out.push(c);
        }
        proof {
            assert(out@ =~= old(out)@ + seq!['"'] + esc_str(cur));
        }
        i = i + 1;
    }
    out.push('"');
    proof {
        assert(s@.subrange(0, n as int) =~= s@);
        assert(out@ =~= old(out)@ + json_string(s@));
    }
}

/// The rendering of a list of ids, comma separated.
pub open spec fn render_ids(v: Seq<u64>) -> Seq<char>
    decreases v.len(),
{
    if v.len() == 0 {
        Seq::empty()
    } else if v.len() == 1 {
        dec_render(v[0] as int)
    } else {
        render_ids(v.drop_last()) + seq![','] + dec_render(v.last() as int)
    }
}

/// A JSON array of ids.
pub open spec fn json_ids(v: Seq<u64>) -> Seq<char> {
    seq!['['] + render_ids(v) + seq![']']
}

/// Append the JSON array for `v` to `out`.
fn push_json_ids(out: &mut String, v: &Vec<u64>)
    ensures
        final(out)@ == old(out)@ + json_ids(v@),
{
    out.push('[');
    let mut i: usize = 0;
    while i < v.len()
        invariant
            i <= v@.len(),
            out@ == old(out)@ + seq!['['] + render_ids(v@.subrange(0, i as int)),
        decreases v@.len() - i,
    {
        let ghost pre = v@.subrange(0, i as int);
        let ghost cur = v@.subrange(0, i as int + 1);
        proof {
            assert(cur.drop_last() =~= pre);
            assert(cur.last() == v@[i as int]);
        }
        if i > 0 {
            out.push(',');
        }
        push_decimal(out, v[i]);
        proof {
            if i == 0 {
                assert(cur =~= seq![v@[0]]);
            }
            assert(out@ =~= old(out)@ + seq!['['] + render_ids(cur));
        }
        i = i + 1;
    }
    out.push(']');
    proof {
        assert(v@.subrange(0, v@.len() as int) =~= v@);
        assert(out@ =~= old(out)@ + json_ids(v@));
    }
}

// ---------------------------------------------------------------------
// Keywords and unknown values
// ---------------------------------------------------------------------
pub open spec fn null_at(s: Seq<char>, i: int) -> bool {
    i >= 0 && i + 4 <= s.len() && s[i] == 'n' && s[i + 1] == 'u' && s[i + 2] == 'l' && s[i + 3]
        == 'l'
}

pub open spec fn true_at(s: Seq<char>, i: int) -> bool {
    i >= 0 && i + 4 <= s.len() && s[i] == 't' && s[i + 1] == 'r' && s[i + 2] == 'u' && s[i + 3]
        == 'e'
}

pub open spec fn false_at(s: Seq<char>, i: int) -> bool {
    i >= 0 && i + 5 <= s.len() && s[i] == 'f' && s[i + 1] == 'a' && s[i + 2] == 'l' && s[i + 3]
        == 's' && s[i + 4] == 'e'
}

/// Exec check for `null` at `i`.
fn is_null_at(s: &str, i: usize, n: usize) -> (r: bool)
    requires
        i <= n,
        n == s@.len(),
    ensures
        r == null_at(s@, i as int),
{
    n - i >= 4 && s.get_char(i) == 'n' && s.get_char(i + 1) == 'u' && s.get_char(i + 2) == 'l'
        && s.get_char(i + 3) == 'l'
}

fn is_true_at(s: &str, i: usize, n: usize) -> (r: bool)
    requires
        i <= n,
        n == s@.len(),
    ensures
        r == true_at(s@, i as int),
{
    n - i >= 4 && s.get_char(i) == 't' && s.get_char(i + 1) == 'r' && s.get_char(i + 2) == 'u'
        && s.get_char(i + 3) == 'e'
}

fn is_false_at(s: &str, i: usize, n: usize) -> (r: bool)
    requires
        i <= n,
        n == s@.len(),
    ensures
        r == false_at(s@, i as int),
{
    n - i >= 5 && s.get_char(i) == 'f' && s.get_char(i + 1) == 'a' && s.get_char(i + 2) == 'l'
        && s.get_char(i + 3) == 's' && s.get_char(i + 4) == 'e'
}

/// Characters that may make up an unknown numeric value.
pub open spec fn is_num_char(c: char) -> bool {
    is_digit(c) || c == '-' || c == '+' || c == '.' || c == 'e' || c == 'E'
}

pub open spec fn num_run_end(s: Seq<char>, i: int) -> int
    decreases s.len() - i,
{
    if i < 0 || i >= s.len() || !is_num_char(s[i]) {
        i
    } else {
        num_run_end(s, i + 1)
    }
}

pub proof fn lemma_num_run_end_bounds(s: Seq<char>, i: int)
    requires
        0 <= i <= s.len(),
    ensures
        i <= num_run_end(s, i) <= s.len(),
    decreases s.len() - i,
{
    if i < s.len() && is_num_char(s[i]) {
        lemma_num_run_end_bounds(s, i + 1);
    }
}

fn scan_num_run(s: &str, i: usize, n: usize) -> (r: usize)
    requires
        i <= n,
        n == s@.len(),
    ensures
        r == num_run_end(s@, i as int),
        i <= r <= n,
{
    let mut j: usize = i;
    while j < n
        invariant
            i <= j <= n,
            n == s@.len(),
            num_run_end(s@, i as int) == num_run_end(s@, j as int),
        decreases n - j,
    {
        let c = s.get_char(j);
        if !(('0' <= c && c <= '9') || c == '-' || c == '+' || c == '.' || c == 'e' || c == 'E') {
            return j;
        }
        j = j + 1;
    }
    j
}

/// Skip one scalar value of an unknown member: a string, a number, `true`,
/// `false` or `null`.
pub open spec fn skip_scalar(s: Seq<char>, i: int) -> Option<int> {
    if i < 0 || i >= s.len() {
        None
    } else if s[i] == '"' {
        match str_body(s, i + 1, Seq::empty()) {
            Some(p) => Some(p.1),
            None => None,
        }
    } else if null_at(s, i) || true_at(s, i) {
        Some(i + 4)
    } else if false_at(s, i) {
        Some(i + 5)
    } else {
        let e = num_run_end(s, i);
        if e <= i {
            None
        } else {
            Some(e)
        }
    }
}

pub proof fn lemma_skip_scalar_bounds(s: Seq<char>, i: int)
    requires
        0 <= i <= s.len(),
    ensures
        match skip_scalar(s, i) {
            Some(j) => i < j <= s.len(),
            None => true,
        },
{
    if i < s.len() {
        if s[i] == '"' {
            lemma_str_body_bounds(s, i + 1, Seq::empty());
        } else {
            lemma_num_run_end_bounds(s, i);
        }
    }
}

fn exec_skip_scalar(s: &str, i: usize, n: usize) -> (r: Option<usize>)
    requires
        i <= n,
        n == s@.len(),
    ensures
        match r {
            Some(j) => skip_scalar(s@, i as int) == Some(j as int) && i < j <= n,
            None => skip_scalar(s@, i as int) is None,
        },
{
    if i >= n {
        return None;
    }
    let c = s.get_char(i);
    if c == '"' {
        match parse_str_body(s, i + 1, n) {
            Some(p) => Some(p.1),
            None => None,
        }
    } else if is_null_at(s, i, n) || is_true_at(s, i, n) {
        Some(i + 4)
    } else if is_false_at(s, i, n) {
        Some(i + 5)
    } else {
        let e = scan_num_run(s, i, n);
        if e == i {
            None
        } else {
            Some(e)
        }
    }
}

/// Skip the elements of an array of scalars, starting after some `[` or
/// `,`, up to and past the closing `]`.
pub open spec fn skip_items(s: Seq<char>, i: int) -> Option<int>
    decreases s.len() - i,
{
    let j = ws_end(s, i);
    match skip_scalar(s, j) {
        None => None,
        Some(k) => {
            let l = ws_end(s, k);
            if l >= s.len() {
                None
            } else if s[l] == ']' {
                Some(l + 1)
            } else if s[l] == ',' {
                if l + 1 <= i || l + 1 > s.len() {
                    None
                } else {
                    skip_items(s, l + 1)
                }
            } else {
                None
            }
        },
    }
}

pub proof fn lemma_skip_items_bounds(s: Seq<char>, i: int)
    requires
        0 <= i <= s.len(),
    ensures
        match skip_items(s, i) {
            Some(j) => i < j <= s.len(),
            None => true,
        },
    decreases s.len() - i,
{
    lemma_ws_end_bounds(s, i);
    let j = ws_end(s, i);
    lemma_skip_scalar_bounds(s, j);
    match skip_scalar(s, j) {
        None => {},
        Some(k) => {
            lemma_ws_end_bounds(s, k);
            let l = ws_end(s, k);
            if l < s.len() && s[l] == ',' && l + 1 > i && l + 1 <= s.len() {
                lemma_skip_items_bounds(s, l + 1);
            }
        },
    }
}

/// Skip one value of an unknown member: a scalar, or a flat array of
/// scalars. Nested objects or arrays fail the line.
pub open spec fn skip_value(s: Seq<char>, i: int) -> Option<int> {
    if i < 0 || i >= s.len() {
        None
    } else if s[i] == '[' {
        let j = ws_end(s, i + 1);
        if j < s.len() && s[j] == ']' {
            Some(j + 1)
        } else {
            skip_items(s, i + 1)
        }
    } else {
        skip_scalar(s, i)
    }
}

pub proof fn lemma_skip_value_bounds(s: Seq<char>, i: int)
    requires
        0 <= i <= s.len(),
    ensures
        match skip_value(s, i) {
            Some(j) => i < j <= s.len(),
            None => true,
        },
{
    if i < s.len() {
        if s[i] == '[' {
            lemma_ws_end_bounds(s, i + 1);
            lemma_skip_items_bounds(s, i + 1);
        } else {
            lemma_skip_scalar_bounds(s, i);
        }
    }
}

fn exec_skip_value(s: &str, i: usize, n: usize) -> (r: Option<usize>)
    requires
        i <= n,
        n == s@.len(),
    ensures
        match r {
            Some(j) => skip_value(s@, i as int) == Some(j as int) && i < j <= n,
            None => skip_value(s@, i as int) is None,
        },
{
    if i >= n {
        return None;
    }
    if s.get_char(i) != '[' {
        return exec_skip_scalar(s, i, n);
    }
    let j = skip_ws(s, i + 1, n);
    if j < n && s.get_char(j) == ']' {
        return Some(j + 1);
    }
    let mut cur: usize = i + 1;
    loop
        invariant
            i + 1 <= cur <= n,
            n == s@.len(),
            skip_items(s@, i as int + 1) == skip_items(s@, cur as int),
            skip_value(s@, i as int) == skip_items(s@, i as int + 1),
        decreases n - cur,
    {
        let j = skip_ws(s, cur, n);
        let k = match exec_skip_scalar(s, j, n) {
            Some(k) => k,
            None => {
                return None;
            },
        };
        let l = skip_ws(s, k, n);
        if l >= n {
            return None;
        }
        let c = s.get_char(l);
        if c == ']' {
            return Some(l + 1);
        }
        if c != ',' {
            return None;
        }
        cur = l + 1;
    }
}

// ---------------------------------------------------------------------
// Arrays of ids
// ---------------------------------------------------------------------
/// Parse the elements of an id array, starting after some `[` or `,`,
/// with `acc` the ids read so far.
pub open spec fn ids_items(s: Seq<char>, i: int, acc: Seq<u64>) -> Option<(Seq<u64>, int)>
    decreases s.len() - i,
{
    let j = ws_end(s, i);
    match u64_at(s, j) {
        None => None,
        Some((v, k)) => {
            let l = ws_end(s, k);
            if l >= s.len() {
                None
            } else if s[l] == ']' {
                Some((acc.push(v), l + 1))
            } else if s[l] == ',' {
                if l + 1 <= i || l + 1 > s.len() {
                    None
                } else {
                    ids_items(s, l + 1, acc.push(v))
                }
            } else {
                None
            }
        },
    }
}

pub proof fn lemma_u64_at_bounds(s: Seq<char>, i: int)
    requires
        0 <= i <= s.len(),
    ensures
        match u64_at(s, i) {
            Some(p) => i < p.1 <= s.len(),
            None => true,
        },
{
    crate::text::lemma_digit_run_end_bounds(s, i, s.len() as int);
}

pub proof fn lemma_ids_items_bounds(s: Seq<char>, i: int, acc: Seq<u64>)
    requires
        0 <= i <= s.len(),
    ensures
        match ids_items(s, i, acc) {
            Some(p) => i < p.1 <= s.len(),
            None => true,
        },
    decreases s.len() - i,
{
    lemma_ws_end_bounds(s, i);
    let j = ws_end(s, i);
    lemma_u64_at_bounds(s, j);
    match u64_at(s, j) {
        None => {},
        Some((v, k)) => {
            lemma_ws_end_bounds(s, k);
            let l = ws_end(s, k);
            if l < s.len() && s[l] == ',' && l + 1 > i && l + 1 <= s.len() {
                lemma_ids_items_bounds(s, l + 1, acc.push(v));
            }
        },
    }
}

/// Parse a JSON array of ids at `i`.
pub open spec fn ids_array(s: Seq<char>, i: int) -> Option<(Seq<u64>, int)> {
    if i < 0 || i >= s.len() || s[i] != '[' {
        None
    } else {
        let j = ws_end(s, i + 1);
        if j < s.len() && s[j] == ']' {
            Some((Seq::empty(), j + 1))
        } else {
            ids_items(s, i + 1, Seq::empty())
        }
    }
}

pub proof fn lemma_ids_array_bounds(s: Seq<char>, i: int)
    requires
        0 <= i <= s.len(),
    ensures
        match ids_array(s, i) {
            Some(p) => i < p.1 <= s.len(),
            None => true,
        },
{
    if i < s.len() && s[i] == '[' {
        lemma_ws_end_bounds(s, i + 1);
        lemma_ids_items_bounds(s, i + 1, Seq::empty());
    }
}

fn parse_ids_array(s: &str, i: usize, n: usize) -> (r: Option<(Vec<u64>, usize)>)
    requires
        i <= n,
        n == s@.len(),
    ensures
        match r {
            Some(p) => ids_array(s@, i as int) == Some((p.0@, p.1 as int)) && i < p.1 <= n,
            None => ids_array(s@, i as int) is None,
        },
{
    if i >= n || s.get_char(i) != '[' {
        return None;
    }
    let j = skip_ws(s, i + 1, n);
    if j < n && s.get_char(j) == ']' {
        let empty: Vec<u64> = Vec::new();
        proof {
            assert(empty@ =~= Seq::<u64>::empty());
        }
        return Some((empty, j + 1));
    }
    let mut out: Vec<u64> = Vec::new();
    let mut cur: usize = i + 1;
    proof {
        assert(out@ =~= Seq::<u64>::empty());
    }
    loop
        invariant
            i + 1 <= cur <= n,
            n == s@.len(),
            ids_items(s@, i as int + 1, Seq::empty()) == ids_items(s@, cur as int, out@),
            ids_array(s@, i as int) == ids_items(s@, i as int + 1, Seq::empty()),
        decreases n - cur,
    {
        let j = skip_ws(s, cur, n);
        let (v, k) = match parse_u64_at(s, j, n) {
            Some(p) => p,
            None => {
                return None;
            },
        };
        let l = skip_ws(s, k, n);
        if l >= n {
            return None;
        }
        let c = s.get_char(l);
        if c == ']' {
            out.push(v);
            return Some((out, l + 1));
        }
        if c != ',' {
            return None;
        }
        out.push(v);
        cur = l + 1;
    }
}

// ---------------------------------------------------------------------
// Members of the event object
// ---------------------------------------------------------------------
/// The fields collected while reading an event object.
pub struct PartialEvent {
    pub id: Option<u64>,
    pub event_type: Option<Seq<char>>,
    pub url: Option<Seq<char>>,
    pub title: Option<Seq<char>>,
    pub by: Option<Seq<char>>,
    pub ref_id: Option<u64>,
    pub order: Option<Seq<u64>>,
}

pub open spec fn empty_acc() -> PartialEvent {
    PartialEvent {
        id: None,
        event_type: None,
        url: None,
        title: None,
        by: None,
        ref_id: None,
        order: None,
    }
}

/// Exec accumulator matching `PartialEvent`.
pub struct EventAcc {
    pub id: Option<u64>,
    pub event_type: Option<String>,
    pub url: Option<String>,
    pub title: Option<String>,
    pub by: Option<String>,
    pub ref_id: Option<u64>,
    pub order: Option<Vec<u64>>,
}

impl View for EventAcc {
    type V = PartialEvent;

    open spec fn view(&self) -> PartialEvent {
        PartialEvent {
            id: self.id,
            event_type: crate::events::opt_string_view(&self.event_type),
            url: crate::events::opt_string_view(&self.url),
            title: crate::events::opt_string_view(&self.title),
            by: crate::events::opt_string_view(&self.by),
            ref_id: self.ref_id,
            order: crate::events::opt_vec_view(&self.order),
        }
    }
}

/// A string member value that may also be `null` (meaning: absent).
pub open spec fn string_or_null(s: Seq<char>, i: int) -> Option<(Option<Seq<char>>, int)> {
    if null_at(s, i) {
        Some((None, i + 4))
    } else if i >= 0 && i < s.len() && s[i] == '"' {
        match str_body(s, i + 1, Seq::empty()) {
            Some(p) => Some((Some(p.0), p.1)),
            None => None,
        }
    } else {
        None
    }
}

/// One member value at `i`, dispatched on the key. Unknown keys have their
/// value skipped; the known keys set their field.
pub open spec fn member_value(s: Seq<char>, i: int, key: Seq<char>, acc: PartialEvent) -> Option<
    (PartialEvent, int),
> {
    if key == "id"@ {
        match u64_at(s, i) {
            Some(p) => Some((PartialEvent { id: Some(p.0), ..acc }, p.1)),
            None => None,
        }
    } else if key == "type"@ {
        if i >= 0 && i < s.len() && s[i] == '"' {
            match str_body(s, i + 1, Seq::empty()) {
                Some(p) => Some((PartialEvent { event_type: Some(p.0), ..acc }, p.1)),
                None => None,
            }
        } else {
            None
        }
    } else if key == "url"@ {
        match string_or_null(s, i) {
            Some(p) => Some((PartialEvent { url: p.0, ..acc }, p.1)),
            None => None,
        }
    } else if key == "title"@ {
        match string_or_null(s, i) {
            Some(p) => Some((PartialEvent { title: p.0, ..acc }, p.1)),
            None => None,
        }
    } else if key == "by"@ {
        match string_or_null(s, i) {
            Some(p) => Some((PartialEvent { by: p.0, ..acc }, p.1)),
            None => None,
        }
    } else if key == "ref"@ {
        if null_at(s, i) {
            Some((PartialEvent { ref_id: None, ..acc }, i + 4))
        } else {
            match u64_at(s, i) {
                Some(p) => Some((PartialEvent { ref_id: Some(p.0), ..acc }, p.1)),
                None => None,
            }
        }
    } else if key == "order"@ {
        if null_at(s, i) {
            Some((PartialEvent { order: None, ..acc }, i + 4))
        } else {
            match ids_array(s, i) {
                Some(p) => Some((PartialEvent { order: Some(p.0), ..acc }, p.1)),
                None => None,
            }
        }
    } else {
        match skip_value(s, i) {
            Some(j) => Some((acc, j)),
            None => None,
        }
    }
}

pub proof fn lemma_member_value_bounds(s: Seq<char>, i: int, key: Seq<char>, acc: PartialEvent)
    requires
        0 <= i <= s.len(),
    ensures
        match member_value(s, i, key, acc) {
            Some(p) => i < p.1 <= s.len(),
            None => true,
        },
{
    lemma_u64_at_bounds(s, i);
    if i < s.len() {
        lemma_str_body_bounds(s, i + 1, Seq::empty());
    }
    lemma_ids_array_bounds(s, i);
    lemma_skip_value_bounds(s, i);
}

/// Exec member value; on success the accumulator holds the new field.
fn exec_member_value(s: &str, i: usize, n: usize, key: &String, acc: &mut EventAcc) -> (r: Option<
    usize,
>)
    requires
        i <= n,
        n == s@.len(),
    ensures
        match r {
            Some(j) => member_value(s@, i as int, key@, old(acc)@) == Some((final(acc)@, j as int))
                && i < j <= n,
            None => member_value(s@, i as int, key@, old(acc)@) is None && *final(acc) == *old(acc),
        },
{
    if key.eq(&String::from_str("id")) {
        match parse_u64_at(s, i, n) {
            Some(p) => {
                acc.id = Some(p.0);
                Some(p.1)
            },
            None => None,
        }
    } else if key.eq(&String::from_str("type")) {
        if i < n && s.get_char(i) == '"' {
            match parse_str_body(s, i + 1, n) {
                Some(p) => {
                    acc.event_type = Some(p.0);
                    Some(p.1)
                },
                None => None,
            }
        } else {
            None
        }
    } else if key.eq(&String::from_str("url")) {
        if is_null_at(s, i, n) {
            acc.url = None;
            Some(i + 4)
        } else if i < n && s.get_char(i) == '"' {
            match parse_str_body(s, i + 1, n) {
                Some(p) => {
                    acc.url = Some(p.0);
                    Some(p.1)
                },
                None => None,
            }
        } else {
            None
        }
    } else if key.eq(&String::from_str("title")) {
        if is_null_at(s, i, n) {
            acc.title = None;
            Some(i + 4)
        } else if i < n && s.get_char(i) == '"' {
            match parse_str_body(s, i + 1, n) {
                Some(p) => {
                    acc.title = Some(p.0);
                    Some(p.1)
                },
                None => None,
            }
        } else {
            None
        }
    } else if key.eq(&String::from_str("by")) {
        if is_null_at(s, i, n) {
            acc.by = None;
            Some(i + 4)
        } else if i < n && s.get_char(i) == '"' {
            match parse_str_body(s, i + 1, n) {
                Some(p) => {
                    acc.by = Some(p.0);
                    Some(p.1)
                },
                None => None,
            }
        } else {
            None
        }
    } else if key.eq(&String::from_str("ref")) {
        if is_null_at(s, i, n) {
            acc.ref_id = None;
            Some(i + 4)
        } else {
            match parse_u64_at(s, i, n) {
                Some(p) => {
                    acc.ref_id = Some(p.0);
                    Some(p.1)
                },
                None => None,
            }
        }
    } else if key.eq(&String::from_str("order")) {
        if is_null_at(s, i, n) {
            acc.order = None;
            Some(i + 4)
        } else {
            match parse_ids_array(s, i, n) {
                Some(p) => {
                    acc.order = Some(p.0);
                    Some(p.1)
                },
                None => None,
            }
        }
    } else {
        match exec_skip_value(s, i, n) {
            Some(j) => Some(j),
            None => None,
        }
    }
}

/// The members of the event object from `i` (at a key) to the closing
/// brace, threading the accumulator.
pub open spec fn members(s: Seq<char>, i: int, acc: PartialEvent) -> Option<(PartialEvent, int)>
    decreases s.len() - i,
{
    if i < 0 || i >= s.len() || s[i] != '"' {
        None
    } else {
        match str_body(s, i + 1, Seq::empty()) {
            None => None,
            Some(kp) => {
                let j2 = ws_end(s, kp.1);
                if j2 >= s.len() || s[j2] != ':' {
                    None
                } else {
                    let j3 = ws_end(s, j2 + 1);
                    match member_value(s, j3, kp.0, acc) {
                        None => None,
                        Some(vp) => {
                            let k2 = ws_end(s, vp.1);
                            if k2 >= s.len() {
                                None
                            } else if s[k2] == '}' {
                                Some((vp.0, k2 + 1))
                            } else if s[k2] == ',' {
                                let k3 = ws_end(s, k2 + 1);
                                if k3 <= i || k3 > s.len() {
                                    None
                                } else {
                                    members(s, k3, vp.0)
                                }
                            } else {
                                None
                            }
                        },
                    }
                }
            },
        }
    }
}

pub proof fn lemma_members_bounds(s: Seq<char>, i: int, acc: PartialEvent)
    requires
        0 <= i <= s.len(),
    ensures
        match members(s, i, acc) {
            Some(p) => i < p.1 <= s.len(),
            None => true,
        },
    decreases s.len() - i,
{
    if 0 <= i < s.len() && s[i] == '"' {
        lemma_str_body_bounds(s, i + 1, Seq::empty());
        match str_body(s, i + 1, Seq::empty()) {
            None => {},
            Some(kp) => {
                lemma_ws_end_bounds(s, kp.1);
                let j2 = ws_end(s, kp.1);
                if j2 < s.len() && s[j2] == ':' {
                    lemma_ws_end_bounds(s, j2 + 1);
                    let j3 = ws_end(s, j2 + 1);
                    lemma_member_value_bounds(s, j3, kp.0, acc);
                    match member_value(s, j3, kp.0, acc) {
                        None => {},
                        Some(vp) => {
                            lemma_ws_end_bounds(s, vp.1);
                            let k2 = ws_end(s, vp.1);
                            if k2 < s.len() && s[k2] != '}' && s[k2] == ',' {
                                let k3 = ws_end(s, k2 + 1);
                                lemma_ws_end_bounds(s, k2 + 1);
                                if i < k3 <= s.len() {
                                    lemma_members_bounds(s, k3, vp.0);
                                }
                            }
                        },
                    }
                }
            },
        }
    }
}

/// Exec member loop.
fn parse_members(s: &str, i: usize, n: usize, acc: &mut EventAcc) -> (r: Option<usize>)
    requires
        i <= n,
        n == s@.len(),
    ensures
        match r {
            Some(j) => members(s@, i as int, old(acc)@) == Some((final(acc)@, j as int)) && i < j
                <= n,
            None => members(s@, i as int, old(acc)@) is None,
        },
{
    let ghost acc0 = acc@;
    let mut cur: usize = i;
    loop
        invariant
            i <= cur <= n,
            n == s@.len(),
            acc0 == old(acc)@,
            members(s@, i as int, acc0) == members(s@, cur as int, acc@),
        decreases n - cur,
    {
        let ghost acc_in = acc@;
        proof {
            lemma_members_bounds(s@, cur as int, acc_in);
        }
        if cur >= n || s.get_char(cur) != '"' {
            proof {
                assert(members(s@, cur as int, acc_in) is None);
            }
            return None;
        }
        let key = match parse_str_body(s, cur + 1, n) {
            Some(p) => p,
            None => {
                proof {
                    assert(members(s@, cur as int, acc_in) is None);
                }
                return None;
            },
        };
        let j2 = skip_ws(s, key.1, n);
        if j2 >= n || s.get_char(j2) != ':' {
            proof {
                assert(members(s@, cur as int, acc_in) is None);
            }
            return None;
        }
        let j3 = skip_ws(s, j2 + 1, n);
        let k = match exec_member_value(s, j3, n, &key.0, acc) {
            Some(k) => k,
            None => {
                proof {
                    assert(member_value(s@, j3 as int, key.0@, acc_in) is None);
                    assert(members(s@, cur as int, acc_in) is None);
                }
                return None;
            },
        };
        proof {
            assert(member_value(s@, j3 as int, key.0@, acc_in) == Some((acc@, k as int)));
        }
        let k2 = skip_ws(s, k, n);
        if k2 >= n {
            proof {
                assert(members(s@, cur as int, acc_in) is None);
            }
            return None;
        }
        let c = s.get_char(k2);
        if c == '}' {
            proof {
                assert(members(s@, cur as int, acc_in) == Some((acc@, k2 as int + 1)));
            }
            return Some(k2 + 1);
        }
        if c != ',' {
            proof {
                assert(members(s@, cur as int, acc_in) is None);
            }
            return None;
        }
        let k3 = skip_ws(s, k2 + 1, n);
        proof {
            assert(cur < k3 <= n);
            assert(members(s@, cur as int, acc_in) == members(s@, k3 as int, acc@));
        }
        cur = k3;
    }
}

// ---------------------------------------------------------------------
// Whole events and whole logs
// ---------------------------------------------------------------------
/// An event needs at least an id and a type; the other fields are
/// whatever the members supplied.
pub open spec fn finalize(acc: PartialEvent) -> Option<crate::events::EventView> {
    match (acc.id, acc.event_type) {
        (Some(id), Some(t)) => Some(
            crate::events::EventView {
                id,
                event_type: t,
                url: acc.url,
                title: acc.title,
                by: acc.by,
                ref_id: acc.ref_id,
                order: acc.order,
            },
        ),
        _ => None,
    }
}

/// Parse one log line as an event. Blanks may surround the object;
/// anything else before or after it fails the line.
pub open spec fn spec_parse_event(s: Seq<char>) -> Option<crate::events::EventView> {
    let i = ws_end(s, 0);
    if i >= s.len() || s[i] != '{' {
        None
    } else {
        let j = ws_end(s, i + 1);
        let r = if j < s.len() && s[j] == '}' {
            Some((empty_acc(), j + 1))
        } else {
            members(s, j, empty_acc())
        };
        match r {
            None => None,
            Some(p) => {
                if 0 <= p.1 <= s.len() && ws_end(s, p.1) == s.len() {
                    finalize(p.0)
                } else {
                    None
                }
            },
        }
    }
}

/// Parse one line; `None` when the line does not hold a well-formed event.
pub fn parse_event(line: &str) -> (r: Option<crate::events::QueueEvent>)
    ensures
        match r {
            Some(ev) => spec_parse_event(line@) == Some(ev@),
            None => spec_parse_event(line@) is None,
        },
{
    let n = line.unicode_len();
    let i = skip_ws(line, 0, n);
    if i >= n || line.get_char(i) != '{' {
        return None;
    }
    let j = skip_ws(line, i + 1, n);
    let mut acc = EventAcc {
        id: None,
        event_type: None,
        url: None,
        title: None,
        by: None,
        ref_id: None,
        order: None,
    };
    let e: usize = if j < n && line.get_char(j) == '}' {
        j + 1
    } else {
        match parse_members(line, j, n, &mut acc) {
            Some(e) => e,
            None => {
                return None;
            },
        }
    };
    let t = skip_ws(line, e, n);
    if t != n {
        return None;
    }
    let (id, event_type) = match (acc.id, acc.event_type) {
        (Some(id), Some(t)) => (id, t),
        _ => {
            return None;
        },
    };
    Some(
        crate::events::QueueEvent {
            id,
            event_type,
            url: acc.url,
            title: acc.title,
            by: acc.by,
            ref_id: acc.ref_id,
            order: acc.order,
        },
    )
}

/// The events of the log text from `i` on: one line per event, split on
/// newlines, lines that do not parse skipped.
pub open spec fn spec_parse_log_from(s: Seq<char>, i: int) -> Seq<crate::events::EventView>
    decreases s.len() - i,
{
    if i < 0 || i >= s.len() {
        Seq::empty()
    } else {
        let e = crate::text::find_char(s, i, s.len() as int, '\n');
        if e < i || e > s.len() {
            Seq::empty()
        } else {
            let head = match spec_parse_event(s.subrange(i, e)) {
                Some(ev) => seq![ev],
                None => Seq::<crate::events::EventView>::empty(),
            };
            if e >= s.len() {
                head
            } else {
                head + spec_parse_log_from(s, e + 1)
            }
        }
    }
}

pub open spec fn spec_parse_log(s: Seq<char>) -> Seq<crate::events::EventView> {
    spec_parse_log_from(s, 0)
}

/// Parse a whole log text; lines that hold no well-formed event are
/// skipped, the rest of the log still counts.
pub fn parse_log(content: &str) -> (r: Vec<crate::events::QueueEvent>)
    ensures
        crate::events::events_view(r@) == spec_parse_log(content@),
{
    let n = content.unicode_len();
    let mut out: Vec<crate::events::QueueEvent> = Vec::new();
    let mut pos: usize = 0;
    proof {
        assert(crate::events::events_view(out@) =~= Seq::<crate::events::EventView>::empty());
    }
    while pos < n
        invariant
            0 <= pos <= n,
            n == content@.len(),
            spec_parse_log(content@) == crate::events::events_view(out@) + spec_parse_log_from(
                content@,
                pos as int,
            ),
        decreases n - pos,
    {
        let e = crate::text::scan_find_char(content, pos, n, '\n');
        let line = content.substring_char(pos, e);
        let ghost pre = crate::events::events_view(out@);
        let ghost head = match spec_parse_event(content@.subrange(pos as int, e as int)) {
            Some(ev) => seq![ev],
            None => Seq::<crate::events::EventView>::empty(),
        };
        match parse_event(line) {
            Some(ev) => {
                out.push(ev);
                proof {
                    assert(crate::events::events_view(out@) =~= pre + head);
                }
            },
            None => {
                proof {
                    assert(crate::events::events_view(out@) =~= pre + head);
                }
            },
        }
        proof {
            if e < n {
                assert(spec_parse_log_from(content@, pos as int) == head + spec_parse_log_from(
                    content@,
                    e as int + 1,
                ));
                assert(pre + (head + spec_parse_log_from(content@, e as int + 1)) =~= (pre + head)
                    + spec_parse_log_from(content@, e as int + 1));
            } else {
                assert(spec_parse_log_from(content@, pos as int) == head);
                assert(spec_parse_log_from(content@, n as int) =~= Seq::<
                    crate::events::EventView,
                >::empty());
                assert(pre + head =~= (pre + head) + spec_parse_log_from(content@, n as int));
            }
        }
        if e >= n {
            pos = n;
        } else {
            pos = e + 1;
        }
    }
    proof {
        assert(spec_parse_log_from(content@, n as int) =~= Seq::<
            crate::events::EventView,
        >::empty());
        assert(crate::events::events_view(out@) + spec_parse_log_from(content@, n as int)
            =~= crate::events::events_view(out@));
    }
    out
}

// ---------------------------------------------------------------------
// Encoding
// ---------------------------------------------------------------------
/// The JSON line for an event: the members in a fixed order, absent
/// payload fields left out.
pub open spec fn spec_encode_event(e: crate::events::EventView) -> Seq<char> {
    "{\"id\":"@ + dec_render(e.id as int) + ",\"type\":"@ + json_string(e.event_type) + (match e
        .ref_id {
        Some(r) => ",\"ref\":"@ + dec_render(r as int),
        None => Seq::<char>::empty(),
    }) + (match e.url {
        Some(u) => ",\"url\":"@ + json_string(u),
        None => Seq::<char>::empty(),
    }) + (match e.title {
        Some(t) => ",\"title\":"@ + json_string(t),
        None => Seq::<char>::empty(),
    }) + (match e.by {
        Some(b) => ",\"by\":"@ + json_string(b),
        None => Seq::<char>::empty(),
    }) + (match e.order {
        Some(o) => ",\"order\":"@ + json_ids(o),
        None => Seq::<char>::empty(),
    }) + "}"@
}

/// Render an event as its JSON log line.
#[verifier::rlimit(100)]
#[verifier::spinoff_prover]
pub fn encode_event(e: &crate::events::QueueEvent) -> (r: String)
    ensures
        r@ == spec_encode_event(e@),
{
    let mut out = String::new();
    out.append("{\"id\":");
    push_decimal(&mut out, e.id);
    out.append(",\"type\":");
    push_json_string(&mut out, e.event_type.as_str());
    match &e.ref_id {
        Some(r) => {
            out.append(",\"ref\":");
            push_decimal(&mut out, *r);
        },
        None => {},
    }
    match &e.url {
        Some(u) => {
            out.append(",\"url\":");
            push_json_string(&mut out, u.as_str());
        },
        None => {},
    }
    match &e.title {
        Some(t) => {
            out.append(",\"title\":");
            push_json_string(&mut out, t.as_str());
        },
        None => {},
    }
    match &e.by {
        Some(b) => {
            out.append(",\"by\":");
            push_json_string(&mut out, b.as_str());
        },
        None => {},
    }
    match &e.order {
        Some(o) => {
            out.append(",\"order\":");
            push_json_ids(&mut out, o);
        },
        None => {},
    }
    out.append("}");
    proof {
        assert(out@ =~= spec_encode_event(e@));
    }
    out
}

/// The largest id among the events; zero for an empty log.
pub open spec fn spec_max_id(events: Seq<crate::events::EventView>) -> u64
    decreases events.len(),
{
    if events.len() == 0 {
        0u64
    } else {
        let m = spec_max_id(events.drop_last());
        if events.last().id > m {
            events.last().id
        } else {
            m
        }
    }
}

/// The largest id among the given events.
pub fn max_event_id(events: &Vec<crate::events::QueueEvent>) -> (r: u64)
    ensures
        r == spec_max_id(crate::events::events_view(events@)),
{
    let ghost view = crate::events::events_view(events@);
    let mut m: u64 = 0;
    let mut i: usize = 0;
    proof {
        assert(view.subrange(0, 0) =~= Seq::<crate::events::EventView>::empty());
    }
    while i < events.len()
        invariant
            i <= events@.len(),
            view == crate::events::events_view(events@),
            m == spec_max_id(view.subrange(0, i as int)),
        decreases events@.len() - i,
    {
        proof {
            assert(view.subrange(0, i as int + 1).drop_last() =~= view.subrange(0, i as int));
            assert(view.subrange(0, i as int + 1).last() == events@[i as int]@);
        }
        if events[i].id > m {
            m = events[i].id;
        }
        i = i + 1;
    }
    proof {
        assert(view.subrange(0, events@.len() as int) =~= view);
    }
    m
}

// ---------------------------------------------------------------------
// Line safety of the encoding
// ---------------------------------------------------------------------
/// Text that can stand inside one log line.
pub open spec fn line_safe(s: Seq<char>) -> bool {
    forall|i: int| 0 <= i < s.len() ==> #[trigger] s[i] != '\n'
}

proof fn lemma_line_safe_concat(a: Seq<char>, b: Seq<char>)
    requires
        line_safe(a),
        line_safe(b),
    ensures
        line_safe(a + b),
{
    assert forall|i: int| 0 <= i < (a + b).len() implies #[trigger] (a + b)[i] != '\n' by {
        if i < a.len() {
            assert((a + b)[i] == a[i]);
        } else {
            assert((a + b)[i] == b[i - a.len()]);
        }
    }
}

proof fn lemma_digits_line_safe(s: Seq<char>)
    requires
        crate::text::all_digits(s),
    ensures
        line_safe(s),
{
    assert forall|i: int| 0 <= i < s.len() implies #[trigger] s[i] != '\n' by {
        assert(is_digit(s[i]));
    }
}

proof fn lemma_dec_render_line_safe(n: int)
    requires
        n >= 0,
    ensures
        line_safe(dec_render(n)),
{
    crate::text::lemma_dec_render_val(n);
    lemma_digits_line_safe(dec_render(n));
}

proof fn lemma_esc_char_line_safe(c: char)
    ensures
        line_safe(esc_char(c)),
{
    if c == '"' || c == '\\' || c == '\n' || c == '\r' || c == '\t' {
    } else if (c as int) < 32 {
        assert(c as int >= 0);
        assert(0 <= (c as int) / 16 < 2);
        assert(0 <= (c as int) % 16 < 16);
        assert(hex_char((c as int) / 16) != '\n');
        assert(hex_char((c as int) % 16) != '\n');
    } else {
        assert(esc_char(c) =~= seq![c]);
    }
}

proof fn lemma_esc_str_line_safe(s: Seq<char>)
    ensures
        line_safe(esc_str(s)),
    decreases s.len(),
{
    if s.len() == 0 {
    } else {
        lemma_esc_str_line_safe(s.drop_last());
        lemma_esc_char_line_safe(s.last());
        lemma_line_safe_concat(esc_str(s.drop_last()), esc_char(s.last()));
    }
}

proof fn lemma_json_string_line_safe(s: Seq<char>)
    ensures
        line_safe(json_string(s)),
{
    lemma_esc_str_line_safe(s);
    assert(line_safe(seq!['"']));
    lemma_line_safe_concat(seq!['"'], esc_str(s));
    lemma_line_safe_concat(seq!['"'] + esc_str(s), seq!['"']);
    assert(seq!['"'] + esc_str(s) + seq!['"'] == json_string(s));
}

proof fn lemma_render_ids_line_safe(v: Seq<u64>)
    ensures
        line_safe(render_ids(v)),
    decreases v.len(),
{
    if v.len() == 0 {
    } else if v.len() == 1 {
        lemma_dec_render_line_safe(v[0] as int);
    } else {
        lemma_render_ids_line_safe(v.drop_last());
        lemma_dec_render_line_safe(v.last() as int);
        assert(line_safe(seq![',']));
        lemma_line_safe_concat(render_ids(v.drop_last()), seq![',']);
        lemma_line_safe_concat(render_ids(v.drop_last()) + seq![','], dec_render(v.last() as int));
    }
}

proof fn lemma_strlit_line_safe_parts()
    ensures
        line_safe("{\"id\":"@),
        line_safe(",\"type\":"@),
        line_safe(",\"ref\":"@),
        line_safe(",\"url\":"@),
        line_safe(",\"title\":"@),
        line_safe(",\"by\":"@),
        line_safe(",\"order\":"@),
        line_safe("}"@),
{
    reveal_strlit("{\"id\":");
    reveal_strlit(",\"type\":");
    reveal_strlit(",\"ref\":");
    reveal_strlit(",\"url\":");
    reveal_strlit(",\"title\":");
    reveal_strlit(",\"by\":");
    reveal_strlit(",\"order\":");
    reveal_strlit("}");
}

/// One event, one line: the rendering of an event never holds a newline,
/// whatever its title, URL, attribution or ordering hold, so appending a
/// rendered event can never break the log's line framing.
pub proof fn lemma_encoded_event_line_safe(e: crate::events::EventView)
    ensures
        line_safe(spec_encode_event(e)),
{
    lemma_strlit_line_safe_parts();
    lemma_dec_render_line_safe(e.id as int);
    lemma_json_string_line_safe(e.event_type);
    let p1 = "{\"id\":"@ + dec_render(e.id as int);
    lemma_line_safe_concat("{\"id\":"@, dec_render(e.id as int));
    let p2 = p1 + ",\"type\":"@;
    lemma_line_safe_concat(p1, ",\"type\":"@);
    let p3 = p2 + json_string(e.event_type);
    lemma_line_safe_concat(p2, json_string(e.event_type));
    let r = match e.ref_id {
        Some(v) => {
            lemma_dec_render_line_safe(v as int);
            lemma_line_safe_concat(",\"ref\":"@, dec_render(v as int));
            ",\"ref\":"@ + dec_render(v as int)
        },
        None => Seq::<char>::empty(),
    };
    let p4 = p3 + r;
    lemma_line_safe_concat(p3, r);
    let u = match e.url {
        Some(s) => {
            lemma_json_string_line_safe(s);
            lemma_line_safe_concat(",\"url\":"@, json_string(s));
            ",\"url\":"@ + json_string(s)
        },
        None => Seq::<char>::empty(),
    };
    let p5 = p4 + u;
    lemma_line_safe_concat(p4, u);
    let t = match e.title {
        Some(s) => {
            lemma_json_string_line_safe(s);
            lemma_line_safe_concat(",\"title\":"@, json_string(s));
            ",\"title\":"@ + json_string(s)
        },
        None => Seq::<char>::empty(),
    };
    let p6 = p5 + t;
    lemma_line_safe_concat(p5, t);
    let b = match e.by {
        Some(s) => {
            lemma_json_string_line_safe(s);
            lemma_line_safe_concat(",\"by\":"@, json_string(s));
            ",\"by\":"@ + json_string(s)
        },
        None => Seq::<char>::empty(),
    };
    let p7 = p6 + b;
    lemma_line_safe_concat(p6, b);
    let o = match e.order {
        Some(v) => {
            lemma_render_ids_line_safe(v);
            lemma_line_safe_concat(seq!['['], render_ids(v));
            lemma_line_safe_concat(seq!['['] + render_ids(v), seq![']']);
            lemma_line_safe_concat(",\"order\":"@, json_ids(v));
            ",\"order\":"@ + json_ids(v)
        },
        None => Seq::<char>::empty(),
    };
    let p8 = p7 + o;
    lemma_line_safe_concat(p7, o);
    lemma_line_safe_concat(p8, "}"@);
    assert(spec_encode_event(e) == p8 + "}"@);
}

// ---------------------------------------------------------------------
// The string reader inverts the string writer
// ---------------------------------------------------------------------
proof fn lemma_char_code_range(c: char)
    ensures
        0 <= c as int <= 0x10FFFF,
{
}

proof fn lemma_hex_char_val(d: int)
    requires
        0 <= d < 16,
    ensures
        hex_val(hex_char(d)) == d,
{
    if d < 10 {
        assert(hex_char(d) as int == '0' as int + d);
    } else {
        assert(hex_char(d) as int == 'a' as int + (d - 10));
    }
}

/// The escaped text decomposes from the front as well.
proof fn lemma_esc_str_front(t: Seq<char>)
    requires
        t.len() > 0,
    ensures
        esc_str(t) == esc_char(t[0]) + esc_str(t.drop_first()),
    decreases t.len(),
{
    if t.len() == 1 {
        assert(t.drop_last() =~= Seq::<char>::empty());
        assert(t.drop_first() =~= Seq::<char>::empty());
        assert(esc_str(t) == esc_str(t.drop_last()) + esc_char(t.last()));
        assert(esc_char(t[0]) + esc_str(t.drop_first()) =~= esc_str(t));
    } else {
        let dl = t.drop_last();
        lemma_esc_str_front(dl);
        assert(dl[0] == t[0]);
        assert(t.drop_first().drop_last() =~= dl.drop_first());
        assert(t.drop_first().last() == t.last());
        assert(esc_str(t.drop_first()) == esc_str(dl.drop_first()) + esc_char(t.last()));
        assert(esc_str(t) == esc_str(dl) + esc_char(t.last()));
        assert(esc_str(dl) + esc_char(t.last()) =~= esc_char(t[0]) + (esc_str(dl.drop_first())
            + esc_char(t.last())));
    }
}

/// Reading an escaped text back: wherever the writer's output stands in
/// the line, followed by the closing quote, the string reader recovers
/// exactly the original text and stops just past the quote.
#[verifier::rlimit(100)]
pub proof fn lemma_str_body_reads(s: Seq<char>, i: int, t: Seq<char>, acc: Seq<char>)
    requires
        0 <= i,
        i + esc_str(t).len() + 1 <= s.len(),
        s.subrange(i, i + esc_str(t).len()) =~= esc_str(t),
        s[i + esc_str(t).len()] == '"',
    ensures
        str_body(s, i, acc) == Some((acc + t, i + esc_str(t).len() + 1)),
    decreases t.len(),
{
    if t.len() == 0 {
        assert(esc_str(t).len() == 0);
        assert(s[i] == '"');
        assert(str_body(s, i, acc) == Some((acc, i + 1)));
        assert(acc + t =~= acc);
    } else {
        let c = t[0];
        let e1 = esc_char(c);
        let rest = t.drop_first();
        lemma_esc_str_front(t);
        assert(esc_str(t) == e1 + esc_str(rest));
        let w = esc_str(t).len() as int;
        let k = e1.len() as int;
        assert(forall|j: int| 0 <= j < w ==> s[i + j] == #[trigger] esc_str(t)[j]);
        assert forall|j: int| 0 <= j < k implies s[i + j] == #[trigger] e1[j] by {
            assert(s[i + j] == esc_str(t)[j]);
            assert(esc_str(t)[j] == (e1 + esc_str(rest))[j]);
        }
        assert(s.subrange(i + k, i + w) =~= esc_str(rest)) by {
            assert forall|j: int|
                0 <= j < w - k implies #[trigger] s.subrange(i + k, i + w)[j] == esc_str(
                rest,
            )[j] by {
                assert(s.subrange(i + k, i + w)[j] == s[i + k + j]);
                assert(s[i + k + j] == esc_str(t)[k + j]);
                assert(esc_str(t)[k + j] == (e1 + esc_str(rest))[k + j]);
            }
        }
        lemma_str_body_reads(s, i + k, rest, acc.push(c));
        assert(acc.push(c) + rest =~= acc + t);
        if c == '"' {
            assert(e1 =~= seq!['\\', '"']);
            assert(s[i] == e1[0] && s[i + 1] == e1[1]);
            assert(s[i] == '\\' && s[i + 1] == '"');
            assert(esc_code(s[i + 1]) == Some('"'));
            assert(str_body(s, i, acc) == str_body(s, i + 2, acc.push(c)));
        } else if c == '\\' {
            assert(e1 =~= seq!['\\', '\\']);
            assert(s[i] == e1[0] && s[i + 1] == e1[1]);
            assert(s[i] == '\\' && s[i + 1] == '\\');
            assert(esc_code(s[i + 1]) == Some('\\'));
            assert(str_body(s, i, acc) == str_body(s, i + 2, acc.push(c)));
        } else if c == '\n' {
            assert(e1 =~= seq!['\\', 'n']);
            assert(s[i] == e1[0] && s[i + 1] == e1[1]);
            assert(s[i] == '\\' && s[i + 1] == 'n');
            assert(esc_code(s[i + 1]) == Some('\n'));
            assert(str_body(s, i, acc) == str_body(s, i + 2, acc.push(c)));
        } else if c == '\r' {
            assert(e1 =~= seq!['\\', 'r']);
            assert(s[i] == e1[0] && s[i + 1] == e1[1]);
            assert(s[i] == '\\' && s[i + 1] == 'r');
            assert(esc_code(s[i + 1]) == Some('\r'));
            assert(str_body(s, i, acc) == str_body(s, i + 2, acc.push(c)));
        } else if c == '\t' {
            assert(e1 =~= seq!['\\', 't']);
            assert(s[i] == e1[0] && s[i + 1] == e1[1]);
            assert(s[i] == '\\' && s[i + 1] == 't');
            assert(esc_code(s[i + 1]) == Some('\t'));
            assert(str_body(s, i, acc) == str_body(s, i + 2, acc.push(c)));
        } else if (c as int) < 32 {
            let hi = (c as int) / 16;
            let lo = (c as int) % 16;
            lemma_char_code_range(c);
            assert((c as int) >= 0);
            assert(0 <= hi && hi < 2);
            assert(0 <= lo && lo < 16);
            assert(e1 =~= seq!['\\', 'u', '0', '0', hex_char(hi), hex_char(lo)]);
            assert(s[i] == e1[0] && s[i + 1] == e1[1] && s[i + 2] == e1[2] && s[i + 3] == e1[3]
                && s[i + 4] == e1[4] && s[i + 5] == e1[5]);
            assert(s[i] == '\\' && s[i + 1] == 'u');
            assert(s[i + 2] == '0' && s[i + 3] == '0');
            assert(s[i + 4] == hex_char(hi) && s[i + 5] == hex_char(lo));
            assert(0 <= hi < 16 && 0 <= lo < 16);
            lemma_hex_char_val(hi);
            lemma_hex_char_val(lo);
            assert(hex_val('0') == 0);
            assert(hex4_val(s, i + 2) == hi * 16 + lo);
            assert(hi * 16 + lo == c as int);
            assert(0 <= (c as int) && (c as int) < 128);
            assert(((c as int) as u8) as char == c);
            assert(i + 6 <= s.len());
            assert(str_body(s, i, acc) == str_body(s, i + 6, acc.push(c)));
        } else {
            assert(e1 =~= seq![c]);
            assert(s[i] == e1[0]);
            assert(s[i] == c);
            assert(c != '"' && c != '\\');
            assert(str_body(s, i, acc) == str_body(s, i + 1, acc.push(c)));
        }
    }
}

/// Plain text needs no escaping.
proof fn lemma_esc_str_plain(t: Seq<char>)
    requires
        forall|j: int|
            0 <= j < t.len() ==> (#[trigger] t[j]) != '"' && t[j] != '\\' && 32 <= t[j] as int,
    ensures
        esc_str(t) == t,
    decreases t.len(),
{
    if t.len() > 0 {
        assert(forall|j: int| 0 <= j < t.len() - 1 ==> t.drop_last()[j] == #[trigger] t[j]);
        lemma_esc_str_plain(t.drop_last());
        let c = t.last();
        lemma_char_code_range(c);
        assert(c != '\n' && c != '\r' && c != '\t');
        assert(esc_char(c) =~= seq![c]);
        assert(esc_str(t) =~= t);
    }
}

proof fn lemma_digit_run_end_exact(s: Seq<char>, i: int, e: int)
    requires
        0 <= i <= e <= s.len(),
        forall|k: int| i <= k < e ==> is_digit(#[trigger] s[k]),
        e == s.len() || !is_digit(s[e]),
    ensures
        digit_run_end(s, i, s.len() as int) == e,
    decreases e - i,
{
    if i < e {
        lemma_digit_run_end_exact(s, i + 1, e);
    }
}

/// Reading a rendered number back: wherever the decimal rendering stands
/// in the line, followed by a non-digit, the number reader recovers
/// exactly the value and stops at the delimiter.
pub proof fn lemma_u64_reads(s: Seq<char>, i: int, n: u64)
    requires
        0 <= i,
        i + dec_render(n as int).len() <= s.len(),
        s.subrange(i, i + dec_render(n as int).len()) =~= dec_render(n as int),
        i + dec_render(n as int).len() == s.len() || !is_digit(
            s[i + dec_render(n as int).len()],
        ),
    ensures
        u64_at(s, i) == Some((n, i + dec_render(n as int).len())),
{
    let d = dec_render(n as int);
    let l = d.len() as int;
    crate::text::lemma_dec_render_val(n as int);
    assert forall|k: int| i <= k < i + l implies is_digit(#[trigger] s[k]) by {
        assert(s[k] == d[k - i]);
        assert(crate::text::all_digits(d));
    }
    lemma_digit_run_end_exact(s, i, i + l);
    assert(s.subrange(i, i + l) == d);
    assert(dec_val(s.subrange(i, i + l)) == n);
}

/// Slicing one segment out of a concatenation.
proof fn lemma_extract_segment(s: Seq<char>, p: Seq<char>, seg: Seq<char>, rest: Seq<char>)
    requires
        s == p + (seg + rest),
    ensures
        s.subrange(p.len() as int, p.len() + seg.len() as int) =~= seg,
        forall|j: int| 0 <= j < seg.len() ==> s[p.len() + j] == #[trigger] seg[j],
        forall|j: int| 0 <= j < rest.len() ==> s[p.len() + seg.len() + j] == #[trigger] rest[j],
        s.len() == p.len() + seg.len() + rest.len(),
{
    assert forall|j: int| 0 <= j < seg.len() implies s[p.len() + j] == #[trigger] seg[j] by {
        assert(s[p.len() + j] == (seg + rest)[j]);
    }
    assert forall|j: int|
        0 <= j < seg.len() implies #[trigger] s.subrange(p.len() as int, p.len() + seg.len() as int)[j]
        == seg[j] by {
        assert(s[p.len() + j] == (seg + rest)[j]);
    }
    assert forall|j: int| 0 <= j < rest.len() implies s[p.len() + seg.len() + j] == #[trigger] rest[j] by {
        assert(s[p.len() + seg.len() + j] == (seg + rest)[seg.len() + j]);
    }
}

/// What the member loop does after one member's value, at position `k`:
/// a closing brace ends the object, a comma leads to the next member.
/// This names the tail of `members` so member steps compose.
pub open spec fn member_tail(s: Seq<char>, i: int, k: int, acc: PartialEvent) -> Option<
    (PartialEvent, int),
> {
    let k2 = ws_end(s, k);
    if k2 >= s.len() {
        None
    } else if s[k2] == '}' {
        Some((acc, k2 + 1))
    } else if s[k2] == ',' {
        let k3 = ws_end(s, k2 + 1);
        if k3 <= i || k3 > s.len() {
            None
        } else {
            members(s, k3, acc)
        }
    } else {
        None
    }
}

/// One member of a rendered object: a plain key in quotes, a colon, and
/// a value already accounted for; the rest is the member tail.
proof fn lemma_member_step(
    s: Seq<char>,
    i: int,
    key: Seq<char>,
    acc: PartialEvent,
    acc2: PartialEvent,
    vend: int,
)
    requires
        0 <= i,
        i + key.len() + 3 <= s.len(),
        s[i] == '"',
        forall|j: int|
            0 <= j < key.len() ==> (#[trigger] key[j]) != '"' && key[j] != '\\' && 32 <= key[j]
                as int,
        s.subrange(i + 1, i + 1 + key.len() as int) =~= key,
        s[i + 1 + key.len()] == '"',
        s[i + 2 + key.len()] == ':',
        !is_ws(s[i + 3 + key.len()]),
        member_value(s, i + 3 + key.len(), key, acc) == Some((acc2, vend)),
        i + 3 + key.len() <= vend,
    ensures
        members(s, i, acc) == member_tail(s, i, vend, acc2),
{
    lemma_esc_str_plain(key);
    lemma_str_body_reads(s, i + 1, key, Seq::empty());
    assert(Seq::empty() + key =~= key);
    let after_key = i + 2 + key.len() as int;
    assert(str_body(s, i + 1, Seq::empty()) == Some((key, after_key)));
    assert(ws_end(s, after_key) == after_key);
    assert(ws_end(s, after_key + 1) == after_key + 1);
}

/// A comma at `k` continues the member loop just past it.
proof fn lemma_comma_step(s: Seq<char>, i: int, k: int, acc: PartialEvent)
    requires
        0 <= i < k < s.len(),
        s[k] == ',',
        k + 1 < s.len(),
        !is_ws(s[k + 1]),
    ensures
        member_tail(s, i, k, acc) == members(s, k + 1, acc),
{
    assert(ws_end(s, k) == k);
    assert(ws_end(s, k + 1) == k + 1);
}

/// A brace at `k` ends the object there.
proof fn lemma_brace_step(s: Seq<char>, i: int, k: int, acc: PartialEvent)
    requires
        0 <= k < s.len(),
        s[k] == '}',
    ensures
        member_tail(s, i, k, acc) == Some((acc, k + 1)),
{
    assert(ws_end(s, k) == k);
}

/// The optional members as rendered, one segment each; empty when absent.
pub open spec fn seg_ref(e: crate::events::EventView) -> Seq<char> {
    match e.ref_id {
        Some(r) => ",\"ref\":"@ + dec_render(r as int),
        None => Seq::<char>::empty(),
    }
}

pub open spec fn seg_url(e: crate::events::EventView) -> Seq<char> {
    match e.url {
        Some(u) => ",\"url\":"@ + json_string(u),
        None => Seq::<char>::empty(),
    }
}

pub open spec fn seg_title(e: crate::events::EventView) -> Seq<char> {
    match e.title {
        Some(v) => ",\"title\":"@ + json_string(v),
        None => Seq::<char>::empty(),
    }
}

pub open spec fn seg_by(e: crate::events::EventView) -> Seq<char> {
    match e.by {
        Some(b) => ",\"by\":"@ + json_string(b),
        None => Seq::<char>::empty(),
    }
}

/// The tail of a rendered object holding only the optional `by` member
/// and the closing brace: parsing it records exactly that field.
#[verifier::rlimit(100)]
#[verifier::spinoff_prover]
proof fn lemma_tail_by(
    e: crate::events::EventView,
    enc: Seq<char>,
    q: int,
    i_prev: int,
    acc: PartialEvent,
)
    requires
        acc.by is None,
        0 <= i_prev < q,
        q + seg_by(e).len() + 1 == enc.len(),
        forall|j: int|
            0 <= j < seg_by(e).len() + 1 ==> enc[q + j] == #[trigger] (seg_by(e) + "}"@)[j],
    ensures
        member_tail(enc, i_prev, q, acc) == Some(
            (PartialEvent { by: e.by, ..acc }, enc.len() as int),
        ),
{
    reveal_strlit("}");
    assert("}"@ =~= seq!['}']);
    let az = "}"@;
    let seg0 = seg_by(e);
    assert(forall|j: int| 0 <= j < seg0.len() + 1 ==> enc[q + j] == #[trigger] (seg0 + "}"@)[j]);
    match e.by {
        None => {
            let seg = Seq::<char>::empty();
            assert(seg0 == seg);
            assert(enc[q] == (seg0 + "}"@)[0]);
            assert(enc[q] == '}');
            lemma_brace_step(enc, i_prev, q, acc);
            assert(PartialEvent { by: e.by, ..acc } == acc);
        },
        Some(b) => {
            reveal_strlit(",\"by\":");
            reveal_strlit("by");
            reveal_strlit("id");
            reveal_strlit("type");
            reveal_strlit("url");
            reveal_strlit("title");
            assert(",\"by\":"@ =~= seq![',', '"', 'b', 'y', '"', ':']);
            assert("by"@ =~= seq!['b', 'y']);
            assert("id"@ =~= seq!['i', 'd']);
            assert("type"@.len() == 4 && "url"@.len() == 3 && "title"@.len() == 5);
            let lit = ",\"by\":"@;
            let js = json_string(b);
            let esc = esc_str(b);
            let seg = lit + js;
            assert(seg0 == seg);
            assert forall|j: int|
                0 <= j < seg.len() + 1 implies enc[q + j] == #[trigger] (seg + az)[j] by {
                assert(enc[q + j] == (seg0 + "}"@)[j]);
            }
            assert(js == seq!['"'] + esc + seq!['"']);
            assert(js.len() == esc.len() + 2);
            assert(enc[q] == (seg + az)[0] && (seg + az)[0] == lit[0]);
            assert(enc[q + 1] == (seg + az)[1] && (seg + az)[1] == lit[1]);
            assert(enc[q + 2] == (seg + az)[2] && (seg + az)[2] == lit[2]);
            assert(enc[q + 3] == (seg + az)[3] && (seg + az)[3] == lit[3]);
            assert(enc[q + 4] == (seg + az)[4] && (seg + az)[4] == lit[4]);
            assert(enc[q + 5] == (seg + az)[5] && (seg + az)[5] == lit[5]);
            assert(enc[q + 6] == (seg + az)[6] && (seg + az)[6] == js[0]);
            assert(js[0] == '"');
            assert forall|j: int| 0 <= j < esc.len() implies enc[q + 7 + j] == #[trigger] esc[j] by {
                assert(enc[q + 7 + j] == (seg + az)[7 + j]);
                assert((seg + az)[7 + j] == seg[7 + j]);
                assert(seg[7 + j] == js[1 + j]);
                assert(js[1 + j] == (seq!['"'] + esc)[1 + j]);
            }
            let qe = q + 7 + esc.len() as int + 1;
            assert(enc[qe - 1] == (seg + az)[7 + esc.len() as int]);
            assert((seg + az)[7 + esc.len() as int] == js[1 + esc.len() as int]);
            assert(js[1 + esc.len() as int] == '"');
            assert(enc.subrange(q + 7, q + 7 + esc.len() as int) =~= esc);
            lemma_str_body_reads(enc, q + 7, b, Seq::empty());
            assert(Seq::empty() + b =~= b);
            assert(str_body(enc, q + 7, Seq::empty()) == Some((b, qe)));
            let i_b = q + 1;
            assert(enc.subrange(i_b + 1, i_b + 3) =~= "by"@) by {
                assert(enc[q + 2] == 'b' && enc[q + 3] == 'y');
            }
            assert(enc[i_b] == '"' && enc[i_b + 3] == '"' && enc[i_b + 4] == ':');
            let vstart = i_b + 5;
            assert(enc[vstart] == '"');
            assert(!null_at(enc, vstart));
            assert("by"@ != "id"@ && "by"@ != "type"@ && "by"@ != "url"@ && "by"@ != "title"@);
            let acc2 = PartialEvent { by: Some(b), ..acc };
            assert(string_or_null(enc, vstart) == Some((Some(b), qe)));
            assert(member_value(enc, vstart, "by"@, acc) == Some((acc2, qe)));
            assert(!is_ws(enc[vstart]));
            lemma_member_step(enc, i_b, "by"@, acc, acc2, qe);
            assert(enc[qe] == (seg + az)[seg.len() as int]);
            assert(enc[qe] == '}');
            lemma_brace_step(enc, i_b, qe, acc2);
            assert(member_tail(enc, i_b, qe, acc2) == Some((acc2, qe + 1)));
            assert(qe + 1 == enc.len());
            lemma_comma_step(enc, i_prev, q, acc);
            assert(member_tail(enc, i_prev, q, acc) == members(enc, q + 1, acc));
            assert(members(enc, i_b, acc) == member_tail(enc, i_b, qe, acc2));
        },
    }
}

/// The tail holding the optional `title` and `by` members.
#[verifier::rlimit(100)]
#[verifier::spinoff_prover]
proof fn lemma_tail_title(
    e: crate::events::EventView,
    enc: Seq<char>,
    q: int,
    i_prev: int,
    acc: PartialEvent,
)
    requires
        acc.title is None,
        acc.by is None,
        0 <= i_prev < q,
        q + seg_title(e).len() + seg_by(e).len() + 1 == enc.len(),
        forall|j: int|
            0 <= j < seg_title(e).len() + seg_by(e).len() + 1 ==> enc[q + j] == #[trigger] (
            seg_title(e) + (seg_by(e) + "}"@))[j],
    ensures
        member_tail(enc, i_prev, q, acc) == Some(
            (PartialEvent { title: e.title, by: e.by, ..acc }, enc.len() as int),
        ),
{
    reveal_strlit("}");
    reveal_strlit(",\"title\":");
    reveal_strlit("title");
    reveal_strlit("id");
    reveal_strlit("type");
    reveal_strlit("url");
    assert("}"@ =~= seq!['}']);
    let az = "}"@;
    let st = seg_title(e);
    let rest = seg_by(e) + az;
    let q_b = q + st.len() as int;
    assert forall|j: int| 0 <= j < seg_by(e).len() + 1 implies enc[q_b + j] == #[trigger] (seg_by(
        e,
    ) + "}"@)[j] by {
        let idx = st.len() as int + j;
        assert(0 <= idx < st.len() + rest.len());
        assert(enc[q + idx] == (st + rest)[idx]);
        assert((st + rest)[idx] == rest[idx - st.len()]);
        assert(idx - st.len() == j);
    }
    assert forall|j: int| 0 <= j < st.len() implies enc[q + j] == #[trigger] st[j] by {
        assert(enc[q + j] == (st + rest)[j]);
        assert((st + rest)[j] == st[j]);
    }
    match e.title {
        None => {
            assert(st.len() == 0);
            lemma_tail_by(e, enc, q, i_prev, acc);
            assert(PartialEvent { title: e.title, by: e.by, ..acc } == PartialEvent {
                by: e.by,
                ..acc
            });
        },
        Some(v) => {
            assert(",\"title\":"@ =~= seq![',', '"', 't', 'i', 't', 'l', 'e', '"', ':']);
            assert("title"@ =~= seq!['t', 'i', 't', 'l', 'e']);
            assert("id"@.len() == 2 && "type"@.len() == 4 && "url"@.len() == 3);
            let lit = ",\"title\":"@;
            let js = json_string(v);
            let esc = esc_str(v);
            assert(st == lit + js);
            assert(js == seq!['"'] + esc + seq!['"']);
            assert(js.len() == esc.len() + 2);
            assert forall|j: int| 0 <= j < lit.len() implies enc[q + j] == #[trigger] lit[j] by {
                assert(enc[q + j] == st[j]);
                assert(st[j] == (lit + js)[j]);
            }
            assert(enc[q] == lit[0] && enc[q + 1] == lit[1] && enc[q + 2] == lit[2]);
            assert(enc[q + 3] == lit[3] && enc[q + 4] == lit[4] && enc[q + 5] == lit[5]);
            assert(enc[q + 6] == lit[6] && enc[q + 7] == lit[7] && enc[q + 8] == lit[8]);
            assert(enc[q + 9] == st[9] && st[9] == js[0] && js[0] == '"');
            assert forall|j: int| 0 <= j < esc.len() implies enc[q + 10 + j] == #[trigger] esc[j] by {
                assert(enc[q + 10 + j] == st[10 + j]);
                assert(st[10 + j] == js[1 + j]);
                assert(js[1 + j] == (seq!['"'] + esc)[1 + j]);
            }
            let qe = q + 10 + esc.len() as int + 1;
            assert(enc[qe - 1] == st[10 + esc.len() as int]);
            assert(st[10 + esc.len() as int] == js[1 + esc.len() as int]);
            assert(js[1 + esc.len() as int] == '"');
            assert(enc.subrange(q + 10, q + 10 + esc.len() as int) =~= esc);
            lemma_str_body_reads(enc, q + 10, v, Seq::empty());
            assert(Seq::empty() + v =~= v);
            assert(str_body(enc, q + 10, Seq::empty()) == Some((v, qe)));
            let i_t = q + 1;
            assert(enc.subrange(i_t + 1, i_t + 6) =~= "title"@) by {
                assert(enc[q + 2] == 't' && enc[q + 3] == 'i' && enc[q + 4] == 't' && enc[q + 5]
                    == 'l' && enc[q + 6] == 'e');
            }
            assert(enc[i_t] == '"' && enc[i_t + 6] == '"' && enc[i_t + 7] == ':');
            let vstart = i_t + 8;
            assert(enc[vstart] == '"');
            assert(!null_at(enc, vstart));
            assert("title"@ != "id"@ && "title"@ != "type"@ && "title"@ != "url"@);
            let acc2 = PartialEvent { title: Some(v), ..acc };
            assert(string_or_null(enc, vstart) == Some((Some(v), qe)));
            assert(member_value(enc, vstart, "title"@, acc) == Some((acc2, qe)));
            assert(!is_ws(enc[vstart]));
            lemma_member_step(enc, i_t, "title"@, acc, acc2, qe);
            assert(qe == q_b);
            lemma_tail_by(e, enc, q_b, i_t, acc2);
            lemma_comma_step(enc, i_prev, q, acc);
            assert(PartialEvent { by: e.by, ..acc2 } == PartialEvent {
                title: e.title,
                by: e.by,
                ..acc
            });
        },
    }
}

/// The tail holding the optional `url`, `title` and `by` members.
#[verifier::rlimit(100)]
#[verifier::spinoff_prover]
proof fn lemma_tail_url(
    e: crate::events::EventView,
    enc: Seq<char>,
    q: int,
    i_prev: int,
    acc: PartialEvent,
)
    requires
        acc.url is None,
        acc.title is None,
        acc.by is None,
        0 <= i_prev < q,
        q + seg_url(e).len() + seg_title(e).len() + seg_by(e).len() + 1 == enc.len(),
        forall|j: int|
            0 <= j < seg_url(e).len() + seg_title(e).len() + seg_by(e).len() + 1 ==> enc[q + j]
                == #[trigger] (seg_url(e) + (seg_title(e) + (seg_by(e) + "}"@)))[j],
    ensures
        member_tail(enc, i_prev, q, acc) == Some(
            (PartialEvent { url: e.url, title: e.title, by: e.by, ..acc }, enc.len() as int),
        ),
{
    reveal_strlit("}");
    reveal_strlit(",\"url\":");
    reveal_strlit("url");
    reveal_strlit("id");
    reveal_strlit("type");
    assert("}"@ =~= seq!['}']);
    let az = "}"@;
    let su = seg_url(e);
    let rest = seg_title(e) + (seg_by(e) + az);
    let q_t = q + su.len() as int;
    assert forall|j: int|
        0 <= j < seg_title(e).len() + seg_by(e).len() + 1 implies enc[q_t + j] == #[trigger] (
    seg_title(e) + (seg_by(e) + "}"@))[j] by {
        let idx = su.len() as int + j;
        assert(0 <= idx < su.len() + rest.len());
        assert(enc[q + idx] == (su + rest)[idx]);
        assert((su + rest)[idx] == rest[idx - su.len()]);
        assert(idx - su.len() == j);
    }
    assert forall|j: int| 0 <= j < su.len() implies enc[q + j] == #[trigger] su[j] by {
        assert(enc[q + j] == (su + rest)[j]);
        assert((su + rest)[j] == su[j]);
    }
    match e.url {
        None => {
            assert(su.len() == 0);
            lemma_tail_title(e, enc, q, i_prev, acc);
            assert(PartialEvent { url: e.url, title: e.title, by: e.by, ..acc } == PartialEvent {
                title: e.title,
                by: e.by,
                ..acc
            });
        },
        Some(u) => {
            assert(",\"url\":"@ =~= seq![',', '"', 'u', 'r', 'l', '"', ':']);
            assert("url"@ =~= seq!['u', 'r', 'l']);
            assert("id"@.len() == 2 && "type"@.len() == 4);
            let lit = ",\"url\":"@;
            let js = json_string(u);
            let esc = esc_str(u);
            assert(su == lit + js);
            assert(js == seq!['"'] + esc + seq!['"']);
            assert(js.len() == esc.len() + 2);
            assert forall|j: int| 0 <= j < lit.len() implies enc[q + j] == #[trigger] lit[j] by {
                assert(enc[q + j] == su[j]);
                assert(su[j] == (lit + js)[j]);
            }
            assert(enc[q] == lit[0] && enc[q + 1] == lit[1] && enc[q + 2] == lit[2]);
            assert(enc[q + 3] == lit[3] && enc[q + 4] == lit[4] && enc[q + 5] == lit[5]);
            assert(enc[q + 6] == lit[6]);
            assert(enc[q + 7] == su[7] && su[7] == js[0] && js[0] == '"');
            assert forall|j: int| 0 <= j < esc.len() implies enc[q + 8 + j] == #[trigger] esc[j] by {
                assert(enc[q + 8 + j] == su[8 + j]);
                assert(su[8 + j] == js[1 + j]);
                assert(js[1 + j] == (seq!['"'] + esc)[1 + j]);
            }
            let qe = q + 8 + esc.len() as int + 1;
            assert(enc[qe - 1] == su[8 + esc.len() as int]);
            assert(su[8 + esc.len() as int] == js[1 + esc.len() as int]);
            assert(js[1 + esc.len() as int] == '"');
            assert(enc.subrange(q + 8, q + 8 + esc.len() as int) =~= esc);
            lemma_str_body_reads(enc, q + 8, u, Seq::empty());
            assert(Seq::empty() + u =~= u);
            assert(str_body(enc, q + 8, Seq::empty()) == Some((u, qe)));
            let i_u = q + 1;
            assert(enc.subrange(i_u + 1, i_u + 4) =~= "url"@) by {
                assert(enc[q + 2] == 'u' && enc[q + 3] == 'r' && enc[q + 4] == 'l');
            }
            assert(enc[i_u] == '"' && enc[i_u + 4] == '"' && enc[i_u + 5] == ':');
            let vstart = i_u + 6;
            assert(enc[vstart] == '"');
            assert(!null_at(enc, vstart));
            assert("url"@ != "id"@ && "url"@ != "type"@);
            let acc2 = PartialEvent { url: Some(u), ..acc };
            assert(string_or_null(enc, vstart) == Some((Some(u), qe)));
            assert(member_value(enc, vstart, "url"@, acc) == Some((acc2, qe)));
            assert(!is_ws(enc[vstart]));
            lemma_member_step(enc, i_u, "url"@, acc, acc2, qe);
            assert(qe == q_t);
            lemma_tail_title(e, enc, q_t, i_u, acc2);
            lemma_comma_step(enc, i_prev, q, acc);
            assert(PartialEvent { title: e.title, by: e.by, ..acc2 } == PartialEvent {
                url: e.url,
                title: e.title,
                by: e.by,
                ..acc
            });
        },
    }
}

/// The tail holding all four optional members.
#[verifier::rlimit(100)]
#[verifier::spinoff_prover]
proof fn lemma_tail_ref(
    e: crate::events::EventView,
    enc: Seq<char>,
    q: int,
    i_prev: int,
    acc: PartialEvent,
)
    requires
        acc.ref_id is None,
        acc.url is None,
        acc.title is None,
        acc.by is None,
        0 <= i_prev < q,
        q + seg_ref(e).len() + seg_url(e).len() + seg_title(e).len() + seg_by(e).len() + 1
            == enc.len(),
        forall|j: int|
            0 <= j < seg_ref(e).len() + seg_url(e).len() + seg_title(e).len() + seg_by(e).len()
                + 1 ==> enc[q + j] == #[trigger] (seg_ref(e) + (seg_url(e) + (seg_title(e) + (
            seg_by(e) + "}"@))))[j],
    ensures
        member_tail(enc, i_prev, q, acc) == Some(
            (
                PartialEvent {
                    ref_id: e.ref_id,
                    url: e.url,
                    title: e.title,
                    by: e.by,
                    ..acc
                },
                enc.len() as int,
            ),
        ),
{
    reveal_strlit("}");
    reveal_strlit(",\"ref\":");
    reveal_strlit(",\"url\":");
    reveal_strlit(",\"title\":");
    reveal_strlit(",\"by\":");
    reveal_strlit("ref");
    reveal_strlit("id");
    reveal_strlit("type");
    reveal_strlit("url");
    reveal_strlit("title");
    reveal_strlit("by");
    assert("}"@ =~= seq!['}']);
    let az = "}"@;
    let sr = seg_ref(e);
    let rest = seg_url(e) + (seg_title(e) + (seg_by(e) + az));
    let q_u = q + sr.len() as int;
    assert forall|j: int|
        0 <= j < seg_url(e).len() + seg_title(e).len() + seg_by(e).len() + 1 implies enc[q_u + j]
        == #[trigger] (seg_url(e) + (seg_title(e) + (seg_by(e) + "}"@)))[j] by {
        let idx = sr.len() as int + j;
        assert(0 <= idx < sr.len() + rest.len());
        assert(enc[q + idx] == (sr + rest)[idx]);
        assert((sr + rest)[idx] == rest[idx - sr.len()]);
        assert(idx - sr.len() == j);
    }
    assert forall|j: int| 0 <= j < sr.len() implies enc[q + j] == #[trigger] sr[j] by {
        assert(enc[q + j] == (sr + rest)[j]);
        assert((sr + rest)[j] == sr[j]);
    }
    // The character after this segment: the next present member's comma,
    // or the closing brace.
    assert(enc[q_u] == rest[0]);
    assert(rest[0] == ',' || rest[0] == '}') by {
        match e.url {
            Some(_) => {
                assert(rest[0] == seg_url(e)[0]);
                assert(seg_url(e)[0] == ",\"url\":"@[0]);
            },
            None => {
                assert(seg_url(e).len() == 0);
                let rest2 = seg_title(e) + (seg_by(e) + az);
                assert(rest[0] == rest2[0]);
                match e.title {
                    Some(_) => {
                        assert(rest2[0] == seg_title(e)[0]);
                        assert(seg_title(e)[0] == ",\"title\":"@[0]);
                    },
                    None => {
                        assert(seg_title(e).len() == 0);
                        let rest3 = seg_by(e) + az;
                        assert(rest2[0] == rest3[0]);
                        match e.by {
                            Some(_) => {
                                assert(rest3[0] == seg_by(e)[0]);
                                assert(seg_by(e)[0] == ",\"by\":"@[0]);
                            },
                            None => {
                                assert(seg_by(e).len() == 0);
                                assert(rest3[0] == az[0]);
                            },
                        }
                    },
                }
            },
        }
    }
    assert(!is_digit(enc[q_u]));
    match e.ref_id {
        None => {
            assert(sr.len() == 0);
            lemma_tail_url(e, enc, q, i_prev, acc);
            assert(PartialEvent { ref_id: e.ref_id, url: e.url, title: e.title, by: e.by, ..acc }
                == PartialEvent { url: e.url, title: e.title, by: e.by, ..acc });
        },
        Some(r) => {
            assert(",\"ref\":"@ =~= seq![',', '"', 'r', 'e', 'f', '"', ':']);
            assert("ref"@ =~= seq!['r', 'e', 'f']);
            assert("url"@ =~= seq!['u', 'r', 'l']);
            assert("id"@.len() == 2 && "type"@.len() == 4 && "title"@.len() == 5 && "by"@.len()
                == 2);
            let lit = ",\"ref\":"@;
            let d = dec_render(r as int);
            crate::text::lemma_dec_render_val(r as int);
            assert(sr == lit + d);
            assert forall|j: int| 0 <= j < lit.len() implies enc[q + j] == #[trigger] lit[j] by {
                assert(enc[q + j] == sr[j]);
                assert(sr[j] == (lit + d)[j]);
            }
            assert(enc[q] == lit[0] && enc[q + 1] == lit[1] && enc[q + 2] == lit[2]);
            assert(enc[q + 3] == lit[3] && enc[q + 4] == lit[4] && enc[q + 5] == lit[5]);
            assert(enc[q + 6] == lit[6]);
            assert(enc.subrange(q + 7, q + 7 + d.len() as int) =~= d) by {
                assert forall|j: int| 0 <= j < d.len() implies enc[q + 7 + j] == #[trigger] d[j] by {
                    assert(enc[q + 7 + j] == sr[7 + j]);
                    assert(sr[7 + j] == (lit + d)[7 + j]);
                }
            }
            let qe = q + 7 + d.len() as int;
            assert(qe == q_u);
            lemma_u64_reads(enc, q + 7, r);
            assert(u64_at(enc, q + 7) == Some((r, qe)));
            let i_r = q + 1;
            assert(enc.subrange(i_r + 1, i_r + 4) =~= "ref"@) by {
                assert(enc[q + 2] == 'r' && enc[q + 3] == 'e' && enc[q + 4] == 'f');
            }
            assert(enc[i_r] == '"' && enc[i_r + 4] == '"' && enc[i_r + 5] == ':');
            let vstart = i_r + 6;
            assert(enc[vstart] == d[0]);
            assert(is_digit(enc[vstart]));
            assert(!is_ws(enc[vstart]));
            assert(!null_at(enc, vstart));
            assert("ref"@ != "id"@ && "ref"@ != "type"@ && "ref"@ != "url"@ && "ref"@ != "title"@
                && "ref"@ != "by"@);
            let acc2 = PartialEvent { ref_id: Some(r), ..acc };
            assert(member_value(enc, vstart, "ref"@, acc) == Some((acc2, qe)));
            lemma_member_step(enc, i_r, "ref"@, acc, acc2, qe);
            lemma_tail_url(e, enc, q_u, i_r, acc2);
            lemma_comma_step(enc, i_prev, q, acc);
            assert(PartialEvent { url: e.url, title: e.title, by: e.by, ..acc2 } == PartialEvent {
                ref_id: e.ref_id,
                url: e.url,
                title: e.title,
                by: e.by,
                ..acc
            });
        },
    }
}

/// Where each piece of a rendered event line stands: the characters of
/// the fixed members, the number, the escaped type text, and the tail of
/// optional members.
#[verifier::rlimit(100)]
#[verifier::spinoff_prover]
proof fn lemma_head_facts(e: crate::events::EventView)
    requires
        e.order is None,
    ensures
        ({
            let enc = spec_encode_event(e);
            let a1 = dec_render(e.id as int);
            let esc = esc_str(e.event_type);
            let o2 = 6 + a1.len() as int;
            let o3 = o2 + 8;
            let o4 = o3 + 2 + esc.len() as int;
            let tail = seg_ref(e) + (seg_url(e) + (seg_title(e) + (seg_by(e) + "}"@)));
            &&& enc.len() == o4 + tail.len()
            &&& enc[0] == '{' && enc[1] == '"' && enc[2] == 'i' && enc[3] == 'd' && enc[4] == '"'
                && enc[5] == ':'
            &&& enc.subrange(6, o2) == a1
            &&& enc[o2] == ',' && enc[o2 + 1] == '"' && enc[o2 + 2] == 't' && enc[o2 + 3] == 'y'
                && enc[o2 + 4] == 'p' && enc[o2 + 5] == 'e' && enc[o2 + 6] == '"' && enc[o2 + 7]
                == ':'
            &&& enc[o3] == '"'
            &&& enc.subrange(o3 + 1, o3 + 1 + esc.len() as int) == esc
            &&& enc[o3 + 1 + esc.len()] == '"'
            &&& forall|j: int| 0 <= j < tail.len() ==> enc[o4 + j] == #[trigger] tail[j]
        }),
{
    reveal_strlit("{\"id\":");
    reveal_strlit(",\"type\":");
    let enc = spec_encode_event(e);
    let t = e.event_type;
    let a0 = "{\"id\":"@;
    let a1 = dec_render(e.id as int);
    let a2 = ",\"type\":"@;
    let jt = json_string(t);
    let esc = esc_str(t);
    let tail = seg_ref(e) + (seg_url(e) + (seg_title(e) + (seg_by(e) + "}"@)));
    assert(a0 =~= seq!['{', '"', 'i', 'd', '"', ':']);
    assert(a2 =~= seq![',', '"', 't', 'y', 'p', 'e', '"', ':']);
    let r3 = jt + tail;
    let r2 = a2 + r3;
    let r1 = a1 + r2;
    assert(enc =~= a0 + r1);
    let p0 = a0;
    lemma_extract_segment(enc, Seq::empty(), p0, r1);
    let p1 = p0 + a1;
    assert(enc =~= p0 + (a1 + r2));
    lemma_extract_segment(enc, p0, a1, r2);
    let p2 = p1 + a2;
    assert(enc =~= p1 + (a2 + r3));
    lemma_extract_segment(enc, p1, a2, r3);
    let p3 = p2 + jt;
    assert(enc =~= p2 + (jt + tail));
    lemma_extract_segment(enc, p2, jt, tail);
    let o2 = p1.len() as int;
    let o3 = p2.len() as int;
    let o4 = p3.len() as int;
    assert(enc[0] == a0[0] && enc[1] == a0[1] && enc[2] == a0[2] && enc[3] == a0[3] && enc[4]
        == a0[4] && enc[5] == a0[5]);
    assert(enc.subrange(6, o2) =~= a1);
    assert forall|j: int| 0 <= j < a2.len() implies enc[o2 + j] == #[trigger] a2[j] by {
        assert(enc[o2 + j] == r2[j]);
        assert(r2[j] == (a2 + r3)[j]);
    }
    assert(enc[o2] == a2[0] && enc[o2 + 1] == a2[1] && enc[o2 + 2] == a2[2] && enc[o2 + 3]
        == a2[3] && enc[o2 + 4] == a2[4] && enc[o2 + 5] == a2[5] && enc[o2 + 6] == a2[6] && enc[o2
        + 7] == a2[7]);
    assert(jt == seq!['"'] + esc + seq!['"']);
    assert(jt.len() == esc.len() + 2);
    assert(enc[o3] == jt[0] && jt[0] == '"');
    assert forall|j: int| 0 <= j < esc.len() implies enc[o3 + 1 + j] == #[trigger] esc[j] by {
        assert(enc[o3 + (1 + j)] == jt[1 + j]);
        assert(jt[1 + j] == (seq!['"'] + esc)[1 + j]);
    }
    assert(enc.subrange(o3 + 1, o3 + 1 + esc.len() as int) =~= esc);
    assert(enc[o3 + 1 + esc.len() as int] == jt[1 + esc.len() as int]);
    assert(jt[1 + esc.len() as int] == '"');
    assert(forall|j: int| 0 <= j < tail.len() ==> enc[o4 + j] == #[trigger] tail[j]) by {
        assert(forall|j: int|
            0 <= j < tail.len() ==> enc[p2.len() + jt.len() + j] == #[trigger] tail[j]);
    }
}

/// The `id` member: the member loop starting at position 1 records the
/// id and continues past the comma.
#[verifier::rlimit(100)]
#[verifier::spinoff_prover]
proof fn lemma_parse_id_member(e: crate::events::EventView, enc: Seq<char>)
    requires
        enc[0] == '{' && enc[1] == '"' && enc[2] == 'i' && enc[3] == 'd' && enc[4] == '"'
            && enc[5] == ':',
        enc.subrange(6, 6 + dec_render(e.id as int).len() as int) == dec_render(e.id as int),
        enc[6 + dec_render(e.id as int).len() as int] == ',',
        enc[6 + dec_render(e.id as int).len() as int + 1] == '"',
        6 + dec_render(e.id as int).len() + 1 < enc.len(),
    ensures
        ({
            let o2 = 6 + dec_render(e.id as int).len() as int;
            let acc1 = PartialEvent { id: Some(e.id), ..empty_acc() };
            members(enc, 1, empty_acc()) == members(enc, o2 + 1, acc1)
        }),
{
    reveal_strlit("id");
    let a1 = dec_render(e.id as int);
    let o1 = 6;
    let o2 = 6 + a1.len() as int;
    assert("id"@ =~= seq!['i', 'd']);
    crate::text::lemma_dec_render_val(e.id as int);
    let acc0 = empty_acc();
    assert(enc.subrange(2, 4) =~= "id"@);
    assert(!is_digit(','));
    lemma_u64_reads(enc, o1, e.id);
    assert(u64_at(enc, o1) == Some((e.id, o2)));
    let acc1 = PartialEvent { id: Some(e.id), ..acc0 };
    assert(member_value(enc, o1, "id"@, acc0) == Some((acc1, o2)));
    assert(enc[o1] == a1[0]) by {
        assert(enc.subrange(6, o2)[0] == a1[0]);
    }
    assert(is_digit(a1[0]));
    assert(!is_ws(enc[o1]));
    lemma_member_step(enc, 1, "id"@, acc0, acc1, o2);
    assert(members(enc, 1, acc0) == member_tail(enc, 1, o2, acc1));
    assert(!is_ws(enc[o2 + 1]));
    lemma_comma_step(enc, 1, o2, acc1);
}

/// The `type` member: the member loop at its key records the type text
/// and leaves the member tail at the start of the optional members.
#[verifier::rlimit(100)]
#[verifier::spinoff_prover]
proof fn lemma_parse_type_member(e: crate::events::EventView, enc: Seq<char>)
    requires
        ({
            let o2 = 6 + dec_render(e.id as int).len() as int;
            let o3 = o2 + 8;
            let esc = esc_str(e.event_type);
            &&& enc[o2] == ',' && enc[o2 + 1] == '"' && enc[o2 + 2] == 't' && enc[o2 + 3] == 'y'
                && enc[o2 + 4] == 'p' && enc[o2 + 5] == 'e' && enc[o2 + 6] == '"' && enc[o2 + 7]
                == ':'
            &&& enc[o3] == '"'
            &&& enc.subrange(o3 + 1, o3 + 1 + esc.len() as int) == esc
            &&& enc[o3 + 1 + esc.len() as int] == '"'
            &&& o3 + 1 + esc.len() < enc.len()
        }),
    ensures
        ({
            let o2 = 6 + dec_render(e.id as int).len() as int;
            let o4 = o2 + 8 + 2 + esc_str(e.event_type).len() as int;
            let acc1 = PartialEvent { id: Some(e.id), ..empty_acc() };
            let acc2 = PartialEvent { event_type: Some(e.event_type), ..acc1 };
            members(enc, o2 + 1, acc1) == member_tail(enc, o2 + 1, o4, acc2)
        }),
{
    reveal_strlit("id");
    reveal_strlit("type");
    let t = e.event_type;
    let esc = esc_str(t);
    let o2 = 6 + dec_render(e.id as int).len() as int;
    let o3 = o2 + 8;
    let o4 = o3 + 2 + esc.len() as int;
    assert("id"@ =~= seq!['i', 'd']);
    assert("type"@ =~= seq!['t', 'y', 'p', 'e']);
    let acc1 = PartialEvent { id: Some(e.id), ..empty_acc() };
    let i_t = o2 + 1;
    assert(enc.subrange(i_t + 1, i_t + 5) =~= "type"@);
    let vstart_t = i_t + 7;
    assert(vstart_t == o3);
    lemma_str_body_reads(enc, o3 + 1, t, Seq::empty());
    assert(Seq::empty() + t =~= t);
    assert(str_body(enc, o3 + 1, Seq::empty()) == Some((t, o4)));
    let acc2 = PartialEvent { event_type: Some(t), ..acc1 };
    assert(!null_at(enc, vstart_t));
    assert("type"@ != "id"@);
    assert(member_value(enc, vstart_t, "type"@, acc1) == Some((acc2, o4)));
    assert(!is_ws(enc[vstart_t]));
    lemma_member_step(enc, i_t, "type"@, acc1, acc2, o4);
}

/// The codec round trip: for any event without an explicit ordering, the
/// parser reads the encoder's line back to exactly the original event.
/// Together with the append contract, an appended event is recovered
/// verbatim by every participant that re-reads the log.
#[verifier::rlimit(100)]
#[verifier::spinoff_prover]
pub proof fn lemma_encode_parse_round_trip(e: crate::events::EventView)
    requires
        e.order is None,
    ensures
        spec_parse_event(spec_encode_event(e)) == Some(e),
{
    lemma_head_facts(e);
    let enc = spec_encode_event(e);
    let esc = esc_str(e.event_type);
    let o2 = 6 + dec_render(e.id as int).len() as int;
    let o3 = o2 + 8;
    let o4 = o3 + 2 + esc.len() as int;
    let i_t = o2 + 1;
    let tail = seg_ref(e) + (seg_url(e) + (seg_title(e) + (seg_by(e) + "}"@)));
    reveal_strlit("}");
    assert("}"@ =~= seq!['}']);
    assert(tail.len() >= 1);
    lemma_parse_id_member(e, enc);
    lemma_parse_type_member(e, enc);
    let acc1 = PartialEvent { id: Some(e.id), ..empty_acc() };
    let acc2 = PartialEvent { event_type: Some(e.event_type), ..acc1 };
    assert(tail.len() == seg_ref(e).len() + seg_url(e).len() + seg_title(e).len() + seg_by(
        e,
    ).len() + 1);
    lemma_tail_ref(e, enc, o4, i_t, acc2);
    let accf = PartialEvent { ref_id: e.ref_id, url: e.url, title: e.title, by: e.by, ..acc2 };
    assert(member_tail(enc, i_t, o4, acc2) == Some((accf, enc.len() as int)));
    assert(members(enc, 1, empty_acc()) == Some((accf, enc.len() as int)));
    assert(!is_ws(enc[0]));
    assert(ws_end(enc, 0) == 0);
    assert(!is_ws(enc[1]));
    assert(ws_end(enc, 1) == 1);
    assert(enc[1] != '}');
    assert(ws_end(enc, enc.len() as int) == enc.len());
    assert(finalize(accf) == Some(e));
}
} // verus!
