//! Character-level helpers shared by the version comparer and the event
//! codec: decimal digits, decimal values, and rendering of unsigned numbers.

use vstd::prelude::*;
use vstd::string::StrSliceExecFns;

verus! {

/// One more character may be appended to a `String`.
/// Relies on `String::push`: appends the given character to the end.
pub assume_specification[ String::push ](s: &mut String, c: char)
    ensures
        final(s)@ == old(s)@.push(c),
;

pub open spec fn is_digit(c: char) -> bool {
    '0' <= c && c <= '9'
}

pub open spec fn digit_val(c: char) -> int {
    c as int - '0' as int
}

pub open spec fn all_digits(s: Seq<char>) -> bool {
    forall|i: int| 0 <= i < s.len() ==> is_digit(#[trigger] s[i])
}

/// The value of a sequence of decimal digits (most significant first).
pub open spec fn dec_val(s: Seq<char>) -> int
    decreases s.len(),
{
    if s.len() == 0 {
        0
    } else {
        dec_val(s.drop_last()) * 10 + digit_val(s.last())
    }
}

/// The decimal rendering of a number, without sign and without leading
/// zeros (except for zero itself).
pub open spec fn dec_render(n: int) -> Seq<char>
    decreases n,
{
    if n <= 9 {
        seq![spec_digit_char(if n < 0 { 0 } else { n })]
    } else {
        dec_render(n / 10).push(spec_digit_char(n % 10))
    }
}

pub open spec fn spec_digit_char(d: int) -> char {
    (('0' as u8) + d as u8) as char
}

/// The end of the run of digits starting at `i`, looking no further
/// than `m`.
pub open spec fn digit_run_end(s: Seq<char>, i: int, m: int) -> int
    decreases m - i,
{
    if i < 0 || i >= m || i >= s.len() || !is_digit(s[i]) {
        i
    } else {
        digit_run_end(s, i + 1, m)
    }
}

pub proof fn lemma_digit_run_end_bounds(s: Seq<char>, i: int, m: int)
    requires
        0 <= i <= m <= s.len(),
    ensures
        i <= digit_run_end(s, i, m) <= m,
    decreases m - i,
{
    if i < m && is_digit(s[i]) {
        lemma_digit_run_end_bounds(s, i + 1, m);
    }
}

/// Exec counterpart of `digit_run_end`, scanning `s[i..m)`.
pub fn find_digit_run_end(s: &str, i: usize, m: usize) -> (r: usize)
    requires
        i <= m <= s@.len(),
    ensures
        r == digit_run_end(s@, i as int, m as int),
        i <= r <= m,
{
    let mut j: usize = i;
    while j < m
        invariant
            i <= j <= m <= s@.len(),
            digit_run_end(s@, i as int, m as int) == digit_run_end(s@, j as int, m as int),
        decreases m - j,
    {
        let c = s.get_char(j);
        if !('0' <= c && c <= '9') {
            return j;
        }
        j = j + 1;
    }
    j
}

/// Parse the digit run `s[i..j)` as a `u64`; `None` when the value does not
/// fit.
pub fn parse_digit_run(s: &str, i: usize, j: usize) -> (r: Option<u64>)
    requires
        i <= j <= s@.len(),
        all_digits(s@.subrange(i as int, j as int)),
    ensures
        dec_val(s@.subrange(i as int, j as int)) <= u64::MAX ==> r == Some(
            dec_val(s@.subrange(i as int, j as int)) as u64,
        ),
        dec_val(s@.subrange(i as int, j as int)) > u64::MAX ==> r is None,
{
    proof {
        lemma_dec_val_nonneg(s@.subrange(i as int, j as int));
    }
    let mut k: usize = i;
    let mut value: u64 = 0;
    while k < j
        invariant
            i <= k <= j <= s@.len(),
            all_digits(s@.subrange(i as int, j as int)),
            value == dec_val(s@.subrange(i as int, k as int)),
        decreases j - k,
    {
        let ghost pre = s@.subrange(i as int, k as int);
        let ghost cur = s@.subrange(i as int, k as int + 1);
        proof {
            assert(cur.drop_last() =~= pre);
            assert(is_digit(cur.last()));
            lemma_dec_val_nonneg(pre);
        }
        let c = s.get_char(k);
        let d: u64 = (c as u8 - ('0' as u8)) as u64;
        if value > (u64::MAX - d) / 10 {
            proof {
                assert(dec_val(cur) > u64::MAX) by (nonlinear_arith)
                    requires
                        dec_val(cur) == dec_val(pre) * 10 + digit_val(cur.last()),
                        value == dec_val(pre),
                        d == digit_val(cur.last()),
                        0 <= d <= 9,
                        value > (u64::MAX - d) / 10,
                        value >= 0,
                ;
                lemma_dec_val_grows(s@.subrange(i as int, j as int), k - i + 1);
                assert(s@.subrange(i as int, j as int).subrange(0, k - i + 1) =~= cur);
            }
            return None;
        }
        proof {
            assert(value * 10 + d <= u64::MAX) by (nonlinear_arith)
                requires
                    0 <= d <= 9,
                    0 <= value <= (u64::MAX - d) / 10,
            ;
        }
        value = value * 10 + d;
        k = k + 1;
    }
    proof {
        assert(s@.subrange(i as int, k as int) =~= s@.subrange(i as int, j as int));
    }
    Some(value)
}

pub proof fn lemma_dec_val_nonneg(s: Seq<char>)
    requires
        all_digits(s),
    ensures
        dec_val(s) >= 0,
    decreases s.len(),
{
    if s.len() > 0 {
        assert(all_digits(s.drop_last()));
        lemma_dec_val_nonneg(s.drop_last());
    }
}

/// The value of a digit sequence is at least the value of any prefix.
pub proof fn lemma_dec_val_grows(s: Seq<char>, i: int)
    requires
        all_digits(s),
        0 <= i <= s.len(),
    ensures
        dec_val(s) >= dec_val(s.subrange(0, i)),
    decreases s.len() - i,
{
    lemma_dec_val_nonneg(s.subrange(0, i));
    if i < s.len() {
        lemma_dec_val_grows(s, i + 1);
        let p = s.subrange(0, i + 1);
        assert(p.drop_last() =~= s.subrange(0, i));
        lemma_dec_val_nonneg(p);
        assert(dec_val(p) == dec_val(s.subrange(0, i)) * 10 + digit_val(p.last()));
        assert(dec_val(p) >= dec_val(s.subrange(0, i))) by (nonlinear_arith)
            requires
                dec_val(p) == dec_val(s.subrange(0, i)) * 10 + digit_val(p.last()),
                dec_val(s.subrange(0, i)) >= 0,
                digit_val(p.last()) >= 0,
        ;
    } else {
        assert(s.subrange(0, i) =~= s);
    }
}

/// Append the decimal rendering of `n` to `out`.
pub fn push_decimal(out: &mut String, n: u64)
    ensures
        final(out)@ == old(out)@ + dec_render(n as int),
    decreases n,
{
    if n <= 9 {
        out.push((('0' as u8) + n as u8) as char);
        proof {
            assert(out@ =~= old(out)@ + dec_render(n as int));
        }
    } else {
        push_decimal(out, n / 10);
        out.push((('0' as u8) + (n % 10) as u8) as char);
        proof {
            assert(out@ =~= old(out)@ + dec_render(n as int));
        }
    }
}

/// The first index in `[i, m)` that holds the character `c`, or `m` when
/// there is none.
pub open spec fn find_char(s: Seq<char>, i: int, m: int, c: char) -> int
    decreases m - i,
{
    if i < 0 || i >= m || i >= s.len() || s[i] == c {
        i
    } else {
        find_char(s, i + 1, m, c)
    }
}

/// Exec scan for `find_char`.
pub fn scan_find_char(s: &str, i: usize, m: usize, c: char) -> (r: usize)
    requires
        i <= m <= s@.len(),
    ensures
        r == find_char(s@, i as int, m as int, c),
        i <= r <= m,
{
    let mut j: usize = i;
    while j < m
        invariant
            i <= j <= m <= s@.len(),
            find_char(s@, i as int, m as int, c) == find_char(s@, j as int, m as int, c),
        decreases m - j,
    {
        if s.get_char(j) == c {
            return j;
        }
        j = j + 1;
    }
    j
}

/// Whether the pattern `p` occurs in `s` at position `i`.
pub open spec fn occurs_at(s: Seq<char>, p: Seq<char>, i: int) -> bool {
    0 <= i && i + p.len() <= s.len() && forall|j: int| 0 <= j < p.len() ==> s[i + j] == #[trigger] p[j]
}

/// The first position at or after `i` where `p` occurs in `s`, or `-1`.
pub open spec fn find_seq(s: Seq<char>, p: Seq<char>, i: int) -> int
    decreases s.len() - i,
{
    if i < 0 || i + p.len() > s.len() {
        -1
    } else if occurs_at(s, p, i) {
        i
    } else {
        find_seq(s, p, i + 1)
    }
}

pub proof fn lemma_find_seq_bounds(s: Seq<char>, p: Seq<char>, i: int)
    requires
        0 <= i,
    ensures
        find_seq(s, p, i) == -1 || (i <= find_seq(s, p, i) && find_seq(s, p, i) + p.len()
            <= s.len()),
    decreases s.len() - i,
{
    if i + p.len() <= s.len() && !occurs_at(s, p, i) {
        lemma_find_seq_bounds(s, p, i + 1);
    }
}

/// Whether `p` occurs at `i`; exec check.
fn matches_at(s: &str, n: usize, pat: &str, m: usize, i: usize) -> (r: bool)
    requires
        n == s@.len(),
        m == pat@.len(),
        i + m <= n,
    ensures
        r == occurs_at(s@, pat@, i as int),
{
    let mut j: usize = 0;
    while j < m
        invariant
            j <= m,
            n == s@.len(),
            m == pat@.len(),
            i + m <= n,
            forall|jj: int| 0 <= jj < j ==> s@[i + jj] == #[trigger] pat@[jj],
        decreases m - j,
    {
        if s.get_char(i + j) != pat.get_char(j) {
            return false;
        }
        j = j + 1;
    }
    true
}

/// Find the first occurrence of `pat` in `s` at or after `i`.
pub fn scan_find_seq(s: &str, pat: &str, i: usize) -> (r: Option<usize>)
    requires
        i <= s@.len(),
    ensures
        match r {
            Some(j) => find_seq(s@, pat@, i as int) == j && i <= j && j + pat@.len() <= s@.len(),
            None => find_seq(s@, pat@, i as int) == -1,
        },
{
    let n = s.unicode_len();
    let m = pat.unicode_len();
    if m > n || i > n - m {
        return None;
    }
    let mut j: usize = i;
    while j <= n - m
        invariant
            i <= j,
            j <= n - m + 1,
            n == s@.len(),
            m == pat@.len(),
            m <= n,
            find_seq(s@, pat@, i as int) == find_seq(s@, pat@, j as int),
        decreases n - j,
    {
        if matches_at(s, n, pat, m, j) {
            return Some(j);
        }
        j = j + 1;
    }
    None
}

/// Whether `pat` occurs anywhere in `s`.
pub open spec fn contains_seq(s: Seq<char>, p: Seq<char>) -> bool {
    find_seq(s, p, 0) >= 0
}

/// Exec substring test.
pub fn text_contains(s: &str, pat: &str) -> (r: bool)
    ensures
        r == contains_seq(s@, pat@),
{
    match scan_find_seq(s, pat, 0) {
        Some(_) => true,
        None => false,
    }
}

/// The first index in `[i, m)` holding one of three characters, or `m`.
pub open spec fn find_any3(s: Seq<char>, i: int, m: int, a: char, b: char, c: char) -> int
    decreases m - i,
{
    if i < 0 || i >= m || i >= s.len() || s[i] == a || s[i] == b || s[i] == c {
        i
    } else {
        find_any3(s, i + 1, m, a, b, c)
    }
}

/// Exec scan for `find_any3`.
pub fn scan_find_any3(s: &str, i: usize, m: usize, a: char, b: char, c: char) -> (r: usize)
    requires
        i <= m <= s@.len(),
    ensures
        r == find_any3(s@, i as int, m as int, a, b, c),
        i <= r <= m,
{
    let mut j: usize = i;
    while j < m
        invariant
            i <= j <= m <= s@.len(),
            find_any3(s@, i as int, m as int, a, b, c) == find_any3(s@, j as int, m as int, a, b, c),
        decreases m - j,
    {
        let ch = s.get_char(j);
        if ch == a || ch == b || ch == c {
            return j;
        }
        j = j + 1;
    }
    j
}

/// A rendered number is one or more digits and reads back to its value.
pub proof fn lemma_dec_render_val(n: int)
    requires
        n >= 0,
    ensures
        dec_render(n).len() >= 1,
        all_digits(dec_render(n)),
        dec_val(dec_render(n)) == n,
        dec_render(n)[0] != '0' || n <= 9,
    decreases n,
{
    if n <= 9 {
        assert(spec_digit_char(n) as int == '0' as int + n);
        assert(dec_render(n) =~= seq![spec_digit_char(n)]);
        assert(is_digit(spec_digit_char(n)));
        assert(dec_render(n).drop_last() =~= Seq::<char>::empty());
        assert(dec_render(n).last() == spec_digit_char(n));
        assert(dec_val(dec_render(n)) == dec_val(dec_render(n).drop_last()) * 10 + digit_val(
            dec_render(n).last(),
        ));
        assert(digit_val(spec_digit_char(n)) == n);
    } else {
        lemma_dec_render_val(n / 10);
        let head = dec_render(n / 10);
        let c = spec_digit_char(n % 10);
        assert(is_digit(c));
        assert(dec_render(n) == head.push(c));
        assert(dec_render(n).drop_last() =~= head);
        assert(dec_render(n).last() == c);
        assert forall|i: int| 0 <= i < dec_render(n).len() implies is_digit(
            #[trigger] dec_render(n)[i],
        ) by {
            if i < head.len() {
                assert(dec_render(n)[i] == head[i]);
                assert(all_digits(head));
            }
        }
        assert(spec_digit_char(n % 10) as int == '0' as int + n % 10);
        assert(dec_val(dec_render(n)) == dec_val(head) * 10 + digit_val(c));
        assert(digit_val(c) == n % 10);
        assert(dec_val(head) * 10 + n % 10 == n) by (nonlinear_arith)
            requires
                dec_val(head) == n / 10,
                n >= 0,
                n == 10 * (n / 10) + n % 10,
        ;
        assert(dec_render(n)[0] == head[0]);
    }
}

} // verus!
