//! Release-tag handling: normalising tags such as `v0.0.7` or
//! `0.0.7-beta.1` to a bare dotted version, and comparing two versions
//! numerically, component by component.

use vstd::prelude::*;
use vstd::string::StrSliceExecFns;

use crate::text::{all_digits, dec_val, find_char, is_digit, scan_find_char};

verus! {

/// The first index at or after `i` that does not hold a `v`.
pub open spec fn non_v_from(s: Seq<char>, i: int) -> int
    decreases s.len() - i,
{
    if i < 0 || i >= s.len() || s[i] != 'v' {
        i
    } else {
        non_v_from(s, i + 1)
    }
}

/// Exec scan for `non_v_from`.
fn scan_non_v(s: &str, n: usize) -> (r: usize)
    requires
        n == s@.len(),
    ensures
        r == non_v_from(s@, 0),
        r <= n,
{
    let mut j: usize = 0;
    while j < n
        invariant
            j <= n,
            n == s@.len(),
            non_v_from(s@, 0) == non_v_from(s@, j as int),
        decreases n - j,
    {
        if s.get_char(j) != 'v' {
            return j;
        }
        j = j + 1;
    }
    j
}

/// A tag without its leading `v` markers and without any `-suffix`.
pub open spec fn spec_normalize_version(s: Seq<char>) -> Seq<char> {
    s.subrange(
        non_v_from(s, 0),
        find_char(s, non_v_from(s, 0), s.len() as int, '-'),
    )
}

/// Strip leading `v` characters and anything from the first `-` on.
pub fn normalize_version(tag: &str) -> (r: String)
    ensures
        r@ == spec_normalize_version(tag@),
{
    let n = tag.unicode_len();
    let start = scan_non_v(tag, n);
    let end = scan_find_char(tag, start, n, '-');
    let sub = tag.substring_char(start, end);
    sub.to_owned()
}

/// A dotted version component, as Rust's `u64` parser reads it: an optional
/// `+`, then at least one digit, and a value that fits in 64 bits.
pub open spec fn spec_parse_component(s: Seq<char>) -> Option<u64> {
    let body = if s.len() > 0 && s[0] == '+' {
        s.drop_first()
    } else {
        s
    };
    if body.len() == 0 || !all_digits(body) {
        None
    } else if dec_val(body) > u64::MAX {
        None
    } else {
        Some(dec_val(body) as u64)
    }
}

/// The numeric components of `s[i..m)` split on dots, or `None` when any
/// component is malformed.
pub open spec fn spec_parse_parts(s: Seq<char>, i: int, m: int) -> Option<Seq<u64>>
    decreases m - i,
{
    let d = find_char(s, i, m, '.');
    if d < i || d >= m {
        match spec_parse_component(s.subrange(i, m)) {
            Some(v) => Some(seq![v]),
            None => None,
        }
    } else {
        match spec_parse_component(s.subrange(i, d)) {
            Some(v) => match spec_parse_parts(s, d + 1, m) {
                Some(rest) => Some(seq![v] + rest),
                None => None,
            },
            None => None,
        }
    }
}

/// The components of the dotted prefix of a version string, before any
/// `-suffix`.
pub open spec fn spec_parse_version(s: Seq<char>) -> Option<Seq<u64>> {
    spec_parse_parts(s, 0, find_char(s, 0, s.len() as int, '-'))
}

/// Parse one component from `s[i..j)`.
fn parse_component(s: &str, i: usize, j: usize) -> (r: Option<u64>)
    requires
        i <= j <= s@.len(),
    ensures
        r == spec_parse_component(s@.subrange(i as int, j as int)),
{
    let ghost part = s@.subrange(i as int, j as int);
    let body_start: usize = if i < j && s.get_char(i) == '+' {
        i + 1
    } else {
        i
    };
    proof {
        if i < j && s@[i as int] == '+' {
            assert(part.len() > 0 && part[0] == '+');
            assert(part.drop_first() =~= s@.subrange(body_start as int, j as int));
        } else {
            assert(part =~= s@.subrange(body_start as int, j as int));
        }
    }
    let ghost body = s@.subrange(body_start as int, j as int);
    if body_start == j {
        return None;
    }
    let end = crate::text::find_digit_run_end(s, body_start, j);
    if end < j {
        proof {
            lemma_digit_run_end_not_digit(s@, body_start as int, end as int, j as int);
            assert(body[end - body_start] == s@[end as int]);
            assert(!all_digits(body));
        }
        return None;
    }
    proof {
        lemma_digit_run_all_digits(s@, body_start as int, j as int);
    }
    crate::text::parse_digit_run(s, body_start, j)
}

proof fn lemma_digit_run_all_digits(s: Seq<char>, i: int, j: int)
    requires
        0 <= i <= j <= s.len(),
        crate::text::digit_run_end(s, i, j) >= j,
    ensures
        all_digits(s.subrange(i, j)),
    decreases j - i,
{
    if i < j {
        assert(is_digit(s[i]));
        lemma_digit_run_all_digits(s, i + 1, j);
        let sub = s.subrange(i, j);
        assert forall|m: int| 0 <= m < sub.len() implies is_digit(#[trigger] sub[m]) by {
            if m == 0 {
                assert(sub[0] == s[i]);
            } else {
                assert(sub[m] == s.subrange(i + 1, j)[m - 1]);
                assert(all_digits(s.subrange(i + 1, j)));
            }
        }
    } else {
        assert(s.subrange(i, j) =~= Seq::<char>::empty());
    }
}

proof fn lemma_digit_run_end_not_digit(s: Seq<char>, i: int, e: int, j: int)
    requires
        0 <= i <= j <= s.len(),
        e == crate::text::digit_run_end(s, i, j),
        i <= e < j,
    ensures
        !is_digit(s[e]),
    decreases e - i,
{
    if i < j && is_digit(s[i]) {
        crate::text::lemma_digit_run_end_bounds(s, i + 1, j);
        if i < e {
            lemma_digit_run_end_not_digit(s, i + 1, e, j);
        }
    }
}

/// Parse the dotted, pre-`-` prefix of a version string into its numeric
/// components.
pub fn parse_version(version: &str) -> (r: Option<Vec<u64>>)
    ensures
        match r {
            Some(v) => spec_parse_version(version@) == Some(v@),
            None => spec_parse_version(version@) is None,
        },
{
    let n = version.unicode_len();
    let core_end = scan_find_char(version, 0, n, '-');
    let mut parts: Vec<u64> = Vec::new();
    let mut pos: usize = 0;
    proof {
        assert forall|r: Seq<u64>| #[trigger] (parts@ + r) == r by {
            assert(parts@ + r =~= r);
        }
    }
    loop
        invariant
            0 <= pos <= core_end <= n,
            n == version@.len(),
            core_end == find_char(version@, 0, n as int, '-'),
            forall|r: Seq<u64>|
                spec_parse_parts(version@, pos as int, core_end as int) == Some(r)
                    ==> spec_parse_parts(version@, 0, core_end as int) == Some(
                    #[trigger] (parts@ + r),
                ),
            spec_parse_parts(version@, pos as int, core_end as int) is None ==> spec_parse_parts(
                version@,
                0,
                core_end as int,
            ) is None,
        decreases core_end - pos + 1,
    {
        let dot = scan_find_char(version, pos, core_end, '.');
        let comp = parse_component(version, pos, dot);
        match comp {
            None => {
                return None;
            },
            Some(v) => {
                let ghost prev = parts@;
                parts.push(v);
                if dot == core_end {
                    proof {
                        assert(spec_parse_parts(version@, pos as int, core_end as int) == Some(
                            seq![v],
                        ));
                        assert(prev + seq![v] =~= parts@);
                        assert(spec_parse_parts(version@, 0, core_end as int) == Some(parts@));
                    }
                    return Some(parts);
                }
                proof {
                    assert forall|r: Seq<u64>|
                        spec_parse_parts(version@, dot as int + 1, core_end as int) == Some(
                            r,
                        ) implies spec_parse_parts(version@, 0, core_end as int) == Some(
                        #[trigger] (parts@ + r),
                    ) by {
                        assert(spec_parse_parts(version@, pos as int, core_end as int) == Some(
                            seq![v] + r,
                        ));
                        assert(prev + (seq![v] + r) =~= parts@ + r);
                    }
                    if spec_parse_parts(version@, dot as int + 1, core_end as int) is None {
                        assert(spec_parse_parts(version@, pos as int, core_end as int) is None);
                    }
                }
                pos = dot + 1;
            },
        }
    }
}

/// Whether `a` is numerically newer than `b`, comparing components at and
/// after position `i`, with missing components reading as zero.
pub open spec fn spec_newer_at(a: Seq<u64>, b: Seq<u64>, i: int) -> bool
    decreases (if a.len() > b.len() {
        a.len() as int
    } else {
        b.len() as int
    }) - i,
{
    let m = if a.len() > b.len() {
        a.len() as int
    } else {
        b.len() as int
    };
    if i < 0 || i >= m {
        false
    } else {
        let av = if i < a.len() {
            a[i]
        } else {
            0u64
        };
        let bv = if i < b.len() {
            b[i]
        } else {
            0u64
        };
        if av > bv {
            true
        } else if av < bv {
            false
        } else {
            spec_newer_at(a, b, i + 1)
        }
    }
}

/// Whether the `latest` version string names a strictly newer version than
/// `current`; malformed versions never count as newer.
pub open spec fn spec_is_newer_version(latest: Seq<char>, current: Seq<char>) -> bool {
    match (spec_parse_version(latest), spec_parse_version(current)) {
        (Some(a), Some(b)) => spec_newer_at(a, b, 0),
        _ => false,
    }
}

pub fn is_newer_version(latest: &str, current: &str) -> (r: bool)
    ensures
        r == spec_is_newer_version(latest@, current@),
{
    let latest_parts = match parse_version(latest) {
        Some(parts) => parts,
        None => {
            return false;
        },
    };
    let current_parts = match parse_version(current) {
        Some(parts) => parts,
        None => {
            return false;
        },
    };
    let max_len: usize = if latest_parts.len() > current_parts.len() {
        latest_parts.len()
    } else {
        current_parts.len()
    };
    let mut i: usize = 0;
    while i < max_len
        invariant
            0 <= i <= max_len,
            spec_parse_version(latest@) == Some(latest_parts@),
            spec_parse_version(current@) == Some(current_parts@),
            max_len == if latest_parts@.len() > current_parts@.len() {
                latest_parts@.len()
            } else {
                current_parts@.len()
            },
            spec_newer_at(latest_parts@, current_parts@, 0) == spec_newer_at(
                latest_parts@,
                current_parts@,
                i as int,
            ),
        decreases max_len - i,
    {
        let av: u64 = if i < latest_parts.len() {
            latest_parts[i]
        } else {
            0
        };
        let bv: u64 = if i < current_parts.len() {
            current_parts[i]
        } else {
            0
        };
        if av > bv {
            return true;
        }
        if av < bv {
            return false;
        }
        i = i + 1;
    }
    false
}

} // verus!
