//! Recovering a recording timestamp from a transcript path.
//!
//! The store lays transcripts out as `.../<year>/<month>/<day>/<file>` where
//! the file name carries the time of day after a literal `T`, as three
//! dash-separated two-digit fields. Counting path segments from the end, the
//! fourth, third and second from last supply year, month and day; the
//! rejoined string is read against the fixed `YYYY-MM-DDTHH-MM-SS` pattern.
//! A path that does not follow the convention yields no timestamp; that is a
//! normal outcome, never an error.
use vstd::prelude::*;

use crate::chars::{digit_char, digit_of, digit_val, is_digit, str_chars};
use crate::time::Timestamp;

verus! {

/// Split at the last occurrence of `sep`: `Some((before, after))`, or `None`
/// when `sep` does not occur.
pub open spec fn rsplit1(s: Seq<char>, sep: char) -> Option<(Seq<char>, Seq<char>)>
    decreases s.len(),
{
    if s.len() == 0 {
        None
    } else if s.last() == sep {
        Some((s.drop_last(), Seq::empty()))
    } else {
        match rsplit1(s.drop_last(), sep) {
            None => None,
            Some((before, after)) => Some((before, after.push(s.last()))),
        }
    }
}

/// Split at the first occurrence of `sep`.
pub open spec fn lsplit1(s: Seq<char>, sep: char) -> Option<(Seq<char>, Seq<char>)>
    decreases s.len(),
{
    if s.len() == 0 {
        None
    } else if s[0] == sep {
        Some((Seq::empty(), s.skip(1)))
    } else {
        match lsplit1(s.skip(1), sep) {
            None => None,
            Some((before, after)) => Some((seq![s[0]].add(before), after)),
        }
    }
}

/// The text before the first occurrence of `sep`, or all of `s` when `sep`
/// does not occur: the first `sep`-delimited token.
pub open spec fn first_token(s: Seq<char>, sep: char) -> Seq<char> {
    match lsplit1(s, sep) {
        None => s,
        Some((before, _)) => before,
    }
}

/// Value of an exactly-two-digit field.
pub open spec fn parse2(s: Seq<char>) -> Option<int> {
    if s.len() == 2 && is_digit(s[0]) && is_digit(s[1]) {
        Some(10 * digit_val(s[0]) + digit_val(s[1]))
    } else {
        None
    }
}

/// Value of an exactly-four-digit field.
pub open spec fn parse4(s: Seq<char>) -> Option<int> {
    if s.len() == 4 && is_digit(s[0]) && is_digit(s[1]) && is_digit(s[2]) && is_digit(s[3]) {
        Some(1000 * digit_val(s[0]) + 100 * digit_val(s[1]) + 10 * digit_val(s[2]) + digit_val(
            s[3],
        ))
    } else {
        None
    }
}

/// Reading the six recovered fields against the `YYYY-MM-DDTHH-MM-SS`
/// pattern: fixed widths, decimal digits, and a genuine calendar date.
pub open spec fn assemble(
    y: Seq<char>,
    mo: Seq<char>,
    d: Seq<char>,
    h: Seq<char>,
    mi: Seq<char>,
    se: Seq<char>,
) -> Option<Timestamp> {
    match (parse4(y), parse2(mo), parse2(d), parse2(h), parse2(mi), parse2(se)) {
        (Some(yv), Some(mov), Some(dv), Some(hv), Some(miv), Some(sev)) => {
            let ts = Timestamp {
                year: yv as u16,
                month: mov as u8,
                day: dv as u8,
                hour: hv as u8,
                minute: miv as u8,
                second: sev as u8,
            };
            if ts.valid() {
                Some(ts)
            } else {
                None
            }
        },
        _ => None,
    }
}

/// The timestamp a path encodes, if it follows the convention.
pub open spec fn path_timestamp(s: Seq<char>) -> Option<Timestamp> {
    match rsplit1(s, '/') {
        None => None,
        Some((r1, file)) => match rsplit1(r1, '/') {
            None => None,
            Some((r2, day)) => match rsplit1(r2, '/') {
                None => None,
                Some((r3, month)) => match rsplit1(r3, '/') {
                    None => None,
                    Some((_, year)) => match lsplit1(file, 'T') {
                        None => None,
                        Some((_, hms)) => match lsplit1(hms, '-') {
                            None => None,
                            Some((t0, rest1)) => match lsplit1(rest1, '-') {
                                None => None,
                                Some((t1, rest2)) => assemble(
                                    year,
                                    month,
                                    day,
                                    t0,
                                    t1,
                                    first_token(rest2, '-'),
                                ),
                            },
                        },
                    },
                },
            },
        },
    }
}

/// Where the last occurrence of `sep` sits, `rsplit1` cuts there.
pub proof fn lemma_rsplit1_at(s: Seq<char>, sep: char, i: int)
    requires
        0 <= i < s.len(),
        s[i] == sep,
        forall|j: int| i < j < s.len() ==> s[j] != sep,
    ensures
        rsplit1(s, sep) matches Some(r) && r.0 =~= s.take(i) && r.1 =~= s.skip(i + 1),
    decreases s.len(),
{
    if i == s.len() - 1 {
        assert(s.last() == sep);
        assert(s.drop_last() =~= s.take(i));
        assert(Seq::<char>::empty() =~= s.skip(i + 1));
    } else {
        assert(s.last() != sep);
        let d = s.drop_last();
        assert(0 <= i < d.len() && d[i] == sep);
        assert(forall|j: int| i < j < d.len() ==> d[j] != sep);
        lemma_rsplit1_at(d, sep, i);
        let r = rsplit1(d, sep).unwrap();
        assert(r.0 =~= s.take(i));
        assert(r.1.push(s.last()) =~= s.skip(i + 1));
    }
}

/// Without an occurrence of `sep`, `rsplit1` finds nothing.
pub proof fn lemma_rsplit1_none(s: Seq<char>, sep: char)
    requires
        forall|j: int| 0 <= j < s.len() ==> s[j] != sep,
    ensures
        rsplit1(s, sep) is None,
    decreases s.len(),
{
    if s.len() > 0 {
        lemma_rsplit1_none(s.drop_last(), sep);
    }
}

/// Where the first occurrence of `sep` sits, `lsplit1` cuts there.
pub proof fn lemma_lsplit1_at(s: Seq<char>, sep: char, i: int)
    requires
        0 <= i < s.len(),
        s[i] == sep,
        forall|j: int| 0 <= j < i ==> s[j] != sep,
    ensures
        lsplit1(s, sep) matches Some(r) && r.0 =~= s.take(i) && r.1 =~= s.skip(i + 1),
    decreases s.len(),
{
    if i == 0 {
        assert(Seq::<char>::empty() =~= s.take(0));
    } else {
        let t = s.skip(1);
        assert(0 <= i - 1 < t.len() && t[i - 1] == sep);
        assert(forall|j: int| 0 <= j < i - 1 ==> t[j] != sep);
        lemma_lsplit1_at(t, sep, i - 1);
        let r = lsplit1(t, sep).unwrap();
        assert(seq![s[0]].add(r.0) =~= s.take(i));
        assert(r.1 =~= s.skip(i + 1));
    }
}

/// Without an occurrence of `sep`, `lsplit1` finds nothing.
pub proof fn lemma_lsplit1_none(s: Seq<char>, sep: char)
    requires
        forall|j: int| 0 <= j < s.len() ==> s[j] != sep,
    ensures
        lsplit1(s, sep) is None,
    decreases s.len(),
{
    if s.len() > 0 {
        lemma_lsplit1_none(s.skip(1), sep);
    }
}

/// Splitting `before + sep + after` at the last `sep`, when `after` is free
/// of it, recovers the two parts.
pub proof fn lemma_rsplit1_concat(a: Seq<char>, b: Seq<char>, sep: char)
    requires
        forall|j: int| 0 <= j < b.len() ==> b[j] != sep,
    ensures
        rsplit1(a + seq![sep] + b, sep) matches Some(r) && r.0 =~= a && r.1 =~= b,
{
    let s = a + seq![sep] + b;
    let i = a.len() as int;
    assert(s[i] == sep);
    assert(forall|j: int| i < j < s.len() ==> s[j] == b[j - i - 1]);
    lemma_rsplit1_at(s, sep, i);
    let r = rsplit1(s, sep).unwrap();
    assert(r.0 =~= a);
    assert(r.1 =~= b);
}

/// Splitting `before + sep + after` at the first `sep`, when `before` is
/// free of it, recovers the two parts.
pub proof fn lemma_lsplit1_concat(a: Seq<char>, b: Seq<char>, sep: char)
    requires
        forall|j: int| 0 <= j < a.len() ==> a[j] != sep,
    ensures
        lsplit1(a + seq![sep] + b, sep) matches Some(r) && r.0 =~= a && r.1 =~= b,
{
    let s = a + seq![sep] + b;
    let i = a.len() as int;
    assert(s[i] == sep);
    assert(forall|j: int| 0 <= j < i ==> s[j] == a[j]);
    lemma_lsplit1_at(s, sep, i);
    let r = lsplit1(s, sep).unwrap();
    assert(r.0 =~= a);
    assert(r.1 =~= b);
}

/// Last index strictly below `hi` holding `c`, scanning backwards.
fn rfind_before(cs: &Vec<char>, hi: usize, c: char) -> (r: Option<usize>)
    requires
        hi <= cs@.len(),
    ensures
        r matches Some(i) ==> i < hi && cs@[i as int] == c && forall|j: int|
            i < j < hi ==> cs@[j] != c,
        r is None ==> forall|j: int| 0 <= j < hi ==> cs@[j] != c,
{
    let mut k: usize = hi;
    while k > 0
        invariant
            k <= hi <= cs@.len(),
            forall|j: int| k <= j < hi ==> cs@[j] != c,
        decreases k,
    {
        k = k - 1;
        if cs[k] == c {
            return Some(k);
        }
    }
    None
}

/// First index in `[lo, hi)` holding `c`.
fn lfind_in(cs: &Vec<char>, lo: usize, hi: usize, c: char) -> (r: Option<usize>)
    requires
        lo <= hi <= cs@.len(),
    ensures
        r matches Some(i) ==> lo <= i < hi && cs@[i as int] == c && forall|j: int|
            lo <= j < i ==> cs@[j] != c,
        r is None ==> forall|j: int| lo <= j < hi ==> cs@[j] != c,
{
    let mut k: usize = lo;
    while k < hi
        invariant
            lo <= k <= hi <= cs@.len(),
            forall|j: int| lo <= j < k ==> cs@[j] != c,
        decreases hi - k,
    {
        if cs[k] == c {
            return Some(k);
        }
        k = k + 1;
    }
    None
}

/// Two-digit field at `[lo, hi)` of `cs`.
fn parse2_at(cs: &Vec<char>, lo: usize, hi: usize) -> (r: Option<u8>)
    requires
        lo <= hi <= cs@.len(),
    ensures
        match r {
            Some(v) => parse2(cs@.subrange(lo as int, hi as int)) == Some(v as int),
            None => parse2(cs@.subrange(lo as int, hi as int)) is None,
        },
{
    if hi - lo != 2 {
        return None;
    }
    let d0 = digit_of(cs[lo]);
    let d1 = digit_of(cs[lo + 1]);
    match (d0, d1) {
        (Some(a), Some(b)) => Some((10 * a + b) as u8),
        _ => None,
    }
}

/// Four-digit field at `[lo, hi)` of `cs`.
fn parse4_at(cs: &Vec<char>, lo: usize, hi: usize) -> (r: Option<u16>)
    requires
        lo <= hi <= cs@.len(),
    ensures
        match r {
            Some(v) => parse4(cs@.subrange(lo as int, hi as int)) == Some(v as int),
            None => parse4(cs@.subrange(lo as int, hi as int)) is None,
        },
{
    if hi - lo != 4 {
        return None;
    }
    let d0 = digit_of(cs[lo]);
    let d1 = digit_of(cs[lo + 1]);
    let d2 = digit_of(cs[lo + 2]);
    let d3 = digit_of(cs[lo + 3]);
    match (d0, d1, d2, d3) {
        (Some(a), Some(b), Some(c), Some(d)) => Some((1000 * a + 100 * b + 10 * c + d) as u16),
        _ => None,
    }
}

/// Best-effort timestamp recovery from a transcript's path. `None` on any
/// departure from the convention; never an error.
#[verifier::rlimit(100)]
pub fn extract_datetime(path: &str) -> (r: Option<Timestamp>)
    ensures
        r == path_timestamp(path@),
{
    let cs = str_chars(path);
    let n = cs.len();
    let ghost s = cs@;
    proof {
        assert(s.take(n as int) =~= s);
    }

    // Peel the last four `/`-separated segments: file, day, month, year.
    let i1 = match rfind_before(&cs, n, '/') {
        Some(i) => i,
        None => {
            proof {
                lemma_rsplit1_none(s, '/');
            }
            return None;
        },
    };
    proof {
        lemma_rsplit1_at(s, '/', i1 as int);
    }
    let ghost r1 = s.take(i1 as int);
    let ghost file = s.skip(i1 + 1);

    let i2 = match rfind_before(&cs, i1, '/') {
        Some(i) => i,
        None => {
            proof {
                lemma_rsplit1_none(r1, '/');
            }
            return None;
        },
    };
    proof {
        assert(forall|j: int| i2 < j < r1.len() ==> r1[j] != '/');
        lemma_rsplit1_at(r1, '/', i2 as int);
        assert(r1.take(i2 as int) =~= s.take(i2 as int));
        assert(r1.skip(i2 + 1) =~= s.subrange(i2 + 1, i1 as int));
    }
    let ghost r2 = s.take(i2 as int);
    let ghost day = s.subrange(i2 + 1, i1 as int);

    let i3 = match rfind_before(&cs, i2, '/') {
        Some(i) => i,
        None => {
            proof {
                lemma_rsplit1_none(r2, '/');
            }
            return None;
        },
    };
    proof {
        lemma_rsplit1_at(r2, '/', i3 as int);
        assert(r2.take(i3 as int) =~= s.take(i3 as int));
        assert(r2.skip(i3 + 1) =~= s.subrange(i3 + 1, i2 as int));
    }
    let ghost r3 = s.take(i3 as int);
    let ghost month = s.subrange(i3 + 1, i2 as int);

    let i4 = match rfind_before(&cs, i3, '/') {
        Some(i) => i,
        None => {
            proof {
                lemma_rsplit1_none(r3, '/');
            }
            return None;
        },
    };
    proof {
        lemma_rsplit1_at(r3, '/', i4 as int);
        assert(r3.skip(i4 + 1) =~= s.subrange(i4 + 1, i3 as int));
    }
    let ghost year = s.subrange(i4 + 1, i3 as int);

    // The file name's portion after the literal `T`.
    let it = match lfind_in(&cs, i1 + 1, n, 'T') {
        Some(i) => i,
        None => {
            proof {
                assert(forall|j: int| 0 <= j < file.len() ==> file[j] != 'T');
                lemma_lsplit1_none(file, 'T');
            }
            return None;
        },
    };
    proof {
        assert(file[it - i1 - 1] == 'T');
        assert(forall|j: int| 0 <= j < it - i1 - 1 ==> file[j] != 'T');
        lemma_lsplit1_at(file, 'T', it - i1 - 1);
        assert(file.skip(it - i1 - 1 + 1) =~= s.subrange(it + 1, n as int));
    }
    let ghost hms = s.subrange(it + 1, n as int);

    // First three dash-delimited tokens of the time portion.
    let d1pos = match lfind_in(&cs, it + 1, n, '-') {
        Some(i) => i,
        None => {
            proof {
                lemma_lsplit1_none(hms, '-');
            }
            return None;
        },
    };
    proof {
        assert(hms[d1pos - it - 1] == '-');
        assert(forall|j: int| 0 <= j < d1pos - it - 1 ==> hms[j] != '-');
        lemma_lsplit1_at(hms, '-', d1pos - it - 1);
        assert(hms.take(d1pos - it - 1) =~= s.subrange(it + 1, d1pos as int));
        assert(hms.skip(d1pos - it - 1 + 1) =~= s.subrange(d1pos + 1, n as int));
    }
    let ghost t0 = s.subrange(it + 1, d1pos as int);
    let ghost rest1 = s.subrange(d1pos + 1, n as int);

    let d2pos = match lfind_in(&cs, d1pos + 1, n, '-') {
        Some(i) => i,
        None => {
            proof {
                lemma_lsplit1_none(rest1, '-');
            }
            return None;
        },
    };
    proof {
        assert(rest1[d2pos - d1pos - 1] == '-');
        assert(forall|j: int| 0 <= j < d2pos - d1pos - 1 ==> rest1[j] != '-');
        lemma_lsplit1_at(rest1, '-', d2pos - d1pos - 1);
        assert(rest1.take(d2pos - d1pos - 1) =~= s.subrange(d1pos + 1, d2pos as int));
        assert(rest1.skip(d2pos - d1pos - 1 + 1) =~= s.subrange(d2pos + 1, n as int));
    }
    let ghost t1 = s.subrange(d1pos + 1, d2pos as int);
    let ghost rest2 = s.subrange(d2pos + 1, n as int);

    // Third token: up to the next dash, or to the end.
    let t2_end = match lfind_in(&cs, d2pos + 1, n, '-') {
        Some(i) => i,
        None => n,
    };
    proof {
        if t2_end < n {
            assert(rest2[t2_end - d2pos - 1] == '-');
            assert(forall|j: int| 0 <= j < t2_end - d2pos - 1 ==> rest2[j] != '-');
            lemma_lsplit1_at(rest2, '-', t2_end - d2pos - 1);
            assert(rest2.take(t2_end - d2pos - 1) =~= s.subrange(d2pos + 1, t2_end as int));
        } else {
            lemma_lsplit1_none(rest2, '-');
            assert(rest2 =~= s.subrange(d2pos + 1, t2_end as int));
        }
    }
    let ghost t2 = s.subrange(d2pos + 1, t2_end as int);
    assert(first_token(rest2, '-') == t2);

    // Fixed-width digit fields, then calendar validity.
    let yv = match parse4_at(&cs, i4 + 1, i3) {
        Some(v) => v,
        None => {
            return None;
        },
    };
    let mov = match parse2_at(&cs, i3 + 1, i2) {
        Some(v) => v,
        None => {
            return None;
        },
    };
    let dv = match parse2_at(&cs, i2 + 1, i1) {
        Some(v) => v,
        None => {
            return None;
        },
    };
    let hv = match parse2_at(&cs, it + 1, d1pos) {
        Some(v) => v,
        None => {
            return None;
        },
    };
    let miv = match parse2_at(&cs, d1pos + 1, d2pos) {
        Some(v) => v,
        None => {
            return None;
        },
    };
    let sev = match parse2_at(&cs, d2pos + 1, t2_end) {
        Some(v) => v,
        None => {
            return None;
        },
    };
    let ts = Timestamp { year: yv, month: mov as u8, day: dv, hour: hv, minute: miv, second: sev };
    if ts.check_valid() {
        Some(ts)
    } else {
        None
    }
}

} // verus!
