//! Laws of the path-timestamp convention.
use vstd::prelude::*;

use crate::chars::{digit_char, is_digit};
use crate::path_time::{
    assemble, first_token, lemma_lsplit1_concat, lemma_lsplit1_none, lemma_rsplit1_concat,
    lsplit1, parse2, parse4, path_timestamp, rsplit1,
};
use crate::time::Timestamp;

verus! {

/// The two-digit decimal rendering of `n`.
pub open spec fn render2(n: int) -> Seq<char> {
    seq![digit_char(n / 10), digit_char(n % 10)]
}

/// The four-digit decimal rendering of `n`.
pub open spec fn render4(n: int) -> Seq<char> {
    seq![
        digit_char(n / 1000),
        digit_char(n / 100 % 10),
        digit_char(n / 10 % 10),
        digit_char(n % 10),
    ]
}

pub proof fn lemma_parse2_render2(n: int)
    requires
        0 <= n < 100,
    ensures
        parse2(render2(n)) == Some(n),
        forall|j: int| 0 <= j < 2 ==> is_digit(#[trigger] render2(n)[j]),
{
    crate::chars::lemma_digit_char_val(n / 10);
    crate::chars::lemma_digit_char_val(n % 10);
}

#[verifier::rlimit(50)]
pub proof fn lemma_parse4_render4(n: int)
    requires
        0 <= n < 10000,
    ensures
        parse4(render4(n)) == Some(n),
        forall|j: int| 0 <= j < 4 ==> is_digit(#[trigger] render4(n)[j]),
{
    crate::chars::lemma_digit_char_val(n / 1000);
    crate::chars::lemma_digit_char_val(n / 100 % 10);
    crate::chars::lemma_digit_char_val(n / 10 % 10);
    crate::chars::lemma_digit_char_val(n % 10);
}

/// A digit character is none of the convention's separators.
pub proof fn lemma_digit_not_sep(c: char)
    requires
        is_digit(c),
    ensures
        c != '/' && c != 'T' && c != '-',
{
}

/// The path a timestamp is conventionally recorded under:
/// `<dirs>/<YYYY>/<MM>/<DD>/<stem>T<HH>-<MM>-<SS><tail>`.
pub open spec fn conventional_path(
    dirs: Seq<char>,
    ts: Timestamp,
    stem: Seq<char>,
    tail: Seq<char>,
) -> Seq<char> {
    dirs + seq!['/'] + render4(ts.year as int) + seq!['/'] + render2(ts.month as int) + seq!['/']
        + render2(ts.day as int) + seq!['/'] + stem + seq!['T'] + render2(ts.hour as int)
        + seq!['-'] + render2(ts.minute as int) + seq!['-'] + render2(ts.second as int) + tail
}

/// From any path that follows the year/month/day plus `T`-separated-time
/// convention, the extractor recovers exactly the timestamp encoded. The
/// leading directories are arbitrary; the file name may carry any `/`-free
/// prefix before the `T` and any trailing portion after the seconds field,
/// so long as that trailing portion opens with the token separator.
pub proof fn lemma_conventional_path_timestamp(
    dirs: Seq<char>,
    ts: Timestamp,
    stem: Seq<char>,
    tail: Seq<char>,
)
    requires
        ts.valid(),
        forall|j: int| 0 <= j < stem.len() ==> stem[j] != '/' && stem[j] != 'T',
        forall|j: int| 0 <= j < tail.len() ==> tail[j] != '/',
        tail.len() > 0 ==> tail[0] == '-',
    ensures
        path_timestamp(conventional_path(dirs, ts, stem, tail)) == Some(ts),
{
    let y = render4(ts.year as int);
    let mo = render2(ts.month as int);
    let d = render2(ts.day as int);
    let h = render2(ts.hour as int);
    let mi = render2(ts.minute as int);
    let se = render2(ts.second as int);
    lemma_parse4_render4(ts.year as int);
    lemma_parse2_render2(ts.month as int);
    lemma_parse2_render2(ts.day as int);
    lemma_parse2_render2(ts.hour as int);
    lemma_parse2_render2(ts.minute as int);
    lemma_parse2_render2(ts.second as int);
    let s = conventional_path(dirs, ts, stem, tail);
    let file = stem + seq!['T'] + h + seq!['-'] + mi + seq!['-'] + se + tail;
    let pre3 = dirs + seq!['/'] + y + seq!['/'] + mo;
    let pre2 = pre3 + seq!['/'] + d;

    assert forall|j: int| 0 <= j < file.len() implies file[j] != '/' by {}
    assert(s =~= pre2 + seq!['/'] + file);
    lemma_rsplit1_concat(pre2, file, '/');
    let c1 = rsplit1(s, '/').unwrap();

    assert forall|j: int| 0 <= j < d.len() implies d[j] != '/' by {}
    lemma_rsplit1_concat(pre3, d, '/');
    let c2 = rsplit1(c1.0, '/').unwrap();
    assert(rsplit1(c1.0, '/') == rsplit1(pre3 + seq!['/'] + d, '/'));

    assert(pre3 =~= (dirs + seq!['/'] + y) + seq!['/'] + mo);
    lemma_rsplit1_concat(dirs + seq!['/'] + y, mo, '/');
    let c3 = rsplit1(c2.0, '/').unwrap();

    lemma_rsplit1_concat(dirs, y, '/');
    let c4 = rsplit1(c3.0, '/').unwrap();

    let hmst = h + seq!['-'] + mi + seq!['-'] + se + tail;
    assert(file =~= stem + seq!['T'] + hmst);
    lemma_lsplit1_concat(stem, hmst, 'T');
    let c5 = lsplit1(file, 'T').unwrap();

    assert(hmst =~= h + seq!['-'] + (mi + seq!['-'] + se + tail));
    lemma_lsplit1_concat(h, mi + seq!['-'] + se + tail, '-');
    let c6 = lsplit1(c5.1, '-').unwrap();

    assert(mi + seq!['-'] + se + tail =~= mi + seq!['-'] + (se + tail));
    lemma_lsplit1_concat(mi, se + tail, '-');
    let c7 = lsplit1(c6.1, '-').unwrap();

    if tail.len() == 0 {
        assert(se + tail =~= se);
        lemma_lsplit1_none(se, '-');
        assert(first_token(c7.1, '-') =~= se);
    } else {
        assert(se + tail =~= se + seq!['-'] + tail.skip(1));
        lemma_lsplit1_concat(se, tail.skip(1), '-');
        assert(first_token(c7.1, '-') =~= se);
    }
    assert(assemble(y, mo, d, h, mi, se) == Some(ts)) by {
        let t = Timestamp {
            year: ts.year as int as u16,
            month: ts.month as int as u8,
            day: ts.day as int as u8,
            hour: ts.hour as int as u8,
            minute: ts.minute as int as u8,
            second: ts.second as int as u8,
        };
        assert(t == ts);
    }
}

/// Occurrences of `c` in `s`.
pub open spec fn count_char(s: Seq<char>, c: char) -> int
    decreases s.len(),
{
    if s.len() == 0 {
        0
    } else {
        count_char(s.drop_last(), c) + if s.last() == c {
            1int
        } else {
            0int
        }
    }
}

proof fn lemma_count_char_nonneg(s: Seq<char>, c: char)
    ensures
        count_char(s, c) >= 0,
    decreases s.len(),
{
    if s.len() > 0 {
        lemma_count_char_nonneg(s.drop_last(), c);
    }
}

proof fn lemma_rsplit1_count(s: Seq<char>, sep: char)
    ensures
        match rsplit1(s, sep) {
            Some(r) => count_char(r.0, sep) == count_char(s, sep) - 1,
            None => count_char(s, sep) == 0,
        },
    decreases s.len(),
{
    if s.len() > 0 && s.last() != sep {
        lemma_rsplit1_count(s.drop_last(), sep);
        if let Some(r) = rsplit1(s.drop_last(), sep) {
            assert(count_char(r.0, sep) == count_char(s.drop_last(), sep) - 1);
        }
    }
}

/// A path with fewer than five `/`-separated segments encodes no timestamp.
pub proof fn lemma_few_segments_no_timestamp(s: Seq<char>)
    requires
        count_char(s, '/') < 4,
    ensures
        path_timestamp(s) is None,
{
    lemma_rsplit1_count(s, '/');
    if let Some(c1) = rsplit1(s, '/') {
        lemma_rsplit1_count(c1.0, '/');
        if let Some(c2) = rsplit1(c1.0, '/') {
            lemma_rsplit1_count(c2.0, '/');
            if let Some(c3) = rsplit1(c2.0, '/') {
                lemma_rsplit1_count(c3.0, '/');
                if let Some(c4) = rsplit1(c3.0, '/') {
                    lemma_count_char_nonneg(c4.0, '/');
                }
            }
        }
    }
}

/// A path whose file name lacks the literal `T` encodes no timestamp.
pub proof fn lemma_no_time_marker_no_timestamp(s: Seq<char>)
    requires
        rsplit1(s, '/') matches Some(r) ==> forall|j: int| 0 <= j < r.1.len() ==> r.1[j] != 'T',
    ensures
        path_timestamp(s) is None,
{
    if let Some(r) = rsplit1(s, '/') {
        lemma_lsplit1_none(r.1, 'T');
    }
}


} // verus!
