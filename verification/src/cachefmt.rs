//! The persisted cache-file format.
//!
//! A project's cache is one JSON document,
//! `{"lastScanned":"...","sessions":[{"path":"...","sessionId":"...","preview":"..."},...]}`,
//! always written whole. Writing and reading it are both verified here, and
//! reading back a written document recovers exactly what was written. A
//! document in any other shape parses to nothing; callers treat that as "no
//! usable cache" and fall back to scanning.
use vstd::prelude::*;

use crate::chars::{chars_str, str_chars};
use crate::record::{rec_views, RecView, SessionRecord};

verus! {

/// How one character is written inside a JSON string: quote, backslash and
/// the common control characters are escaped; everything else stands as
/// itself.
pub open spec fn esc1(c: char) -> Seq<char> {
    if c == '"' {
        seq!['\\', '"']
    } else if c == '\\' {
        seq!['\\', '\\']
    } else if c == '\n' {
        seq!['\\', 'n']
    } else if c == '\r' {
        seq!['\\', 'r']
    } else if c == '\t' {
        seq!['\\', 't']
    } else {
        seq![c]
    }
}

/// A string's characters, written for a JSON string body.
pub open spec fn escape(s: Seq<char>) -> Seq<char>
    decreases s.len(),
{
    if s.len() == 0 {
        Seq::empty()
    } else {
        esc1(s[0]) + escape(s.skip(1))
    }
}

/// The character an escape sequence `\x` stands for.
pub open spec fn unesc(c: char) -> Option<char> {
    if c == '"' {
        Some('"')
    } else if c == '\\' {
        Some('\\')
    } else if c == 'n' {
        Some('\n')
    } else if c == 'r' {
        Some('\r')
    } else if c == 't' {
        Some('\t')
    } else {
        None
    }
}

/// Reads a JSON string body up to and through its closing quote: the
/// decoded text and the input that follows the quote.
pub open spec fn parse_str(s: Seq<char>) -> Option<(Seq<char>, Seq<char>)>
    decreases s.len(),
{
    if s.len() == 0 {
        None
    } else if s[0] == '"' {
        Some((Seq::empty(), s.skip(1)))
    } else if s[0] == '\\' {
        if s.len() < 2 {
            None
        } else {
            match unesc(s[1]) {
                None => None,
                Some(c) => match parse_str(s.skip(2)) {
                    None => None,
                    Some((t, r)) => Some((seq![c] + t, r)),
                },
            }
        }
    } else {
        match parse_str(s.skip(1)) {
            None => None,
            Some((t, r)) => Some((seq![s[0]] + t, r)),
        }
    }
}

/// Demands that the input open with `lit`; what follows it.
pub open spec fn expect(s: Seq<char>, lit: Seq<char>) -> Option<Seq<char>> {
    if lit.is_prefix_of(s) {
        Some(s.skip(lit.len() as int))
    } else {
        None
    }
}

pub open spec fn lit_open() -> Seq<char> {
    seq!['{', '"', 'l', 'a', 's', 't', 'S', 'c', 'a', 'n', 'n', 'e', 'd', '"', ':', '"']
}

pub open spec fn lit_sessions() -> Seq<char> {
    seq![',', '"', 's', 'e', 's', 's', 'i', 'o', 'n', 's', '"', ':', '[']
}

pub open spec fn lit_rec_open() -> Seq<char> {
    seq!['{', '"', 'p', 'a', 't', 'h', '"', ':', '"']
}

pub open spec fn lit_rec_sid() -> Seq<char> {
    seq![',', '"', 's', 'e', 's', 's', 'i', 'o', 'n', 'I', 'd', '"', ':', '"']
}

pub open spec fn lit_rec_prev() -> Seq<char> {
    seq![',', '"', 'p', 'r', 'e', 'v', 'i', 'e', 'w', '"', ':', '"']
}

/// One session as written in the document.
pub open spec fn render_record(r: RecView) -> Seq<char> {
    lit_rec_open() + escape(r.path) + seq!['"'] + lit_rec_sid() + escape(r.session_id) + seq!['"']
        + lit_rec_prev() + escape(r.preview) + seq!['"', '}']
}

/// The session array's content and closing bracket.
pub open spec fn render_sessions(rs: Seq<RecView>) -> Seq<char>
    decreases rs.len(),
{
    if rs.len() == 0 {
        seq![']']
    } else if rs.len() == 1 {
        render_record(rs[0]) + seq![']']
    } else {
        render_record(rs[0]) + seq![','] + render_sessions(rs.skip(1))
    }
}

/// A cache document's meaning: when it was last scanned, and the sessions.
#[verifier::ext_equal]
pub struct CacheDocView {
    pub last_scanned: Seq<char>,
    pub sessions: Seq<RecView>,
}

/// The one shape in which a cache document is written.
pub open spec fn render_doc(v: CacheDocView) -> Seq<char> {
    lit_open() + escape(v.last_scanned) + seq!['"'] + lit_sessions() + render_sessions(v.sessions)
        + seq!['}']
}

pub proof fn lemma_parse_str_le(s: Seq<char>)
    ensures
        parse_str(s) matches Some(p) ==> p.1.len() < s.len(),
    decreases s.len(),
{
    if s.len() > 0 && s[0] != '"' {
        if s[0] == '\\' {
            if s.len() >= 2 {
                lemma_parse_str_le(s.skip(2));
            }
        } else {
            lemma_parse_str_le(s.skip(1));
        }
    }
}

/// One session's record, read back.
pub open spec fn parse_record(s: Seq<char>) -> Option<(RecView, Seq<char>)> {
    match expect(s, lit_rec_open()) {
        None => None,
        Some(s1) => match parse_str(s1) {
            None => None,
            Some((p, s2)) => match expect(s2, lit_rec_sid()) {
                None => None,
                Some(s3) => match parse_str(s3) {
                    None => None,
                    Some((sid, s4)) => match expect(s4, lit_rec_prev()) {
                        None => None,
                        Some(s5) => match parse_str(s5) {
                            None => None,
                            Some((pv, s6)) => match expect(s6, seq!['}']) {
                                None => None,
                                Some(s7) => Some(
                                    (RecView { path: p, session_id: sid, preview: pv }, s7),
                                ),
                            },
                        },
                    },
                },
            },
        },
    }
}

pub proof fn lemma_parse_record_le(s: Seq<char>)
    ensures
        parse_record(s) matches Some(p) ==> p.1.len() < s.len(),
{
    if let Some(s1) = expect(s, lit_rec_open()) {
        lemma_parse_str_le(s1);
        if let Some((_, s2)) = parse_str(s1) {
            if let Some(s3) = expect(s2, lit_rec_sid()) {
                lemma_parse_str_le(s3);
                if let Some((_, s4)) = parse_str(s3) {
                    if let Some(s5) = expect(s4, lit_rec_prev()) {
                        lemma_parse_str_le(s5);
                    }
                }
            }
        }
    }
}

/// The session array, read back through its closing bracket.
pub open spec fn parse_sessions(s: Seq<char>) -> Option<(Seq<RecView>, Seq<char>)>
    decreases s.len(),
    via parse_sessions_decreases
{
    if s.len() == 0 {
        None
    } else if s[0] == ']' {
        Some((Seq::empty(), s.skip(1)))
    } else {
        match parse_record(s) {
            None => None,
            Some((r, rest)) => {
                if rest.len() == 0 {
                    None
                } else if rest[0] == ',' {
                    match parse_sessions(rest.skip(1)) {
                        None => None,
                        Some((rs, fin)) => Some((seq![r] + rs, fin)),
                    }
                } else if rest[0] == ']' {
                    Some((seq![r], rest.skip(1)))
                } else {
                    None
                }
            },
        }
    }
}

#[via_fn]
proof fn parse_sessions_decreases(s: Seq<char>) {
    lemma_parse_record_le(s);
}

/// A whole cache document, read back; nothing may follow it.
pub open spec fn parse_doc(s: Seq<char>) -> Option<CacheDocView> {
    match expect(s, lit_open()) {
        None => None,
        Some(s1) => match parse_str(s1) {
            None => None,
            Some((ls, s2)) => match expect(s2, lit_sessions()) {
                None => None,
                Some(s3) => match parse_sessions(s3) {
                    None => None,
                    Some((rs, s4)) => {
                        if s4 == seq!['}'] {
                            Some(CacheDocView { last_scanned: ls, sessions: rs })
                        } else {
                            None
                        }
                    },
                },
            },
        },
    }
}

pub proof fn lemma_expect_concat(lit: Seq<char>, rest: Seq<char>)
    ensures
        expect(lit + rest, lit) matches Some(r) && r =~= rest,
{
    assert(lit.is_prefix_of(lit + rest)) by {
        assert(lit =~= (lit + rest).take(lit.len() as int));
    }
    assert((lit + rest).skip(lit.len() as int) =~= rest);
}

/// Reading a written string body consumes exactly its escape and closing
/// quote and yields the original text.
pub proof fn lemma_parse_str_escape(x: Seq<char>, rest: Seq<char>)
    ensures
        parse_str(escape(x) + seq!['"'] + rest) matches Some(p) && p.0 =~= x && p.1 =~= rest,
    decreases x.len(),
{
    let s = escape(x) + seq!['"'] + rest;
    if x.len() == 0 {
        assert(escape(x) =~= Seq::<char>::empty());
        assert(s[0] == '"');
        assert(s.skip(1) =~= rest);
    } else {
        let c = x[0];
        lemma_parse_str_escape(x.skip(1), rest);
        let tailseq = escape(x.skip(1)) + seq!['"'] + rest;
        if c == '"' || c == '\\' || c == '\n' || c == '\r' || c == '\t' {
            assert(esc1(c).len() == 2);
            assert(esc1(c)[0] == '\\');
            assert(s[0] == '\\');
            assert(s[1] == esc1(c)[1]);
            assert(unesc(esc1(c)[1]) == Some(c));
            assert(s.skip(2) =~= tailseq);
            let p = parse_str(tailseq).unwrap();
            assert(seq![c] + p.0 =~= x);
        } else {
            assert(esc1(c) =~= seq![c]);
            assert(s[0] == c);
            assert(s[0] != '"' && s[0] != '\\');
            assert(s.skip(1) =~= tailseq);
            let p = parse_str(tailseq).unwrap();
            assert(seq![c] + p.0 =~= x);
        }
    }
}

/// Reading a written record consumes exactly it and yields the record.
#[verifier::rlimit(100)]
#[verifier::spinoff_prover]
pub proof fn lemma_parse_record_render(r: RecView, rest: Seq<char>)
    ensures
        parse_record(render_record(r) + rest) matches Some(p) && p.0 =~= r && p.1 =~= rest,
{
    let s = render_record(r) + rest;
    let a1 = escape(r.path) + seq!['"'] + (lit_rec_sid() + escape(r.session_id) + seq!['"']
        + lit_rec_prev() + escape(r.preview) + seq!['"', '}'] + rest);
    assert(s =~= lit_rec_open() + a1);
    lemma_expect_concat(lit_rec_open(), a1);
    assert(expect(s, lit_rec_open()) == expect(lit_rec_open() + a1, lit_rec_open()));
    let s1 = expect(s, lit_rec_open()).unwrap();
    assert(s1 =~= a1);

    lemma_parse_str_escape(
        r.path,
        lit_rec_sid() + escape(r.session_id) + seq!['"'] + lit_rec_prev() + escape(r.preview)
            + seq!['"', '}'] + rest,
    );
    let p1 = parse_str(s1).unwrap();
    assert(p1.0 =~= r.path);
    let s2 = p1.1;

    let a2 = escape(r.session_id) + seq!['"'] + (lit_rec_prev() + escape(r.preview) + seq![
        '"',
        '}',
    ] + rest);
    assert(s2 =~= lit_rec_sid() + a2);
    lemma_expect_concat(lit_rec_sid(), a2);
    let s3 = expect(s2, lit_rec_sid()).unwrap();
    assert(s3 =~= a2);

    lemma_parse_str_escape(
        r.session_id,
        lit_rec_prev() + escape(r.preview) + seq!['"', '}'] + rest,
    );
    let p2 = parse_str(s3).unwrap();
    assert(p2.0 =~= r.session_id);
    let s4 = p2.1;

    let a3 = escape(r.preview) + seq!['"'] + (seq!['}'] + rest);
    assert(s4 =~= lit_rec_prev() + a3);
    lemma_expect_concat(lit_rec_prev(), a3);
    let s5 = expect(s4, lit_rec_prev()).unwrap();
    assert(s5 =~= a3);

    lemma_parse_str_escape(r.preview, seq!['}'] + rest);
    let p3 = parse_str(s5).unwrap();
    assert(p3.0 =~= r.preview);
    let s6 = p3.1;

    assert(s6 =~= seq!['}'] + rest);
    lemma_expect_concat(seq!['}'], rest);
    let s7 = expect(s6, seq!['}']).unwrap();
    assert(s7 =~= rest);
    assert(parse_record(s).unwrap().0 =~= r);
}

/// Reading a written session array consumes exactly it and yields the
/// records.
#[verifier::rlimit(100)]
#[verifier::spinoff_prover]
pub proof fn lemma_parse_sessions_render(rs: Seq<RecView>, rest: Seq<char>)
    ensures
        parse_sessions(render_sessions(rs) + rest) matches Some(p) && p.0 =~= rs && p.1 =~= rest,
    decreases rs.len(),
{
    let s = render_sessions(rs) + rest;
    if rs.len() == 0 {
        assert(s[0] == ']');
        assert(s.skip(1) =~= rest);
    } else if rs.len() == 1 {
        assert(s =~= render_record(rs[0]) + (seq![']'] + rest));
        lemma_parse_record_render(rs[0], seq![']'] + rest);
        assert(s[0] == render_record(rs[0])[0]);
        assert(s[0] == '{');
        let p = parse_record(s).unwrap();
        assert(p.1 =~= seq![']'] + rest);
        assert(p.1[0] == ']');
        assert(p.1.skip(1) =~= rest);
        assert(parse_sessions(s).unwrap().0 =~= rs);
    } else {
        lemma_parse_sessions_render(rs.skip(1), rest);
        assert(s =~= render_record(rs[0]) + (seq![','] + (render_sessions(rs.skip(1)) + rest)));
        lemma_parse_record_render(rs[0], seq![','] + (render_sessions(rs.skip(1)) + rest));
        assert(s[0] == render_record(rs[0])[0]);
        assert(s[0] == '{');
        let p = parse_record(s).unwrap();
        assert(p.1 =~= seq![','] + (render_sessions(rs.skip(1)) + rest));
        assert(p.1[0] == ',');
        assert(p.1.skip(1) =~= render_sessions(rs.skip(1)) + rest);
        let q = parse_sessions(p.1.skip(1)).unwrap();
        assert(seq![p.0] + q.0 =~= rs);
        assert(parse_sessions(s).unwrap().0 =~= rs);
    }
}

/// Reading back a written cache document yields exactly what was written:
/// the round trip on which the read-through cache rests.
pub proof fn lemma_parse_doc_render(v: CacheDocView)
    ensures
        parse_doc(render_doc(v)) == Some(v),
{
    let s = render_doc(v);
    let a1 = escape(v.last_scanned) + seq!['"'] + (lit_sessions() + render_sessions(v.sessions)
        + seq!['}']);
    assert(s =~= lit_open() + a1);
    lemma_expect_concat(lit_open(), a1);
    let s1 = expect(s, lit_open()).unwrap();
    assert(s1 =~= a1);

    lemma_parse_str_escape(
        v.last_scanned,
        lit_sessions() + render_sessions(v.sessions) + seq!['}'],
    );
    let p1 = parse_str(s1).unwrap();
    assert(p1.0 =~= v.last_scanned);
    let s2 = p1.1;

    let a2 = render_sessions(v.sessions) + seq!['}'];
    assert(s2 =~= lit_sessions() + a2);
    lemma_expect_concat(lit_sessions(), a2);
    let s3 = expect(s2, lit_sessions()).unwrap();
    assert(s3 =~= a2);

    lemma_parse_sessions_render(v.sessions, seq!['}']);
    let p2 = parse_sessions(s3).unwrap();
    assert(p2.0 =~= v.sessions);
    assert(p2.1 =~= seq!['}']);
    assert(p2.1 == seq!['}']);

    let d = parse_doc(s).unwrap();
    assert(d =~= v);
}

/// A parsed cache document, as held in memory.
pub struct CacheDoc {
    pub last_scanned: String,
    pub sessions: Vec<SessionRecord>,
}

impl View for CacheDoc {
    type V = CacheDocView;

    open spec fn view(&self) -> CacheDocView {
        CacheDocView { last_scanned: self.last_scanned@, sessions: rec_views(self.sessions@) }
    }
}

proof fn lemma_escape_snoc(a: Seq<char>, c: char)
    ensures
        escape(a.push(c)) =~= escape(a) + esc1(c),
    decreases a.len(),
{
    if a.len() == 0 {
        assert(a.push(c)[0] == c);
        assert(a.push(c).skip(1) =~= Seq::<char>::empty());
        assert(escape(a.push(c)) == esc1(c) + escape(a.push(c).skip(1)));
        assert(escape(a.push(c)) =~= esc1(c));
        assert(escape(a) =~= Seq::<char>::empty());
    } else {
        lemma_escape_snoc(a.skip(1), c);
        assert(a.push(c).skip(1) =~= a.skip(1).push(c));
        assert(a.push(c)[0] == a[0]);
        assert(escape(a.push(c)) == esc1(a[0]) + escape(a.push(c).skip(1)));
        assert(escape(a.push(c).skip(1)) == escape(a.skip(1).push(c)));
        assert(escape(a.skip(1).push(c)) =~= escape(a.skip(1)) + esc1(c));
        assert(escape(a) == esc1(a[0]) + escape(a.skip(1)));
        assert(escape(a.push(c)) =~= escape(a) + esc1(c));
    }
}

/// Appends the escaped form of `s` to `out`.
fn escape_push(out: &mut Vec<char>, s: &Vec<char>)
    ensures
        final(out)@ =~= old(out)@ + escape(s@),
{
    let ghost base = out@;
    let mut i: usize = 0;
    proof {
        assert(s@.take(0) =~= Seq::<char>::empty());
        assert(escape(s@.take(0)) =~= Seq::<char>::empty());
        assert(out@ =~= base + escape(s@.take(0)));
    }
    while i < s.len()
        invariant
            i <= s@.len(),
            out@ =~= base + escape(s@.take(i as int)),
        decreases s@.len() - i,
    {
        let c = s[i];
        if c == '"' {
            out.push('\\');
            out.push('"');
        } else if c == '\\' {
            out.push('\\');
            out.push('\\');
        } else if c == '\n' {
            out.push('\\');
            out.push('n');
        } else if c == '\r' {
            out.push('\\');
            out.push('r');
        } else if c == '\t' {
            out.push('\\');
            out.push('t');
        } else {
            out.push(c);
        }
        proof {
            lemma_escape_snoc(s@.take(i as int), c);
            assert(s@.take(i + 1) =~= s@.take(i as int).push(c));
        }
        i = i + 1;
    }
    proof {
        assert(s@.take(s@.len() as int) =~= s@);
    }
}

/// Appends the characters of a literal given as source text.
fn push_str_chars(out: &mut Vec<char>, lit: &str)
    ensures
        final(out)@ =~= old(out)@ + lit@,
{
    let cs = str_chars(lit);
    let mut i: usize = 0;
    while i < cs.len()
        invariant
            i <= cs@.len(),
            cs@ == lit@,
            out@ =~= old(out)@ + lit@.take(i as int),
        decreases cs@.len() - i,
    {
        out.push(cs[i]);
        proof {
            assert(lit@.take(i + 1) =~= lit@.take(i as int).push(lit@[i as int]));
        }
        i = i + 1;
    }
    proof {
        assert(lit@.take(lit@.len() as int) =~= lit@);
    }
}

/// Appends one record in its written form.
fn render_record_push(out: &mut Vec<char>, rec: &SessionRecord)
    ensures
        final(out)@ =~= old(out)@ + render_record(rec@),
{
    proof {
        reveal_strlit("{\"path\":\"");
        reveal_strlit("\",\"sessionId\":\"");
        reveal_strlit("\",\"preview\":\"");
        reveal_strlit("\"}");
        assert("{\"path\":\""@ =~= lit_rec_open());
        assert("\",\"sessionId\":\""@ =~= seq!['"'] + lit_rec_sid());
        assert("\",\"preview\":\""@ =~= seq!['"'] + lit_rec_prev());
        assert("\"}"@ =~= seq!['"', '}']);
    }
    push_str_chars(out, "{\"path\":\"");
    let p = str_chars(rec.path.as_str());
    escape_push(out, &p);
    push_str_chars(out, "\",\"sessionId\":\"");
    let sid = str_chars(rec.session_id.as_str());
    escape_push(out, &sid);
    push_str_chars(out, "\",\"preview\":\"");
    let pv = str_chars(rec.preview.as_str());
    escape_push(out, &pv);
    push_str_chars(out, "\"}");
}

/// Appends the written session array from index `i` on, and its closing
/// bracket.
fn render_sessions_push(out: &mut Vec<char>, recs: &Vec<SessionRecord>, i: usize)
    requires
        i <= recs@.len(),
    ensures
        final(out)@ =~= old(out)@ + render_sessions(rec_views(recs@).skip(i as int)),
    decreases recs@.len() - i,
{
    let ghost tailviews = rec_views(recs@).skip(i as int);
    if i == recs.len() {
        out.push(']');
        proof {
            assert(tailviews.len() == 0);
        }
    } else if i + 1 == recs.len() {
        render_record_push(out, &recs[i]);
        out.push(']');
        proof {
            assert(tailviews.len() == 1);
            assert(tailviews[0] == recs@[i as int]@);
            assert(out@ =~= old(out)@ + (render_record(tailviews[0]) + seq![']']));
        }
    } else {
        render_record_push(out, &recs[i]);
        out.push(',');
        let ghost mid = out@;
        proof {
            assert(mid =~= old(out)@ + (render_record(tailviews[0]) + seq![',']));
        }
        render_sessions_push(out, recs, i + 1);
        proof {
            assert(tailviews.skip(1) =~= rec_views(recs@).skip(i + 1));
            assert(out@ =~= old(out)@ + (render_record(tailviews[0]) + seq![','] + render_sessions(
                tailviews.skip(1),
            )));
        }
    }
}

/// Writes a whole cache document: the scan time and the session list, in
/// the one canonical shape.
pub fn render_cache(last_scanned: &str, sessions: &Vec<SessionRecord>) -> (r: String)
    ensures
        r@ == render_doc(
            CacheDocView { last_scanned: last_scanned@, sessions: rec_views(sessions@) },
        ),
{
    let ghost v = CacheDocView { last_scanned: last_scanned@, sessions: rec_views(sessions@) };
    let mut out: Vec<char> = Vec::new();
    proof {
        reveal_strlit("{\"lastScanned\":\"");
        reveal_strlit("\",\"sessions\":[");
        assert("{\"lastScanned\":\""@ =~= lit_open());
        assert("\",\"sessions\":["@ =~= seq!['"'] + lit_sessions());
    }
    push_str_chars(&mut out, "{\"lastScanned\":\"");
    let ls = str_chars(last_scanned);
    escape_push(&mut out, &ls);
    push_str_chars(&mut out, "\",\"sessions\":[");
    proof {
        assert(out@ =~= lit_open() + escape(v.last_scanned) + seq!['"'] + lit_sessions());
        assert(rec_views(sessions@).skip(0) =~= rec_views(sessions@));
    }
    render_sessions_push(&mut out, sessions, 0);
    out.push('}');
    proof {
        assert(out@ =~= render_doc(v));
    }
    chars_str(&out)
}

fn unesc_exec(c: char) -> (r: Option<char>)
    ensures
        r == unesc(c),
{
    if c == '"' {
        Some('"')
    } else if c == '\\' {
        Some('\\')
    } else if c == 'n' {
        Some('\n')
    } else if c == 'r' {
        Some('\r')
    } else if c == 't' {
        Some('\t')
    } else {
        None
    }
}

/// Reads a string body starting at `i`; the decoded text and the index
/// after the closing quote.
fn parse_str_at(cs: &Vec<char>, i: usize) -> (r: Option<(Vec<char>, usize)>)
    requires
        i <= cs@.len(),
    ensures
        match r {
            Some(p) => i <= p.1 <= cs@.len() && parse_str(cs@.skip(i as int)) == Some(
                (p.0@, cs@.skip(p.1 as int)),
            ),
            None => parse_str(cs@.skip(i as int)) is None,
        },
{
    let mut acc: Vec<char> = Vec::new();
    let mut cur: usize = i;
    proof {
        assert(acc@ + parse_str(cs@.skip(i as int)).unwrap().0 =~= parse_str(
            cs@.skip(i as int),
        ).unwrap().0) by {
            if parse_str(cs@.skip(i as int)) is Some {
            }
        }
    }
    loop
        invariant
            i <= cur <= cs@.len(),
            parse_str(cs@.skip(i as int)) == (match parse_str(cs@.skip(cur as int)) {
                Some(p) => Some((acc@ + p.0, p.1)),
                None => None::<(Seq<char>, Seq<char>)>,
            }),
        decreases cs@.len() - cur,
    {
        if cur == cs.len() {
            proof {
                assert(cs@.skip(cur as int).len() == 0);
            }
            return None;
        }
        let c = cs[cur];
        proof {
            assert(cs@.skip(cur as int)[0] == cs@[cur as int]);
        }
        if c == '"' {
            proof {
                assert(parse_str(cs@.skip(cur as int)) == Some(
                    (Seq::<char>::empty(), cs@.skip(cur + 1)),
                ));
                assert(acc@ + Seq::<char>::empty() =~= acc@);
            }
            return Some((acc, cur + 1));
        } else if c == '\\' {
            if cur + 1 == cs.len() {
                proof {
                    assert(cs@.skip(cur as int).len() == 1);
                }
                return None;
            }
            let e = cs[cur + 1];
            proof {
                assert(cs@.skip(cur as int)[1] == cs@[cur + 1]);
            }
            match unesc_exec(e) {
                None => {
                    return None;
                },
                Some(d) => {
                    let ghost old_acc = acc@;
                    acc.push(d);
                    proof {
                        assert(cs@.skip(cur as int).skip(2) =~= cs@.skip(cur + 2));
                        if parse_str(cs@.skip(cur + 2)) is Some {
                            let q = parse_str(cs@.skip(cur + 2)).unwrap();
                            assert(old_acc + (seq![d] + q.0) =~= acc@ + q.0);
                        }
                    }
                    cur = cur + 2;
                },
            }
        } else {
            let ghost old_acc = acc@;
            acc.push(c);
            proof {
                assert(cs@.skip(cur as int).skip(1) =~= cs@.skip(cur + 1));
                if parse_str(cs@.skip(cur + 1)) is Some {
                    let q = parse_str(cs@.skip(cur + 1)).unwrap();
                    assert(old_acc + (seq![c] + q.0) =~= acc@ + q.0);
                }
            }
            cur = cur + 1;
        }
    }
}

/// Demands the literal at `i`; the index after it.
fn expect_lit(cs: &Vec<char>, i: usize, lit: &str) -> (r: Option<usize>)
    requires
        i <= cs@.len(),
    ensures
        match r {
            Some(j) => i <= j <= cs@.len() && j - i == lit@.len() && expect(
                cs@.skip(i as int),
                lit@,
            ) == Some(cs@.skip(j as int)),
            None => expect(cs@.skip(i as int), lit@) is None,
        },
{
    let lv = str_chars(lit);
    let n = cs.len();
    if n - i < lv.len() {
        proof {
            assert(cs@.skip(i as int).len() < lit@.len());
            assert(!lit@.is_prefix_of(cs@.skip(i as int)));
        }
        return None;
    }
    let mut k: usize = 0;
    while k < lv.len()
        invariant
            k <= lv@.len(),
            lv@ == lit@,
            n == cs@.len(),
            i + lv@.len() <= n,
            forall|m: int| 0 <= m < k ==> cs@[i + m] == lit@[m],
        decreases lv@.len() - k,
    {
        if cs[i + k] != lv[k] {
            proof {
                assert(cs@.skip(i as int)[k as int] != lit@[k as int]);
                assert(!lit@.is_prefix_of(cs@.skip(i as int)));
            }
            return None;
        }
        k = k + 1;
    }
    proof {
        assert(lit@ =~= cs@.skip(i as int).take(lit@.len() as int));
        assert(lit@.is_prefix_of(cs@.skip(i as int)));
        assert(cs@.skip(i as int).skip(lit@.len() as int) =~= cs@.skip(i + lit@.len()));
    }
    Some(i + lv.len())
}

/// Reads one record starting at `i`.
fn parse_record_at(cs: &Vec<char>, i: usize) -> (r: Option<(SessionRecord, usize)>)
    requires
        i <= cs@.len(),
    ensures
        match r {
            Some(p) => i < p.1 <= cs@.len() && parse_record(cs@.skip(i as int)) == Some(
                (p.0@, cs@.skip(p.1 as int)),
            ),
            None => parse_record(cs@.skip(i as int)) is None,
        },
{
    proof {
        reveal_strlit("{\"path\":\"");
        reveal_strlit(",\"sessionId\":\"");
        reveal_strlit(",\"preview\":\"");
        reveal_strlit("}");
        assert("{\"path\":\""@ =~= lit_rec_open());
        assert(",\"sessionId\":\""@ =~= lit_rec_sid());
        assert(",\"preview\":\""@ =~= lit_rec_prev());
        assert("}"@ =~= seq!['}']);
    }
    let j1 = match expect_lit(cs, i, "{\"path\":\"") {
        Some(j) => j,
        None => {
            return None;
        },
    };
    let (p, j2) = match parse_str_at(cs, j1) {
        Some(q) => q,
        None => {
            return None;
        },
    };
    let j3 = match expect_lit(cs, j2, ",\"sessionId\":\"") {
        Some(j) => j,
        None => {
            return None;
        },
    };
    let (sid, j4) = match parse_str_at(cs, j3) {
        Some(q) => q,
        None => {
            return None;
        },
    };
    let j5 = match expect_lit(cs, j4, ",\"preview\":\"") {
        Some(j) => j,
        None => {
            return None;
        },
    };
    let (pv, j6) = match parse_str_at(cs, j5) {
        Some(q) => q,
        None => {
            return None;
        },
    };
    let j7 = match expect_lit(cs, j6, "}") {
        Some(j) => j,
        None => {
            return None;
        },
    };
    let rec = SessionRecord {
        path: chars_str(&p),
        session_id: chars_str(&sid),
        preview: chars_str(&pv),
    };
    Some((rec, j7))
}

/// Reads the session array starting at `i`, through its closing bracket.
fn parse_sessions_at(cs: &Vec<char>, i: usize) -> (r: Option<(Vec<SessionRecord>, usize)>)
    requires
        i <= cs@.len(),
    ensures
        match r {
            Some(p) => i <= p.1 <= cs@.len() && parse_sessions(cs@.skip(i as int)) == Some(
                (rec_views(p.0@), cs@.skip(p.1 as int)),
            ),
            None => parse_sessions(cs@.skip(i as int)) is None,
        },
    decreases cs@.len() - i,
{
    if i == cs.len() {
        proof {
            assert(cs@.skip(i as int).len() == 0);
        }
        return None;
    }
    let c = cs[i];
    proof {
        assert(cs@.skip(i as int)[0] == cs@[i as int]);
    }
    if c == ']' {
        let empty: Vec<SessionRecord> = Vec::new();
        proof {
            assert(rec_views(empty@) =~= Seq::<RecView>::empty());
        }
        return Some((empty, i + 1));
    }
    match parse_record_at(cs, i) {
        None => {
            return None;
        },
        Some((rec, j)) => {
            proof {
                assert(cs@.skip(i as int).len() > 0);
            }
            if j == cs.len() {
                proof {
                    assert(cs@.skip(j as int).len() == 0);
                }
                return None;
            }
            let c2 = cs[j];
            proof {
                assert(cs@.skip(j as int)[0] == cs@[j as int]);
            }
            if c2 == ',' {
                proof {
                    assert(cs@.skip(j as int).skip(1) =~= cs@.skip(j + 1));
                }
                match parse_sessions_at(cs, j + 1) {
                    None => {
                        return None;
                    },
                    Some((mut rs, fin)) => {
                        let ghost old_views = rec_views(rs@);
                        rs.insert(0, rec);
                        proof {
                            assert(rec_views(rs@) =~= seq![rec@] + old_views);
                        }
                        return Some((rs, fin));
                    },
                }
            } else if c2 == ']' {
                let mut one: Vec<SessionRecord> = Vec::new();
                one.push(rec);
                proof {
                    assert(rec_views(one@) =~= seq![rec@]);
                }
                return Some((one, j + 1));
            } else {
                return None;
            }
        },
    }
}

/// Reads a whole cache document. `Some` exactly when the text is a written
/// cache document; anything else, a malformed or foreign file, yields
/// `None`, which callers treat as "no usable cache".
pub fn parse_cache(doc: &str) -> (r: Option<CacheDoc>)
    ensures
        match r {
            Some(d) => parse_doc(doc@) == Some(d@),
            None => parse_doc(doc@) is None,
        },
{
    let cs = str_chars(doc);
    proof {
        assert(cs@.skip(0) =~= cs@);
        reveal_strlit("{\"lastScanned\":\"");
        reveal_strlit(",\"sessions\":[");
        assert("{\"lastScanned\":\""@ =~= lit_open());
        assert(",\"sessions\":["@ =~= lit_sessions());
    }
    let j1 = match expect_lit(&cs, 0, "{\"lastScanned\":\"") {
        Some(j) => j,
        None => {
            return None;
        },
    };
    let (ls, j2) = match parse_str_at(&cs, j1) {
        Some(q) => q,
        None => {
            return None;
        },
    };
    let j3 = match expect_lit(&cs, j2, ",\"sessions\":[") {
        Some(j) => j,
        None => {
            return None;
        },
    };
    let (rs, j4) = match parse_sessions_at(&cs, j3) {
        Some(q) => q,
        None => {
            return None;
        },
    };
    if j4 < cs.len() && j4 + 1 == cs.len() && cs[j4] == '}' {
        proof {
            assert(cs@.skip(j4 as int) =~= seq!['}']);
        }
        Some(CacheDoc { last_scanned: chars_str(&ls), sessions: rs })
    } else {
        proof {
            if j4 == cs@.len() {
                assert(cs@.skip(j4 as int).len() == 0);
                assert(cs@.skip(j4 as int) != seq!['}']);
            } else if j4 + 1 < cs@.len() {
                assert(cs@.skip(j4 as int).len() > 1);
                assert(cs@.skip(j4 as int) != seq!['}']);
            } else {
                assert(cs@.skip(j4 as int)[0] == cs@[j4 as int]);
                assert(cs@[j4 as int] != '}');
                assert(cs@.skip(j4 as int) != seq!['}']);
            }
        }
        None
    }
}

} // verus!
