//! Session records and their ordering.
use vstd::prelude::*;

use crate::chars::{eq_str, lemma_lex_le_total, lemma_lex_le_trans, lex_le, lex_le_chars,
    str_chars};
use crate::extract::{cwd_of, extract_role, extract_session_id, extract_text, role_of,
    session_id_of, text_of};
use crate::path_time::{extract_datetime, path_timestamp};
use crate::preview::{crop, truncate_preview};
use vstd::multiset::Multiset;

verus! {

broadcast use vstd::seq_lib::group_to_multiset_ensures;

/// One session, as derived from one transcript file: the transcript's path
/// (its identity within a project), the session identifier from its content
/// (possibly empty), and the truncated first user message.
pub struct SessionRecord {
    pub path: String,
    pub session_id: String,
    pub preview: String,
}

/// The mathematical shadow of a `SessionRecord`.
#[verifier::ext_equal]
pub struct RecView {
    pub path: Seq<char>,
    pub session_id: Seq<char>,
    pub preview: Seq<char>,
}

impl View for SessionRecord {
    type V = RecView;

    open spec fn view(&self) -> RecView {
        RecView { path: self.path@, session_id: self.session_id@, preview: self.preview@ }
    }
}

impl SessionRecord {
    /// A field-preserving copy.
    pub fn dup(&self) -> (r: SessionRecord)
        ensures
            r@ == self@,
    {
        SessionRecord {
            path: self.path.clone(),
            session_id: self.session_id.clone(),
            preview: self.preview.clone(),
        }
    }
}

/// One transcript, read into memory: its path and its lines of text.
pub struct TranscriptSource {
    pub path: String,
    pub lines: Vec<String>,
}

/// Whether a transcript's first line records this project as its working
/// directory.
pub open spec fn belongs_to(f: TranscriptSource, project: Seq<char>) -> bool {
    f.lines@.len() > 0 && cwd_of(f.lines@[0]@) == Some(project)
}

/// The session identifier a transcript's first line carries, or empty.
pub open spec fn meta_session_id(lines: Seq<Seq<char>>) -> Seq<char> {
    if lines.len() > 0 && session_id_of(lines[0]) is Some {
        session_id_of(lines[0]).unwrap()
    } else {
        Seq::empty()
    }
}

/// A line holding a message authored by the user role.
pub open spec fn is_user_line(l: Seq<char>) -> bool {
    role_of(l) == Some("user"@) && text_of(l) is Some
}

/// The text of the first user-authored message among the lines.
pub open spec fn first_user_text(lines: Seq<Seq<char>>) -> Option<Seq<char>>
    decreases lines.len(),
{
    if lines.len() == 0 {
        None
    } else if is_user_line(lines[0]) {
        text_of(lines[0])
    } else {
        first_user_text(lines.skip(1))
    }
}

/// The record a transcript yields: its path, its session identifier, and
/// the cropped first user message (empty when there is none).
pub open spec fn record_view_of(path: Seq<char>, lines: Seq<Seq<char>>) -> RecView {
    RecView {
        path: path,
        session_id: meta_session_id(lines),
        preview: match first_user_text(lines) {
            None => Seq::empty(),
            Some(t) => crop(t),
        },
    }
}

/// The first user-authored message among the lines, if any.
fn find_user_text(lines: &Vec<String>) -> (r: Option<String>)
    ensures
        match (r, first_user_text(lines.deep_view())) {
            (Some(a), Some(b)) => a@ == b,
            (None, None) => true,
            _ => false,
        },
{
    let ghost lv = lines.deep_view();
    let mut i: usize = 0;
    proof {
        assert(lv.skip(0) =~= lv);
    }
    while i < lines.len()
        invariant
            i <= lines@.len(),
            lv == lines.deep_view(),
            lv.len() == lines@.len(),
            first_user_text(lv) == first_user_text(lv.skip(i as int)),
        decreases lines@.len() - i,
    {
        let line = &lines[i];
        proof {
            assert(lv.skip(i as int)[0] == lv[i as int]);
            assert(lv[i as int] == lines@[i as int]@);
        }
        let is_user = match extract_role(line.as_str()) {
            Some(role) => eq_str(role.as_str(), "user"),
            None => false,
        };
        if is_user {
            match extract_text(line.as_str()) {
                Some(t) => {
                    proof {
                        assert(is_user_line(lv[i as int]));
                    }
                    return Some(t);
                },
                None => {},
            }
        }
        proof {
            assert(!is_user_line(lv[i as int]));
            assert(lv.skip(i as int).skip(1) =~= lv.skip(i + 1));
        }
        i = i + 1;
    }
    proof {
        assert(lv.skip(lv.len() as int).len() == 0);
    }
    None
}

/// Reads a transcript's metadata: session identifier from the first line,
/// then the first user-authored message, cropped for display.
pub fn extract_metadata(path: String, lines: &Vec<String>) -> (r: SessionRecord)
    ensures
        r@ == record_view_of(path@, lines.deep_view()),
{
    let ghost lv = lines.deep_view();
    let session_id: String = if lines.len() > 0 {
        proof {
            assert(lv[0] == lines@[0]@);
        }
        match extract_session_id(lines[0].as_str()) {
            Some(s) => s,
            None => String::new(),
        }
    } else {
        String::new()
    };
    assert(session_id@ == meta_session_id(lv));

    let preview: String = match find_user_text(lines) {
        Some(t) => truncate_preview(t.as_str()),
        None => String::new(),
    };
    SessionRecord { path, session_id, preview }
}

/// Display order of two sessions: more recent first; a session with a
/// recoverable timestamp before any without; between two without, ascending
/// path order.
pub open spec fn precedes(a: RecView, b: RecView) -> bool {
    match (path_timestamp(a.path), path_timestamp(b.path)) {
        (Some(x), Some(y)) => y.spec_le(x),
        (Some(_), None) => true,
        (None, Some(_)) => false,
        (None, None) => lex_le(a.path, b.path),
    }
}

pub proof fn lemma_precedes_total(a: RecView, b: RecView)
    ensures
        precedes(a, b) || precedes(b, a),
{
    if path_timestamp(a.path) is None && path_timestamp(b.path) is None {
        lemma_lex_le_total(a.path, b.path);
    }
}

pub proof fn lemma_precedes_trans(a: RecView, b: RecView, c: RecView)
    requires
        precedes(a, b),
        precedes(b, c),
    ensures
        precedes(a, c),
{
    if path_timestamp(a.path) is None && path_timestamp(b.path) is None && path_timestamp(c.path)
        is None {
        lemma_lex_le_trans(a.path, b.path, c.path);
    }
}

pub fn precedes_exec(a: &SessionRecord, b: &SessionRecord) -> (r: bool)
    ensures
        r == precedes(a@, b@),
{
    let ta = extract_datetime(a.path.as_str());
    let tb = extract_datetime(b.path.as_str());
    match (ta, tb) {
        (Some(x), Some(y)) => y.le(&x),
        (Some(_), None) => true,
        (None, Some(_)) => false,
        (None, None) => lex_le_chars(&str_chars(a.path.as_str()), &str_chars(b.path.as_str())),
    }
}

/// Sessions in display order: each no later than the next.
pub open spec fn sorted(s: Seq<RecView>) -> bool {
    forall|k: int| 0 <= k && k + 1 < s.len() ==> precedes(#[trigger] s[k], s[k + 1])
}

pub open spec fn rec_views(s: Seq<SessionRecord>) -> Seq<RecView> {
    s.map_values(|r: SessionRecord| r@)
}

/// Sorts session records into display order. The result holds exactly the
/// given records, reordered.
pub fn sort_records(v: Vec<SessionRecord>) -> (r: Vec<SessionRecord>)
    ensures
        rec_views(r@).to_multiset() == rec_views(v@).to_multiset(),
        sorted(rec_views(r@)),
{
    let mut src = v;
    let mut out: Vec<SessionRecord> = Vec::new();
    proof {
        assert(rec_views(out@).to_multiset().add(rec_views(src@).to_multiset()) =~= rec_views(
            src@,
        ).to_multiset());
    }
    while src.len() > 0
        invariant
            rec_views(out@).to_multiset().add(rec_views(src@).to_multiset()) == rec_views(
                v@,
            ).to_multiset(),
            sorted(rec_views(out@)),
            forall|x: int, y: int|
                0 <= x < out@.len() && 0 <= y < src@.len() ==> precedes(
                    #[trigger] out@[x]@,
                    #[trigger] src@[y]@,
                ),
        decreases src@.len(),
    {
        let mut m: usize = 0;
        let mut k: usize = 1;
        proof {
            lemma_precedes_total(src@[0]@, src@[0]@);
        }
        while k < src.len()
            invariant
                m < k <= src@.len(),
                forall|j: int| 0 <= j < k ==> precedes(src@[m as int]@, #[trigger] src@[j]@),
            decreases src@.len() - k,
        {
            if precedes_exec(&src[m], &src[k]) {
                proof {
                    assert(precedes(src@[m as int]@, src@[k as int]@));
                }
            } else {
                proof {
                    lemma_precedes_total(src@[m as int]@, src@[k as int]@);
                    assert forall|j: int| 0 <= j < k + 1 implies precedes(
                        src@[k as int]@,
                        #[trigger] src@[j]@,
                    ) by {
                        if j < k {
                            lemma_precedes_trans(src@[k as int]@, src@[m as int]@, src@[j]@);
                        } else {
                            lemma_precedes_total(src@[k as int]@, src@[k as int]@);
                        }
                    }
                }
                m = k;
            }
            k = k + 1;
        }
        let ghost old_src = src@;
        let ghost old_out = out@;
        let x = src.remove(m);
        proof {
            assert(rec_views(old_src).to_multiset() =~= rec_views(old_src.remove(m as int))
                .to_multiset().insert(x@)) by {
                assert(rec_views(old_src.remove(m as int)) =~= rec_views(old_src).remove(
                    m as int,
                ));
                assert(rec_views(old_src)[m as int] == x@);
            }
            assert(rec_views(src@) =~= rec_views(old_src.remove(m as int)));
        }
        out.push(x);
        proof {
            assert(rec_views(out@) =~= rec_views(old_out).push(x@));
            assert(rec_views(out@).to_multiset() =~= rec_views(old_out).to_multiset().insert(x@));
            assert(rec_views(out@).to_multiset().add(rec_views(src@).to_multiset()) =~= rec_views(
                v@,
            ).to_multiset());
            assert forall|k2: int| 0 <= k2 && k2 + 1 < rec_views(out@).len() implies precedes(
                #[trigger] rec_views(out@)[k2],
                rec_views(out@)[k2 + 1],
            ) by {
                if k2 + 1 < rec_views(old_out).len() {
                    assert(precedes(rec_views(old_out)[k2], rec_views(old_out)[k2 + 1]));
                } else {
                    assert(precedes(old_out[k2]@, old_src[m as int]@));
                }
            }
            assert forall|x2: int, y2: int|
                0 <= x2 < out@.len() && 0 <= y2 < src@.len() implies precedes(
                #[trigger] out@[x2]@,
                #[trigger] src@[y2]@,
            ) by {
                let orig = if y2 < m as int {
                    y2
                } else {
                    y2 + 1
                };
                assert(src@[y2] == old_src[orig]);
                if x2 < old_out.len() {
                    assert(precedes(old_out[x2]@, old_src[orig]@));
                } else {
                    assert(out@[x2]@ == x@);
                    assert(precedes(x@, old_src[orig]@));
                }
            }
        }
    }
    proof {
        assert forall|x: RecView| rec_views(src@).to_multiset().count(x) == 0 by {
            if rec_views(src@).to_multiset().count(x) > 0 {
                assert(rec_views(src@).contains(x));
            }
        }
        assert(rec_views(src@).to_multiset() =~= Multiset::empty());
        assert(rec_views(out@).to_multiset() =~= rec_views(v@).to_multiset());
    }
    out
}

} // verus!
