//! Per-project cache upkeep.
//!
//! Each project's cache file holds its last scan time and its ordered
//! session list, and every mutation rewrites the whole document: the point
//! updates here take the parsed session list, change it, and hand back the
//! list to be rendered and written again. The surrounding application does
//! the file reads and writes.
use vstd::prelude::*;

use crate::cachefmt::{parse_cache, parse_doc, render_cache, render_doc, CacheDoc, CacheDocView};
use crate::chars::eq_str;
use crate::preview::{crop, truncate_preview};
use crate::record::{rec_views, RecView, SessionRecord};
use vstd::string::{StringExecFns, StringSliceAdditionalSpecFns};

verus! {

/// Standard base64 of a byte string. The encoding depends on the bytes
/// alone; it is reversible, which makes it fit for naming a project's
/// cache file after the project's path.
pub uninterp spec fn base64_of(bytes: Seq<u8>) -> Seq<char>;

/// Relies on base64's `STANDARD` engine: `encode` writes the standard
/// base64 encoding of its input's bytes, a function of those bytes alone,
/// and encodes an empty input to an empty string.
#[verifier::external_body]
fn base64_encode(s: &str) -> (r: String)
    ensures
        r@ == base64_of(s.spec_bytes()),
        s@.len() == 0 ==> r@.len() == 0,
{
    base64::Engine::encode(&base64::engine::general_purpose::STANDARD, s)
}

/// Relies on chrono's `Utc::now` and `to_rfc3339`: the current wall-clock
/// time, written in RFC 3339 form. Nothing is promised of the value; no
/// contract here depends on what the clock reads.
#[verifier::external_body]
fn now_rfc3339() -> String {
    chrono::Utc::now().to_rfc3339()
}

/// The file name a project's cache lives under: the base64 cache key plus
/// the `.json` suffix.
pub fn cache_file_name(project_path: &str) -> (r: String)
    ensures
        r@ == base64_of(project_path.spec_bytes()) + ".json"@,
{
    let mut name = base64_encode(project_path);
    name.append(".json");
    name
}

/// The transcript store root under a home directory.
pub fn sessions_dir_path(home: &str) -> (r: String)
    ensures
        r@ == home@ + "/.codex/sessions"@,
{
    let mut p = String::from_str(home);
    p.append("/.codex/sessions");
    p
}

/// The cache directory: `scan_cache` beside the store root, that is under
/// the root's parent. `None` when the store root names no parent (no
/// separator anywhere in it).
pub fn cache_dir_path(sessions_dir: &str) -> (r: Option<String>)
    ensures
        match r {
            Some(p) => crate::path_time::rsplit1(sessions_dir@, '/') matches Some(q) && p@ == q.0
                + "/scan_cache"@,
            None => crate::path_time::rsplit1(sessions_dir@, '/') is None,
        },
{
    let cs = crate::chars::str_chars(sessions_dir);
    let n = cs.len();
    let mut k: usize = n;
    while k > 0
        invariant
            k <= n,
            n == cs@.len(),
            cs@ == sessions_dir@,
            forall|j: int| k <= j < n ==> cs@[j] != '/',
        decreases k,
    {
        k = k - 1;
        if cs[k] == '/' {
            proof {
                crate::path_time::lemma_rsplit1_at(cs@, '/', k as int);
            }
            let mut prefix: Vec<char> = Vec::new();
            let mut m: usize = 0;
            while m < k
                invariant
                    m <= k < n,
                    n == cs@.len(),
                    prefix@ =~= cs@.take(k as int).take(m as int),
                decreases k - m,
            {
                prefix.push(cs[m]);
                proof {
                    assert(cs@.take(k as int).take(m + 1) =~= cs@.take(k as int).take(
                        m as int,
                    ).push(cs@[m as int]));
                }
                m = m + 1;
            }
            proof {
                assert(cs@.take(k as int).take(k as int) =~= cs@.take(k as int));
            }
            let mut p = crate::chars::chars_str(&prefix);
            p.append("/scan_cache");
            proof {
                assert(cs@ == sessions_dir@);
                let q = crate::path_time::rsplit1(sessions_dir@, '/').unwrap();
                assert(q.0 =~= cs@.take(k as int));
                assert(p@ == cs@.take(k as int) + "/scan_cache"@);
                assert(p@ == q.0 + "/scan_cache"@);
            }
            return Some(p);
        }
    }
    proof {
        crate::path_time::lemma_rsplit1_none(cs@, '/');
    }
    None
}

/// The session list with every entry at `p` taken out, order kept.
pub open spec fn remove_path(s: Seq<RecView>, p: Seq<char>) -> Seq<RecView>
    decreases s.len(),
{
    if s.len() == 0 {
        Seq::empty()
    } else {
        remove_path(s.drop_last(), p) + if s.last().path == p {
            Seq::empty()
        } else {
            seq![s.last()]
        }
    }
}

/// No entry at `p` survives its removal.
pub proof fn lemma_remove_path_excludes(s: Seq<RecView>, p: Seq<char>)
    ensures
        forall|k: int|
            0 <= k < remove_path(s, p).len() ==> (#[trigger] remove_path(s, p)[k]).path != p,
    decreases s.len(),
{
    if s.len() > 0 {
        lemma_remove_path_excludes(s.drop_last(), p);
        let inner = remove_path(s.drop_last(), p);
        assert forall|k: int| 0 <= k < remove_path(s, p).len() implies (#[trigger] remove_path(
            s,
            p,
        )[k]).path != p by {
            if k < inner.len() {
                assert(remove_path(s, p)[k] == inner[k]);
            } else {
                assert(remove_path(s, p)[k] == s.last());
            }
        }
    }
}

/// Entries not at `p` survive its removal.
pub proof fn lemma_remove_path_keeps(s: Seq<RecView>, p: Seq<char>, k: int)
    requires
        0 <= k < s.len(),
        s[k].path != p,
    ensures
        remove_path(s, p).contains(s[k]),
    decreases s.len(),
{
    if k == s.len() - 1 {
        assert(remove_path(s, p).last() == s[k]);
    } else {
        lemma_remove_path_keeps(s.drop_last(), p, k);
        let inner = remove_path(s.drop_last(), p);
        let j = choose|j: int| 0 <= j < inner.len() && inner[j] == s[k];
        assert(remove_path(s, p)[j] == s[k]);
    }
}

/// Removes the session at `session_path` from a parsed session list: the
/// cache half of deleting one session. Entries at other paths keep their
/// places.
pub fn remove_session(sessions: Vec<SessionRecord>, session_path: &str) -> (r: Vec<SessionRecord>)
    ensures
        rec_views(r@) =~= remove_path(rec_views(sessions@), session_path@),
{
    let mut out: Vec<SessionRecord> = Vec::new();
    let mut i: usize = 0;
    proof {
        assert(rec_views(sessions@).take(0) =~= Seq::<RecView>::empty());
    }
    while i < sessions.len()
        invariant
            i <= sessions@.len(),
            rec_views(out@) =~= remove_path(rec_views(sessions@).take(i as int), session_path@),
        decreases sessions@.len() - i,
    {
        let keep = !eq_str(sessions[i].path.as_str(), session_path);
        proof {
            assert(rec_views(sessions@).take(i + 1).drop_last() =~= rec_views(sessions@).take(
                i as int,
            ));
            assert(rec_views(sessions@).take(i + 1).last() == sessions@[i as int]@);
        }
        if keep {
            out.push(sessions[i].dup());
        }
        i = i + 1;
    }
    proof {
        assert(rec_views(sessions@).take(sessions@.len() as int) =~= rec_views(sessions@));
    }
    out
}

/// Whether some listed path equals `p`.
pub open spec fn path_listed(ps: Seq<Seq<char>>, p: Seq<char>) -> bool {
    exists|k: int| 0 <= k < ps.len() && ps[k] == p
}

/// The session list with every entry at one of the listed paths taken out.
pub open spec fn remove_paths(s: Seq<RecView>, ps: Seq<Seq<char>>) -> Seq<RecView>
    decreases s.len(),
{
    if s.len() == 0 {
        Seq::empty()
    } else {
        remove_paths(s.drop_last(), ps) + if path_listed(ps, s.last().path) {
            Seq::empty()
        } else {
            seq![s.last()]
        }
    }
}

/// No entry at a listed path survives the bulk removal.
pub proof fn lemma_remove_paths_excludes(s: Seq<RecView>, ps: Seq<Seq<char>>)
    ensures
        forall|k: int|
            0 <= k < remove_paths(s, ps).len() ==> !path_listed(
                ps,
                (#[trigger] remove_paths(s, ps)[k]).path,
            ),
    decreases s.len(),
{
    if s.len() > 0 {
        lemma_remove_paths_excludes(s.drop_last(), ps);
        let inner = remove_paths(s.drop_last(), ps);
        assert forall|k: int| 0 <= k < remove_paths(s, ps).len() implies !path_listed(
            ps,
            (#[trigger] remove_paths(s, ps)[k]).path,
        ) by {
            if k < inner.len() {
                assert(remove_paths(s, ps)[k] == inner[k]);
            } else {
                assert(remove_paths(s, ps)[k] == s.last());
            }
        }
    }
}

fn listed_exec(paths: &Vec<String>, p: &str) -> (r: bool)
    ensures
        r == path_listed(paths.deep_view(), p@),
{
    let mut k: usize = 0;
    while k < paths.len()
        invariant
            k <= paths@.len(),
            forall|j: int| 0 <= j < k ==> paths.deep_view()[j] != p@,
        decreases paths@.len() - k,
    {
        proof {
            assert(paths.deep_view()[k as int] == paths@[k as int]@);
        }
        if eq_str(paths[k].as_str(), p) {
            return true;
        }
        k = k + 1;
    }
    false
}

/// Removes every session at one of the listed paths from a parsed session
/// list: the cache half of a bulk delete, one rewrite for all of them.
pub fn remove_sessions(sessions: Vec<SessionRecord>, session_paths: &Vec<String>) -> (r: Vec<
    SessionRecord,
>)
    ensures
        rec_views(r@) =~= remove_paths(rec_views(sessions@), session_paths.deep_view()),
{
    let mut out: Vec<SessionRecord> = Vec::new();
    let mut i: usize = 0;
    proof {
        assert(rec_views(sessions@).take(0) =~= Seq::<RecView>::empty());
    }
    while i < sessions.len()
        invariant
            i <= sessions@.len(),
            rec_views(out@) =~= remove_paths(
                rec_views(sessions@).take(i as int),
                session_paths.deep_view(),
            ),
        decreases sessions@.len() - i,
    {
        let keep = !listed_exec(session_paths, sessions[i].path.as_str());
        proof {
            assert(rec_views(sessions@).take(i + 1).drop_last() =~= rec_views(sessions@).take(
                i as int,
            ));
            assert(rec_views(sessions@).take(i + 1).last() == sessions@[i as int]@);
        }
        if keep {
            out.push(sessions[i].dup());
        }
        i = i + 1;
    }
    proof {
        assert(rec_views(sessions@).take(sessions@.len() as int) =~= rec_views(sessions@));
    }
    out
}

/// The session list with the first entry at `p`, if any, given preview
/// `crop(t)`; other entries, and all entries when none is at `p`, stand
/// unchanged.
pub open spec fn update_first(s: Seq<RecView>, p: Seq<char>, t: Seq<char>) -> Seq<RecView>
    decreases s.len(),
{
    if s.len() == 0 {
        Seq::empty()
    } else if s[0].path == p {
        seq![RecView { path: s[0].path, session_id: s[0].session_id, preview: crop(t) }] + s.skip(
            1,
        )
    } else {
        seq![s[0]] + update_first(s.skip(1), p, t)
    }
}

/// Sets the preview of the first session at `session_path` to the cropped
/// text: the cache half of a title update. Doing nothing when no entry
/// matches is the contract, not a failure.
pub fn update_preview(
    sessions: Vec<SessionRecord>,
    session_path: &str,
    text: &str,
) -> (r: Vec<SessionRecord>)
    ensures
        rec_views(r@) =~= update_first(rec_views(sessions@), session_path@, text@),
{
    let mut out: Vec<SessionRecord> = Vec::new();
    let mut i: usize = 0;
    let ghost views = rec_views(sessions@);
    while i < sessions.len()
        invariant
            i <= sessions@.len(),
            views == rec_views(sessions@),
            out@.len() == i,
            forall|j: int| 0 <= j < i ==> (#[trigger] views[j]).path != session_path@,
            rec_views(out@) =~= views.take(i as int),
        decreases sessions@.len() - i,
    {
        if eq_str(sessions[i].path.as_str(), session_path) {
            let updated = SessionRecord {
                path: sessions[i].path.clone(),
                session_id: sessions[i].session_id.clone(),
                preview: truncate_preview(text),
            };
            out.push(updated);
            let mut j: usize = i + 1;
            while j < sessions.len()
                invariant
                    i < j <= sessions@.len(),
                    views == rec_views(sessions@),
                    forall|m: int| 0 <= m < i ==> (#[trigger] views[m]).path != session_path@,
                    views[i as int].path == session_path@,
                    rec_views(out@) =~= views.take(i as int) + seq![
                        RecView {
                            path: views[i as int].path,
                            session_id: views[i as int].session_id,
                            preview: crop(text@),
                        },
                    ] + views.subrange(i + 1, j as int),
                decreases sessions@.len() - j,
            {
                let ghost prev_out = out@;
                out.push(sessions[j].dup());
                proof {
                    assert(rec_views(out@) =~= rec_views(prev_out).push(sessions@[j as int]@));
                    assert(views.subrange(i + 1, j + 1) =~= views.subrange(i + 1, j as int).push(
                        views[j as int],
                    ));
                    assert(rec_views(out@) =~= views.take(i as int) + seq![
                        RecView {
                            path: views[i as int].path,
                            session_id: views[i as int].session_id,
                            preview: crop(text@),
                        },
                    ] + views.subrange(i + 1, j + 1));
                }
                j = j + 1;
            }
            proof {
                lemma_update_first_found(views, session_path@, text@, i as int);
                assert(views.subrange(i + 1, sessions@.len() as int) =~= views.skip(i + 1));
            }
            return out;
        }
        out.push(sessions[i].dup());
        proof {
            assert(views.take(i + 1) =~= views.take(i as int).push(views[i as int]));
        }
        i = i + 1;
    }
    proof {
        assert(views.take(sessions@.len() as int) =~= views);
        lemma_update_first_missing(views, session_path@, text@);
    }
    out
}

/// Where the first match sits at `m`, the update rewrites exactly that
/// entry.
proof fn lemma_update_first_found(s: Seq<RecView>, p: Seq<char>, t: Seq<char>, m: int)
    requires
        0 <= m < s.len(),
        s[m].path == p,
        forall|j: int| 0 <= j < m ==> (#[trigger] s[j]).path != p,
    ensures
        update_first(s, p, t) =~= s.take(m) + seq![
            RecView { path: s[m].path, session_id: s[m].session_id, preview: crop(t) },
        ] + s.skip(m + 1),
    decreases s.len(),
{
    if m == 0 {
        assert(s.take(0) =~= Seq::<RecView>::empty());
    } else {
        let tail = s.skip(1);
        assert(tail[m - 1] == s[m]);
        assert(forall|j: int| 0 <= j < m - 1 ==> (#[trigger] tail[j]).path != p);
        lemma_update_first_found(tail, p, t, m - 1);
        assert(seq![s[0]] + tail.take(m - 1) =~= s.take(m));
        assert(tail.skip(m) =~= s.skip(m + 1));
        assert(update_first(s, p, t) =~= seq![s[0]] + (tail.take(m - 1) + seq![
            RecView { path: s[m].path, session_id: s[m].session_id, preview: crop(t) },
        ] + tail.skip(m)));
    }
}

/// With no entry at `p`, the update changes nothing.
proof fn lemma_update_first_missing(s: Seq<RecView>, p: Seq<char>, t: Seq<char>)
    requires
        forall|j: int| 0 <= j < s.len() ==> (#[trigger] s[j]).path != p,
    ensures
        update_first(s, p, t) =~= s,
    decreases s.len(),
{
    if s.len() > 0 {
        lemma_update_first_missing(s.skip(1), p, t);
        assert(seq![s[0]] + s.skip(1) =~= s);
    }
}

/// Reads a cache document and hands back its session list, or nothing when
/// the text is not a written cache document; the caller then falls back to
/// scanning. A hit is served as stored, with no freshness check.
pub fn cached_sessions(content: &str) -> (r: Option<Vec<SessionRecord>>)
    ensures
        match r {
            Some(v) => parse_doc(content@) matches Some(d) && rec_views(v@) == d.sessions,
            None => parse_doc(content@) is None,
        },
{
    match parse_cache(content) {
        Some(d) => Some(d.sessions),
        None => None,
    }
}

/// Writes the cache document for a fresh scan: the clock's reading as the
/// scan time, and the sessions as given.
pub fn render_cache_now(sessions: &Vec<SessionRecord>) -> (r: String)
    ensures
        exists|now: Seq<char>|
            r@ == #[trigger] render_doc(
                CacheDocView { last_scanned: now, sessions: rec_views(sessions@) },
            ),
{
    let now = now_rfc3339();
    render_cache(now.as_str(), sessions)
}

/// Replacing a project's cache and then reading it yields exactly the
/// sessions written: however the session list was changed, one rewrite and
/// the next read agree, and a read-through that hits the cache never needs
/// a scan.
pub proof fn lemma_replace_then_read(now: Seq<char>, sessions: Seq<RecView>)
    ensures
        parse_doc(render_doc(CacheDocView { last_scanned: now, sessions: sessions }))
            == Some(CacheDocView { last_scanned: now, sessions: sessions }),
{
    crate::cachefmt::lemma_parse_doc_render(CacheDocView { last_scanned: now, sessions: sessions });
}

/// After one session is deleted and the cache rewritten, a read of that
/// cache never contains an entry at the deleted path.
pub proof fn lemma_delete_then_read(now: Seq<char>, sessions: Seq<RecView>, p: Seq<char>)
    ensures
        parse_doc(
            render_doc(
                CacheDocView { last_scanned: now, sessions: remove_path(sessions, p) },
            ),
        ) matches Some(d) && forall|k: int|
            0 <= k < d.sessions.len() ==> (#[trigger] d.sessions[k]).path != p,
{
    lemma_replace_then_read(now, remove_path(sessions, p));
    lemma_remove_path_excludes(sessions, p);
}

} // verus!
