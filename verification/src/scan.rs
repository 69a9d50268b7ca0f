//! Scanning the transcript store: project discovery and session listing.
//!
//! The surrounding application walks the store and reads each transcript's
//! lines; the functions here make every decision about what those files
//! mean. Project discovery also names the clearly-truncated transcripts
//! (fewer than four lines) that the caller is expected to delete: the one
//! place the subsystem destroys transcript data outside an explicit delete.
use vstd::prelude::*;

use crate::chars::eq_str;
use crate::extract::{cwd_of, extract_cwd};
use crate::record::{belongs_to, extract_metadata, rec_views, record_view_of, sort_records, sorted,
    RecView, SessionRecord, TranscriptSource};

verus! {

/// A project's trust marker. Scanning performs no trust computation: every
/// summary it returns carries the negative value.
#[derive(PartialEq, Eq, Structural, Clone, Copy, Debug)]
pub enum TrustLevel {
    Untrusted,
    Trusted,
}

/// One project observed in the transcript store: a working-directory path,
/// deduplicated by exact string equality, with no normalization.
pub struct ProjectSummary {
    pub path: String,
    pub trust_level: TrustLevel,
}

/// A transcript too short to be usable: fewer than four lines.
pub open spec fn is_short(f: TranscriptSource) -> bool {
    f.lines@.len() < 4
}

/// The project a transcript's first line records, if it records one.
pub open spec fn file_project(f: TranscriptSource) -> Option<Seq<char>> {
    if f.lines@.len() > 0 {
        cwd_of(f.lines@[0]@)
    } else {
        None
    }
}

/// A usable transcript naming project `p`: long enough, and its first line
/// records `p`.
pub open spec fn names_project(f: TranscriptSource, p: Seq<char>) -> bool {
    !is_short(f) && file_project(f) == Some(p)
}

/// The paths of the too-short transcripts among `files`, in order.
pub open spec fn doomed_of(files: Seq<TranscriptSource>) -> Seq<Seq<char>>
    decreases files.len(),
{
    if files.len() == 0 {
        Seq::empty()
    } else {
        doomed_of(files.drop_last()) + if is_short(files.last()) {
            seq![files.last().path@]
        } else {
            Seq::empty()
        }
    }
}

/// Project `p` appears among the summaries.
pub open spec fn project_listed(ps: Seq<ProjectSummary>, p: Seq<char>) -> bool {
    exists|k: int| 0 <= k < ps.len() && (#[trigger] ps[k]).path@ == p
}

/// A usable transcript among the first `n` names project `p`.
pub open spec fn project_observed(files: Seq<TranscriptSource>, n: int, p: Seq<char>) -> bool {
    exists|i: int| 0 <= i < n && names_project(#[trigger] files[i], p)
}

fn contains_path(ps: &Vec<ProjectSummary>, p: &str) -> (r: bool)
    ensures
        r == project_listed(ps@, p@),
{
    let mut k: usize = 0;
    while k < ps.len()
        invariant
            k <= ps@.len(),
            forall|j: int| 0 <= j < k ==> (#[trigger] ps@[j]).path@ != p@,
        decreases ps@.len() - k,
    {
        if eq_str(ps[k].path.as_str(), p) {
            return true;
        }
        k = k + 1;
    }
    false
}

/// Walks every transcript once, discarding the too-short ones and
/// deduplicating the project paths the rest record.
///
/// Returns the deduplicated project summaries, trust unset, and the paths
/// of the transcripts the caller must delete from disk: exactly the ones
/// with fewer than four lines. A first line that records no project only
/// skips that file. The deletion list is this operation's documented
/// destructive side effect; explicit session deletion is the only other
/// place the store is written.
pub fn scan_projects_core(files: &Vec<TranscriptSource>) -> (r: (Vec<ProjectSummary>, Vec<String>))
    ensures
        forall|i: int, j: int|
            0 <= i < j < r.0@.len() ==> (#[trigger] r.0@[i]).path@ != (#[trigger] r.0@[j]).path@,
        forall|k: int| 0 <= k < r.0@.len() ==> (#[trigger] r.0@[k]).trust_level == TrustLevel::Untrusted,
        forall|p: Seq<char>|
            #![trigger project_observed(files@, files@.len() as int, p)]
            #![trigger project_listed(r.0@, p)]
            project_observed(files@, files@.len() as int, p) <==> project_listed(r.0@, p),
        r.1@.map_values(|s: String| s@) =~= doomed_of(files@),
{
    let mut projects: Vec<ProjectSummary> = Vec::new();
    let mut doomed: Vec<String> = Vec::new();
    let mut i: usize = 0;
    while i < files.len()
        invariant
            i <= files@.len(),
            forall|x: int, y: int|
                0 <= x < y < projects@.len() ==> (#[trigger] projects@[x]).path@ != (
                #[trigger] projects@[y]).path@,
            forall|k: int|
                0 <= k < projects@.len() ==> (#[trigger] projects@[k]).trust_level
                    == TrustLevel::Untrusted,
            forall|p: Seq<char>|
                #![trigger project_observed(files@, i as int, p)]
                #![trigger project_listed(projects@, p)]
                project_observed(files@, i as int, p) <==> project_listed(projects@, p),
            doomed@.map_values(|s: String| s@) =~= doomed_of(files@.take(i as int)),
        decreases files@.len() - i,
    {
        let f = &files[i];
        proof {
            assert(files@.take(i + 1).drop_last() =~= files@.take(i as int));
            assert(files@.take(i + 1).last() == files@[i as int]);
        }
        if f.lines.len() < 4 {
            doomed.push(f.path.clone());
            proof {
                assert(doomed@.map_values(|s: String| s@) =~= doomed_of(files@.take(i + 1)));
                assert(forall|p: Seq<char>| !names_project(#[trigger] files@[i as int], p));
                assert forall|p: Seq<char>|
                    #![trigger project_observed(files@, i + 1, p)]
                    #![trigger project_listed(projects@, p)]
                    project_observed(files@, i + 1, p) <==> project_listed(projects@, p) by {
                    if project_observed(files@, i + 1, p) {
                        let x = choose|x: int|
                            0 <= x < i + 1 && names_project(#[trigger] files@[x], p);
                        assert(x < i);
                        assert(project_observed(files@, i as int, p));
                    }
                    if project_listed(projects@, p) {
                        assert(project_observed(files@, i as int, p));
                        let x = choose|x: int| 0 <= x < i && names_project(#[trigger] files@[x], p);
                        assert(project_observed(files@, i + 1, p));
                    }
                }
            }
        } else {
            if f.lines.len() > 0 {
                let ghost old_projects = projects@;
                match extract_cwd(f.lines[0].as_str()) {
                    Some(c) => {
                        assert(names_project(files@[i as int], c@));
                        if !contains_path(&projects, c.as_str()) {
                            projects.push(
                                ProjectSummary { path: c, trust_level: TrustLevel::Untrusted },
                            );
                            proof {
                                assert forall|p: Seq<char>|
                                    #![trigger project_observed(files@, i + 1, p)]
                                    #![trigger project_listed(projects@, p)]
                                    project_observed(files@, i + 1, p) <==> project_listed(
                                    projects@,
                                    p,
                                ) by {
                                    if project_observed(files@, i + 1, p) {
                                        let x = choose|x: int|
                                            0 <= x < i + 1 && names_project(
                                                #[trigger] files@[x],
                                                p,
                                            );
                                        if x < i {
                                            assert(project_observed(files@, i as int, p));
                                            let k = choose|k: int|
                                                0 <= k < old_projects.len() && (
                                                #[trigger] old_projects[k]).path@ == p;
                                            assert((projects@[k]).path@ == p);
                                        } else {
                                            assert(p == c@);
                                            assert((projects@[projects@.len() - 1]).path@ == p);
                                        }
                                    }
                                    if project_listed(projects@, p) {
                                        let k = choose|k: int|
                                            0 <= k < projects@.len() && (
                                            #[trigger] projects@[k]).path@ == p;
                                        if k < old_projects.len() {
                                            assert(old_projects[k].path@ == p);
                                            assert(project_listed(old_projects, p));
                                            assert(project_observed(files@, i as int, p));
                                            let x = choose|x: int|
                                                0 <= x < i && names_project(
                                                    #[trigger] files@[x],
                                                    p,
                                                );
                                            assert(project_observed(files@, i + 1, p));
                                        } else {
                                            assert(p == c@);
                                            assert(names_project(files@[i as int], p));
                                            assert(project_observed(files@, i + 1, p));
                                        }
                                    }
                                }
                            }
                        } else {
                            proof {
                                assert(project_listed(projects@, c@));
                                assert forall|p: Seq<char>|
                                    #![trigger project_observed(files@, i + 1, p)]
                                    #![trigger project_listed(projects@, p)]
                                    project_observed(files@, i + 1, p) <==> project_listed(
                                    projects@,
                                    p,
                                ) by {
                                    if project_observed(files@, i + 1, p) {
                                        let x = choose|x: int|
                                            0 <= x < i + 1 && names_project(
                                                #[trigger] files@[x],
                                                p,
                                            );
                                        if x < i {
                                            assert(project_observed(files@, i as int, p));
                                        } else {
                                            assert(p == c@);
                                        }
                                    }
                                    if project_listed(projects@, p) {
                                        assert(project_observed(files@, i as int, p));
                                        let x = choose|x: int|
                                            0 <= x < i && names_project(#[trigger] files@[x], p);
                                        assert(project_observed(files@, i + 1, p));
                                    }
                                }
                            }
                        }
                    },
                    None => {
                        proof {
                            assert(forall|p: Seq<char>|
                                !names_project(#[trigger] files@[i as int], p));
                            assert forall|p: Seq<char>|
                                #![trigger project_observed(files@, i + 1, p)]
                                #![trigger project_listed(projects@, p)]
                                project_observed(files@, i + 1, p) <==> project_listed(
                                projects@,
                                p,
                            ) by {
                                if project_observed(files@, i + 1, p) {
                                    let x = choose|x: int|
                                        0 <= x < i + 1 && names_project(#[trigger] files@[x], p);
                                    assert(x < i);
                                    assert(project_observed(files@, i as int, p));
                                }
                                if project_listed(projects@, p) {
                                    assert(project_observed(files@, i as int, p));
                                    let x = choose|x: int|
                                        0 <= x < i && names_project(#[trigger] files@[x], p);
                                    assert(project_observed(files@, i + 1, p));
                                }
                            }
                        }
                    },
                }
            }
            proof {
                assert(doomed@.map_values(|s: String| s@) =~= doomed_of(files@.take(i + 1)));
            }
        }
        i = i + 1;
    }
    proof {
        assert(files@.take(files@.len() as int) =~= files@);
    }
    (projects, doomed)
}

/// The records of the usable transcripts that belong to a project, in walk
/// order, before sorting.
pub open spec fn records_of(files: Seq<TranscriptSource>, project: Seq<char>) -> Seq<RecView>
    decreases files.len(),
{
    if files.len() == 0 {
        Seq::empty()
    } else {
        records_of(files.drop_last(), project) + if belongs_to(files.last(), project) {
            seq![record_view_of(files.last().path@, files.last().lines.deep_view())]
        } else {
            Seq::empty()
        }
    }
}

/// Walks every transcript belonging to `project` (exact string match on the
/// recorded working directory), extracts each one's metadata, and returns
/// the records in display order: most recent first, timestamped records
/// before timestampless ones, and timestampless ties in ascending path
/// order.
pub fn scan_project_sessions_core(project: &str, files: &Vec<TranscriptSource>) -> (r: Vec<
    SessionRecord,
>)
    ensures
        rec_views(r@).to_multiset() == records_of(files@, project@).to_multiset(),
        sorted(rec_views(r@)),
{
    let mut recs: Vec<SessionRecord> = Vec::new();
    let mut i: usize = 0;
    while i < files.len()
        invariant
            i <= files@.len(),
            rec_views(recs@) =~= records_of(files@.take(i as int), project@),
        decreases files@.len() - i,
    {
        let f = &files[i];
        proof {
            assert(files@.take(i + 1).drop_last() =~= files@.take(i as int));
            assert(files@.take(i + 1).last() == files@[i as int]);
        }
        let keep: bool = if f.lines.len() > 0 {
            match extract_cwd(f.lines[0].as_str()) {
                Some(c) => eq_str(c.as_str(), project),
                None => false,
            }
        } else {
            false
        };
        assert(keep == belongs_to(files@[i as int], project@));
        if keep {
            let rec = extract_metadata(f.path.clone(), &f.lines);
            recs.push(rec);
        }
        proof {
            assert(rec_views(recs@) =~= records_of(files@.take(i + 1), project@));
        }
        i = i + 1;
    }
    proof {
        assert(files@.take(files@.len() as int) =~= files@);
    }
    sort_records(recs)
}

} // verus!
