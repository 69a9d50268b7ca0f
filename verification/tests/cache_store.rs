use codex_sessions::cache::{
    cache_dir_path, cache_file_name, cached_sessions, remove_session, remove_sessions,
    render_cache_now, sessions_dir_path, update_preview,
};
use codex_sessions::cachefmt::render_cache;
use codex_sessions::chars::is_transcript_path;
use codex_sessions::record::SessionRecord;

fn rec(path: &str, sid: &str, preview: &str) -> SessionRecord {
    SessionRecord {
        path: path.to_string(),
        session_id: sid.to_string(),
        preview: preview.to_string(),
    }
}

fn same(a: &SessionRecord, b: &SessionRecord) -> bool {
    a.path == b.path && a.session_id == b.session_id && a.preview == b.preview
}

#[test]
fn replace_then_read_round_trips() {
    let sessions = vec![
        rec("s/2024/03/15/aT09-30-00.jsonl", "sid-a", "hello world"),
        rec("s/no-ts.jsonl", "", "with \"quotes\" and \\backslash\\"),
        rec("s/x.jsonl", "sid-c", "line\nbreak\tand\rreturn"),
    ];
    let doc = render_cache("2024-03-15T10:00:00+00:00", &sessions);
    let read = cached_sessions(&doc).expect("written cache must read back");
    assert_eq!(read.len(), sessions.len());
    for (a, b) in read.iter().zip(sessions.iter()) {
        assert!(same(a, b));
    }
}

#[test]
fn empty_session_list_round_trips() {
    let doc = render_cache("2024-03-15T10:00:00+00:00", &vec![]);
    assert_eq!(doc, "{\"lastScanned\":\"2024-03-15T10:00:00+00:00\",\"sessions\":[]}");
    let read = cached_sessions(&doc).expect("empty cache must read back");
    assert!(read.is_empty());
}

#[test]
fn written_document_has_the_canonical_shape() {
    let doc = render_cache("t", &vec![rec("a", "b", "c")]);
    assert_eq!(
        doc,
        "{\"lastScanned\":\"t\",\"sessions\":[{\"path\":\"a\",\"sessionId\":\"b\",\"preview\":\"c\"}]}"
    );
    let quoted = render_cache("t", &vec![rec("a", "b", "say \"hi\"")]);
    assert!(quoted.contains("say \\\"hi\\\""));
}

#[test]
fn malformed_cache_reads_as_unusable() {
    assert!(cached_sessions("").is_none());
    assert!(cached_sessions("not json").is_none());
    assert!(cached_sessions("{\"lastScanned\":\"t\"}").is_none());
    assert!(cached_sessions("{\"sessions\":[]}").is_none());
    // A truncated document is unusable, never misread.
    let doc = render_cache("t", &vec![rec("a.jsonl", "s", "p")]);
    let cut = &doc[..doc.len() - 2];
    assert!(cached_sessions(cut).is_none());
}

#[test]
fn read_through_serves_written_cache_without_scan() {
    // Cold: scan produced these records; the cache is written.
    let sessions = vec![rec("s/2024/03/15/aT09-30-00.jsonl", "sid", "prev")];
    let doc = render_cache_now(&sessions);
    // Warm: the same document read back serves the identical list; no scan
    // source is consulted.
    let again = cached_sessions(&doc).expect("cache written on the cold path must hit");
    assert_eq!(again.len(), 1);
    assert!(same(&again[0], &sessions[0]));
}

#[test]
fn delete_one_removes_exactly_that_entry() {
    let sessions = vec![
        rec("a.jsonl", "s1", "p1"),
        rec("b.jsonl", "s2", "p2"),
        rec("a.jsonl", "s3", "p3"),
        rec("c.jsonl", "s4", "p4"),
    ];
    let left = remove_session(sessions, "a.jsonl");
    let paths: Vec<&str> = left.iter().map(|r| r.path.as_str()).collect();
    assert_eq!(paths, vec!["b.jsonl", "c.jsonl"]);
    // A read of the rewritten cache never contains the deleted path.
    let doc = render_cache("t", &left);
    let read = cached_sessions(&doc).unwrap();
    assert!(read.iter().all(|r| r.path != "a.jsonl"));
}

#[test]
fn delete_many_removes_all_listed_entries_in_one_pass() {
    let sessions = vec![
        rec("a.jsonl", "s1", "p1"),
        rec("b.jsonl", "s2", "p2"),
        rec("c.jsonl", "s3", "p3"),
    ];
    let gone = vec!["a.jsonl".to_string(), "c.jsonl".to_string()];
    let left = remove_sessions(sessions, &gone);
    assert_eq!(left.len(), 1);
    assert_eq!(left[0].path, "b.jsonl");

    let nothing_listed = remove_sessions(vec![rec("x.jsonl", "s", "p")], &vec![]);
    assert_eq!(nothing_listed.len(), 1);
}

#[test]
fn update_preview_rewrites_first_match_cropped() {
    let sessions = vec![
        rec("a.jsonl", "s1", "old"),
        rec("b.jsonl", "s2", "keep"),
        rec("a.jsonl", "s3", "also kept"),
    ];
    let long: String = "t".repeat(70);
    let updated = update_preview(sessions, "a.jsonl", &long);
    assert_eq!(updated[0].preview, "t".repeat(50));
    assert_eq!(updated[0].session_id, "s1");
    assert_eq!(updated[1].preview, "keep");
    assert_eq!(updated[2].preview, "also kept");
}

#[test]
fn update_preview_without_match_changes_nothing() {
    let sessions = vec![rec("a.jsonl", "s1", "old")];
    let updated = update_preview(sessions, "missing.jsonl", "new");
    assert_eq!(updated.len(), 1);
    assert_eq!(updated[0].preview, "old");
}

#[test]
fn cache_file_name_is_base64_of_path() {
    assert_eq!(cache_file_name("/home/u/proj"), "L2hvbWUvdS9wcm9q.json");
    assert_eq!(cache_file_name("/tmp/p"), "L3RtcC9w.json");
    assert_eq!(cache_file_name(""), ".json");
    // Distinct projects get distinct cache keys.
    assert_ne!(cache_file_name("/a"), cache_file_name("/b"));
}

#[test]
fn store_and_cache_directories_derive_from_home() {
    let root = sessions_dir_path("/home/u");
    assert_eq!(root, "/home/u/.codex/sessions");
    assert_eq!(cache_dir_path(&root), Some("/home/u/.codex/scan_cache".to_string()));
    assert_eq!(cache_dir_path("nosep"), None);
}

#[test]
fn transcript_extension_filter() {
    assert!(is_transcript_path("s/2024/01/01/a.jsonl"));
    assert!(is_transcript_path("a.jsonl"));
    assert!(!is_transcript_path("s/a.json"));
    assert!(!is_transcript_path("s/.jsonl"));
    assert!(!is_transcript_path("s/ajsonl"));
    assert!(is_transcript_path("s/b.tar.jsonl"));
}
