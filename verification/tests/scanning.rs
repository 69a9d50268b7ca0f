use codex_sessions::record::{extract_metadata, SessionRecord, TranscriptSource};
use codex_sessions::scan::{scan_project_sessions_core, scan_projects_core, TrustLevel};

fn transcript(path: &str, cwd: &str, extra_lines: usize) -> TranscriptSource {
    let mut lines = vec![format!(
        "{{\"type\":\"session_meta\",\"payload\":{{\"id\":\"sid-1\",\"cwd\":\"{}\"}}}}",
        cwd
    )];
    for k in 0..extra_lines {
        lines.push(format!("{{\"type\":\"event\",\"n\":{}}}", k));
    }
    TranscriptSource { path: path.to_string(), lines }
}

#[test]
fn projects_are_deduplicated() {
    let files = vec![
        transcript("s/2024/01/01/aT00-00-00.jsonl", "/home/u/proj", 5),
        transcript("s/2024/01/02/bT00-00-00.jsonl", "/home/u/proj", 5),
        transcript("s/2024/01/03/cT00-00-00.jsonl", "/home/u/other", 5),
    ];
    let (projects, doomed) = scan_projects_core(&files);
    assert_eq!(projects.len(), 2);
    let mut paths: Vec<String> = projects.iter().map(|p| p.path.clone()).collect();
    paths.sort();
    assert_eq!(paths, vec!["/home/u/other".to_string(), "/home/u/proj".to_string()]);
    assert!(projects.iter().all(|p| matches!(p.trust_level, TrustLevel::Untrusted)));
    assert!(doomed.is_empty());
}

#[test]
fn short_transcripts_are_marked_for_deletion() {
    let files = vec![
        transcript("s/2024/01/01/aT00-00-00.jsonl", "/p", 2),  // 3 lines: too short
        transcript("s/2024/01/02/bT00-00-00.jsonl", "/p", 3),  // 4 lines: kept
        TranscriptSource { path: "s/2024/01/03/cT00-00-00.jsonl".to_string(), lines: vec![] },
    ];
    let (projects, doomed) = scan_projects_core(&files);
    assert_eq!(
        doomed,
        vec![
            "s/2024/01/01/aT00-00-00.jsonl".to_string(),
            "s/2024/01/03/cT00-00-00.jsonl".to_string()
        ]
    );
    assert_eq!(projects.len(), 1);
    assert_eq!(projects[0].path, "/p");
}

#[test]
fn unparsable_first_lines_are_skipped_without_deletion() {
    let files = vec![TranscriptSource {
        path: "s/2024/01/01/aT00-00-00.jsonl".to_string(),
        lines: vec![
            "not json at all".to_string(),
            "x".to_string(),
            "y".to_string(),
            "z".to_string(),
        ],
    }];
    let (projects, doomed) = scan_projects_core(&files);
    assert!(projects.is_empty());
    assert!(doomed.is_empty());
}

#[test]
fn session_ordering_recent_first_then_unparsable_by_path() {
    // Timestamps T1 < T2, plus one file whose path encodes no timestamp.
    let t1 = transcript("s/2024/03/14/aT10-00-00-a.jsonl", "/p", 5);
    let t2 = transcript("s/2024/03/15/bT09-30-00-b.jsonl", "/p", 5);
    let u = transcript("s/no-timestamp-here.jsonl", "/p", 5);
    let files = vec![t1, u, t2];
    let recs = scan_project_sessions_core("/p", &files);
    let paths: Vec<&str> = recs.iter().map(|r| r.path.as_str()).collect();
    assert_eq!(
        paths,
        vec![
            "s/2024/03/15/bT09-30-00-b.jsonl",
            "s/2024/03/14/aT10-00-00-a.jsonl",
            "s/no-timestamp-here.jsonl"
        ]
    );
}

#[test]
fn two_unparsable_paths_order_ascending() {
    let a = transcript("zzz.jsonl", "/p", 5);
    let b = transcript("aaa.jsonl", "/p", 5);
    let files = vec![a, b];
    let recs = scan_project_sessions_core("/p", &files);
    let paths: Vec<&str> = recs.iter().map(|r| r.path.as_str()).collect();
    assert_eq!(paths, vec!["aaa.jsonl", "zzz.jsonl"]);
}

#[test]
fn sessions_of_other_projects_are_excluded() {
    let files = vec![
        transcript("s/2024/03/15/aT09-30-00.jsonl", "/p", 5),
        transcript("s/2024/03/15/bT10-30-00.jsonl", "/q", 5),
    ];
    let recs = scan_project_sessions_core("/p", &files);
    assert_eq!(recs.len(), 1);
    assert_eq!(recs[0].path, "s/2024/03/15/aT09-30-00.jsonl");
    assert_eq!(recs[0].session_id, "sid-1");
}

#[test]
fn metadata_takes_first_user_message_as_preview() {
    let lines = vec![
        "{\"type\":\"session_meta\",\"payload\":{\"id\":\"abc\",\"cwd\":\"/p\"}}".to_string(),
        "{\"payload\":{\"role\":\"assistant\",\"content\":[{\"type\":\"text\",\"text\":\"hi\"}]}}"
            .to_string(),
        "{\"payload\":{\"role\":\"user\",\"content\":[{\"type\":\"input_text\",\"text\":\"first question\"}]}}"
            .to_string(),
        "{\"payload\":{\"role\":\"user\",\"content\":[{\"type\":\"input_text\",\"text\":\"second\"}]}}"
            .to_string(),
    ];
    let rec: SessionRecord = extract_metadata("p.jsonl".to_string(), &lines);
    assert_eq!(rec.session_id, "abc");
    assert_eq!(rec.preview, "first question");
}

#[test]
fn metadata_preview_is_cropped_and_empty_without_user_message() {
    let long: String = "m".repeat(80);
    let lines = vec![
        "{\"payload\":{\"id\":\"\",\"cwd\":\"/p\"}}".to_string(),
        format!(
            "{{\"payload\":{{\"role\":\"user\",\"content\":[{{\"type\":\"input_text\",\"text\":\"{}\"}}]}}}}",
            long
        ),
    ];
    let rec = extract_metadata("p.jsonl".to_string(), &lines);
    assert_eq!(rec.preview, "m".repeat(50));

    let no_user = vec!["{\"payload\":{\"id\":\"x\",\"cwd\":\"/p\"}}".to_string()];
    let rec2 = extract_metadata("p.jsonl".to_string(), &no_user);
    assert_eq!(rec2.preview, "");
    assert_eq!(rec2.session_id, "x");
}

#[test]
fn example_first_line_yields_project_path() {
    // A first line recording only the working directory.
    let files = vec![TranscriptSource {
        path: "/root/.codex/sessions/2024/03/15/rollout-2024-03-15T09-30-00-abc.jsonl"
            .to_string(),
        lines: vec![
            "{\"payload\":{\"cwd\":\"/home/u/proj\"}}".to_string(),
            "a".to_string(),
            "b".to_string(),
            "c".to_string(),
        ],
    }];
    let (projects, _) = scan_projects_core(&files);
    assert_eq!(projects.len(), 1);
    assert_eq!(projects[0].path, "/home/u/proj");
}
