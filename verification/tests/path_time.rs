use codex_sessions::path_time::extract_datetime;
use codex_sessions::time::Timestamp;

fn ts(year: u16, month: u8, day: u8, hour: u8, minute: u8, second: u8) -> Timestamp {
    Timestamp { year, month, day, hour, minute, second }
}

#[test]
fn conventional_path_yields_encoded_timestamp() {
    let p = "/home/u/.codex/sessions/2024/03/15/rollout-2024-03-15T09-30-00-abc.jsonl";
    assert_eq!(extract_datetime(p), Some(ts(2024, 3, 15, 9, 30, 0)));
}

#[test]
fn minimal_conventional_path() {
    let p = "x/2023/12/31/aT23-59-59-x.jsonl";
    assert_eq!(extract_datetime(p), Some(ts(2023, 12, 31, 23, 59, 59)));
    // Without a separator before the extension, the seconds token carries
    // the extension and the pattern fails.
    assert_eq!(extract_datetime("x/2023/12/31/aT23-59-59.jsonl"), None);
}

#[test]
fn extra_tokens_after_seconds_are_dropped() {
    let p = "store/2020/01/02/rollout-2020-01-02T03-04-05-deadbeef-cafe.jsonl";
    assert_eq!(extract_datetime(p), Some(ts(2020, 1, 2, 3, 4, 5)));
}

#[test]
fn too_few_segments_yield_nothing() {
    assert_eq!(extract_datetime("2024-03-15T09-30-00-abc.jsonl"), None);
    assert_eq!(extract_datetime("15/rollout-2024-03-15T09-30-00.jsonl"), None);
    assert_eq!(extract_datetime("03/15/rollout-2024-03-15T09-30-00.jsonl"), None);
    assert_eq!(extract_datetime(""), None);
}

#[test]
fn missing_time_marker_yields_nothing() {
    assert_eq!(extract_datetime("s/2024/03/15/rollout-09-30-00.jsonl"), None);
}

#[test]
fn malformed_fields_yield_nothing() {
    // Month out of range.
    assert_eq!(extract_datetime("s/2024/13/15/aT09-30-00-x.jsonl"), None);
    // No thirty-first of April.
    assert_eq!(extract_datetime("s/2024/04/31/aT09-30-00-x.jsonl"), None);
    // Non-digit year segment.
    assert_eq!(extract_datetime("s/20x4/03/15/aT09-30-00-x.jsonl"), None);
    // Hour out of range.
    assert_eq!(extract_datetime("s/2024/03/15/aT24-00-00-x.jsonl"), None);
    // Field of the wrong width.
    assert_eq!(extract_datetime("s/2024/3/15/aT09-30-00-x.jsonl"), None);
    // Too few time tokens.
    assert_eq!(extract_datetime("s/2024/03/15/aT0930.jsonl"), None);
    assert_eq!(extract_datetime("s/2024/03/15/aT09-3000.jsonl"), None);
}

#[test]
fn leap_year_day_is_accepted_and_rejected_correctly() {
    assert_eq!(
        extract_datetime("s/2024/02/29/aT00-00-00-x.jsonl"),
        Some(ts(2024, 2, 29, 0, 0, 0))
    );
    assert_eq!(extract_datetime("s/2023/02/29/aT00-00-00-x.jsonl"), None);
    assert_eq!(extract_datetime("s/1900/02/29/aT00-00-00-x.jsonl"), None);
    assert_eq!(
        extract_datetime("s/2000/02/29/aT00-00-00-x.jsonl"),
        Some(ts(2000, 2, 29, 0, 0, 0))
    );
}

#[test]
fn time_read_from_first_t_in_file_name() {
    // The portion after the first `T` supplies the time fields.
    let p = "s/2024/03/15/Today-rolledT09-30-00.jsonl";
    assert_eq!(extract_datetime(p), None);
    let q = "s/2024/03/15/zT09-30-00-Tail.jsonl";
    assert_eq!(extract_datetime(q), Some(ts(2024, 3, 15, 9, 30, 0)));
}
