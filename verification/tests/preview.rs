use codex_sessions::preview::truncate_preview;

#[test]
fn short_string_passes_through() {
    assert_eq!(truncate_preview("hello"), "hello".to_string());
    assert_eq!(truncate_preview(""), "".to_string());
}

#[test]
fn exactly_fifty_passes_through() {
    let s: String = "a".repeat(50);
    assert_eq!(truncate_preview(&s), s);
}

#[test]
fn long_string_keeps_first_fifty_scalars() {
    let s: String = "x".repeat(51);
    let t = truncate_preview(&s);
    assert_eq!(t.chars().count(), 50);
    assert_eq!(t, "x".repeat(50));
}

#[test]
fn truncation_counts_scalars_not_bytes() {
    // 60 three-byte characters: truncation keeps 50 whole characters.
    let s: String = "\u{65e5}".repeat(60);
    let t = truncate_preview(&s);
    assert_eq!(t.chars().count(), 50);
    assert_eq!(t, "\u{65e5}".repeat(50));
    // Every kept character is intact; the result is valid text by type.
    assert!(t.chars().all(|c| c == '\u{65e5}'));
}

#[test]
fn truncation_is_idempotent() {
    let s: String = "caf\u{e9}".repeat(20);
    let once = truncate_preview(&s);
    let twice = truncate_preview(&once);
    assert_eq!(once, twice);
}

#[test]
fn combining_characters_are_counted_as_scalars() {
    // 'e' followed by a combining acute accent: two scalar values.
    let s: String = "e\u{301}".repeat(30);
    let t = truncate_preview(&s);
    assert_eq!(t.chars().count(), 50);
}
