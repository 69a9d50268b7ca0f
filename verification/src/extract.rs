//! Reading single transcript lines.
//!
//! A transcript is newline-delimited JSON. Only four fields matter here: the
//! first line's `payload.cwd` (the owning project) and `payload.id` (the
//! session identifier), and, on any later line, `payload.role` and the text
//! of the first content item. General JSON parsing is `serde_json`'s work;
//! each extractor is a trusted wrapper whose result is named by an
//! uninterpreted function of the line alone, `serde_json` being
//! deterministic. The verified logic above them decides what the values
//! mean.
use vstd::prelude::*;

verus! {

/// The `payload.cwd` string field of a line of structured text, when the
/// line parses as JSON and has one.
pub uninterp spec fn cwd_of(line: Seq<char>) -> Option<Seq<char>>;

/// The `payload.id` string field of a line of structured text.
pub uninterp spec fn session_id_of(line: Seq<char>) -> Option<Seq<char>>;

/// The `payload.role` string field of a line of structured text.
pub uninterp spec fn role_of(line: Seq<char>) -> Option<Seq<char>>;

/// The text of the first `payload.content` item of a line of structured
/// text.
pub uninterp spec fn text_of(line: Seq<char>) -> Option<Seq<char>>;

/// Relies on `serde_json::from_str` and `Value` navigation: the working
/// directory recorded in a transcript line, `payload.cwd`.
#[verifier::external_body]
pub fn extract_cwd(line: &str) -> (r: Option<String>)
    ensures
        r matches Some(s) ==> cwd_of(line@) == Some(s@),
        r is None ==> cwd_of(line@) is None,
{
    serde_json::from_str::<serde_json::Value>(line).ok().and_then(
        |v| v.get("payload").and_then(|p| p.get("cwd")).and_then(|c| c.as_str()).map(
            |s| s.to_string(),
        ),
    )
}

/// Relies on `serde_json::from_str` and `Value` navigation: the session
/// identifier recorded in a transcript line, `payload.id`.
#[verifier::external_body]
pub fn extract_session_id(line: &str) -> (r: Option<String>)
    ensures
        r matches Some(s) ==> session_id_of(line@) == Some(s@),
        r is None ==> session_id_of(line@) is None,
{
    serde_json::from_str::<serde_json::Value>(line).ok().and_then(
        |v| v.get("payload").and_then(|p| p.get("id")).and_then(|c| c.as_str()).map(
            |s| s.to_string(),
        ),
    )
}

/// Relies on `serde_json::from_str` and `Value` navigation: the author role
/// recorded in a transcript line, `payload.role`.
#[verifier::external_body]
pub fn extract_role(line: &str) -> (r: Option<String>)
    ensures
        r matches Some(s) ==> role_of(line@) == Some(s@),
        r is None ==> role_of(line@) is None,
{
    serde_json::from_str::<serde_json::Value>(line).ok().and_then(
        |v| v.get("payload").and_then(|p| p.get("role")).and_then(|c| c.as_str()).map(
            |s| s.to_string(),
        ),
    )
}

/// Relies on `serde_json::from_str` and `Value` navigation: the text of the
/// first content item recorded in a transcript line,
/// `payload.content[0].text`.
#[verifier::external_body]
pub fn extract_text(line: &str) -> (r: Option<String>)
    ensures
        r matches Some(s) ==> text_of(line@) == Some(s@),
        r is None ==> text_of(line@) is None,
{
    serde_json::from_str::<serde_json::Value>(line).ok().and_then(
        |v| v.get("payload").and_then(|p| p.get("content")).and_then(|c| c.get(0)).and_then(
            |e| e.get("text"),
        ).and_then(|t| t.as_str()).map(|s| s.to_string()),
    )
}

} // verus!
