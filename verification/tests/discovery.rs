use codex_waybar::discovery::{
    infer_session_id_from_path, mentioned_sessions, most_recent, pinned_session, read_session_id,
    recent_session_ids, StartError,
};
use codex_waybar::locator::{
    locate_session_file, resolve_session_path, session_glob_pattern, SessionCandidate,
};
use std::path::PathBuf;

fn lines_of(text: &str) -> Vec<String> {
    text.lines().map(|l| l.to_string()).collect()
}

#[test]
fn recent_session_ids_returns_unique_sessions_in_order() {
    let history = lines_of(
        r#"
{"session_id":"alpha"}
{"session_id":"beta"}
{"session_id":"alpha"}
{"session_id":"gamma"}
"#
        .trim_start(),
    );

    let ids = recent_session_ids(&history, 2);
    assert_eq!(ids, vec!["alpha".to_string(), "gamma".to_string()]);

    let ids_three = recent_session_ids(&history, 3);
    assert_eq!(
        ids_three,
        vec!["beta".to_string(), "alpha".to_string(), "gamma".to_string()]
    );
}

#[test]
fn recent_session_ids_with_fewer_sessions_than_the_limit() {
    let history = lines_of("{\"session_id\":\"a\"}\n{\"session_id\":\"b\"}\n{\"session_id\":\"a\"}");
    assert_eq!(recent_session_ids(&history, 10), vec!["b".to_string(), "a".to_string()]);
    assert_eq!(recent_session_ids(&history, 1), vec!["a".to_string()]);
}

#[test]
fn recent_session_ids_with_limit_zero_or_no_history() {
    let history = lines_of("{\"session_id\":\"a\"}");
    assert!(recent_session_ids(&history, 0).is_empty());
    assert!(recent_session_ids(&Vec::new(), 4).is_empty());
}

#[test]
fn recent_session_ids_passes_over_lines_without_a_session() {
    let history = vec![
        "{\"session_id\":\"first\",\"ts\":1}".to_string(),
        "not json at all".to_string(),
        String::new(),
        "   ".to_string(),
        "{\"text\":\"no id here\"}".to_string(),
        "{\"session_id\":17}".to_string(),
        "{\"session_id\":\"second\"}".to_string(),
        "[\"session_id\"]".to_string(),
    ];
    assert_eq!(
        recent_session_ids(&history, 4),
        vec!["first".to_string(), "second".to_string()]
    );
}

#[test]
fn mentioned_sessions_keeps_the_order_of_the_lines() {
    let history = vec![
        "{\"session_id\":\"b\"}".to_string(),
        "junk".to_string(),
        "{\"session_id\":\"a\"}".to_string(),
        "{\"no\":\"id\"}".to_string(),
        "{\"session_id\":\"b\"}".to_string(),
    ];
    assert_eq!(
        mentioned_sessions(&history),
        vec!["b".to_string(), "a".to_string(), "b".to_string()]
    );
    assert!(mentioned_sessions(&Vec::new()).is_empty());
}

#[test]
fn most_recent_keeps_the_latest_mention_of_each() {
    let ids: Vec<String> =
        ["alpha", "beta", "alpha", "gamma"].iter().map(|s| s.to_string()).collect();
    assert_eq!(most_recent(&ids, 2), vec!["alpha".to_string(), "gamma".to_string()]);
    assert_eq!(
        most_recent(&ids, 3),
        vec!["beta".to_string(), "alpha".to_string(), "gamma".to_string()]
    );
    assert_eq!(most_recent(&ids, 1), vec!["gamma".to_string()]);
    assert_eq!(most_recent(&ids, 9).len(), 3);
    assert!(most_recent(&ids, 0).is_empty());
    let same: Vec<String> = ["x", "x", "x"].iter().map(|s| s.to_string()).collect();
    assert_eq!(most_recent(&same, 2), vec!["x".to_string()]);
}

#[test]
fn read_session_id_reads_the_string_member() {
    assert_eq!(read_session_id("{\"session_id\":\"abc\"}"), Some("abc".to_string()));
    assert_eq!(read_session_id("{\"session_id\":\"\"}"), Some(String::new()));
    assert_eq!(read_session_id("{\"session_id\":null}"), None);
    assert_eq!(read_session_id("{\"other\":\"abc\"}"), None);
    assert_eq!(read_session_id("\"session_id\""), None);
    assert_eq!(read_session_id(""), None);
}

#[test]
fn infer_session_id_from_path_takes_the_last_segment() {
    assert_eq!(
        infer_session_id_from_path("rollout-2025-10-29T12-00-00-abc123.jsonl"),
        Some("abc123".to_string())
    );
    assert_eq!(infer_session_id_from_path("abc.jsonl"), Some("abc".to_string()));
    assert_eq!(infer_session_id_from_path("x-.jsonl"), Some(String::new()));
    assert_eq!(infer_session_id_from_path(".jsonl"), Some(String::new()));
}

#[test]
fn infer_session_id_from_path_needs_the_log_ending() {
    assert_eq!(infer_session_id_from_path("rollout-abc.json"), None);
    assert_eq!(infer_session_id_from_path("rollout.jsonl-abc"), None);
    assert_eq!(infer_session_id_from_path("abc.jsonl-"), None);
    assert_eq!(infer_session_id_from_path("jsonl"), None);
    assert_eq!(infer_session_id_from_path(""), None);
}

#[test]
fn pinned_session_prefers_the_given_identifier() {
    let id = "given".to_string();
    assert_eq!(pinned_session(Some(&id), Some("rollout-other.jsonl")), Ok(Some(id.clone())));
    assert_eq!(pinned_session(Some(&id), None), Ok(Some(id.clone())));
    assert_eq!(pinned_session(None, Some("rollout-other.jsonl")), Ok(Some("other".to_string())));
    assert_eq!(pinned_session(None, None), Ok(None));
}

#[test]
fn pinned_session_fails_on_a_file_name_without_session() {
    assert_eq!(pinned_session(None, Some("notes.txt")), Err(StartError::UnknownSession));
}

#[test]
fn session_glob_pattern_is_exact() {
    assert_eq!(
        session_glob_pattern("/home/u/.codex/sessions", "abc123"),
        "/home/u/.codex/sessions/**/*abc123*.jsonl"
    );
    assert_eq!(session_glob_pattern("", ""), "/**/**.jsonl");
}

fn candidate(path: &str, modified: i128) -> SessionCandidate {
    SessionCandidate { path: PathBuf::from(path), modified }
}

#[test]
fn locate_session_file_picks_the_newest() {
    let found = locate_session_file(&vec![
        candidate("/s/old.jsonl", 10),
        candidate("/s/new.jsonl", 30),
        candidate("/s/mid.jsonl", 20),
    ]);
    assert_eq!(found, Some(PathBuf::from("/s/new.jsonl")));
    assert_eq!(
        locate_session_file(&vec![candidate("/s/only.jsonl", -5)]),
        Some(PathBuf::from("/s/only.jsonl"))
    );
}

#[test]
fn locate_session_file_keeps_the_first_of_equal_times() {
    let found = locate_session_file(&vec![
        candidate("/s/a.jsonl", 5),
        candidate("/s/b.jsonl", 9),
        candidate("/s/c.jsonl", 9),
        candidate("/s/d.jsonl", 1),
    ]);
    assert_eq!(found, Some(PathBuf::from("/s/b.jsonl")));
}

#[test]
fn locate_session_file_without_candidates() {
    assert_eq!(locate_session_file(&Vec::new()), None);
}

#[test]
fn resolve_session_path_prefers_the_explicit_path() {
    let explicit = PathBuf::from("/given/log.jsonl");
    let found = vec![candidate("/s/a.jsonl", 5)];
    assert_eq!(resolve_session_path(Some(&explicit), &found), Some(explicit.clone()));
    assert_eq!(resolve_session_path(Some(&explicit), &Vec::new()), Some(explicit.clone()));
    assert_eq!(resolve_session_path(None, &found), Some(PathBuf::from("/s/a.jsonl")));
    assert_eq!(resolve_session_path(None, &Vec::new()), None);
}
