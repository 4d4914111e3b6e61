use codex_waybar::session::{initialize_session_state, prime_session, SessionFile};
use codex_waybar::tail::{read_new_lines, FileRead, ReadError};
use std::path::PathBuf;

fn content(text: &str) -> FileRead {
    FileRead::Content(text.as_bytes().to_vec())
}

#[test]
fn read_new_lines_resets_offset_when_file_shrinks() {
    let mut offset = "line1\nline2\n".len() as u64;

    let lines = read_new_lines(&content("line3\n"), &mut offset).unwrap();
    assert_eq!(lines, vec!["line3".to_string()]);
    assert_eq!(offset, "line3\n".len() as u64);
}

#[test]
fn read_new_lines_returns_the_whole_content_after_truncation() {
    let mut offset = 1000;
    let lines = read_new_lines(&content("a\nbb\n\nccc"), &mut offset).unwrap();
    assert_eq!(
        lines,
        vec!["a".to_string(), "bb".to_string(), String::new(), "ccc".to_string()]
    );
    assert_eq!(offset, 9);
}

#[test]
fn read_new_lines_follows_a_growing_file() {
    let stages = ["one\n", "one\ntwo\nthree\n", "one\ntwo\nthree\n", "one\ntwo\nthree\nfour\n"];
    let mut offset = 0;
    let mut all: Vec<String> = Vec::new();
    for stage in stages.iter() {
        let batch = read_new_lines(&content(stage), &mut offset).unwrap();
        assert_eq!(offset, stage.len() as u64);
        all.extend(batch);
    }
    assert_eq!(
        all,
        vec!["one".to_string(), "two".to_string(), "three".to_string(), "four".to_string()]
    );
}

#[test]
fn read_new_lines_gives_nothing_when_nothing_was_appended() {
    let mut offset = 4;
    let lines = read_new_lines(&content("one\n"), &mut offset).unwrap();
    assert!(lines.is_empty());
    assert_eq!(offset, 4);
    let mut offset = 0;
    let lines = read_new_lines(&content(""), &mut offset).unwrap();
    assert!(lines.is_empty());
    assert_eq!(offset, 0);
}

#[test]
fn read_new_lines_reads_a_partial_last_line_once() {
    let mut offset = 0;
    let lines = read_new_lines(&content("done\npart"), &mut offset).unwrap();
    assert_eq!(lines, vec!["done".to_string(), "part".to_string()]);
    assert_eq!(offset, 9);
    // what is appended to the partial line later is read as a line of its own
    let lines = read_new_lines(&content("done\npartial\n"), &mut offset).unwrap();
    assert_eq!(lines, vec!["ial".to_string()]);
    assert_eq!(offset, 13);
}

#[test]
fn read_new_lines_keeps_carriage_returns() {
    let mut offset = 0;
    let lines = read_new_lines(&content("a\r\nb\r\n"), &mut offset).unwrap();
    assert_eq!(lines, vec!["a\r".to_string(), "b\r".to_string()]);
    assert_eq!(offset, 6);
}

#[test]
fn read_new_lines_reports_a_missing_file() {
    let mut offset = 7;
    assert_eq!(read_new_lines(&FileRead::Missing, &mut offset), Err(ReadError::NotFound));
    assert_eq!(offset, 7);
}

#[test]
fn read_new_lines_reports_a_failed_read() {
    let mut offset = 7;
    assert_eq!(read_new_lines(&FileRead::Failed, &mut offset), Err(ReadError::Other));
    assert_eq!(offset, 7);
}

#[test]
fn read_new_lines_stops_at_a_line_that_is_not_utf8() {
    let mut bytes = b"good\n".to_vec();
    bytes.extend_from_slice(&[0xff, 0xfe, b'\n']);
    bytes.extend_from_slice(b"after\n");
    let mut offset = 0;
    assert_eq!(read_new_lines(&FileRead::Content(bytes), &mut offset), Err(ReadError::Other));
    assert_eq!(offset, 5);
}

#[test]
fn read_new_lines_decodes_utf8() {
    let mut offset = 0;
    let lines = read_new_lines(&content("h\u{e9}llo \u{1f600}\n\u{2026}\n"), &mut offset).unwrap();
    assert_eq!(lines, vec!["h\u{e9}llo \u{1f600}".to_string(), "\u{2026}".to_string()]);
    // 1 + 2 + 3 + 1 + 4 bytes and a line feed, then 3 bytes and a line feed
    assert_eq!(offset, 16);
}

#[test]
fn read_new_lines_from_the_middle_of_a_character_fails() {
    // the offset points behind the first byte of 'é'
    let mut offset = 1;
    assert_eq!(read_new_lines(&content("\u{e9}\n"), &mut offset), Err(ReadError::Other));
    assert_eq!(offset, 1);
}

#[test]
fn prime_session_returns_none_when_file_missing() {
    let mut offset = 42;

    let result = prime_session(None, &mut offset, 120, false);

    assert!(result.is_none());
    assert_eq!(offset, 0);
}

#[test]
fn prime_session_reads_last_payload() {
    let payload_one = "{\"payload\":{\"text\":\"**First step** details\",\"type\":\"agent_reasoning\"},\"timestamp\":\"2025-10-29T12:00:00Z\",\"type\":\"event_msg\"}";
    let payload_two = "{\"payload\":{\"text\":\"Second step\",\"type\":\"agent_reasoning\"},\"timestamp\":\"2025-10-29T12:01:00Z\",\"type\":\"event_msg\"}";
    let len = (payload_one.len() + payload_two.len() + 2) as u64;
    let file = SessionFile { len, lines: vec![payload_one.to_string(), payload_two.to_string()] };

    let mut offset = 0;
    let result = prime_session(Some(&file), &mut offset, 120, false);

    assert!(result.is_some());
    let event = result.unwrap();
    assert_eq!(event.payload.text, "Second step");
    assert_eq!(event.timestamp.as_deref(), Some("2025-10-29T12:01:00Z"));
    assert_eq!(offset, len);
}

#[test]
fn prime_session_skips_lines_that_do_not_render() {
    let hit = "{\"payload\":{\"text\":\"kept\",\"type\":\"agent_reasoning\"},\"timestamp\":\"t1\"}";
    let file = SessionFile {
        len: 500,
        lines: vec![
            String::new(),
            hit.to_string(),
            "garbage".to_string(),
            "{\"payload\":{\"type\":\"token_count\"}}".to_string(),
            "   ".to_string(),
        ],
    };
    for start_at_beginning in [true, false] {
        let mut offset = 3;
        let event = prime_session(Some(&file), &mut offset, 120, start_at_beginning).unwrap();
        assert_eq!(event.payload.text, "kept");
        assert_eq!(offset, 500);
    }
}

#[test]
fn prime_session_of_a_log_without_events() {
    let file = SessionFile { len: 12, lines: vec!["{}".to_string(), "x".to_string()] };
    let mut offset = 99;
    assert!(prime_session(Some(&file), &mut offset, 120, true).is_none());
    assert_eq!(offset, 12);
    let empty = SessionFile { len: 0, lines: vec![] };
    assert!(prime_session(Some(&empty), &mut offset, 120, false).is_none());
    assert_eq!(offset, 0);
}

#[test]
fn initialize_session_state_needs_a_path() {
    let file = SessionFile { len: 1, lines: vec![] };
    assert!(initialize_session_state(None, Some(&file), 120, false).is_none());
    assert!(initialize_session_state(None, None, 120, false).is_none());
}

#[test]
fn initialize_session_state_primes_the_resolved_file() {
    let hit = "{\"payload\":{\"text\":\"now\",\"type\":\"agent_reasoning\"}}";
    let file = SessionFile { len: 77, lines: vec![hit.to_string()] };
    let (state, event) =
        initialize_session_state(Some(PathBuf::from("/logs/a.jsonl")), Some(&file), 120, false)
            .unwrap();
    assert_eq!(state.path, PathBuf::from("/logs/a.jsonl"));
    assert_eq!(state.offset, 77);
    assert_eq!(event.unwrap().payload.text, "now");

    let (state, event) =
        initialize_session_state(Some(PathBuf::from("/logs/gone.jsonl")), None, 120, true)
            .unwrap();
    assert_eq!(state.path, PathBuf::from("/logs/gone.jsonl"));
    assert_eq!(state.offset, 0);
    assert!(event.is_none());
}
