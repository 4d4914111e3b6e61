use codex_waybar::chars::is_blank_text;
use codex_waybar::event::{
    is_malformed_line, malformed_lines, placeholder_payload, process_log_line, read_log_entry,
    render_event, select_entry, WaybarOutput,
};
use codex_waybar::text::{
    build_tooltip, collapse_whitespace, extract_phase, sanitize_text, slugify, truncate_text,
};

#[test]
fn collapse_whitespace_squeezes_runs_and_trims() {
    assert_eq!(collapse_whitespace("  a \t\n b  "), "a b");
    assert_eq!(collapse_whitespace("one"), "one");
    assert_eq!(collapse_whitespace(""), "");
    assert_eq!(collapse_whitespace(" \t \n "), "");
}

#[test]
fn collapse_whitespace_knows_unicode_white_space() {
    assert_eq!(collapse_whitespace("a\u{a0}\u{3000}b"), "a b");
    assert_eq!(collapse_whitespace("\u{2003}x\u{2028}"), "x");
    // a zero width space is no white space
    assert_eq!(collapse_whitespace("a\u{200b}b"), "a\u{200b}b");
}

#[test]
fn white_space_is_the_unicode_property() {
    let white: [u32; 25] = [
        0x09, 0x0a, 0x0b, 0x0c, 0x0d, 0x20, 0x85, 0xa0, 0x1680, 0x2000, 0x2001, 0x2002, 0x2003,
        0x2004, 0x2005, 0x2006, 0x2007, 0x2008, 0x2009, 0x200a, 0x2028, 0x2029, 0x202f, 0x205f,
        0x3000,
    ];
    let mut code: u32 = 0;
    while code <= 0x10ffff {
        if let Some(c) = char::from_u32(code) {
            let mut text = String::from("a");
            text.push(c);
            text.push('b');
            let expected = if white.contains(&code) { "a b".to_string() } else { text.clone() };
            assert_eq!(collapse_whitespace(&text), expected, "code point {:x}", code);
        }
        // every code point up to U+3100, then every 257th
        code += if code < 0x3100 { 1 } else { 257 };
    }
}

#[test]
fn blank_text_is_white_space_only_for_every_code_point() {
    let white: [u32; 25] = [
        0x09, 0x0a, 0x0b, 0x0c, 0x0d, 0x20, 0x85, 0xa0, 0x1680, 0x2000, 0x2001, 0x2002, 0x2003,
        0x2004, 0x2005, 0x2006, 0x2007, 0x2008, 0x2009, 0x200a, 0x2028, 0x2029, 0x202f, 0x205f,
        0x3000,
    ];
    let mut text = String::new();
    for code in 0..=0x10ffff_u32 {
        if let Some(c) = char::from_u32(code) {
            text.clear();
            text.push(c);
            assert_eq!(is_blank_text(&text), white.contains(&code), "code point {:x}", code);
        }
    }
    assert!(is_blank_text(""));
    assert!(is_blank_text(" \t\u{3000}"));
    assert!(!is_blank_text(" x "));
}

#[test]
fn sanitize_text_strips_markers_and_line_breaks() {
    assert_eq!(sanitize_text("**Planning** next steps"), "Planning next steps");
    assert_eq!(sanitize_text("line one\r\nline two\n"), "line one line two");
    assert_eq!(sanitize_text("a ** b"), "a b");
    assert_eq!(sanitize_text("***"), "*");
    assert_eq!(sanitize_text("*a*"), "*a*");
    assert_eq!(sanitize_text("****"), "");
}

#[test]
fn sanitize_text_is_idempotent_on_its_result() {
    let once = sanitize_text("  **Phase**\n\n  some   text \r\n");
    assert_eq!(once, "Phase some text");
    assert_eq!(sanitize_text(&once), once);
}

#[test]
fn truncate_text_keeps_a_text_that_fits() {
    assert_eq!(truncate_text("abc", 3), "abc");
    assert_eq!(truncate_text("abc", 120), "abc");
    assert_eq!(truncate_text("", 0), "");
    assert_eq!(truncate_text("h\u{e9}", 3), "h\u{e9}");
}

#[test]
fn truncate_text_cuts_and_appends_an_ellipsis() {
    assert_eq!(truncate_text("abcdef", 3), "abc\u{2026}");
    assert_eq!(truncate_text("hello world", 8), "hello wo\u{2026}");
    assert_eq!(truncate_text("abc", 0), "\u{2026}");
}

#[test]
fn truncate_text_trims_white_space_before_the_ellipsis() {
    assert_eq!(truncate_text("hello world", 6), "hello\u{2026}");
    assert_eq!(truncate_text("a   bcd", 4), "a\u{2026}");
}

#[test]
fn truncate_text_never_splits_a_character() {
    // 'h' takes one byte, 'é' two: with a budget of two only 'h' fits
    assert_eq!(truncate_text("h\u{e9}llo", 2), "h\u{2026}");
    assert_eq!(truncate_text("h\u{e9}llo", 3), "h\u{e9}\u{2026}");
    // a four byte character does not fit into three bytes
    assert_eq!(truncate_text("\u{1f600}x", 3), "\u{2026}");
    assert_eq!(truncate_text("\u{1f600}xy", 5), "\u{1f600}x\u{2026}");
}

#[test]
fn truncate_text_kept_part_is_within_the_budget() {
    let text = "The quick brown fox jumps over the lazy dog";
    let mut max = 0;
    while max < text.len() {
        let cut = truncate_text(text, max);
        assert!(cut.ends_with('\u{2026}'));
        let kept = &cut[..cut.len() - '\u{2026}'.len_utf8()];
        assert!(kept.len() <= max);
        assert!(text.starts_with(kept));
        assert!(!kept.ends_with(' '));
        assert!(cut.len() <= max + 3);
        max += 1;
    }
    assert_eq!(truncate_text(text, text.len()), text);
}

#[test]
fn extract_phase_reads_the_label_between_markers() {
    assert_eq!(extract_phase("**Planning** next steps"), Some("Planning".to_string()));
    assert_eq!(extract_phase("**  spaced out ** x"), Some("spaced out".to_string()));
    assert_eq!(extract_phase("**a**b**c**"), Some("a".to_string()));
    assert_eq!(extract_phase("****"), Some(String::new()));
    assert_eq!(extract_phase("***x**"), Some("*x".to_string()));
}

#[test]
fn extract_phase_needs_a_leading_and_a_closing_marker() {
    assert_eq!(extract_phase("no **bold** first"), None);
    assert_eq!(extract_phase("**unclosed"), None);
    assert_eq!(extract_phase(" **Planning**"), None);
    assert_eq!(extract_phase("**"), None);
    assert_eq!(extract_phase("***"), None);
    assert_eq!(extract_phase("*"), None);
    assert_eq!(extract_phase(""), None);
}

#[test]
fn slugify_lowers_and_hyphenates() {
    assert_eq!(slugify("First step"), Some("first-step".to_string()));
    assert_eq!(slugify("  Hello, World!  "), Some("hello-world".to_string()));
    assert_eq!(slugify("snake_case-and kebab"), Some("snake-case-and-kebab".to_string()));
    assert_eq!(slugify("A1 b2"), Some("a1-b2".to_string()));
    assert_eq!(slugify("Z"), Some("z".to_string()));
}

#[test]
fn slugify_gives_none_when_nothing_is_left() {
    assert_eq!(slugify(""), None);
    assert_eq!(slugify("---"), None);
    assert_eq!(slugify(" \t"), None);
    assert_eq!(slugify("\u{c9}\u{e9}"), None);
}

#[test]
fn slugify_treats_other_characters_as_separators() {
    assert_eq!(slugify("caf\u{e9} au lait"), Some("caf-au-lait".to_string()));
    assert_eq!(slugify("a...b"), Some("a-b".to_string()));
}

#[test]
fn build_tooltip_joins_timestamp_and_detail() {
    assert_eq!(
        build_tooltip(Some("2025-10-29T12:00:00Z"), "**P** x", "P x", "P x"),
        Some("2025-10-29T12:00:00Z\n**P** x".to_string())
    );
    assert_eq!(
        build_tooltip(Some("t"), "abcdef", "abcdef", "abc\u{2026}"),
        Some("t\nabcdef".to_string())
    );
    assert_eq!(build_tooltip(Some("t"), "same", "same", "same"), Some("t".to_string()));
}

#[test]
fn build_tooltip_without_timestamp() {
    assert_eq!(build_tooltip(None, "x", "x", "x"), None);
    assert_eq!(build_tooltip(None, " a  b ", "a b", "a b"), Some(" a  b ".to_string()));
    assert_eq!(build_tooltip(None, "   ", "", "cut"), Some("   ".to_string()));
    assert_eq!(build_tooltip(None, "  x  ", "x", "x"), Some("  x  ".to_string()));
    assert_eq!(build_tooltip(None, " a ", "a", "a"), Some(" a ".to_string()));
    assert_eq!(build_tooltip(None, "", "", ""), None);
    assert_eq!(build_tooltip(None, "abcdef", "abcdef", "abc\u{2026}"), Some("abcdef".to_string()));
}

#[test]
fn render_event_with_phase() {
    let event = render_event(
        Some("2025-10-29T12:00:00Z".to_string()),
        "**Planning** next steps",
        120,
    );
    assert_eq!(event.payload.text, "Planning");
    assert_eq!(event.payload.alt, Some("Planning".to_string()));
    assert_eq!(
        event.payload.class,
        vec!["codex".to_string(), "agent-reasoning".to_string(), "phase-planning".to_string()]
    );
    assert_eq!(
        event.payload.tooltip,
        Some("2025-10-29T12:00:00Z\n**Planning** next steps".to_string())
    );
    assert_eq!(event.timestamp, Some("2025-10-29T12:00:00Z".to_string()));
}

#[test]
fn render_event_without_phase_shows_the_cut_text() {
    let event = render_event(None, "some   long text here", 9);
    assert_eq!(event.payload.text, "some long\u{2026}");
    assert_eq!(event.payload.alt, None);
    assert_eq!(event.payload.class, vec!["codex".to_string(), "agent-reasoning".to_string()]);
    assert_eq!(event.payload.tooltip, Some("some   long text here".to_string()));
    assert_eq!(event.timestamp, None);
}

#[test]
fn render_event_keeps_the_raw_text_in_the_tooltip() {
    // a log text that ends in a line break: the tooltip shows it as it came
    let event = render_event(Some("t1".to_string()), "done\n", 120);
    assert_eq!(event.payload.text, "done");
    assert_eq!(event.payload.tooltip, Some("t1\ndone\n".to_string()));
    let event = render_event(None, "done", 120);
    assert_eq!(event.payload.tooltip, None);
}

#[test]
fn render_event_phase_without_slug_adds_no_class() {
    let event = render_event(None, "**!!** rest", 120);
    assert_eq!(event.payload.text, "!!");
    assert_eq!(event.payload.alt, Some("!!".to_string()));
    assert_eq!(event.payload.class, vec!["codex".to_string(), "agent-reasoning".to_string()]);
}

#[test]
fn text_pipeline_end_to_end() {
    let line = "{\"timestamp\":\"2025-10-29T12:00:00Z\",\"type\":\"event_msg\",\"payload\":{\"type\":\"agent_reasoning\",\"text\":\"**Planning** next steps\"}}";
    let event = process_log_line(line, 120).expect("the line holds a reasoning entry");
    assert_eq!(event.payload.alt, Some("Planning".to_string()));
    assert_eq!(event.payload.text, "Planning");
    assert!(event.payload.class.contains(&"phase-planning".to_string()));
    let tooltip = event.payload.tooltip.expect("the raw text differs from the sanitised text");
    assert!(tooltip.contains("**Planning** next steps"));
    assert_eq!(event.timestamp, Some("2025-10-29T12:00:00Z".to_string()));
}

#[test]
fn process_log_line_skips_what_is_no_reasoning_entry() {
    assert!(process_log_line("", 120).is_none());
    assert!(process_log_line("   \t", 120).is_none());
    assert!(process_log_line("not json", 120).is_none());
    assert!(process_log_line("{\"payload\":", 120).is_none());
    assert!(process_log_line("{\"timestamp\":\"t\"}", 120).is_none());
    assert!(process_log_line("{\"payload\":{\"text\":\"x\"}}", 120).is_none());
    assert!(process_log_line("{\"payload\":{\"type\":\"other\",\"text\":\"x\"}}", 120).is_none());
    assert!(process_log_line("{\"payload\":{\"type\":7,\"text\":\"x\"}}", 120).is_none());
    assert!(process_log_line("{\"payload\":{\"type\":\"agent_reasoning\"}}", 120).is_none());
    assert!(
        process_log_line("{\"payload\":{\"type\":\"agent_reasoning\",\"text\":\"\"}}", 120)
            .is_none()
    );
    assert!(
        process_log_line("{\"payload\":{\"type\":\"agent_reasoning\",\"text\":5}}", 120).is_none()
    );
    assert!(process_log_line("[1,2]", 120).is_none());
}

#[test]
fn process_log_line_reads_escapes_and_ignores_other_members() {
    let line = " {\"payload\":{\"text\":\"a\\n\\u00e9  b\",\"type\":\"agent_reasoning\",\"n\":1},\"timestamp\":42} ";
    let event = process_log_line(line, 120).expect("the line holds a reasoning entry");
    assert_eq!(event.payload.text, "a \u{e9} b");
    assert_eq!(event.timestamp, None);
    assert_eq!(event.payload.tooltip, Some("a\n\u{e9}  b".to_string()));
}

#[test]
fn read_log_entry_gives_timestamp_and_raw_text() {
    let entry = read_log_entry(
        "{\"timestamp\":\"T1\",\"payload\":{\"type\":\"agent_reasoning\",\"text\":\"  raw  \"}}",
    )
    .expect("the line holds a reasoning entry");
    assert_eq!(entry.timestamp, Some("T1".to_string()));
    assert_eq!(entry.text, "  raw  ");
    assert!(read_log_entry("{\"payload\":{\"type\":\"agent_reasoning\"}}").is_none());
}

#[test]
fn select_entry_wants_the_reasoning_type_and_a_text() {
    let kind = || Some("agent_reasoning".to_string());
    let entry = select_entry(kind(), Some("x".to_string()), Some("t".to_string())).unwrap();
    assert_eq!(entry.text, "x");
    assert_eq!(entry.timestamp, Some("t".to_string()));
    let entry = select_entry(kind(), Some(" ".to_string()), None).unwrap();
    assert_eq!(entry.text, " ");
    assert_eq!(entry.timestamp, None);
    assert!(select_entry(kind(), Some(String::new()), None).is_none());
    assert!(select_entry(kind(), None, None).is_none());
    assert!(select_entry(None, Some("x".to_string()), None).is_none());
    assert!(select_entry(Some("agent_message".to_string()), Some("x".to_string()), None).is_none());
    assert!(select_entry(Some("Agent_Reasoning".to_string()), Some("x".to_string()), None).is_none());
}

#[test]
fn is_malformed_line_tells_what_does_not_parse() {
    assert!(is_malformed_line("not json"));
    assert!(is_malformed_line("{\"payload\":"));
    assert!(is_malformed_line("{} trailing"));
    assert!(!is_malformed_line(""));
    assert!(!is_malformed_line("  \t "));
    assert!(!is_malformed_line("{}"));
    assert!(!is_malformed_line(" [1, 2] "));
    assert!(!is_malformed_line("{\"payload\":{\"type\":\"agent_reasoning\",\"text\":\"x\"}}"));
}

#[test]
fn malformed_lines_keeps_their_order() {
    let lines = vec![
        "{\"ok\":1}".to_string(),
        "broken one".to_string(),
        String::new(),
        "{broken two".to_string(),
        "null".to_string(),
    ];
    assert_eq!(malformed_lines(&lines), vec!["broken one".to_string(), "{broken two".to_string()]);
    assert!(malformed_lines(&Vec::new()).is_empty());
}

#[test]
fn placeholder_payload_is_the_waiting_message() {
    let expected = WaybarOutput {
        text: "Waiting for Codex\u{2026}".to_string(),
        tooltip: None,
        alt: Some("initializing".to_string()),
        class: vec!["codex".to_string(), "agent-reasoning".to_string()],
    };
    assert_eq!(placeholder_payload(), expected);
}
