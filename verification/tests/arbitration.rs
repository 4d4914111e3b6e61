use codex_waybar::arbitration::{
    is_newer_timestamp, publish_winner, select_newer_event, should_emit, text_precedes,
};
use codex_waybar::event::{RenderedEvent, SessionEvent, WaybarOutput};

fn event(session: &str, text: &str, timestamp: Option<&str>) -> SessionEvent {
    SessionEvent {
        session_id: session.to_string(),
        event: RenderedEvent {
            payload: WaybarOutput {
                text: text.to_string(),
                tooltip: None,
                alt: None,
                class: vec![],
            },
            timestamp: timestamp.map(|t| t.to_string()),
        },
    }
}

#[test]
fn select_newer_event_prefers_newer_timestamp() {
    let older = SessionEvent {
        session_id: "alpha".to_string(),
        event: RenderedEvent {
            payload: WaybarOutput {
                text: "Old".to_string(),
                tooltip: None,
                alt: None,
                class: vec![],
            },
            timestamp: Some("2025-10-29T10:00:00Z".to_string()),
        },
    };
    let newer = SessionEvent {
        session_id: "beta".to_string(),
        event: RenderedEvent {
            payload: WaybarOutput {
                text: "New".to_string(),
                tooltip: None,
                alt: None,
                class: vec![],
            },
            timestamp: Some("2025-10-29T11:00:00Z".to_string()),
        },
    };

    let picked = select_newer_event(Some(older.clone()), newer.clone()).unwrap();
    assert_eq!(picked.session_id, "beta");

    let unchanged = select_newer_event(Some(newer.clone()), older.clone()).unwrap();
    assert_eq!(unchanged.session_id, "beta");
}

#[test]
fn select_newer_event_takes_the_first_candidate() {
    let picked = select_newer_event(None, event("alpha", "x", None)).unwrap();
    assert_eq!(picked.session_id, "alpha");
}

#[test]
fn select_newer_event_tie_goes_to_the_later_candidate() {
    let first = event("alpha", "one", Some("2025-10-29T10:00:00Z"));
    let second = event("beta", "two", Some("2025-10-29T10:00:00Z"));
    let picked = select_newer_event(Some(first.clone()), second.clone()).unwrap();
    assert_eq!(picked.session_id, "beta");
    assert_eq!(picked.event.payload.text, "two");
    let picked = select_newer_event(Some(second), first).unwrap();
    assert_eq!(picked.session_id, "alpha");
    assert_eq!(picked.event.payload.text, "one");
}

#[test]
fn select_newer_event_keeps_the_winner_on_an_equal_candidate() {
    let first = event("alpha", "same", Some("2025-10-29T10:00:00Z"));
    let second = event("beta", "same", Some("2025-10-29T10:00:00Z"));
    let picked = select_newer_event(Some(first), second).unwrap();
    assert_eq!(picked.session_id, "alpha");
}

#[test]
fn select_newer_event_without_timestamps() {
    let none_a = event("alpha", "a", None);
    let none_b = event("beta", "b", None);
    let dated = event("gamma", "c", Some("2025"));
    // two missing timestamps are equal: different payloads, the later one wins
    let picked = select_newer_event(Some(none_a.clone()), none_b).unwrap();
    assert_eq!(picked.session_id, "beta");
    // a timestamp is newer than none
    let picked = select_newer_event(Some(none_a.clone()), dated.clone()).unwrap();
    assert_eq!(picked.session_id, "gamma");
    // none is older than a timestamp
    let picked = select_newer_event(Some(dated), none_a).unwrap();
    assert_eq!(picked.session_id, "gamma");
}

#[test]
fn is_newer_timestamp_compares_as_text() {
    let a = "2025-10-29T10:00:00Z".to_string();
    let b = "2025-10-29T11:00:00Z".to_string();
    assert!(is_newer_timestamp(Some(&b), Some(&a)));
    assert!(!is_newer_timestamp(Some(&a), Some(&b)));
    assert!(!is_newer_timestamp(Some(&a), Some(&a)));
    assert!(is_newer_timestamp(Some(&a), None));
    assert!(!is_newer_timestamp(None, Some(&a)));
    assert!(!is_newer_timestamp(None, None));
    // text order, not number order
    let nine = "9".to_string();
    let ten = "10".to_string();
    assert!(is_newer_timestamp(Some(&nine), Some(&ten)));
    assert!(!is_newer_timestamp(Some(&ten), Some(&nine)));
    // a proper prefix comes first
    let short = "2025".to_string();
    let long = "2025-01".to_string();
    assert!(is_newer_timestamp(Some(&long), Some(&short)));
    assert!(!is_newer_timestamp(Some(&short), Some(&long)));
}

#[test]
fn text_precedes_agrees_with_string_order() {
    let samples = ["", "a", "ab", "b", "B", "\u{e9}", "z\u{1f600}", "z", "2025-10-29T10:00:00Z"];
    for a in samples.iter() {
        for b in samples.iter() {
            assert_eq!(text_precedes(a, b), a < b);
        }
    }
}

#[test]
fn should_emit_when_anything_differs() {
    let last = event("alpha", "x", Some("t1"));
    assert!(should_emit(&None, &last));
    assert!(!should_emit(&Some(last.clone()), &last));
    assert!(should_emit(&Some(last.clone()), &event("beta", "x", Some("t1"))));
    assert!(should_emit(&Some(last.clone()), &event("alpha", "y", Some("t1"))));
    assert!(should_emit(&Some(last.clone()), &event("alpha", "x", Some("t2"))));
    assert!(should_emit(&Some(last.clone()), &event("alpha", "x", None)));
    let mut classed = last.clone();
    classed.event.payload.class = vec!["codex".to_string()];
    assert!(should_emit(&Some(last.clone()), &classed));
    let mut tipped = last.clone();
    tipped.event.payload.tooltip = Some("tip".to_string());
    assert!(should_emit(&Some(last.clone()), &tipped));
    let mut alt = last.clone();
    alt.event.payload.alt = Some("alt".to_string());
    assert!(should_emit(&Some(last), &alt));
}

#[test]
fn publish_winner_writes_once_for_an_unchanged_winner() {
    let mut last: Option<SessionEvent> = None;
    let winner = event("alpha", "x", Some("t1"));
    let mut writes = 0;
    for _ in 0..5 {
        if let Some(payload) = publish_winner(&mut last, Some(winner.clone())) {
            assert_eq!(payload.text, "x");
            writes += 1;
        }
        // a pass without a winner writes nothing either
        assert!(publish_winner(&mut last, None).is_none());
    }
    assert_eq!(writes, 1);
    assert_eq!(last.unwrap().session_id, "alpha");
}

#[test]
fn publish_winner_writes_again_when_the_winner_changes() {
    let mut last: Option<SessionEvent> = None;
    assert!(publish_winner(&mut last, None).is_none());
    assert!(last.is_none());
    let first = publish_winner(&mut last, Some(event("alpha", "x", Some("t1"))));
    assert_eq!(first.unwrap().text, "x");
    let second = publish_winner(&mut last, Some(event("alpha", "y", Some("t2"))));
    assert_eq!(second.unwrap().text, "y");
    let last = last.unwrap();
    assert_eq!(last.event.payload.text, "y");
    assert_eq!(last.event.timestamp, Some("t2".to_string()));
}
