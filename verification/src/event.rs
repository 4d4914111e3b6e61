//! Rendered events: the payload that the status bar shows, how one log line
//! becomes an event, and how two values of these types are compared.

use crate::chars::{chars_of, is_blank, is_blank_text, same_chars, texts};
use crate::json::{
    json_document, json_member, json_text_member, member, parse_document, text_member,
};
use crate::text::{
    build_tooltip, extract_phase, phase_of, sanitize_text, sanitized, slug_of, slugify,
    tooltip_of, truncate_text, truncated,
};
use vstd::prelude::*;
use vstd::string::StringExecFns;

verus! {

/// What the status bar shows: a text, a tooltip, an alternative label and
/// the style classes.
#[derive(Clone, Debug, PartialEq, Eq)]
pub struct WaybarOutput {
    pub text: String,
    pub tooltip: Option<String>,
    pub alt: Option<String>,
    pub class: Vec<String>,
}

/// The mathematical value of a `WaybarOutput`.
pub struct PayloadView {
    pub text: Seq<char>,
    pub tooltip: Option<Seq<char>>,
    pub alt: Option<Seq<char>>,
    pub class: Seq<Seq<char>>,
}

/// The characters of an optional string.
pub open spec fn opt_text(o: Option<String>) -> Option<Seq<char>> {
    match o {
        Some(s) => Some(s@),
        None => None,
    }
}

impl View for WaybarOutput {
    type V = PayloadView;

    open spec fn view(&self) -> PayloadView {
        PayloadView {
            text: self.text@,
            tooltip: opt_text(self.tooltip),
            alt: opt_text(self.alt),
            class: texts(self.class@),
        }
    }
}

/// A payload with the timestamp of the record it was rendered from.
#[derive(Clone, Debug)]
pub struct RenderedEvent {
    pub payload: WaybarOutput,
    pub timestamp: Option<String>,
}

/// The mathematical value of a `RenderedEvent`.
pub struct EventView {
    pub payload: PayloadView,
    pub timestamp: Option<Seq<char>>,
}

impl View for RenderedEvent {
    type V = EventView;

    open spec fn view(&self) -> EventView {
        EventView { payload: self.payload@, timestamp: opt_text(self.timestamp) }
    }
}

/// An event with the session that produced it.
#[derive(Clone, Debug)]
pub struct SessionEvent {
    pub session_id: String,
    pub event: RenderedEvent,
}

/// The mathematical value of a `SessionEvent`.
pub struct SessionEventView {
    pub session_id: Seq<char>,
    pub event: EventView,
}

impl View for SessionEvent {
    type V = SessionEventView;

    open spec fn view(&self) -> SessionEventView {
        SessionEventView { session_id: self.session_id@, event: self.event@ }
    }
}

/// Whether two strings hold the same text.
pub fn same_text(a: &str, b: &str) -> (r: bool)
    ensures
        r == (a@ == b@),
{
    let x = chars_of(a);
    let y = chars_of(b);
    same_chars(&x, &y)
}

/// Whether two optional strings are both absent or hold the same text.
pub fn same_opt_text(a: &Option<String>, b: &Option<String>) -> (r: bool)
    ensures
        r == (opt_text(*a) == opt_text(*b)),
{
    match (a, b) {
        (Some(x), Some(y)) => same_text(x.as_str(), y.as_str()),
        (None, None) => true,
        _ => false,
    }
}

/// Whether two lists of strings hold the same texts in the same order.
pub fn same_texts(a: &Vec<String>, b: &Vec<String>) -> (r: bool)
    ensures
        r == (texts(a@) == texts(b@)),
{
    if a.len() != b.len() {
        assert(texts(a@).len() != texts(b@).len());
        return false;
    }
    let mut i: usize = 0;
    while i < a.len()
        invariant
            i <= a.len(),
            a.len() == b.len(),
            forall|j: int| 0 <= j < i ==> a@[j]@ == b@[j]@,
        decreases a.len() - i,
    {
        if !same_text(a[i].as_str(), b[i].as_str()) {
            assert(texts(a@)[i as int] != texts(b@)[i as int]);
            return false;
        }
        i += 1;
    }
    assert(texts(a@) =~= texts(b@));
    true
}

/// Whether two payloads have the same value.
pub fn same_payload(a: &WaybarOutput, b: &WaybarOutput) -> (r: bool)
    ensures
        r == (a@ == b@),
{
    same_text(a.text.as_str(), b.text.as_str()) && same_opt_text(&a.tooltip, &b.tooltip)
        && same_opt_text(&a.alt, &b.alt) && same_texts(&a.class, &b.class)
}

/// A copy of an optional string.
pub fn copy_opt_text(o: &Option<String>) -> (out: Option<String>)
    ensures
        opt_text(out) == opt_text(*o),
{
    match o {
        Some(s) => Some(s.clone()),
        None => None,
    }
}

/// A copy of a payload.
pub fn copy_payload(p: &WaybarOutput) -> (out: WaybarOutput)
    ensures
        out@ == p@,
{
    let mut class: Vec<String> = Vec::new();
    let mut i: usize = 0;
    while i < p.class.len()
        invariant
            i <= p.class.len(),
            class.len() == i,
            forall|j: int| 0 <= j < i ==> class@[j]@ == p.class@[j]@,
        decreases p.class.len() - i,
    {
        class.push(p.class[i].clone());
        i += 1;
    }
    assert(texts(class@) =~= texts(p.class@));
    WaybarOutput {
        text: p.text.clone(),
        tooltip: copy_opt_text(&p.tooltip),
        alt: copy_opt_text(&p.alt),
        class,
    }
}

/// A copy of an event.
pub fn copy_event(e: &RenderedEvent) -> (out: RenderedEvent)
    ensures
        out@ == e@,
{
    RenderedEvent { payload: copy_payload(&e.payload), timestamp: copy_opt_text(&e.timestamp) }
}

/// The two style classes that every event carries.
pub open spec fn base_classes() -> Seq<Seq<char>> {
    seq!["codex"@, "agent-reasoning"@]
}

/// The style classes of an event with the given phase label: the two base
/// classes, then `phase-` and the slug of the label where it has one.
pub open spec fn classes_of(phase: Option<Seq<char>>) -> Seq<Seq<char>> {
    match phase {
        Some(label) => match slug_of(label) {
            Some(slug) => base_classes().push("phase-"@ + slug),
            None => base_classes(),
        },
        None => base_classes(),
    }
}

/// The event rendered from a record's timestamp and raw text with a display
/// width of `max` bytes. The display text is the phase label where the raw
/// text has one, else the sanitised text cut to `max`.
pub open spec fn rendered(timestamp: Option<Seq<char>>, raw: Seq<char>, max: nat) -> EventView {
    let clean = sanitized(raw);
    let cut = truncated(clean, max);
    let phase = phase_of(raw);
    EventView {
        payload: PayloadView {
            text: match phase {
                Some(label) => label,
                None => cut,
            },
            tooltip: tooltip_of(timestamp, raw, clean, cut),
            alt: phase,
            class: classes_of(phase),
        },
        timestamp,
    }
}

/// Renders the event of a record from its timestamp and its raw text.
pub fn render_event(timestamp: Option<String>, raw_text: &str, max_chars: usize) -> (event:
    RenderedEvent)
    ensures
        event@ == rendered(opt_text(timestamp), raw_text@, max_chars as nat),
{
    let clean = sanitize_text(raw_text);
    let cut = truncate_text(clean.as_str(), max_chars);
    let phase = extract_phase(raw_text);
    let mut class: Vec<String> = Vec::new();
    class.push("codex".to_owned());
    class.push("agent-reasoning".to_owned());
    match &phase {
        Some(label) => match slugify(label.as_str()) {
            Some(slug) => {
                let mut name = "phase-".to_owned();
                name.append(slug.as_str());
                class.push(name);
            },
            None => {},
        },
        None => {},
    }
    assert(texts(class@) =~= classes_of(phase_of(raw_text@)));
    let tooltip = match &timestamp {
        Some(ts) => build_tooltip(Some(ts.as_str()), raw_text, clean.as_str(), cut.as_str()),
        None => build_tooltip(None, raw_text, clean.as_str(), cut.as_str()),
    };
    let text = match &phase {
        Some(label) => label.clone(),
        None => cut,
    };
    RenderedEvent { payload: WaybarOutput { text, tooltip, alt: phase, class }, timestamp }
}

/// What a log line says of a reasoning event: the record's timestamp and the
/// raw text of its payload.
#[derive(Clone, Debug)]
pub struct LogEntry {
    pub timestamp: Option<String>,
    pub text: String,
}

/// The mathematical value of a `LogEntry`.
pub struct LogEntryView {
    pub timestamp: Option<Seq<char>>,
    pub text: Seq<char>,
}

impl View for LogEntry {
    type V = LogEntryView;

    open spec fn view(&self) -> LogEntryView {
        LogEntryView { timestamp: opt_text(self.timestamp), text: self.text@ }
    }
}

/// The entry that a record with these members stands for. A record counts
/// where the `type` of its payload is the string `agent_reasoning` and the
/// `text` of its payload is a string that is not empty.
pub open spec fn eligible_entry(
    kind: Option<Seq<char>>,
    text: Option<Seq<char>>,
    timestamp: Option<Seq<char>>,
) -> Option<LogEntryView> {
    match text {
        Some(raw) => if kind == Some("agent_reasoning"@) && raw.len() > 0 {
            Some(LogEntryView { timestamp, text: raw })
        } else {
            None
        },
        None => None,
    }
}

/// Decides whether a record is a reasoning entry, from the string members
/// `type` and `text` of its payload and its own string member `timestamp`,
/// each `None` where the record has no such string.
pub fn select_entry(
    kind: Option<String>,
    text: Option<String>,
    timestamp: Option<String>,
) -> (entry: Option<LogEntry>)
    ensures
        match entry {
            Some(e) => eligible_entry(opt_text(kind), opt_text(text), opt_text(timestamp)) == Some(
                e@,
            ),
            None => eligible_entry(opt_text(kind), opt_text(text), opt_text(timestamp)) is None,
        },
{
    match kind {
        Some(kind) => {
            if !same_text(kind.as_str(), "agent_reasoning") {
                return None;
            }
        },
        None => {
            return None;
        },
    }
    match text {
        Some(text) => {
            if text.as_str().is_empty() {
                None
            } else {
                Some(LogEntry { timestamp, text })
            }
        },
        None => None,
    }
}

/// The reasoning entry that a log line holds. A line holds one where it is
/// not blank, parses as JSON and has a member `payload`, and the string
/// members `type` and `text` of that payload make an eligible entry. The
/// timestamp is the record's member `timestamp` where that is a string.
pub open spec fn log_entry(line: Seq<char>) -> Option<LogEntryView> {
    if is_blank(line) {
        None
    } else {
        match json_document(line) {
            None => None,
            Some(doc) => match json_member(doc, "payload"@) {
                None => None,
                Some(payload) => eligible_entry(
                    json_text_member(payload, "type"@),
                    json_text_member(payload, "text"@),
                    json_text_member(doc, "timestamp"@),
                ),
            },
        }
    }
}

/// Reads the reasoning entry of a log line, if it holds one.
pub fn read_log_entry(line: &str) -> (entry: Option<LogEntry>)
    ensures
        match entry {
            Some(e) => log_entry(line@) == Some(e@),
            None => log_entry(line@) is None,
        },
{
    if is_blank_text(line) {
        return None;
    }
    let doc = match parse_document(line) {
        Some(doc) => doc,
        None => {
            return None;
        },
    };
    let payload = match member(&doc, "payload") {
        Some(payload) => payload,
        None => {
            return None;
        },
    };
    select_entry(
        text_member(payload, "type"),
        text_member(payload, "text"),
        text_member(&doc, "timestamp"),
    )
}

/// Whether a log line is malformed: it is not blank and does not parse as
/// JSON. Such a line holds no entry and is worth a note to the operator.
pub open spec fn is_malformed(line: Seq<char>) -> bool {
    !is_blank(line) && json_document(line) is None
}

/// Tells whether a log line is malformed.
pub fn is_malformed_line(line: &str) -> (r: bool)
    ensures
        r == is_malformed(line@),
        r ==> log_entry(line@) is None,
{
    if is_blank_text(line) {
        return false;
    }
    parse_document(line).is_none()
}

/// The malformed lines among `lines`, in their order.
pub open spec fn malformed_among(lines: Seq<Seq<char>>) -> Seq<Seq<char>>
    decreases lines.len(),
{
    if lines.len() == 0 {
        Seq::empty()
    } else if is_malformed(lines.last()) {
        malformed_among(lines.drop_last()).push(lines.last())
    } else {
        malformed_among(lines.drop_last())
    }
}

/// Picks out the lines that are malformed, so that the driver can report
/// them; each of them was passed over when the lines were rendered.
pub fn malformed_lines(lines: &Vec<String>) -> (out: Vec<String>)
    ensures
        texts(out@) == malformed_among(texts(lines@)),
{
    let ghost shown = texts(lines@);
    let mut out: Vec<String> = Vec::new();
    let mut i: usize = 0;
    while i < lines.len()
        invariant
            i <= lines.len(),
            shown == texts(lines@),
            texts(out@) == malformed_among(shown.take(i as int)),
        decreases lines.len() - i,
    {
        proof {
            let cur = shown.take(i + 1);
            assert(cur.drop_last() == shown.take(i as int));
            assert(cur.last() == lines@[i as int]@);
        }
        if is_malformed_line(lines[i].as_str()) {
            let ghost before = texts(out@);
            out.push(lines[i].clone());
            assert(texts(out@) =~= before.push(lines@[i as int]@));
        }
        i += 1;
    }
    proof {
        assert(shown.take(shown.len() as int) == shown);
    }
    out
}

/// The event that a log line renders to, if it holds a reasoning entry.
pub open spec fn processed(line: Seq<char>, max: nat) -> Option<EventView> {
    match log_entry(line) {
        Some(entry) => Some(rendered(entry.timestamp, entry.text, max)),
        None => None,
    }
}

/// Turns one log line into the event to show, or none where the line holds
/// no reasoning entry.
pub fn process_log_line(line: &str, max_chars: usize) -> (event: Option<RenderedEvent>)
    ensures
        match event {
            Some(e) => processed(line@, max_chars as nat) == Some(e@),
            None => processed(line@, max_chars as nat) is None,
        },
{
    match read_log_entry(line) {
        Some(entry) => {
            let LogEntry { timestamp, text } = entry;
            Some(render_event(timestamp, text.as_str(), max_chars))
        },
        None => None,
    }
}

/// The payload shown while no event was published yet.
pub open spec fn placeholder_view() -> PayloadView {
    PayloadView {
        text: "Waiting for Codex\u{2026}"@,
        tooltip: None,
        alt: Some("initializing"@),
        class: base_classes(),
    }
}

/// The payload shown while no event was published yet.
pub fn placeholder_payload() -> (out: WaybarOutput)
    ensures
        out@ == placeholder_view(),
{
    let mut class: Vec<String> = Vec::new();
    class.push("codex".to_owned());
    class.push("agent-reasoning".to_owned());
    assert(texts(class@) =~= base_classes());
    WaybarOutput {
        text: "Waiting for Codex\u{2026}".to_owned(),
        tooltip: None,
        alt: Some("initializing".to_owned()),
        class,
    }
}

} // verus!
