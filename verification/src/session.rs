//! Priming: what a session's log shows when tracking begins, and the state
//! that tracking starts from.

use crate::chars::texts;
use crate::event::{process_log_line, processed, EventView, RenderedEvent};
use std::path::PathBuf;
use vstd::prelude::*;

verus! {

/// A session's log as it was read for priming: its length in bytes and its
/// lines, each without its line ending.
#[derive(Clone, Debug)]
pub struct SessionFile {
    pub len: u64,
    pub lines: Vec<String>,
}

/// Where a tracked session's log lies and how far it was read.
#[derive(Clone, Debug, PartialEq, Eq)]
pub struct SessionState {
    pub path: PathBuf,
    pub offset: u64,
}

/// The mathematical value of a `SessionState`.
pub struct StateView {
    pub path: PathBuf,
    pub offset: u64,
}

impl View for SessionState {
    type V = StateView;

    open spec fn view(&self) -> StateView {
        StateView { path: self.path, offset: self.offset }
    }
}

/// The view of an optional event.
pub open spec fn opt_rendered(o: Option<RenderedEvent>) -> Option<EventView> {
    match o {
        Some(e) => Some(e@),
        None => None,
    }
}

/// The event of the last line that renders to one, if any line does.
pub open spec fn last_rendered(lines: Seq<Seq<char>>, max: nat) -> Option<EventView>
    decreases lines.len(),
{
    if lines.len() == 0 {
        None
    } else {
        match processed(lines.last(), max) {
            Some(e) => Some(e),
            None => last_rendered(lines.drop_last(), max),
        }
    }
}

/// Primes a session from its log. Without a file the offset becomes 0 and
/// there is no event. With a file every line is rendered, the event of the
/// last line that renders is kept, and the offset becomes the length of the
/// file; a priming that completes ends there in both modes.
pub fn prime_session(
    file: Option<&SessionFile>,
    offset: &mut u64,
    max_chars: usize,
    start_at_beginning: bool,
) -> (event: Option<RenderedEvent>)
    ensures
        match file {
            None => event is None && *final(offset) == 0,
            Some(f) => {
                &&& opt_rendered(event) == last_rendered(texts(f.lines@), max_chars as nat)
                &&& *final(offset) == f.len
            },
        },
{
    let f = match file {
        Some(f) => f,
        None => {
            *offset = 0;
            return None;
        },
    };
    if start_at_beginning {
        *offset = 0;
    } else {
        *offset = f.len;
    }
    let ghost shown = texts(f.lines@);
    let mut last_event: Option<RenderedEvent> = None;
    let mut i: usize = 0;
    while i < f.lines.len()
        invariant
            i <= f.lines.len(),
            shown == texts(f.lines@),
            opt_rendered(last_event) == last_rendered(shown.take(i as int), max_chars as nat),
        decreases f.lines.len() - i,
    {
        proof {
            let cur = shown.take(i + 1);
            assert(cur.drop_last() == shown.take(i as int));
            assert(cur.last() == f.lines@[i as int]@);
        }
        match process_log_line(f.lines[i].as_str(), max_chars) {
            Some(event) => {
                last_event = Some(event);
            },
            None => {},
        }
        i += 1;
    }
    proof {
        assert(shown.take(shown.len() as int) == shown);
    }
    *offset = f.len;
    last_event
}

/// The state and the first event of a session that is about to be tracked.
/// Without a resolved path the session cannot be tracked. With one it is
/// primed from the file found there, if any.
pub fn initialize_session_state(
    path: Option<PathBuf>,
    file: Option<&SessionFile>,
    max_chars: usize,
    start_at_beginning: bool,
) -> (out: Option<(SessionState, Option<RenderedEvent>)>)
    ensures
        match path {
            None => out is None,
            Some(p) => out matches Some((state, event)) && state.path == p && match file {
                None => event is None && state.offset == 0,
                Some(f) => {
                    &&& opt_rendered(event) == last_rendered(
                        texts(f.lines@),
                        max_chars as nat,
                    )
                    &&& state.offset == f.len
                },
            },
        },
{
    match path {
        None => None,
        Some(path) => {
            let mut offset: u64 = 0;
            let event = prime_session(file, &mut offset, max_chars, start_at_beginning);
            Some((SessionState { path, offset }, event))
        },
    }
}

} // verus!
