//! The coordinator of several tailed sessions: the table of tracked
//! sessions, what one pass does with what was read for a session, and the
//! bootstrap that primes the sessions known at start.

use crate::arbitration::{must_emit, newer_of, opt_event, publish_winner, select_newer_event};
use crate::chars::texts;
use crate::discovery::contains_text;
use crate::event::{
    copy_event, malformed_among, malformed_lines, process_log_line, processed, same_text,
    EventView, RenderedEvent, SessionEvent, SessionEventView, WaybarOutput,
};
use crate::session::{opt_rendered, SessionState, StateView};
use crate::tail::{offset_after_read, read_lines, read_new_lines, FileRead, ReadError};
use std::path::PathBuf;
use vstd::prelude::*;

verus! {

/// A session that is being tailed.
#[derive(Clone, Debug)]
pub struct TrackedSession {
    pub session_id: String,
    pub state: SessionState,
}

/// Whether no two entries are of the same session.
pub open spec fn distinct_ids(entries: Seq<TrackedSession>) -> bool {
    forall|i: int, j: int|
        0 <= i < j < entries.len() ==> entries[i].session_id@ != entries[j].session_id@
}

/// Whether one of the entries is of the session `id`.
pub open spec fn has_entry(entries: Seq<TrackedSession>, id: Seq<char>) -> bool {
    exists|i: int| 0 <= i < entries.len() && (#[trigger] entries[i]).session_id@ == id
}

/// The index of the entry of the session `id`.
pub open spec fn entry_index(entries: Seq<TrackedSession>, id: Seq<char>) -> int {
    choose|i: int| 0 <= i < entries.len() && (#[trigger] entries[i]).session_id@ == id
}

/// The map from session identifiers to states that the entries stand for.
pub open spec fn table_of(entries: Seq<TrackedSession>) -> Map<Seq<char>, StateView> {
    Map::new(
        |id: Seq<char>| has_entry(entries, id),
        |id: Seq<char>| entries[entry_index(entries, id)].state@,
    )
}

/// Each entry is what the map holds for its session.
pub proof fn lemma_table_entry(entries: Seq<TrackedSession>, i: int)
    requires
        distinct_ids(entries),
        0 <= i < entries.len(),
    ensures
        table_of(entries).contains_key(entries[i].session_id@),
        table_of(entries)[entries[i].session_id@] == entries[i].state@,
        entry_index(entries, entries[i].session_id@) == i,
{
    let id = entries[i].session_id@;
    assert(has_entry(entries, id));
    let k = entry_index(entries, id);
    if k < i {
        assert(entries[k].session_id@ != entries[i].session_id@);
    }
    if i < k {
        assert(entries[i].session_id@ != entries[k].session_id@);
    }
}

/// The tracked sessions, at most one entry for each session.
#[derive(Debug)]
pub struct SessionTable {
    entries: Vec<TrackedSession>,
}

impl View for SessionTable {
    type V = Map<Seq<char>, StateView>;

    closed spec fn view(&self) -> Map<Seq<char>, StateView> {
        table_of(self.entries@)
    }
}

/// The index of the entry of the session, if one of the entries is of it.
fn position_in(entries: &Vec<TrackedSession>, session_id: &str) -> (found: Option<usize>)
    ensures
        match found {
            Some(i) => i < entries@.len() && entries@[i as int].session_id@ == session_id@,
            None => !has_entry(entries@, session_id@),
        },
{
    let mut i: usize = 0;
    while i < entries.len()
        invariant
            i <= entries.len(),
            forall|j: int| 0 <= j < i ==> entries@[j].session_id@ != session_id@,
        decreases entries.len() - i,
    {
        if same_text(entries[i].session_id.as_str(), session_id) {
            return Some(i);
        }
        i += 1;
    }
    None
}

impl SessionTable {
    /// The invariant of the table: no session has two entries.
    #[verifier::type_invariant]
    spec fn wf(self) -> bool {
        distinct_ids(self.entries@)
    }

    /// A table that tracks no session.
    pub fn new() -> (table: SessionTable)
        ensures
            table@ == Map::<Seq<char>, StateView>::empty(),
    {
        let table = SessionTable { entries: Vec::new() };
        assert(table@ =~= Map::<Seq<char>, StateView>::empty());
        table
    }

    /// The number of tracked sessions.
    pub fn len(&self) -> (n: usize)
        ensures
            self@.dom().finite(),
            n == self@.dom().len(),
    {
        proof {
            use_type_invariant(&*self);
            lemma_table_size(self.entries@);
        }
        self.entries.len()
    }

    /// Whether the session is tracked.
    pub fn contains(&self, session_id: &str) -> (r: bool)
        ensures
            r == self@.contains_key(session_id@),
    {
        match position_in(&self.entries, session_id) {
            Some(i) => {
                assert(has_entry(self.entries@, session_id@));
                true
            },
            None => false,
        }
    }

    /// The state of a tracked session.
    pub fn get(&self, session_id: &str) -> (state: Option<&SessionState>)
        ensures
            match state {
                Some(s) => self@.contains_key(session_id@) && self@[session_id@] == s@,
                None => !self@.contains_key(session_id@),
            },
    {
        match position_in(&self.entries, session_id) {
            Some(i) => {
                proof {
                    use_type_invariant(&*self);
                    lemma_table_entry(self.entries@, i as int);
                }
                Some(&self.entries[i].state)
            },
            None => None,
        }
    }

    /// Tracks the session with the given state, in place of the state it
    /// had if it was tracked before.
    pub fn insert(&mut self, session_id: String, state: SessionState)
        ensures
            final(self)@ == old(self)@.insert(session_id@, state@),
    {
        proof {
            use_type_invariant(&*self);
        }
        let mut entries: Vec<TrackedSession> = Vec::new();
        std::mem::swap(&mut entries, &mut self.entries);
        let ghost before = entries@;
        let ghost id = session_id@;
        match position_in(&entries, session_id.as_str()) {
            Some(i) => {
                entries.set(i, TrackedSession { session_id, state });
                proof {
                    let after = entries@;
                    assert(distinct_ids(after)) by {
                        assert forall|a: int, b: int|
                            0 <= a < b < after.len() implies after[a].session_id@
                            != after[b].session_id@ by {
                            assert(after[a].session_id@ == before[a].session_id@);
                            assert(after[b].session_id@ == before[b].session_id@);
                        }
                    }
                    lemma_same_ids_update(before, after, i as int);
                }
            },
            None => {
                entries.push(TrackedSession { session_id, state });
                proof {
                    let after = entries@;
                    assert(distinct_ids(after)) by {
                        assert forall|a: int, b: int|
                            0 <= a < b < after.len() implies after[a].session_id@
                            != after[b].session_id@ by {
                            if b == before.len() {
                                assert(before[a].session_id@ != id);
                            }
                        }
                    }
                    assert(after.drop_last() =~= before);
                    lemma_push_entry(before, after);
                }
            },
        }
        self.entries = entries;
    }

    /// Stops tracking the session, if it was tracked.
    pub fn remove(&mut self, session_id: &str)
        ensures
            final(self)@ == old(self)@.remove(session_id@),
    {
        proof {
            use_type_invariant(&*self);
        }
        let mut entries: Vec<TrackedSession> = Vec::new();
        std::mem::swap(&mut entries, &mut self.entries);
        match position_in(&entries, session_id) {
            Some(i) => {
                proof {
                    lemma_remove_entry(entries@, i as int);
                }
                entries.remove(i);
            },
            None => {
                assert(table_of(entries@).remove(session_id@) =~= table_of(entries@));
            },
        }
        self.entries = entries;
    }

    /// Stops tracking every session that is not among `wanted`.
    pub fn retain(&mut self, wanted: &Vec<String>)
        ensures
            final(self)@ == old(self)@.restrict(texts(wanted@).to_set()),
    {
        proof {
            use_type_invariant(&*self);
        }
        let mut entries: Vec<TrackedSession> = Vec::new();
        std::mem::swap(&mut entries, &mut self.entries);
        let ghost keep = texts(wanted@).to_set();
        let ghost before = table_of(entries@);
        let mut i: usize = entries.len();
        while i > 0
            invariant
                distinct_ids(entries@),
                i <= entries@.len(),
                keep == texts(wanted@).to_set(),
                forall|k: Seq<char>| #[trigger]
                    table_of(entries@).contains_key(k) ==> before.contains_key(k) && table_of(
                        entries@,
                    )[k] == before[k],
                forall|k: Seq<char>|
                    before.contains_key(k) && keep.contains(k) ==> #[trigger] table_of(
                        entries@,
                    ).contains_key(k),
                forall|j: int|
                    i <= j < entries@.len() ==> keep.contains((#[trigger] entries@[j]).session_id@),
            decreases i,
        {
            i -= 1;
            if !contains_text(wanted, entries[i].session_id.as_str()) {
                proof {
                    lemma_remove_entry(entries@, i as int);
                }
                entries.remove(i);
            }
        }
        proof {
            let goal = before.restrict(keep);
            assert forall|k: Seq<char>| table_of(entries@).contains_key(k) implies keep.contains(
                k,
            ) by {
                let j = entry_index(entries@, k);
                assert(keep.contains(entries@[j].session_id@));
            }
            assert(table_of(entries@) =~= goal);
        }
        self.entries = entries;
    }
}

/// A table with distinct sessions holds as many sessions as entries.
proof fn lemma_table_size(entries: Seq<TrackedSession>)
    requires
        distinct_ids(entries),
    ensures
        table_of(entries).dom().finite(),
        table_of(entries).dom().len() == entries.len(),
    decreases entries.len(),
{
    if entries.len() == 0 {
        assert(table_of(entries).dom() =~= Set::<Seq<char>>::empty());
    } else {
        let rest = entries.drop_last();
        let last = entries.last();
        lemma_table_size(rest);
        assert(table_of(entries).dom() =~= table_of(rest).dom().insert(last.session_id@)) by {
            assert forall|k: Seq<char>|
                table_of(entries).dom().contains(k) <==> table_of(rest).dom().insert(
                    last.session_id@,
                ).contains(k) by {
                if has_entry(entries, k) {
                    let i = entry_index(entries, k);
                    if i < rest.len() {
                        assert(rest[i].session_id@ == k);
                    }
                }
                if has_entry(rest, k) {
                    let i = entry_index(rest, k);
                    assert(entries[i].session_id@ == k);
                }
                if k == last.session_id@ {
                    assert(entries[entries.len() - 1].session_id@ == k);
                }
            }
        }
        assert(!table_of(rest).dom().contains(last.session_id@)) by {
            if has_entry(rest, last.session_id@) {
                let i = entry_index(rest, last.session_id@);
                assert(entries[i].session_id@ != entries[entries.len() - 1].session_id@);
            }
        }
    }
}

/// Replacing the state of one entry updates the map at its session.
proof fn lemma_same_ids_update(before: Seq<TrackedSession>, after: Seq<TrackedSession>, i: int)
    requires
        distinct_ids(before),
        distinct_ids(after),
        0 <= i < before.len(),
        after.len() == before.len(),
        after[i].session_id@ == before[i].session_id@,
        forall|j: int| 0 <= j < before.len() && j != i ==> after[j] == before[j],
    ensures
        table_of(after) == table_of(before).insert(after[i].session_id@, after[i].state@),
{
    let goal = table_of(before).insert(after[i].session_id@, after[i].state@);
    assert forall|k: Seq<char>| table_of(after).contains_key(k) <==> goal.contains_key(k) by {
        if has_entry(after, k) {
            let j = entry_index(after, k);
            assert(before[j].session_id@ == k);
        }
        if has_entry(before, k) {
            let j = entry_index(before, k);
            assert(after[j].session_id@ == k);
        }
        if k == after[i].session_id@ {
            assert(after[i].session_id@ == k);
        }
    }
    assert forall|k: Seq<char>| table_of(after).contains_key(k) implies table_of(after)[k]
        == goal[k] by {
        let j = entry_index(after, k);
        lemma_table_entry(after, j);
        lemma_table_entry(before, j);
    }
    assert(table_of(after) =~= goal);
}

/// Appending an entry of a new session inserts it into the map.
proof fn lemma_push_entry(before: Seq<TrackedSession>, after: Seq<TrackedSession>)
    requires
        distinct_ids(after),
        after.len() == before.len() + 1,
        after.drop_last() == before,
    ensures
        table_of(after) == table_of(before).insert(after.last().session_id@, after.last().state@),
{
    let last = after.last();
    let goal = table_of(before).insert(last.session_id@, last.state@);
    assert(distinct_ids(before)) by {
        assert forall|a: int, b: int| 0 <= a < b < before.len() implies before[a].session_id@
            != before[b].session_id@ by {
            assert(before[a] == after[a]);
            assert(before[b] == after[b]);
        }
    }
    assert forall|k: Seq<char>| table_of(after).contains_key(k) <==> goal.contains_key(k) by {
        if has_entry(after, k) {
            let j = entry_index(after, k);
            if j < before.len() {
                assert(before[j].session_id@ == k);
            }
        }
        if has_entry(before, k) {
            let j = entry_index(before, k);
            assert(after[j].session_id@ == k);
        }
        if k == last.session_id@ {
            assert(after[after.len() - 1].session_id@ == k);
        }
    }
    assert forall|k: Seq<char>| table_of(after).contains_key(k) implies table_of(after)[k]
        == goal[k] by {
        let j = entry_index(after, k);
        lemma_table_entry(after, j);
        if j < before.len() {
            assert(before[j] == after[j]);
            lemma_table_entry(before, j);
        }
    }
    assert(table_of(after) =~= goal);
}

/// Taking an entry out removes its session from the map.
proof fn lemma_remove_entry(before: Seq<TrackedSession>, i: int)
    requires
        distinct_ids(before),
        0 <= i < before.len(),
    ensures
        distinct_ids(before.remove(i)),
        table_of(before.remove(i)) == table_of(before).remove(before[i].session_id@),
{
    let after = before.remove(i);
    let id = before[i].session_id@;
    let goal = table_of(before).remove(id);
    assert forall|a: int| 0 <= a < after.len() implies after[a] == before[if a < i {
        a
    } else {
        a + 1
    }] by {}
    assert(distinct_ids(after)) by {
        assert forall|a: int, b: int| 0 <= a < b < after.len() implies after[a].session_id@
            != after[b].session_id@ by {
            let x = if a < i { a } else { a + 1 };
            let y = if b < i { b } else { b + 1 };
            assert(before[x].session_id@ != before[y].session_id@);
        }
    }
    assert forall|k: Seq<char>| table_of(after).contains_key(k) <==> goal.contains_key(k) by {
        if has_entry(after, k) {
            let j = entry_index(after, k);
            let x = if j < i { j } else { j + 1 };
            assert(before[x].session_id@ == k);
            if k == id {
                lemma_table_entry(before, x);
                lemma_table_entry(before, i);
            }
        }
        if has_entry(before, k) && k != id {
            let j = entry_index(before, k);
            let x = if j < i { j } else { j - 1 };
            assert(after[x].session_id@ == k);
        }
    }
    assert forall|k: Seq<char>| table_of(after).contains_key(k) implies table_of(after)[k]
        == goal[k] by {
        let j = entry_index(after, k);
        let x = if j < i { j } else { j + 1 };
        lemma_table_entry(after, j);
        lemma_table_entry(before, x);
    }
    assert(table_of(after) =~= goal);
}

/// What the driver has to do for a session in a pass.
#[derive(Clone, Debug, PartialEq, Eq)]
pub enum SessionAction {
    /// The session is not tailed: resolve its log and prime it.
    Prime,
    /// The session is tailed: read its log at `path`, which was read up to
    /// `offset`.
    Tail { path: PathBuf, offset: u64 },
}

/// What a session needs in this pass: priming where it is not in the
/// table, else a read of its log.
pub fn session_action(table: &SessionTable, session_id: &str) -> (action: SessionAction)
    ensures
        match action {
            SessionAction::Prime => !table@.contains_key(session_id@),
            SessionAction::Tail { path, offset } => {
                &&& table@.contains_key(session_id@)
                &&& table@[session_id@] == (StateView { path, offset })
            },
        },
{
    match table.get(session_id) {
        Some(state) => SessionAction::Tail { path: state.path.clone(), offset: state.offset },
        None => SessionAction::Prime,
    }
}

/// The outcome of priming a session: nothing where its log was not found,
/// else the state to track it with and the event that its log showed.
pub open spec fn init_view(init: Option<(SessionState, Option<RenderedEvent>)>) -> Option<
    (StateView, Option<EventView>),
> {
    match init {
        Some((state, event)) => Some((state@, opt_rendered(event))),
        None => None,
    }
}

/// The table after a session was primed: the session is tracked with its
/// new state, or no longer tracked where its log was not found.
pub open spec fn primed_table(
    table: Map<Seq<char>, StateView>,
    id: Seq<char>,
    init: Option<(StateView, Option<EventView>)>,
) -> Map<Seq<char>, StateView> {
    match init {
        Some((state, _)) => table.insert(id, state),
        None => table.remove(id),
    }
}

/// The winner of the pass after a session was primed: the event that
/// priming showed competes with the winner so far.
pub open spec fn primed_newest(
    newest: Option<SessionEventView>,
    id: Seq<char>,
    init: Option<(StateView, Option<EventView>)>,
) -> Option<SessionEventView> {
    match init {
        Some((_, Some(event))) => Some(
            newer_of(newest, SessionEventView { session_id: id, event }),
        ),
        _ => newest,
    }
}

/// Takes in the outcome of priming a session. A session whose log was found
/// is tracked from the primed state on, and its event, if it showed one,
/// competes with the winner of the pass so far. A session whose log was not
/// found is not tracked.
pub fn track_primed(
    table: &mut SessionTable,
    newest: Option<SessionEvent>,
    session_id: &str,
    init: Option<(SessionState, Option<RenderedEvent>)>,
) -> (out: Option<SessionEvent>)
    ensures
        final(table)@ == primed_table(old(table)@, session_id@, init_view(init)),
        opt_event(out) == primed_newest(opt_event(newest), session_id@, init_view(init)),
{
    match init {
        Some((state, event)) => {
            table.insert(session_id.to_owned(), state);
            match event {
                Some(event) => select_newer_event(
                    newest,
                    SessionEvent { session_id: session_id.to_owned(), event },
                ),
                None => newest,
            }
        },
        None => {
            table.remove(session_id);
            newest
        },
    }
}

/// The winner of a pass after the lines of one session were rendered: each
/// line that renders to an event competes, in the order of the lines, with
/// the winner so far.
pub open spec fn freshest(
    newest: Option<SessionEventView>,
    id: Seq<char>,
    lines: Seq<Seq<char>>,
    max: nat,
) -> Option<SessionEventView>
    decreases lines.len(),
{
    if lines.len() == 0 {
        newest
    } else {
        let before = freshest(newest, id, lines.drop_last(), max);
        match processed(lines.last(), max) {
            Some(event) => Some(newer_of(before, SessionEventView { session_id: id, event })),
            None => before,
        }
    }
}

/// Lets the events of the new lines of one session compete with the winner
/// of the pass so far.
pub fn select_among_lines(
    newest: Option<SessionEvent>,
    session_id: &str,
    lines: &Vec<String>,
    max_chars: usize,
) -> (out: Option<SessionEvent>)
    ensures
        opt_event(out) == freshest(
            opt_event(newest),
            session_id@,
            texts(lines@),
            max_chars as nat,
        ),
{
    let ghost shown = texts(lines@);
    let ghost start = opt_event(newest);
    let mut newest = newest;
    let mut i: usize = 0;
    while i < lines.len()
        invariant
            i <= lines.len(),
            shown == texts(lines@),
            opt_event(newest) == freshest(
                start,
                session_id@,
                shown.take(i as int),
                max_chars as nat,
            ),
        decreases lines.len() - i,
    {
        proof {
            let cur = shown.take(i + 1);
            assert(cur.drop_last() == shown.take(i as int));
            assert(cur.last() == lines@[i as int]@);
        }
        match process_log_line(lines[i].as_str(), max_chars) {
            Some(event) => {
                newest = select_newer_event(
                    newest,
                    SessionEvent { session_id: session_id.to_owned(), event },
                );
            },
            None => {},
        }
        i += 1;
    }
    proof {
        assert(shown.take(shown.len() as int) == shown);
    }
    newest
}

/// What a tail step leaves: the winner of the pass so far, whether the
/// session has to be primed anew, whether the read failed and is to be
/// reported, and the new lines that are malformed and are to be reported.
#[derive(Debug)]
pub struct TailStep {
    pub newest: Option<SessionEvent>,
    pub reprime: bool,
    pub failed: bool,
    pub malformed: Vec<String>,
}

/// The table after the log of a tracked session was read: the session's
/// offset moves to where the read ended.
pub open spec fn tailed_table(
    table: Map<Seq<char>, StateView>,
    id: Seq<char>,
    read: FileRead,
) -> Map<Seq<char>, StateView> {
    match read {
        FileRead::Content(bytes) if table.contains_key(id) => table.insert(
            id,
            StateView {
                path: table[id].path,
                offset: offset_after_read(bytes@, table[id].offset as int) as u64,
            },
        ),
        _ => table,
    }
}

/// The winner of the pass after the log of a tracked session was read: the
/// events of the new lines compete with the winner so far; a read that
/// failed changes nothing.
pub open spec fn tailed_newest(
    table: Map<Seq<char>, StateView>,
    newest: Option<SessionEventView>,
    id: Seq<char>,
    read: FileRead,
    max: nat,
) -> Option<SessionEventView> {
    match read {
        FileRead::Content(bytes) if table.contains_key(id) => match read_lines(
            bytes@,
            table[id].offset as int,
        ) {
            Ok(lines) => freshest(newest, id, lines, max),
            Err(_) => newest,
        },
        _ => newest,
    }
}

/// Whether a session has to be primed after its log was read: it is not
/// tracked, or its log is missing.
pub open spec fn needs_priming(
    table: Map<Seq<char>, StateView>,
    id: Seq<char>,
    read: FileRead,
) -> bool {
    !table.contains_key(id) || read is Missing
}

/// Whether the read of a tracked session's log failed for another reason
/// than a missing file: the file could not be read, or a new line of it is
/// not valid UTF-8.
pub open spec fn read_failed(
    table: Map<Seq<char>, StateView>,
    id: Seq<char>,
    read: FileRead,
) -> bool {
    table.contains_key(id) && match read {
        FileRead::Missing => false,
        FileRead::Failed => true,
        FileRead::Content(bytes) => read_lines(bytes@, table[id].offset as int) is Err,
    }
}

/// The new lines of a tracked session's log that are malformed; none where
/// the read gave no lines.
pub open spec fn tailed_malformed(
    table: Map<Seq<char>, StateView>,
    id: Seq<char>,
    read: FileRead,
) -> Seq<Seq<char>> {
    match read {
        FileRead::Content(bytes) if table.contains_key(id) => match read_lines(
            bytes@,
            table[id].offset as int,
        ) {
            Ok(lines) => malformed_among(lines),
            Err(_) => Seq::empty(),
        },
        _ => Seq::empty(),
    }
}

/// Takes in what reading the log of a tracked session gave. New lines are
/// rendered and their events compete with the winner of the pass so far;
/// the session's offset moves to where the read ended. A missing log asks
/// for priming; a log that could not be read leaves everything as it was,
/// and a line that is not valid UTF-8 leaves the offset before it.
pub fn track_tail(
    table: &mut SessionTable,
    newest: Option<SessionEvent>,
    session_id: &str,
    read: &FileRead,
    max_chars: usize,
) -> (step: TailStep)
    ensures
        final(table)@ == tailed_table(old(table)@, session_id@, *read),
        opt_event(step.newest) == tailed_newest(
            old(table)@,
            opt_event(newest),
            session_id@,
            *read,
            max_chars as nat,
        ),
        step.reprime == needs_priming(old(table)@, session_id@, *read),
        step.failed == read_failed(old(table)@, session_id@, *read),
        texts(step.malformed@) == tailed_malformed(old(table)@, session_id@, *read),
{
    let (path, start) = match table.get(session_id) {
        Some(state) => (state.path.clone(), state.offset),
        None => {
            return TailStep { newest, reprime: true, failed: false, malformed: Vec::new() };
        },
    };
    let mut offset = start;
    match read_new_lines(read, &mut offset) {
        Ok(lines) => {
            table.insert(session_id.to_owned(), SessionState { path, offset });
            let newest = select_among_lines(newest, session_id, &lines, max_chars);
            let malformed = malformed_lines(&lines);
            TailStep { newest, reprime: false, failed: false, malformed }
        },
        Err(ReadError::NotFound) => TailStep {
            newest,
            reprime: true,
            failed: false,
            malformed: Vec::new(),
        },
        Err(ReadError::Other) => {
            match read {
                FileRead::Content(_) => {
                    table.insert(session_id.to_owned(), SessionState { path, offset });
                },
                _ => {},
            }
            TailStep { newest, reprime: false, failed: true, malformed: Vec::new() }
        },
    }
}

/// A session with the outcome of priming it: nothing where its log was not
/// found, else the state to track it with and the event that its log
/// showed.
#[derive(Clone, Debug)]
pub struct Priming {
    pub session_id: String,
    pub outcome: Option<(SessionState, Option<RenderedEvent>)>,
}

/// The mathematical value of a `Priming`.
pub struct PrimingView {
    pub session_id: Seq<char>,
    pub outcome: Option<(StateView, Option<EventView>)>,
}

impl View for Priming {
    type V = PrimingView;

    open spec fn view(&self) -> PrimingView {
        PrimingView { session_id: self.session_id@, outcome: init_view(self.outcome) }
    }
}

/// The values of a list of primings.
pub open spec fn priming_views(primings: Seq<Priming>) -> Seq<PrimingView> {
    Seq::new(primings.len(), |i: int| primings[i]@)
}

/// The table and the winner after the sessions known at start were primed,
/// one after the other: a session that is tracked already is passed over,
/// each other one is taken in with the outcome of its priming.
pub open spec fn bootstrapped(
    table: Map<Seq<char>, StateView>,
    primings: Seq<PrimingView>,
) -> (Map<Seq<char>, StateView>, Option<SessionEventView>)
    decreases primings.len(),
{
    if primings.len() == 0 {
        (table, None)
    } else {
        let (t, n) = bootstrapped(table, primings.drop_last());
        let p = primings.last();
        if t.contains_key(p.session_id) {
            (t, n)
        } else {
            (primed_table(t, p.session_id, p.outcome), primed_newest(n, p.session_id, p.outcome))
        }
    }
}

/// A copy of the outcome of priming.
pub fn copy_init(init: &Option<(SessionState, Option<RenderedEvent>)>) -> (out: Option<
    (SessionState, Option<RenderedEvent>),
>)
    ensures
        init_view(out) == init_view(*init),
{
    match init {
        Some((state, event)) => {
            let event = match event {
                Some(e) => Some(copy_event(e)),
                None => None,
            };
            Some((SessionState { path: state.path.clone(), offset: state.offset }, event))
        },
        None => None,
    }
}

/// Takes in the sessions known at start, each with the outcome of priming
/// it. Each session that is not tracked yet is taken in, in order; the
/// freshest event that priming showed is published where it differs from
/// what was emitted last, and its payload is handed back for the cache sink.
pub fn bootstrap_sessions(
    table: &mut SessionTable,
    last_emitted: &mut Option<SessionEvent>,
    primings: &Vec<Priming>,
) -> (out: Option<WaybarOutput>)
    ensures
        final(table)@ == bootstrapped(old(table)@, priming_views(primings@)).0,
        match bootstrapped(old(table)@, priming_views(primings@)).1 {
            None => out is None && *final(last_emitted) == *old(last_emitted),
            Some(winner) => {
                &&& opt_event(*final(last_emitted)) == Some(winner)
                &&& match out {
                    Some(payload) => {
                        &&& must_emit(opt_event(*old(last_emitted)), winner)
                        &&& payload@ == winner.event.payload
                    },
                    None => {
                        &&& !must_emit(opt_event(*old(last_emitted)), winner)
                        &&& *final(last_emitted) == *old(last_emitted)
                    },
                }
            },
        },
{
    let ghost views = priming_views(primings@);
    let mut newest: Option<SessionEvent> = None;
    let mut i: usize = 0;
    while i < primings.len()
        invariant
            i <= primings.len(),
            views == priming_views(primings@),
            (table@, opt_event(newest)) == bootstrapped(old(table)@, views.take(i as int)),
        decreases primings.len() - i,
    {
        proof {
            assert(views.take(i + 1).drop_last() == views.take(i as int));
            assert(views.take(i + 1).last() == primings@[i as int]@);
        }
        let session_id = primings[i].session_id.as_str();
        if !table.contains(session_id) {
            let init = copy_init(&primings[i].outcome);
            newest = track_primed(table, newest, session_id, init);
        }
        i += 1;
    }
    proof {
        assert(views.take(views.len() as int) == views);
    }
    publish_winner(last_emitted, newest)
}

/// A pass in which no new line renders to an event leaves the winner as it
/// was; after such passes alone there is no winner, and nothing is
/// published.
pub proof fn lemma_no_event_no_winner(
    newest: Option<SessionEventView>,
    id: Seq<char>,
    lines: Seq<Seq<char>>,
    max: nat,
)
    requires
        forall|i: int| 0 <= i < lines.len() ==> processed(#[trigger] lines[i], max) is None,
    ensures
        freshest(newest, id, lines, max) == newest,
    decreases lines.len(),
{
    if lines.len() > 0 {
        assert forall|i: int| 0 <= i < lines.drop_last().len() implies processed(
            #[trigger] lines.drop_last()[i],
            max,
        ) is None by {
            assert(lines.drop_last()[i] == lines[i]);
        }
        lemma_no_event_no_winner(newest, id, lines.drop_last(), max);
        assert(processed(lines[lines.len() - 1], max) is None);
    }
}

} // verus!
