//! Freshness arbitration and the emission decision: which of two events is
//! kept, and whether the winner of a pass has to be published.

use crate::chars::chars_of;
use crate::event::{
    copy_payload, same_opt_text, same_payload, same_text, EventView, RenderedEvent,
    SessionEvent, SessionEventView, WaybarOutput,
};
use vstd::prelude::*;

verus! {

/// Whether `a` comes before `b` in lexicographic order by code point, which
/// is the order of the strings' UTF-8 bytes.
pub open spec fn text_before(a: Seq<char>, b: Seq<char>) -> bool
    decreases a.len(),
{
    if b.len() == 0 {
        false
    } else if a.len() == 0 {
        true
    } else if a[0] != b[0] {
        a[0] < b[0]
    } else {
        text_before(a.drop_first(), b.drop_first())
    }
}

/// Whether the timestamp `candidate` is newer than `current`. A missing
/// timestamp is older than any timestamp and not newer than a missing one.
pub open spec fn newer_timestamp(
    candidate: Option<Seq<char>>,
    current: Option<Seq<char>>,
) -> bool {
    match (candidate, current) {
        (Some(c), Some(k)) => text_before(k, c),
        (Some(_), None) => true,
        _ => false,
    }
}

/// No text comes before itself.
pub proof fn lemma_text_before_irreflexive(a: Seq<char>)
    ensures
        !text_before(a, a),
    decreases a.len(),
{
    if a.len() > 0 {
        lemma_text_before_irreflexive(a.drop_first());
    }
}

/// Of two texts at most one comes before the other.
pub proof fn lemma_text_before_asymmetric(a: Seq<char>, b: Seq<char>)
    ensures
        !(text_before(a, b) && text_before(b, a)),
    decreases a.len(),
{
    if a.len() > 0 && b.len() > 0 && a[0] == b[0] {
        lemma_text_before_asymmetric(a.drop_first(), b.drop_first());
    }
}

/// Two different texts are ordered one way or the other.
pub proof fn lemma_text_before_total(a: Seq<char>, b: Seq<char>)
    ensures
        a == b || text_before(a, b) || text_before(b, a),
    decreases a.len(),
{
    if a.len() > 0 && b.len() > 0 && a[0] == b[0] {
        lemma_text_before_total(a.drop_first(), b.drop_first());
        if a.drop_first() == b.drop_first() {
            assert(a =~= seq![a[0]] + a.drop_first());
            assert(b =~= seq![b[0]] + b.drop_first());
        }
    } else if a.len() == 0 && b.len() == 0 {
        assert(a =~= b);
    }
}

/// Whether `a` comes before `b` in lexicographic order.
pub fn text_precedes(a: &str, b: &str) -> (r: bool)
    ensures
        r == text_before(a@, b@),
{
    let x = chars_of(a);
    let y = chars_of(b);
    let mut i: usize = 0;
    proof {
        assert(x@.skip(0) == x@);
        assert(y@.skip(0) == y@);
    }
    while i < x.len() && i < y.len()
        invariant
            i <= x.len(),
            i <= y.len(),
            x@ == a@,
            y@ == b@,
            text_before(x@, y@) == text_before(x@.skip(i as int), y@.skip(i as int)),
        decreases x.len() - i,
    {
        proof {
            assert(x@.skip(i as int)[0] == x@[i as int]);
            assert(y@.skip(i as int)[0] == y@[i as int]);
            assert(x@.skip(i as int).drop_first() == x@.skip(i + 1));
            assert(y@.skip(i as int).drop_first() == y@.skip(i + 1));
        }
        if x[i] != y[i] {
            return x[i] < y[i];
        }
        i += 1;
    }
    i < y.len()
}

/// Whether the timestamp `candidate` is newer than `current`: timestamps
/// are compared as texts, and a missing one is older than any other.
pub fn is_newer_timestamp(candidate: Option<&String>, current: Option<&String>) -> (r: bool)
    ensures
        r == newer_timestamp(
            match candidate {
                Some(c) => Some(c@),
                None => None,
            },
            match current {
                Some(k) => Some(k@),
                None => None,
            },
        ),
{
    match (candidate, current) {
        (Some(c), Some(k)) => text_precedes(k.as_str(), c.as_str()),
        (Some(_), None) => true,
        _ => false,
    }
}

/// Whether `candidate` takes the place of `current` as the winner of a
/// pass: its timestamp is newer, or the timestamps are equal and the
/// payloads differ.
pub open spec fn replaces(current: EventView, candidate: EventView) -> bool {
    newer_timestamp(candidate.timestamp, current.timestamp) || (candidate.timestamp
        == current.timestamp && candidate.payload != current.payload)
}

/// The winner among the current winner, if any, and a candidate.
pub open spec fn newer_of(
    current: Option<SessionEventView>,
    candidate: SessionEventView,
) -> SessionEventView {
    match current {
        None => candidate,
        Some(existing) => if replaces(existing.event, candidate.event) {
            candidate
        } else {
            existing
        },
    }
}

/// Whether `candidate` takes the place of `current`.
pub fn event_replaces(current: &RenderedEvent, candidate: &RenderedEvent) -> (r: bool)
    ensures
        r == replaces(current@, candidate@),
{
    is_newer_timestamp(candidate.timestamp.as_ref(), current.timestamp.as_ref()) || (
    same_opt_text(&candidate.timestamp, &current.timestamp) && !same_payload(
        &candidate.payload,
        &current.payload,
    ))
}

/// Keeps the fresher of the current winner and a candidate. The candidate
/// wins where there is no winner yet, where its timestamp is newer, and
/// where the timestamps are equal and the payloads differ; otherwise the
/// current winner stays.
pub fn select_newer_event(current: Option<SessionEvent>, candidate: SessionEvent) -> (out: Option<
    SessionEvent,
>)
    ensures
        out == match current {
            None => Some(candidate),
            Some(existing) => if replaces(existing.event@, candidate.event@) {
                Some(candidate)
            } else {
                Some(existing)
            },
        },
        out matches Some(winner) && winner@ == newer_of(
            match current {
                Some(existing) => Some(existing@),
                None => None,
            },
            candidate@,
        ),
{
    match current {
        None => Some(candidate),
        Some(existing) => {
            if event_replaces(&existing.event, &candidate.event) {
                Some(candidate)
            } else {
                Some(existing)
            }
        },
    }
}

/// Of two candidates with the same timestamp and different payloads, the
/// one that is processed later wins, in whichever order they come.
pub proof fn lemma_tie_goes_to_later(first: SessionEventView, second: SessionEventView)
    requires
        first.event.timestamp == second.event.timestamp,
        first.event.payload != second.event.payload,
    ensures
        newer_of(Some(first), second) == second,
        newer_of(Some(second), first) == first,
{
}

/// A candidate with a newer timestamp always wins, and one with an older
/// timestamp never does.
pub proof fn lemma_newer_timestamp_wins(current: SessionEventView, candidate: SessionEventView)
    ensures
        newer_timestamp(candidate.event.timestamp, current.event.timestamp) ==> newer_of(
            Some(current),
            candidate,
        ) == candidate,
        newer_timestamp(current.event.timestamp, candidate.event.timestamp) ==> newer_of(
            Some(current),
            candidate,
        ) == current,
{
    match (current.event.timestamp, candidate.event.timestamp) {
        (Some(k), Some(c)) => {
            lemma_text_before_asymmetric(k, c);
            lemma_text_before_irreflexive(k);
        },
        _ => {},
    }
}

/// Whether the winner of a pass has to be published: there was no emission
/// yet, or the session, the timestamp or the payload differs from what was
/// emitted last.
pub open spec fn must_emit(last: Option<SessionEventView>, winner: SessionEventView) -> bool {
    match last {
        None => true,
        Some(previous) => previous.session_id != winner.session_id || previous.event.timestamp
            != winner.event.timestamp || previous.event.payload != winner.event.payload,
    }
}

/// The view of an optional session event.
pub open spec fn opt_event(o: Option<SessionEvent>) -> Option<SessionEventView> {
    match o {
        Some(e) => Some(e@),
        None => None,
    }
}

/// Decides whether `candidate` has to be published, given what was emitted
/// last.
pub fn should_emit(last_emitted: &Option<SessionEvent>, candidate: &SessionEvent) -> (r: bool)
    ensures
        r == must_emit(opt_event(*last_emitted), candidate@),
        r == (opt_event(*last_emitted) != Some(candidate@)),
{
    match last_emitted {
        None => true,
        Some(previous) => {
            !same_text(previous.session_id.as_str(), candidate.session_id.as_str())
                || !same_opt_text(&previous.event.timestamp, &candidate.event.timestamp)
                || !same_payload(&previous.event.payload, &candidate.event.payload)
        },
    }
}

/// Publishes the winner of a pass where it has to be: the winner becomes the
/// last emitted event and its payload is handed back for the cache sink. A
/// pass without a winner, and a winner that equals what was emitted last,
/// change nothing and hand nothing back.
pub fn publish_winner(
    last_emitted: &mut Option<SessionEvent>,
    winner: Option<SessionEvent>,
) -> (out: Option<WaybarOutput>)
    ensures
        match winner {
            None => out is None && *final(last_emitted) == *old(last_emitted),
            Some(w) => match out {
                Some(payload) => {
                    &&& must_emit(opt_event(*old(last_emitted)), w@)
                    &&& payload@ == w@.event.payload
                    &&& *final(last_emitted) == Some(w)
                },
                None => {
                    &&& !must_emit(opt_event(*old(last_emitted)), w@)
                    &&& *final(last_emitted) == *old(last_emitted)
                    &&& opt_event(*old(last_emitted)) == Some(w@)
                },
            },
        },
{
    match winner {
        None => None,
        Some(w) => {
            if should_emit(last_emitted, &w) {
                let payload = copy_payload(&w.event.payload);
                *last_emitted = Some(w);
                Some(payload)
            } else {
                None
            }
        },
    }
}

/// Emission is idempotent: once an event was emitted, the same event does
/// not have to be emitted again, however often it wins.
pub proof fn lemma_emission_idempotent(last: Option<SessionEventView>, winner: SessionEventView)
    ensures
        !must_emit(Some(winner), winner),
        !must_emit(last, winner) ==> last == Some(winner),
{
}

} // verus!
