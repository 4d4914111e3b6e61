//! Session discovery: the sessions that the history index mentions most
//! recently, and the session that an explicitly given log file belongs to.

use crate::chars::{
    chars_of, copy_range, is_blank, is_blank_text, same_chars, string_of_range, texts,
};
use crate::event::same_text;
use crate::json::{json_document, json_text_member, parse_document, text_member};
use vstd::prelude::*;

verus! {

/// The session that a line of the history index names: the string member
/// `session_id` of the record, where the line is not blank, parses as JSON
/// and has one.
pub open spec fn session_id_of(line: Seq<char>) -> Option<Seq<char>> {
    if is_blank(line) {
        None
    } else {
        match json_document(line) {
            Some(doc) => json_text_member(doc, "session_id"@),
            None => None,
        }
    }
}

/// The sessions that the lines name, in the order of the lines.
pub open spec fn mentions(lines: Seq<Seq<char>>) -> Seq<Seq<char>>
    decreases lines.len(),
{
    if lines.len() == 0 {
        Seq::empty()
    } else {
        match session_id_of(lines.last()) {
            Some(id) => mentions(lines.drop_last()).push(id),
            None => mentions(lines.drop_last()),
        }
    }
}

/// `ids` without the identifiers that occur in `seen`.
pub open spec fn without(ids: Seq<Seq<char>>, seen: Seq<Seq<char>>) -> Seq<Seq<char>>
    decreases ids.len(),
{
    if ids.len() == 0 {
        Seq::empty()
    } else if seen.contains(ids.last()) {
        without(ids.drop_last(), seen)
    } else {
        without(ids.drop_last(), seen).push(ids.last())
    }
}

/// The `limit` identifiers that were mentioned most recently, each once, the
/// oldest of them first: the identifier mentioned last stands last, and
/// before it stand the most recent ones among the others.
pub open spec fn recent(ids: Seq<Seq<char>>, limit: nat) -> Seq<Seq<char>>
    decreases limit,
{
    if limit == 0 || ids.len() == 0 {
        Seq::empty()
    } else {
        recent(without(ids.drop_last(), seq![ids.last()]), (limit - 1) as nat).push(ids.last())
    }
}

/// Leaving out `seen` and then `id` leaves out both at once.
proof fn lemma_without_twice(ids: Seq<Seq<char>>, seen: Seq<Seq<char>>, id: Seq<char>)
    ensures
        without(without(ids, seen), seq![id]) == without(ids, seen.push(id)),
    decreases ids.len(),
{
    if ids.len() > 0 {
        lemma_without_twice(ids.drop_last(), seen, id);
        let x = ids.last();
        assert(seq![id].contains(x) <==> x == id) by {
            if x == id {
                assert(seq![id][0] == x);
            }
        }
        assert(seen.push(id).contains(x) <==> seen.contains(x) || x == id) by {
            if seen.contains(x) {
                let i = choose|i: int| 0 <= i < seen.len() && seen[i] == x;
                assert(seen.push(id)[i] == x);
            }
            if x == id {
                assert(seen.push(id)[seen.len() as int] == x);
            }
        }
        if !seen.contains(x) {
            let w = without(ids.drop_last(), seen);
            assert(w.push(x).drop_last() == w);
            assert(w.push(x).last() == x);
        }
    }
}

/// What is left of a list never holds what was left out, and holds nothing
/// that the list did not hold.
pub proof fn lemma_without_members(ids: Seq<Seq<char>>, seen: Seq<Seq<char>>)
    ensures
        without(ids, seen).len() <= ids.len(),
        forall|x: Seq<char>| #[trigger]
            without(ids, seen).contains(x) <==> ids.contains(x) && !seen.contains(x),
    decreases ids.len(),
{
    if ids.len() > 0 {
        let rest = ids.drop_last();
        let last = ids.last();
        lemma_without_members(rest, seen);
        let w = without(rest, seen);
        assert forall|x: Seq<char>| #[trigger]
            without(ids, seen).contains(x) <==> ids.contains(x) && !seen.contains(x) by {
            if ids.contains(x) {
                let i = choose|i: int| 0 <= i < ids.len() && ids[i] == x;
                if i < rest.len() {
                    assert(rest[i] == x);
                }
            }
            if rest.contains(x) {
                let i = choose|i: int| 0 <= i < rest.len() && rest[i] == x;
                assert(ids[i] == x);
            }
            if x == last {
                assert(ids[ids.len() - 1] == x);
            }
            if !seen.contains(last) {
                if w.contains(x) {
                    let i = choose|i: int| 0 <= i < w.len() && w[i] == x;
                    assert(w.push(last)[i] == x);
                }
                if x == last {
                    assert(w.push(last)[w.len() as int] == x);
                }
                if w.push(last).contains(x) {
                    let i = choose|i: int| 0 <= i < w.push(last).len() && w.push(last)[i] == x;
                    if i < w.len() {
                        assert(w[i] == x);
                    }
                }
            }
        }
    }
}

/// Discovery returns at most `limit` identifiers, each of them mentioned in
/// the history, and none of them twice.
pub proof fn lemma_recent_is_distinct(ids: Seq<Seq<char>>, limit: nat)
    ensures
        recent(ids, limit).len() <= limit,
        recent(ids, limit).len() <= ids.len(),
        forall|x: Seq<char>| #[trigger] recent(ids, limit).contains(x) ==> ids.contains(x),
        forall|i: int, j: int|
            0 <= i < j < recent(ids, limit).len() ==> recent(ids, limit)[i] != recent(
                ids,
                limit,
            )[j],
    decreases limit,
{
    if limit > 0 && ids.len() > 0 {
        let last = ids.last();
        let others = without(ids.drop_last(), seq![last]);
        let before = recent(others, (limit - 1) as nat);
        lemma_recent_is_distinct(others, (limit - 1) as nat);
        lemma_without_members(ids.drop_last(), seq![last]);
        let out = recent(ids, limit);
        assert(out == before.push(last));
        assert forall|x: Seq<char>| #[trigger] out.contains(x) implies ids.contains(x) by {
            let i = choose|i: int| 0 <= i < out.len() && out[i] == x;
            if i < before.len() {
                assert(before.contains(x));
                assert(others.contains(x));
                let k = choose|k: int| 0 <= k < ids.drop_last().len() && ids.drop_last()[k] == x;
                assert(ids[k] == x);
            } else {
                assert(ids[ids.len() - 1] == x);
            }
        }
        assert forall|i: int, j: int| 0 <= i < j < out.len() implies out[i] != out[j] by {
            if j == before.len() {
                if out[i] == last {
                    assert(before.contains(last));
                    assert(others.contains(last));
                    assert(seq![last][0] == last);
                }
            }
        }
    }
}

/// Reads the session that a line of the history index names, if any.
pub fn read_session_id(line: &str) -> (id: Option<String>)
    ensures
        match id {
            Some(s) => session_id_of(line@) == Some(s@),
            None => session_id_of(line@) is None,
        },
{
    if is_blank_text(line) {
        return None;
    }
    match parse_document(line) {
        Some(doc) => text_member(&doc, "session_id"),
        None => None,
    }
}

/// Whether `list` holds the text `x`.
pub fn contains_text(list: &Vec<String>, x: &str) -> (r: bool)
    ensures
        r == texts(list@).contains(x@),
{
    let mut i: usize = 0;
    while i < list.len()
        invariant
            i <= list.len(),
            forall|j: int| 0 <= j < i ==> texts(list@)[j] != x@,
        decreases list.len() - i,
    {
        if same_text(list[i].as_str(), x) {
            assert(texts(list@)[i as int] == x@);
            return true;
        }
        i += 1;
    }
    false
}

/// The sessions that the lines of the history index name, in the order of
/// the lines. A line that is blank, does not parse or names no session is
/// passed over.
pub fn mentioned_sessions(lines: &Vec<String>) -> (ids: Vec<String>)
    ensures
        texts(ids@) == mentions(texts(lines@)),
{
    let ghost shown = texts(lines@);
    let mut ids: Vec<String> = Vec::new();
    let mut i: usize = 0;
    while i < lines.len()
        invariant
            i <= lines.len(),
            shown == texts(lines@),
            texts(ids@) == mentions(shown.take(i as int)),
        decreases lines.len() - i,
    {
        proof {
            let cur = shown.take(i + 1);
            assert(cur.drop_last() == shown.take(i as int));
            assert(cur.last() == lines@[i as int]@);
        }
        let ghost before = texts(ids@);
        match read_session_id(lines[i].as_str()) {
            Some(id) => {
                ids.push(id);
                assert(texts(ids@) =~= before.push(id@));
            },
            None => {},
        }
        i += 1;
    }
    proof {
        assert(shown.take(shown.len() as int) == shown);
    }
    ids
}

/// The identifiers that were mentioned most recently: at most `limit` of
/// them, each once, the oldest of them first. `ids` holds the mentions in
/// their order, the latest last.
pub fn most_recent(ids: &Vec<String>, limit: usize) -> (out: Vec<String>)
    ensures
        texts(out@) == recent(texts(ids@), limit as nat),
{
    let ghost all = texts(ids@);
    let mut ordered: Vec<String> = Vec::new();
    let mut i: usize = ids.len();
    proof {
        assert(all.take(all.len() as int) == all);
        lemma_without_nothing(all);
        assert(texts(ordered@) =~= Seq::<Seq<char>>::empty());
        assert(texts(ordered@).reverse() =~= Seq::<Seq<char>>::empty());
        assert(recent(all, limit as nat) + Seq::<Seq<char>>::empty() == recent(all, limit as nat));
    }
    while i > 0 && ordered.len() < limit
        invariant
            i <= ids.len(),
            ordered.len() <= limit,
            all == texts(ids@),
            recent(all, limit as nat) == recent(
                without(all.take(i as int), texts(ordered@)),
                (limit - ordered.len()) as nat,
            ) + texts(ordered@).reverse(),
        decreases i,
    {
        let ghost seen = texts(ordered@);
        let ghost upto = all.take(i as int);
        i -= 1;
        let ghost before = all.take(i as int);
        let ghost id = ids@[i as int]@;
        proof {
            assert(upto.drop_last() == before);
            assert(upto.last() == id);
        }
        if !contains_text(&ordered, ids[i].as_str()) {
            proof {
                let w = without(before, seen);
                assert(without(upto, seen) == w.push(id));
                assert(w.push(id).drop_last() == w);
                assert(w.push(id).last() == id);
                lemma_without_twice(before, seen, id);
            }
            ordered.push(ids[i].clone());
            proof {
                assert(texts(ordered@) =~= seen.push(id));
                assert(seen.push(id).reverse() =~= seq![id] + seen.reverse());
                let r = recent(without(before, seen.push(id)), (limit - ordered.len()) as nat);
                assert(r.push(id) + seen.reverse() =~= r + (seq![id] + seen.reverse()));
            }
        }
    }
    proof {
        assert(recent(all, limit as nat) =~= texts(ordered@).reverse()) by {
            if i == 0 {
                assert(all.take(0) =~= Seq::<Seq<char>>::empty());
            }
        }
    }
    let mut out: Vec<String> = Vec::new();
    let mut k: usize = ordered.len();
    while k > 0
        invariant
            k <= ordered.len(),
            out.len() == ordered.len() - k,
            forall|j: int|
                0 <= j < out.len() ==> (#[trigger] out@[j])@ == ordered@[ordered.len() - 1 - j]@,
        decreases k,
    {
        k -= 1;
        out.push(ordered[k].clone());
    }
    proof {
        assert(texts(out@) =~= texts(ordered@).reverse());
    }
    out
}

/// The sessions that the history index mentions most recently: at most
/// `limit` identifiers, each once, the oldest of them first. The lines are
/// those of the index in their order; a line that is blank, does not parse
/// or names no session is passed over.
pub fn recent_session_ids(lines: &Vec<String>, limit: usize) -> (out: Vec<String>)
    ensures
        texts(out@) == recent(mentions(texts(lines@)), limit as nat),
{
    let ids = mentioned_sessions(lines);
    most_recent(&ids, limit)
}

/// Leaving out nothing leaves the list as it is.
proof fn lemma_without_nothing(ids: Seq<Seq<char>>)
    ensures
        without(ids, Seq::empty()) == ids,
    decreases ids.len(),
{
    if ids.len() > 0 {
        lemma_without_nothing(ids.drop_last());
        assert(!Seq::<Seq<char>>::empty().contains(ids.last()));
        assert(ids.drop_last().push(ids.last()) == ids);
    }
}

/// What follows the last hyphen of `s`; all of `s` where it has no hyphen.
pub open spec fn after_last_hyphen(s: Seq<char>) -> Seq<char>
    decreases s.len(),
{
    if s.len() == 0 || s.last() == '-' {
        Seq::empty()
    } else {
        after_last_hyphen(s.drop_last()).push(s.last())
    }
}

/// Whether `s` ends with `suffix`.
pub open spec fn ends_with(s: Seq<char>, suffix: Seq<char>) -> bool {
    s.len() >= suffix.len() && s.skip(s.len() - suffix.len()) == suffix
}

/// The session that a log file's name stands for: what follows the last
/// hyphen of the name, without the ending `.jsonl`; none where that part
/// does not end so.
pub open spec fn session_of_file_name(name: Seq<char>) -> Option<Seq<char>> {
    let segment = after_last_hyphen(name);
    if ends_with(segment, ".jsonl"@) {
        Some(segment.take(segment.len() - ".jsonl"@.len()))
    } else {
        None
    }
}

/// What follows the last hyphen is the part of the sequence behind it.
proof fn lemma_after_last_hyphen(s: Seq<char>, k: int)
    requires
        0 <= k <= s.len(),
        k > 0 ==> s[k - 1] == '-',
        forall|i: int| k <= i < s.len() ==> s[i] != '-',
    ensures
        after_last_hyphen(s) == s.skip(k),
    decreases s.len() - k,
{
    if k < s.len() {
        lemma_after_last_hyphen(s.drop_last(), k);
        assert(s.drop_last().skip(k).push(s.last()) == s.skip(k));
    } else {
        assert(s.skip(k) == Seq::<char>::empty());
    }
}

/// The session identifier that the name of a session's log file carries.
/// `file_name` is the last component of the file's path.
pub fn infer_session_id_from_path(file_name: &str) -> (id: Option<String>)
    ensures
        match id {
            Some(s) => session_of_file_name(file_name@) == Some(s@),
            None => session_of_file_name(file_name@) is None,
        },
{
    let name = chars_of(file_name);
    let suffix = chars_of(".jsonl");
    let n = name.len();
    let mut k: usize = n;
    while k > 0 && name[k - 1] != '-'
        invariant
            k <= n == name.len(),
            forall|i: int| k <= i < n ==> name@[i] != '-',
        decreases k,
    {
        k -= 1;
    }
    proof {
        lemma_after_last_hyphen(name@, k as int);
    }
    let m = suffix.len();
    if n - k < m {
        return None;
    }
    let tail = copy_range(&name, n - m, n);
    proof {
        let segment = name@.skip(k as int);
        assert(segment.skip(segment.len() - m) == name@.subrange(n - m, n as int));
        assert(segment.take(segment.len() - m) == name@.subrange(k as int, n - m));
    }
    if same_chars(&tail, &suffix) {
        Some(string_of_range(&name, k, n - m))
    } else {
        None
    }
}

/// Why the sessions to track could not be determined at start.
#[derive(Clone, Copy, Debug, PartialEq, Eq)]
pub enum StartError {
    /// The name of the given log file carries no session identifier.
    UnknownSession,
}

/// The session that the configuration pins, if it pins one: the given
/// identifier, else the one that the name of the given log file carries.
/// Without either, no session is pinned and the history decides.
pub fn pinned_session(session_id: Option<&String>, session_file_name: Option<&str>) -> (out: Result<
    Option<String>,
    StartError,
>)
    ensures
        match (session_id, session_file_name) {
            (Some(id), _) => out matches Ok(Some(pinned)) && pinned@ == id@,
            (None, Some(name)) => match session_of_file_name(name@) {
                Some(inferred) => out matches Ok(Some(pinned)) && pinned@ == inferred,
                None => out == Err::<Option<String>, StartError>(StartError::UnknownSession),
            },
            (None, None) => out == Ok::<Option<String>, StartError>(None),
        },
{
    match (session_id, session_file_name) {
        (Some(id), _) => Ok(Some(id.clone())),
        (None, Some(name)) => match infer_session_id_from_path(name) {
            Some(id) => Ok(Some(id)),
            None => Err(StartError::UnknownSession),
        },
        (None, None) => Ok(None),
    }
}

} // verus!
