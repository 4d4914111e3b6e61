//! The session locator: the pattern that finds a session's log files, and
//! the choice of the newest among those found.

use crate::chars::{append_text, chars_of, string_of};
use std::path::PathBuf;
use vstd::prelude::*;

verus! {

/// A log file that matched a session: its path and when it was last
/// modified, in nanoseconds since the Unix epoch (negative before it).
#[derive(Clone, Debug)]
pub struct SessionCandidate {
    pub path: PathBuf,
    pub modified: i128,
}

/// The pattern for the log files of a session below a root directory: any
/// file at any depth whose name holds the session's identifier and ends in
/// `.jsonl`.
pub open spec fn glob_pattern(root: Seq<char>, session_id: Seq<char>) -> Seq<char> {
    root + "/**/*"@ + session_id + "*.jsonl"@
}

/// Builds the pattern for the log files of a session below `root`.
pub fn session_glob_pattern(root: &str, session_id: &str) -> (pattern: String)
    ensures
        pattern@ == glob_pattern(root@, session_id@),
{
    let mut buf = chars_of(root);
    append_text(&mut buf, "/**/*");
    append_text(&mut buf, session_id);
    append_text(&mut buf, "*.jsonl");
    string_of(&buf)
}

/// Whether `i` is the index of the newest candidate: no candidate was
/// modified later, and every candidate before it was modified earlier.
pub open spec fn is_newest(candidates: Seq<SessionCandidate>, i: int) -> bool {
    &&& 0 <= i < candidates.len()
    &&& forall|j: int|
        0 <= j < candidates.len() ==> candidates[j].modified <= candidates[i].modified
    &&& forall|j: int| 0 <= j < i ==> candidates[j].modified < candidates[i].modified
}

/// Picks the log file that was modified last among those that matched a
/// session; of several that were modified at the same time, the one seen
/// first. Without candidates there is none.
pub fn locate_session_file(candidates: &Vec<SessionCandidate>) -> (found: Option<PathBuf>)
    ensures
        match found {
            Some(path) => exists|i: int|
                is_newest(candidates@, i) && path == (#[trigger] candidates@[i]).path,
            None => candidates@.len() == 0,
        },
{
    if candidates.len() == 0 {
        return None;
    }
    let mut best: usize = 0;
    let mut i: usize = 1;
    while i < candidates.len()
        invariant
            0 <= best < i <= candidates.len(),
            forall|j: int|
                0 <= j < i ==> candidates@[j].modified <= candidates@[best as int].modified,
            forall|j: int|
                0 <= j < best ==> candidates@[j].modified < candidates@[best as int].modified,
        decreases candidates.len() - i,
    {
        if candidates[i].modified > candidates[best].modified {
            best = i;
        }
        i += 1;
    }
    assert(is_newest(candidates@, best as int));
    Some(candidates[best].path.clone())
}

/// The path at which a session's log is read: the explicitly given one
/// where there is one, else the newest of the files found for the session.
pub fn resolve_session_path(
    explicit_path: Option<&PathBuf>,
    candidates: &Vec<SessionCandidate>,
) -> (found: Option<PathBuf>)
    ensures
        match explicit_path {
            Some(p) => found == Some(*p),
            None => match found {
                Some(path) => exists|i: int|
                    is_newest(candidates@, i) && path == (#[trigger] candidates@[i]).path,
                None => candidates@.len() == 0,
            },
        },
{
    match explicit_path {
        Some(p) => Some(p.clone()),
        None => locate_session_file(candidates),
    }
}

} // verus!
