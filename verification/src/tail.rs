//! The tail reader: the lines that were appended to a file since the last
//! read, with the byte offset kept up to date and reset when the file shrank.

use crate::chars::{text_from_utf8, texts};
use vstd::prelude::*;
use vstd::utf8::{decode_utf8, valid_utf8};

verus! {

/// The byte that ends a line.
pub const LINE_FEED: u8 = 10;

/// What opening and reading a file gave.
#[derive(Clone, Debug)]
pub enum FileRead {
    /// There is no file at the path.
    Missing,
    /// The file is there and could not be read.
    Failed,
    /// All the bytes of the file.
    Content(Vec<u8>),
}

/// Why a read gave no lines.
#[derive(Clone, Copy, Debug, PartialEq, Eq)]
pub enum ReadError {
    /// The file is missing.
    NotFound,
    /// The file could not be read, or a line of it is not valid UTF-8.
    Other,
}

/// Where the line that begins at `from` ends: just behind its line feed, or
/// at the end of the bytes where it has none.
pub open spec fn line_end(bytes: Seq<u8>, from: int) -> int
    decreases bytes.len() - from,
{
    if from < 0 || from >= bytes.len() {
        bytes.len() as int
    } else if bytes[from] == LINE_FEED {
        from + 1
    } else {
        line_end(bytes, from + 1)
    }
}

/// The line that begins at `from`, without its line feed.
pub open spec fn line_at(bytes: Seq<u8>, from: int) -> Seq<u8> {
    let end = line_end(bytes, from);
    if from < end && bytes[end - 1] == LINE_FEED {
        bytes.subrange(from, end - 1)
    } else {
        bytes.subrange(from, end)
    }
}

/// The lines of `bytes` from the offset `from` on, each without its line
/// feed; a last line without a line feed counts.
pub open spec fn lines_from(bytes: Seq<u8>, from: int) -> Seq<Seq<u8>>
    decreases bytes.len() - from,
    via lines_from_decreases
{
    if from < 0 || from >= bytes.len() {
        Seq::empty()
    } else {
        seq![line_at(bytes, from)] + lines_from(bytes, line_end(bytes, from))
    }
}

#[via_fn]
proof fn lines_from_decreases(bytes: Seq<u8>, from: int) {
    if 0 <= from < bytes.len() {
        lemma_line_end_bounds(bytes, from);
    }
}

/// A line that begins inside the bytes holds at least one byte and ends
/// inside them; it holds no line feed but possibly its last byte.
pub proof fn lemma_line_end_bounds(bytes: Seq<u8>, from: int)
    requires
        0 <= from < bytes.len(),
    ensures
        from < line_end(bytes, from) <= bytes.len(),
        forall|i: int| from <= i < line_end(bytes, from) - 1 ==> bytes[i] != LINE_FEED,
        line_end(bytes, from) < bytes.len() ==> bytes[line_end(bytes, from) - 1] == LINE_FEED,
    decreases bytes.len() - from,
{
    if bytes[from] != LINE_FEED {
        if from + 1 < bytes.len() {
            lemma_line_end_bounds(bytes, from + 1);
        } else {
            assert(line_end(bytes, from + 1) == bytes.len());
        }
    }
}

/// The offset at which the `k`-th line after `from` begins.
pub open spec fn line_start(bytes: Seq<u8>, from: int, k: nat) -> int
    decreases k,
{
    if k == 0 {
        from
    } else {
        line_end(bytes, line_start(bytes, from, (k - 1) as nat))
    }
}

/// Where a read begins: at the stored offset, or at 0 where the file has
/// become shorter than the offset.
pub open spec fn read_start(offset: int, len: int) -> int {
    if offset > len {
        0
    } else {
        offset
    }
}

/// The texts that the lines encode.
pub open spec fn decoded(lines: Seq<Seq<u8>>) -> Seq<Seq<char>> {
    Seq::new(lines.len(), |i: int| decode_utf8(lines[i]))
}

/// Whether `k` is the index of the first line that is not valid UTF-8.
pub open spec fn is_first_invalid(lines: Seq<Seq<u8>>, k: int) -> bool {
    &&& 0 <= k < lines.len()
    &&& !valid_utf8(lines[k])
    &&& forall|j: int| 0 <= j < k ==> valid_utf8(#[trigger] lines[j])
}

/// Whether every line is valid UTF-8.
pub open spec fn all_valid(lines: Seq<Seq<u8>>) -> bool {
    forall|j: int| 0 <= j < lines.len() ==> valid_utf8(#[trigger] lines[j])
}

/// The index of the first line that is not valid UTF-8, where there is one.
pub open spec fn first_invalid(lines: Seq<Seq<u8>>) -> int {
    choose|k: int| is_first_invalid(lines, k)
}

/// There is at most one first invalid line.
pub proof fn lemma_first_invalid_unique(lines: Seq<Seq<u8>>, k: int)
    requires
        is_first_invalid(lines, k),
    ensures
        first_invalid(lines) == k,
        !all_valid(lines),
{
    let f = first_invalid(lines);
    assert(is_first_invalid(lines, f));
    if f < k {
        assert(valid_utf8(lines[f]));
    }
    if k < f {
        assert(valid_utf8(lines[k]));
    }
}

/// The lines that a read of the bytes `content` with the stored offset
/// `offset` gives: the texts of all lines from where the read begins, or
/// an error where one of them is not valid UTF-8.
pub open spec fn read_lines(content: Seq<u8>, offset: int) -> Result<Seq<Seq<char>>, ReadError> {
    let lines = lines_from(content, read_start(offset, content.len() as int));
    if all_valid(lines) {
        Ok(decoded(lines))
    } else {
        Err(ReadError::Other)
    }
}

/// The offset after a read of the bytes `content` with the stored offset
/// `offset`: the length of the content, or the beginning of the first line
/// that is not valid UTF-8.
pub open spec fn offset_after_read(content: Seq<u8>, offset: int) -> int {
    let start = read_start(offset, content.len() as int);
    let lines = lines_from(content, start);
    if all_valid(lines) {
        content.len() as int
    } else {
        line_start(content, start, first_invalid(lines) as nat)
    }
}

/// The texts of a read's result.
pub open spec fn result_texts(result: Result<Vec<String>, ReadError>) -> Result<
    Seq<Seq<char>>,
    ReadError,
> {
    match result {
        Ok(lines) => Ok(texts(lines@)),
        Err(e) => Err(e),
    }
}

/// The beginning of a line lies inside the file or at its end.
pub proof fn lemma_line_start_bounds(bytes: Seq<u8>, from: int, k: nat)
    requires
        0 <= from <= bytes.len(),
    ensures
        from <= line_start(bytes, from, k) <= bytes.len(),
    decreases k,
{
    if k > 0 {
        lemma_line_start_bounds(bytes, from, (k - 1) as nat);
        let at = line_start(bytes, from, (k - 1) as nat);
        if at < bytes.len() {
            lemma_line_end_bounds(bytes, at);
        }
    }
}

/// After a read the offset never lies behind the end of the file, and never
/// before the place where the read began.
pub proof fn lemma_offset_within_file(content: Seq<u8>, offset: int)
    requires
        0 <= offset,
    ensures
        read_start(offset, content.len() as int) <= offset_after_read(content, offset)
            <= content.len(),
{
    let start = read_start(offset, content.len() as int);
    let lines = lines_from(content, start);
    if !all_valid(lines) {
        let k = first_invalid(lines);
        assert(is_first_invalid(lines, k)) by {
            let j = choose|j: int| 0 <= j < lines.len() && !valid_utf8(#[trigger] lines[j]);
            lemma_some_first_invalid(lines, j);
        }
        lemma_line_start_bounds(content, start, k as nat);
    }
}

/// Where a line is not valid UTF-8, there is a first such line.
proof fn lemma_some_first_invalid(lines: Seq<Seq<u8>>, j: int)
    requires
        0 <= j < lines.len(),
        !valid_utf8(lines[j]),
    ensures
        exists|k: int| is_first_invalid(lines, k),
    decreases j,
{
    if forall|i: int| 0 <= i < j ==> valid_utf8(#[trigger] lines[i]) {
        assert(is_first_invalid(lines, j));
    } else {
        let i = choose|i: int| 0 <= i < j && !valid_utf8(#[trigger] lines[i]);
        lemma_some_first_invalid(lines, i);
    }
}

/// Reads the lines that were appended to a file since the last read.
///
/// A missing file gives `NotFound` and a file that could not be read gives
/// `Other`; both leave the offset alone. Otherwise the read begins at the
/// stored offset, or at 0 where the file is now shorter than that. It gives
/// every line from there to the end of the file, without the line feed, a
/// last line without a line feed included, and moves the offset to the end
/// of the file. Where a line is not valid UTF-8 the read gives `Other` and
/// the offset stays at the beginning of that line.
pub fn read_new_lines(file: &FileRead, offset: &mut u64) -> (result: Result<Vec<String>, ReadError>)
    ensures
        match *file {
            FileRead::Missing => result == Err::<Vec<String>, ReadError>(ReadError::NotFound)
                && *final(offset) == *old(offset),
            FileRead::Failed => result == Err::<Vec<String>, ReadError>(ReadError::Other)
                && *final(offset) == *old(offset),
            FileRead::Content(bytes) => result_texts(result) == read_lines(
                bytes@,
                *old(offset) as int,
            ) && *final(offset) == offset_after_read(bytes@, *old(offset) as int)
                && *final(offset) <= bytes@.len(),
        },
{
    let content = match file {
        FileRead::Missing => { return Err(ReadError::NotFound); },
        FileRead::Failed => { return Err(ReadError::Other); },
        FileRead::Content(bytes) => bytes,
    };
    let len = content.len();
    let start: usize = if *offset > len as u64 {
        0
    } else {
        *offset as usize
    };
    let ghost all = lines_from(content@, start as int);
    let ghost mut done: Seq<Seq<u8>> = Seq::empty();
    let mut lines: Vec<String> = Vec::new();
    let mut pos: usize = start;
    while pos < len
        invariant
            start <= pos <= len == content.len(),
            *file == FileRead::Content(*content),
            start == read_start(*old(offset) as int, len as int),
            all == lines_from(content@, start as int),
            all == done + lines_from(content@, pos as int),
            all_valid(done),
            lines@.len() == done.len(),
            forall|j: int| 0 <= j < done.len() ==> (#[trigger] lines@[j])@ == decode_utf8(done[j]),
            pos == line_start(content@, start as int, done.len()),
        decreases len - pos,
    {
        proof {
            lemma_line_end_bounds(content@, pos as int);
        }
        let mut end: usize = pos;
        while end < len && content[end] != LINE_FEED
            invariant
                pos <= end <= len == content.len(),
                line_end(content@, pos as int) == line_end(content@, end as int),
                forall|i: int| pos <= i < end ==> content@[i] != LINE_FEED,
            decreases len - end,
        {
            end += 1;
        }
        let stop = end;
        if end < len {
            end += 1;
        }
        assert(end == line_end(content@, pos as int));
        let mut body: Vec<u8> = Vec::new();
        let mut i: usize = pos;
        while i < stop
            invariant
                pos <= i <= stop <= len == content.len(),
                body@ == content@.subrange(pos as int, i as int),
            decreases stop - i,
        {
            body.push(content[i]);
            i += 1;
        }
        assert(body@ == line_at(content@, pos as int));
        let ghost raw = body@;
        match text_from_utf8(body) {
            Some(text) => {
                proof {
                    vstd::utf8::encode_utf8_decode_utf8(text@);
                    assert(done.push(raw) + lines_from(content@, end as int) =~= done
                        + lines_from(content@, pos as int));
                    done = done.push(raw);
                }
                lines.push(text);
                pos = end;
            },
            None => {
                proof {
                    let k = done.len() as int;
                    assert(all[k] == raw);
                    assert(is_first_invalid(all, k));
                    lemma_first_invalid_unique(all, k);
                }
                *offset = pos as u64;
                return Err(ReadError::Other);
            },
        }
    }
    proof {
        assert(lines_from(content@, pos as int) =~= Seq::<Seq<u8>>::empty());
        assert(all =~= done);
        assert(texts(lines@) =~= decoded(all));
    }
    *offset = len as u64;
    Ok(lines)
}

/// A file that has shrunk below the stored offset is read from its
/// beginning: the read gives what a read with offset 0 gives, which is the
/// whole present content.
pub proof fn lemma_shrunk_file_is_read_whole(content: Seq<u8>, offset: int)
    requires
        offset > content.len(),
    ensures
        read_start(offset, content.len() as int) == 0,
        read_lines(content, offset) == read_lines(content, 0),
        offset_after_read(content, offset) == offset_after_read(content, 0),
{
}

/// In a file that ends in a line feed and has grown since, a line that
/// begins in the earlier content is the same line in the later content.
proof fn lemma_line_is_stable(earlier: Seq<u8>, later: Seq<u8>, from: int)
    requires
        earlier.len() <= later.len(),
        later.take(earlier.len() as int) == earlier,
        0 <= from < earlier.len(),
        earlier.last() == LINE_FEED,
    ensures
        line_end(later, from) == line_end(earlier, from),
        line_at(later, from) == line_at(earlier, from),
    decreases earlier.len() - from,
{
    assert(forall|i: int|
        0 <= i < earlier.len() ==> earlier[i] == later.take(earlier.len() as int)[i]);
    lemma_line_end_bounds(earlier, from);
    if earlier[from] != LINE_FEED {
        lemma_line_is_stable(earlier, later, from + 1);
    }
    let end = line_end(earlier, from);
    assert(later.subrange(from, end) =~= earlier.subrange(from, end));
    assert(later.subrange(from, end - 1) =~= earlier.subrange(from, end - 1));
}

/// The lines of a grown file from an offset in its earlier content are the
/// lines of the earlier content from that offset, then the lines that were
/// appended, provided the earlier content ended with a complete line.
pub proof fn lemma_lines_of_grown_file(earlier: Seq<u8>, later: Seq<u8>, offset: int)
    requires
        earlier.len() <= later.len(),
        later.take(earlier.len() as int) == earlier,
        0 <= offset <= earlier.len(),
        offset < earlier.len() ==> earlier.last() == LINE_FEED,
    ensures
        lines_from(later, offset) == lines_from(earlier, offset) + lines_from(
            later,
            earlier.len() as int,
        ),
    decreases earlier.len() - offset,
{
    if offset < earlier.len() {
        lemma_line_is_stable(earlier, later, offset);
        lemma_line_end_bounds(earlier, offset);
        let next = line_end(earlier, offset);
        lemma_lines_of_grown_file(earlier, later, next);
        assert(lines_from(later, offset) =~= lines_from(earlier, offset) + lines_from(
            later,
            earlier.len() as int,
        ));
    } else {
        assert(lines_from(earlier, offset) =~= Seq::<Seq<u8>>::empty());
        assert(lines_from(later, offset) =~= Seq::<Seq<u8>>::empty() + lines_from(later, offset));
    }
}

/// Two reads of a growing file give together what one read of the grown
/// file gives. If the file only grew between the two reads, its earlier
/// content ended with a complete line, and both reads succeeded, then each
/// read left the offset at the length the file had, and the two batches,
/// one after the other, are the lines of the grown file from the first
/// offset on.
pub proof fn lemma_batches_reproduce_appended_lines(
    earlier: Seq<u8>,
    later: Seq<u8>,
    offset: int,
    first: Seq<Seq<char>>,
    second: Seq<Seq<char>>,
)
    requires
        earlier.len() <= later.len(),
        later.take(earlier.len() as int) == earlier,
        0 <= offset <= earlier.len(),
        offset < earlier.len() ==> earlier.last() == LINE_FEED,
        read_lines(earlier, offset) == Ok::<Seq<Seq<char>>, ReadError>(first),
        read_lines(later, offset_after_read(earlier, offset)) == Ok::<Seq<Seq<char>>, ReadError>(
            second,
        ),
    ensures
        offset_after_read(earlier, offset) == earlier.len(),
        offset_after_read(later, earlier.len() as int) == later.len(),
        read_lines(later, offset) == Ok::<Seq<Seq<char>>, ReadError>(first + second),
{
    lemma_lines_of_grown_file(earlier, later, offset);
    let a = lines_from(earlier, offset);
    let b = lines_from(later, earlier.len() as int);
    let all = lines_from(later, offset);
    assert(all == a + b);
    assert forall|j: int| 0 <= j < all.len() implies valid_utf8(#[trigger] all[j]) by {
        if j < a.len() {
            assert(all[j] == a[j]);
        } else {
            assert(all[j] == b[j - a.len()]);
        }
    }
    assert(decoded(all) =~= decoded(a) + decoded(b));
}

} // verus!
