//! The text pipeline: sanitising, truncating and labelling the free text of
//! a reasoning event.

use crate::chars::{
    append_chars, byte_len, char_width, chars_of, copy_range, is_whitespace_char,
    lemma_byte_len_concat, lemma_byte_len_prefix, lemma_byte_len_push, lemma_trim_end_prefix,
    lemma_trim_start_suffix, same_chars, string_of, trim, trim_end, trim_end_index, trim_start,
    trimmed, trimmed_range, utf8_width,
};
use vstd::prelude::*;

verus! {

/// `s` with every run of white space replaced by one space character.
pub open spec fn squeeze(s: Seq<char>) -> Seq<char>
    decreases s.len(),
{
    if s.len() == 0 {
        Seq::empty()
    } else if !is_whitespace_char(s.last()) {
        squeeze(s.drop_last()).push(s.last())
    } else if s.len() >= 2 && is_whitespace_char(s[s.len() - 2]) {
        squeeze(s.drop_last())
    } else {
        squeeze(s.drop_last()).push(' ')
    }
}

/// `s` with runs of white space collapsed to one space each and the ends
/// trimmed.
pub open spec fn collapsed(s: Seq<char>) -> Seq<char> {
    trim(squeeze(s))
}

/// `s` with line feeds and carriage returns replaced by spaces.
pub open spec fn without_breaks(s: Seq<char>) -> Seq<char> {
    Seq::new(
        s.len(),
        |i: int|
            if s[i] == '\n' || s[i] == '\r' {
                ' '
            } else {
                s[i]
            },
    )
}

/// Whether the bold marker `**` stands at index `i` of `s`.
pub open spec fn marker_at(s: Seq<char>, i: int) -> bool {
    0 <= i && i + 1 < s.len() && s[i] == '*' && s[i + 1] == '*'
}

/// `s` with every bold marker removed, matched from the left without overlap.
pub open spec fn without_markers(s: Seq<char>) -> Seq<char>
    decreases s.len(),
{
    if s.len() == 0 {
        Seq::empty()
    } else if marker_at(s, 0) {
        without_markers(s.skip(2))
    } else {
        seq![s[0]] + without_markers(s.drop_first())
    }
}

/// The sanitised form of a raw text: line breaks become spaces, bold markers
/// go, white space is collapsed and the ends are trimmed.
pub open spec fn sanitized(s: Seq<char>) -> Seq<char> {
    collapsed(without_markers(without_breaks(s)))
}

/// In a squeezed sequence the only white space is the space character, and
/// no two white space characters stand side by side.
pub proof fn lemma_squeeze_shape(s: Seq<char>)
    ensures
        squeeze(s).len() <= s.len(),
        forall|i: int|
            0 <= i < squeeze(s).len() && is_whitespace_char(#[trigger] squeeze(s)[i]) ==> squeeze(
                s,
            )[i] == ' ',
        forall|i: int|
            0 <= i && i + 1 < squeeze(s).len() ==> !(is_whitespace_char(#[trigger] squeeze(s)[i])
                && is_whitespace_char(squeeze(s)[i + 1])),
        s.len() > 0 ==> squeeze(s).len() > 0,
        s.len() > 0 && !is_whitespace_char(s.last()) ==> squeeze(s).last() == s.last(),
        s.len() > 0 && is_whitespace_char(s.last()) ==> squeeze(s).last() == ' ',
    decreases s.len(),
{
    if s.len() > 0 {
        let init = s.drop_last();
        lemma_squeeze_shape(init);
        if init.len() > 0 {
            assert(init.last() == s[s.len() - 2]);
        }
    }
}

/// A collapsed text neither begins nor ends with white space; the only
/// white space in it is the space character, and no two of them stand side
/// by side.
pub proof fn lemma_collapsed_shape(s: Seq<char>)
    ensures
        collapsed(s).len() <= s.len(),
        collapsed(s).len() > 0 ==> !is_whitespace_char(collapsed(s)[0]) && !is_whitespace_char(
            collapsed(s).last(),
        ),
        forall|i: int|
            0 <= i < collapsed(s).len() && is_whitespace_char(#[trigger] collapsed(s)[i])
                ==> collapsed(s)[i] == ' ',
        forall|i: int|
            0 <= i && i + 1 < collapsed(s).len() ==> !(is_whitespace_char(
                #[trigger] collapsed(s)[i],
            ) && is_whitespace_char(collapsed(s)[i + 1])),
{
    let q = squeeze(s);
    lemma_squeeze_shape(s);
    let t = trim_start(q);
    lemma_trim_start_suffix(q);
    let r = trim_end(t);
    lemma_trim_end_prefix(t);
    let k = q.len() - t.len();
    assert forall|i: int| 0 <= i < r.len() implies r[i] == q[k + i] by {
        assert(r[i] == t.take(r.len() as int)[i]);
        assert(t[i] == q.skip(k)[i]);
    }
    assert forall|i: int| 0 <= i < r.len() && is_whitespace_char(#[trigger] r[i]) implies r[i]
        == ' ' by {
        assert(r[i] == q[k + i]);
    }
    assert forall|i: int| 0 <= i && i + 1 < r.len() implies !(is_whitespace_char(#[trigger] r[i])
        && is_whitespace_char(r[i + 1])) by {
        assert(r[i] == q[k + i]);
        assert(r[i + 1] == q[k + i + 1]);
    }
    if r.len() > 0 {
        assert(r[0] == t[0]);
    }
}

/// Whether `c` is a line feed or a carriage return.
pub open spec fn is_break(c: char) -> bool {
    c == '\n' || c == '\r'
}

/// Removing markers brings in no character that was not there.
proof fn lemma_without_markers_members(s: Seq<char>)
    ensures
        forall|i: int|
            0 <= i < without_markers(s).len() ==> s.contains(#[trigger] without_markers(s)[i]),
    decreases s.len(),
{
    if s.len() > 0 {
        let rest = if marker_at(s, 0) {
            s.skip(2)
        } else {
            s.drop_first()
        };
        let k = s.len() - rest.len();
        lemma_without_markers_members(rest);
        assert forall|i: int| 0 <= i < without_markers(s).len() implies s.contains(
            #[trigger] without_markers(s)[i],
        ) by {
            let c = without_markers(s)[i];
            if marker_at(s, 0) || i > 0 {
                let j = if marker_at(s, 0) {
                    i
                } else {
                    i - 1
                };
                assert(without_markers(rest)[j] == c);
                let at = choose|at: int| 0 <= at < rest.len() && rest[at] == c;
                assert(s[at + k] == c);
            } else {
                assert(s[0] == c);
            }
        }
    }
}

/// Squeezing brings in no character but the space.
proof fn lemma_squeeze_members(s: Seq<char>)
    ensures
        forall|i: int|
            0 <= i < squeeze(s).len() ==> (#[trigger] squeeze(s)[i]) == ' ' || s.contains(
                squeeze(s)[i],
            ),
    decreases s.len(),
{
    if s.len() > 0 {
        let init = s.drop_last();
        lemma_squeeze_members(init);
        assert forall|i: int| 0 <= i < squeeze(s).len() implies (#[trigger] squeeze(s)[i]) == ' '
            || s.contains(squeeze(s)[i]) by {
            let c = squeeze(s)[i];
            if i < squeeze(init).len() {
                assert(squeeze(init)[i] == c);
                if c != ' ' {
                    let at = choose|at: int| 0 <= at < init.len() && init[at] == c;
                    assert(s[at] == c);
                }
            } else if c != ' ' {
                assert(s[s.len() - 1] == c);
            }
        }
    }
}

/// A sanitised text is a single line: it holds neither a line feed nor a
/// carriage return.
pub proof fn lemma_sanitized_single_line(s: Seq<char>)
    ensures
        forall|i: int| 0 <= i < sanitized(s).len() ==> !is_break(#[trigger] sanitized(s)[i]),
{
    let plain = without_breaks(s);
    let bare = without_markers(plain);
    let q = squeeze(bare);
    lemma_without_markers_members(plain);
    lemma_squeeze_members(bare);
    let t = trim_start(q);
    lemma_trim_start_suffix(q);
    let r = trim_end(t);
    lemma_trim_end_prefix(t);
    let k = q.len() - t.len();
    assert forall|i: int| 0 <= i < r.len() implies !is_break(#[trigger] r[i]) by {
        assert(r[i] == t.take(r.len() as int)[i]);
        assert(t[i] == q.skip(k)[i]);
        let c = q[k + i];
        if is_break(c) {
            assert(bare.contains(c));
            let at = choose|at: int| 0 <= at < bare.len() && bare[at] == c;
            assert(plain.contains(bare[at]));
            let from = choose|from: int| 0 <= from < plain.len() && plain[from] == c;
            assert(!is_break(plain[from]));
        }
    }
}

/// Collapses the white space of a character vector.
pub fn collapse_chars(input: &Vec<char>) -> (out: Vec<char>)
    ensures
        out@ == collapsed(input@),
{
    let mut buf: Vec<char> = Vec::new();
    let mut last_space = false;
    let mut i: usize = 0;
    while i < input.len()
        invariant
            i <= input.len(),
            buf@ == squeeze(input@.take(i as int)),
            last_space == (i > 0 && is_whitespace_char(input@[i - 1])),
        decreases input.len() - i,
    {
        let ch = input[i];
        proof {
            let cur = input@.take(i + 1);
            assert(cur.drop_last() == input@.take(i as int));
            assert(cur.last() == ch);
            if i > 0 {
                assert(cur[cur.len() - 2] == input@[i - 1]);
            }
        }
        if ch.is_whitespace() {
            if !last_space {
                buf.push(' ');
                last_space = true;
            }
        } else {
            buf.push(ch);
            last_space = false;
        }
        i += 1;
    }
    proof {
        assert(input@.take(input@.len() as int) == input@);
    }
    trimmed(&buf)
}

/// Collapses every run of white space of `input` into one space and trims
/// both ends.
pub fn collapse_whitespace(input: &str) -> (out: String)
    ensures
        out@ == collapsed(input@),
{
    let chars = chars_of(input);
    let out = collapse_chars(&chars);
    string_of(&out)
}

/// Replaces line feeds and carriage returns by spaces.
pub fn replace_breaks(input: &Vec<char>) -> (out: Vec<char>)
    ensures
        out@ == without_breaks(input@),
{
    let mut out: Vec<char> = Vec::new();
    let mut i: usize = 0;
    while i < input.len()
        invariant
            i <= input.len(),
            out@ == without_breaks(input@).take(i as int),
        decreases input.len() - i,
    {
        let ch = input[i];
        if ch == '\n' || ch == '\r' {
            out.push(' ');
        } else {
            out.push(ch);
        }
        i += 1;
        assert(out@ == without_breaks(input@).take(i as int));
    }
    assert(without_breaks(input@).take(input@.len() as int) == without_breaks(input@));
    out
}

/// Removes every bold marker, matching from the left without overlap.
pub fn remove_markers(input: &Vec<char>) -> (out: Vec<char>)
    ensures
        out@ == without_markers(input@),
{
    let mut out: Vec<char> = Vec::new();
    let n = input.len();
    let mut i: usize = 0;
    proof {
        assert(input@.skip(0) == input@);
    }
    while i < n
        invariant
            i <= n == input.len(),
            without_markers(input@) == out@ + without_markers(input@.skip(i as int)),
        decreases n - i,
    {
        let ghost rest = input@.skip(i as int);
        proof {
            assert(rest[0] == input@[i as int]);
        }
        if input[i] == '*' && i + 1 < n && input[i + 1] == '*' {
            proof {
                assert(rest[1] == input@[i + 1]);
                assert(marker_at(rest, 0));
                assert(rest.skip(2) == input@.skip(i + 2));
            }
            i += 2;
        } else {
            proof {
                if i + 1 < n {
                    assert(rest[1] == input@[i + 1]);
                }
                assert(!marker_at(rest, 0));
                assert(rest.drop_first() == input@.skip(i + 1));
                assert(out@.push(input@[i as int]) + without_markers(input@.skip(i + 1)) == out@
                    + (seq![rest[0]] + without_markers(rest.drop_first())));
            }
            out.push(input[i]);
            i += 1;
        }
    }
    proof {
        assert(input@.skip(n as int).len() == 0);
        assert(out@ + Seq::<char>::empty() == out@);
    }
    out
}

/// Sanitises a raw text: line breaks become spaces, bold markers are
/// removed, runs of white space collapse into one space and both ends are
/// trimmed.
pub fn sanitize_text(input: &str) -> (out: String)
    ensures
        out@ == sanitized(input@),
{
    let chars = chars_of(input);
    let plain = replace_breaks(&chars);
    let bare = remove_markers(&plain);
    let out = collapse_chars(&bare);
    string_of(&out)
}

/// The mark that ends a text that was cut.
pub const ELLIPSIS: char = '\u{2026}';

/// How many leading characters of `s` fit into `budget` bytes of UTF-8.
pub open spec fn fit_count(s: Seq<char>, budget: nat) -> nat
    decreases s.len(),
{
    if s.len() == 0 || utf8_width(s[0]) > budget {
        0
    } else {
        1 + fit_count(s.drop_first(), (budget - utf8_width(s[0])) as nat)
    }
}

/// The text cut to a budget of `max` bytes: unchanged where it fits, else
/// the longest prefix of whole characters that fits, without its trailing
/// white space, followed by the ellipsis.
pub open spec fn truncated(s: Seq<char>, max: nat) -> Seq<char> {
    if byte_len(s) <= max {
        s
    } else {
        trim_end(s.take(fit_count(s, max) as int)).push(ELLIPSIS)
    }
}

/// `fit_count` is the length of the longest prefix within the budget.
pub proof fn lemma_fit_count(s: Seq<char>, budget: nat)
    ensures
        fit_count(s, budget) <= s.len(),
        byte_len(s.take(fit_count(s, budget) as int)) <= budget,
        fit_count(s, budget) < s.len() ==> byte_len(s.take(fit_count(s, budget) as int + 1))
            > budget,
        fit_count(s, budget) == s.len() <==> byte_len(s) <= budget,
    decreases s.len(),
{
    if s.len() == 0 {
        assert(s.take(0) == s);
        assert(byte_len(s) == 0);
    } else {
        let w = utf8_width(s[0]);
        let head = seq![s[0]];
        assert(Seq::<char>::empty().push(s[0]) == head);
        lemma_byte_len_push(Seq::<char>::empty(), s[0]);
        assert(byte_len(Seq::<char>::empty()) == 0);
        assert(byte_len(head) == w);
        if w > budget {
            assert(s.take(0) == Seq::<char>::empty());
            assert(s.take(1) == head);
            lemma_byte_len_prefix(s, 1);
        } else {
            let rest = s.drop_first();
            let b = (budget - w) as nat;
            lemma_fit_count(rest, b);
            let k = fit_count(rest, b) as int;
            assert(s.take(k + 1) == head + rest.take(k));
            lemma_byte_len_concat(head, rest.take(k));
            if k < rest.len() {
                assert(s.take(k + 2) == head + rest.take(k + 1));
                lemma_byte_len_concat(head, rest.take(k + 1));
            }
            assert(s == head + rest);
            lemma_byte_len_concat(head, rest);
        }
    }
}

/// A cut text keeps whole characters of the text: what stands before the
/// ellipsis is a prefix of the text, takes no more than `max` bytes and does
/// not end in white space; with the ellipsis the result takes at most three
/// bytes more than `max`. A text that fits is returned as it is, so within
/// `max` bytes.
pub proof fn lemma_truncated_bounds(s: Seq<char>, max: nat)
    ensures
        byte_len(s) <= max ==> truncated(s, max) == s,
        byte_len(s) > max ==> {
            let kept = truncated(s, max).drop_last();
            &&& truncated(s, max).last() == ELLIPSIS
            &&& kept.len() < s.len()
            &&& kept == s.take(kept.len() as int)
            &&& byte_len(kept) <= max
            &&& byte_len(truncated(s, max)) == byte_len(kept) + 3
            &&& kept.len() > 0 ==> !is_whitespace_char(kept.last())
        },
{
    if byte_len(s) > max {
        lemma_fit_count(s, max);
        let k = fit_count(s, max) as int;
        let prefix = s.take(k);
        let kept = trim_end(prefix);
        lemma_trim_end_prefix(prefix);
        assert(truncated(s, max).drop_last() == kept);
        assert(prefix.take(kept.len() as int) == s.take(kept.len() as int));
        lemma_byte_len_prefix(prefix, kept.len() as int);
        lemma_byte_len_push(kept, ELLIPSIS);
    }
}

/// A cut text stays within `max` bytes, the ellipsis included, exactly where
/// the text fits or the kept part leaves three bytes for the ellipsis.
pub proof fn lemma_truncated_within_budget(s: Seq<char>, max: nat)
    ensures
        byte_len(truncated(s, max)) <= max <==> byte_len(s) <= max || byte_len(
            trim_end(s.take(fit_count(s, max) as int)),
        ) + 3 <= max,
{
    if byte_len(s) > max {
        lemma_byte_len_push(trim_end(s.take(fit_count(s, max) as int)), ELLIPSIS);
    }
}

/// Cuts a character vector to a budget of `max_len` bytes.
pub fn truncate_chars(text: &Vec<char>, max_len: usize) -> (out: Vec<char>)
    ensures
        out@ == truncated(text@, max_len as nat),
{
    let n = text.len();
    let mut used: usize = 0;
    let mut i: usize = 0;
    proof {
        assert(text@.take(0) == Seq::<char>::empty());
        assert(byte_len(Seq::<char>::empty()) == 0);
        assert(text@.skip(0) == text@);
    }
    while i < n
        invariant
            i <= n == text.len(),
            used <= max_len,
            used == byte_len(text@.take(i as int)),
            fit_count(text@, max_len as nat) == i + fit_count(
                text@.skip(i as int),
                (max_len - used) as nat,
            ),
        decreases n - i,
    {
        let w = char_width(text[i]);
        proof {
            let rest = text@.skip(i as int);
            assert(rest[0] == text@[i as int]);
            assert(rest.drop_first() == text@.skip(i + 1));
            assert(text@.take(i + 1) == text@.take(i as int).push(text@[i as int]));
            lemma_byte_len_push(text@.take(i as int), text@[i as int]);
        }
        if w > max_len - used {
            proof {
                assert(fit_count(text@, max_len as nat) == i);
                lemma_byte_len_prefix(text@, i + 1);
            }
            let e = trim_end_index(text, 0, i);
            let mut out = copy_range(text, 0, e);
            out.push(ELLIPSIS);
            return out;
        }
        used += w;
        i += 1;
    }
    proof {
        assert(text@.take(n as int) == text@);
        assert(text@.subrange(0, n as int) == text@);
    }
    copy_range(text, 0, n)
}

/// Cuts `text` to a budget of `max_len` bytes. A text that fits comes back
/// unchanged; a longer one keeps the whole characters that fit, loses the
/// white space at the end of what is kept, and ends in an ellipsis.
pub fn truncate_text(text: &str, max_len: usize) -> (out: String)
    ensures
        out@ == truncated(text@, max_len as nat),
{
    let chars = chars_of(text);
    let out = truncate_chars(&chars, max_len);
    string_of(&out)
}

/// Whether `e` is the index of the first bold marker in `s`.
pub open spec fn is_first_marker(s: Seq<char>, e: int) -> bool {
    marker_at(s, e) && forall|j: int| 0 <= j < e ==> !marker_at(s, j)
}

/// Whether `s` holds a bold marker.
pub open spec fn has_marker(s: Seq<char>) -> bool {
    exists|e: int| marker_at(s, e)
}

/// The index of the first bold marker in `s`, where it has one.
pub open spec fn first_marker(s: Seq<char>) -> int {
    choose|e: int| is_first_marker(s, e)
}

/// The phase label of a raw text: where the text begins with a bold marker
/// and holds a second one, what stands between the two, trimmed.
pub open spec fn phase_of(raw: Seq<char>) -> Option<Seq<char>> {
    if marker_at(raw, 0) && has_marker(raw.skip(2)) {
        Some(trim(raw.skip(2).take(first_marker(raw.skip(2)))))
    } else {
        None
    }
}

/// A sequence has at most one first marker.
pub proof fn lemma_first_marker_unique(s: Seq<char>, e: int)
    requires
        is_first_marker(s, e),
    ensures
        first_marker(s) == e,
        has_marker(s),
{
    let f = first_marker(s);
    assert(is_first_marker(s, f));
    if f < e {
        assert(!marker_at(s, f));
    }
    if e < f {
        assert(!marker_at(s, e));
    }
}

/// The phase label of a raw text, as a character vector.
pub fn phase_chars(raw: &Vec<char>) -> (out: Option<Vec<char>>)
    ensures
        match out {
            Some(label) => phase_of(raw@) == Some(label@),
            None => phase_of(raw@) is None,
        },
{
    let n = raw.len();
    if n < 2 || raw[0] != '*' || raw[1] != '*' {
        return None;
    }
    let ghost rest = raw@.skip(2);
    let mut e: usize = 2;
    while e < n - 1
        invariant
            2 <= e,
            n == raw.len(),
            n >= 2,
            marker_at(raw@, 0),
            rest == raw@.skip(2),
            forall|j: int| 0 <= j < e - 2 ==> !marker_at(rest, j),
        decreases n - e,
    {
        if raw[e] == '*' && raw[e + 1] == '*' {
            proof {
                assert(rest[e - 2] == raw@[e as int]);
                assert(rest[e - 1] == raw@[e + 1]);
                assert(is_first_marker(rest, e - 2));
                lemma_first_marker_unique(rest, e - 2);
                assert(rest.take(e - 2) == raw@.subrange(2, e as int));
            }
            return Some(trimmed_range(raw, 2, e));
        }
        proof {
            assert(rest[e - 2] == raw@[e as int]);
            assert(rest[e - 1] == raw@[e + 1]);
            assert(!marker_at(rest, e - 2));
        }
        e += 1;
    }
    proof {
        assert forall|j: int| !marker_at(rest, j) by {
            if marker_at(rest, j) {
                assert(j < e - 2);
            }
        }
    }
    None
}

/// The phase label of a raw text: if the text begins with `**` and holds a
/// second `**`, the text between the two, trimmed; otherwise none.
pub fn extract_phase(raw: &str) -> (out: Option<String>)
    ensures
        match out {
            Some(label) => phase_of(raw@) == Some(label@),
            None => phase_of(raw@) is None,
        },
{
    let chars = chars_of(raw);
    match phase_chars(&chars) {
        Some(label) => Some(string_of(&label)),
        None => None,
    }
}

/// Whether `c` is an ASCII letter or digit.
pub open spec fn is_ascii_alnum(c: char) -> bool {
    ('0' <= c && c <= '9') || ('a' <= c && c <= 'z') || ('A' <= c && c <= 'Z')
}

/// `c` with an ASCII capital letter turned into its small letter.
pub open spec fn ascii_lower(c: char) -> char {
    if 'A' <= c && c <= 'Z' {
        ((c as u32) + 32) as char
    } else {
        c
    }
}

/// The slug of `s` before its trailing hyphen is removed: ASCII letters and
/// digits in lower case, every run of other characters as one hyphen, none
/// at the start.
pub open spec fn slug_run(s: Seq<char>) -> Seq<char>
    decreases s.len(),
{
    if s.len() == 0 {
        Seq::empty()
    } else {
        let before = slug_run(s.drop_last());
        if is_ascii_alnum(s.last()) {
            before.push(ascii_lower(s.last()))
        } else if before.len() > 0 && before.last() != '-' {
            before.push('-')
        } else {
            before
        }
    }
}

/// `s` without the hyphens at its end.
pub open spec fn without_trailing_hyphens(s: Seq<char>) -> Seq<char>
    decreases s.len(),
{
    if s.len() > 0 && s.last() == '-' {
        without_trailing_hyphens(s.drop_last())
    } else {
        s
    }
}

/// The slug of a label, or none where nothing is left of it.
pub open spec fn slug_of(s: Seq<char>) -> Option<Seq<char>> {
    let slug = without_trailing_hyphens(slug_run(s));
    if slug.len() == 0 {
        None
    } else {
        Some(slug)
    }
}

/// Whether `c` may stand in a slug: a small ASCII letter, a digit or a hyphen.
pub open spec fn is_slug_char(c: char) -> bool {
    ('0' <= c && c <= '9') || ('a' <= c && c <= 'z') || c == '-'
}

/// A slug holds small ASCII letters, digits and hyphens only, begins and
/// ends with a letter or digit, and never holds two hyphens in a row.
pub proof fn lemma_slug_shape(s: Seq<char>)
    ensures
        forall|i: int| 0 <= i < slug_run(s).len() ==> is_slug_char(#[trigger] slug_run(s)[i]),
        slug_run(s).len() > 0 ==> slug_run(s)[0] != '-',
        forall|i: int|
            0 <= i && i + 1 < slug_run(s).len() ==> !(#[trigger] slug_run(s)[i] == '-'
                && slug_run(s)[i + 1] == '-'),
        slug_of(s) matches Some(slug) ==> {
            &&& slug.len() > 0
            &&& slug[0] != '-'
            &&& slug.last() != '-'
            &&& forall|i: int| 0 <= i < slug.len() ==> is_slug_char(#[trigger] slug[i])
            &&& forall|i: int|
                0 <= i && i + 1 < slug.len() ==> !(#[trigger] slug[i] == '-' && slug[i + 1] == '-')
        },
    decreases s.len(),
{
    if s.len() > 0 {
        lemma_slug_shape(s.drop_last());
    }
    let run = slug_run(s);
    if run.len() > 0 && run.last() == '-' {
        let cut = run.drop_last();
        assert(cut.len() > 0 ==> cut.last() != '-') by {
            if cut.len() > 0 {
                assert(!(run[run.len() - 2] == '-' && run[run.len() - 1] == '-'));
            }
        }
        assert(without_trailing_hyphens(cut) == cut);
        assert(without_trailing_hyphens(run) == cut);
    }
}

/// The slug of a label, as a character vector.
pub fn slug_chars(input: &Vec<char>) -> (out: Option<Vec<char>>)
    ensures
        match out {
            Some(slug) => slug_of(input@) == Some(slug@),
            None => slug_of(input@) is None,
        },
{
    let mut slug: Vec<char> = Vec::new();
    let mut i: usize = 0;
    while i < input.len()
        invariant
            i <= input.len(),
            slug@ == slug_run(input@.take(i as int)),
        decreases input.len() - i,
    {
        let ch = input[i];
        proof {
            let cur = input@.take(i + 1);
            assert(cur.drop_last() == input@.take(i as int));
            assert(cur.last() == ch);
        }
        if ('0' <= ch && ch <= '9') || ('a' <= ch && ch <= 'z') {
            slug.push(ch);
        } else if 'A' <= ch && ch <= 'Z' {
            let code: u32 = ch as u32;
            let low: u8 = (code + 32) as u8;
            slug.push(low as char);
        } else if slug.len() > 0 && slug[slug.len() - 1] != '-' {
            slug.push('-');
        }
        i += 1;
    }
    proof {
        assert(input@.take(input@.len() as int) == input@);
    }
    let ghost run = slug@;
    while slug.len() > 0 && slug[slug.len() - 1] == '-'
        invariant
            without_trailing_hyphens(run) == without_trailing_hyphens(slug@),
        decreases slug.len(),
    {
        slug.pop();
    }
    if slug.len() == 0 {
        None
    } else {
        Some(slug)
    }
}

/// The slug of a label: ASCII letters and digits in lower case, every run of
/// other characters as one hyphen, no hyphen at either end; none where
/// nothing is left.
pub fn slugify(input: &str) -> (out: Option<String>)
    ensures
        match out {
            Some(slug) => slug_of(input@) == Some(slug@),
            None => slug_of(input@) is None,
        },
{
    let chars = chars_of(input);
    match slug_chars(&chars) {
        Some(slug) => Some(string_of(&slug)),
        None => None,
    }
}

/// What the tooltip adds to the timestamp: the raw text where it differs
/// from the sanitised text, else the sanitised text where truncation
/// changed it.
pub open spec fn tooltip_detail(
    raw: Seq<char>,
    sanitized: Seq<char>,
    truncated: Seq<char>,
) -> Option<Seq<char>> {
    if raw != sanitized {
        Some(raw)
    } else if sanitized != truncated {
        Some(sanitized)
    } else {
        None
    }
}

/// The tooltip: the timestamp and the detail, each where present, joined by
/// a line feed; none where both are absent.
pub open spec fn tooltip_of(
    timestamp: Option<Seq<char>>,
    raw: Seq<char>,
    sanitized: Seq<char>,
    truncated: Seq<char>,
) -> Option<Seq<char>> {
    match (timestamp, tooltip_detail(raw, sanitized, truncated)) {
        (Some(ts), Some(detail)) => Some(ts + seq!['\n'] + detail),
        (Some(ts), None) => Some(ts),
        (None, Some(detail)) => Some(detail),
        (None, None) => None,
    }
}

/// Composes the tooltip of an event from its timestamp, its raw text, the
/// sanitised text and the truncated text.
pub fn build_tooltip(
    timestamp: Option<&str>,
    raw_text: &str,
    sanitized: &str,
    truncated: &str,
) -> (out: Option<String>)
    ensures
        match out {
            Some(tip) => tooltip_of(
                match timestamp {
                    Some(ts) => Some(ts@),
                    None => None,
                },
                raw_text@,
                sanitized@,
                truncated@,
            ) == Some(tip@),
            None => tooltip_of(
                match timestamp {
                    Some(ts) => Some(ts@),
                    None => None,
                },
                raw_text@,
                sanitized@,
                truncated@,
            ) is None,
        },
{
    let raw = chars_of(raw_text);
    let clean = chars_of(sanitized);
    let cut = chars_of(truncated);
    let detail: Option<Vec<char>> = if !same_chars(&raw, &clean) {
        Some(raw)
    } else if !same_chars(&clean, &cut) {
        Some(clean)
    } else {
        None
    };
    match timestamp {
        Some(ts) => {
            let mut buf = chars_of(ts);
            match detail {
                Some(d) => {
                    buf.push('\n');
                    append_chars(&mut buf, &d);
                    assert(buf@ == ts@ + seq!['\n'] + d@);
                },
                None => {},
            }
            Some(string_of(&buf))
        },
        None => match detail {
            Some(d) => Some(string_of(&d)),
            None => None,
        },
    }
}

} // verus!
