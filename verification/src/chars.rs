//! Character sequences: conversion between strings and vectors of `char`,
//! Unicode white space, trimming, and UTF-8 byte lengths.

use vstd::prelude::*;
use vstd::utf8::{encode_scalar, encode_utf8, valid_utf8};

verus! {

/// Whether `c` has the Unicode property `White_Space`: the controls U+0009
/// to U+000D, the space, U+0085, the no-break space U+00A0, U+1680, the
/// spaces U+2000 to U+200A, the line and paragraph separators U+2028 and
/// U+2029, U+202F, U+205F and the ideographic space U+3000.
pub open spec fn is_whitespace_char(c: char) -> bool {
    let u = c as u32;
    ||| 0x0009 <= u <= 0x000D
    ||| u == 0x0020
    ||| u == 0x0085
    ||| u == 0x00A0
    ||| u == 0x1680
    ||| 0x2000 <= u <= 0x200A
    ||| u == 0x2028
    ||| u == 0x2029
    ||| u == 0x202F
    ||| u == 0x205F
    ||| u == 0x3000
}

/// `char::is_whitespace` tells whether the character has the Unicode property
/// `White_Space`, which the Unicode Character Database gives as the
/// twenty-five code points of `is_whitespace_char`.
pub assume_specification[ char::is_whitespace ](c: char) -> (r: bool)
    ensures
        r == is_whitespace_char(c),
;

/// `String::push` appends one character to the end of the string.
pub assume_specification[ String::push ](s: &mut String, ch: char)
    ensures
        final(s)@ == old(s)@.push(ch),
;

/// Calls `String::from_utf8`, which checks that the bytes are valid UTF-8 and
/// then makes a string of exactly these bytes; where they are not valid
/// UTF-8 it reports an error, which becomes `None`.
#[verifier::external_body]
pub(crate) fn text_from_utf8(bytes: Vec<u8>) -> (out: Option<String>)
    ensures
        match out {
            Some(s) => valid_utf8(bytes@) && encode_utf8(s@) == bytes@,
            None => !valid_utf8(bytes@),
        },
{
    String::from_utf8(bytes).ok()
}

/// The texts of a sequence of strings.
pub open spec fn texts(v: Seq<String>) -> Seq<Seq<char>> {
    Seq::new(v.len(), |i: int| v[i]@)
}

/// The characters of `s`, in order.
pub fn chars_of(s: &str) -> (out: Vec<char>)
    ensures
        out@ == s@,
{
    let mut out: Vec<char> = Vec::new();
    for c in it: s.chars()
        invariant
            out@ == it.seq().take(it.index() as int),
            it.seq() == s@,
    {
        out.push(c);
    }
    out
}

/// The string made of the characters `chars[from..to]`.
pub(crate) fn string_of_range(chars: &Vec<char>, from: usize, to: usize) -> (out: String)
    requires
        from <= to <= chars.len(),
    ensures
        out@ == chars@.subrange(from as int, to as int),
{
    let mut out = String::new();
    let mut i: usize = from;
    while i < to
        invariant
            from <= i <= to <= chars.len(),
            out@ == chars@.subrange(from as int, i as int),
        decreases to - i,
    {
        out.push(chars[i]);
        i += 1;
    }
    out
}

/// The string made of `chars`.
pub fn string_of(chars: &Vec<char>) -> (out: String)
    ensures
        out@ == chars@,
{
    let out = string_of_range(chars, 0, chars.len());
    assert(chars@.subrange(0, chars@.len() as int) == chars@);
    out
}

/// Whether two character vectors hold the same sequence.
pub fn same_chars(a: &Vec<char>, b: &Vec<char>) -> (r: bool)
    ensures
        r == (a@ == b@),
{
    if a.len() != b.len() {
        return false;
    }
    let mut i: usize = 0;
    while i < a.len()
        invariant
            i <= a.len(),
            a.len() == b.len(),
            a@.take(i as int) == b@.take(i as int),
        decreases a.len() - i,
    {
        if a[i] != b[i] {
            return false;
        }
        assert(a@.take(i + 1) == a@.take(i as int).push(a@[i as int]));
        assert(b@.take(i + 1) == b@.take(i as int).push(b@[i as int]));
        i += 1;
    }
    assert(a@.take(a@.len() as int) == a@);
    assert(b@.take(b@.len() as int) == b@);
    true
}

/// `s` without its leading white space.
pub open spec fn trim_start(s: Seq<char>) -> Seq<char>
    decreases s.len(),
{
    if s.len() > 0 && is_whitespace_char(s[0]) {
        trim_start(s.drop_first())
    } else {
        s
    }
}

/// `s` without its trailing white space.
pub open spec fn trim_end(s: Seq<char>) -> Seq<char>
    decreases s.len(),
{
    if s.len() > 0 && is_whitespace_char(s.last()) {
        trim_end(s.drop_last())
    } else {
        s
    }
}

/// `s` without leading and trailing white space.
pub open spec fn trim(s: Seq<char>) -> Seq<char> {
    trim_end(trim_start(s))
}

/// Whether every character of `s` is white space.
pub open spec fn is_blank(s: Seq<char>) -> bool {
    forall|i: int| 0 <= i < s.len() ==> is_whitespace_char(#[trigger] s[i])
}

/// Trimming the end leaves a prefix of the sequence that does not end in
/// white space.
pub proof fn lemma_trim_end_prefix(s: Seq<char>)
    ensures
        trim_end(s).len() <= s.len(),
        trim_end(s) == s.take(trim_end(s).len() as int),
        trim_end(s).len() > 0 ==> !is_whitespace_char(trim_end(s).last()),
        forall|i: int| trim_end(s).len() <= i < s.len() ==> is_whitespace_char(#[trigger] s[i]),
    decreases s.len(),
{
    if s.len() > 0 && is_whitespace_char(s.last()) {
        lemma_trim_end_prefix(s.drop_last());
        let t = trim_end(s.drop_last());
        assert(s.drop_last().take(t.len() as int) == s.take(t.len() as int));
        assert forall|i: int| t.len() <= i < s.len() implies is_whitespace_char(
            #[trigger] s[i],
        ) by {
            if i < s.len() - 1 {
                assert(s[i] == s.drop_last()[i]);
            }
        }
    } else {
        assert(s.take(s.len() as int) == s);
    }
}

/// Trimming the start leaves a suffix of the sequence that does not begin
/// with white space.
pub proof fn lemma_trim_start_suffix(s: Seq<char>)
    ensures
        trim_start(s).len() <= s.len(),
        trim_start(s) == s.skip(s.len() - trim_start(s).len()),
        trim_start(s).len() > 0 ==> !is_whitespace_char(trim_start(s)[0]),
        forall|i: int|
            0 <= i < s.len() - trim_start(s).len() ==> is_whitespace_char(#[trigger] s[i]),
    decreases s.len(),
{
    if s.len() > 0 && is_whitespace_char(s[0]) {
        lemma_trim_start_suffix(s.drop_first());
        let t = trim_start(s.drop_first());
        let k = s.len() - 1 - t.len();
        assert(s.drop_first().skip(k) == s.skip(k + 1));
        assert forall|i: int| 0 <= i < s.len() - t.len() implies is_whitespace_char(
            #[trigger] s[i],
        ) by {
            if i > 0 {
                assert(s[i] == s.drop_first()[i - 1]);
            }
        }
    } else {
        assert(s.skip(0) == s);
    }
}

/// The index at which `trim_start` of `chars[from..end]` begins.
pub(crate) fn trim_start_index(chars: &Vec<char>, from: usize, end: usize) -> (b: usize)
    requires
        from <= end <= chars.len(),
    ensures
        from <= b <= end,
        chars@.subrange(b as int, end as int) == trim_start(
            chars@.subrange(from as int, end as int),
        ),
{
    let mut b: usize = from;
    while b < end && chars[b].is_whitespace()
        invariant
            from <= b <= end <= chars.len(),
            trim_start(chars@.subrange(from as int, end as int)) == trim_start(
                chars@.subrange(b as int, end as int),
            ),
        decreases end - b,
    {
        proof {
            let cur = chars@.subrange(b as int, end as int);
            assert(cur[0] == chars@[b as int]);
            assert(cur.drop_first() == chars@.subrange(b + 1, end as int));
        }
        b += 1;
    }
    proof {
        let cur = chars@.subrange(b as int, end as int);
        if b < end {
            assert(cur[0] == chars@[b as int]);
        }
    }
    b
}

/// The index at which `trim_end` of `chars[from..end]` ends.
pub(crate) fn trim_end_index(chars: &Vec<char>, from: usize, end: usize) -> (e: usize)
    requires
        from <= end <= chars.len(),
    ensures
        from <= e <= end,
        chars@.subrange(from as int, e as int) == trim_end(
            chars@.subrange(from as int, end as int),
        ),
{
    let ghost s = chars@.subrange(from as int, end as int);
    let mut e: usize = end;
    while e > from && chars[e - 1].is_whitespace()
        invariant
            from <= e <= end <= chars.len(),
            s == chars@.subrange(from as int, end as int),
            trim_end(s) == trim_end(chars@.subrange(from as int, e as int)),
        decreases e - from,
    {
        proof {
            let cur = chars@.subrange(from as int, e as int);
            assert(cur.last() == chars@[e - 1]);
            assert(cur.drop_last() == chars@.subrange(from as int, e - 1));
        }
        e -= 1;
    }
    proof {
        let cur = chars@.subrange(from as int, e as int);
        if e > from {
            assert(cur.last() == chars@[e - 1]);
        }
    }
    e
}

/// A copy of `chars[from..to]`.
pub(crate) fn copy_range(chars: &Vec<char>, from: usize, to: usize) -> (out: Vec<char>)
    requires
        from <= to <= chars.len(),
    ensures
        out@ == chars@.subrange(from as int, to as int),
{
    let mut out: Vec<char> = Vec::new();
    let mut i: usize = from;
    while i < to
        invariant
            from <= i <= to <= chars.len(),
            out@ == chars@.subrange(from as int, i as int),
        decreases to - i,
    {
        out.push(chars[i]);
        i += 1;
    }
    out
}

/// `chars[from..to]` without leading and trailing white space.
pub(crate) fn trimmed_range(chars: &Vec<char>, from: usize, to: usize) -> (out: Vec<char>)
    requires
        from <= to <= chars.len(),
    ensures
        out@ == trim(chars@.subrange(from as int, to as int)),
{
    let b = trim_start_index(chars, from, to);
    let e = trim_end_index(chars, b, to);
    copy_range(chars, b, e)
}

/// `chars` without leading and trailing white space.
pub fn trimmed(chars: &Vec<char>) -> (out: Vec<char>)
    ensures
        out@ == trim(chars@),
{
    proof {
        assert(chars@.subrange(0, chars@.len() as int) == chars@);
    }
    trimmed_range(chars, 0, chars.len())
}

/// Whether `s` consists of white space only (the empty string included).
pub fn is_blank_text(s: &str) -> (r: bool)
    ensures
        r == is_blank(s@),
{
    let chars = chars_of(s);
    let mut i: usize = 0;
    while i < chars.len()
        invariant
            i <= chars.len(),
            chars@ == s@,
            forall|j: int| 0 <= j < i ==> is_whitespace_char(#[trigger] chars@[j]),
        decreases chars.len() - i,
    {
        if !chars[i].is_whitespace() {
            assert(!is_whitespace_char(s@[i as int]));
            return false;
        }
        i += 1;
    }
    true
}

/// The number of bytes that the UTF-8 encoding of `c` takes.
pub open spec fn utf8_width(c: char) -> nat {
    if (c as u32) < 0x80 {
        1
    } else if (c as u32) < 0x800 {
        2
    } else if (c as u32) < 0x10000 {
        3
    } else {
        4
    }
}

/// The number of bytes that the UTF-8 encoding of `s` takes.
pub open spec fn byte_len(s: Seq<char>) -> nat {
    encode_utf8(s).len()
}

/// A character is encoded in as many bytes as `utf8_width` says.
pub proof fn lemma_scalar_width(c: char)
    ensures
        encode_scalar(c as u32).len() == utf8_width(c),
{
}

/// Encoding distributes over concatenation.
pub proof fn lemma_encode_concat(a: Seq<char>, b: Seq<char>)
    ensures
        encode_utf8(a + b) == encode_utf8(a) + encode_utf8(b),
    decreases a.len(),
{
    if a.len() == 0 {
        assert(a + b == b);
        assert(encode_utf8(a) + encode_utf8(b) == encode_utf8(b));
    } else {
        lemma_encode_concat(a.drop_first(), b);
        assert((a + b).drop_first() == a.drop_first() + b);
        assert((a + b)[0] == a[0]);
        assert(encode_scalar(a[0] as u32) + (encode_utf8(a.drop_first()) + encode_utf8(b)) == (
        encode_scalar(a[0] as u32) + encode_utf8(a.drop_first())) + encode_utf8(b));
    }
}

/// Byte lengths add up over concatenation.
pub proof fn lemma_byte_len_concat(a: Seq<char>, b: Seq<char>)
    ensures
        byte_len(a + b) == byte_len(a) + byte_len(b),
{
    lemma_encode_concat(a, b);
}

/// One more character adds its width to the byte length.
pub proof fn lemma_byte_len_push(s: Seq<char>, c: char)
    ensures
        byte_len(s.push(c)) == byte_len(s) + utf8_width(c),
{
    lemma_byte_len_concat(s, seq![c]);
    assert(s.push(c) == s + seq![c]);
    lemma_scalar_width(c);
    assert(seq![c].drop_first() == Seq::<char>::empty());
    assert(encode_utf8(seq![c]) == encode_scalar(c as u32) + encode_utf8(Seq::<char>::empty()));
    assert(encode_utf8(Seq::<char>::empty()).len() == 0);
}

/// A prefix takes no more bytes than the whole.
pub proof fn lemma_byte_len_prefix(s: Seq<char>, k: int)
    requires
        0 <= k <= s.len(),
    ensures
        byte_len(s.take(k)) <= byte_len(s),
{
    lemma_byte_len_concat(s.take(k), s.skip(k));
    assert(s.take(k) + s.skip(k) == s);
}

/// The number of bytes that the UTF-8 encoding of `c` takes.
pub fn char_width(c: char) -> (w: usize)
    ensures
        w == utf8_width(c),
{
    let u: u32 = c as u32;
    if u < 0x80 {
        1
    } else if u < 0x800 {
        2
    } else if u < 0x10000 {
        3
    } else {
        4
    }
}

/// Appends the characters of `tail` to `buf`.
pub fn append_chars(buf: &mut Vec<char>, tail: &Vec<char>)
    ensures
        final(buf)@ == old(buf)@ + tail@,
{
    let mut i: usize = 0;
    while i < tail.len()
        invariant
            i <= tail.len(),
            buf@ == old(buf)@ + tail@.take(i as int),
        decreases tail.len() - i,
    {
        buf.push(tail[i]);
        i += 1;
        assert(buf@ == old(buf)@ + tail@.take(i as int));
    }
    assert(tail@.take(tail@.len() as int) == tail@);
}

/// Appends the characters of the string `tail` to `buf`.
pub fn append_text(buf: &mut Vec<char>, tail: &str)
    ensures
        final(buf)@ == old(buf)@ + tail@,
{
    let chars = chars_of(tail);
    append_chars(buf, &chars);
}

} // verus!
