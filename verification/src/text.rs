//! What the library needs of std's strings and has no specification for.

use vstd::prelude::*;
use vstd::string::StrSliceExecFns;
use vstd::utf8::{decode_utf8, valid_utf8};

verus! {

/// `str`'s `eq`: two strings are equal when they hold the same characters in
/// the same order.
pub assume_specification[ <str as PartialEq>::eq ](a: &str, b: &str) -> (r: bool)
    ensures
        r == (a@ == b@),
;

/// Whether two strings hold the same characters.
pub fn str_eq(a: &str, b: &str) -> (r: bool)
    ensures
        r == (a@ == b@),
{
    a.eq(b)
}

/// chrono's `Local::now`, written out by its `Display`: the local date and
/// time of the call and the offset from UTC. Of the text only this is
/// claimed, that it is not empty.
#[verifier::external_body]
pub(crate) fn local_now_text() -> (text: String)
    ensures
        text@.len() > 0,
{
    chrono::Local::now().to_string()
}

/// std's `String::from_utf8`: the text that the bytes encode, or none where
/// they are not valid UTF-8.
#[verifier::external_body]
pub(crate) fn utf8_text(bytes: Vec<u8>) -> (text: Option<String>)
    ensures
        text is Some <==> valid_utf8(bytes@),
        text is Some ==> text->Some_0@ == decode_utf8(bytes@),
{
    match String::from_utf8(bytes) {
        Ok(text) => Some(text),
        Err(_) => None,
    }
}

/// The characters of a string, in order.
pub fn chars_of(s: &str) -> (chars: Vec<char>)
    ensures
        chars@ == s@,
{
    let mut chars: Vec<char> = Vec::new();
    for c in it: s.chars()
        invariant
            chars@ == it.seq().take(it.index() as int),
            it.seq() == s@,
    {
        chars.push(c);
    }
    chars
}

/// The characters of `s` from position `from` up to position `to`, as a
/// string.
pub fn piece(s: &str, from: usize, to: usize) -> (r: String)
    requires
        from <= to <= s@.len(),
    ensures
        r@ == s@.subrange(from as int, to as int),
{
    s.substring_char(from, to).to_owned()
}

/// Whether `s` begins with `prefix`.
pub fn starts_with(s: &str, prefix: &str) -> (r: bool)
    ensures
        r == prefix@.is_prefix_of(s@),
{
    let whole = chars_of(s);
    let head = chars_of(prefix);
    has_prefix(&whole, 0, whole.len(), &head)
}

/// Whether the characters of `chars` from `from` up to `to` begin with
/// `prefix`.
pub fn has_prefix(chars: &Vec<char>, from: usize, to: usize, prefix: &Vec<char>) -> (r: bool)
    requires
        from <= to <= chars@.len(),
    ensures
        r == prefix@.is_prefix_of(chars@.subrange(from as int, to as int)),
{
    let ghost part = chars@.subrange(from as int, to as int);
    if prefix.len() > to - from {
        return false;
    }
    let mut i: usize = 0;
    while i < prefix.len()
        invariant
            from <= to <= chars@.len(),
            prefix@.len() <= to - from,
            i <= prefix@.len(),
            part == chars@.subrange(from as int, to as int),
            forall|j: int| 0 <= j < i ==> prefix@[j] == part[j],
        decreases prefix.len() - i,
    {
        if prefix[i] != chars[from + i] {
            assert(part[i as int] == chars@[from + i]);
            assert(part.subrange(0, prefix@.len() as int)[i as int] != prefix@[i as int]);
            return false;
        }
        assert(part[i as int] == chars@[from + i]);
        i += 1;
    }
    assert(prefix@ =~= part.subrange(0, prefix@.len() as int));
    true
}

/// Whether a character is white space, as Unicode defines it.
pub open spec fn is_space(c: char) -> bool {
    let u = c as u32;
    ||| 0x09 <= u <= 0x0D
    ||| u == 0x20
    ||| u == 0x85
    ||| u == 0xA0
    ||| u == 0x1680
    ||| 0x2000 <= u <= 0x200A
    ||| u == 0x2028
    ||| u == 0x2029
    ||| u == 0x202F
    ||| u == 0x205F
    ||| u == 0x3000
}

/// Whether a character is white space, as ASCII defines it: a tab, a line
/// feed, a form feed, a carriage return or a space.
pub open spec fn is_ascii_space(c: char) -> bool {
    c == '\t' || c == '\n' || c == '\u{c}' || c == '\r' || c == ' '
}

/// Whether a character parts words: white space, as ASCII defines it where
/// `ascii` says so, as Unicode defines it where not.
pub open spec fn is_gap(c: char, ascii: bool) -> bool {
    if ascii {
        is_ascii_space(c)
    } else {
        is_space(c)
    }
}

/// Whether a character parts words.
pub fn parts_words(c: char, ascii: bool) -> (r: bool)
    ensures
        r == is_gap(c, ascii),
{
    if ascii {
        c == '\t' || c == '\n' || c == '\u{c}' || c == '\r' || c == ' '
    } else {
        is_whitespace(c)
    }
}

/// Whether a character is white space, as Unicode defines it.
pub fn is_whitespace(c: char) -> (r: bool)
    ensures
        r == is_space(c),
{
    let u: u32 = c as u32;
    (0x09 <= u && u <= 0x0D) || u == 0x20 || u == 0x85 || u == 0xA0 || u == 0x1680 || (0x2000
        <= u && u <= 0x200A) || u == 0x2028 || u == 0x2029 || u == 0x202F || u == 0x205F || u
        == 0x3000
}

/// The position of the first line feed at or behind `from`, or the length of
/// the text where there is none.
pub open spec fn line_end(s: Seq<char>, from: int) -> int
    decreases s.len() - from,
{
    if from >= s.len() {
        s.len() as int
    } else if s[from] == '\n' {
        from
    } else {
        line_end(s, from + 1)
    }
}

/// A line feed is never found before the position the search began at.
pub proof fn lemma_line_end_bounds(s: Seq<char>, from: int)
    requires
        0 <= from <= s.len(),
    ensures
        from <= line_end(s, from) <= s.len(),
    decreases s.len() - from,
{
    if from < s.len() && s[from] != '\n' {
        lemma_line_end_bounds(s, from + 1);
    }
}

/// The line between `from` and `end`. Where a line feed closes it, a carriage
/// return just before the line feed belongs to the line ending.
pub open spec fn line_at(s: Seq<char>, from: int, end: int) -> Seq<char> {
    if end < s.len() && from < end && s[end - 1] == '\r' {
        s.subrange(from, end - 1)
    } else {
        s.subrange(from, end)
    }
}

/// The lines of the text from position `from` on. A line ends at a line feed
/// or at the end of the text; the text behind the last line feed is a line
/// only where it is not empty.
pub open spec fn lines_from(s: Seq<char>, from: int) -> Seq<Seq<char>>
    decreases s.len() - from,
    via lines_from_decreases
{
    if from < 0 || from >= s.len() {
        Seq::empty()
    } else {
        let end = line_end(s, from);
        if end >= s.len() {
            seq![line_at(s, from, end)]
        } else {
            seq![line_at(s, from, end)] + lines_from(s, end + 1)
        }
    }
}

#[via_fn]
proof fn lines_from_decreases(s: Seq<char>, from: int) {
    if 0 <= from < s.len() {
        lemma_line_end_bounds(s, from);
    }
}

/// The lines of a text.
pub open spec fn lines_of(s: Seq<char>) -> Seq<Seq<char>> {
    lines_from(s, 0)
}

/// Finds the end of the line that begins at `from`.
pub fn find_line_end(chars: &Vec<char>, from: usize) -> (end: usize)
    requires
        from <= chars@.len(),
    ensures
        end == line_end(chars@, from as int),
        from <= end <= chars@.len(),
{
    let mut i: usize = from;
    while i < chars.len() && chars[i] != '\n'
        invariant
            from <= i <= chars@.len(),
            line_end(chars@, from as int) == line_end(chars@, i as int),
        decreases chars.len() - i,
    {
        i += 1;
    }
    i
}

/// The position of the first character at or behind `from` that is no white
/// space, or the length of the text where there is none.
pub open spec fn skip_spaces(s: Seq<char>, from: int, ascii: bool) -> int
    decreases s.len() - from,
{
    if from >= s.len() {
        s.len() as int
    } else if !is_gap(s[from], ascii) {
        from
    } else {
        skip_spaces(s, from + 1, ascii)
    }
}

/// The position of the first white space at or behind `from`, or the length
/// of the text where there is none.
pub open spec fn word_end(s: Seq<char>, from: int, ascii: bool) -> int
    decreases s.len() - from,
{
    if from >= s.len() {
        s.len() as int
    } else if is_gap(s[from], ascii) {
        from
    } else {
        word_end(s, from + 1, ascii)
    }
}

/// Neither search goes backwards, and a word is never empty.
pub proof fn lemma_word_bounds(s: Seq<char>, from: int, ascii: bool)
    requires
        0 <= from <= s.len(),
    ensures
        from <= skip_spaces(s, from, ascii) <= s.len(),
        from <= word_end(s, from, ascii) <= s.len(),
        from < s.len() && !is_gap(s[from], ascii) ==> from < word_end(s, from, ascii),
        skip_spaces(s, from, ascii) < s.len() ==> !is_gap(s[skip_spaces(s, from, ascii)], ascii),
    decreases s.len() - from,
{
    if from < s.len() {
        lemma_word_bounds(s, from + 1, ascii);
    }
}

/// The words of the text from position `from` on: the longest runs of
/// characters that are no white space.
pub open spec fn words_from(s: Seq<char>, from: int, ascii: bool) -> Seq<Seq<char>>
    decreases s.len() - from,
    via words_from_decreases
{
    if from < 0 || from >= s.len() {
        Seq::empty()
    } else {
        let start = skip_spaces(s, from, ascii);
        if start >= s.len() {
            Seq::empty()
        } else {
            let end = word_end(s, start, ascii);
            seq![s.subrange(start, end)] + words_from(s, end, ascii)
        }
    }
}

#[via_fn]
proof fn words_from_decreases(s: Seq<char>, from: int, ascii: bool) {
    if 0 <= from < s.len() {
        lemma_word_bounds(s, from, ascii);
        lemma_word_bounds(s, skip_spaces(s, from, ascii), ascii);
    }
}

/// The words of a text, parted by white space as Unicode defines it.
pub open spec fn words_of(s: Seq<char>) -> Seq<Seq<char>> {
    words_from(s, 0, false)
}

/// The words of a text, parted by white space as ASCII defines it.
pub open spec fn ascii_words_of(s: Seq<char>) -> Seq<Seq<char>> {
    words_from(s, 0, true)
}

/// Finds the beginning of the next word at or behind `from`.
pub fn find_word_start(chars: &Vec<char>, from: usize, ascii: bool) -> (start: usize)
    requires
        from <= chars@.len(),
    ensures
        start == skip_spaces(chars@, from as int, ascii),
        from <= start <= chars@.len(),
{
    let mut i: usize = from;
    while i < chars.len() && parts_words(chars[i], ascii)
        invariant
            from <= i <= chars@.len(),
            skip_spaces(chars@, from as int, ascii) == skip_spaces(chars@, i as int, ascii),
        decreases chars.len() - i,
    {
        i += 1;
    }
    i
}

/// Finds the end of the word that begins at `from`.
pub fn find_word_end(chars: &Vec<char>, from: usize, ascii: bool) -> (end: usize)
    requires
        from <= chars@.len(),
    ensures
        end == word_end(chars@, from as int, ascii),
        from <= end <= chars@.len(),
{
    let mut i: usize = from;
    while i < chars.len() && !parts_words(chars[i], ascii)
        invariant
            from <= i <= chars@.len(),
            word_end(chars@, from as int, ascii) == word_end(chars@, i as int, ascii),
        decreases chars.len() - i,
    {
        i += 1;
    }
    i
}

/// `String`'s `push`: appends one character.
pub assume_specification[ String::push ](s: &mut String, c: char)
    ensures
        final(s)@ == old(s)@.push(c),
;

/// The characters from position `from` up to position `to`, as a string.
pub fn string_of(chars: &Vec<char>, from: usize, to: usize) -> (r: String)
    requires
        from <= to <= chars@.len(),
    ensures
        r@ == chars@.subrange(from as int, to as int),
{
    let mut r = String::new();
    let mut i: usize = from;
    while i < to
        invariant
            from <= i <= to <= chars@.len(),
            r@ == chars@.subrange(from as int, i as int),
        decreases to - i,
    {
        r.push(chars[i]);
        assert(r@ =~= chars@.subrange(from as int, i + 1));
        i += 1;
    }
    r
}

/// What each of the strings holds, in order.
pub open spec fn texts(strings: Seq<String>) -> Seq<Seq<char>> {
    strings.map_values(|s: String| s@)
}

/// Splits a text into its lines.
pub fn split_lines(text: &str) -> (lines: Vec<String>)
    ensures
        texts(lines@) == lines_of(text@),
{
    let chars = chars_of(text);
    let mut lines: Vec<String> = Vec::new();
    let mut pos: usize = 0;
    while pos < chars.len()
        invariant
            pos <= chars@.len(),
            chars@ == text@,
            texts(lines@) + lines_from(chars@, pos as int) == lines_of(text@),
        decreases chars.len() - pos,
    {
        let end = find_line_end(&chars, pos);
        let stop = if end < chars.len() && pos < end && chars[end - 1] == '\r' {
            end - 1
        } else {
            end
        };
        let line = string_of(&chars, pos, stop);
        proof {
            let rest = if end >= chars@.len() {
                Seq::<Seq<char>>::empty()
            } else {
                lines_from(chars@, end + 1)
            };
            assert(lines_from(chars@, pos as int) == seq![line@] + rest);
            assert(texts(lines@.push(line)) =~= texts(lines@).push(line@));
            assert(texts(lines@).push(line@) + rest =~= texts(lines@) + (seq![line@] + rest));
        }
        lines.push(line);
        if end >= chars.len() {
            pos = chars.len();
        } else {
            pos = end + 1;
        }
    }
    assert(texts(lines@) + Seq::<Seq<char>>::empty() =~= texts(lines@));
    lines
}

/// Splits a text into its words, parted by white space as ASCII defines it
/// where `ascii` says so, as Unicode defines it where not.
pub fn split_words_by(text: &str, ascii: bool) -> (words: Vec<String>)
    ensures
        texts(words@) == words_from(text@, 0, ascii),
{
    let chars = chars_of(text);
    let mut words: Vec<String> = Vec::new();
    let mut pos: usize = 0;
    while pos < chars.len()
        invariant
            pos <= chars@.len(),
            chars@ == text@,
            texts(words@) + words_from(chars@, pos as int, ascii) == words_from(text@, 0, ascii),
        decreases chars.len() - pos,
    {
        let start = find_word_start(&chars, pos, ascii);
        if start >= chars.len() {
            pos = chars.len();
        } else {
            let end = find_word_end(&chars, start, ascii);
            let word = string_of(&chars, start, end);
            proof {
                lemma_word_bounds(chars@, pos as int, ascii);
                lemma_word_bounds(chars@, start as int, ascii);
                let rest = words_from(chars@, end as int, ascii);
                assert(words_from(chars@, pos as int, ascii) == seq![word@] + rest);
                assert(texts(words@.push(word)) =~= texts(words@).push(word@));
                assert(texts(words@).push(word@) + rest =~= texts(words@) + (seq![word@] + rest));
            }
            words.push(word);
            pos = end;
        }
    }
    assert(texts(words@) + Seq::<Seq<char>>::empty() =~= texts(words@));
    words
}

/// Splits a text into its words, parted by white space as Unicode defines
/// it.
pub fn split_words(text: &str) -> (words: Vec<String>)
    ensures
        texts(words@) == words_of(text@),
{
    split_words_by(text, false)
}

/// Splits a text into its words, parted by white space as ASCII defines it.
pub fn split_ascii_words(text: &str) -> (words: Vec<String>)
    ensures
        texts(words@) == ascii_words_of(text@),
{
    split_words_by(text, true)
}

/// What follows `name` in `line`, where the line begins with it.
pub open spec fn field(line: Seq<char>, name: Seq<char>) -> Option<Seq<char>> {
    if name.is_prefix_of(line) {
        Some(line.skip(name.len() as int))
    } else {
        None
    }
}

/// What follows `name` in `line`, where the line begins with it.
pub fn field_value(line: &str, name: &str) -> (value: Option<String>)
    ensures
        value is Some <==> field(line@, name@) is Some,
        value is Some ==> value->Some_0@ == field(line@, name@)->Some_0,
{
    let chars = chars_of(line);
    let head = chars_of(name);
    assert(chars@.subrange(0, chars@.len() as int) =~= chars@);
    if has_prefix(&chars, 0, chars.len(), &head) {
        Some(string_of(&chars, head.len(), chars.len()))
    } else {
        None
    }
}

} // verus!
