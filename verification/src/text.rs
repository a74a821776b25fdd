//! Text helpers shared by the scanners.

use crate::words::{
    lemma_split_layout, lemma_word_len, lemma_word_offset_monotonic, scan_word, split, word_len,
    word_offset,
};
use vstd::prelude::*;
use vstd::string::*;
use vstd::utf8::*;

verus! {

/// The lowercase form of `text`, as the Unicode case mapping defines it.
pub uninterp spec fn lowercase_of(text: Seq<char>) -> Seq<char>;

/// Calls `str::to_lowercase` of the standard library.
///
/// Trusted: the result is taken to be a function of the characters of `text`
/// alone, and `lowercase_of` is the name of that function. Nothing is claimed
/// about what the lowercase form of a given text is.
#[verifier::external_body]
pub(crate) fn to_lowercase(text: &str) -> (r: String)
    ensures
        r@ == lowercase_of(text@),
{
    text.to_lowercase()
}

/// `text` without the white space at its start and at its end.
pub uninterp spec fn trimmed(text: Seq<char>) -> Seq<char>;

/// Calls `str::trim` of the standard library.
///
/// Trusted: the result is taken to be a function of the characters of `text`
/// alone, and `trimmed` is the name of that function. Nothing is claimed
/// about which characters count as white space.
#[verifier::external_body]
pub(crate) fn trim(text: &str) -> (r: &str)
    ensures
        r@ == trimmed(text@),
{
    text.trim()
}

/// `text` without the white space at its start.
pub uninterp spec fn trimmed_start(text: Seq<char>) -> Seq<char>;

/// Calls `str::trim_start` of the standard library.
///
/// Trusted: the result is taken to be a function of the characters of `text`
/// alone, and `trimmed_start` is the name of that function.
#[verifier::external_body]
pub(crate) fn trim_start(text: &str) -> (r: &str)
    ensures
        r@ == trimmed_start(text@),
{
    text.trim_start()
}

/// `text` without the characters at its start that are among `marks`.
pub open spec fn without_leading(text: Seq<char>, marks: Seq<char>) -> Seq<char>
    decreases text.len(),
{
    if text.len() > 0 && marks.contains(text[0]) {
        without_leading(text.skip(1), marks)
    } else {
        text
    }
}

/// Calls `str::trim_start_matches` of the standard library with a list of
/// characters as the pattern.
///
/// Trusted: characters are taken off the start of `text` for as long as they
/// are among `marks`, and what is left is returned.
#[verifier::external_body]
pub(crate) fn trim_start_matches<'a>(text: &'a str, marks: &[char]) -> (r: &'a str)
    ensures
        r@ == without_leading(text@, marks@),
{
    text.trim_start_matches(marks)
}

/// Whether the regular expression `pattern` matches somewhere in `text`, or
/// nothing if `pattern` is not a regular expression.
pub uninterp spec fn pattern_found(pattern: Seq<char>, text: Seq<char>) -> Option<bool>;

/// Calls `Regex::is_match` of the `regex` crate, as `lazy_regex` hands it on,
/// on the regular expression that `Regex::new` builds from `pattern`.
///
/// Trusted: the result is taken to be a function of the characters of
/// `pattern` and of `text` alone, and `pattern_found` is the name of that
/// function. Nothing is claimed about which patterns are regular expressions
/// nor about what they match.
#[verifier::external_body]
pub(crate) fn is_match(pattern: &str, text: &str) -> (r: Option<bool>)
    ensures
        r == pattern_found(pattern@, text@),
{
    match lazy_regex::Regex::new(pattern) {
        Ok(regex) => Some(regex.is_match(text)),
        Err(_) => None,
    }
}

/// Whether two byte slices hold the same bytes.
pub fn bytes_eq(a: &[u8], b: &[u8]) -> (r: bool)
    ensures
        r == (a@ == b@),
{
    if a.len() != b.len() {
        return false;
    }
    let mut i: usize = 0;
    while i < a.len()
        invariant
            a.len() == b.len(),
            0 <= i <= a.len(),
            forall|j: int| 0 <= j < i ==> a@[j] == b@[j],
        decreases a.len() - i,
    {
        if a[i] != b[i] {
            return false;
        }
        i = i + 1;
    }
    proof {
        assert(a@ =~= b@);
    }
    true
}

/// Whether two strings spell the same text.
pub fn str_eq(a: &str, b: &str) -> (r: bool)
    ensures
        r == (a@ == b@),
{
    proof {
        encode_utf8_decode_utf8(a@);
        encode_utf8_decode_utf8(b@);
    }
    bytes_eq(a.as_bytes(), b.as_bytes())
}

/// In well-formed UTF-8 a position in front of an ASCII byte, or at the end,
/// never falls inside a character.
pub proof fn lemma_boundary_before_ascii(bytes: Seq<u8>, i: int)
    requires
        valid_utf8(bytes),
        0 <= i <= bytes.len(),
        i < bytes.len() ==> bytes[i] < 0x80,
    ensures
        is_char_boundary(bytes, i),
{
    if i < bytes.len() {
        is_char_boundary_iff_not_is_continuation_byte(bytes, i);
    } else {
        is_char_boundary_start_end_of_seq(bytes);
    }
}

/// In well-formed UTF-8 the position after an ASCII byte never falls inside a
/// character.
pub proof fn lemma_boundary_after_ascii(bytes: Seq<u8>, i: int)
    requires
        valid_utf8(bytes),
        0 <= i < bytes.len(),
        bytes[i] < 0x80,
    ensures
        is_char_boundary(bytes, i + 1),
{
    lemma_boundary_before_ascii(bytes, i);
    valid_utf8_split(bytes, i);
    let tail = bytes.subrange(i, bytes.len() as int);
    assert(tail[0] == bytes[i]);
    assert(valid_utf8(pop_first_scalar(tail)));
    assert(pop_first_scalar(tail) =~= bytes.subrange(i + 1, bytes.len() as int));
    if i + 1 < bytes.len() {
        let rest = bytes.subrange(i + 1, bytes.len() as int);
        assert(rest[0] == bytes[i + 1]);
        assert(valid_first_scalar(rest));
        is_char_boundary_iff_not_is_continuation_byte(bytes, i + 1);
    } else {
        is_char_boundary_start_end_of_seq(bytes);
    }
}

/// A position between characters in the rest of a text lies between
/// characters in the text.
pub proof fn lemma_boundary_in_rest(bytes: Seq<u8>, from: int, i: int)
    requires
        valid_utf8(bytes),
        is_char_boundary(bytes, from),
        0 <= from <= bytes.len(),
        is_char_boundary(bytes.skip(from), i),
        0 <= i <= bytes.len() - from,
    ensures
        is_char_boundary(bytes, from + i),
{
    let rest = bytes.skip(from);
    assert(rest =~= bytes.subrange(from, bytes.len() as int));
    valid_utf8_split(bytes, from);
    if from + i < bytes.len() {
        is_char_boundary_iff_not_is_continuation_byte(rest, i);
        assert(rest[i] == bytes[from + i]);
        is_char_boundary_iff_not_is_continuation_byte(bytes, from + i);
    } else {
        is_char_boundary_start_end_of_seq(bytes);
    }
}

/// Every separator is an ASCII byte.
pub open spec fn ascii_only(seps: Seq<u8>) -> bool {
    forall|i: int| 0 <= i < seps.len() ==> #[trigger] seps[i] < 0x80
}

/// Words that are cut at ASCII bytes start and end between characters.
pub proof fn lemma_words_between_chars(bytes: Seq<u8>, seps: Seq<u8>, i: int)
    requires
        valid_utf8(bytes),
        ascii_only(seps),
        0 <= i < split(bytes, seps).len(),
    ensures
        0 <= word_offset(split(bytes, seps), i) <= word_offset(split(bytes, seps), i) + split(
            bytes,
            seps,
        )[i].len() <= bytes.len(),
        is_char_boundary(bytes, word_offset(split(bytes, seps), i)),
        is_char_boundary(bytes, word_offset(split(bytes, seps), i) + split(bytes, seps)[i].len()),
{
    let words = split(bytes, seps);
    let start = word_offset(words, i);
    let end = start + words[i].len();
    lemma_split_layout(bytes, seps, i);
    if i > 0 {
        lemma_word_offset_monotonic(words, 0, i);
        lemma_boundary_after_ascii(bytes, start - 1);
    } else {
        is_char_boundary_start_end_of_seq(bytes);
    }
    lemma_boundary_before_ascii(bytes, end);
}

/// Cuts the first word off `rest`. Returns the word and, unless the word
/// reaches to the end of `rest`, the text that follows the separator after
/// it.
pub fn take_word<'a>(rest: &'a str, seps: &[u8]) -> (r: (&'a str, Option<&'a str>))
    requires
        ascii_only(seps@),
    ensures
        r.0.spec_bytes() == rest.spec_bytes().take(word_len(rest.spec_bytes(), seps@)),
        r.0@ == decode_utf8(r.0.spec_bytes()),
        match r.1 {
            Some(next) => word_len(rest.spec_bytes(), seps@) < rest.spec_bytes().len()
                && next.spec_bytes() == rest.spec_bytes().skip(
                word_len(rest.spec_bytes(), seps@) + 1,
            ),
            None => word_len(rest.spec_bytes(), seps@) == rest.spec_bytes().len(),
        },
{
    let ghost bytes = rest.spec_bytes();
    proof {
        lemma_word_len(bytes, seps@);
        assert(bytes.skip(0) =~= bytes);
        encode_utf8_valid_utf8(rest@);
    }
    let len = scan_word(rest.as_bytes(), 0, seps);
    proof {
        lemma_boundary_before_ascii(bytes, len as int);
    }
    let (word, tail) = rest.split_at(len);
    proof {
        encode_utf8_decode_utf8(word@);
        assert(word.spec_bytes() =~= bytes.take(len as int));
    }
    if len >= rest.len() {
        return (word, None);
    }
    proof {
        assert(tail.spec_bytes()[0] == bytes[len as int]);
        encode_utf8_valid_utf8(tail@);
        lemma_boundary_after_ascii(tail.spec_bytes(), 0);
    }
    let (_, next) = tail.split_at(1);
    proof {
        assert(next.spec_bytes() =~= bytes.skip(len + 1));
    }
    (word, Some(next))
}

} // verus!
