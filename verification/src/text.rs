//! Text primitives of the window hasher: trimming, joining, digesting and
//! hex encoding, each with the mathematical function it computes.

use sha2::Digest;
use vstd::prelude::*;
use vstd::utf8::encode_utf8;

verus! {

/// Whether a character is white space, as `char::is_whitespace` says: whether
/// it has the Unicode property White_Space.
pub uninterp spec fn is_white_space(c: char) -> bool;

/// The position of the first character at or after `from` that is no white
/// space; the length of the text if there is none.
pub open spec fn first_inked(text: Seq<char>, from: int) -> int
    decreases text.len() - from,
{
    if from < 0 || from >= text.len() {
        text.len() as int
    } else if !is_white_space(text[from]) {
        from
    } else {
        first_inked(text, from + 1)
    }
}

/// The position after the last character before `to` that is no white
/// space; 0 if there is none.
pub open spec fn last_inked(text: Seq<char>, to: int) -> int
    decreases to,
{
    if to <= 0 || to > text.len() {
        0
    } else if !is_white_space(text[to - 1]) {
        to
    } else {
        last_inked(text, to - 1)
    }
}

/// The text without the white space at its start and at its end: what lies
/// between its first and its last character that is no white space, and
/// nothing if it has no such character.
pub open spec fn trimmed(text: Seq<char>) -> Seq<char> {
    if first_inked(text, 0) < last_inked(text, text.len() as int) {
        text.subrange(first_inked(text, 0), last_inked(text, text.len() as int))
    } else {
        Seq::empty()
    }
}

/// What `first_inked` finds: only white space from `from` up to the result,
/// and no white space at the result, if it lies in the text.
pub proof fn lemma_first_inked(text: Seq<char>, from: int)
    requires
        0 <= from <= text.len(),
    ensures
        from <= first_inked(text, from) <= text.len(),
        first_inked(text, from) < text.len() ==> !is_white_space(text[first_inked(text, from)]),
        forall|k: int| from <= k < first_inked(text, from) ==> is_white_space(#[trigger] text[k]),
    decreases text.len() - from,
{
    if from < text.len() && is_white_space(text[from]) {
        lemma_first_inked(text, from + 1);
    }
}

/// What `last_inked` finds: only white space from the result up to `to`, and
/// no white space right before the result, if it is not 0.
pub proof fn lemma_last_inked(text: Seq<char>, to: int)
    requires
        0 <= to <= text.len(),
    ensures
        0 <= last_inked(text, to) <= to,
        last_inked(text, to) > 0 ==> !is_white_space(text[last_inked(text, to) - 1]),
        forall|k: int| last_inked(text, to) <= k < to ==> is_white_space(#[trigger] text[k]),
    decreases to,
{
    if to > 0 && is_white_space(text[to - 1]) {
        lemma_last_inked(text, to - 1);
    }
}

/// Trimming ignores indentation: white space before and after a text that
/// neither starts nor ends with white space is removed, and nothing else.
pub proof fn lemma_trim_ignores_padding(before: Seq<char>, core: Seq<char>, after: Seq<char>)
    requires
        forall|k: int| 0 <= k < before.len() ==> is_white_space(#[trigger] before[k]),
        forall|k: int| 0 <= k < after.len() ==> is_white_space(#[trigger] after[k]),
        core.len() > 0 ==> !is_white_space(core[0]) && !is_white_space(core[core.len() - 1]),
    ensures
        trimmed(before + core + after) == core,
{
    let text = before + core + after;
    let n = text.len() as int;
    lemma_first_inked(text, 0);
    lemma_last_inked(text, n);
    let a = first_inked(text, 0);
    let b = last_inked(text, n);
    if core.len() > 0 {
        let start = before.len() as int;
        let end = start + core.len();
        assert(text[start] == core[0]);
        assert(text[end - 1] == core[core.len() - 1]);
        assert forall|k: int| 0 <= k < start implies is_white_space(#[trigger] text[k]) by {
            assert(text[k] == before[k]);
        }
        assert forall|k: int| end <= k < n implies is_white_space(#[trigger] text[k]) by {
            assert(text[k] == after[k - end]);
        }
        assert(a == start);
        assert(b == end);
        assert(text.subrange(a, b) =~= core);
    } else {
        assert forall|k: int| 0 <= k < n implies is_white_space(#[trigger] text[k]) by {
            if k < before.len() {
                assert(text[k] == before[k]);
            } else {
                assert(text[k] == after[k - before.len()]);
            }
        }
        assert(a == n);
        assert(core =~= Seq::<char>::empty());
    }
}

/// The lines of a text from position `at` on, where the line that `at` lies
/// in began at `start`. A line ends at a line feed; the line feed is no part
/// of it, nor is a carriage return that stands right before the line feed.
/// What follows the last line feed is a line if it is not empty.
pub open spec fn lines_from(text: Seq<char>, start: int, at: int) -> Seq<Seq<char>>
    decreases text.len() - at,
{
    if at < 0 || at >= text.len() {
        if start < text.len() {
            seq![text.subrange(start, text.len() as int)]
        } else {
            Seq::empty()
        }
    } else if text[at] == '\n' {
        let stop = if start < at && text[at - 1] == '\r' {
            at - 1
        } else {
            at
        };
        seq![text.subrange(start, stop)] + lines_from(text, at + 1, at + 1)
    } else {
        lines_from(text, start, at + 1)
    }
}

/// The lines of a text, without their line endings.
pub open spec fn text_lines(text: Seq<char>) -> Seq<Seq<char>> {
    lines_from(text, 0, 0)
}

/// The SHA-256 digest of a byte string.
pub uninterp spec fn sha256(data: Seq<u8>) -> Seq<u8>;

/// The texts held by a sequence of strings.
pub open spec fn texts(parts: Seq<String>) -> Seq<Seq<char>> {
    parts.map_values(|p: String| p@)
}

/// The parts concatenated in order, with `sep` between each two neighbours.
pub open spec fn joined(parts: Seq<Seq<char>>, sep: Seq<char>) -> Seq<char>
    decreases parts.len(),
{
    if parts.len() == 0 {
        Seq::empty()
    } else if parts.len() == 1 {
        parts[0]
    } else {
        joined(parts.drop_last(), sep) + sep + parts.last()
    }
}

/// The lower-case hexadecimal digit of a value below sixteen.
pub open spec fn hex_digit(n: int) -> char {
    seq!['0', '1', '2', '3', '4', '5', '6', '7', '8', '9', 'a', 'b', 'c', 'd', 'e', 'f'][n]
}

/// Two lower-case hexadecimal digits per byte, high digit first.
pub open spec fn hex_string(bytes: Seq<u8>) -> Seq<char>
    decreases bytes.len(),
{
    if bytes.len() == 0 {
        Seq::empty()
    } else {
        hex_string(bytes.drop_last()).push(hex_digit(bytes.last() as int / 16)).push(
            hex_digit(bytes.last() as int % 16),
        )
    }
}

/// The digest of a text as it stands: the SHA-256 digest of its UTF-8 bytes,
/// written in lower-case hexadecimal.
pub open spec fn text_digest(text: Seq<char>) -> Seq<char> {
    hex_string(sha256(encode_utf8(text)))
}

/// The digest of a line without the white space around it.
pub open spec fn line_digest(line: Seq<char>) -> Seq<char> {
    text_digest(trimmed(line))
}

/// Bytes in hexadecimal take two characters each.
pub proof fn lemma_hex_length(bytes: Seq<u8>)
    ensures
        hex_string(bytes).len() == 2 * bytes.len(),
    decreases bytes.len(),
{
    if bytes.len() > 0 {
        lemma_hex_length(bytes.drop_last());
    }
}

/// `str::trim`. Trusted: the result is the text without the white space at
/// its start and at its end, so it neither starts nor ends with white space.
/// Which characters are white space is left to `char::is_whitespace`.
#[verifier::external_body]
pub(crate) fn trim_text<'a>(text: &'a str) -> (r: &'a str)
    ensures
        r@ == trimmed(text@),
        r@.len() > 0 ==> !is_white_space(r@[0]) && !is_white_space(r@[r@.len() - 1]),
{
    text.trim()
}

/// `str::lines`, collected into owned strings. Trusted: the text is split
/// at every line feed, a carriage return right before a line feed goes with
/// it, and an empty rest after the last line feed is no line.
#[verifier::external_body]
pub(crate) fn split_lines(text: &str) -> (r: Vec<String>)
    ensures
        texts(r@) == text_lines(text@),
{
    text.lines().map(|l| l.to_string()).collect()
}

/// `itertools::Itertools::join` over a slice of strings. Trusted: the result
/// is the first part followed, for each further part, by the separator and
/// that part; the empty string when there is no part.
#[verifier::external_body]
pub(crate) fn join_parts(parts: &[String], sep: &str) -> (r: String)
    ensures
        r@ == joined(texts(parts@), sep@),
{
    itertools::Itertools::join(&mut parts.iter(), sep)
}

/// `sha2::Sha256::digest`. Trusted: the result is the SHA-256 digest of the
/// bytes, a function of the bytes alone, and it has 32 bytes.
#[verifier::external_body]
pub(crate) fn sha256_digest(data: &[u8]) -> (r: Vec<u8>)
    ensures
        r@ == sha256(data@),
        r@.len() == 32,
{
    sha2::Sha256::digest(data).to_vec()
}

/// `hex::encode`. Trusted: each byte becomes two lower-case hexadecimal
/// digits, the high four bits first.
#[verifier::external_body]
pub(crate) fn hex_encode(data: &[u8]) -> (r: String)
    ensures
        r@ == hex_string(data@),
{
    hex::encode(data)
}

/// The digest of a text as it stands: its bytes are digested with SHA-256
/// and the digest is written in lower-case hexadecimal, 64 characters.
pub fn digest_text(text: &str) -> (h: String)
    ensures
        h@ == text_digest(text@),
        h@.len() == 64,
{
    let digest = sha256_digest(text.as_bytes());
    proof {
        lemma_hex_length(digest@);
    }
    hex_encode(digest.as_slice())
}

/// The digest of a line without the white space around it: the line is
/// trimmed and what is left is digested.
pub fn hash_line(line: &str) -> (h: String)
    ensures
        h@ == line_digest(line@),
        h@.len() == 64,
{
    digest_text(trim_text(line))
}

} // verus!
