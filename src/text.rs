//! Character-level text helpers. Offsets count `char`s, not bytes.
use vstd::prelude::*;
use vstd::string::StringSliceAdditionalSpecFns;

verus! {

/// Relies on `str::chars` and `Iterator::collect`: the characters of `s`, in
/// order.
#[verifier::external_body]
pub(crate) fn chars_of(s: &str) -> (r: Vec<char>)
    ensures
        r@ == s@,
{
    s.chars().collect()
}

/// Relies on `FromIterator<&char>` for `String`: the string of the characters
/// of `cs`, in order.
#[verifier::external_body]
pub(crate) fn string_of(cs: &[char]) -> (r: String)
    ensures
        r@ == cs@,
{
    cs.iter().collect()
}

/// The number of characters (not bytes) of `text`.
pub fn char_count(text: &str) -> (r: usize)
    ensures
        r == text@.len(),
{
    text.unicode_len()
}

/// The characters of `text` from `start` to `end`, both clamped to its
/// length.
pub fn char_substring(text: &str, start: usize, end: usize) -> (r: String)
    requires
        start <= end,
    ensures
        ({
            let n = text@.len() as int;
            let a = if start < n { start as int } else { n };
            let b = if end < n { end as int } else { n };
            r@ == text@.subrange(a, b)
        }),
{
    let cs = chars_of(text);
    let n = cs.len();
    let a = if start < n {
        start
    } else {
        n
    };
    let b = if end < n {
        end
    } else {
        n
    };
    string_of(&cs.as_slice()[a..b])
}

/// The Unicode White_Space property, which `char::is_whitespace` answers:
/// tab to carriage return, space, next line, no-break space, ogham space
/// mark, en quad to hair space, line and paragraph separators, narrow
/// no-break space, medium mathematical space and ideographic space.
pub open spec fn white_space(c: char) -> bool {
    let u = c as u32;
    (0x09 <= u <= 0x0d) || u == 0x20 || u == 0x85 || u == 0xa0 || u == 0x1680 || (0x2000 <= u <= 0x200a) || u
        == 0x2028 || u == 0x2029 || u == 0x202f || u == 0x205f || u == 0x3000
}

/// Whether `c` is white space.
fn is_white(c: char) -> (r: bool)
    ensures
        r == white_space(c),
{
    let u = c as u32;
    (0x09 <= u && u <= 0x0d) || u == 0x20 || u == 0x85 || u == 0xa0 || u == 0x1680 || (0x2000 <= u && u <= 0x200a)
        || u == 0x2028 || u == 0x2029 || u == 0x202f || u == 0x205f || u == 0x3000
}

/// ASCII punctuation: `!` to `/`, `:` to `@`, `[` to `` ` `` and `{` to `~`.
pub open spec fn ascii_punctuation(c: char) -> bool {
    let u = c as u32;
    (0x21 <= u <= 0x2f) || (0x3a <= u <= 0x40) || (0x5b <= u <= 0x60) || (0x7b <= u <= 0x7e)
}

/// A character words end at: white space or ASCII punctuation.
pub open spec fn word_boundary(c: char) -> bool {
    white_space(c) || ascii_punctuation(c)
}

/// Whether `c` ends a word.
pub fn is_word_boundary(c: char) -> (r: bool)
    ensures
        r == word_boundary(c),
{
    let u = c as u32;
    let punct = (0x21 <= u && u <= 0x2f) || (0x3a <= u && u <= 0x40) || (0x5b <= u && u <= 0x60) || (0x7b <= u && u
        <= 0x7e);
    is_white(c) || punct
}

/// The first position from `p` on that is a word boundary, or the end.
pub open spec fn skip_word(t: Seq<char>, p: int) -> int
    decreases t.len() - p,
{
    if p >= t.len() || p < 0 || word_boundary(t[p]) {
        p
    } else {
        skip_word(t, p + 1)
    }
}

/// The first position from `p` on that is not white space, or the end.
pub open spec fn skip_space(t: Seq<char>, p: int) -> int
    decreases t.len() - p,
{
    if p >= t.len() || p < 0 || !white_space(t[p]) {
        p
    } else {
        skip_space(t, p + 1)
    }
}

/// Going back from `p` while the character at `p` is white space.
pub open spec fn back_space(t: Seq<char>, p: int) -> int
    decreases p,
{
    if p <= 0 || p >= t.len() || !white_space(t[p]) {
        p
    } else {
        back_space(t, p - 1)
    }
}

/// Going back from `p` while the character before `p` is not a boundary.
pub open spec fn back_word(t: Seq<char>, p: int) -> int
    decreases p,
{
    if p <= 0 || p > t.len() || word_boundary(t[p - 1]) {
        p
    } else {
        back_word(t, p - 1)
    }
}

/// The start of the next word after `from_char`: past the rest of the
/// current word and the white space after it.
pub fn next_word_boundary(text: &str, from_char: usize) -> (r: usize)
    ensures
        r == if from_char >= text@.len() {
            text@.len() as int
        } else {
            skip_space(text@, skip_word(text@, from_char as int))
        },
{
    let chars = chars_of(text);
    let len = chars.len();
    if from_char >= len {
        return len;
    }
    let mut pos = from_char;
    while pos < len && !is_word_boundary(chars[pos])
        invariant
            len == chars@.len(),
            chars@ == text@,
            from_char <= pos <= len,
            skip_word(chars@, pos as int) == skip_word(chars@, from_char as int),
        decreases len - pos,
    {
        pos = pos + 1;
    }
    let ghost mid = pos;
    while pos < len && is_white(chars[pos])
        invariant
            len == chars@.len(),
            chars@ == text@,
            mid <= pos <= len,
            skip_space(chars@, pos as int) == skip_space(chars@, mid as int),
        decreases len - pos,
    {
        pos = pos + 1;
    }
    pos
}

/// The start of the word before `from_char`: back over white space, then
/// back to the start of the word.
pub fn prev_word_boundary(text: &str, from_char: usize) -> (r: usize)
    requires
        from_char <= text@.len(),
    ensures
        r == if from_char == 0 {
            0
        } else {
            back_word(text@, back_space(text@, from_char - 1))
        },
{
    let chars = chars_of(text);
    if from_char == 0 {
        return 0;
    }
    let mut pos = from_char - 1;
    while pos > 0 && is_white(chars[pos])
        invariant
            chars@ == text@,
            0 <= pos < chars@.len(),
            back_space(chars@, pos as int) == back_space(chars@, from_char - 1),
        decreases pos,
    {
        pos = pos - 1;
    }
    let ghost mid = pos;
    while pos > 0 && !is_word_boundary(chars[pos - 1])
        invariant
            chars@ == text@,
            0 <= pos <= mid < chars@.len(),
            back_word(chars@, pos as int) == back_word(chars@, mid as int),
        decreases pos,
    {
        pos = pos - 1;
    }
    pos
}

/// The number of bytes `c` takes in UTF-8.
pub open spec fn utf8_width(c: char) -> int {
    let u = c as u32;
    if u < 0x80 {
        1
    } else if u < 0x800 {
        2
    } else if u < 0x1_0000 {
        3
    } else {
        4
    }
}

/// The number of bytes the characters of `t` take in UTF-8.
pub open spec fn utf8_len(t: Seq<char>) -> int
    decreases t.len(),
{
    if t.len() == 0 {
        0
    } else {
        utf8_len(t.drop_last()) + utf8_width(t.last())
    }
}

fn char_bytes(c: char) -> (r: usize)
    ensures
        r == utf8_width(c),
{
    let u = c as u32;
    if u < 0x80 {
        1
    } else if u < 0x800 {
        2
    } else if u < 0x1_0000 {
        3
    } else {
        4
    }
}

proof fn lemma_utf8_len_bound(t: Seq<char>)
    ensures
        t.len() <= utf8_len(t) <= 4 * t.len(),
    decreases t.len(),
{
    if t.len() > 0 {
        lemma_utf8_len_bound(t.drop_last());
    }
}

/// The byte index of character `char_index`; the byte length where there is
/// no such character.
pub fn char_to_byte_index(text: &str, char_index: usize) -> (r: usize)
    requires
        4 * text@.len() <= usize::MAX,
    ensures
        r == utf8_len(text@.subrange(0, if char_index < text@.len() { char_index as int } else { text@.len() as int })),
{
    let chars = chars_of(text);
    let n = if char_index < chars.len() {
        char_index
    } else {
        chars.len()
    };
    let mut bytes: usize = 0;
    let mut i: usize = 0;
    while i < n
        invariant
            chars@ == text@,
            4 * chars@.len() <= usize::MAX,
            n <= chars@.len(),
            0 <= i <= n,
            bytes == utf8_len(chars@.subrange(0, i as int)),
        decreases n - i,
    {
        proof {
            assert(chars@.subrange(0, i + 1).drop_last() =~= chars@.subrange(0, i as int));
            lemma_utf8_len_bound(chars@.subrange(0, i as int));
        }
        bytes = bytes + char_bytes(chars[i]);
        i = i + 1;
    }
    bytes
}

/// The number of characters that start before byte `byte_index`: the
/// character index of a byte index at a character boundary.
pub fn byte_to_char_index(text: &str, byte_index: usize) -> (r: usize)
    requires
        4 * text@.len() <= usize::MAX,
    ensures
        r <= text@.len(),
        r < text@.len() ==> utf8_len(text@.subrange(0, r as int)) >= byte_index,
        forall|k: int| 0 <= k < r ==> #[trigger] utf8_len(text@.subrange(0, k)) < byte_index,
{
    let chars = chars_of(text);
    let mut bytes: usize = 0;
    let mut i: usize = 0;
    while i < chars.len() && bytes < byte_index
        invariant
            chars@ == text@,
            4 * chars@.len() <= usize::MAX,
            0 <= i <= chars@.len(),
            bytes == utf8_len(chars@.subrange(0, i as int)),
            forall|k: int| 0 <= k < i ==> #[trigger] utf8_len(chars@.subrange(0, k)) < byte_index,
        decreases chars@.len() - i,
    {
        proof {
            assert(chars@.subrange(0, i + 1).drop_last() =~= chars@.subrange(0, i as int));
            lemma_utf8_len_bound(chars@.subrange(0, i as int));
        }
        bytes = bytes + char_bytes(chars[i]);
        i = i + 1;
    }
    i
}

/// A run of text with consistent formatting.
pub struct TextRun {
    pub text: String,
    /// Byte range of the run
    pub start: usize,
    pub end: usize,
}

/// Splits text into runs for shaping: the whole text as one run, or none for
/// empty text.
pub fn split_into_runs(text: &str) -> (r: Vec<TextRun>)
    ensures
        text@.len() == 0 ==> r@.len() == 0,
        text@.len() > 0 ==> r@.len() == 1 && r@[0].text@ == text@ && r@[0].start == 0 && r@[0].end
            == text.spec_bytes().len() as usize,
{
    let mut out: Vec<TextRun> = Vec::new();
    if text.is_empty() {
        return out;
    }
    out.push(TextRun { text: String::from_str(text), start: 0, end: text.len() });
    out
}

} // verus!
