//! Splitting route patterns and request paths at parameter tokens.
//!
//! A parameter token is a `:` that directly follows a `/`. The token's name,
//! and the text that a parameter captures from a request path, run up to the
//! next `/` or `.`, so that a pattern such as `/files/:id.json` captures `42`
//! from `/files/42.json`.

use crate::text::Text;
use vstd::prelude::*;

verus! {

/// The characters that end a parameter name or a captured value.
pub open spec fn is_delimiter(c: char) -> bool {
    c == '/' || c == '.'
}

/// Whether a parameter token starts at position `i` of `pattern`: a `:`
/// directly after a `/`.
pub open spec fn is_param_at(pattern: Seq<char>, i: int) -> bool {
    0 < i < pattern.len() && pattern[i] == ':' && pattern[i - 1] == '/'
}

/// The first position at or after `i` where a parameter token starts, or the
/// length of `pattern` if there is none.
pub open spec fn param_pos_from(pattern: Seq<char>, i: int) -> int
    decreases pattern.len() - i,
{
    if i >= pattern.len() {
        pattern.len() as int
    } else if is_param_at(pattern, i) {
        i
    } else {
        param_pos_from(pattern, i + 1)
    }
}

/// The length of the literal text with which `pattern` begins: the position
/// of its first parameter token, or its whole length.
pub open spec fn literal_len(pattern: Seq<char>) -> int {
    param_pos_from(pattern, 0)
}

/// Whether `pattern` holds no parameter token.
pub open spec fn is_literal(pattern: Seq<char>) -> bool {
    forall|i: int| !is_param_at(pattern, i)
}

/// The first position at or after `i` where `text` holds a delimiter, or its
/// length if there is none.
pub open spec fn delimiter_pos_from(text: Seq<char>, i: int) -> int
    decreases text.len() - i,
{
    if i >= text.len() {
        text.len() as int
    } else if is_delimiter(text[i]) {
        i
    } else {
        delimiter_pos_from(text, i + 1)
    }
}

/// The length of the delimiter-free text with which `text` begins.
pub open spec fn segment_len(text: Seq<char>) -> int {
    delimiter_pos_from(text, 0)
}

/// `param_pos_from` finds the least parameter position from `i` on.
pub proof fn lemma_param_pos_from(pattern: Seq<char>, i: int)
    requires
        0 <= i <= pattern.len(),
    ensures
        i <= param_pos_from(pattern, i) <= pattern.len(),
        param_pos_from(pattern, i) < pattern.len() ==> is_param_at(
            pattern,
            param_pos_from(pattern, i),
        ),
        forall|j: int| i <= j < param_pos_from(pattern, i) ==> !is_param_at(pattern, j),
    decreases pattern.len() - i,
{
    if i < pattern.len() && !is_param_at(pattern, i) {
        lemma_param_pos_from(pattern, i + 1);
    }
}

/// `delimiter_pos_from` finds the least delimiter position from `i` on.
pub proof fn lemma_delimiter_pos_from(text: Seq<char>, i: int)
    requires
        0 <= i <= text.len(),
    ensures
        i <= delimiter_pos_from(text, i) <= text.len(),
        delimiter_pos_from(text, i) < text.len() ==> is_delimiter(
            text[delimiter_pos_from(text, i)],
        ),
        forall|j: int| i <= j < delimiter_pos_from(text, i) ==> !is_delimiter(#[trigger] text[j]),
    decreases text.len() - i,
{
    if i < text.len() && !is_delimiter(text[i]) {
        lemma_delimiter_pos_from(text, i + 1);
    }
}

/// The position in `text`, at or after `from`, of the next delimiter.
pub fn find_delimiter(text: &Vec<char>, from: usize) -> (pos: usize)
    requires
        from <= text@.len(),
    ensures
        pos == delimiter_pos_from(text@, from as int),
        from <= pos <= text@.len(),
        pos < text@.len() ==> is_delimiter(text@[pos as int]),
        forall|j: int| from <= j < pos ==> !is_delimiter(#[trigger] text@[j]),
{
    let mut pos: usize = from;
    while pos < text.len() && !(text[pos] == '/' || text[pos] == '.')
        invariant
            from <= pos <= text@.len(),
            delimiter_pos_from(text@, pos as int) == delimiter_pos_from(text@, from as int),
        decreases text@.len() - pos,
    {
        pos += 1;
    }
    proof {
        lemma_delimiter_pos_from(text@, from as int);
    }
    pos
}

/// The position in `pattern`, at or after `from`, of the next parameter token.
pub fn find_param(pattern: &Vec<char>, from: usize) -> (pos: usize)
    requires
        from <= pattern@.len(),
    ensures
        pos == param_pos_from(pattern@, from as int),
        from <= pos <= pattern@.len(),
        pos < pattern@.len() ==> is_param_at(pattern@, pos as int),
        forall|j: int| from <= j < pos ==> !is_param_at(pattern@, j),
{
    let mut pos: usize = from;
    while pos < pattern.len() && !(pos > 0 && pattern[pos] == ':' && pattern[pos - 1] == '/')
        invariant
            from <= pos <= pattern@.len(),
            param_pos_from(pattern@, pos as int) == param_pos_from(pattern@, from as int),
        decreases pattern@.len() - pos,
    {
        pos += 1;
    }
    proof {
        lemma_param_pos_from(pattern@, from as int);
    }
    pos
}

/// Positions of parameter tokens carry over to a suffix of the pattern,
/// except that a suffix never begins with one.
pub proof fn lemma_param_pos_skip(pattern: Seq<char>, from: int, i: int)
    requires
        0 <= from <= pattern.len(),
        1 <= i,
    ensures
        param_pos_from(pattern.skip(from), i) + from == param_pos_from(pattern, from + i)
            || (from + i > pattern.len() && param_pos_from(pattern.skip(from), i)
            == pattern.len() - from),
    decreases pattern.len() - from - i,
{
    let suffix = pattern.skip(from);
    if i < suffix.len() {
        if !is_param_at(suffix, i) {
            lemma_param_pos_skip(pattern, from, i + 1);
        }
    }
}

/// The literal text with which a suffix of `pattern` begins ends at the
/// first parameter token after the suffix's first character.
pub proof fn lemma_literal_len_skip(pattern: Seq<char>, from: int)
    requires
        0 <= from < pattern.len(),
    ensures
        literal_len(pattern.skip(from)) + from == param_pos_from(pattern, from + 1),
        0 < literal_len(pattern.skip(from)) <= pattern.len() - from,
{
    let suffix = pattern.skip(from);
    lemma_param_pos_skip(pattern, from, 1);
    lemma_param_pos_from(pattern, from + 1);
}

/// Positions of delimiters carry over to a suffix of the text.
pub proof fn lemma_delimiter_pos_skip(text: Seq<char>, from: int, i: int)
    requires
        0 <= from,
        0 <= i,
        from + i <= text.len(),
    ensures
        delimiter_pos_from(text.skip(from), i) + from == delimiter_pos_from(text, from + i),
    decreases text.len() - from - i,
{
    let suffix = text.skip(from);
    if i < suffix.len() {
        if !is_delimiter(suffix[i]) {
            lemma_delimiter_pos_skip(text, from, i + 1);
        }
    }
}

/// The first segment of a suffix of `text` ends at the first delimiter at or
/// after the suffix's start.
pub proof fn lemma_segment_len_skip(text: Seq<char>, from: int)
    requires
        0 <= from <= text.len(),
    ensures
        segment_len(text.skip(from)) + from == delimiter_pos_from(text, from),
        from <= delimiter_pos_from(text, from) <= text.len(),
{
    lemma_delimiter_pos_skip(text, from, 0);
    lemma_delimiter_pos_from(text, from);
}

/// Splits `pattern` before its first parameter token: the literal text with
/// which it begins, and what follows from the token's `:` on. A pattern
/// without parameter tokens is literal as a whole, and nothing follows.
pub fn split_param(pattern: &str) -> (parts: (&str, &str))
    ensures
        parts.0@ == pattern@.take(literal_len(pattern@)),
        parts.1@ == pattern@.skip(literal_len(pattern@)),
        parts.0@ + parts.1@ == pattern@,
        forall|i: int| 0 <= i < parts.0@.len() ==> !is_param_at(pattern@, i),
        parts.1@.len() > 0 ==> is_param_at(pattern@, parts.0@.len() as int),
{
    let text = Text::new(pattern);
    let at = find_param(text.chars(), 0);
    (text.slice(0, at), text.slice(at, text.len()))
}

/// Splits `text` before its first delimiter: the text up to it, and what
/// follows from the delimiter on. Neither a parameter's name nor the text
/// that a parameter captures holds a delimiter.
pub fn split_at_next_param_delimiter(text: &str) -> (parts: (&str, &str))
    ensures
        parts.0@ == text@.take(segment_len(text@)),
        parts.1@ == text@.skip(segment_len(text@)),
        parts.0@ + parts.1@ == text@,
        forall|i: int| 0 <= i < parts.0@.len() ==> !is_delimiter(#[trigger] parts.0@[i]),
        parts.1@.len() > 0 ==> is_delimiter(parts.1@[0]),
{
    let source = Text::new(text);
    let at = find_delimiter(source.chars(), 0);
    (source.slice(0, at), source.slice(at, source.len()))
}

/// Splits `token`, which begins with the `:` of a parameter token, into the
/// parameter's name and what follows the token.
pub fn extract_param_name(token: &str) -> (parts: (&str, &str))
    requires
        token@.len() > 0,
        token@[0] == ':',
    ensures
        parts.0@ == token@.subrange(1, 1 + segment_len(token@.skip(1))),
        parts.1@ == token@.skip(1 + segment_len(token@.skip(1))),
        seq![':'] + parts.0@ + parts.1@ == token@,
        forall|i: int| 0 <= i < parts.0@.len() ==> !is_delimiter(#[trigger] parts.0@[i]),
        parts.1@.len() > 0 ==> is_delimiter(parts.1@[0]),
{
    let source = Text::new(token);
    let chars = source.chars();
    let end = find_delimiter(chars, 1);
    proof {
        lemma_segment_len_skip(token@, 1);
    }
    (source.slice(1, end), source.slice(end, source.len()))
}

} // verus!
