//! Where a sentence ends.

use crate::pdf::ABBREVIATION_WINDOW;
use crate::text::{
    ends_with, has_suffix_str, is_numeric, is_uppercase, lowercase, numeric, to_lowercase,
    uppercase,
};
use vstd::prelude::*;

verus! {

/// `.`, `!` or `?`.
pub open spec fn is_terminator(c: char) -> bool {
    c == '.' || c == '!' || c == '?'
}

/// A closing quote or bracket.
pub open spec fn is_closer(c: char) -> bool {
    c == '"' || c == '\'' || c == ')' || c == ']' || c == '}'
}

/// A space or a tab.
pub open spec fn is_blank(c: char) -> bool {
    c == ' ' || c == '\t'
}

/// Whether lower-case text ends with one of the known abbreviations, the
/// full stop not included.
pub open spec fn abbreviation_tail(lower: Seq<char>) -> bool {
    ||| ends_with(lower, "vs"@)
    ||| ends_with(lower, "etc"@)
    ||| ends_with(lower, "e.g"@)
    ||| ends_with(lower, "i.e"@)
    ||| ends_with(lower, "mr"@)
    ||| ends_with(lower, "mrs"@)
    ||| ends_with(lower, "dr"@)
    ||| ends_with(lower, "no"@)
    ||| ends_with(lower, "inc"@)
    ||| ends_with(lower, "ltd"@)
}

/// The text right before `pos` in which an abbreviation is looked for.
pub open spec fn window_before(chars: Seq<char>, pos: int) -> Seq<char> {
    chars.subrange(
        if pos >= ABBREVIATION_WINDOW as int {
            pos - ABBREVIATION_WINDOW as int
        } else {
            0
        },
        pos,
    )
}

/// Going back from `j` over digits and spaces: the first index that holds
/// neither, or 0.
pub open spec fn number_start(chars: Seq<char>, j: int) -> int
    decreases j,
{
    if 0 < j < chars.len() && (numeric(chars[j]) || chars[j] == ' ') {
        number_start(chars, j - 1)
    } else {
        j
    }
}

/// Whether the full stop at `pos` follows the number of a list item: digits
/// and spaces reach back from it to the start of the text or to a line break.
pub open spec fn list_marker_at(chars: Seq<char>, pos: int) -> bool {
    &&& 0 < pos < chars.len()
    &&& numeric(chars[pos - 1])
    &&& {
        let j = number_start(chars, pos - 1);
        j == 0 || chars[j] == '\n'
    }
}

/// The first index at or after `i` that holds neither whitespace of a line
/// nor a closing quote or bracket, or the length.
pub open spec fn next_visible(chars: Seq<char>, i: int) -> int
    decreases chars.len() - i,
{
    if 0 <= i < chars.len() && (is_blank(chars[i]) || chars[i] == '\n' || is_closer(chars[i])) {
        next_visible(chars, i + 1)
    } else {
        i
    }
}

/// Whether what comes after `pos` may begin a sentence: nothing, an
/// upper-case letter or a number.
pub open spec fn sentence_follows(chars: Seq<char>, pos: int) -> bool {
    let n = next_visible(chars, pos + 1);
    n >= chars.len() || uppercase(chars[n]) || numeric(chars[n])
}

/// Whether a sentence ends at `pos`, where `lower_before` is the lower-case
/// form of the text right before `pos`.
pub open spec fn sentence_end_given(chars: Seq<char>, pos: int, lower_before: Seq<char>) -> bool {
    &&& 0 <= pos < chars.len()
    &&& is_terminator(chars[pos])
    &&& chars[pos] == '.' ==> !abbreviation_tail(lower_before) && !list_marker_at(chars, pos)
    &&& sentence_follows(chars, pos)
}

/// Whether a sentence ends at `pos`.
pub open spec fn sentence_end_at(chars: Seq<char>, pos: int) -> bool {
    sentence_end_given(chars, pos, lowercase(window_before(chars, pos)))
}

/// Whether lower-case text ends with one of the known abbreviations.
pub fn ends_with_abbreviation(lower: &[char]) -> (r: bool)
    ensures
        r == abbreviation_tail(lower@),
{
    has_suffix_str(lower, "vs") || has_suffix_str(lower, "etc") || has_suffix_str(lower, "e.g")
        || has_suffix_str(lower, "i.e") || has_suffix_str(lower, "mr") || has_suffix_str(
        lower,
        "mrs",
    ) || has_suffix_str(lower, "dr") || has_suffix_str(lower, "no") || has_suffix_str(
        lower,
        "inc",
    ) || has_suffix_str(lower, "ltd")
}

/// Whether the full stop at `pos` follows the number of a list item.
pub fn is_list_marker(chars: &[char], pos: usize) -> (r: bool)
    requires
        pos < chars.len(),
    ensures
        r == list_marker_at(chars@, pos as int),
{
    if pos == 0 || !is_numeric(chars[pos - 1]) {
        return false;
    }
    let mut j: usize = pos - 1;
    while j > 0 && (is_numeric(chars[j]) || chars[j] == ' ')
        invariant
            j < pos,
            pos < chars.len(),
            number_start(chars@, j as int) == number_start(chars@, pos - 1),
        decreases j,
    {
        j -= 1;
    }
    j == 0 || chars[j] == '\n'
}

/// Whether what comes after `pos` may begin a sentence.
pub fn starts_sentence_after(chars: &[char], pos: usize) -> (r: bool)
    requires
        pos < chars.len(),
    ensures
        r == sentence_follows(chars@, pos as int),
{
    let mut n: usize = pos + 1;
    while n < chars.len() && (chars[n] == ' ' || chars[n] == '\t' || chars[n] == '\n' || chars[n]
        == '"' || chars[n] == '\'' || chars[n] == ')' || chars[n] == ']' || chars[n] == '}')
        invariant
            pos < n <= chars.len(),
            next_visible(chars@, n as int) == next_visible(chars@, pos + 1),
        decreases chars.len() - n,
    {
        n += 1;
    }
    if n >= chars.len() {
        return true;
    }
    is_uppercase(chars[n]) || is_numeric(chars[n])
}

/// Whether a sentence ends at `pos`, given the lower-case form of the text
/// right before `pos`.
pub fn is_sentence_end_given(chars: &[char], pos: usize, lower_before: &[char]) -> (r: bool)
    requires
        pos < chars.len(),
    ensures
        r == sentence_end_given(chars@, pos as int, lower_before@),
{
    let ch = chars[pos];
    if !(ch == '.' || ch == '!' || ch == '?') {
        return false;
    }
    if ch == '.' {
        if ends_with_abbreviation(lower_before) {
            return false;
        }
        if is_list_marker(chars, pos) {
            return false;
        }
    }
    starts_sentence_after(chars, pos)
}

/// Whether a sentence ends at `pos`.
pub fn sentence_ends_at(chars: &[char], pos: usize) -> (r: bool)
    requires
        pos < chars.len(),
    ensures
        r == sentence_end_at(chars@, pos as int),
{
    let start = if pos >= ABBREVIATION_WINDOW {
        pos - ABBREVIATION_WINDOW
    } else {
        0
    };
    let before = &chars[start..pos];
    let lower = to_lowercase(before);
    is_sentence_end_given(chars, pos, lower.as_slice())
}

} // verus!
