//! Shaping recorded values for a terminal table.
//!
//! Patterns and errors are captured verbatim, so they arrive with whatever
//! newlines and length the command had as typed. Abbreviating is a display
//! concern only; the stored values stay untouched.
use vstd::prelude::*;

use crate::text::{
    chars_of, join, join_strings, lemma_join_spaced, lemma_spaced_rejoins, lemma_words_are_words,
    push_char, spaced, split_whitespace, white_space, words,
};

verus! {

/// Longest a cell renders before it is cut.
pub const MAX_LEN: usize = 60;

/// What marks a cut value.
pub const ELLIPSIS: char = '\u{2026}';

/// `value` on one line, its words separated by single spaces, and cut to
/// [`MAX_LEN`] characters, the last an ellipsis, when longer.
pub open spec fn abbreviation(value: Seq<char>) -> Seq<char> {
    let flat = join(words(value), " "@);
    if flat.len() <= MAX_LEN {
        flat
    } else {
        flat.take(MAX_LEN - 1).push(ELLIPSIS)
    }
}

/// Flattens to one line and caps the length.
pub fn abbreviate(value: &str) -> (out: String)
    ensures
        out@ == abbreviation(value@),
{
    let ws = split_whitespace(value);
    let flattened = join_strings(&ws, " ");
    let chars = chars_of(flattened.as_str());
    if chars.len() <= MAX_LEN {
        return flattened;
    }
    let mut out = String::new();
    let mut i: usize = 0;
    while i < MAX_LEN - 1
        invariant
            i <= MAX_LEN - 1,
            MAX_LEN < chars@.len(),
            out@ == chars@.take(i as int),
        decreases MAX_LEN - 1 - i,
    {
        push_char(&mut out, chars[i]);
        assert(chars@.take(i + 1) =~= chars@.take(i as int).push(chars@[i as int]));
        i = i + 1;
    }
    push_char(&mut out, ELLIPSIS);
    out
}

} // verus!
verus! {

/// An abbreviated value fits its cell and stays on one line: it is at most
/// [`MAX_LEN`] characters, and its only whitespace is single spaces.
pub proof fn abbreviation_fits_one_line(value: Seq<char>)
    ensures
        abbreviation(value).len() <= MAX_LEN,
        forall|k: int|
            0 <= k < abbreviation(value).len() && crate::text::white_space(
                #[trigger] abbreviation(value)[k],
            ) ==> abbreviation(value)[k] == ' ',
{
    crate::text::lemma_words_are_words(value);
    crate::text::lemma_join_one_line(words(value));
    let flat = join(words(value), " "@);
    let a = abbreviation(value);
    if flat.len() > MAX_LEN {
        assert forall|k: int| 0 <= k < a.len() && crate::text::white_space(#[trigger] a[k]) implies a[k]
            == ' ' by {
            if k < MAX_LEN - 1 {
                assert(a[k] == flat[k]);
            }
        }
    }
}

} // verus!
verus! {

/// Abbreviating an abbreviated value changes nothing.
pub proof fn abbreviation_is_idempotent(value: Seq<char>)
    ensures
        abbreviation(abbreviation(value)) == abbreviation(value),
{
    lemma_words_are_words(value);
    let flat = join(words(value), " "@);
    lemma_join_spaced(words(value));
    let a = abbreviation(value);
    if flat.len() <= MAX_LEN {
        lemma_spaced_rejoins(flat);
    } else {
        let p = flat.take(MAX_LEN - 1);
        assert(a == p.push(ELLIPSIS));
        assert(!white_space(ELLIPSIS));
        assert(spaced(a)) by {
            assert forall|i: int| 0 <= i < a.len() && white_space(#[trigger] a[i]) implies a[i] == ' '
                && i > 0 && !white_space(a[i - 1]) by {
                assert(i < MAX_LEN - 1);
                assert(a[i] == flat[i]);
                assert(a[i - 1] == flat[i - 1]);
            }
        }
        assert(a.last() == ELLIPSIS);
        lemma_spaced_rejoins(a);
    }
}

} // verus!
