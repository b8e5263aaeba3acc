//! Masking the parts of an error message that vary between otherwise equal
//! failures: paths, long numbers and hexadecimal identifiers.
use vstd::prelude::*;

use vstd::string::StringSliceAdditionalSpecFns;
use vstd::utf8::{decode_utf8, encode_utf8, is_char_boundary};

use crate::text::{chars_of, push_char};

verus! {

/// The spans that the regular expression `pattern` matches in `haystack`:
/// successive non-overlapping matches, as byte offsets; nothing when
/// `pattern` is not a valid regular expression.
pub uninterp spec fn regex_match_spans(pattern: Seq<char>, haystack: Seq<char>) -> Option<
    Seq<(usize, usize)>,
>;

/// Match spans lie in `bytes`, start and end on character boundaries, and
/// follow one another without overlapping.
pub open spec fn spans_ok(bytes: Seq<u8>, spans: Seq<(usize, usize)>) -> bool {
    &&& forall|i: int|
        0 <= i < spans.len() ==> {
            &&& (#[trigger] spans[i]).0 <= spans[i].1 <= bytes.len()
            &&& is_char_boundary(bytes, spans[i].0 as int)
            &&& is_char_boundary(bytes, spans[i].1 as int)
        }
    &&& forall|i: int, j: int| 0 <= i < j < spans.len() ==> (#[trigger] spans[i]).1 <= (
    #[trigger] spans[j]).0
}

/// `regex::Regex::find_iter`, with the pattern compiled by `regex::Regex::new`.
/// Trusted: the spans are the regex crate's, named by [`regex_match_spans`]
/// and otherwise unstated; that they lie in the haystack, on character
/// boundaries, in order and without overlap is what the crate documents of
/// `Match::start`, `Match::end` and `find_iter`.
#[verifier::external_body]
fn find_spans(pattern: &str, haystack: &str) -> (r: Option<Vec<(usize, usize)>>)
    ensures
        match r {
            Some(v) => regex_match_spans(pattern@, haystack@) == Some(v@) && spans_ok(
                haystack.spec_bytes(),
                v@,
            ),
            None => regex_match_spans(pattern@, haystack@) is None,
        },
{
    let re = regex::Regex::new(pattern).ok()?;
    Some(re.find_iter(haystack).map(|m| (m.start(), m.end())).collect())
}

proof fn lemma_prefix_boundary(bytes: Seq<u8>, a: int, b: int)
    requires
        vstd::utf8::valid_utf8(bytes),
        0 <= a <= b <= bytes.len(),
        is_char_boundary(bytes, a),
        is_char_boundary(bytes, b),
    ensures
        vstd::utf8::valid_utf8(bytes.subrange(0, b)),
        is_char_boundary(bytes.subrange(0, b), a),
{
    vstd::utf8::valid_utf8_split(bytes, b);
    let p = bytes.subrange(0, b);
    vstd::utf8::is_char_boundary_start_end_of_seq(p);
    if a < b {
        vstd::utf8::is_char_boundary_iff_not_is_continuation_byte(bytes, a);
        vstd::utf8::is_char_boundary_iff_not_is_continuation_byte(p, a);
    }
}

/// The text between two character boundaries of `text`, given in bytes.
fn byte_slice(text: &str, a: usize, b: usize) -> (r: &str)
    requires
        a <= b <= text.spec_bytes().len(),
        is_char_boundary(text.spec_bytes(), a as int),
        is_char_boundary(text.spec_bytes(), b as int),
    ensures
        r@ == decode_utf8(text.spec_bytes().subrange(a as int, b as int)),
{
    let ghost bytes = text.spec_bytes();
    proof {
        vstd::utf8::encode_utf8_valid_utf8(text@);
        lemma_prefix_boundary(bytes, a as int, b as int);
    }
    let (pre, _) = text.split_at(b);
    let (_, r) = pre.split_at(a);
    proof {
        assert(r.spec_bytes() =~= bytes.subrange(a as int, b as int));
        vstd::utf8::encode_utf8_decode_utf8(r@);
    }
    r
}

} // verus!
verus! {

/// What a match is replaced with.
#[derive(Debug, Clone, Copy, PartialEq, Eq, Structural)]
pub enum Mask {
    /// A path, kept only by its last segment.
    Path,
    /// A long number.
    Number,
    /// A hexadecimal identifier.
    Id,
}

/// What follows the last `/` of `m`, or all of `m` if it has none.
pub open spec fn last_segment(m: Seq<char>) -> Seq<char>
    decreases m.len(),
{
    if m.len() == 0 {
        m
    } else if m.last() == '/' {
        seq![]
    } else {
        last_segment(m.drop_last()).push(m.last())
    }
}

pub open spec fn mask_spec(kind: Mask, m: Seq<char>) -> Seq<char> {
    match kind {
        Mask::Path => if last_segment(m).len() > 0 {
            "<path>/"@ + last_segment(m)
        } else {
            "<path>"@
        },
        Mask::Number => "<n>"@,
        Mask::Id => "<id>"@,
    }
}

/// The text up to the end of the last span, each span replaced by its mask.
pub open spec fn splice_prefix(bytes: Seq<u8>, spans: Seq<(usize, usize)>, kind: Mask) -> Seq<char>
    decreases spans.len(),
{
    if spans.len() == 0 {
        seq![]
    } else {
        let prev_end = if spans.len() >= 2 {
            spans[spans.len() - 2].1 as int
        } else {
            0
        };
        let s = spans.last();
        splice_prefix(bytes, spans.drop_last(), kind) + decode_utf8(
            bytes.subrange(prev_end, s.0 as int),
        ) + mask_spec(kind, decode_utf8(bytes.subrange(s.0 as int, s.1 as int)))
    }
}

/// The text of `bytes` with every span replaced by its mask.
pub open spec fn spliced(bytes: Seq<u8>, spans: Seq<(usize, usize)>, kind: Mask) -> Seq<char> {
    let end = if spans.len() > 0 {
        spans.last().1 as int
    } else {
        0
    };
    splice_prefix(bytes, spans, kind) + decode_utf8(bytes.subrange(end, bytes.len() as int))
}

/// The mask for the matched text `m`.
fn mask(kind: Mask, m: &str) -> (r: String)
    ensures
        r@ == mask_spec(kind, m@),
{
    match kind {
        Mask::Path => {
            let chars = chars_of(m);
            let mut seg = String::new();
            let mut i: usize = 0;
            while i < chars.len()
                invariant
                    i <= chars@.len(),
                    chars@ == m@,
                    seg@ == last_segment(chars@.take(i as int)),
                decreases chars@.len() - i,
            {
                assert(chars@.take(i + 1).drop_last() == chars@.take(i as int));
                if chars[i] == '/' {
                    seg = String::new();
                } else {
                    push_char(&mut seg, chars[i]);
                }
                i = i + 1;
            }
            assert(chars@.take(i as int) == chars@);
            if seg.as_str().is_empty() {
                "<path>".to_owned()
            } else {
                let mut out = "<path>/".to_owned();
                out.append(seg.as_str());
                out
            }
        },
        Mask::Number => "<n>".to_owned(),
        Mask::Id => "<id>".to_owned(),
    }
}

/// `text` with every span replaced by the mask of what it matched.
pub fn mask_spans(text: &str, spans: &Vec<(usize, usize)>, kind: Mask) -> (r: String)
    requires
        spans_ok(text.spec_bytes(), spans@),
    ensures
        r@ == spliced(text.spec_bytes(), spans@, kind),
{
    let ghost bytes = text.spec_bytes();
    let n = text.as_bytes().len();
    proof {
        vstd::utf8::encode_utf8_valid_utf8(text@);
        vstd::utf8::is_char_boundary_start_end_of_seq(bytes);
    }
    let mut out = String::new();
    let mut last: usize = 0;
    let mut i: usize = 0;
    while i < spans.len()
        invariant
            i <= spans@.len(),
            n == bytes.len(),
            bytes == text.spec_bytes(),
            spans_ok(bytes, spans@),
            is_char_boundary(bytes, last as int),
            last <= n,
            last == (if i > 0 {
                spans@[i - 1].1
            } else {
                0usize
            }),
            out@ == splice_prefix(bytes, spans@.take(i as int), kind),
        decreases spans@.len() - i,
    {
        let (a, b) = spans[i];
        proof {
            assert(spans@[i as int] == (a, b));
            if i > 0 {
                assert(spans@[i - 1].1 <= spans@[i as int].0);
            }
            let t = spans@.take(i + 1);
            assert(t.drop_last() == spans@.take(i as int));
            assert(t.last() == (a, b));
            if i >= 1 {
                assert(t[t.len() - 2] == spans@[i - 1]);
            }
        }
        let gap = byte_slice(text, last, a);
        out.append(gap);
        let matched = byte_slice(text, a, b);
        let m = mask(kind, matched);
        out.append(m.as_str());
        last = b;
        i = i + 1;
    }
    assert(spans@.take(i as int) == spans@);
    let tail = byte_slice(text, last, n);
    out.append(tail);
    out
}

} // verus!
verus! {

/// A path: optional leading characters, then one or more `/segment`s.
pub const PATH_PATTERN: &'static str = r"[\w.~-]*(?:/[\w.-]+)+";

/// A run of four or more digits.
pub const LONG_NUM_PATTERN: &'static str = r"\d{4,}";

/// A word of eight or more lower-case hexadecimal digits.
pub const HEX_PATTERN: &'static str = r"\b[0-9a-f]{8,}\b";

/// Longest a normalized error is, in characters.
pub const MAX_ERROR_LEN: usize = 200;

/// `text` with what `pattern` matches masked; `text` itself if the pattern
/// does not compile.
pub open spec fn masked(text: Seq<char>, pattern: Seq<char>, kind: Mask) -> Seq<char> {
    match regex_match_spans(pattern, text) {
        Some(spans) => spliced(encode_utf8(text), spans, kind),
        None => text,
    }
}

/// The error with paths, then long numbers, then hexadecimal identifiers
/// masked, cut to [`MAX_ERROR_LEN`] characters.
pub open spec fn normalized(error: Seq<char>) -> Seq<char> {
    let s1 = masked(error, PATH_PATTERN@, Mask::Path);
    let s2 = masked(s1, LONG_NUM_PATTERN@, Mask::Number);
    let s3 = masked(s2, HEX_PATTERN@, Mask::Id);
    if s3.len() <= MAX_ERROR_LEN {
        s3
    } else {
        s3.take(MAX_ERROR_LEN as int)
    }
}

fn mask_matches(text: &str, pattern: &str, kind: Mask) -> (r: String)
    ensures
        r@ == masked(text@, pattern@, kind),
{
    match find_spans(pattern, text) {
        Some(spans) => mask_spans(text, &spans, kind),
        None => text.to_owned(),
    }
}

/// Masks what varies between otherwise equal failures, so that they count
/// together.
pub fn normalize_error(error: &str) -> (r: String)
    ensures
        r@ == normalized(error@),
        r@.len() <= MAX_ERROR_LEN,
{
    let s1 = mask_matches(error, PATH_PATTERN, Mask::Path);
    let s2 = mask_matches(s1.as_str(), LONG_NUM_PATTERN, Mask::Number);
    let s3 = mask_matches(s2.as_str(), HEX_PATTERN, Mask::Id);
    let chars = chars_of(s3.as_str());
    let mut out = String::new();
    let mut i: usize = 0;
    while i < chars.len() && i < MAX_ERROR_LEN
        invariant
            i <= chars@.len(),
            i <= MAX_ERROR_LEN,
            out@ == chars@.take(i as int),
        decreases chars@.len() - i,
    {
        push_char(&mut out, chars[i]);
        assert(chars@.take(i + 1) =~= chars@.take(i as int).push(chars@[i as int]));
        i = i + 1;
    }
    assert(chars@.len() <= MAX_ERROR_LEN ==> chars@.take(i as int) == chars@);
    out
}

} // verus!
verus! {

/// Paths are masked first, on the error as given: errors that are the same
/// once the paths the path pattern finds in them are masked normalize alike,
/// whatever those paths held (numbers included).
pub proof fn paths_are_masked_first(e1: Seq<char>, e2: Seq<char>)
    requires
        masked(e1, PATH_PATTERN@, Mask::Path) == masked(e2, PATH_PATTERN@, Mask::Path),
    ensures
        normalized(e1) == normalized(e2),
{
}

/// Long numbers are masked next, before identifiers: errors that are the
/// same once their paths and then their long numbers are masked normalize
/// alike.
pub proof fn numbers_are_masked_before_ids(e1: Seq<char>, e2: Seq<char>)
    requires
        masked(masked(e1, PATH_PATTERN@, Mask::Path), LONG_NUM_PATTERN@, Mask::Number) == masked(
            masked(e2, PATH_PATTERN@, Mask::Path),
            LONG_NUM_PATTERN@,
            Mask::Number,
        ),
    ensures
        normalized(e1) == normalized(e2),
{
}

} // verus!
