//! The cells of the tables the counts and the suggestions are shown in.
//!
//! Every cell is plain text: counts in decimal, patterns and errors
//! abbreviated to one line, a verdict in words. Laying the cells out and
//! colouring them is left to whatever draws the table.
use vstd::prelude::*;

use crate::analysis::{Suggestion, SuggestionView, Verdict, VerdictView, APPROVAL_THRESHOLD};
use crate::display::{abbreviate, abbreviation};
use crate::failures::{FailureStat, FailureStatView};
use crate::query::{PermissionStat, StatView};
use crate::text::{join, join_strings, lemma_views_push, push_char, views};
use crate::types::source_name;

verus! {

broadcast use vstd::string::group_string_axioms;

/// The character of a decimal digit.
pub open spec fn digit(d: int) -> char {
    if d == 0 {
        '0'
    } else if d == 1 {
        '1'
    } else if d == 2 {
        '2'
    } else if d == 3 {
        '3'
    } else if d == 4 {
        '4'
    } else if d == 5 {
        '5'
    } else if d == 6 {
        '6'
    } else if d == 7 {
        '7'
    } else if d == 8 {
        '8'
    } else {
        '9'
    }
}

/// The decimal digits of `n`, most significant first, without leading zeros.
pub open spec fn digits(n: nat) -> Seq<char>
    decreases n,
{
    if n < 10 {
        seq![digit(n as int)]
    } else {
        digits(n / 10).push(digit((n % 10) as int))
    }
}

/// `n` written in decimal, with a minus sign when negative.
pub open spec fn decimal_spec(n: int) -> Seq<char> {
    if n < 0 {
        seq!['-'] + digits((-n) as nat)
    } else {
        digits(n as nat)
    }
}

fn digit_char(d: u64) -> (c: char)
    requires
        d < 10,
    ensures
        c == digit(d as int),
{
    match d {
        0 => '0',
        1 => '1',
        2 => '2',
        3 => '3',
        4 => '4',
        5 => '5',
        6 => '6',
        7 => '7',
        8 => '8',
        _ => '9',
    }
}

fn digits_of(n: u64) -> (s: String)
    ensures
        s@ == digits(n as nat),
    decreases n,
{
    if n < 10 {
        let mut s = String::new();
        push_char(&mut s, digit_char(n));
        s
    } else {
        let mut s = digits_of(n / 10);
        push_char(&mut s, digit_char(n % 10));
        s
    }
}

/// `n` in decimal.
pub fn decimal(n: i64) -> (s: String)
    ensures
        s@ == decimal_spec(n as int),
{
    if n < 0 {
        let m: i128 = -(n as i128);
        let mut s = String::new();
        push_char(&mut s, '-');
        let d = digits_of(m as u64);
        s.append(d.as_str());
        assert(s@ =~= seq!['-'] + digits((-n) as nat));
        s
    } else {
        digits_of(n as u64)
    }
}

/// How sure a recommendation is, in percent: half at the threshold, rising
/// linearly to certainty seventy approvals above it, rounded to the nearest
/// whole percent.
pub open spec fn confidence_percent_spec(approvals: int) -> int {
    if approvals <= APPROVAL_THRESHOLD {
        50
    } else if approvals >= APPROVAL_THRESHOLD + 70 {
        100
    } else {
        50 + (10 * (approvals - APPROVAL_THRESHOLD) + 7) / 14
    }
}

/// The confidence of an `Allow` with `approvals` behind it, in percent.
pub fn confidence_percent(approvals: i64) -> (p: i64)
    ensures
        p == confidence_percent_spec(approvals as int),
        50 <= p <= 100,
{
    if approvals <= APPROVAL_THRESHOLD {
        50
    } else if approvals >= APPROVAL_THRESHOLD + 70 {
        100
    } else {
        50 + (10 * (approvals - APPROVAL_THRESHOLD) + 7) / 14
    }
}

/// A verdict in words.
pub open spec fn verdict_text_spec(v: VerdictView) -> Seq<char> {
    match v {
        VerdictView::Allow { approvals } => "allow ("@ + decimal_spec(
            confidence_percent_spec(approvals),
        ) + "%)"@,
        VerdictView::KeepAsking { reason } => "keep asking: "@ + reason,
        VerdictView::Insufficient => "insufficient data"@,
    }
}

pub fn verdict_text(v: &Verdict) -> (s: String)
    ensures
        s@ == verdict_text_spec(v@),
{
    match v {
        Verdict::Allow { approvals } => {
            let mut s = "allow (".to_owned();
            let p = decimal(confidence_percent(*approvals));
            s.append(p.as_str());
            s.append("%)");
            s
        },
        Verdict::KeepAsking { reason } => {
            let mut s = "keep asking: ".to_owned();
            s.append(reason.as_str());
            s
        },
        Verdict::Insufficient => "insufficient data".to_owned(),
    }
}

/// What a widened rule was inferred from, one abbreviated pattern a line; a
/// dash for a rule that was not widened.
pub open spec fn evidence_spec(members: Seq<Seq<char>>) -> Seq<char> {
    if members.len() <= 1 {
        "-"@
    } else {
        join(members.map_values(|m: Seq<char>| abbreviation(m)), "\n"@)
    }
}

/// A rule the user cannot audit is a rule they cannot trust, so the observed
/// patterns travel with it.
pub fn evidence(suggestion: &Suggestion) -> (s: String)
    ensures
        s@ == evidence_spec(suggestion@.members),
{
    let members = &suggestion.members;
    if members.len() <= 1 {
        return "-".to_owned();
    }
    let ghost want = views(members@).map_values(|m: Seq<char>| abbreviation(m));
    let mut lines: Vec<String> = Vec::new();
    let mut i: usize = 0;
    while i < members.len()
        invariant
            i <= members@.len(),
            want == views(members@).map_values(|m: Seq<char>| abbreviation(m)),
            views(lines@) == want.take(i as int),
        decreases members@.len() - i,
    {
        let a = abbreviate(members[i].as_str());
        let ghost before = lines@;
        lines.push(a);
        proof {
            lemma_views_push(before, a);
            assert(want.take(i + 1) =~= want.take(i as int).push(abbreviation(members@[i as int]@)));
        }
        i = i + 1;
    }
    assert(want.take(i as int) == want);
    join_strings(&lines, "\n")
}

/// The cells of a permission count: tool, "always" approvals, one-off
/// approvals, denials, pattern.
pub open spec fn permission_row_spec(s: StatView) -> Seq<Seq<char>> {
    seq![
        s.tool,
        decimal_spec(s.allow_always as int),
        decimal_spec(s.allow_once as int),
        decimal_spec(s.deny as int),
        abbreviation(s.pattern),
    ]
}

pub fn permission_row(stat: &PermissionStat) -> (row: Vec<String>)
    ensures
        views(row@) == permission_row_spec(stat@),
{
    let row = vec![
        stat.tool.clone(),
        decimal(stat.allow_always),
        decimal(stat.allow_once),
        decimal(stat.deny),
        abbreviate(stat.pattern.as_str()),
    ];
    assert(views(row@) =~= permission_row_spec(stat@));
    row
}

/// The cells of a failure count: tool, count, error pattern, example, source.
pub open spec fn failure_row_spec(s: FailureStatView) -> Seq<Seq<char>> {
    seq![
        s.tool,
        decimal_spec(s.count),
        abbreviation(s.error_pattern),
        abbreviation(s.example),
        source_name(s.source),
    ]
}

pub fn failure_row(stat: &FailureStat) -> (row: Vec<String>)
    ensures
        views(row@) == failure_row_spec(stat@),
{
    let row = vec![
        stat.tool.clone(),
        decimal(stat.count),
        abbreviate(stat.error_pattern.as_str()),
        abbreviate(stat.example.as_str()),
        stat.source.as_str().to_owned(),
    ];
    assert(views(row@) =~= failure_row_spec(stat@));
    row
}

/// The cells of a suggestion: tool, pattern, verdict, events, evidence.
pub open spec fn suggestion_row_spec(s: SuggestionView) -> Seq<Seq<char>> {
    seq![
        s.tool,
        abbreviation(s.pattern),
        verdict_text_spec(s.verdict),
        decimal_spec(s.events),
        evidence_spec(s.members),
    ]
}

pub fn suggestion_row(suggestion: &Suggestion) -> (row: Vec<String>)
    ensures
        views(row@) == suggestion_row_spec(suggestion@),
{
    let row = vec![
        suggestion.tool.clone(),
        abbreviate(suggestion.pattern.as_str()),
        verdict_text(&suggestion.verdict),
        decimal(suggestion.events),
        evidence(suggestion),
    ];
    assert(views(row@) =~= suggestion_row_spec(suggestion@));
    row
}

} // verus!
