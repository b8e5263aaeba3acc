//! Judging the collapsed rules: which to allow-list, which to keep asking
//! about, and which have too little evidence yet.
use vstd::prelude::*;

use crate::collapse::{
    collapse, collapse_rules, collapse_spec, counts_fit, leaf_view, CollapsedStat, CollapsedView,
};
use crate::family::{
    family_part, in_family, occurrences, pattern_is, rule_of, widened_rule_folds_its_family,
};
use crate::laws::{stat_always, stat_deny, stat_once, stat_one, unwidened_rules_pass_through};
use crate::query::{PermissionStat, StatView};
use crate::sort::{sort_stable, sorted_stable, view_seq, TotalPreorder};
use crate::sums::{lemma_item_le_sum, sum_of};
use crate::text::{
    chars_lt, join, lemma_chars_lt_asymmetric, lemma_chars_lt_transitive, lemma_chars_lt_trichotomy,
    lemma_views_push, str_lt, views,
};

verus! {

/// How many one-off approvals an "always allow" is taken to stand for.
pub const ALLOW_ALWAYS_TO_ALLOW_ONCE_APPROX_RATIO: i64 = 5;

/// Approvals (one-offs, plus "always" at the ratio above) needed before a
/// rule is recommended.
pub const APPROVAL_THRESHOLD: i64 = 30;

/// What is said of a rule that was denied at least once.
pub const DENIED_REASON: &'static str = "Tool was denied at least once";

/// The judgement on one rule. An `Allow` carries the approximate number of
/// approvals behind it; its confidence is half at the threshold and rises
/// linearly to certainty seventy approvals above it.
#[derive(Debug, Clone, PartialEq)]
pub enum Verdict {
    Allow { approvals: i64 },
    KeepAsking { reason: String },
    Insufficient,
}

pub enum VerdictView {
    Allow { approvals: int },
    KeepAsking { reason: Seq<char> },
    Insufficient,
}

impl View for Verdict {
    type V = VerdictView;

    open spec fn view(&self) -> VerdictView {
        match self {
            Verdict::Allow { approvals } => VerdictView::Allow { approvals: *approvals as int },
            Verdict::KeepAsking { reason } => VerdictView::KeepAsking { reason: reason@ },
            Verdict::Insufficient => VerdictView::Insufficient,
        }
    }
}

/// A rule with its judgement.
#[derive(Debug, Clone, PartialEq)]
pub struct Suggestion {
    pub tool: String,
    pub pattern: String,
    pub verdict: Verdict,
    /// The observed patterns this covers. More than one means the pattern was
    /// widened, and these are the evidence for it.
    pub members: Vec<String>,
    /// Prompts this rule would have answered.
    pub events: i64,
}

pub struct SuggestionView {
    pub tool: Seq<char>,
    pub pattern: Seq<char>,
    pub verdict: VerdictView,
    pub members: Seq<Seq<char>>,
    pub events: int,
}

impl View for Suggestion {
    type V = SuggestionView;

    open spec fn view(&self) -> SuggestionView {
        SuggestionView {
            tool: self.tool@,
            pattern: self.pattern@,
            verdict: self.verdict@,
            members: views(self.members@),
            events: self.events as int,
        }
    }
}

/// One-off approvals plus "always" approvals at their ratio.
pub open spec fn approx_approvals(c: CollapsedView) -> int {
    c.allow_once + c.allow_always * ALLOW_ALWAYS_TO_ALLOW_ONCE_APPROX_RATIO
}

/// Denied at least once: keep asking. Otherwise enough approvals: allow.
/// Otherwise: not enough evidence.
pub open spec fn verdict_spec(c: CollapsedView) -> VerdictView {
    if c.deny > 0 {
        VerdictView::KeepAsking { reason: DENIED_REASON@ }
    } else if approx_approvals(c) >= APPROVAL_THRESHOLD {
        VerdictView::Allow { approvals: approx_approvals(c) }
    } else {
        VerdictView::Insufficient
    }
}

pub open spec fn suggestion_spec(c: CollapsedView) -> SuggestionView {
    SuggestionView {
        tool: c.tool,
        pattern: c.pattern,
        verdict: verdict_spec(c),
        members: c.members,
        events: c.allow_once + c.allow_always + c.deny,
    }
}

/// Recommendations first, then what deserves a second look, then the rest.
pub open spec fn rank_spec(v: VerdictView) -> int {
    match v {
        VerdictView::Allow { .. } => 0,
        VerdictView::KeepAsking { .. } => 1,
        VerdictView::Insufficient => 2,
    }
}

/// The order suggestions are listed in: by rank, then by events, most
/// first, then by tool and pattern.
pub open spec fn listed_before(a: SuggestionView, b: SuggestionView) -> bool {
    ||| rank_spec(a.verdict) < rank_spec(b.verdict)
    ||| rank_spec(a.verdict) == rank_spec(b.verdict) && a.events > b.events
    ||| rank_spec(a.verdict) == rank_spec(b.verdict) && a.events == b.events && chars_lt(a.tool, b.tool)
    ||| rank_spec(a.verdict) == rank_spec(b.verdict) && a.events == b.events && a.tool == b.tool
        && chars_lt(a.pattern, b.pattern)
}

proof fn lemma_listed_before_asymmetric(a: SuggestionView, b: SuggestionView)
    ensures
        !(listed_before(a, b) && listed_before(b, a)),
{
    lemma_chars_lt_asymmetric(a.tool, b.tool);
    lemma_chars_lt_asymmetric(a.pattern, b.pattern);
    crate::text::lemma_chars_lt_irreflexive(a.tool);
}

proof fn lemma_listed_before_negative_transitive(a: SuggestionView, b: SuggestionView, c: SuggestionView)
    requires
        listed_before(c, a),
    ensures
        listed_before(c, b) || listed_before(b, a),
{
    lemma_chars_lt_trichotomy(a.tool, b.tool);
    lemma_chars_lt_trichotomy(b.tool, c.tool);
    lemma_chars_lt_trichotomy(a.pattern, b.pattern);
    lemma_chars_lt_trichotomy(b.pattern, c.pattern);
    if chars_lt(c.tool, a.tool) && chars_lt(a.tool, b.tool) {
        lemma_chars_lt_transitive(c.tool, a.tool, b.tool);
    }
    if chars_lt(b.tool, c.tool) && chars_lt(c.tool, a.tool) {
        lemma_chars_lt_transitive(b.tool, c.tool, a.tool);
    }
    if chars_lt(c.pattern, a.pattern) && chars_lt(a.pattern, b.pattern) {
        lemma_chars_lt_transitive(c.pattern, a.pattern, b.pattern);
    }
    if chars_lt(b.pattern, c.pattern) && chars_lt(c.pattern, a.pattern) {
        lemma_chars_lt_transitive(b.pattern, c.pattern, a.pattern);
    }
}

impl Verdict {
    fn rank(&self) -> (r: u8)
        ensures
            r == rank_spec(self@),
    {
        match self {
            Verdict::Allow { .. } => 0,
            Verdict::KeepAsking { .. } => 1,
            Verdict::Insufficient => 2,
        }
    }
}

impl TotalPreorder for Suggestion {
    open spec fn precedes(a: SuggestionView, b: SuggestionView) -> bool {
        !listed_before(b, a)
    }

    proof fn precedes_total(a: SuggestionView, b: SuggestionView) {
        lemma_listed_before_asymmetric(a, b);
    }

    proof fn precedes_transitive(a: SuggestionView, b: SuggestionView, c: SuggestionView) {
        if listed_before(c, a) {
            lemma_listed_before_negative_transitive(a, b, c);
        }
    }

    fn test_precedes(&self, other: &Self) -> (r: bool) {
        let (ra, rb) = (self.verdict.rank(), other.verdict.rank());
        let before = rb < ra || (rb == ra && other.events > self.events) || (rb == ra
            && other.events == self.events && str_lt(other.tool.as_str(), self.tool.as_str())) || (
        rb == ra && other.events == self.events && other.tool == self.tool && str_lt(
            other.pattern.as_str(),
            self.pattern.as_str(),
        ));
        !before
    }
}

fn copy_strings(v: &Vec<String>) -> (r: Vec<String>)
    ensures
        views(r@) == views(v@),
{
    let mut r: Vec<String> = Vec::new();
    let mut i: usize = 0;
    while i < v.len()
        invariant
            i <= v@.len(),
            views(r@) == views(v@).take(i as int),
        decreases v@.len() - i,
    {
        let s = v[i].clone();
        let ghost before = r@;
        r.push(s);
        proof {
            lemma_views_push(before, s);
            assert(views(v@).take(i + 1) =~= views(v@).take(i as int).push(v@[i as int]@));
        }
        i = i + 1;
    }
    assert(views(v@).take(i as int) == views(v@));
    r
}

/// A rule whose sums can be taken in `i64`.
pub open spec fn rule_fits(c: CollapsedView) -> bool {
    &&& i64::MIN <= c.allow_once + c.allow_always <= i64::MAX
    &&& i64::MIN <= c.allow_once + c.allow_always + c.deny <= i64::MAX
    &&& i64::MIN <= c.allow_always * ALLOW_ALWAYS_TO_ALLOW_ONCE_APPROX_RATIO <= i64::MAX
    &&& i64::MIN <= approx_approvals(c) <= i64::MAX
}

/// Judges one rule.
fn suggestion_from_stat(stat: &CollapsedStat) -> (r: Suggestion)
    requires
        rule_fits(stat@),
    ensures
        r@ == suggestion_spec(stat@),
{
    let approx_approvals = stat.allow_once + (stat.allow_always
        * ALLOW_ALWAYS_TO_ALLOW_ONCE_APPROX_RATIO);
    let verdict = if stat.deny > 0 {
        Verdict::KeepAsking { reason: DENIED_REASON.to_owned() }
    } else if approx_approvals >= APPROVAL_THRESHOLD {
        Verdict::Allow { approvals: approx_approvals }
    } else {
        Verdict::Insufficient
    };
    Suggestion {
        tool: stat.tool.clone(),
        pattern: stat.pattern.clone(),
        verdict,
        members: copy_strings(&stat.members),
        events: stat.total_events(),
    }
}

pub open spec fn stats_view(stats: Seq<PermissionStat>) -> Seq<StatView> {
    stats.map_values(|s: PermissionStat| s@)
}

/// The stats are small enough to analyze: every count of every rule they
/// collapse into, and every sum judging it takes, fits in `i64`.
pub open spec fn analysis_fits_spec(stats: Seq<StatView>) -> bool {
    forall|i: int|
        0 <= i < collapse_spec(stats).len() ==> counts_fit(#[trigger] collapse_spec(stats)[i])
            && rule_fits(collapse_spec(stats)[i])
}

/// The judgements of the collapsed rules, in listing order.
pub open spec fn analysis_spec(stats: Seq<StatView>) -> Seq<SuggestionView> {
    sorted_stable::<Suggestion>(judged(stats))
}

/// The judgement of every collapsed rule, in the order collapsing returns them.
pub open spec fn judged(stats: Seq<StatView>) -> Seq<SuggestionView> {
    collapse_spec(stats).map_values(|c: CollapsedView| suggestion_spec(c))
}

/// Folds the stats into the coarsest rules the evidence supports, judges
/// each, and lists them recommendations first, then what deserves a second
/// look, each by how much friction it accounts for.
pub fn analyze(stats: &[PermissionStat]) -> (out: Vec<Suggestion>)
    requires
        analysis_fits_spec(stats_view(stats@)),
    ensures
        view_seq(out@) == analysis_spec(stats_view(stats@)),
{
    let ghost sv = stats_view(stats@);
    assert(sv == stats@.map_values(|s: PermissionStat| s@));
    let rules = collapse(stats);
    let ghost rv = view_seq(rules@);
    let ghost want = judged(sv);
    let mut suggestions: Vec<Suggestion> = Vec::new();
    let mut i: usize = 0;
    while i < rules.len()
        invariant
            i <= rules@.len(),
            rv == view_seq(rules@),
            rv == collapse_spec(sv),
            want == judged(sv),
            forall|k: int| 0 <= k < rv.len() ==> rule_fits(#[trigger] rv[k]),
            view_seq(suggestions@) == want.take(i as int),
        decreases rules@.len() - i,
    {
        assert(rv[i as int] == rules@[i as int]@);
        let s = suggestion_from_stat(&rules[i]);
        let ghost before = suggestions@;
        suggestions.push(s);
        proof {
            crate::sort::lemma_view_seq_push(before, s);
            assert(want.take(i + 1) =~= want.take(i as int).push(suggestion_spec(rv[i as int])));
        }
        i = i + 1;
    }
    assert(want.take(i as int) == want);
    sort_stable(suggestions)
}

/// Whether the stats are small enough for [`analyze`].
pub fn analysis_fits(stats: &[PermissionStat]) -> (r: bool)
    ensures
        r == analysis_fits_spec(stats_view(stats@)),
{
    let ghost sv = stats_view(stats@);
    assert(sv == stats@.map_values(|s: PermissionStat| s@));
    let rules = collapse_rules(stats);
    let ghost rv = view_seq(rules@);
    let lo = i64::MIN as i128;
    let hi = i64::MAX as i128;
    let mut i: usize = 0;
    while i < rules.len()
        invariant
            i <= rules@.len(),
            rv == view_seq(rules@),
            rv == collapse_spec(sv),
            sv == stats_view(stats@),
            lo == i64::MIN,
            hi == i64::MAX,
            forall|k: int| 0 <= k < i ==> counts_fit(#[trigger] rv[k]) && rule_fits(rv[k]),
        decreases rules@.len() - i,
    {
        let c = &rules[i];
        assert(rv[i as int] == c@);
        let fits = lo <= c.allow_once && c.allow_once <= hi && lo <= c.allow_always && c.allow_always
            <= hi && lo <= c.deny && c.deny <= hi;
        if !fits {
            assert(!counts_fit(collapse_spec(sv)[i as int]));
            assert(!analysis_fits_spec(sv)) by {
                assert(0 <= i < collapse_spec(sv).len());
            }
            return false;
        }
        let both = c.allow_once + c.allow_always;
        let all = both + c.deny;
        let always5 = c.allow_always * 5;
        let approx = c.allow_once + always5;
        if !(lo <= both && both <= hi && lo <= all && all <= hi && lo <= always5 && always5 <= hi
            && lo <= approx && approx <= hi) {
            assert(!rule_fits(collapse_spec(sv)[i as int]));
            assert(!analysis_fits_spec(sv)) by {
                assert(0 <= i < collapse_spec(sv).len());
            }
            return false;
        }
        i = i + 1;
    }
    true
}

} // verus!
verus! {

/// The list is in listing order: recommendations first, then what deserves
/// a second look, then the rest, each by how many prompts it accounts for,
/// most first.
pub proof fn analysis_lists_recommendations_first(stats: Seq<StatView>)
    ensures
        forall|i: int, j: int|
            0 <= i < j < analysis_spec(stats).len() ==> !listed_before(
                #[trigger] analysis_spec(stats)[j],
                #[trigger] analysis_spec(stats)[i],
            ),
{
    crate::sums::lemma_sorted_is_sorted::<Suggestion>(judged(stats));
    let out = analysis_spec(stats);
    assert forall|i: int, j: int| 0 <= i < j < out.len() implies !listed_before(
        #[trigger] out[j],
        #[trigger] out[i],
    ) by {
        assert(<Suggestion as TotalPreorder>::precedes(out[i], out[j]));
    }
}

/// Every collapsed rule is judged exactly once: the list has one suggestion
/// per rule, and each suggestion is the judgement of one of the rules.
pub proof fn analysis_judges_every_rule(stats: Seq<StatView>)
    ensures
        analysis_spec(stats).len() == collapse_spec(stats).len(),
        forall|i: int|
            0 <= i < analysis_spec(stats).len() ==> exists|k: int|
                0 <= k < collapse_spec(stats).len() && #[trigger] analysis_spec(stats)[i]
                    == suggestion_spec(collapse_spec(stats)[k]),
{
    let want = judged(stats);
    let rules = collapse_spec(stats);
    let p = |v: SuggestionView| exists|k: int| 0 <= k < rules.len() && v == suggestion_spec(rules[k]);
    assert forall|k: int| 0 <= k < want.len() implies p(#[trigger] want[k]) by {
        assert(want[k] == suggestion_spec(rules[k]));
    }
    crate::sums::lemma_sorted_keeps::<Suggestion>(want, |v: SuggestionView| 0int, p);
}

} // verus!
verus! {

/// Nothing a suggested rule answers for was ever denied: for a widened rule
/// `P *`, no bash pattern whose tokens begin with `P`; for a rule that was
/// not widened, the one pattern it was observed as.
pub open spec fn never_denied(stats: Seq<StatView>, s: SuggestionView) -> bool {
    if s.members.len() > 1 {
        exists|q: Seq<Seq<char>>|
            #![trigger join(q, " "@)]
            s.pattern == join(q, " "@) + " *"@ && q.len() >= 1 && forall|j: int|
                0 <= j < stats.len() && in_family(q, #[trigger] stats[j]) ==> stats[j].deny == 0
    } else {
        exists|k: int|
            0 <= k < stats.len() && (#[trigger] stats[k]).tool == s.tool && stats[k].pattern
                == s.pattern && stats[k].deny == 0
    }
}

/// Allow-listing is suggested only once nothing in the rule's family was
/// ever denied, and enough approvals stand behind it. This holds when no
/// count of denials is negative, as counts of prompts never are.
pub proof fn allow_only_when_never_denied(stats: Seq<StatView>)
    requires
        forall|j: int| 0 <= j < stats.len() ==> (#[trigger] stats[j]).deny >= 0,
    ensures
        forall|i: int|
            0 <= i < analysis_spec(stats).len() && (#[trigger] analysis_spec(stats)[i]).verdict is Allow
                ==> never_denied(stats, analysis_spec(stats)[i]) && analysis_spec(stats)[i].verdict->approvals
                >= APPROVAL_THRESHOLD,
{
    analysis_judges_every_rule(stats);
    widened_rule_folds_its_family(stats);
    unwidened_rules_pass_through(stats);
    let out = analysis_spec(stats);
    let rules = collapse_spec(stats);
    assert forall|i: int| 0 <= i < out.len() && (#[trigger] out[i]).verdict is Allow implies never_denied(
        stats,
        out[i],
    ) && out[i].verdict->approvals >= APPROVAL_THRESHOLD by {
        let k = choose|k: int| 0 <= k < rules.len() && out[i] == suggestion_spec(rules[k]);
        let c = rules[k];
        assert(c.deny <= 0);
        if c.members.len() > 1 {
            let q = choose|q: Seq<Seq<char>>|
                {
                    &&& #[trigger] rule_of(q, c)
                    &&& q.len() >= 1
                    &&& c.allow_once == sum_of(stats, family_part(q, stat_once()))
                    &&& c.allow_always == sum_of(stats, family_part(q, stat_always()))
                    &&& c.deny == sum_of(stats, family_part(q, stat_deny()))
                    &&& c.members.len() == sum_of(stats, family_part(q, stat_one()))
                    &&& forall|x: Seq<char>|
                        #[trigger] occurrences(c.members, x) == sum_of(stats, family_part(q, pattern_is(x)))
                };
            assert forall|j: int| 0 <= j < stats.len() implies (family_part(q, stat_deny()))(
                #[trigger] stats[j],
            ) >= 0 by {}
            assert forall|j: int| 0 <= j < stats.len() && in_family(q, #[trigger] stats[j]) implies stats[j].deny
                == 0 by {
                lemma_item_le_sum(stats, family_part(q, stat_deny()), j);
            }
            assert(out[i].pattern == join(q, " "@) + " *"@);
        } else {
            let j = choose|j: int| 0 <= j < stats.len() && c == leaf_view(#[trigger] stats[j]);
            assert(stats[j].tool == out[i].tool && stats[j].pattern == out[i].pattern);
        }
    }
}

} // verus!
verus! {

/// How a rule is judged, by its counts: kept asking about once denied;
/// otherwise allowed once its one-off approvals plus five per "always"
/// reach thirty, with that many approvals behind it; otherwise not enough
/// evidence.
pub proof fn verdicts_follow_the_counts(c: CollapsedView)
    ensures
        (verdict_spec(c) is KeepAsking) == (c.deny > 0),
        (verdict_spec(c) is Allow) == (c.deny <= 0 && c.allow_once + 5 * c.allow_always >= 30),
        verdict_spec(c) is Allow ==> verdict_spec(c)->approvals == c.allow_once + 5 * c.allow_always,
        suggestion_spec(c).events == c.allow_once + c.allow_always + c.deny,
{
}

} // verus!
