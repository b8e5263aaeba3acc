//! Counting tool failures by tool, normalized error and source.
use vstd::prelude::*;

use crate::normalize::{normalize_error, normalized};
use crate::sums::{
    lemma_item_le_sum, lemma_sorted_is_sorted, lemma_sorted_keeps, lemma_sum_eq, lemma_sum_zero,
    sum_of,
};
use crate::sort::{sort_stable, sorted_stable, view_seq, TotalPreorder};
use crate::text::{
    chars_lt, lemma_chars_lt_asymmetric, lemma_chars_lt_irreflexive, lemma_chars_lt_transitive,
    lemma_chars_lt_trichotomy, str_lt,
};
use crate::types::Source;

verus! {

/// One recorded failure, as read back.
#[derive(Debug, Clone, PartialEq)]
pub struct FailureRaw {
    pub tool: String,
    pub error: String,
    pub source: Source,
}

/// How often one kind of failure happened, with one example of it.
#[derive(Debug, Clone, PartialEq)]
pub struct FailureStat {
    pub tool: String,
    pub error_pattern: String,
    pub example: String,
    pub count: i64,
    pub source: Source,
}

pub struct FailureRawView {
    pub tool: Seq<char>,
    pub error: Seq<char>,
    pub source: Source,
}

pub struct FailureStatView {
    pub tool: Seq<char>,
    pub error_pattern: Seq<char>,
    pub example: Seq<char>,
    pub count: int,
    pub source: Source,
}

impl View for FailureRaw {
    type V = FailureRawView;

    open spec fn view(&self) -> FailureRawView {
        FailureRawView { tool: self.tool@, error: self.error@, source: self.source }
    }
}

impl View for FailureStat {
    type V = FailureStatView;

    open spec fn view(&self) -> FailureStatView {
        FailureStatView {
            tool: self.tool@,
            error_pattern: self.error_pattern@,
            example: self.example@,
            count: self.count as int,
            source: self.source,
        }
    }
}

/// A failure with the pattern its error normalizes to.
pub struct KeyedFailure {
    pub tool: Seq<char>,
    pub pattern: Seq<char>,
    pub source: Source,
    pub error: Seq<char>,
}

pub open spec fn same_kind(g: FailureStatView, f: KeyedFailure) -> bool {
    g.tool == f.tool && g.error_pattern == f.pattern && g.source == f.source
}

/// Where the group of `f`'s kind stands in `g`; `g.len()` if it has none.
pub open spec fn find_group(g: Seq<FailureStatView>, f: KeyedFailure) -> int
    decreases g.len(),
{
    if g.len() == 0 {
        0
    } else if same_kind(g[0], f) {
        0
    } else {
        1 + find_group(g.drop_first(), f)
    }
}

/// One group per kind of failure, in the order each kind first occurs, with
/// its count and the first error of its kind as the example.
pub open spec fn failure_groups(fs: Seq<KeyedFailure>) -> Seq<FailureStatView>
    decreases fs.len(),
{
    if fs.len() == 0 {
        seq![]
    } else {
        let g = failure_groups(fs.drop_last());
        let f = fs.last();
        let i = find_group(g, f);
        if i < g.len() {
            g.update(i, FailureStatView { count: g[i].count + 1, ..g[i] })
        } else {
            g.push(
                FailureStatView {
                    tool: f.tool,
                    error_pattern: f.pattern,
                    example: f.error,
                    count: 1,
                    source: f.source,
                },
            )
        }
    }
}

/// The order failure counts are listed in: most frequent first, then by
/// tool and by pattern.
pub open spec fn failure_before(a: FailureStatView, b: FailureStatView) -> bool {
    ||| a.count > b.count
    ||| a.count == b.count && chars_lt(a.tool, b.tool)
    ||| a.count == b.count && a.tool == b.tool && chars_lt(a.error_pattern, b.error_pattern)
}

impl TotalPreorder for FailureStat {
    open spec fn precedes(a: FailureStatView, b: FailureStatView) -> bool {
        !failure_before(b, a)
    }

    proof fn precedes_total(a: FailureStatView, b: FailureStatView) {
        lemma_chars_lt_asymmetric(a.tool, b.tool);
        lemma_chars_lt_asymmetric(a.error_pattern, b.error_pattern);
        lemma_chars_lt_irreflexive(a.tool);
    }

    proof fn precedes_transitive(a: FailureStatView, b: FailureStatView, c: FailureStatView) {
        lemma_chars_lt_trichotomy(a.tool, b.tool);
        lemma_chars_lt_trichotomy(b.tool, c.tool);
        lemma_chars_lt_trichotomy(a.error_pattern, b.error_pattern);
        lemma_chars_lt_trichotomy(b.error_pattern, c.error_pattern);
        if chars_lt(c.tool, a.tool) && chars_lt(a.tool, b.tool) {
            lemma_chars_lt_transitive(c.tool, a.tool, b.tool);
        }
        if chars_lt(b.tool, c.tool) && chars_lt(c.tool, a.tool) {
            lemma_chars_lt_transitive(b.tool, c.tool, a.tool);
        }
        if chars_lt(c.error_pattern, a.error_pattern) && chars_lt(a.error_pattern, b.error_pattern) {
            lemma_chars_lt_transitive(c.error_pattern, a.error_pattern, b.error_pattern);
        }
        if chars_lt(b.error_pattern, c.error_pattern) && chars_lt(c.error_pattern, a.error_pattern) {
            lemma_chars_lt_transitive(b.error_pattern, c.error_pattern, a.error_pattern);
        }
    }

    fn test_precedes(&self, other: &Self) -> (r: bool) {
        let before = other.count > self.count || (other.count == self.count && str_lt(
            other.tool.as_str(),
            self.tool.as_str(),
        )) || (other.count == self.count && other.tool == self.tool && str_lt(
            other.error_pattern.as_str(),
            self.error_pattern.as_str(),
        ));
        !before
    }
}

/// The rows keyed by the patterns given for their errors.
pub open spec fn keyed(rows: Seq<FailureRaw>, patterns: Seq<String>) -> Seq<KeyedFailure> {
    Seq::new(
        rows.len(),
        |i: int|
            KeyedFailure {
                tool: rows[i].tool@,
                pattern: patterns[i]@,
                source: rows[i].source,
                error: rows[i].error@,
            },
    )
}

/// The rows keyed by their normalized errors.
pub open spec fn keyed_normalized(rows: Seq<FailureRaw>) -> Seq<KeyedFailure> {
    Seq::new(
        rows.len(),
        |i: int|
            KeyedFailure {
                tool: rows[i].tool@,
                pattern: normalized(rows[i].error@),
                source: rows[i].source,
                error: rows[i].error@,
            },
    )
}

proof fn lemma_find_group(g: Seq<FailureStatView>, f: KeyedFailure, j: int)
    requires
        0 <= j <= g.len(),
        forall|k: int| 0 <= k < j ==> !same_kind(#[trigger] g[k], f),
        j == g.len() || same_kind(g[j], f),
    ensures
        find_group(g, f) == j,
    decreases g.len(),
{
    if g.len() > 0 && j > 0 {
        assert forall|k: int| 0 <= k < j - 1 implies !same_kind(#[trigger] g.drop_first()[k], f) by {
            assert(g.drop_first()[k] == g[k + 1]);
        }
        if j < g.len() {
            assert(g.drop_first()[j - 1] == g[j]);
        }
        lemma_find_group(g.drop_first(), f, j - 1);
        assert(!same_kind(g[0], f));
    }
}

/// Counts failures by kind, given the pattern each row's error normalizes
/// to, and lists the kinds most frequent first.
pub fn group_failures(rows: &[FailureRaw], patterns: &Vec<String>) -> (out: Vec<FailureStat>)
    requires
        rows@.len() == patterns@.len(),
        rows@.len() <= i64::MAX,
    ensures
        view_seq(out@) == sorted_stable::<FailureStat>(failure_groups(keyed(rows@, patterns@))),
{
    let ghost fs = keyed(rows@, patterns@);
    let mut groups: Vec<FailureStat> = Vec::new();
    let mut i: usize = 0;
    while i < rows.len()
        invariant
            i <= rows@.len(),
            rows@.len() == patterns@.len(),
            rows@.len() <= i64::MAX,
            fs == keyed(rows@, patterns@),
            view_seq(groups@) == failure_groups(fs.take(i as int)),
            forall|k: int| 0 <= k < groups@.len() ==> 0 < (#[trigger] groups@[k]).count <= i,
        decreases rows@.len() - i,
    {
        let ghost g = view_seq(groups@);
        let ghost f = fs[i as int];
        proof {
            assert(fs.take(i + 1).drop_last() == fs.take(i as int));
            assert(fs.take(i + 1).last() == f);
        }
        let row = &rows[i];
        let pattern = &patterns[i];
        let mut j: usize = 0;
        while j < groups.len() && !(groups[j].tool == row.tool && groups[j].error_pattern == *pattern
            && groups[j].source == row.source)
            invariant
                j <= groups@.len(),
                g == view_seq(groups@),
                f == fs[i as int],
                f.tool == row.tool@ && f.pattern == pattern@ && f.source == row.source,
                forall|k: int| 0 <= k < j ==> !same_kind(#[trigger] g[k], f),
            decreases groups@.len() - j,
        {
            assert(g[j as int] == groups@[j as int]@);
            j = j + 1;
        }
        proof {
            if j < groups@.len() {
                assert(g[j as int] == groups@[j as int]@);
            }
            lemma_find_group(g, f, j as int);
        }
        if j < groups.len() {
            let ghost old_groups = groups@;
            let c = groups[j].count + 1;
            groups.set(j, FailureStat {
                tool: groups[j].tool.clone(),
                error_pattern: groups[j].error_pattern.clone(),
                example: groups[j].example.clone(),
                count: c,
                source: groups[j].source,
            });
            proof {
                assert(view_seq(groups@) =~= g.update(
                    j as int,
                    FailureStatView { count: g[j as int].count + 1, ..g[j as int] },
                ));
            }
        } else {
            let ghost old_groups = groups@;
            let s = FailureStat {
                tool: row.tool.clone(),
                error_pattern: pattern.clone(),
                example: row.error.clone(),
                count: 1,
                source: row.source,
            };
            groups.push(s);
            proof {
                crate::sort::lemma_view_seq_push(old_groups, s);
            }
        }
        i = i + 1;
    }
    assert(fs.take(i as int) == fs);
    sort_stable(groups)
}

/// Counts failures by tool, normalized error and source, and lists the
/// kinds most frequent first. Kinds that tie on count, tool and pattern
/// keep the order in which they first occur.
pub fn aggregate_failures(rows: &[FailureRaw]) -> (out: Vec<FailureStat>)
    requires
        rows@.len() <= i64::MAX,
    ensures
        view_seq(out@) == sorted_stable::<FailureStat>(failure_groups(keyed_normalized(rows@))),
{
    let mut patterns: Vec<String> = Vec::new();
    let mut i: usize = 0;
    while i < rows.len()
        invariant
            i <= rows@.len(),
            patterns@.len() == i,
            forall|k: int| 0 <= k < i ==> (#[trigger] patterns@[k])@ == normalized(rows@[k].error@),
        decreases rows@.len() - i,
    {
        patterns.push(normalize_error(rows[i].error.as_str()));
        i = i + 1;
    }
    assert(keyed(rows@, patterns@) =~= keyed_normalized(rows@));
    group_failures(rows, &patterns)
}

} // verus!
verus! {

/// Two failures of the same kind: tool, pattern and source.
pub open spec fn same_kind_rows(a: KeyedFailure, b: KeyedFailure) -> bool {
    a.tool == b.tool && a.pattern == b.pattern && a.source == b.source
}

/// One for each group of the kind of `f`.
pub open spec fn groups_of_kind(f: KeyedFailure) -> spec_fn(FailureStatView) -> int {
    |g: FailureStatView|
        if same_kind(g, f) {
            1
        } else {
            0
        }
}

/// One for each failure of the kind of `g`.
pub open spec fn rows_of_kind(g: FailureStatView) -> spec_fn(KeyedFailure) -> int {
    |x: KeyedFailure|
        if same_kind(g, x) {
            1
        } else {
            0
        }
}

pub open spec fn count_of() -> spec_fn(FailureStatView) -> int {
    |g: FailureStatView| g.count
}

/// `g`'s example is the error of the first failure of its kind in `fs`.
pub open spec fn first_example(fs: Seq<KeyedFailure>, g: FailureStatView) -> bool {
    exists|k: int|
        0 <= k < fs.len() && #[trigger] same_kind(g, fs[k]) && g.example == fs[k].error && forall|
            j: int,
        | 0 <= j < k ==> !same_kind(g, #[trigger] fs[j])
}

/// What the groups of `fs` are: as many counted as there are failures, one
/// group for each kind that occurs and none for any other, each counting the
/// failures of its kind, with the first of them as its example.
pub open spec fn groups_exact(fs: Seq<KeyedFailure>, gs: Seq<FailureStatView>) -> bool {
    &&& sum_of(gs, count_of()) == fs.len()
    &&& forall|f: KeyedFailure|
        #[trigger] sum_of(gs, groups_of_kind(f)) == if exists|k: int|
            0 <= k < fs.len() && same_kind_rows(#[trigger] fs[k], f) {
            1int
        } else {
            0int
        }
    &&& forall|i: int| 0 <= i < gs.len() ==> (#[trigger] gs[i]).count == sum_of(fs, rows_of_kind(gs[i]))
    &&& forall|i: int| 0 <= i < gs.len() ==> first_example(fs, #[trigger] gs[i])
}

proof fn lemma_find_group_props(g: Seq<FailureStatView>, f: KeyedFailure)
    ensures
        0 <= find_group(g, f) <= g.len(),
        find_group(g, f) < g.len() ==> same_kind(g[find_group(g, f)], f),
        forall|j: int| 0 <= j < find_group(g, f) ==> !same_kind(#[trigger] g[j], f),
    decreases g.len(),
{
    if g.len() > 0 && !same_kind(g[0], f) {
        lemma_find_group_props(g.drop_first(), f);
        assert forall|j: int| 0 <= j < find_group(g, f) implies !same_kind(#[trigger] g[j], f) by {
            if j > 0 {
                assert(g[j] == g.drop_first()[j - 1]);
            }
        }
    }
}

proof fn lemma_sum_update<A>(s: Seq<A>, i: int, x: A, f: spec_fn(A) -> int)
    requires
        0 <= i < s.len(),
    ensures
        sum_of(s.update(i, x), f) == sum_of(s, f) - f(s[i]) + f(x),
    decreases s.len(),
{
    if i == s.len() - 1 {
        assert(s.update(i, x).drop_last() == s.drop_last());
    } else {
        lemma_sum_update(s.drop_last(), i, x, f);
        assert(s.update(i, x).drop_last() == s.drop_last().update(i, x));
    }
}

proof fn lemma_sum_eq_seqs<A>(a: Seq<A>, b: Seq<A>, f: spec_fn(A) -> int)
    requires
        a.len() == b.len(),
        forall|k: int| 0 <= k < a.len() ==> f(#[trigger] a[k]) == f(b[k]),
    ensures
        sum_of(a, f) == sum_of(b, f),
    decreases a.len(),
{
    if a.len() > 0 {
        assert forall|k: int| 0 <= k < a.drop_last().len() implies f(#[trigger] a.drop_last()[k]) == f(
            b.drop_last()[k],
        ) by {
            assert(a.drop_last()[k] == a[k] && b.drop_last()[k] == b[k]);
        }
        lemma_sum_eq_seqs(a.drop_last(), b.drop_last(), f);
        assert(f(a[a.len() - 1]) == f(b[b.len() - 1]));
    }
}

proof fn lemma_indicator_witness(gs: Seq<FailureStatView>, f: KeyedFailure)
    requires
        sum_of(gs, groups_of_kind(f)) > 0,
    ensures
        exists|i: int| 0 <= i < gs.len() && same_kind(#[trigger] gs[i], f),
{
    if forall|i: int| 0 <= i < gs.len() ==> !same_kind(#[trigger] gs[i], f) {
        assert forall|i: int| 0 <= i < gs.len() implies (groups_of_kind(f))(#[trigger] gs[i]) == 0 by {}
        lemma_sum_zero(gs, groups_of_kind(f));
    }
}

proof fn lemma_two_of_kind(gs: Seq<FailureStatView>, f: KeyedFailure, i: int, j: int)
    requires
        0 <= i < j < gs.len(),
        same_kind(gs[i], f),
        same_kind(gs[j], f),
    ensures
        sum_of(gs, groups_of_kind(f)) >= 2,
    decreases gs.len(),
{
    let d = gs.drop_last();
    assert forall|k: int| 0 <= k < d.len() implies (groups_of_kind(f))(#[trigger] d[k]) >= 0 by {}
    if j < gs.len() - 1 {
        assert(d[i] == gs[i] && d[j] == gs[j]);
        lemma_two_of_kind(d, f, i, j);
        assert((groups_of_kind(f))(gs[gs.len() - 1]) >= 0);
    } else {
        assert(d[i] == gs[i]);
        lemma_item_le_sum(d, groups_of_kind(f), i);
    }
}

proof fn lemma_groups_exact(fs: Seq<KeyedFailure>)
    ensures
        groups_exact(fs, failure_groups(fs)),
    decreases fs.len(),
{
    if fs.len() == 0 {
        let gs = failure_groups(fs);
        assert forall|f: KeyedFailure| #[trigger] sum_of(gs, groups_of_kind(f)) == if exists|k: int|
            0 <= k < fs.len() && same_kind_rows(#[trigger] fs[k], f) {
            1int
        } else {
            0int
        } by {}
    } else {
        let d = fs.drop_last();
        lemma_groups_exact(d);
        let g = failure_groups(d);
        let f = fs.last();
        let i = find_group(g, f);
        lemma_find_group_props(g, f);
        let gs = failure_groups(fs);
        assert forall|k: int| 0 <= k < d.len() implies #[trigger] d[k] == fs[k] by {}
        assert(fs[fs.len() - 1] == f);
        if i < g.len() {
            let x = FailureStatView { count: g[i].count + 1, ..g[i] };
            assert(gs == g.update(i, x));
            lemma_sum_update(g, i, x, count_of());
            assert forall|f0: KeyedFailure| #[trigger] sum_of(gs, groups_of_kind(f0)) == if exists|k: int|
                0 <= k < fs.len() && same_kind_rows(#[trigger] fs[k], f0) {
                1int
            } else {
                0int
            } by {
                assert forall|k: int| 0 <= k < gs.len() implies (groups_of_kind(f0))(#[trigger] gs[k])
                    == (groups_of_kind(f0))(g[k]) by {}
                lemma_sum_eq_seqs(gs, g, groups_of_kind(f0));
                assert(sum_of(g, groups_of_kind(f0)) == if exists|k: int|
                    0 <= k < d.len() && same_kind_rows(#[trigger] d[k], f0) {
                    1int
                } else {
                    0int
                });
                if same_kind_rows(f, f0) {
                    assert(same_kind(g[i], f0));
                    assert forall|k: int| 0 <= k < g.len() implies (groups_of_kind(f0))(#[trigger] g[k])
                        >= 0 by {}
                    lemma_item_le_sum(g, groups_of_kind(f0), i);
                    assert(same_kind_rows(fs[fs.len() - 1], f0));
                } else {
                    if exists|k: int| 0 <= k < fs.len() && same_kind_rows(#[trigger] fs[k], f0) {
                        let k = choose|k: int| 0 <= k < fs.len() && same_kind_rows(#[trigger] fs[k], f0);
                        assert(k < d.len());
                        assert(same_kind_rows(d[k], f0));
                    }
                }
            }
            assert forall|j: int| 0 <= j < gs.len() implies (#[trigger] gs[j]).count == sum_of(
                fs,
                rows_of_kind(gs[j]),
            ) by {
                assert(d == fs.drop_last());
                if j == i {
                    assert forall|k: int| 0 <= k < d.len() implies (rows_of_kind(gs[j]))(#[trigger] d[k])
                        == (rows_of_kind(g[j]))(d[k]) by {}
                    lemma_sum_eq(d, rows_of_kind(gs[j]), rows_of_kind(g[j]));
                } else {
                    assert(gs[j] == g[j]);
                    if same_kind(g[j], f) {
                        assert(j > i);
                        // Two groups of one kind cannot both stand in `g`.
                        lemma_two_of_kind(g, f, i, j);
                        assert(sum_of(g, groups_of_kind(f)) <= 1);
                    }
                }
            }
            assert forall|j: int| 0 <= j < gs.len() implies first_example(fs, #[trigger] gs[j]) by {
                let gj = g[j];
                assert(first_example(d, gj));
                let k = choose|k: int|
                    0 <= k < d.len() && #[trigger] same_kind(gj, d[k]) && gj.example == d[k].error
                        && forall|jj: int| 0 <= jj < k ==> !same_kind(gj, #[trigger] d[jj]);
                assert(same_kind(gs[j], fs[k]));
                assert forall|jj: int| 0 <= jj < k implies !same_kind(gs[j], #[trigger] fs[jj]) by {
                    assert(fs[jj] == d[jj]);
                    assert(!same_kind(gj, d[jj]));
                }
            }
        } else {
            let x = FailureStatView {
                tool: f.tool,
                error_pattern: f.pattern,
                example: f.error,
                count: 1,
                source: f.source,
            };
            assert(gs == g.push(x));
            assert(gs.drop_last() == g);
            // No failure of `f`'s kind came before it.
            assert forall|k: int| 0 <= k < d.len() implies !same_kind_rows(#[trigger] d[k], f) by {
                if same_kind_rows(d[k], f) {
                    assert(sum_of(g, groups_of_kind(f)) == 1);
                    lemma_indicator_witness(g, f);
                }
            }
            assert forall|f0: KeyedFailure| #[trigger] sum_of(gs, groups_of_kind(f0)) == if exists|k: int|
                0 <= k < fs.len() && same_kind_rows(#[trigger] fs[k], f0) {
                1int
            } else {
                0int
            } by {
                assert(sum_of(g, groups_of_kind(f0)) == if exists|k: int|
                    0 <= k < d.len() && same_kind_rows(#[trigger] d[k], f0) {
                    1int
                } else {
                    0int
                });
                if same_kind_rows(f, f0) {
                    assert(same_kind_rows(fs[fs.len() - 1], f0));
                    if exists|k: int| 0 <= k < d.len() && same_kind_rows(#[trigger] d[k], f0) {
                        let k = choose|k: int| 0 <= k < d.len() && same_kind_rows(#[trigger] d[k], f0);
                        assert(same_kind_rows(d[k], f));
                    }
                } else {
                    if exists|k: int| 0 <= k < fs.len() && same_kind_rows(#[trigger] fs[k], f0) {
                        let k = choose|k: int| 0 <= k < fs.len() && same_kind_rows(#[trigger] fs[k], f0);
                        assert(k < d.len());
                        assert(same_kind_rows(d[k], f0));
                    }
                }
            }
            assert forall|j: int| 0 <= j < gs.len() implies (#[trigger] gs[j]).count == sum_of(
                fs,
                rows_of_kind(gs[j]),
            ) by {
                assert(d == fs.drop_last());
                if j < g.len() {
                    assert(gs[j] == g[j]);
                    assert(!same_kind(g[j], f));
                } else {
                    assert(gs[j] == x);
                    assert forall|k: int| 0 <= k < d.len() implies (rows_of_kind(x))(#[trigger] d[k]) == 0 by {
                        assert(!same_kind_rows(d[k], f));
                    }
                    lemma_sum_zero(d, rows_of_kind(x));
                }
            }
            assert forall|j: int| 0 <= j < gs.len() implies first_example(fs, #[trigger] gs[j]) by {
                if j < g.len() {
                    let gj = g[j];
                    assert(gs[j] == gj);
                    assert(first_example(d, gj));
                    let k = choose|k: int|
                        0 <= k < d.len() && #[trigger] same_kind(gj, d[k]) && gj.example == d[k].error
                            && forall|jj: int| 0 <= jj < k ==> !same_kind(gj, #[trigger] d[jj]);
                    assert(same_kind(gs[j], fs[k]));
                    assert forall|jj: int| 0 <= jj < k implies !same_kind(gs[j], #[trigger] fs[jj]) by {
                        assert(fs[jj] == d[jj]);
                        assert(!same_kind(gj, d[jj]));
                    }
                } else {
                    assert(gs[j] == x);
                    let k = fs.len() - 1;
                    assert(same_kind(x, fs[k]));
                    assert forall|jj: int| 0 <= jj < k implies !same_kind(x, #[trigger] fs[jj]) by {
                        assert(fs[jj] == d[jj]);
                        assert(!same_kind_rows(d[jj], f));
                    }
                }
            }
        }
    }
}

/// Every failure is counted exactly once, in the one group of its kind (tool,
/// pattern, source); each group counts the failures of its kind and shows the
/// first of them as its example; all counts together are the number of
/// failures; and the groups come most frequent first.
pub proof fn failures_are_counted_once(fs: Seq<KeyedFailure>)
    ensures
        sum_of(sorted_stable::<FailureStat>(failure_groups(fs)), count_of()) == fs.len(),
        forall|k: int|
            0 <= k < fs.len() ==> sum_of(
                sorted_stable::<FailureStat>(failure_groups(fs)),
                groups_of_kind(#[trigger] fs[k]),
            ) == 1,
        forall|i: int|
            0 <= i < sorted_stable::<FailureStat>(failure_groups(fs)).len() ==> {
                &&& (#[trigger] sorted_stable::<FailureStat>(failure_groups(fs))[i]).count == sum_of(
                    fs,
                    rows_of_kind(sorted_stable::<FailureStat>(failure_groups(fs))[i]),
                )
                &&& first_example(fs, sorted_stable::<FailureStat>(failure_groups(fs))[i])
            },
        forall|i: int, j: int|
            0 <= i < j < sorted_stable::<FailureStat>(failure_groups(fs)).len() ==> !failure_before(
                #[trigger] sorted_stable::<FailureStat>(failure_groups(fs))[j],
                #[trigger] sorted_stable::<FailureStat>(failure_groups(fs))[i],
            ),
{
    let g = failure_groups(fs);
    let out = sorted_stable::<FailureStat>(g);
    lemma_groups_exact(fs);
    let p = |x: FailureStatView| x.count == sum_of(fs, rows_of_kind(x)) && first_example(fs, x);
    assert forall|i: int| 0 <= i < g.len() implies p(#[trigger] g[i]) by {}
    lemma_sorted_keeps::<FailureStat>(g, count_of(), p);
    assert forall|k: int| 0 <= k < fs.len() implies sum_of(out, groups_of_kind(#[trigger] fs[k])) == 1 by {
        lemma_sorted_keeps::<FailureStat>(g, groups_of_kind(fs[k]), p);
        assert(same_kind_rows(fs[k], fs[k]));
        assert(sum_of(g, groups_of_kind(fs[k])) == 1);
    }
    assert forall|i: int| 0 <= i < out.len() implies {
        &&& (#[trigger] out[i]).count == sum_of(fs, rows_of_kind(out[i]))
        &&& first_example(fs, out[i])
    } by {
        assert(p(out[i]));
    }
    lemma_sorted_is_sorted::<FailureStat>(g);
    assert forall|i: int, j: int| 0 <= i < j < out.len() implies !failure_before(
        #[trigger] out[j],
        #[trigger] out[i],
    ) by {
        assert(<FailureStat as TotalPreorder>::precedes(out[i], out[j]));
    }
}

} // verus!
