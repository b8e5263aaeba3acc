//! What collapsing keeps and what it never does, proved of its specification.
use vstd::prelude::*;

use crate::collapse::{
    collapse_spec, collapsed_view, deny_of, entries_of, entry_leaves, groups_spec, group_spec,
    lemma_max_tokens, lemma_partition_items, lemma_runs_items, lemma_without_len_empty, leaf_view,
    max_tokens, runs, stat_leaves, token_key, tool_key, tool_spec, tools_spec, untokenized,
    widenable_spec, with_len, without_len, bash_spec, CollapsedView, Entry, EntryView, MIN_DISTINCT,
    MIN_TOKENS, is_flag_spec, tokenize_spec,
};
use crate::query::StatView;
use crate::sort::sorted_stable;
use crate::text::join;
use crate::sums::{lemma_sorted_keeps, lemma_sum_concat, lemma_sum_single, sum_of};

verus! {

/// The items of the groups `gs`, in order.
pub open spec fn flatten<A>(gs: Seq<Seq<A>>) -> Seq<A>
    decreases gs.len(),
{
    if gs.len() == 0 {
        seq![]
    } else {
        flatten(gs.drop_last()) + gs.last()
    }
}

/// Runs put back together give the sequence they were split from.
pub proof fn lemma_runs_flatten<A>(s: Seq<A>, key: spec_fn(A) -> Seq<char>)
    ensures
        flatten(runs(s, key)) == s,
    decreases s.len(),
{
    if s.len() > 0 {
        lemma_runs_flatten(s.drop_last(), key);
        let r = runs(s.drop_last(), key);
        if r.len() > 0 && key(r.last()[0]) == key(s.last()) {
            let r2 = r.update(r.len() - 1, r.last().push(s.last()));
            assert(r2.drop_last() == r.drop_last());
            assert(flatten(r2) =~= flatten(r).push(s.last()));
        } else {
            assert(r.push(seq![s.last()]).drop_last() == r);
        }
        assert(s.drop_last().push(s.last()) == s);
    }
}

pub proof fn lemma_flatten_sum<A>(gs: Seq<Seq<A>>, f: spec_fn(A) -> int, h: spec_fn(Seq<A>) -> int)
    requires
        forall|i: int| 0 <= i < gs.len() ==> h(#[trigger] gs[i]) == sum_of(gs[i], f),
    ensures
        sum_of(flatten(gs), f) == sum_of(gs, h),
    decreases gs.len(),
{
    if gs.len() > 0 {
        lemma_flatten_sum(gs.drop_last(), f, h);
        lemma_sum_concat(flatten(gs.drop_last()), gs.last(), f);
        assert(h(gs[gs.len() - 1]) == sum_of(gs.last(), f));
    }
}

/// Lifts a function of stats to entries.
pub open spec fn lift(f: spec_fn(StatView) -> int) -> spec_fn(EntryView) -> int {
    |e: EntryView| f(e.stat)
}

/// `g` reads off an output no more than the total of `f` over what went into
/// it: a leaf at most its stat's `f`, a widened rule at most the sum over its
/// entries.
pub open spec fn tallies(f: spec_fn(StatView) -> int, g: spec_fn(CollapsedView) -> int) -> bool {
    &&& forall|s: StatView| #[trigger] g(leaf_view(s)) <= f(s)
    &&& forall|es: Seq<EntryView>, d: int|
        es.len() > 0 ==> #[trigger] g(collapsed_view(es, d)) <= sum_of(es, lift(f))
}

proof fn lemma_entry_leaves_sum(
    es: Seq<EntryView>,
    f: spec_fn(StatView) -> int,
    g: spec_fn(CollapsedView) -> int,
)
    requires
        tallies(f, g),
    ensures
        sum_of(entry_leaves(es), g) <= sum_of(es, lift(f)),
    decreases es.len(),
{
    if es.len() > 0 {
        lemma_entry_leaves_sum(es.drop_last(), f, g);
        assert(entry_leaves(es).drop_last() =~= entry_leaves(es.drop_last()));
        assert(g(leaf_view(es.last().stat)) <= f(es.last().stat));
    }
}

proof fn lemma_stat_leaves_sum(s: Seq<StatView>, f: spec_fn(StatView) -> int, g: spec_fn(CollapsedView) -> int)
    requires
        tallies(f, g),
    ensures
        sum_of(stat_leaves(s), g) <= sum_of(s, f),
    decreases s.len(),
{
    if s.len() > 0 {
        lemma_stat_leaves_sum(s.drop_last(), f, g);
        assert(stat_leaves(s).drop_last() =~= stat_leaves(s.drop_last()));
        assert(g(leaf_view(s.last())) <= f(s.last()));
    }
}

pub proof fn lemma_partition_sum(es: Seq<EntryView>, depth: int, f: spec_fn(EntryView) -> int)
    ensures
        sum_of(with_len(es, depth), f) + sum_of(without_len(es, depth), f) == sum_of(es, f),
    decreases es.len(),
{
    if es.len() > 0 {
        lemma_partition_sum(es.drop_last(), depth, f);
        if es.last().tokens.len() == depth {
            assert(with_len(es, depth).drop_last() == with_len(es.drop_last(), depth));
        } else {
            assert(without_len(es, depth).drop_last() == without_len(es.drop_last(), depth));
        }
    }
}

pub open spec fn within(es: Seq<EntryView>, depth: int, bound: int) -> bool {
    forall|k: int| 0 <= k < es.len() ==> depth <= (#[trigger] es[k]).tokens.len() <= bound
}

proof fn lemma_group_sum(
    es: Seq<EntryView>,
    depth: int,
    bound: int,
    f: spec_fn(StatView) -> int,
    g: spec_fn(CollapsedView) -> int,
)
    requires
        tallies(f, g),
        within(es, depth, bound),
    ensures
        sum_of(group_spec(es, depth, bound), g) <= sum_of(es, lift(f)),
    decreases bound - depth, 1int, 0int,
{
    if es.len() == 1 {
        let out = group_spec(es, depth, bound);
        assert(out.drop_last() =~= Seq::<CollapsedView>::empty());
        assert(es.drop_last() =~= Seq::<EntryView>::empty());
        assert(g(leaf_view(es[0].stat)) <= f(es[0].stat));
        assert(out.last() == leaf_view(es[0].stat));
        lemma_sum_single(out, g);
        lemma_sum_single(es, lift(f));
    } else if widenable_spec(es, depth) && es.len() >= MIN_DISTINCT && sum_of(es, deny_of()) == 0 {
        let out = group_spec(es, depth, bound);
        assert(out.drop_last() =~= Seq::<CollapsedView>::empty());
        assert(g(collapsed_view(es, depth)) <= sum_of(es, lift(f)));
        assert(out.last() == collapsed_view(es, depth));
        lemma_sum_single(out, g);
    } else {
        let w = with_len(es, depth);
        let v = without_len(es, depth);
        lemma_entry_leaves_sum(w, f, g);
        lemma_partition_sum(es, depth, lift(f));
        if depth < bound {
            let gs = runs(v, token_key(depth));
            let p = |e: EntryView| depth + 1 <= e.tokens.len() <= bound;
            lemma_partition_items(es, depth, |e: EntryView| depth <= e.tokens.len() <= bound);
            assert forall|k: int| 0 <= k < v.len() implies p(#[trigger] v[k]) by {}
            lemma_runs_items(v, token_key(depth), p);
            lemma_runs_flatten(v, token_key(depth));
            lemma_groups_sum(gs, depth + 1, bound, f, g);
            lemma_sum_concat(entry_leaves(w), groups_spec(gs, depth + 1, bound), g);
        } else {
            lemma_without_len_empty(es, depth);
            assert(v =~= Seq::<EntryView>::empty());
        }
    }
}

proof fn lemma_groups_sum(
    gs: Seq<Seq<EntryView>>,
    depth: int,
    bound: int,
    f: spec_fn(StatView) -> int,
    g: spec_fn(CollapsedView) -> int,
)
    requires
        tallies(f, g),
        forall|i: int| 0 <= i < gs.len() ==> (#[trigger] gs[i]).len() > 0,
        forall|i: int, j: int|
            0 <= i < gs.len() && 0 <= j < gs[i].len() ==> depth <= (#[trigger] gs[i][j]).tokens.len()
                <= bound,
    ensures
        sum_of(groups_spec(gs, depth, bound), g) <= sum_of(flatten(gs), lift(f)),
    decreases bound - depth, 2int, gs.len(),
{
    if gs.len() > 0 {
        assert(gs[0].len() > 0);
        assert(depth <= gs[0][0].tokens.len() <= bound);
        let d = gs.drop_last();
        assert forall|i: int| 0 <= i < d.len() implies (#[trigger] d[i]).len() > 0 by {
            assert(d[i] == gs[i]);
        }
        assert forall|i: int, j: int| 0 <= i < d.len() && 0 <= j < d[i].len() implies depth <= (
        #[trigger] d[i][j]).tokens.len() <= bound by {
            assert(d[i] == gs[i]);
        }
        lemma_groups_sum(d, depth, bound, f, g);
        let last = gs.last();
        assert(within(last, depth, bound)) by {
            assert forall|k: int| 0 <= k < last.len() implies depth <= (#[trigger] last[k]).tokens.len()
                <= bound by {
                assert(last[k] == gs[gs.len() - 1][k]);
            }
        }
        lemma_group_sum(last, depth, bound, f, g);
        lemma_sum_concat(groups_spec(d, depth, bound), group_spec(last, depth, bound), g);
        lemma_sum_concat(flatten(d), last, lift(f));
    }
}

} // verus!
verus! {

proof fn lemma_split_tokenizable_sum(run: Seq<StatView>, f: spec_fn(StatView) -> int)
    ensures
        sum_of(untokenized(run), f) + sum_of(entries_of(run), lift(f)) == sum_of(run, f),
    decreases run.len(),
{
    if run.len() > 0 {
        lemma_split_tokenizable_sum(run.drop_last(), f);
        let u = untokenized(run);
        let e = entries_of(run);
        if u.len() > untokenized(run.drop_last()).len() {
        }
        if crate::collapse::tokenizable(run.last().pattern) {
            assert(e.drop_last() == entries_of(run.drop_last()));
            assert(u == untokenized(run.drop_last()));
        } else {
            assert(u.drop_last() == untokenized(run.drop_last()));
            assert(e == entries_of(run.drop_last()));
        }
    }
}

proof fn lemma_bash_sum(run: Seq<StatView>, f: spec_fn(StatView) -> int, g: spec_fn(CollapsedView) -> int)
    requires
        tallies(f, g),
    ensures
        sum_of(bash_spec(run), g) <= sum_of(run, f),
{
    let ev = entries_of(run);
    let sorted = sorted_stable::<Entry>(ev);
    let bound = max_tokens(sorted);
    crate::collapse::lemma_entries_have_tokens(run);
    lemma_sorted_keeps::<Entry>(ev, lift(f), |e: EntryView| e.tokens.len() > 0);
    lemma_max_tokens(sorted);
    let p = |e: EntryView| 1 <= e.tokens.len() <= bound;
    assert forall|k: int| 0 <= k < sorted.len() implies p(#[trigger] sorted[k]) by {}
    let gs = runs(sorted, token_key(0));
    lemma_runs_items(sorted, token_key(0), p);
    lemma_runs_flatten(sorted, token_key(0));
    lemma_groups_sum(gs, 1, bound, f, g);
    lemma_stat_leaves_sum(untokenized(run), f, g);
    lemma_split_tokenizable_sum(run, f);
    lemma_sum_concat(stat_leaves(untokenized(run)), groups_spec(gs, 1, bound), g);
}

proof fn lemma_tools_sum(
    rs: Seq<Seq<StatView>>,
    f: spec_fn(StatView) -> int,
    g: spec_fn(CollapsedView) -> int,
)
    requires
        tallies(f, g),
    ensures
        sum_of(tools_spec(rs), g) <= sum_of(flatten(rs), f),
    decreases rs.len(),
{
    if rs.len() > 0 {
        lemma_tools_sum(rs.drop_last(), f, g);
        let last = rs.last();
        if last.len() > 0 && last[0].tool == "bash"@ {
            lemma_bash_sum(last, f, g);
        } else {
            lemma_stat_leaves_sum(last, f, g);
        }
        lemma_sum_concat(tools_spec(rs.drop_last()), tool_spec(last), g);
        lemma_sum_concat(flatten(rs.drop_last()), last, f);
    }
}

pub proof fn lemma_collapse_sum(stats: Seq<StatView>, f: spec_fn(StatView) -> int, g: spec_fn(CollapsedView) -> int)
    requires
        tallies(f, g),
    ensures
        sum_of(collapse_spec(stats), g) <= sum_of(stats, f),
{
    let sorted = sorted_stable::<crate::query::PermissionStat>(stats);
    lemma_sorted_keeps::<crate::query::PermissionStat>(stats, f, |s: StatView| true);
    lemma_runs_flatten(sorted, tool_key());
    lemma_tools_sum(runs(sorted, tool_key()), f, g);
}

pub open spec fn stat_once() -> spec_fn(StatView) -> int {
    |s: StatView| s.allow_once as int
}

pub open spec fn stat_always() -> spec_fn(StatView) -> int {
    |s: StatView| s.allow_always as int
}

pub open spec fn stat_deny() -> spec_fn(StatView) -> int {
    |s: StatView| s.deny as int
}

pub open spec fn stat_one() -> spec_fn(StatView) -> int {
    |s: StatView| 1int
}

pub open spec fn rule_once() -> spec_fn(CollapsedView) -> int {
    |c: CollapsedView| c.allow_once
}

pub open spec fn rule_always() -> spec_fn(CollapsedView) -> int {
    |c: CollapsedView| c.allow_always
}

pub open spec fn rule_deny() -> spec_fn(CollapsedView) -> int {
    |c: CollapsedView| c.deny
}

pub open spec fn rule_members() -> spec_fn(CollapsedView) -> int {
    |c: CollapsedView| c.members.len() as int
}

pub proof fn lemma_sum_one(es: Seq<EntryView>)
    ensures
        sum_of(es, lift(stat_one())) == es.len(),
    decreases es.len(),
{
    if es.len() > 0 {
        lemma_sum_one(es.drop_last());
    }
}

pub open spec fn negated<A>(f: spec_fn(A) -> int) -> spec_fn(A) -> int {
    |x: A| -f(x)
}

pub proof fn lemma_sum_negated<A>(s: Seq<A>, f: spec_fn(A) -> int)
    ensures
        sum_of(s, negated(f)) == -sum_of(s, f),
    decreases s.len(),
{
    if s.len() > 0 {
        lemma_sum_negated(s.drop_last(), f);
    }
}

proof fn lemma_collapse_sum_exact(
    stats: Seq<StatView>,
    f: spec_fn(StatView) -> int,
    g: spec_fn(CollapsedView) -> int,
)
    requires
        forall|s: StatView| #[trigger] g(leaf_view(s)) == f(s),
        forall|es: Seq<EntryView>, d: int|
            es.len() > 0 ==> #[trigger] g(collapsed_view(es, d)) == sum_of(es, lift(f)),
    ensures
        sum_of(collapse_spec(stats), g) == sum_of(stats, f),
{
    lemma_collapse_sum(stats, f, g);
    assert forall|es: Seq<EntryView>, d: int| es.len() > 0 implies #[trigger] (negated(g))(
        collapsed_view(es, d),
    ) <= sum_of(es, lift(negated(f))) by {
        assert(lift(negated(f)) =~= negated(lift(f)));
        lemma_sum_negated(es, lift(f));
    }
    lemma_collapse_sum(stats, negated(f), negated(g));
    lemma_sum_negated(stats, f);
    lemma_sum_negated(collapse_spec(stats), g);
}

/// Collapsing loses and duplicates nothing: the rules it returns account
/// for exactly the prompts that went in, answer by answer, and carry exactly
/// as many observed patterns as evidence as there were observed patterns.
pub proof fn collapse_keeps_every_count(stats: Seq<StatView>)
    ensures
        sum_of(collapse_spec(stats), rule_once()) == sum_of(stats, stat_once()),
        sum_of(collapse_spec(stats), rule_always()) == sum_of(stats, stat_always()),
        sum_of(collapse_spec(stats), rule_deny()) == sum_of(stats, stat_deny()),
        sum_of(collapse_spec(stats), rule_members()) == stats.len(),
{
    assert(lift(stat_once()) =~= crate::collapse::once_of());
    assert(lift(stat_always()) =~= crate::collapse::always_of());
    assert(lift(stat_deny()) =~= deny_of());
    lemma_collapse_sum_exact(stats, stat_once(), rule_once());
    lemma_collapse_sum_exact(stats, stat_always(), rule_always());
    lemma_collapse_sum_exact(stats, stat_deny(), rule_deny());
    assert forall|es: Seq<EntryView>, d: int| es.len() > 0 implies #[trigger] (rule_members())(
        collapsed_view(es, d),
    ) == sum_of(es, lift(stat_one())) by {
        lemma_sum_one(es);
    }
    lemma_collapse_sum_exact(stats, stat_one(), rule_members());
    assert(sum_of(stats, stat_one()) == stats.len()) by {
        lemma_count_stats(stats);
    }
}

proof fn lemma_count_stats(s: Seq<StatView>)
    ensures
        sum_of(s, stat_one()) == s.len(),
    decreases s.len(),
{
    if s.len() > 0 {
        lemma_count_stats(s.drop_last());
    }
}

} // verus!
verus! {

/// What a widened rule always is: a `bash` rule never denied, backed by at
/// least [`MIN_DISTINCT`] observed patterns, whose pattern is a prefix `P` of
/// tokens and `*`, where every observed pattern it rests on tokenizes to
/// tokens that begin with `P`, and `P` has at least [`MIN_TOKENS`] tokens
/// unless every observed pattern adds nothing to `P` but flags.
pub open spec fn widened_rule_ok(c: CollapsedView) -> bool {
    &&& c.tool == "bash"@
    &&& c.deny == 0
    &&& c.members.len() >= MIN_DISTINCT
    &&& exists|p: Seq<Seq<char>>|
        {
            &&& p.len() >= 1
            &&& c.pattern == join(p, " "@) + " *"@
            &&& forall|m: int|
                0 <= m < c.members.len() ==> #[trigger] rests_on(p, c.members[m])
        }
}

/// `pattern` tokenizes to tokens that begin with `p`, and past the first
/// token or only by flags.
pub open spec fn rests_on(p: Seq<Seq<char>>, pattern: Seq<char>) -> bool {
    tokenize_spec(pattern) matches Some(t) && t.len() >= p.len() && t.take(p.len() as int) == p && (
    p.len() >= MIN_TOKENS || forall|k: int| p.len() <= k < t.len() ==> is_flag_spec(#[trigger] t[k]))
}

/// Any rule with more than one observed pattern behind it was widened, and
/// is as [`widened_rule_ok`] describes.
pub open spec fn rule_ok(c: CollapsedView) -> bool {
    c.members.len() > 1 ==> widened_rule_ok(c)
}

/// Entries that come from bash patterns as tokenized, and share their first
/// `depth` tokens.
pub open spec fn shared_prefix(es: Seq<EntryView>, depth: int) -> bool {
    forall|k: int|
        0 <= k < es.len() ==> {
            &&& (#[trigger] es[k]).stat.tool == "bash"@
            &&& tokenize_spec(es[k].stat.pattern) == Some(es[k].tokens)
            &&& es[k].tokens.len() >= depth
            &&& es[k].tokens.take(depth) == es[0].tokens.take(depth)
        }
}

pub proof fn lemma_runs_same_key<A>(s: Seq<A>, key: spec_fn(A) -> Seq<char>)
    ensures
        forall|i: int, j: int|
            0 <= i < runs(s, key).len() && 0 <= j < runs(s, key)[i].len() ==> key(
                #[trigger] runs(s, key)[i][j],
            ) == key(runs(s, key)[i][0]),
    decreases s.len(),
{
    if s.len() > 0 {
        lemma_runs_same_key(s.drop_last(), key);
        let r = runs(s.drop_last(), key);
        let r2 = runs(s, key);
        if r.len() > 0 && key(r.last()[0]) == key(s.last()) {
            assert forall|i: int, j: int| 0 <= i < r2.len() && 0 <= j < r2[i].len() implies key(
                #[trigger] r2[i][j],
            ) == key(r2[i][0]) by {
                if i < r.len() - 1 {
                    assert(r2[i] == r[i]);
                } else {
                    assert(r.last().len() > 0) by {
                        lemma_runs_items(s.drop_last(), key, |a: A| true);
                    }
                    if j < r.last().len() {
                        assert(r2[i][j] == r.last()[j]);
                    }
                    assert(r2[i][0] == r.last()[0]);
                }
            }
        } else {
            assert forall|i: int, j: int| 0 <= i < r2.len() && 0 <= j < r2[i].len() implies key(
                #[trigger] r2[i][j],
            ) == key(r2[i][0]) by {
                if i < r.len() {
                    assert(r2[i] == r[i]);
                }
            }
        }
    }
}

proof fn lemma_all_ok_concat(a: Seq<CollapsedView>, b: Seq<CollapsedView>)
    requires
        forall|i: int| 0 <= i < a.len() ==> rule_ok(#[trigger] a[i]),
        forall|i: int| 0 <= i < b.len() ==> rule_ok(#[trigger] b[i]),
    ensures
        forall|i: int| 0 <= i < (a + b).len() ==> rule_ok(#[trigger] (a + b)[i]),
{
    assert forall|i: int| 0 <= i < (a + b).len() implies rule_ok(#[trigger] (a + b)[i]) by {
        if i < a.len() {
            assert((a + b)[i] == a[i]);
        } else {
            assert((a + b)[i] == b[i - a.len()]);
        }
    }
}

proof fn lemma_group_ok(es: Seq<EntryView>, depth: int, bound: int)
    requires
        within(es, depth, bound),
        shared_prefix(es, depth),
        depth >= 1,
    ensures
        forall|i: int|
            0 <= i < group_spec(es, depth, bound).len() ==> rule_ok(
                #[trigger] group_spec(es, depth, bound)[i],
            ),
    decreases bound - depth, 1int, 0int,
{
    let out = group_spec(es, depth, bound);
    if es.len() == 1 {
        assert(out[0].members.len() == 1);
    } else if widenable_spec(es, depth) && es.len() >= MIN_DISTINCT && sum_of(es, deny_of()) == 0 {
        let c = collapsed_view(es, depth);
        let p = es[0].tokens.take(depth);
        assert(c.members.len() == es.len());
        assert forall|m: int| 0 <= m < c.members.len() implies #[trigger] rests_on(p, c.members[m]) by {
            assert(c.members[m] == es[m].stat.pattern);
            let t = es[m].tokens;
            assert(t.take(depth) == p);
            if depth < MIN_TOKENS {
                assert forall|k: int| p.len() <= k < t.len() implies is_flag_spec(#[trigger] t[k]) by {
                    assert(es[m].tokens[k] == t[k]);
                }
            }
        }
        assert(c.tool == es[0].stat.tool);
        assert(out[0] == c);
    } else {
        let w = with_len(es, depth);
        let v = without_len(es, depth);
        assert forall|i: int| 0 <= i < entry_leaves(w).len() implies rule_ok(
            #[trigger] entry_leaves(w)[i],
        ) by {
            assert(entry_leaves(w)[i].members.len() == 1);
        }
        if depth < bound {
            let gs = runs(v, token_key(depth));
            let fam = |e: EntryView|
                {
                    &&& depth + 1 <= e.tokens.len() <= bound
                    &&& e.stat.tool == "bash"@
                    &&& tokenize_spec(e.stat.pattern) == Some(e.tokens)
                    &&& e.tokens.take(depth) == es[0].tokens.take(depth)
                };
            let fam0 = |e: EntryView|
                {
                    &&& depth <= e.tokens.len() <= bound
                    &&& e.stat.tool == "bash"@
                    &&& tokenize_spec(e.stat.pattern) == Some(e.tokens)
                    &&& e.tokens.take(depth) == es[0].tokens.take(depth)
                };
            assert forall|k: int| 0 <= k < es.len() implies fam0(#[trigger] es[k]) by {}
            lemma_partition_items(es, depth, fam0);
            assert forall|k: int| 0 <= k < v.len() implies fam(#[trigger] v[k]) by {}
            lemma_runs_items(v, token_key(depth), fam);
            lemma_runs_same_key(v, token_key(depth));
            lemma_groups_ok(gs, depth + 1, bound);
            lemma_all_ok_concat(entry_leaves(w), groups_spec(gs, depth + 1, bound));
        }
    }
}

proof fn lemma_groups_ok(gs: Seq<Seq<EntryView>>, depth: int, bound: int)
    requires
        depth >= 1,
        forall|i: int| 0 <= i < gs.len() ==> (#[trigger] gs[i]).len() > 0,
        forall|i: int, j: int|
            0 <= i < gs.len() && 0 <= j < gs[i].len() ==> {
                &&& depth <= (#[trigger] gs[i][j]).tokens.len() <= bound
                &&& gs[i][j].stat.tool == "bash"@
                &&& tokenize_spec(gs[i][j].stat.pattern) == Some(gs[i][j].tokens)
                &&& gs[i][j].tokens.take(depth - 1) == gs[i][0].tokens.take(depth - 1)
                &&& gs[i][j].tokens[depth - 1] == gs[i][0].tokens[depth - 1]
            },
    ensures
        forall|i: int|
            0 <= i < groups_spec(gs, depth, bound).len() ==> rule_ok(
                #[trigger] groups_spec(gs, depth, bound)[i],
            ),
    decreases bound - depth, 2int, gs.len(),
{
    if gs.len() > 0 && depth <= bound {
        let d = gs.drop_last();
        assert forall|i: int| 0 <= i < d.len() implies (#[trigger] d[i]).len() > 0 by {
            assert(d[i] == gs[i]);
        }
        assert forall|i: int, j: int| 0 <= i < d.len() && 0 <= j < d[i].len() implies {
            &&& depth <= (#[trigger] d[i][j]).tokens.len() <= bound
            &&& d[i][j].stat.tool == "bash"@
            &&& tokenize_spec(d[i][j].stat.pattern) == Some(d[i][j].tokens)
            &&& d[i][j].tokens.take(depth - 1) == d[i][0].tokens.take(depth - 1)
            &&& d[i][j].tokens[depth - 1] == d[i][0].tokens[depth - 1]
        } by {
            assert(d[i] == gs[i]);
        }
        lemma_groups_ok(d, depth, bound);
        let last = gs.last();
        assert(within(last, depth, bound) && shared_prefix(last, depth)) by {
            assert forall|k: int| 0 <= k < last.len() implies depth <= (#[trigger] last[k]).tokens.len()
                <= bound by {
                assert(last[k] == gs[gs.len() - 1][k]);
            }
            assert forall|k: int| 0 <= k < last.len() implies {
                &&& (#[trigger] last[k]).stat.tool == "bash"@
                &&& tokenize_spec(last[k].stat.pattern) == Some(last[k].tokens)
                &&& last[k].tokens.len() >= depth
                &&& last[k].tokens.take(depth) == last[0].tokens.take(depth)
            } by {
                assert(last[k] == gs[gs.len() - 1][k]);
                let a = last[k].tokens;
                let b = last[0].tokens;
                assert(a.take(depth) =~= a.take(depth - 1).push(a[depth - 1]));
                assert(b.take(depth) =~= b.take(depth - 1).push(b[depth - 1]));
            }
        }
        lemma_group_ok(last, depth, bound);
        lemma_all_ok_concat(groups_spec(d, depth, bound), group_spec(last, depth, bound));
    }
}

} // verus!
verus! {

pub proof fn lemma_entries_of_family(run: Seq<StatView>, tool: Seq<char>)
    requires
        forall|k: int| 0 <= k < run.len() ==> (#[trigger] run[k]).tool == tool,
    ensures
        forall|k: int|
            0 <= k < entries_of(run).len() ==> {
                &&& (#[trigger] entries_of(run)[k]).stat.tool == tool
                &&& tokenize_spec(entries_of(run)[k].stat.pattern) == Some(entries_of(run)[k].tokens)
                &&& entries_of(run)[k].tokens.len() >= 1
            },
    decreases run.len(),
{
    if run.len() > 0 {
        let d = run.drop_last();
        assert forall|k: int| 0 <= k < d.len() implies (#[trigger] d[k]).tool == tool by {
            assert(d[k] == run[k]);
        }
        lemma_entries_of_family(d, tool);
        let e = entries_of(run);
        let e0 = entries_of(d);
        assert(run[run.len() - 1].tool == tool);
        if crate::collapse::tokenizable(run.last().pattern) {
            assert forall|k: int| 0 <= k < e.len() implies {
                &&& (#[trigger] e[k]).stat.tool == tool
                &&& tokenize_spec(e[k].stat.pattern) == Some(e[k].tokens)
                &&& e[k].tokens.len() >= 1
            } by {
                if k < e0.len() {
                    assert(e[k] == e0[k]);
                }
            }
        }
    }
}

proof fn lemma_bash_ok(run: Seq<StatView>)
    requires
        run.len() > 0,
        forall|k: int| 0 <= k < run.len() ==> (#[trigger] run[k]).tool == "bash"@,
    ensures
        forall|i: int| 0 <= i < bash_spec(run).len() ==> rule_ok(#[trigger] bash_spec(run)[i]),
{
    let ev = entries_of(run);
    let sorted = sorted_stable::<Entry>(ev);
    let bound = max_tokens(sorted);
    lemma_entries_of_family(run, "bash"@);
    let fam = |e: EntryView|
        {
            &&& e.stat.tool == "bash"@
            &&& tokenize_spec(e.stat.pattern) == Some(e.tokens)
            &&& e.tokens.len() >= 1
        };
    assert forall|k: int| 0 <= k < ev.len() implies fam(#[trigger] ev[k]) by {}
    lemma_sorted_keeps::<Entry>(ev, |e: EntryView| 0int, fam);
    lemma_max_tokens(sorted);
    let p = |e: EntryView|
        {
            &&& 1 <= e.tokens.len() <= bound
            &&& e.stat.tool == "bash"@
            &&& tokenize_spec(e.stat.pattern) == Some(e.tokens)
        };
    assert forall|k: int| 0 <= k < sorted.len() implies p(#[trigger] sorted[k]) by {
        assert(fam(sorted[k]));
    }
    let gs = runs(sorted, token_key(0));
    lemma_runs_items(sorted, token_key(0), p);
    lemma_runs_same_key(sorted, token_key(0));
    assert forall|i: int, j: int| 0 <= i < gs.len() && 0 <= j < gs[i].len() implies (#[trigger] gs[i][j]).tokens.take(0)
        == gs[i][0].tokens.take(0) by {
        assert(gs[i][j].tokens.take(0) =~= gs[i][0].tokens.take(0));
    }
    lemma_groups_ok(gs, 1, bound);
    let l = stat_leaves(untokenized(run));
    assert forall|i: int| 0 <= i < l.len() implies rule_ok(#[trigger] l[i]) by {
        assert(l[i].members.len() == 1);
    }
    lemma_all_ok_concat(l, groups_spec(gs, 1, bound));
}

proof fn lemma_tools_ok(rs: Seq<Seq<StatView>>)
    requires
        forall|i: int, j: int|
            0 <= i < rs.len() && 0 <= j < rs[i].len() ==> (#[trigger] rs[i][j]).tool == rs[i][0].tool,
    ensures
        forall|i: int| 0 <= i < tools_spec(rs).len() ==> rule_ok(#[trigger] tools_spec(rs)[i]),
    decreases rs.len(),
{
    if rs.len() > 0 {
        let d = rs.drop_last();
        assert forall|i: int, j: int| 0 <= i < d.len() && 0 <= j < d[i].len() implies (
        #[trigger] d[i][j]).tool == d[i][0].tool by {
            assert(d[i] == rs[i]);
        }
        lemma_tools_ok(d);
        let last = rs.last();
        if last.len() > 0 && last[0].tool == "bash"@ {
            assert forall|k: int| 0 <= k < last.len() implies (#[trigger] last[k]).tool == "bash"@ by {
                assert(last[k] == rs[rs.len() - 1][k]);
            }
            lemma_bash_ok(last);
        } else {
            let l = stat_leaves(last);
            assert forall|i: int| 0 <= i < l.len() implies rule_ok(#[trigger] l[i]) by {
                assert(l[i].members.len() == 1);
            }
        }
        lemma_all_ok_concat(tools_spec(d), tool_spec(last));
    }
}

/// Every rule that rests on more than one observed pattern is a widening
/// the evidence allows: a `bash` rule, never denied, backed by at least
/// [`MIN_DISTINCT`] patterns, each of which begins with the rule's prefix,
/// and that prefix is more than a bare command unless the patterns add only
/// flags to it.
pub proof fn collapse_widens_only_when_allowed(stats: Seq<StatView>)
    ensures
        forall|i: int| 0 <= i < collapse_spec(stats).len() ==> rule_ok(#[trigger] collapse_spec(stats)[i]),
{
    let sorted = sorted_stable::<crate::query::PermissionStat>(stats);
    lemma_runs_same_key(sorted, tool_key());
    lemma_tools_ok(runs(sorted, tool_key()));
}

} // verus!
verus! {

/// `s` is one of `stats`.
pub open spec fn observed(stats: Seq<StatView>, s: StatView) -> bool {
    exists|k: int| 0 <= k < stats.len() && #[trigger] stats[k] == s
}

/// A rule that rests on one observed pattern is that pattern's stat, as
/// observed.
pub open spec fn as_observed(stats: Seq<StatView>, c: CollapsedView) -> bool {
    c.members.len() > 1 || exists|k: int| 0 <= k < stats.len() && c == leaf_view(#[trigger] stats[k])
}

proof fn lemma_leaves_observed(stats: Seq<StatView>, s: Seq<StatView>)
    requires
        forall|k: int| 0 <= k < s.len() ==> observed(stats, #[trigger] s[k]),
    ensures
        forall|i: int| 0 <= i < stat_leaves(s).len() ==> as_observed(stats, #[trigger] stat_leaves(s)[i]),
{
    assert forall|i: int| 0 <= i < stat_leaves(s).len() implies as_observed(
        stats,
        #[trigger] stat_leaves(s)[i],
    ) by {
        assert(observed(stats, s[i]));
        let k = choose|k: int| 0 <= k < stats.len() && #[trigger] stats[k] == s[i];
        assert(stat_leaves(s)[i] == leaf_view(stats[k]));
    }
}

proof fn lemma_observed_concat(stats: Seq<StatView>, a: Seq<CollapsedView>, b: Seq<CollapsedView>)
    requires
        forall|i: int| 0 <= i < a.len() ==> as_observed(stats, #[trigger] a[i]),
        forall|i: int| 0 <= i < b.len() ==> as_observed(stats, #[trigger] b[i]),
    ensures
        forall|i: int| 0 <= i < (a + b).len() ==> as_observed(stats, #[trigger] (a + b)[i]),
{
    assert forall|i: int| 0 <= i < (a + b).len() implies as_observed(stats, #[trigger] (a + b)[i]) by {
        if i < a.len() {
            assert((a + b)[i] == a[i]);
        } else {
            assert((a + b)[i] == b[i - a.len()]);
        }
    }
}

proof fn lemma_group_observed(stats: Seq<StatView>, es: Seq<EntryView>, depth: int, bound: int)
    requires
        forall|k: int| 0 <= k < es.len() ==> observed(stats, (#[trigger] es[k]).stat),
    ensures
        forall|i: int|
            0 <= i < group_spec(es, depth, bound).len() ==> as_observed(
                stats,
                #[trigger] group_spec(es, depth, bound)[i],
            ),
    decreases bound - depth, 1int, 0int,
{
    let out = group_spec(es, depth, bound);
    if es.len() == 1 {
        assert(observed(stats, es[0].stat));
        let k = choose|k: int| 0 <= k < stats.len() && #[trigger] stats[k] == es[0].stat;
        assert(out[0] == leaf_view(stats[k]));
    } else if widenable_spec(es, depth) && es.len() >= MIN_DISTINCT && sum_of(es, deny_of()) == 0 {
        assert(out[0].members.len() == es.len());
    } else {
        let w = with_len(es, depth);
        let p = |e: EntryView| observed(stats, e.stat);
        assert forall|k: int| 0 <= k < es.len() implies p(#[trigger] es[k]) by {}
        lemma_partition_items(es, depth, p);
        assert forall|i: int| 0 <= i < entry_leaves(w).len() implies as_observed(
            stats,
            #[trigger] entry_leaves(w)[i],
        ) by {
            assert(p(w[i]));
            let k = choose|k: int| 0 <= k < stats.len() && #[trigger] stats[k] == w[i].stat;
            assert(entry_leaves(w)[i] == leaf_view(stats[k]));
        }
        if depth < bound {
            let v = without_len(es, depth);
            let gs = runs(v, token_key(depth));
            lemma_runs_items(v, token_key(depth), p);
            lemma_groups_observed(stats, gs, depth + 1, bound);
            lemma_observed_concat(stats, entry_leaves(w), groups_spec(gs, depth + 1, bound));
        }
    }
}

proof fn lemma_groups_observed(stats: Seq<StatView>, gs: Seq<Seq<EntryView>>, depth: int, bound: int)
    requires
        forall|i: int, j: int|
            0 <= i < gs.len() && 0 <= j < gs[i].len() ==> observed(stats, (#[trigger] gs[i][j]).stat),
    ensures
        forall|i: int|
            0 <= i < groups_spec(gs, depth, bound).len() ==> as_observed(
                stats,
                #[trigger] groups_spec(gs, depth, bound)[i],
            ),
    decreases bound - depth, 2int, gs.len(),
{
    if gs.len() > 0 && depth <= bound {
        let d = gs.drop_last();
        assert forall|i: int, j: int| 0 <= i < d.len() && 0 <= j < d[i].len() implies observed(
            stats,
            (#[trigger] d[i][j]).stat,
        ) by {
            assert(d[i] == gs[i]);
        }
        lemma_groups_observed(stats, d, depth, bound);
        let last = gs.last();
        assert forall|k: int| 0 <= k < last.len() implies observed(stats, (#[trigger] last[k]).stat) by {
            assert(last[k] == gs[gs.len() - 1][k]);
        }
        lemma_group_observed(stats, last, depth, bound);
        lemma_observed_concat(stats, groups_spec(d, depth, bound), group_spec(last, depth, bound));
    }
}

pub proof fn lemma_entries_observed(stats: Seq<StatView>, run: Seq<StatView>)
    requires
        forall|k: int| 0 <= k < run.len() ==> observed(stats, #[trigger] run[k]),
    ensures
        forall|k: int| 0 <= k < entries_of(run).len() ==> observed(stats, (#[trigger] entries_of(run)[k]).stat),
        forall|k: int| 0 <= k < untokenized(run).len() ==> observed(stats, #[trigger] untokenized(run)[k]),
    decreases run.len(),
{
    if run.len() > 0 {
        let d = run.drop_last();
        assert forall|k: int| 0 <= k < d.len() implies observed(stats, #[trigger] d[k]) by {
            assert(d[k] == run[k]);
        }
        lemma_entries_observed(stats, d);
        assert(observed(stats, run[run.len() - 1]));
        let e = entries_of(run);
        let u = untokenized(run);
        assert forall|k: int| 0 <= k < e.len() implies observed(stats, (#[trigger] e[k]).stat) by {
            if k < entries_of(d).len() {
                assert(e[k] == entries_of(d)[k]);
            }
        }
        assert forall|k: int| 0 <= k < u.len() implies observed(stats, #[trigger] u[k]) by {
            if k < untokenized(d).len() {
                assert(u[k] == untokenized(d)[k]);
            }
        }
    }
}

/// Whatever is not widened passes through exactly as observed: every rule
/// that rests on a single pattern is one of the input stats, unchanged. So
/// patterns of other tools, and patterns with shell syntax, are never
/// altered.
pub proof fn unwidened_rules_pass_through(stats: Seq<StatView>)
    ensures
        forall|i: int| 0 <= i < collapse_spec(stats).len() ==> as_observed(stats, #[trigger] collapse_spec(stats)[i]),
{
    let sorted = sorted_stable::<crate::query::PermissionStat>(stats);
    let p = |s: StatView| observed(stats, s);
    assert forall|k: int| 0 <= k < stats.len() implies p(#[trigger] stats[k]) by {}
    lemma_sorted_keeps::<crate::query::PermissionStat>(stats, |s: StatView| 0int, p);
    let rs = runs(sorted, tool_key());
    lemma_runs_items(sorted, tool_key(), p);
    lemma_tools_observed(stats, rs);
}

proof fn lemma_tools_observed(stats: Seq<StatView>, rs: Seq<Seq<StatView>>)
    requires
        forall|i: int, j: int| 0 <= i < rs.len() && 0 <= j < rs[i].len() ==> observed(stats, #[trigger] rs[i][j]),
    ensures
        forall|i: int| 0 <= i < tools_spec(rs).len() ==> as_observed(stats, #[trigger] tools_spec(rs)[i]),
    decreases rs.len(),
{
    if rs.len() > 0 {
        let d = rs.drop_last();
        assert forall|i: int, j: int| 0 <= i < d.len() && 0 <= j < d[i].len() implies observed(
            stats,
            #[trigger] d[i][j],
        ) by {
            assert(d[i] == rs[i]);
        }
        lemma_tools_observed(stats, d);
        let last = rs.last();
        assert forall|k: int| 0 <= k < last.len() implies observed(stats, #[trigger] last[k]) by {
            assert(last[k] == rs[rs.len() - 1][k]);
        }
        lemma_entries_observed(stats, last);
        lemma_leaves_observed(stats, last);
        if last.len() > 0 && last[0].tool == "bash"@ {
            let ev = entries_of(last);
            let sorted = sorted_stable::<Entry>(ev);
            let pe = |e: EntryView| observed(stats, e.stat);
            assert forall|k: int| 0 <= k < ev.len() implies pe(#[trigger] ev[k]) by {}
            lemma_sorted_keeps::<Entry>(ev, |e: EntryView| 0int, pe);
            let gs = runs(sorted, token_key(0));
            lemma_runs_items(sorted, token_key(0), pe);
            lemma_groups_observed(stats, gs, 1, max_tokens(sorted));
            lemma_leaves_observed(stats, untokenized(last));
            lemma_observed_concat(stats, stat_leaves(untokenized(last)), groups_spec(gs, 1, max_tokens(sorted)));
        }
        lemma_observed_concat(stats, tools_spec(d), tool_spec(last));
    }
}

} // verus!
verus! {

/// Shell syntax is never widened: no pattern a widened rule rests on holds
/// any of `>`, `<`, `&`, `|`, `;`, `$`, a backtick, `(` or `)`.
pub proof fn shell_syntax_is_never_widened(stats: Seq<StatView>)
    ensures
        forall|i: int, k: int, j: int|
            0 <= i < collapse_spec(stats).len() && collapse_spec(stats)[i].members.len() > 1 && 0 <= k
                < collapse_spec(stats)[i].members.len() && 0 <= j < collapse_spec(
                stats,
            )[i].members[k].len() ==> {
                let c = #[trigger] collapse_spec(stats)[i].members[k][j];
                c != '>' && c != '<' && c != '&' && c != '|' && c != ';' && c != '$' && c != '`' && c
                    != '(' && c != ')'
            },
{
    collapse_widens_only_when_allowed(stats);
    let out = collapse_spec(stats);
    assert forall|i: int, k: int, j: int|
        0 <= i < out.len() && out[i].members.len() > 1 && 0 <= k < out[i].members.len() && 0 <= j
            < out[i].members[k].len() implies {
        let c = #[trigger] out[i].members[k][j];
        c != '>' && c != '<' && c != '&' && c != '|' && c != ';' && c != '$' && c != '`' && c != '('
            && c != ')'
    } by {
        assert(rule_ok(out[i]));
        let p = choose|p: Seq<Seq<char>>|
            {
                &&& p.len() >= 1
                &&& out[i].pattern == join(p, " "@) + " *"@
                &&& forall|m: int| 0 <= m < out[i].members.len() ==> #[trigger] rests_on(p, out[i].members[m])
            };
        assert(rests_on(p, out[i].members[k]));
        assert(!crate::collapse::shell_syntax(out[i].members[k]));
        assert(!crate::collapse::shell_meta(out[i].members[k][j]));
    }
}

} // verus!
verus! {

/// A widened rule rests on at least three observed patterns.
pub proof fn widened_rules_rest_on_three(stats: Seq<StatView>)
    ensures
        forall|i: int|
            0 <= i < collapse_spec(stats).len() && (#[trigger] collapse_spec(stats)[i]).members.len()
                > 1 ==> collapse_spec(stats)[i].members.len() >= 3,
{
    collapse_widens_only_when_allowed(stats);
    let out = collapse_spec(stats);
    assert forall|i: int| 0 <= i < out.len() && (#[trigger] out[i]).members.len() > 1 implies out[i].members.len()
        >= 3 by {
        assert(rule_ok(out[i]));
    }
}

} // verus!
