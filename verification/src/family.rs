//! Every widened rule is the fold of its whole family: all the bash patterns
//! whose tokens begin with its prefix, and no others. So a single denial
//! anywhere in a family keeps the family's rule off the table.
use vstd::prelude::*;

use crate::collapse::{
    always_of, bash_spec, collapse_spec, collapsed_view, deny_of, entries_of, entry_leaves,
    group_spec, groups_spec, lemma_max_tokens, lemma_partition_items,
    lemma_runs_items, max_tokens, member_patterns, once_of, runs, stat_leaves, strip_stars,
    token_key, tokenizable, tokenize_spec, tokens_lt, tool_key, tool_spec, tools_spec,
    untokenized, widenable_spec, with_len, without_len, CollapsedView, Entry, EntryView,
    MIN_DISTINCT, MIN_TOKENS, is_flag_spec,
};
use crate::laws::{
    collapse_widens_only_when_allowed, flatten, lemma_entries_of_family, lemma_partition_sum,
    lemma_runs_flatten, lemma_runs_same_key, lemma_sum_one, lift, rule_always, rule_deny,
    rule_members, rule_ok, rule_once, shared_prefix, stat_always, stat_deny, stat_one, stat_once,
    within,
};
use crate::query::{PermissionStat, StatView};
use crate::sort::{sorted_stable, TotalPreorder};
use crate::sums::{
    lemma_sum_le_pointwise,
    lemma_sorted_is_sorted, lemma_sorted_keeps, lemma_sum_concat, lemma_sum_eq, lemma_sum_zero,
    sum_of,
};
use crate::text::{
    chars_lt, is_words, join, lemma_chars_lt_irreflexive, lemma_chars_lt_transitive,
    lemma_chars_lt_trichotomy, lemma_join_injective, lemma_words_are_words, white_space, words,
};

verus! {

/// `t` begins with the tokens `q`.
pub open spec fn begins_with(t: Seq<Seq<char>>, q: Seq<Seq<char>>) -> bool {
    t.len() >= q.len() && t.take(q.len() as int) == q
}

/// A bash pattern whose tokens begin with `q`: one of the family the rule
/// `q *` would answer for.
pub open spec fn in_family(q: Seq<Seq<char>>, s: StatView) -> bool {
    &&& s.tool == "bash"@
    &&& tokenize_spec(s.pattern) matches Some(t) && begins_with(t, q)
}

/// `f` on the family of `q`, nothing elsewhere.
pub open spec fn family_part(q: Seq<Seq<char>>, f: spec_fn(StatView) -> int) -> spec_fn(StatView) -> int {
    |s: StatView|
        if in_family(q, s) {
            f(s)
        } else {
            0
        }
}

/// `c` is the rule `q *`.
pub open spec fn rule_of(q: Seq<Seq<char>>, c: CollapsedView) -> bool {
    c.pattern == join(q, " "@) + " *"@
}

spec fn entry_part(q: Seq<Seq<char>>, f: spec_fn(EntryView) -> int) -> spec_fn(EntryView) -> int {
    |e: EntryView|
        if begins_with(e.tokens, q) {
            f(e)
        } else {
            0
        }
}

/// `g` reads off a widened rule the sum of `f` over the entries folded into it.
spec fn reads_sum(f: spec_fn(EntryView) -> int, g: spec_fn(CollapsedView) -> int) -> bool {
    forall|es: Seq<EntryView>, d: int|
        es.len() > 0 ==> #[trigger] g(collapsed_view(es, d)) == sum_of(es, f)
}

/// No entry has tokens that sort before those of an entry ahead of it.
spec fn sorted_tokens(es: Seq<EntryView>) -> bool {
    forall|i: int, j: int|
        #![trigger es[i], es[j]]
        0 <= i < j < es.len() ==> !tokens_lt(es[j].tokens, es[i].tokens)
}

proof fn lemma_flatten_zero<A>(gs: Seq<Seq<A>>, f: spec_fn(A) -> int)
    requires
        forall|i: int, k: int| 0 <= i < gs.len() && 0 <= k < gs[i].len() ==> f(#[trigger] gs[i][k]) == 0,
    ensures
        sum_of(flatten(gs), f) == 0,
    decreases gs.len(),
{
    if gs.len() > 0 {
        let d = gs.drop_last();
        assert forall|i: int, k: int| 0 <= i < d.len() && 0 <= k < d[i].len() implies f(
            #[trigger] d[i][k],
        ) == 0 by {
            assert(d[i] == gs[i]);
        }
        lemma_flatten_zero(d, f);
        let last = gs.last();
        assert forall|k: int| 0 <= k < last.len() implies f(#[trigger] last[k]) == 0 by {
            assert(last[k] == gs[gs.len() - 1][k]);
        }
        lemma_sum_zero(last, f);
        lemma_sum_concat(flatten(d), last, f);
    }
}

proof fn lemma_strip_stars_prefix(ws: Seq<Seq<char>>)
    ensures
        strip_stars(ws).len() <= ws.len(),
        strip_stars(ws) == ws.take(strip_stars(ws).len() as int),
    decreases ws.len(),
{
    if ws.len() > 0 && ws.last() == "*"@ {
        lemma_strip_stars_prefix(ws.drop_last());
        let n = strip_stars(ws).len() as int;
        assert(ws.drop_last().take(n) =~= ws.take(n));
    } else {
        assert(ws.take(ws.len() as int) =~= ws);
    }
}

/// The tokens of a pattern are words, and so is every prefix of them.
pub proof fn lemma_tokens_are_words(pattern: Seq<char>, n: int)
    requires
        tokenize_spec(pattern) is Some,
        0 <= n <= tokenize_spec(pattern)->0.len(),
    ensures
        is_words(tokenize_spec(pattern)->0.take(n)),
{
    let ws = words(pattern);
    let t = strip_stars(ws);
    lemma_strip_stars_prefix(ws);
    lemma_words_are_words(pattern);
    let q = t.take(n);
    assert forall|i: int| 0 <= i < q.len() implies (#[trigger] q[i]).len() > 0 && forall|j: int|
        0 <= j < q[i].len() ==> !white_space(#[trigger] q[i][j]) by {
        assert(q[i] == ws[i]);
        assert forall|j: int| 0 <= j < q[i].len() implies !white_space(#[trigger] q[i][j]) by {
            assert(q[i][j] == ws[i][j]);
        }
    }
}

/// Leaving out the entries of one length keeps the order.
proof fn lemma_without_len_sorted(es: Seq<EntryView>, depth: int)
    requires
        sorted_tokens(es),
    ensures
        sorted_tokens(without_len(es, depth)),
    decreases es.len(),
{
    if es.len() > 0 {
        let d = es.drop_last();
        assert(sorted_tokens(d)) by {
            assert forall|i: int, j: int| 0 <= i < j < d.len() implies !tokens_lt(
                #[trigger] d[j].tokens,
                #[trigger] d[i].tokens,
            ) by {
                assert(d[i] == es[i] && d[j] == es[j]);
            }
        }
        lemma_without_len_sorted(d, depth);
        if es.last().tokens.len() != depth {
            let last = es.last();
            let p = |x: EntryView| !tokens_lt(last.tokens, x.tokens);
            assert forall|k: int| 0 <= k < d.len() implies p(#[trigger] d[k]) by {
                assert(d[k] == es[k]);
                assert(last == es[es.len() - 1]);
            }
            lemma_partition_items(d, depth, p);
            let v0 = without_len(d, depth);
            let v = v0.push(last);
            assert(without_len(es, depth) == v);
            assert forall|i: int, j: int| 0 <= i < j < v.len() implies !tokens_lt(
                #[trigger] v[j].tokens,
                #[trigger] v[i].tokens,
            ) by {
                if j < v0.len() {
                    assert(v[i] == v0[i] && v[j] == v0[j]);
                } else {
                    assert(v[i] == v0[i]);
                    assert(p(v0[i]));
                }
            }
        }
    }
}

/// Every run of a sorted sequence is sorted.
proof fn lemma_runs_sorted(s: Seq<EntryView>, key: spec_fn(EntryView) -> Seq<char>)
    requires
        sorted_tokens(s),
    ensures
        forall|i: int| 0 <= i < runs(s, key).len() ==> sorted_tokens(#[trigger] runs(s, key)[i]),
    decreases s.len(),
{
    if s.len() > 0 {
        let d = s.drop_last();
        assert(sorted_tokens(d)) by {
            assert forall|i: int, j: int| 0 <= i < j < d.len() implies !tokens_lt(
                #[trigger] d[j].tokens,
                #[trigger] d[i].tokens,
            ) by {
                assert(d[i] == s[i] && d[j] == s[j]);
            }
        }
        lemma_runs_sorted(d, key);
        let r = runs(d, key);
        let r2 = runs(s, key);
        let last = s.last();
        if r.len() > 0 && key(r.last()[0]) == key(last) {
            let p = |x: EntryView| !tokens_lt(last.tokens, x.tokens);
            assert forall|k: int| 0 <= k < d.len() implies p(#[trigger] d[k]) by {
                assert(d[k] == s[k]);
                assert(last == s[s.len() - 1]);
            }
            lemma_runs_items(d, key, p);
            assert forall|i: int| 0 <= i < r2.len() implies sorted_tokens(#[trigger] r2[i]) by {
                if i < r.len() - 1 {
                    assert(r2[i] == r[i]);
                } else {
                    let a = r.last();
                    let b = a.push(last);
                    assert(r2[i] == b);
                    assert(sorted_tokens(r[r.len() - 1]));
                    assert forall|x: int, y: int| 0 <= x < y < b.len() implies !tokens_lt(
                        #[trigger] b[y].tokens,
                        #[trigger] b[x].tokens,
                    ) by {
                        assert(b[x] == a[x]);
                        assert(a[x] == r[r.len() - 1][x]);
                        if y < a.len() {
                            assert(b[y] == a[y]);
                        } else {
                            assert(p(r[r.len() - 1][x]));
                        }
                    }
                }
            }
        } else {
            assert forall|i: int| 0 <= i < r2.len() implies sorted_tokens(#[trigger] r2[i]) by {
                if i < r.len() {
                    assert(r2[i] == r[i]);
                }
            }
        }
    }
}

/// The runs of a sequence sorted by its key come in strictly increasing
/// order of key, the last one with the key of the last item.
proof fn lemma_runs_increasing<A>(s: Seq<A>, key: spec_fn(A) -> Seq<char>)
    requires
        forall|i: int, j: int|
            #![trigger s[i], s[j]]
            0 <= i < j < s.len() ==> !chars_lt(key(s[j]), key(s[i])),
    ensures
        forall|i: int, j: int|
            0 <= i < j < runs(s, key).len() ==> chars_lt(
                key(#[trigger] runs(s, key)[i][0]),
                key(#[trigger] runs(s, key)[j][0]),
            ),
        s.len() > 0 ==> runs(s, key).len() > 0 && key(runs(s, key).last()[0]) == key(s.last()),
    decreases s.len(),
{
    if s.len() > 0 {
        let d = s.drop_last();
        assert forall|i: int, j: int|
            #![trigger d[i], d[j]]
            0 <= i < j < d.len() implies !chars_lt(key(d[j]), key(d[i])) by {
            assert(d[i] == s[i] && d[j] == s[j]);
        }
        lemma_runs_increasing(d, key);
        lemma_runs_items(d, key, |a: A| true);
        let r = runs(d, key);
        let r2 = runs(s, key);
        let last = s.last();
        if r.len() > 0 && key(r.last()[0]) == key(last) {
            assert forall|i: int| 0 <= i < r2.len() implies #[trigger] r2[i][0] == r[i][0] by {
                if i == r.len() - 1 {
                    assert(r[i].len() > 0);
                    assert(r2[i] == r.last().push(last));
                }
            }
            assert forall|i: int, j: int| 0 <= i < j < r2.len() implies chars_lt(
                key(#[trigger] r2[i][0]),
                key(#[trigger] r2[j][0]),
            ) by {
                assert(r2[i][0] == r[i][0]);
                assert(r2[j][0] == r[j][0]);
            }
            assert(r2.last()[0] == r2[r2.len() - 1][0]);
            assert(r.last()[0] == r[r.len() - 1][0]);
        } else {
            assert(r2[r2.len() - 1] == seq![last]);
            if r.len() > 0 {
                let kl = key(r.last()[0]);
                assert(kl == key(d.last()));
                assert(!chars_lt(key(s[s.len() - 1]), key(s[s.len() - 2])));
                assert(d.last() == s[s.len() - 2]);
                lemma_chars_lt_trichotomy(kl, key(last));
                assert(chars_lt(kl, key(last)));
                assert forall|i: int, j: int| 0 <= i < j < r2.len() implies chars_lt(
                    key(#[trigger] r2[i][0]),
                    key(#[trigger] r2[j][0]),
                ) by {
                    assert(r2[i] == r[i]);
                    if j < r.len() {
                        assert(r2[j] == r[j]);
                    } else {
                        if i < r.len() - 1 {
                            assert(chars_lt(key(r[i][0]), key(r[r.len() - 1][0])));
                            lemma_chars_lt_transitive(key(r[i][0]), kl, key(last));
                        }
                    }
                }
            }
        }
    }
}

/// Token sequences that agree up to `depth` are ordered by their token there.
proof fn lemma_tokens_lt_at(a: Seq<Seq<char>>, b: Seq<Seq<char>>, depth: int)
    requires
        0 <= depth < a.len(),
        depth < b.len(),
        a.take(depth) == b.take(depth),
        chars_lt(a[depth], b[depth]),
    ensures
        tokens_lt(a, b),
    decreases depth,
{
    if depth == 0 {
        lemma_chars_lt_irreflexive(a[0]);
    } else {
        assert(a[0] == a.take(depth)[0]);
        assert(b[0] == b.take(depth)[0]);
        assert(a.drop_first().take(depth - 1) =~= a.take(depth).drop_first());
        assert(b.drop_first().take(depth - 1) =~= b.take(depth).drop_first());
        lemma_tokens_lt_at(a.drop_first(), b.drop_first(), depth - 1);
    }
}

proof fn lemma_group_family(
    es: Seq<EntryView>,
    depth: int,
    bound: int,
    f: spec_fn(EntryView) -> int,
    g: spec_fn(CollapsedView) -> int,
)
    requires
        within(es, depth, bound),
        shared_prefix(es, depth),
        depth >= 1,
        es.len() > 0,
        sorted_tokens(es),
        reads_sum(f, g),
    ensures
        forall|i: int|
            0 <= i < group_spec(es, depth, bound).len() && (#[trigger] group_spec(
                es,
                depth,
                bound,
            )[i]).members.len() > 1 ==> exists|q: Seq<Seq<char>>|
                #[trigger] rule_of(q, group_spec(es, depth, bound)[i]) && is_words(q) && depth
                    <= q.len() && q.take(depth) == es[0].tokens.take(depth) && g(
                    group_spec(es, depth, bound)[i],
                ) == sum_of(es, entry_part(q, f)),
    decreases bound - depth, 1int, 0int,
{
    let out = group_spec(es, depth, bound);
    if es.len() == 1 {
        assert(out[0].members.len() == 1);
    } else if widenable_spec(es, depth) && es.len() >= MIN_DISTINCT && sum_of(es, deny_of()) == 0 {
        let c = collapsed_view(es, depth);
        let q = es[0].tokens.take(depth);
        assert(out.len() == 1 && out[0] == c);
        assert(shared_prefix(es, depth));
        assert(tokenize_spec(es[0].stat.pattern) == Some(es[0].tokens));
        lemma_tokens_are_words(es[0].stat.pattern, depth);
        assert forall|k: int| 0 <= k < es.len() implies (entry_part(q, f))(#[trigger] es[k]) == f(
            es[k],
        ) by {
            assert(es[k].tokens.take(depth) == q);
        }
        lemma_sum_eq(es, entry_part(q, f), f);
        assert(g(collapsed_view(es, depth)) == sum_of(es, f));
        assert(q.take(depth) =~= q);
        assert(rule_of(q, out[0]));
    } else if depth < bound {
        let w = with_len(es, depth);
        let v = without_len(es, depth);
        let gs = runs(v, token_key(depth));
        let fam = |e: EntryView|
            {
                &&& depth + 1 <= e.tokens.len() <= bound
                &&& e.stat.tool == "bash"@
                &&& tokenize_spec(e.stat.pattern) == Some(e.tokens)
                &&& e.tokens.take(depth) == es[0].tokens.take(depth)
            };
        let fam0 = |e: EntryView|
            {
                &&& depth <= e.tokens.len() <= bound
                &&& e.stat.tool == "bash"@
                &&& tokenize_spec(e.stat.pattern) == Some(e.tokens)
                &&& e.tokens.take(depth) == es[0].tokens.take(depth)
            };
        assert forall|k: int| 0 <= k < es.len() implies fam0(#[trigger] es[k]) by {}
        lemma_partition_items(es, depth, fam0);
        assert forall|k: int| 0 <= k < v.len() implies fam(#[trigger] v[k]) by {}
        lemma_runs_items(v, token_key(depth), fam);
        lemma_runs_same_key(v, token_key(depth));
        lemma_without_len_sorted(es, depth);
        lemma_runs_sorted(v, token_key(depth));
        assert forall|i: int, j: int|
            #![trigger v[i], v[j]]
            0 <= i < j < v.len() implies !chars_lt((token_key(depth))(v[j]), (token_key(depth))(v[i])) by {
            if chars_lt(v[j].tokens[depth], v[i].tokens[depth]) {
                assert(fam(v[i]) && fam(v[j]));
                lemma_tokens_lt_at(v[j].tokens, v[i].tokens, depth);
            }
        }
        lemma_runs_increasing(v, token_key(depth));
        assert forall|i: int, j: int| 0 <= i < gs.len() && 0 <= j < gs[i].len() implies {
            &&& depth + 1 <= (#[trigger] gs[i][j]).tokens.len() <= bound
            &&& gs[i][j].stat.tool == "bash"@
            &&& tokenize_spec(gs[i][j].stat.pattern) == Some(gs[i][j].tokens)
            &&& gs[i][j].tokens.take(depth) == gs[i][0].tokens.take(depth)
            &&& gs[i][j].tokens[depth] == gs[i][0].tokens[depth]
        } by {
            assert(fam(gs[i][j]));
            assert(fam(gs[i][0]));
        }
        assert forall|i: int, j: int|
            #![trigger gs[i], gs[j]]
            0 <= i < j < gs.len() implies chars_lt(gs[i][0].tokens[depth], gs[j][0].tokens[depth]) by {
            assert(chars_lt((token_key(depth))(gs[i][0]), (token_key(depth))(gs[j][0])));
        }
        lemma_groups_family(gs, depth + 1, bound, f, g);
        lemma_runs_flatten(v, token_key(depth));
        let lw = entry_leaves(w);
        let rest = groups_spec(gs, depth + 1, bound);
        assert(out == lw + rest);
        assert forall|i: int| 0 <= i < out.len() && (#[trigger] out[i]).members.len() > 1 implies exists|
            q: Seq<Seq<char>>,
        |
            #[trigger] rule_of(q, out[i]) && is_words(q) && depth <= q.len() && q.take(depth)
                == es[0].tokens.take(depth) && g(out[i]) == sum_of(es, entry_part(q, f)) by {
            if i < lw.len() {
                assert(out[i] == lw[i]);
            } else {
                let c = rest[i - lw.len()];
                assert(out[i] == c);
                let q = choose|q: Seq<Seq<char>>|
                    #[trigger] rule_of(q, c) && is_words(q) && depth + 1 <= q.len() && (exists|j: int|
                        0 <= j < gs.len() && q.take(depth + 1) == #[trigger] gs[j][0].tokens.take(
                            depth + 1,
                        )) && g(c) == sum_of(flatten(gs), entry_part(q, f));
                let j = choose|j: int|
                    0 <= j < gs.len() && q.take(depth + 1) == #[trigger] gs[j][0].tokens.take(
                        depth + 1,
                    );
                assert(fam(gs[j][0]));
                assert(q.take(depth) =~= q.take(depth + 1).take(depth));
                assert(gs[j][0].tokens.take(depth) =~= gs[j][0].tokens.take(depth + 1).take(depth));
                lemma_partition_sum(es, depth, entry_part(q, f));
                assert forall|k: int| 0 <= k < w.len() implies (entry_part(q, f))(#[trigger] w[k])
                    == 0 by {}
                lemma_sum_zero(w, entry_part(q, f));
                assert(rule_of(q, out[i]));
            }
        }
    } else {
        assert forall|i: int| 0 <= i < out.len() implies (#[trigger] out[i]).members.len() == 1 by {}
    }
}

proof fn lemma_groups_family(
    gs: Seq<Seq<EntryView>>,
    depth: int,
    bound: int,
    f: spec_fn(EntryView) -> int,
    g: spec_fn(CollapsedView) -> int,
)
    requires
        depth >= 1,
        forall|i: int| 0 <= i < gs.len() ==> (#[trigger] gs[i]).len() > 0,
        forall|i: int, j: int|
            0 <= i < gs.len() && 0 <= j < gs[i].len() ==> {
                &&& depth <= (#[trigger] gs[i][j]).tokens.len() <= bound
                &&& gs[i][j].stat.tool == "bash"@
                &&& tokenize_spec(gs[i][j].stat.pattern) == Some(gs[i][j].tokens)
                &&& gs[i][j].tokens.take(depth - 1) == gs[i][0].tokens.take(depth - 1)
                &&& gs[i][j].tokens[depth - 1] == gs[i][0].tokens[depth - 1]
            },
        forall|i: int| 0 <= i < gs.len() ==> sorted_tokens(#[trigger] gs[i]),
        forall|i: int, j: int|
            #![trigger gs[i], gs[j]]
            0 <= i < j < gs.len() ==> chars_lt(gs[i][0].tokens[depth - 1], gs[j][0].tokens[depth - 1]),
        reads_sum(f, g),
    ensures
        forall|i: int|
            0 <= i < groups_spec(gs, depth, bound).len() && (#[trigger] groups_spec(
                gs,
                depth,
                bound,
            )[i]).members.len() > 1 ==> exists|q: Seq<Seq<char>>|
                #[trigger] rule_of(q, groups_spec(gs, depth, bound)[i]) && is_words(q) && depth
                    <= q.len() && (exists|j: int|
                    0 <= j < gs.len() && q.take(depth) == #[trigger] gs[j][0].tokens.take(depth))
                    && g(groups_spec(gs, depth, bound)[i]) == sum_of(flatten(gs), entry_part(q, f)),
    decreases bound - depth, 2int, gs.len(),
{
    if gs.len() > 0 && depth <= bound {
        let d = gs.drop_last();
        assert forall|i: int| 0 <= i < d.len() implies (#[trigger] d[i]).len() > 0 && sorted_tokens(
            d[i],
        ) by {
            assert(d[i] == gs[i]);
        }
        assert forall|i: int, j: int| 0 <= i < d.len() && 0 <= j < d[i].len() implies {
            &&& depth <= (#[trigger] d[i][j]).tokens.len() <= bound
            &&& d[i][j].stat.tool == "bash"@
            &&& tokenize_spec(d[i][j].stat.pattern) == Some(d[i][j].tokens)
            &&& d[i][j].tokens.take(depth - 1) == d[i][0].tokens.take(depth - 1)
            &&& d[i][j].tokens[depth - 1] == d[i][0].tokens[depth - 1]
        } by {
            assert(d[i] == gs[i]);
        }
        assert forall|i: int, j: int|
            #![trigger d[i], d[j]]
            0 <= i < j < d.len() implies chars_lt(d[i][0].tokens[depth - 1], d[j][0].tokens[depth - 1]) by {
            assert(d[i] == gs[i] && d[j] == gs[j]);
        }
        lemma_groups_family(d, depth, bound, f, g);
        let n = gs.len() - 1;
        let last = gs.last();
        assert(last == gs[n]);
        assert(within(last, depth, bound) && shared_prefix(last, depth)) by {
            assert forall|k: int| 0 <= k < last.len() implies depth <= (#[trigger] last[k]).tokens.len()
                <= bound by {
                assert(last[k] == gs[n][k]);
            }
            assert forall|k: int| 0 <= k < last.len() implies {
                &&& (#[trigger] last[k]).stat.tool == "bash"@
                &&& tokenize_spec(last[k].stat.pattern) == Some(last[k].tokens)
                &&& last[k].tokens.len() >= depth
                &&& last[k].tokens.take(depth) == last[0].tokens.take(depth)
            } by {
                assert(last[k] == gs[n][k]);
                let a = last[k].tokens;
                let b = last[0].tokens;
                assert(a.take(depth) =~= a.take(depth - 1).push(a[depth - 1]));
                assert(b.take(depth) =~= b.take(depth - 1).push(b[depth - 1]));
            }
        }
        assert(sorted_tokens(gs[n]));
        lemma_group_family(last, depth, bound, f, g);
        let a = groups_spec(d, depth, bound);
        let b = group_spec(last, depth, bound);
        let out = groups_spec(gs, depth, bound);
        assert(out == a + b);
        assert(flatten(gs) == flatten(d) + last);
        assert forall|i: int| 0 <= i < out.len() && (#[trigger] out[i]).members.len() > 1 implies exists|
            q: Seq<Seq<char>>,
        |
            #[trigger] rule_of(q, out[i]) && is_words(q) && depth <= q.len() && (exists|j: int|
                0 <= j < gs.len() && q.take(depth) == #[trigger] gs[j][0].tokens.take(depth)) && g(
                out[i],
            ) == sum_of(flatten(gs), entry_part(q, f)) by {
            if i < a.len() {
                let c = a[i];
                assert(out[i] == c);
                let q = choose|q: Seq<Seq<char>>|
                    #[trigger] rule_of(q, c) && is_words(q) && depth <= q.len() && (exists|j: int|
                        0 <= j < d.len() && q.take(depth) == #[trigger] d[j][0].tokens.take(depth))
                        && g(c) == sum_of(flatten(d), entry_part(q, f));
                let j = choose|j: int|
                    0 <= j < d.len() && q.take(depth) == #[trigger] d[j][0].tokens.take(depth);
                assert(d[j] == gs[j]);
                assert(q[depth - 1] == q.take(depth)[depth - 1]);
                assert(gs[j][0].tokens[depth - 1] == gs[j][0].tokens.take(depth)[depth - 1]);
                assert(chars_lt(gs[j][0].tokens[depth - 1], gs[n][0].tokens[depth - 1]));
                lemma_chars_lt_irreflexive(gs[n][0].tokens[depth - 1]);
                assert forall|k: int| 0 <= k < last.len() implies (entry_part(q, f))(#[trigger] last[k])
                    == 0 by {
                    assert(last[k] == gs[n][k]);
                    if begins_with(last[k].tokens, q) {
                        assert(last[k].tokens[depth - 1] == last[k].tokens.take(q.len() as int)[depth - 1]);
                    }
                }
                lemma_sum_zero(last, entry_part(q, f));
                lemma_sum_concat(flatten(d), last, entry_part(q, f));
                assert(rule_of(q, out[i]));
                assert(q.take(depth) == gs[j][0].tokens.take(depth));
            } else {
                let c = b[i - a.len()];
                assert(out[i] == c);
                let q = choose|q: Seq<Seq<char>>|
                    #[trigger] rule_of(q, c) && is_words(q) && depth <= q.len() && q.take(depth)
                        == last[0].tokens.take(depth) && g(c) == sum_of(last, entry_part(q, f));
                assert(q[depth - 1] == q.take(depth)[depth - 1]);
                assert(last[0].tokens[depth - 1] == last[0].tokens.take(depth)[depth - 1]);
                assert forall|x: int, k: int| 0 <= x < d.len() && 0 <= k < d[x].len() implies (
                entry_part(q, f))(#[trigger] d[x][k]) == 0 by {
                    assert(d[x] == gs[x]);
                    assert(chars_lt(gs[x][0].tokens[depth - 1], gs[n][0].tokens[depth - 1]));
                    lemma_chars_lt_irreflexive(gs[n][0].tokens[depth - 1]);
                    if begins_with(d[x][k].tokens, q) {
                        assert(d[x][k].tokens[depth - 1] == d[x][k].tokens.take(q.len() as int)[depth - 1]);
                    }
                }
                lemma_flatten_zero(d, entry_part(q, f));
                lemma_sum_concat(flatten(d), last, entry_part(q, f));
                assert(rule_of(q, out[i]));
                assert(q.take(depth) == gs[n][0].tokens.take(depth));
            }
        }
    }
}

proof fn lemma_entries_family(run: Seq<StatView>, q: Seq<Seq<char>>, fs: spec_fn(StatView) -> int)
    requires
        forall|k: int| 0 <= k < run.len() ==> (#[trigger] run[k]).tool == "bash"@,
        q.len() >= 1,
    ensures
        sum_of(entries_of(run), entry_part(q, lift(fs))) == sum_of(run, family_part(q, fs)),
    decreases run.len(),
{
    if run.len() > 0 {
        let d = run.drop_last();
        assert forall|k: int| 0 <= k < d.len() implies (#[trigger] d[k]).tool == "bash"@ by {
            assert(d[k] == run[k]);
        }
        lemma_entries_family(d, q, fs);
        let last = run.last();
        assert(last.tool == "bash"@) by {
            assert(last == run[run.len() - 1]);
        }
        if tokenizable(last.pattern) {
            let e = EntryView { tokens: tokenize_spec(last.pattern)->0, stat: last };
            assert(entries_of(run) == entries_of(d).push(e));
            assert(entries_of(run).drop_last() == entries_of(d));
            assert((entry_part(q, lift(fs)))(e) == (family_part(q, fs))(last));
        } else {
            assert(entries_of(run) == entries_of(d));
            assert((family_part(q, fs))(last) == 0);
        }
    }
}

proof fn lemma_bash_family(run: Seq<StatView>, fs: spec_fn(StatView) -> int, g: spec_fn(CollapsedView) -> int)
    requires
        run.len() > 0,
        forall|k: int| 0 <= k < run.len() ==> (#[trigger] run[k]).tool == "bash"@,
        reads_sum(lift(fs), g),
    ensures
        forall|i: int|
            0 <= i < bash_spec(run).len() && (#[trigger] bash_spec(run)[i]).members.len() > 1
                ==> exists|q: Seq<Seq<char>>|
                #[trigger] rule_of(q, bash_spec(run)[i]) && is_words(q) && q.len() >= 1 && g(
                    bash_spec(run)[i],
                ) == sum_of(run, family_part(q, fs)),
{
    let ev = entries_of(run);
    let sorted = sorted_stable::<Entry>(ev);
    let bound = max_tokens(sorted);
    lemma_entries_of_family(run, "bash"@);
    let fam = |e: EntryView|
        {
            &&& e.stat.tool == "bash"@
            &&& tokenize_spec(e.stat.pattern) == Some(e.tokens)
            &&& e.tokens.len() >= 1
        };
    assert forall|k: int| 0 <= k < ev.len() implies fam(#[trigger] ev[k]) by {}
    lemma_sorted_keeps::<Entry>(ev, |e: EntryView| 0int, fam);
    lemma_max_tokens(sorted);
    lemma_sorted_is_sorted::<Entry>(ev);
    assert(sorted_tokens(sorted)) by {
        assert forall|i: int, j: int| 0 <= i < j < sorted.len() implies !tokens_lt(
            #[trigger] sorted[j].tokens,
            #[trigger] sorted[i].tokens,
        ) by {
            assert(<Entry as TotalPreorder>::precedes(sorted[i], sorted[j]));
        }
    }
    let p = |e: EntryView|
        {
            &&& 1 <= e.tokens.len() <= bound
            &&& e.stat.tool == "bash"@
            &&& tokenize_spec(e.stat.pattern) == Some(e.tokens)
        };
    assert forall|k: int| 0 <= k < sorted.len() implies p(#[trigger] sorted[k]) by {
        assert(fam(sorted[k]));
    }
    let gs = runs(sorted, token_key(0));
    lemma_runs_items(sorted, token_key(0), p);
    lemma_runs_same_key(sorted, token_key(0));
    lemma_runs_sorted(sorted, token_key(0));
    assert forall|i: int, j: int|
        #![trigger sorted[i], sorted[j]]
        0 <= i < j < sorted.len() implies !chars_lt(
        (token_key(0))(sorted[j]),
        (token_key(0))(sorted[i]),
    ) by {
        if chars_lt(sorted[j].tokens[0], sorted[i].tokens[0]) {
            assert(p(sorted[i]) && p(sorted[j]));
            assert(sorted[j].tokens.take(0) =~= sorted[i].tokens.take(0));
            lemma_tokens_lt_at(sorted[j].tokens, sorted[i].tokens, 0);
        }
    }
    lemma_runs_increasing(sorted, token_key(0));
    assert forall|i: int, j: int| 0 <= i < gs.len() && 0 <= j < gs[i].len() implies {
        &&& 1 <= (#[trigger] gs[i][j]).tokens.len() <= bound
        &&& gs[i][j].stat.tool == "bash"@
        &&& tokenize_spec(gs[i][j].stat.pattern) == Some(gs[i][j].tokens)
        &&& gs[i][j].tokens.take(0) == gs[i][0].tokens.take(0)
        &&& gs[i][j].tokens[0] == gs[i][0].tokens[0]
    } by {
        assert(p(gs[i][j]));
        assert(gs[i][j].tokens.take(0) =~= gs[i][0].tokens.take(0));
    }
    assert forall|i: int, j: int|
        #![trigger gs[i], gs[j]]
        0 <= i < j < gs.len() implies chars_lt(gs[i][0].tokens[1 - 1], gs[j][0].tokens[1 - 1]) by {
        assert(chars_lt((token_key(0))(gs[i][0]), (token_key(0))(gs[j][0])));
    }
    lemma_groups_family(gs, 1, bound, lift(fs), g);
    lemma_runs_flatten(sorted, token_key(0));
    let l = stat_leaves(untokenized(run));
    let rest = groups_spec(gs, 1, bound);
    let out = bash_spec(run);
    assert(out == l + rest);
    assert forall|i: int| 0 <= i < out.len() && (#[trigger] out[i]).members.len() > 1 implies exists|
        q: Seq<Seq<char>>,
    | #[trigger] rule_of(q, out[i]) && is_words(q) && q.len() >= 1 && g(out[i]) == sum_of(run, family_part(q, fs)) by {
        if i < l.len() {
            assert(out[i] == l[i]);
        } else {
            let c = rest[i - l.len()];
            assert(out[i] == c);
            let q = choose|q: Seq<Seq<char>>|
                #[trigger] rule_of(q, c) && is_words(q) && 1 <= q.len() && (exists|j: int|
                    0 <= j < gs.len() && q.take(1) == #[trigger] gs[j][0].tokens.take(1)) && g(c)
                    == sum_of(flatten(gs), entry_part(q, lift(fs)));
            lemma_sorted_keeps::<Entry>(ev, entry_part(q, lift(fs)), |e: EntryView| true);
            lemma_entries_family(run, q, fs);
            assert(rule_of(q, out[i]));
        }
    }
}

proof fn lemma_tools_family(rs: Seq<Seq<StatView>>, fs: spec_fn(StatView) -> int, g: spec_fn(CollapsedView) -> int)
    requires
        forall|i: int| 0 <= i < rs.len() ==> (#[trigger] rs[i]).len() > 0,
        forall|i: int, j: int|
            0 <= i < rs.len() && 0 <= j < rs[i].len() ==> (#[trigger] rs[i][j]).tool == rs[i][0].tool,
        forall|i: int, j: int|
            #![trigger rs[i], rs[j]]
            0 <= i < j < rs.len() ==> chars_lt(rs[i][0].tool, rs[j][0].tool),
        reads_sum(lift(fs), g),
    ensures
        forall|i: int|
            0 <= i < tools_spec(rs).len() && (#[trigger] tools_spec(rs)[i]).members.len() > 1
                ==> exists|q: Seq<Seq<char>>|
                #[trigger] rule_of(q, tools_spec(rs)[i]) && is_words(q) && q.len() >= 1 && (exists|
                    j: int,
                | 0 <= j < rs.len() && #[trigger] rs[j][0].tool == "bash"@) && g(tools_spec(rs)[i])
                    == sum_of(flatten(rs), family_part(q, fs)),
    decreases rs.len(),
{
    if rs.len() > 0 {
        let d = rs.drop_last();
        assert forall|i: int| 0 <= i < d.len() implies (#[trigger] d[i]).len() > 0 by {
            assert(d[i] == rs[i]);
        }
        assert forall|i: int, j: int| 0 <= i < d.len() && 0 <= j < d[i].len() implies (
        #[trigger] d[i][j]).tool == d[i][0].tool by {
            assert(d[i] == rs[i]);
        }
        assert forall|i: int, j: int|
            #![trigger d[i], d[j]]
            0 <= i < j < d.len() implies chars_lt(d[i][0].tool, d[j][0].tool) by {
            assert(d[i] == rs[i] && d[j] == rs[j]);
        }
        lemma_tools_family(d, fs, g);
        let n = rs.len() - 1;
        let last = rs.last();
        assert(last == rs[n]);
        let a = tools_spec(d);
        let b = tool_spec(last);
        let out = tools_spec(rs);
        assert(out == a + b);
        assert(flatten(rs) == flatten(d) + last);
        if last[0].tool == "bash"@ {
            assert forall|k: int| 0 <= k < last.len() implies (#[trigger] last[k]).tool == "bash"@ by {
                assert(last[k] == rs[n][k]);
            }
            lemma_bash_family(last, fs, g);
        }
        assert forall|i: int| 0 <= i < out.len() && (#[trigger] out[i]).members.len() > 1 implies exists|
            q: Seq<Seq<char>>,
        |
            #[trigger] rule_of(q, out[i]) && is_words(q) && q.len() >= 1 && (exists|j: int|
                0 <= j < rs.len() && #[trigger] rs[j][0].tool == "bash"@) && g(out[i]) == sum_of(
                flatten(rs),
                family_part(q, fs),
            ) by {
            if i < a.len() {
                let c = a[i];
                assert(out[i] == c);
                let q = choose|q: Seq<Seq<char>>|
                    #[trigger] rule_of(q, c) && is_words(q) && q.len() >= 1 && (exists|j: int|
                        0 <= j < d.len() && #[trigger] d[j][0].tool == "bash"@) && g(c) == sum_of(
                        flatten(d),
                        family_part(q, fs),
                    );
                let j = choose|j: int| 0 <= j < d.len() && #[trigger] d[j][0].tool == "bash"@;
                assert(d[j] == rs[j]);
                assert(chars_lt(rs[j][0].tool, rs[n][0].tool));
                lemma_chars_lt_irreflexive(rs[n][0].tool);
                assert forall|k: int| 0 <= k < last.len() implies (family_part(q, fs))(#[trigger] last[k])
                    == 0 by {
                    assert(last[k] == rs[n][k]);
                }
                lemma_sum_zero(last, family_part(q, fs));
                lemma_sum_concat(flatten(d), last, family_part(q, fs));
                assert(rule_of(q, out[i]));
                assert(rs[j][0].tool == "bash"@);
            } else {
                let c = b[i - a.len()];
                assert(out[i] == c);
                assert(last[0].tool == "bash"@);
                let q = choose|q: Seq<Seq<char>>|
                    #[trigger] rule_of(q, c) && is_words(q) && q.len() >= 1 && g(c) == sum_of(
                        last,
                        family_part(q, fs),
                    );
                assert forall|x: int, k: int| 0 <= x < d.len() && 0 <= k < d[x].len() implies (
                family_part(q, fs))(#[trigger] d[x][k]) == 0 by {
                    assert(d[x] == rs[x]);
                    assert(chars_lt(rs[x][0].tool, rs[n][0].tool));
                    lemma_chars_lt_irreflexive(rs[n][0].tool);
                }
                lemma_flatten_zero(d, family_part(q, fs));
                lemma_sum_concat(flatten(d), last, family_part(q, fs));
                assert(rule_of(q, out[i]));
                assert(rs[n][0].tool == "bash"@);
            }
        }
    }
}

proof fn lemma_collapse_family(stats: Seq<StatView>, fs: spec_fn(StatView) -> int, g: spec_fn(CollapsedView) -> int)
    requires
        reads_sum(lift(fs), g),
    ensures
        forall|i: int|
            0 <= i < collapse_spec(stats).len() && (#[trigger] collapse_spec(stats)[i]).members.len()
                > 1 ==> exists|q: Seq<Seq<char>>|
                #[trigger] rule_of(q, collapse_spec(stats)[i]) && is_words(q) && q.len() >= 1 && g(
                    collapse_spec(stats)[i],
                ) == sum_of(stats, family_part(q, fs)),
{
    let sorted = sorted_stable::<PermissionStat>(stats);
    let rs = runs(sorted, tool_key());
    lemma_runs_same_key(sorted, tool_key());
    lemma_runs_items(sorted, tool_key(), |s: StatView| true);
    lemma_sorted_is_sorted::<PermissionStat>(stats);
    assert forall|i: int, j: int|
        #![trigger sorted[i], sorted[j]]
        0 <= i < j < sorted.len() implies !chars_lt((tool_key())(sorted[j]), (tool_key())(sorted[i])) by {
        assert(<PermissionStat as TotalPreorder>::precedes(sorted[i], sorted[j]));
    }
    lemma_runs_increasing(sorted, tool_key());
    assert forall|i: int, j: int|
        #![trigger rs[i], rs[j]]
        0 <= i < j < rs.len() implies chars_lt(rs[i][0].tool, rs[j][0].tool) by {
        assert(chars_lt((tool_key())(rs[i][0]), (tool_key())(rs[j][0])));
    }
    assert forall|i: int, j: int| 0 <= i < rs.len() && 0 <= j < rs[i].len() implies (
    #[trigger] rs[i][j]).tool == rs[i][0].tool by {
        assert((tool_key())(rs[i][j]) == (tool_key())(rs[i][0]));
    }
    lemma_tools_family(rs, fs, g);
    lemma_runs_flatten(sorted, tool_key());
    let out = collapse_spec(stats);
    assert forall|i: int| 0 <= i < out.len() && (#[trigger] out[i]).members.len() > 1 implies exists|
        q: Seq<Seq<char>>,
    | #[trigger] rule_of(q, out[i]) && is_words(q) && q.len() >= 1 && g(out[i]) == sum_of(stats, family_part(q, fs)) by {
        let q = choose|q: Seq<Seq<char>>|
            #[trigger] rule_of(q, out[i]) && is_words(q) && q.len() >= 1 && (exists|j: int|
                0 <= j < rs.len() && #[trigger] rs[j][0].tool == "bash"@) && g(out[i]) == sum_of(
                flatten(rs),
                family_part(q, fs),
            );
        lemma_sorted_keeps::<PermissionStat>(stats, family_part(q, fs), |s: StatView| true);
    }
}

proof fn lemma_reads_counts()
    ensures
        reads_sum(lift(stat_once()), rule_once()),
        reads_sum(lift(stat_always()), rule_always()),
        reads_sum(lift(stat_deny()), rule_deny()),
        reads_sum(lift(stat_one()), rule_members()),
{
    assert(once_of() =~= lift(stat_once()));
    assert(always_of() =~= lift(stat_always()));
    assert(deny_of() =~= lift(stat_deny()));
    assert forall|es: Seq<EntryView>, d: int| es.len() > 0 implies #[trigger] (rule_members())(
        collapsed_view(es, d),
    ) == sum_of(es, lift(stat_one())) by {
        lemma_sum_one(es);
    }
}

/// How often `x` occurs in `s`.
pub open spec fn occurrences(s: Seq<Seq<char>>, x: Seq<char>) -> int {
    sum_of(s, |m: Seq<char>| if m == x { 1int } else { 0int })
}

/// One for a stat whose pattern is `x`.
pub open spec fn pattern_is(x: Seq<char>) -> spec_fn(StatView) -> int {
    |s: StatView| if s.pattern == x { 1int } else { 0int }
}

pub open spec fn rule_occurrences(x: Seq<char>) -> spec_fn(CollapsedView) -> int {
    |c: CollapsedView| occurrences(c.members, x)
}

proof fn lemma_occurrences_of_members(es: Seq<EntryView>, x: Seq<char>)
    ensures
        occurrences(member_patterns(es), x) == sum_of(es, lift(pattern_is(x))),
    decreases es.len(),
{
    if es.len() > 0 {
        lemma_occurrences_of_members(es.drop_last(), x);
        assert(member_patterns(es).drop_last() =~= member_patterns(es.drop_last()));
    }
}

proof fn lemma_reads_occurrences(x: Seq<char>)
    ensures
        reads_sum(lift(pattern_is(x)), rule_occurrences(x)),
{
    assert forall|es: Seq<EntryView>, d: int| es.len() > 0 implies #[trigger] (rule_occurrences(x))(
        collapsed_view(es, d),
    ) == sum_of(es, lift(pattern_is(x))) by {
        lemma_occurrences_of_members(es, x);
    }
}

/// Every widened rule `P *` is the fold of its whole family, the bash
/// patterns of the input whose tokens begin with `P`: its one-off approvals,
/// "always" approvals and denials are theirs, summed, and its evidence is
/// exactly their patterns, each as often as it was observed.
pub proof fn widened_rule_folds_its_family(stats: Seq<StatView>)
    ensures
        forall|i: int|
            0 <= i < collapse_spec(stats).len() && (#[trigger] collapse_spec(stats)[i]).members.len()
                > 1 ==> exists|q: Seq<Seq<char>>|
                {
                    &&& #[trigger] rule_of(q, collapse_spec(stats)[i])
                    &&& q.len() >= 1
                    &&& collapse_spec(stats)[i].allow_once == sum_of(stats, family_part(q, stat_once()))
                    &&& collapse_spec(stats)[i].allow_always == sum_of(
                        stats,
                        family_part(q, stat_always()),
                    )
                    &&& collapse_spec(stats)[i].deny == sum_of(stats, family_part(q, stat_deny()))
                    &&& collapse_spec(stats)[i].members.len() == sum_of(
                        stats,
                        family_part(q, stat_one()),
                    )
                    &&& forall|x: Seq<char>|
                        #[trigger] occurrences(collapse_spec(stats)[i].members, x) == sum_of(
                            stats,
                            family_part(q, pattern_is(x)),
                        )
                },
{
    lemma_reads_counts();
    lemma_collapse_family(stats, stat_once(), rule_once());
    lemma_collapse_family(stats, stat_always(), rule_always());
    lemma_collapse_family(stats, stat_deny(), rule_deny());
    lemma_collapse_family(stats, stat_one(), rule_members());
    let out = collapse_spec(stats);
    assert forall|i: int| 0 <= i < out.len() && (#[trigger] out[i]).members.len() > 1 implies exists|
        q: Seq<Seq<char>>,
    |
        {
            &&& #[trigger] rule_of(q, out[i])
            &&& q.len() >= 1
            &&& out[i].allow_once == sum_of(stats, family_part(q, stat_once()))
            &&& out[i].allow_always == sum_of(stats, family_part(q, stat_always()))
            &&& out[i].deny == sum_of(stats, family_part(q, stat_deny()))
            &&& out[i].members.len() == sum_of(stats, family_part(q, stat_one()))
            &&& forall|x: Seq<char>|
                #[trigger] occurrences(out[i].members, x) == sum_of(stats, family_part(q, pattern_is(x)))
        } by {
        let c = out[i];
        let q1 = choose|q: Seq<Seq<char>>|
            #[trigger] rule_of(q, c) && is_words(q) && q.len() >= 1 && (rule_once())(c) == sum_of(
                stats,
                family_part(q, stat_once()),
            );
        let q2 = choose|q: Seq<Seq<char>>|
            #[trigger] rule_of(q, c) && is_words(q) && q.len() >= 1 && (rule_always())(c) == sum_of(
                stats,
                family_part(q, stat_always()),
            );
        let q3 = choose|q: Seq<Seq<char>>|
            #[trigger] rule_of(q, c) && is_words(q) && q.len() >= 1 && (rule_deny())(c) == sum_of(
                stats,
                family_part(q, stat_deny()),
            );
        let q4 = choose|q: Seq<Seq<char>>|
            #[trigger] rule_of(q, c) && is_words(q) && q.len() >= 1 && (rule_members())(c) == sum_of(
                stats,
                family_part(q, stat_one()),
            );
        lemma_join_injective(q1, q2);
        lemma_join_injective(q1, q3);
        lemma_join_injective(q1, q4);
        assert forall|x: Seq<char>| #[trigger] occurrences(out[i].members, x) == sum_of(
            stats,
            family_part(q1, pattern_is(x)),
        ) by {
            lemma_reads_occurrences(x);
            lemma_collapse_family(stats, pattern_is(x), rule_occurrences(x));
            let qx = choose|q: Seq<Seq<char>>|
                #[trigger] rule_of(q, c) && is_words(q) && q.len() >= 1 && (rule_occurrences(x))(c)
                    == sum_of(stats, family_part(q, pattern_is(x)));
            lemma_join_injective(q1, qx);
        }
        assert(rule_of(q1, out[i]));
    }
}

/// A single denial anywhere in a family blocks the whole family: once a bash
/// pattern whose tokens begin with `P` has been denied, no rule `P *` is
/// returned, however much the rest of the family was approved. This holds
/// when no count of denials is negative, as counts of prompts never are.
pub proof fn denial_blocks_family(stats: Seq<StatView>, k: int, p: Seq<Seq<char>>)
    requires
        0 <= k < stats.len(),
        in_family(p, stats[k]),
        stats[k].deny > 0,
        p.len() >= 1,
        forall|j: int| 0 <= j < stats.len() ==> (#[trigger] stats[j]).deny >= 0,
    ensures
        forall|i: int|
            0 <= i < collapse_spec(stats).len() && (#[trigger] collapse_spec(stats)[i]).members.len()
                > 1 ==> !rule_of(p, collapse_spec(stats)[i]),
{
    lemma_reads_counts();
    lemma_collapse_family(stats, stat_deny(), rule_deny());
    collapse_widens_only_when_allowed(stats);
    let out = collapse_spec(stats);
    let t = tokenize_spec(stats[k].pattern)->0;
    assert(p == t.take(p.len() as int));
    lemma_tokens_are_words(stats[k].pattern, p.len() as int);
    assert forall|i: int| 0 <= i < out.len() && (#[trigger] out[i]).members.len() > 1 implies !rule_of(
        p,
        out[i],
    ) by {
        let c = out[i];
        assert(rule_ok(c));
        let q = choose|q: Seq<Seq<char>>|
            #[trigger] rule_of(q, c) && is_words(q) && q.len() >= 1 && (rule_deny())(c) == sum_of(
                stats,
                family_part(q, stat_deny()),
            );
        if rule_of(p, c) {
            lemma_join_injective(p, q);
            assert forall|j: int| 0 <= j < stats.len() implies (family_part(q, stat_deny()))(
                #[trigger] stats[j],
            ) >= 0 by {}
            crate::sums::lemma_item_le_sum(stats, family_part(q, stat_deny()), k);
        }
    }
}

} // verus!
verus! {

/// `x` is one of `s`.
pub open spec fn has<A>(s: Seq<A>, x: A) -> bool {
    exists|k: int| 0 <= k < s.len() && s[k] == x
}

/// Some widened rule of `out` rests on the pattern `p`.
pub open spec fn folded(out: Seq<CollapsedView>, p: Seq<char>) -> bool {
    exists|i: int, j: int|
        0 <= i < out.len() && out[i].members.len() > 1 && 0 <= j < out[i].members.len()
            && #[trigger] out[i].members[j] == p
}

proof fn lemma_folded_concat(a: Seq<CollapsedView>, b: Seq<CollapsedView>, p: Seq<char>)
    requires
        folded(a, p) || folded(b, p),
    ensures
        folded(a + b, p),
{
    if folded(a, p) {
        let (i, j) = choose|i: int, j: int|
            0 <= i < a.len() && a[i].members.len() > 1 && 0 <= j < a[i].members.len()
                && #[trigger] a[i].members[j] == p;
        assert((a + b)[i] == a[i]);
        assert((a + b)[i].members[j] == p);
    } else {
        let (i, j) = choose|i: int, j: int|
            0 <= i < b.len() && b[i].members.len() > 1 && 0 <= j < b[i].members.len()
                && #[trigger] b[i].members[j] == p;
        assert((a + b)[a.len() + i] == b[i]);
        assert((a + b)[a.len() + i].members[j] == p);
    }
}

proof fn lemma_has_concat<A>(a: Seq<A>, b: Seq<A>, x: A)
    requires
        has(a + b, x),
    ensures
        has(a, x) || has(b, x),
{
    let k = choose|k: int| 0 <= k < (a + b).len() && (a + b)[k] == x;
    if k < a.len() {
        assert(a[k] == x);
    } else {
        assert(b[k - a.len()] == x);
    }
}

proof fn lemma_has_le_sum<A>(s: Seq<A>, f: spec_fn(A) -> int, x: A)
    requires
        has(s, x),
        forall|k: int| 0 <= k < s.len() ==> f(#[trigger] s[k]) >= 0,
    ensures
        f(x) <= sum_of(s, f),
{
    let k = choose|k: int| 0 <= k < s.len() && s[k] == x;
    crate::sums::lemma_item_le_sum(s, f, k);
}

proof fn lemma_sum_witness<A>(s: Seq<A>, f: spec_fn(A) -> int)
    requires
        sum_of(s, f) != 0,
    ensures
        exists|k: int| 0 <= k < s.len() && f(#[trigger] s[k]) != 0,
{
    if forall|k: int| 0 <= k < s.len() ==> f(#[trigger] s[k]) == 0 {
        lemma_sum_zero(s, f);
    }
}

proof fn lemma_sorted_has<T: TotalPreorder>(s: Seq<T::V>, x: T::V)
    requires
        has(s, x),
    ensures
        has(sorted_stable::<T>(s), x),
{
    let f = |y: T::V| if y == x { 1int } else { 0int };
    assert forall|k: int| 0 <= k < s.len() implies f(#[trigger] s[k]) >= 0 by {}
    lemma_has_le_sum(s, f, x);
    lemma_sorted_keeps::<T>(s, f, |y: T::V| true);
    lemma_sum_witness(sorted_stable::<T>(s), f);
}

proof fn lemma_without_len_has(es: Seq<EntryView>, depth: int, x: EntryView)
    requires
        has(es, x),
        x.tokens.len() != depth,
    ensures
        has(without_len(es, depth), x),
    decreases es.len(),
{
    let d = es.drop_last();
    if es.last() == x {
        assert(without_len(es, depth) == without_len(d, depth).push(x));
        assert(without_len(es, depth)[without_len(d, depth).len() as int] == x);
    } else {
        let k = choose|k: int| 0 <= k < es.len() && es[k] == x;
        assert(k < es.len() - 1);
        assert(d[k] == x);
        lemma_without_len_has(d, depth, x);
        let v = without_len(d, depth);
        let m = choose|m: int| 0 <= m < v.len() && v[m] == x;
        if es.last().tokens.len() != depth {
            assert(without_len(es, depth)[m] == x);
        }
    }
}

proof fn lemma_entries_has(run: Seq<StatView>, s: StatView)
    requires
        has(run, s),
        tokenizable(s.pattern),
    ensures
        has(entries_of(run), EntryView { tokens: tokenize_spec(s.pattern)->0, stat: s }),
    decreases run.len(),
{
    let e = EntryView { tokens: tokenize_spec(s.pattern)->0, stat: s };
    let d = run.drop_last();
    if run.last() == s {
        assert(entries_of(run) == entries_of(d).push(e));
        assert(entries_of(run)[entries_of(d).len() as int] == e);
    } else {
        let k = choose|k: int| 0 <= k < run.len() && run[k] == s;
        assert(d[k] == s);
        lemma_entries_has(d, s);
        let v = entries_of(d);
        let m = choose|m: int| 0 <= m < v.len() && v[m] == e;
        if tokenizable(run.last().pattern) {
            assert(entries_of(run)[m] == e);
        }
    }
}

} // verus!
verus! {

/// One for an entry whose tokens begin with `p`.
spec fn begins(p: Seq<Seq<char>>) -> spec_fn(EntryView) -> int {
    entry_part(p, lift(stat_one()))
}

/// An entry that begins with `p` was never denied, and when `p` is a bare
/// command adds nothing to it but flags: tokens of more than one character
/// starting with `-`.
spec fn settled(p: Seq<Seq<char>>, e: EntryView) -> bool {
    begins_with(e.tokens, p) ==> e.stat.deny == 0 && (p.len() >= MIN_TOKENS || forall|j: int|
        p.len() <= j < e.tokens.len() ==> (#[trigger] e.tokens[j]).len() > 1 && e.tokens[j][0] == '-')
}

proof fn lemma_group_widens(es: Seq<EntryView>, depth: int, bound: int, p: Seq<Seq<char>>)
    requires
        within(es, depth, bound),
        shared_prefix(es, depth),
        depth >= 1,
        es.len() > 0,
        sorted_tokens(es),
        depth <= p.len(),
        es[0].tokens.take(depth) == p.take(depth),
        sum_of(es, begins(p)) >= MIN_DISTINCT,
        forall|k: int| 0 <= k < es.len() ==> settled(p, #[trigger] es[k]),
    ensures
        forall|x: EntryView|
            has(es, x) && begins_with(x.tokens, p) ==> folded(
                group_spec(es, depth, bound),
                #[trigger] x.stat.pattern,
            ),
    decreases bound - depth, 1int, 0int,
{
    let out = group_spec(es, depth, bound);
    let one = lift(stat_one());
    assert forall|k: int| 0 <= k < es.len() implies 0 <= (begins(p))(#[trigger] es[k]) <= one(es[k]) by {}
    if es.len() == 1 {
        crate::sums::lemma_sum_single(es, begins(p));
        assert(false);
    } else if widenable_spec(es, depth) && es.len() >= MIN_DISTINCT && sum_of(es, deny_of()) == 0 {
        assert(out[0] == collapsed_view(es, depth));
        assert forall|x: EntryView| has(es, x) && begins_with(x.tokens, p) implies folded(
            out,
            #[trigger] x.stat.pattern,
        ) by {
            let k = choose|k: int| 0 <= k < es.len() && es[k] == x;
            assert(out[0].members[k] == x.stat.pattern);
        }
    } else {
        if depth == p.len() {
            assert forall|k: int| 0 <= k < es.len() implies begins_with(#[trigger] es[k].tokens, p) by {
                assert(es[k].tokens.take(depth) == es[0].tokens.take(depth));
                assert(p.take(depth) =~= p);
            }
            if depth < MIN_TOKENS {
                assert forall|i: int, k: int|
                    0 <= i < es.len() && depth <= k < es[i].tokens.len() implies is_flag_spec(
                    #[trigger] es[i].tokens[k],
                ) by {
                    assert(begins_with(es[i].tokens, p));
                    assert(settled(p, es[i]));
                }
            }
            lemma_sum_le_pointwise(es, begins(p), one);
            lemma_sum_one(es);
            assert forall|k: int| 0 <= k < es.len() implies (deny_of())(#[trigger] es[k]) == 0 by {
                assert(begins_with(es[k].tokens, p));
                assert(settled(p, es[k]));
            }
            lemma_sum_zero(es, deny_of());
            assert(false);
        }
        lemma_sum_witness(es, begins(p));
        let k0 = choose|k: int| 0 <= k < es.len() && (begins(p))(#[trigger] es[k]) != 0;
        assert(depth < bound) by {
            assert(es[k0].tokens.len() >= p.len());
        }
        let w = with_len(es, depth);
        let v = without_len(es, depth);
        let gs = runs(v, token_key(depth));
        let fam = |e: EntryView|
            {
                &&& depth + 1 <= e.tokens.len() <= bound
                &&& e.stat.tool == "bash"@
                &&& tokenize_spec(e.stat.pattern) == Some(e.tokens)
                &&& e.tokens.take(depth) == p.take(depth)
                &&& settled(p, e)
            };
        let fam0 = |e: EntryView|
            {
                &&& depth <= e.tokens.len() <= bound
                &&& e.stat.tool == "bash"@
                &&& tokenize_spec(e.stat.pattern) == Some(e.tokens)
                &&& e.tokens.take(depth) == p.take(depth)
                &&& settled(p, e)
            };
        assert forall|k: int| 0 <= k < es.len() implies fam0(#[trigger] es[k]) by {}
        lemma_partition_items(es, depth, fam0);
        assert forall|k: int| 0 <= k < v.len() implies fam(#[trigger] v[k]) by {}
        lemma_runs_items(v, token_key(depth), fam);
        lemma_runs_same_key(v, token_key(depth));
        lemma_without_len_sorted(es, depth);
        lemma_runs_sorted(v, token_key(depth));
        assert forall|i: int, j: int|
            #![trigger v[i], v[j]]
            0 <= i < j < v.len() implies !chars_lt((token_key(depth))(v[j]), (token_key(depth))(v[i])) by {
            if chars_lt(v[j].tokens[depth], v[i].tokens[depth]) {
                assert(fam(v[i]) && fam(v[j]));
                lemma_tokens_lt_at(v[j].tokens, v[i].tokens, depth);
            }
        }
        lemma_runs_increasing(v, token_key(depth));
        assert forall|i: int, j: int| 0 <= i < gs.len() && 0 <= j < gs[i].len() implies {
            &&& depth + 1 <= (#[trigger] gs[i][j]).tokens.len() <= bound
            &&& gs[i][j].stat.tool == "bash"@
            &&& tokenize_spec(gs[i][j].stat.pattern) == Some(gs[i][j].tokens)
            &&& gs[i][j].tokens.take(depth) == gs[i][0].tokens.take(depth)
            &&& gs[i][j].tokens[depth] == gs[i][0].tokens[depth]
            &&& gs[i][j].tokens.take(depth) == p.take(depth)
            &&& settled(p, gs[i][j])
        } by {
            assert(fam(gs[i][j]));
            assert(fam(gs[i][0]));
        }
        assert forall|i: int, j: int|
            #![trigger gs[i], gs[j]]
            0 <= i < j < gs.len() implies chars_lt(gs[i][0].tokens[depth], gs[j][0].tokens[depth]) by {
            assert(chars_lt((token_key(depth))(gs[i][0]), (token_key(depth))(gs[j][0])));
        }
        lemma_partition_sum(es, depth, begins(p));
        assert forall|k: int| 0 <= k < w.len() implies (begins(p))(#[trigger] w[k]) == 0 by {}
        lemma_sum_zero(w, begins(p));
        lemma_runs_flatten(v, token_key(depth));
        lemma_groups_widen(gs, depth + 1, bound, p);
        assert(out == entry_leaves(w) + groups_spec(gs, depth + 1, bound));
        assert forall|x: EntryView| has(es, x) && begins_with(x.tokens, p) implies folded(
            out,
            #[trigger] x.stat.pattern,
        ) by {
            lemma_without_len_has(es, depth, x);
            lemma_folded_concat(entry_leaves(w), groups_spec(gs, depth + 1, bound), x.stat.pattern);
        }
    }
}

proof fn lemma_groups_widen(gs: Seq<Seq<EntryView>>, depth: int, bound: int, p: Seq<Seq<char>>)
    requires
        depth >= 1,
        depth <= p.len(),
        forall|i: int| 0 <= i < gs.len() ==> (#[trigger] gs[i]).len() > 0,
        forall|i: int, j: int|
            0 <= i < gs.len() && 0 <= j < gs[i].len() ==> {
                &&& depth <= (#[trigger] gs[i][j]).tokens.len() <= bound
                &&& gs[i][j].stat.tool == "bash"@
                &&& tokenize_spec(gs[i][j].stat.pattern) == Some(gs[i][j].tokens)
                &&& gs[i][j].tokens.take(depth - 1) == gs[i][0].tokens.take(depth - 1)
                &&& gs[i][j].tokens[depth - 1] == gs[i][0].tokens[depth - 1]
                &&& gs[i][j].tokens.take(depth - 1) == p.take(depth - 1)
                &&& settled(p, gs[i][j])
            },
        forall|i: int| 0 <= i < gs.len() ==> sorted_tokens(#[trigger] gs[i]),
        forall|i: int, j: int|
            #![trigger gs[i], gs[j]]
            0 <= i < j < gs.len() ==> chars_lt(gs[i][0].tokens[depth - 1], gs[j][0].tokens[depth - 1]),
        sum_of(flatten(gs), begins(p)) >= MIN_DISTINCT,
    ensures
        forall|x: EntryView|
            has(flatten(gs), x) && begins_with(x.tokens, p) ==> folded(
                groups_spec(gs, depth, bound),
                #[trigger] x.stat.pattern,
            ),
    decreases bound - depth, 2int, gs.len(),
{
    if gs.len() == 0 {
        assert(flatten(gs).len() == 0);
        assert(false);
    }
    assert(depth <= bound) by {
        assert(gs[0][0] == gs[0][0]);
    }
    let d = gs.drop_last();
    let n = gs.len() - 1;
    let last = gs.last();
    assert(last == gs[n]);
    assert(flatten(gs) == flatten(d) + last);
    lemma_sum_concat(flatten(d), last, begins(p));
    let a = groups_spec(d, depth, bound);
    let b = group_spec(last, depth, bound);
    assert(groups_spec(gs, depth, bound) == a + b);
    let key = gs[n][0].tokens[depth - 1];
    assert(p[depth - 1] == p.take(depth)[depth - 1]);
    // What begins with `p` has `p`'s token where the groups differ.
    assert forall|i: int, j: int| 0 <= i < gs.len() && 0 <= j < gs[i].len() && (begins(p))(
        #[trigger] gs[i][j],
    ) != 0 implies gs[i][0].tokens[depth - 1] == p[depth - 1] by {
        assert(gs[i][j].tokens[depth - 1] == gs[i][j].tokens.take(p.len() as int)[depth - 1]);
    }
    assert forall|k: int| 0 <= k < flatten(gs).len() implies (begins(p))(#[trigger] flatten(gs)[k]) >= 0 by {}
    if key == p[depth - 1] {
        assert forall|i: int, k: int| 0 <= i < d.len() && 0 <= k < d[i].len() implies (begins(p))(
            #[trigger] d[i][k],
        ) == 0 by {
            assert(d[i] == gs[i]);
            assert(chars_lt(gs[i][0].tokens[depth - 1], gs[n][0].tokens[depth - 1]));
            lemma_chars_lt_irreflexive(key);
        }
        lemma_flatten_zero(d, begins(p));
        assert(within(last, depth, bound) && shared_prefix(last, depth)) by {
            assert forall|k: int| 0 <= k < last.len() implies depth <= (#[trigger] last[k]).tokens.len()
                <= bound by {
                assert(last[k] == gs[n][k]);
            }
            assert forall|k: int| 0 <= k < last.len() implies {
                &&& (#[trigger] last[k]).stat.tool == "bash"@
                &&& tokenize_spec(last[k].stat.pattern) == Some(last[k].tokens)
                &&& last[k].tokens.len() >= depth
                &&& last[k].tokens.take(depth) == last[0].tokens.take(depth)
            } by {
                assert(last[k] == gs[n][k]);
                let x = last[k].tokens;
                let y = last[0].tokens;
                assert(x.take(depth) =~= x.take(depth - 1).push(x[depth - 1]));
                assert(y.take(depth) =~= y.take(depth - 1).push(y[depth - 1]));
            }
        }
        assert(last[0].tokens.take(depth) == p.take(depth)) by {
            let y = last[0].tokens;
            assert(y.take(depth) =~= y.take(depth - 1).push(y[depth - 1]));
            assert(p.take(depth) =~= p.take(depth - 1).push(p[depth - 1]));
        }
        assert forall|k: int| 0 <= k < last.len() implies settled(p, #[trigger] last[k]) by {
            assert(last[k] == gs[n][k]);
        }
        assert(sorted_tokens(gs[n]));
        lemma_group_widens(last, depth, bound, p);
        assert forall|x: EntryView| has(flatten(gs), x) && begins_with(x.tokens, p) implies folded(
            groups_spec(gs, depth, bound),
            #[trigger] x.stat.pattern,
        ) by {
            lemma_has_concat(flatten(d), last, x);
            if has(flatten(d), x) {
                assert forall|k: int| 0 <= k < flatten(d).len() implies (begins(p))(#[trigger] flatten(d)[k])
                    >= 0 by {}
                lemma_has_le_sum(flatten(d), begins(p), x);
                assert(false);
            }
            lemma_folded_concat(a, b, x.stat.pattern);
        }
    } else {
        assert forall|k: int| 0 <= k < last.len() implies (begins(p))(#[trigger] last[k]) == 0 by {
            assert(last[k] == gs[n][k]);
        }
        lemma_sum_zero(last, begins(p));
        assert forall|i: int| 0 <= i < d.len() implies (#[trigger] d[i]).len() > 0 && sorted_tokens(d[i]) by {
            assert(d[i] == gs[i]);
        }
        assert forall|i: int, j: int| 0 <= i < d.len() && 0 <= j < d[i].len() implies {
            &&& depth <= (#[trigger] d[i][j]).tokens.len() <= bound
            &&& d[i][j].stat.tool == "bash"@
            &&& tokenize_spec(d[i][j].stat.pattern) == Some(d[i][j].tokens)
            &&& d[i][j].tokens.take(depth - 1) == d[i][0].tokens.take(depth - 1)
            &&& d[i][j].tokens[depth - 1] == d[i][0].tokens[depth - 1]
            &&& d[i][j].tokens.take(depth - 1) == p.take(depth - 1)
            &&& settled(p, d[i][j])
        } by {
            assert(d[i] == gs[i]);
        }
        assert forall|i: int, j: int|
            #![trigger d[i], d[j]]
            0 <= i < j < d.len() implies chars_lt(d[i][0].tokens[depth - 1], d[j][0].tokens[depth - 1]) by {
            assert(d[i] == gs[i] && d[j] == gs[j]);
        }
        lemma_groups_widen(d, depth, bound, p);
        assert forall|x: EntryView| has(flatten(gs), x) && begins_with(x.tokens, p) implies folded(
            groups_spec(gs, depth, bound),
            #[trigger] x.stat.pattern,
        ) by {
            lemma_has_concat(flatten(d), last, x);
            if has(last, x) {
                assert forall|k: int| 0 <= k < last.len() implies (begins(p))(#[trigger] last[k]) >= 0 by {}
                lemma_has_le_sum(last, begins(p), x);
                assert(false);
            }
            lemma_folded_concat(a, b, x.stat.pattern);
        }
    }
}

} // verus!
verus! {

/// A stat in the family of `p` was never denied, and when `p` is a bare
/// command its tokens add nothing to `p` but flags.
spec fn settled_stat(p: Seq<Seq<char>>, s: StatView) -> bool {
    in_family(p, s) ==> s.deny == 0 && (p.len() >= MIN_TOKENS || forall|j: int|
        p.len() <= j < (tokenize_spec(s.pattern)->0).len() ==> (#[trigger] (tokenize_spec(
            s.pattern,
        )->0)[j]).len() > 1 && (tokenize_spec(s.pattern)->0)[j][0] == '-')
}

proof fn lemma_bash_widens(run: Seq<StatView>, p: Seq<Seq<char>>)
    requires
        run.len() > 0,
        p.len() >= 1,
        forall|k: int| 0 <= k < run.len() ==> (#[trigger] run[k]).tool == "bash"@,
        forall|k: int| 0 <= k < run.len() ==> settled_stat(p, #[trigger] run[k]),
        sum_of(run, family_part(p, stat_one())) >= MIN_DISTINCT,
    ensures
        forall|s: StatView|
            has(run, s) && in_family(p, s) ==> folded(bash_spec(run), #[trigger] s.pattern),
{
    let ev = entries_of(run);
    let sorted = sorted_stable::<Entry>(ev);
    let bound = max_tokens(sorted);
    lemma_entries_of_family(run, "bash"@);
    crate::laws::lemma_entries_observed(run, run);
    let fam = |e: EntryView|
        {
            &&& e.stat.tool == "bash"@
            &&& tokenize_spec(e.stat.pattern) == Some(e.tokens)
            &&& e.tokens.len() >= 1
            &&& settled(p, e)
        };
    assert forall|k: int| 0 <= k < ev.len() implies fam(#[trigger] ev[k]) by {
        assert(crate::laws::observed(run, ev[k].stat));
        let j = choose|j: int| 0 <= j < run.len() && #[trigger] run[j] == ev[k].stat;
        assert(settled_stat(p, run[j]));
    }
    lemma_sorted_keeps::<Entry>(ev, |e: EntryView| 0int, fam);
    lemma_max_tokens(sorted);
    lemma_sorted_is_sorted::<Entry>(ev);
    assert(sorted_tokens(sorted)) by {
        assert forall|i: int, j: int| 0 <= i < j < sorted.len() implies !tokens_lt(
            #[trigger] sorted[j].tokens,
            #[trigger] sorted[i].tokens,
        ) by {
            assert(<Entry as TotalPreorder>::precedes(sorted[i], sorted[j]));
        }
    }
    let q = |e: EntryView|
        {
            &&& 1 <= e.tokens.len() <= bound
            &&& e.stat.tool == "bash"@
            &&& tokenize_spec(e.stat.pattern) == Some(e.tokens)
            &&& settled(p, e)
        };
    assert forall|k: int| 0 <= k < sorted.len() implies q(#[trigger] sorted[k]) by {
        assert(fam(sorted[k]));
    }
    let gs = runs(sorted, token_key(0));
    lemma_runs_items(sorted, token_key(0), q);
    lemma_runs_same_key(sorted, token_key(0));
    lemma_runs_sorted(sorted, token_key(0));
    assert forall|i: int, j: int|
        #![trigger sorted[i], sorted[j]]
        0 <= i < j < sorted.len() implies !chars_lt(
        (token_key(0))(sorted[j]),
        (token_key(0))(sorted[i]),
    ) by {
        if chars_lt(sorted[j].tokens[0], sorted[i].tokens[0]) {
            assert(q(sorted[i]) && q(sorted[j]));
            assert(sorted[j].tokens.take(0) =~= sorted[i].tokens.take(0));
            lemma_tokens_lt_at(sorted[j].tokens, sorted[i].tokens, 0);
        }
    }
    lemma_runs_increasing(sorted, token_key(0));
    assert forall|i: int, j: int| 0 <= i < gs.len() && 0 <= j < gs[i].len() implies {
        &&& 1 <= (#[trigger] gs[i][j]).tokens.len() <= bound
        &&& gs[i][j].stat.tool == "bash"@
        &&& tokenize_spec(gs[i][j].stat.pattern) == Some(gs[i][j].tokens)
        &&& gs[i][j].tokens.take(1 - 1) == gs[i][0].tokens.take(1 - 1)
        &&& gs[i][j].tokens[1 - 1] == gs[i][0].tokens[1 - 1]
        &&& gs[i][j].tokens.take(1 - 1) == p.take(1 - 1)
        &&& settled(p, gs[i][j])
    } by {
        assert(q(gs[i][j]));
        assert(gs[i][j].tokens.take(0) =~= gs[i][0].tokens.take(0));
        assert(gs[i][j].tokens.take(0) =~= p.take(0));
    }
    assert forall|i: int, j: int|
        #![trigger gs[i], gs[j]]
        0 <= i < j < gs.len() implies chars_lt(gs[i][0].tokens[1 - 1], gs[j][0].tokens[1 - 1]) by {
        assert(chars_lt((token_key(0))(gs[i][0]), (token_key(0))(gs[j][0])));
    }
    lemma_runs_flatten(sorted, token_key(0));
    lemma_sorted_keeps::<Entry>(ev, begins(p), |e: EntryView| true);
    lemma_entries_family(run, p, stat_one());
    lemma_groups_widen(gs, 1, bound, p);
    let l = stat_leaves(untokenized(run));
    assert(bash_spec(run) == l + groups_spec(gs, 1, bound));
    assert forall|s: StatView| has(run, s) && in_family(p, s) implies folded(
        bash_spec(run),
        #[trigger] s.pattern,
    ) by {
        let t = tokenize_spec(s.pattern)->0;
        assert(t.len() >= 1);
        lemma_entries_has(run, s);
        let e = EntryView { tokens: t, stat: s };
        lemma_sorted_has::<Entry>(ev, e);
        assert(begins_with(e.tokens, p));
        lemma_folded_concat(l, groups_spec(gs, 1, bound), s.pattern);
    }
}

proof fn lemma_tools_widen(rs: Seq<Seq<StatView>>, p: Seq<Seq<char>>)
    requires
        p.len() >= 1,
        forall|i: int| 0 <= i < rs.len() ==> (#[trigger] rs[i]).len() > 0,
        forall|i: int, j: int|
            0 <= i < rs.len() && 0 <= j < rs[i].len() ==> (#[trigger] rs[i][j]).tool == rs[i][0].tool
                && settled_stat(p, rs[i][j]),
        forall|i: int, j: int|
            #![trigger rs[i], rs[j]]
            0 <= i < j < rs.len() ==> chars_lt(rs[i][0].tool, rs[j][0].tool),
        sum_of(flatten(rs), family_part(p, stat_one())) >= MIN_DISTINCT,
    ensures
        forall|s: StatView|
            has(flatten(rs), s) && in_family(p, s) ==> folded(tools_spec(rs), #[trigger] s.pattern),
    decreases rs.len(),
{
    if rs.len() == 0 {
        assert(false);
    }
    let d = rs.drop_last();
    let n = rs.len() - 1;
    let last = rs.last();
    assert(last == rs[n]);
    assert(flatten(rs) == flatten(d) + last);
    let f = family_part(p, stat_one());
    lemma_sum_concat(flatten(d), last, f);
    assert(tools_spec(rs) == tools_spec(d) + tool_spec(last));
    assert forall|k: int| 0 <= k < flatten(rs).len() implies f(#[trigger] flatten(rs)[k]) >= 0 by {}
    assert forall|i: int| 0 <= i < d.len() implies (#[trigger] d[i]).len() > 0 by {
        assert(d[i] == rs[i]);
    }
    assert forall|i: int, j: int| 0 <= i < d.len() && 0 <= j < d[i].len() implies (
    #[trigger] d[i][j]).tool == d[i][0].tool && settled_stat(p, d[i][j]) by {
        assert(d[i] == rs[i]);
    }
    assert forall|i: int, j: int|
        #![trigger d[i], d[j]]
        0 <= i < j < d.len() implies chars_lt(d[i][0].tool, d[j][0].tool) by {
        assert(d[i] == rs[i] && d[j] == rs[j]);
    }
    if last[0].tool == "bash"@ {
        assert forall|i: int, k: int| 0 <= i < d.len() && 0 <= k < d[i].len() implies f(
            #[trigger] d[i][k],
        ) == 0 by {
            assert(d[i] == rs[i]);
            assert(chars_lt(rs[i][0].tool, rs[n][0].tool));
            lemma_chars_lt_irreflexive(rs[n][0].tool);
        }
        lemma_flatten_zero(d, f);
        assert forall|k: int| 0 <= k < last.len() implies (#[trigger] last[k]).tool == "bash"@
            && settled_stat(p, last[k]) by {
            assert(last[k] == rs[n][k]);
        }
        lemma_bash_widens(last, p);
        assert forall|s: StatView| has(flatten(rs), s) && in_family(p, s) implies folded(
            tools_spec(rs),
            #[trigger] s.pattern,
        ) by {
            lemma_has_concat(flatten(d), last, s);
            if has(flatten(d), s) {
                assert forall|k: int| 0 <= k < flatten(d).len() implies f(#[trigger] flatten(d)[k]) >= 0 by {}
                lemma_has_le_sum(flatten(d), f, s);
                assert(false);
            }
            lemma_folded_concat(tools_spec(d), tool_spec(last), s.pattern);
        }
    } else {
        assert forall|k: int| 0 <= k < last.len() implies f(#[trigger] last[k]) == 0 by {
            assert(last[k] == rs[n][k]);
        }
        lemma_sum_zero(last, f);
        lemma_tools_widen(d, p);
        assert forall|s: StatView| has(flatten(rs), s) && in_family(p, s) implies folded(
            tools_spec(rs),
            #[trigger] s.pattern,
        ) by {
            lemma_has_concat(flatten(d), last, s);
            if has(last, s) {
                assert forall|k: int| 0 <= k < last.len() implies f(#[trigger] last[k]) >= 0 by {}
                lemma_has_le_sum(last, f, s);
                assert(false);
            }
            lemma_folded_concat(tools_spec(d), tool_spec(last), s.pattern);
        }
    }
}

/// Widening is complete: when the bash patterns whose tokens begin with `p`
/// are at least [`MIN_DISTINCT`], none of them was denied, and `p` has at
/// least [`MIN_TOKENS`] tokens or they add nothing to `p` but flags (tokens
/// of more than one character starting with `-`), then every one of them is
/// folded into a widened rule, at `p` or at a shorter prefix of it. A denial
/// further up the family does not stop it.
pub proof fn undenied_families_are_widened(stats: Seq<StatView>, p: Seq<Seq<char>>)
    requires
        p.len() >= 1,
        sum_of(stats, family_part(p, stat_one())) >= MIN_DISTINCT,
        forall|k: int| 0 <= k < stats.len() && in_family(p, #[trigger] stats[k]) ==> stats[k].deny == 0,
        p.len() < MIN_TOKENS ==> forall|k: int, j: int|
            #![trigger stats[k], (tokenize_spec(stats[k].pattern)->0)[j]]
            0 <= k < stats.len() && in_family(p, stats[k]) && p.len() <= j < (tokenize_spec(
                stats[k].pattern,
            )->0).len() ==> (tokenize_spec(stats[k].pattern)->0)[j].len() > 1 && (tokenize_spec(
                stats[k].pattern,
            )->0)[j][0] == '-',
    ensures
        forall|k: int|
            0 <= k < stats.len() && in_family(p, #[trigger] stats[k]) ==> folded(
                collapse_spec(stats),
                stats[k].pattern,
            ),
{
    let sorted = sorted_stable::<PermissionStat>(stats);
    let rs = runs(sorted, tool_key());
    let ok = |s: StatView| settled_stat(p, s);
    assert forall|k: int| 0 <= k < stats.len() implies ok(#[trigger] stats[k]) by {
        if in_family(p, stats[k]) && p.len() < MIN_TOKENS {
            let t = tokenize_spec(stats[k].pattern)->0;
            assert forall|j: int| p.len() <= j < t.len() implies (#[trigger] t[j]).len() > 1 && t[j][0]
                == '-' by {}
        }
    }
    lemma_sorted_keeps::<PermissionStat>(stats, family_part(p, stat_one()), ok);
    lemma_runs_same_key(sorted, tool_key());
    lemma_runs_items(sorted, tool_key(), ok);
    lemma_sorted_is_sorted::<PermissionStat>(stats);
    assert forall|i: int, j: int|
        #![trigger sorted[i], sorted[j]]
        0 <= i < j < sorted.len() implies !chars_lt((tool_key())(sorted[j]), (tool_key())(sorted[i])) by {
        assert(<PermissionStat as TotalPreorder>::precedes(sorted[i], sorted[j]));
    }
    lemma_runs_increasing(sorted, tool_key());
    assert forall|i: int, j: int|
        #![trigger rs[i], rs[j]]
        0 <= i < j < rs.len() implies chars_lt(rs[i][0].tool, rs[j][0].tool) by {
        assert(chars_lt((tool_key())(rs[i][0]), (tool_key())(rs[j][0])));
    }
    assert forall|i: int, j: int| 0 <= i < rs.len() && 0 <= j < rs[i].len() implies (
    #[trigger] rs[i][j]).tool == rs[i][0].tool && settled_stat(p, rs[i][j]) by {
        assert((tool_key())(rs[i][j]) == (tool_key())(rs[i][0]));
        assert(ok(rs[i][j]));
    }
    lemma_runs_flatten(sorted, tool_key());
    lemma_tools_widen(rs, p);
    assert forall|k: int| 0 <= k < stats.len() && in_family(p, #[trigger] stats[k]) implies folded(
        collapse_spec(stats),
        stats[k].pattern,
    ) by {
        assert(has(stats, stats[k]));
        lemma_sorted_has::<PermissionStat>(stats, stats[k]);
    }
}

} // verus!
