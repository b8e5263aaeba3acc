//! Folding observed permission patterns into the coarsest rule the evidence
//! supports.
//!
//! Recorded patterns are too specific to ever gather evidence on their own:
//! `git status --short` and `git status --porcelain` are counted apart.
//! Collapsing lets that evidence add up. A widened rule is always a prefix of
//! the command's tokens followed by `*`, the shape a permission config can
//! express, so the search walks a prefix trie over the tokens.
//!
//! Only `bash` patterns are collapsed; every other tool's patterns pass
//! through as they were observed.
use vstd::prelude::*;

use crate::query::{PermissionStat, StatView};
use crate::sums::sum_of;
use crate::sort::{lemma_take_front, lemma_view_seq_push, sort_stable, sorted_stable, view_seq, TotalPreorder};
use crate::text::{
    chars_lt, chars_of, join, join_strings, lemma_chars_lt_asymmetric,
    lemma_chars_lt_transitive, lemma_chars_lt_trichotomy, lemma_views_push, split_whitespace, str_eq, str_lt, views,
    words,
};

verus! {

/// Never widen to a bare command: `git *` would cover `git push --force`.
pub const MIN_TOKENS: usize = 2;

/// How many observed patterns a node needs before it is widened. Volume
/// justifies confidence; breadth justifies generalization.
pub const MIN_DISTINCT: usize = 3;

/// A rule, possibly widened, with the counts of everything folded into it.
#[derive(Debug, Clone, PartialEq)]
pub struct CollapsedStat {
    pub tool: String,
    /// The rule, possibly widened: `git status *`.
    pub pattern: String,
    pub allow_once: i64,
    pub allow_always: i64,
    pub deny: i64,
    /// The observed patterns folded into `pattern`: the evidence the widening
    /// rests on. A single member means nothing was collapsed.
    pub members: Vec<String>,
}

/// The mathematical content of a [`CollapsedStat`].
pub struct CollapsedView {
    pub tool: Seq<char>,
    pub pattern: Seq<char>,
    pub allow_once: int,
    pub allow_always: int,
    pub deny: int,
    pub members: Seq<Seq<char>>,
}

impl View for CollapsedStat {
    type V = CollapsedView;

    open spec fn view(&self) -> CollapsedView {
        CollapsedView {
            tool: self.tool@,
            pattern: self.pattern@,
            allow_once: self.allow_once as int,
            allow_always: self.allow_always as int,
            deny: self.deny as int,
            members: views(self.members@),
        }
    }
}

/// A rule as collapsing builds it, with counts wide enough for any sum of
/// `i64` counts over a `Vec`.
pub struct Rule {
    pub tool: String,
    pub pattern: String,
    pub allow_once: i128,
    pub allow_always: i128,
    pub deny: i128,
    pub members: Vec<String>,
}

impl View for Rule {
    type V = CollapsedView;

    open spec fn view(&self) -> CollapsedView {
        CollapsedView {
            tool: self.tool@,
            pattern: self.pattern@,
            allow_once: self.allow_once as int,
            allow_always: self.allow_always as int,
            deny: self.deny as int,
            members: views(self.members@),
        }
    }
}

/// Each count of the rule fits in `i64`.
pub open spec fn counts_fit(c: CollapsedView) -> bool {
    &&& i64::MIN <= c.allow_once <= i64::MAX
    &&& i64::MIN <= c.allow_always <= i64::MAX
    &&& i64::MIN <= c.deny <= i64::MAX
}

/// Every count of every rule collapsing `stats` gives fits in `i64`.
pub open spec fn rules_fit(stats: Seq<StatView>) -> bool {
    forall|i: int| 0 <= i < collapse_spec(stats).len() ==> counts_fit(#[trigger] collapse_spec(stats)[i])
}

impl Rule {
    /// The rule with its counts in `i64`.
    pub fn narrow(self) -> (r: CollapsedStat)
        requires
            counts_fit(self@),
        ensures
            r@ == self@,
    {
        CollapsedStat {
            tool: self.tool,
            pattern: self.pattern,
            allow_once: self.allow_once as i64,
            allow_always: self.allow_always as i64,
            deny: self.deny as i64,
            members: self.members,
        }
    }
}

impl CollapsedStat {
    pub fn is_collapsed(&self) -> (r: bool)
        ensures
            r == (self.members@.len() > 1),
    {
        self.members.len() > 1
    }

    /// Prompts this rule would have answered: the friction it saves.
    pub fn total_events(&self) -> (r: i64)
        requires
            i64::MIN <= self.allow_once + self.allow_always <= i64::MAX,
            i64::MIN <= self.allow_once + self.allow_always + self.deny <= i64::MAX,
        ensures
            r == self.allow_once + self.allow_always + self.deny,
    {
        self.allow_once + self.allow_always + self.deny
    }
}

/// An observed pattern split into its tokens, with its counts.
pub struct Entry {
    pub tokens: Vec<String>,
    pub stat: PermissionStat,
}

pub struct EntryView {
    pub tokens: Seq<Seq<char>>,
    pub stat: StatView,
}

impl View for Entry {
    type V = EntryView;

    open spec fn view(&self) -> EntryView {
        EntryView { tokens: views(self.tokens@), stat: self.stat@ }
    }
}

/* The order patterns and tools are sorted in. */

/// Strict lexicographic order on token sequences, the order `Vec<&str>` has.
pub open spec fn tokens_lt(a: Seq<Seq<char>>, b: Seq<Seq<char>>) -> bool
    decreases a.len(),
{
    if a.len() == 0 {
        b.len() > 0
    } else if b.len() == 0 {
        false
    } else if a[0] != b[0] {
        chars_lt(a[0], b[0])
    } else {
        tokens_lt(a.drop_first(), b.drop_first())
    }
}

proof fn lemma_tokens_lt_asymmetric(a: Seq<Seq<char>>, b: Seq<Seq<char>>)
    ensures
        !(tokens_lt(a, b) && tokens_lt(b, a)),
    decreases a.len(),
{
    if a.len() > 0 && b.len() > 0 {
        if a[0] == b[0] {
            lemma_tokens_lt_asymmetric(a.drop_first(), b.drop_first());
        } else {
            lemma_chars_lt_asymmetric(a[0], b[0]);
        }
    }
}

proof fn lemma_tokens_lt_transitive(a: Seq<Seq<char>>, b: Seq<Seq<char>>, c: Seq<Seq<char>>)
    requires
        tokens_lt(a, b),
        tokens_lt(b, c),
    ensures
        tokens_lt(a, c),
    decreases a.len(),
{
    if a.len() > 0 && b.len() > 0 && c.len() > 0 {
        if a[0] == b[0] && b[0] == c[0] {
            lemma_tokens_lt_transitive(a.drop_first(), b.drop_first(), c.drop_first());
        } else if a[0] == b[0] {
        } else if b[0] == c[0] {
        } else {
            lemma_chars_lt_transitive(a[0], b[0], c[0]);
            if a[0] == c[0] {
                lemma_chars_lt_asymmetric(a[0], b[0]);
            }
        }
    }
}

proof fn lemma_tokens_lt_trichotomy(a: Seq<Seq<char>>, b: Seq<Seq<char>>)
    ensures
        tokens_lt(a, b) || tokens_lt(b, a) || a == b,
    decreases a.len(),
{
    if a.len() == 0 && b.len() == 0 {
        assert(a =~= b);
    } else if a.len() > 0 && b.len() > 0 {
        if a[0] == b[0] {
            lemma_tokens_lt_trichotomy(a.drop_first(), b.drop_first());
            if a.drop_first() == b.drop_first() {
                assert(a =~= seq![a[0]] + a.drop_first());
                assert(b =~= seq![b[0]] + b.drop_first());
            }
        } else {
            lemma_chars_lt_trichotomy(a[0], b[0]);
        }
    }
}

impl TotalPreorder for PermissionStat {
    open spec fn precedes(a: StatView, b: StatView) -> bool {
        !chars_lt(b.tool, a.tool)
    }

    proof fn precedes_total(a: StatView, b: StatView) {
        lemma_chars_lt_asymmetric(a.tool, b.tool);
    }

    proof fn precedes_transitive(a: StatView, b: StatView, c: StatView) {
        lemma_chars_lt_trichotomy(a.tool, b.tool);
        lemma_chars_lt_trichotomy(b.tool, c.tool);
        if chars_lt(c.tool, a.tool) {
            if chars_lt(a.tool, b.tool) {
                lemma_chars_lt_transitive(c.tool, a.tool, b.tool);
            } else if a.tool == b.tool {
            }
        }
    }

    fn test_precedes(&self, other: &Self) -> (r: bool) {
        !str_lt(other.tool.as_str(), self.tool.as_str())
    }
}

/// Whether `a` sorts before `b` as token sequences.
fn tokens_less(a: &Vec<String>, b: &Vec<String>) -> (r: bool)
    ensures
        r == tokens_lt(views(a@), views(b@)),
{
    let mut i: usize = 0;
    assert(views(a@).skip(0) == views(a@) && views(b@).skip(0) == views(b@));
    while i < a.len() && i < b.len()
        invariant
            i <= a@.len(),
            i <= b@.len(),
            tokens_lt(views(a@), views(b@)) == tokens_lt(
                views(a@).skip(i as int),
                views(b@).skip(i as int),
            ),
        decreases a@.len() - i,
    {
        let ghost (sa, sb) = (views(a@).skip(i as int), views(b@).skip(i as int));
        assert(sa[0] == a@[i as int]@ && sb[0] == b@[i as int]@);
        if a[i] != b[i] {
            return str_lt(a[i].as_str(), b[i].as_str());
        }
        assert(sa.drop_first() == views(a@).skip(i + 1));
        assert(sb.drop_first() == views(b@).skip(i + 1));
        i = i + 1;
    }
    i < b.len()
}

impl TotalPreorder for Entry {
    open spec fn precedes(a: EntryView, b: EntryView) -> bool {
        !tokens_lt(b.tokens, a.tokens)
    }

    proof fn precedes_total(a: EntryView, b: EntryView) {
        lemma_tokens_lt_asymmetric(a.tokens, b.tokens);
    }

    proof fn precedes_transitive(a: EntryView, b: EntryView, c: EntryView) {
        lemma_tokens_lt_trichotomy(a.tokens, b.tokens);
        lemma_tokens_lt_trichotomy(b.tokens, c.tokens);
        if tokens_lt(c.tokens, a.tokens) {
            if tokens_lt(a.tokens, b.tokens) {
                lemma_tokens_lt_transitive(c.tokens, a.tokens, b.tokens);
            }
        }
    }

    fn test_precedes(&self, other: &Self) -> (r: bool) {
        !tokens_less(&other.tokens, &self.tokens)
    }
}

} // verus!
verus! {

/* What collapsing computes. */

/// Characters that make a pattern shell syntax: a `*` after a redirect or a
/// substitution grants far more than it looks like it does.
pub open spec fn shell_meta(c: char) -> bool {
    c == '>' || c == '<' || c == '&' || c == '|' || c == ';' || c == '$' || c == '`' || c == '('
        || c == ')'
}

pub open spec fn shell_syntax(s: Seq<char>) -> bool {
    exists|i: int| 0 <= i < s.len() && shell_meta(#[trigger] s[i])
}

/// `ws` without its trailing `*` tokens.
pub open spec fn strip_stars(ws: Seq<Seq<char>>) -> Seq<Seq<char>>
    decreases ws.len(),
{
    if ws.len() > 0 && ws.last() == "*"@ {
        strip_stars(ws.drop_last())
    } else {
        ws
    }
}

/// The tokens of a pattern, without the trailing `*` the agent already adds;
/// nothing for a pattern with shell syntax.
pub open spec fn tokenize_spec(pattern: Seq<char>) -> Option<Seq<Seq<char>>> {
    if shell_syntax(pattern) {
        None
    } else {
        Some(strip_stars(words(pattern)))
    }
}

/// Whether a pattern has tokens to build a prefix from.
pub open spec fn tokenizable(pattern: Seq<char>) -> bool {
    tokenize_spec(pattern) matches Some(t) && t.len() > 0
}

pub open spec fn is_flag_spec(t: Seq<char>) -> bool {
    t.len() > 1 && t[0] == '-'
}

/// Whether the prefix of `depth` tokens shared by `es` may be widened: past
/// the first token always; at the first token only if every command differs
/// from the prefix by flags alone.
pub open spec fn widenable_spec(es: Seq<EntryView>, depth: int) -> bool {
    depth >= MIN_TOKENS || forall|i: int, k: int|
        0 <= i < es.len() && depth <= k < es[i].tokens.len() ==> is_flag_spec(
            #[trigger] es[i].tokens[k],
        )
}

pub open spec fn once_of() -> spec_fn(EntryView) -> int {
    |e: EntryView| e.stat.allow_once as int
}

pub open spec fn always_of() -> spec_fn(EntryView) -> int {
    |e: EntryView| e.stat.allow_always as int
}

pub open spec fn deny_of() -> spec_fn(EntryView) -> int {
    |e: EntryView| e.stat.deny as int
}

/// A stat that stands on its own.
pub open spec fn leaf_view(s: StatView) -> CollapsedView {
    CollapsedView {
        tool: s.tool,
        pattern: s.pattern,
        allow_once: s.allow_once as int,
        allow_always: s.allow_always as int,
        deny: s.deny as int,
        members: seq![s.pattern],
    }
}

pub open spec fn entry_leaves(es: Seq<EntryView>) -> Seq<CollapsedView> {
    es.map_values(|e: EntryView| leaf_view(e.stat))
}

pub open spec fn stat_leaves(s: Seq<StatView>) -> Seq<CollapsedView> {
    s.map_values(|x: StatView| leaf_view(x))
}

pub open spec fn member_patterns(es: Seq<EntryView>) -> Seq<Seq<char>> {
    es.map_values(|e: EntryView| e.stat.pattern)
}

/// The rule `es` are folded into: their shared prefix of `depth` tokens and
/// `*`, with their counts summed and their patterns as evidence.
pub open spec fn collapsed_view(es: Seq<EntryView>, depth: int) -> CollapsedView {
    CollapsedView {
        tool: es[0].stat.tool,
        pattern: join(es[0].tokens.take(depth), " "@) + " *"@,
        allow_once: sum_of(es, once_of()),
        allow_always: sum_of(es, always_of()),
        deny: sum_of(es, deny_of()),
        members: member_patterns(es),
    }
}

/// The entries of `es` with exactly `depth` tokens: the prefix as typed.
pub open spec fn with_len(es: Seq<EntryView>, depth: int) -> Seq<EntryView>
    decreases es.len(),
{
    if es.len() == 0 {
        es
    } else if es.last().tokens.len() == depth {
        with_len(es.drop_last(), depth).push(es.last())
    } else {
        with_len(es.drop_last(), depth)
    }
}

/// The entries of `es` with more or fewer than `depth` tokens.
pub open spec fn without_len(es: Seq<EntryView>, depth: int) -> Seq<EntryView>
    decreases es.len(),
{
    if es.len() == 0 {
        es
    } else if es.last().tokens.len() != depth {
        without_len(es.drop_last(), depth).push(es.last())
    } else {
        without_len(es.drop_last(), depth)
    }
}

/// Splits `s` into its maximal runs of consecutive items with the same key.
pub open spec fn runs<A>(s: Seq<A>, key: spec_fn(A) -> Seq<char>) -> Seq<Seq<A>>
    decreases s.len(),
{
    if s.len() == 0 {
        seq![]
    } else {
        let r = runs(s.drop_last(), key);
        if r.len() > 0 && key(r.last()[0]) == key(s.last()) {
            r.update(r.len() - 1, r.last().push(s.last()))
        } else {
            r.push(seq![s.last()])
        }
    }
}

pub open spec fn tool_key() -> spec_fn(StatView) -> Seq<char> {
    |s: StatView| s.tool
}

pub open spec fn token_key(index: int) -> spec_fn(EntryView) -> Seq<char> {
    |e: EntryView| e.tokens[index]
}

/// What one group of entries sharing their first `depth` tokens becomes:
/// one leaf if alone; one widened rule if the prefix may be widened, at least
/// [`MIN_DISTINCT`] patterns support it and none was ever denied; otherwise
/// the prefix as typed stays as observed and the rest descend a token.
/// `bound` is at least the number of tokens of every entry.
pub open spec fn group_spec(es: Seq<EntryView>, depth: int, bound: int) -> Seq<CollapsedView>
    decreases bound - depth, 1int, 0int,
{
    if es.len() == 1 {
        seq![leaf_view(es[0].stat)]
    } else if widenable_spec(es, depth) && es.len() >= MIN_DISTINCT && sum_of(es, deny_of())
        == 0 {
        seq![collapsed_view(es, depth)]
    } else if depth < bound {
        entry_leaves(with_len(es, depth)) + groups_spec(
            runs(without_len(es, depth), token_key(depth)),
            depth + 1,
            bound,
        )
    } else {
        entry_leaves(with_len(es, depth))
    }
}

/// The groups `gs` processed in order.
pub open spec fn groups_spec(gs: Seq<Seq<EntryView>>, depth: int, bound: int) -> Seq<
    CollapsedView,
>
    decreases bound - depth, 2int, gs.len(),
{
    if gs.len() == 0 || depth > bound {
        seq![]
    } else {
        groups_spec(gs.drop_last(), depth, bound) + group_spec(gs.last(), depth, bound)
    }
}

/// The most tokens any entry has.
pub open spec fn max_tokens(es: Seq<EntryView>) -> int
    decreases es.len(),
{
    if es.len() == 0 {
        0
    } else {
        let m = max_tokens(es.drop_last());
        if es.last().tokens.len() > m {
            es.last().tokens.len() as int
        } else {
            m
        }
    }
}

/// The patterns of `run` that can be tokenized, as entries, in order.
pub open spec fn entries_of(run: Seq<StatView>) -> Seq<EntryView>
    decreases run.len(),
{
    if run.len() == 0 {
        seq![]
    } else if tokenizable(run.last().pattern) {
        entries_of(run.drop_last()).push(
            EntryView { tokens: tokenize_spec(run.last().pattern)->0, stat: run.last() },
        )
    } else {
        entries_of(run.drop_last())
    }
}

/// The patterns of `run` that cannot be tokenized, each standing alone.
pub open spec fn untokenized(run: Seq<StatView>) -> Seq<StatView>
    decreases run.len(),
{
    if run.len() == 0 {
        seq![]
    } else if !tokenizable(run.last().pattern) {
        untokenized(run.drop_last()).push(run.last())
    } else {
        untokenized(run.drop_last())
    }
}

/// The bash patterns of `run`: those that cannot be tokenized stand alone,
/// then the rest, sorted by tokens, are grouped by first token and folded.
pub open spec fn bash_spec(run: Seq<StatView>) -> Seq<CollapsedView> {
    let sorted = sorted_stable::<Entry>(entries_of(run));
    stat_leaves(untokenized(run)) + groups_spec(runs(sorted, token_key(0)), 1, max_tokens(sorted))
}

/// What the patterns of one tool become.
pub open spec fn tool_spec(run: Seq<StatView>) -> Seq<CollapsedView> {
    if run.len() > 0 && run[0].tool == "bash"@ {
        bash_spec(run)
    } else {
        stat_leaves(run)
    }
}

pub open spec fn tools_spec(rs: Seq<Seq<StatView>>) -> Seq<CollapsedView>
    decreases rs.len(),
{
    if rs.len() == 0 {
        seq![]
    } else {
        tools_spec(rs.drop_last()) + tool_spec(rs.last())
    }
}

/// The result of collapsing `stats`: tool by tool in ascending order of
/// tool name.
pub open spec fn collapse_spec(stats: Seq<StatView>) -> Seq<CollapsedView> {
    tools_spec(runs(sorted_stable::<PermissionStat>(stats), tool_key()))
}

} // verus!
verus! {

/* Executable collapsing. */

fn is_shell_meta(c: char) -> (r: bool)
    ensures
        r == shell_meta(c),
{
    c == '>' || c == '<' || c == '&' || c == '|' || c == ';' || c == '$' || c == '`' || c == '('
        || c == ')'
}

fn has_shell_meta(s: &str) -> (r: bool)
    ensures
        r == shell_syntax(s@),
{
    let chars = chars_of(s);
    let mut i: usize = 0;
    while i < chars.len()
        invariant
            i <= chars@.len(),
            chars@ == s@,
            forall|k: int| 0 <= k < i ==> !shell_meta(#[trigger] chars@[k]),
        decreases chars@.len() - i,
    {
        if is_shell_meta(chars[i]) {
            return true;
        }
        i = i + 1;
    }
    false
}

/// Splits a pattern into its tokens, dropping the trailing `*` the agent
/// already added. Nothing for anything carrying shell syntax.
fn tokenize(pattern: &str) -> (r: Option<Vec<String>>)
    ensures
        match tokenize_spec(pattern@) {
            None => r is None,
            Some(t) => r matches Some(v) && views(v@) == t,
        },
{
    if has_shell_meta(pattern) {
        return None;
    }
    let mut tokens = split_whitespace(pattern);
    while tokens.len() > 0 && str_eq(tokens[tokens.len() - 1].as_str(), "*")
        invariant
            strip_stars(words(pattern@)) == strip_stars(views(tokens@)),
        decreases tokens@.len(),
    {
        let ghost before = views(tokens@);
        tokens.pop();
        assert(views(tokens@) =~= before.drop_last());
    }
    Some(tokens)
}

fn is_flag(token: &str) -> (r: bool)
    ensures
        r == is_flag_spec(token@),
{
    let chars = chars_of(token);
    chars.len() > 1 && chars[0] == '-'
}

/// A stat that stands on its own.
fn leaf(stat: &PermissionStat) -> (r: Rule)
    ensures
        r@ == leaf_view(stat@),
{
    let mut members = Vec::new();
    members.push(stat.pattern.clone());
    let r = Rule {
        tool: stat.tool.clone(),
        pattern: stat.pattern.clone(),
        allow_once: stat.allow_once as i128,
        allow_always: stat.allow_always as i128,
        deny: stat.deny as i128,
        members,
    };
    assert(views(r.members@) =~= seq![stat.pattern@]);
    r
}

/// Whether the shared prefix of `depth` tokens may be widened into a rule.
fn widenable(entries: &Vec<Entry>, depth: usize) -> (r: bool)
    requires
        forall|i: int| 0 <= i < entries@.len() ==> depth <= (#[trigger] entries@[i]).tokens@.len(),
    ensures
        r == widenable_spec(view_seq(entries@), depth as int),
{
    if depth >= MIN_TOKENS {
        return true;
    }
    let ghost es = view_seq(entries@);
    let mut i: usize = 0;
    while i < entries.len()
        invariant
            i <= entries@.len(),
            depth < MIN_TOKENS,
            es == view_seq(entries@),
            forall|i: int| 0 <= i < entries@.len() ==> depth <= (#[trigger] entries@[i]).tokens@.len(),
            forall|a: int, k: int|
                0 <= a < i && depth <= k < es[a].tokens.len() ==> is_flag_spec(
                    #[trigger] es[a].tokens[k],
                ),
        decreases entries@.len() - i,
    {
        let tokens = &entries[i].tokens;
        assert(es[i as int].tokens == views(tokens@));
        let mut k: usize = depth;
        while k < tokens.len()
            invariant
                depth <= k <= tokens@.len(),
                depth < MIN_TOKENS,
                i < entries@.len(),
                es == view_seq(entries@),
                es[i as int].tokens == views(tokens@),
                forall|b: int| depth <= b < k ==> is_flag_spec(#[trigger] es[i as int].tokens[b]),
            decreases tokens@.len() - k,
        {
            if !is_flag(tokens[k].as_str()) {
                assert(es[i as int].tokens[k as int] == tokens@[k as int]@);
                assert(!is_flag_spec(es[i as int].tokens[k as int]));
                return false;
            }
            k = k + 1;
        }
        i = i + 1;
    }
    true
}

} // verus!
verus! {

/// Sums the counts of `entries`. Each partial sum of `k` counts lies within
/// `k` times the largest `i64` magnitude, so `i128` holds it.
fn sum_counts(entries: &Vec<Entry>) -> (r: (i128, i128, i128))
    ensures
        r.0 == sum_of(view_seq(entries@), once_of()),
        r.1 == sum_of(view_seq(entries@), always_of()),
        r.2 == sum_of(view_seq(entries@), deny_of()),
{
    let ghost es = view_seq(entries@);
    let mut once: i128 = 0;
    let mut always: i128 = 0;
    let mut deny: i128 = 0;
    let mut i: usize = 0;
    while i < entries.len()
        invariant
            i <= entries@.len(),
            es == view_seq(entries@),
            once == sum_of(es.take(i as int), once_of()),
            always == sum_of(es.take(i as int), always_of()),
            deny == sum_of(es.take(i as int), deny_of()),
            -(i * 0x8000_0000_0000_0000) <= once <= i * 0x8000_0000_0000_0000,
            -(i * 0x8000_0000_0000_0000) <= always <= i * 0x8000_0000_0000_0000,
            -(i * 0x8000_0000_0000_0000) <= deny <= i * 0x8000_0000_0000_0000,
        decreases entries@.len() - i,
    {
        proof {
            assert(es.take(i + 1).drop_last() == es.take(i as int));
            assert(es.take(i + 1).last() == entries@[i as int]@);
            assert((i + 1) * 0x8000_0000_0000_0000 <= i128::MAX) by (nonlinear_arith)
                requires
                    i + 1 <= usize::MAX,
                    usize::MAX <= 0xffff_ffff_ffff_ffff,
            ;
        }
        once = once + entries[i].stat.allow_once as i128;
        always = always + entries[i].stat.allow_always as i128;
        deny = deny + entries[i].stat.deny as i128;
        i = i + 1;
    }
    assert(es.take(i as int) == es);
    (once, always, deny)
}

/// The rule `entries` are folded into.
fn collapsed(entries: &Vec<Entry>, depth: usize) -> (r: Rule)
    requires
        entries@.len() > 0,
        depth <= entries@[0].tokens@.len(),
    ensures
        r@ == collapsed_view(view_seq(entries@), depth as int),
{
    let ghost es = view_seq(entries@);
    let first = &entries[0].tokens;
    let mut prefix: Vec<String> = Vec::new();
    let mut k: usize = 0;
    while k < depth
        invariant
            k <= depth <= first@.len(),
            views(prefix@) == views(first@).take(k as int),
        decreases depth - k,
    {
        let t = first[k].clone();
        let ghost before = prefix@;
        prefix.push(t);
        proof {
            lemma_views_push(before, t);
            assert(views(first@).take(k + 1) =~= views(first@).take(k as int).push(first@[k as int]@));
        }
        k = k + 1;
    }
    let mut pattern = join_strings(&prefix, " ");
    pattern.append(" *");
    let (once, always, deny) = sum_counts(entries);
    let mut members: Vec<String> = Vec::new();
    let mut i: usize = 0;
    while i < entries.len()
        invariant
            i <= entries@.len(),
            es == view_seq(entries@),
            views(members@) == member_patterns(es).take(i as int),
        decreases entries@.len() - i,
    {
        let p = entries[i].stat.pattern.clone();
        let ghost before = members@;
        members.push(p);
        proof {
            lemma_views_push(before, p);
            assert(member_patterns(es).take(i + 1) =~= member_patterns(es).take(i as int).push(entries@[i as int].stat.pattern@));
        }
        i = i + 1;
    }
    assert(member_patterns(es).take(i as int) =~= member_patterns(es));
    let r = Rule {
        tool: entries[0].stat.tool.clone(),
        pattern,
        allow_once: once,
        allow_always: always,
        deny,
        members,
    };
    assert(es[0].tokens == views(first@));
    r
}

} // verus!
verus! {

/* Facts about runs and the two partitions by length. */

/// Every run is non-empty, and what holds of every item of `s` holds of
/// every item of every run.
pub proof fn lemma_runs_items<A>(s: Seq<A>, key: spec_fn(A) -> Seq<char>, p: spec_fn(A) -> bool)
    requires
        forall|k: int| 0 <= k < s.len() ==> p(#[trigger] s[k]),
    ensures
        forall|i: int| 0 <= i < runs(s, key).len() ==> (#[trigger] runs(s, key)[i]).len() > 0,
        forall|i: int, j: int|
            0 <= i < runs(s, key).len() && 0 <= j < runs(s, key)[i].len() ==> p(
                #[trigger] runs(s, key)[i][j],
            ),
    decreases s.len(),
{
    if s.len() > 0 {
        let r = runs(s.drop_last(), key);
        lemma_runs_items(s.drop_last(), key, p);
        assert(p(s[s.len() - 1]));
        if r.len() > 0 && key(r.last()[0]) == key(s.last()) {
            let r2 = runs(s, key);
            assert forall|i: int, j: int| 0 <= i < r2.len() && 0 <= j < r2[i].len() implies p(
                #[trigger] r2[i][j],
            ) by {
                if i < r.len() - 1 {
                    assert(r2[i] == r[i]);
                } else if j < r.last().len() {
                    assert(r2[i][j] == r.last()[j]);
                }
            }
        }
    }
}

pub proof fn lemma_partition_items(es: Seq<EntryView>, depth: int, p: spec_fn(EntryView) -> bool)
    requires
        forall|k: int| 0 <= k < es.len() ==> p(#[trigger] es[k]),
    ensures
        forall|k: int| 0 <= k < with_len(es, depth).len() ==> p(#[trigger] with_len(es, depth)[k]),
        forall|k: int|
            0 <= k < without_len(es, depth).len() ==> p(#[trigger] without_len(es, depth)[k]),
        forall|k: int|
            0 <= k < with_len(es, depth).len() ==> (#[trigger] with_len(es, depth)[k]).tokens.len()
                == depth,
        forall|k: int|
            0 <= k < without_len(es, depth).len() ==> (#[trigger] without_len(
                es,
                depth,
            )[k]).tokens.len() != depth,
    decreases es.len(),
{
    if es.len() > 0 {
        lemma_partition_items(es.drop_last(), depth, p);
        assert(p(es[es.len() - 1]));
        let w0 = with_len(es.drop_last(), depth);
        let v0 = without_len(es.drop_last(), depth);
        let w = with_len(es, depth);
        let v = without_len(es, depth);
        if es.last().tokens.len() == depth {
            assert(w == w0.push(es.last()));
            assert(v == v0);
            assert forall|k: int| 0 <= k < w.len() implies p(#[trigger] w[k]) && w[k].tokens.len()
                == depth by {
                if k < w0.len() {
                    assert(w[k] == w0[k]);
                }
            }
        } else {
            assert(v == v0.push(es.last()));
            assert(w == w0);
            assert forall|k: int| 0 <= k < v.len() implies p(#[trigger] v[k]) && v[k].tokens.len()
                != depth by {
                if k < v0.len() {
                    assert(v[k] == v0[k]);
                }
            }
        }
    }
}

pub proof fn lemma_without_len_empty(es: Seq<EntryView>, depth: int)
    requires
        forall|k: int| 0 <= k < es.len() ==> (#[trigger] es[k]).tokens.len() == depth,
    ensures
        without_len(es, depth).len() == 0,
    decreases es.len(),
{
    if es.len() > 0 {
        lemma_without_len_empty(es.drop_last(), depth);
        assert(es[es.len() - 1].tokens.len() == depth);
    }
}

pub open spec fn nested_views<T: View>(gs: Seq<Vec<T>>) -> Seq<Seq<T::V>> {
    gs.map_values(|g: Vec<T>| view_seq(g@))
}

/// Taking the first group off `raw`, whose views are `gs` from `i` on: what
/// is left has the views from `i + 1` on, and the group is the `i`-th.
proof fn lemma_take_front_group<T: View>(
    gs: Seq<Seq<T::V>>,
    i: int,
    raw: Seq<Vec<T>>,
    rest: Seq<Vec<T>>,
    g: Vec<T>,
)
    requires
        0 <= i < gs.len(),
        nested_views(raw) == gs.skip(i),
        rest == raw.remove(0),
        g == raw[0],
    ensures
        nested_views(rest) == gs.skip(i + 1),
        gs[i] == view_seq(g@),
        gs.take(i + 1).drop_last() == gs.take(i),
        gs.take(i + 1).last() == view_seq(g@),
{
    assert(nested_views(raw).len() == raw.len());
    assert(gs.skip(i).len() == gs.len() - i);
    assert(rest =~= raw.drop_first());
    assert(nested_views(raw)[0] == view_seq(g@));
    assert(nested_views(rest) =~= gs.skip(i + 1)) by {
        assert forall|j: int| 0 <= j < nested_views(rest).len() implies nested_views(rest)[j] == gs.skip(
            i + 1,
        )[j] by {
            assert(rest[j] == raw[j + 1]);
            assert(nested_views(raw)[j + 1] == view_seq(raw[j + 1]@));
        }
    }
    assert(gs.take(i + 1).drop_last() =~= gs.take(i));
}

} // verus!
verus! {

pub proof fn lemma_nested_views_push<T: View>(gs: Seq<Vec<T>>, g: Vec<T>)
    ensures
        nested_views(gs.push(g)) == nested_views(gs).push(view_seq(g@)),
{
    assert(nested_views(gs.push(g)) =~= nested_views(gs).push(view_seq(g@)));
}

/// Splits token-sorted entries into runs sharing `tokens[index]`.
fn group_by_token(entries: Vec<Entry>, index: usize) -> (groups: Vec<Vec<Entry>>)
    requires
        forall|i: int| 0 <= i < entries@.len() ==> index < (#[trigger] entries@[i]).tokens@.len(),
    ensures
        nested_views(groups@) == runs(view_seq(entries@), token_key(index as int)),
{
    let ghost orig = view_seq(entries@);
    let ghost key = token_key(index as int);
    let n = entries.len();
    let mut rest = entries;
    let mut groups: Vec<Vec<Entry>> = Vec::new();
    let mut cur: Vec<Entry> = Vec::new();
    let mut k: usize = 0;
    while rest.len() > 0
        invariant
            k + rest@.len() == orig.len(),
            orig.len() == n,
            view_seq(rest@) == orig.skip(k as int),
            forall|i: int| 0 <= i < orig.len() ==> index < (#[trigger] orig[i]).tokens.len(),
            key == token_key(index as int),
            forall|i: int| 0 <= i < cur@.len() ==> index < (#[trigger] cur@[i]).tokens@.len(),
            k == 0 ==> cur@.len() == 0 && groups@.len() == 0,
            k > 0 ==> cur@.len() > 0 && runs(orig.take(k as int), key) == nested_views(
                groups@,
            ).push(view_seq(cur@)),
        decreases rest@.len(),
    {
        let ghost raw = rest@;
        let x = rest.remove(0);
        let ghost r = runs(orig.take(k as int), key);
        proof {
            lemma_take_front(orig, k as int, raw, rest@, x);
            assert(orig[k as int] == x@);
            assert(index < x.tokens@.len());
            if cur@.len() > 0 {
                assert(key(view_seq(cur@)[0]) == cur@[0].tokens@[index as int]@);
            }
            assert(key(x@) == x.tokens@[index as int]@);
            assert(runs(orig.take(k + 1), key) == (if r.len() > 0 && key(r.last()[0]) == key(x@) {
                r.update(r.len() - 1, r.last().push(x@))
            } else {
                r.push(seq![x@])
            }));
        }
        if cur.len() > 0 && cur[0].tokens[index] == x.tokens[index] {
            let ghost c0 = view_seq(cur@);
            let ghost craw = cur@;
            proof {
                assert(r.last() == c0);
                assert(c0[0] == cur@[0]@);
            }
            cur.push(x);
            proof {
                lemma_view_seq_push(craw, x);
                assert(nested_views(groups@).push(view_seq(cur@)) =~= r.update(
                    r.len() - 1,
                    r.last().push(x@),
                ));
            }
        } else {
            proof {
                if k > 0 {
                    assert(r.last() == view_seq(cur@));
                    assert(view_seq(cur@)[0] == cur@[0]@);
                }
            }
            if cur.len() > 0 {
                let ghost g0 = groups@;
                groups.push(cur);
                proof {
                    lemma_nested_views_push(g0, cur);
                }
            }
            cur = Vec::new();
            cur.push(x);
            proof {
                assert(view_seq(cur@) =~= seq![x@]);
                assert(k == 0 ==> r =~= Seq::<Seq<EntryView>>::empty());
                assert(nested_views(groups@).push(view_seq(cur@)) =~= r.push(seq![x@]));
            }
        }
        k = k + 1;
    }
    assert(orig.take(k as int) == orig);
    if cur.len() > 0 {
        let ghost g0 = groups@;
        groups.push(cur);
        proof {
            lemma_nested_views_push(g0, cur);
        }
    }
    groups
}


} // verus!
verus! {

/// Pushes the entries that are exactly the prefix as leaves, and hands back
/// the longer ones.
fn split_exact(entries: Vec<Entry>, depth: usize, out: &mut Vec<Rule>) -> (longer: Vec<
    Entry,
>)
    ensures
        view_seq(final(out)@) == view_seq(old(out)@) + entry_leaves(
            with_len(view_seq(entries@), depth as int),
        ),
        view_seq(longer@) == without_len(view_seq(entries@), depth as int),
{
    let ghost orig = view_seq(entries@);
    let ghost out0 = view_seq(out@);
    let n = entries.len();
    let mut rest = entries;
    let mut longer: Vec<Entry> = Vec::new();
    let mut k: usize = 0;
    assert(entry_leaves(with_len(orig.take(0), depth as int)) =~= Seq::<CollapsedView>::empty());
    while rest.len() > 0
        invariant
            k + rest@.len() == orig.len(),
            orig.len() == n,
            view_seq(rest@) == orig.skip(k as int),
            view_seq(out@) == out0 + entry_leaves(with_len(orig.take(k as int), depth as int)),
            view_seq(longer@) == without_len(orig.take(k as int), depth as int),
        decreases rest@.len(),
    {
        let ghost raw = rest@;
        let x = rest.remove(0);
        proof {
            lemma_take_front(orig, k as int, raw, rest@, x);
        }
        if x.tokens.len() == depth {
            let l = leaf(&x.stat);
            let ghost o = out@;
            out.push(l);
            proof {
                lemma_view_seq_push(o, l);
                let w = with_len(orig.take(k as int), depth as int);
                assert(entry_leaves(w.push(x@)) =~= entry_leaves(w).push(leaf_view(x@.stat)));
            }
        } else {
            let ghost lo = longer@;
            longer.push(x);
            proof {
                lemma_view_seq_push(lo, x);
            }
        }
        k = k + 1;
    }
    assert(orig.take(k as int) == orig);
    longer
}

/// `entries` all share their first `depth` tokens. Either the shared prefix is
/// widened into one rule, or the prefix as typed stays as observed and the
/// longer ones descend a token.
fn collapse_group(
    entries: Vec<Entry>,
    depth: usize,
    Ghost(bound): Ghost<int>,
    out: &mut Vec<Rule>,
)
    requires
        forall|i: int|
            0 <= i < entries@.len() ==> depth <= (#[trigger] entries@[i]).tokens@.len() <= bound,
    ensures
        view_seq(final(out)@) == view_seq(old(out)@) + group_spec(
            view_seq(entries@),
            depth as int,
            bound,
        ),
    decreases bound - depth, 1int, 0int,
{
    let ghost es = view_seq(entries@);
    if entries.len() == 1 {
        let l = leaf(&entries[0].stat);
        let ghost o = out@;
        out.push(l);
        proof {
            lemma_view_seq_push(o, l);
        }
        return;
    }
    let (_, _, deny) = sum_counts(&entries);
    if widenable(&entries, depth) && entries.len() >= MIN_DISTINCT && deny == 0 {
        let c = collapsed(&entries, depth);
        let ghost o = out@;
        out.push(c);
        proof {
            lemma_view_seq_push(o, c);
        }
        return;
    }
    let ghost out0 = view_seq(out@);
    let longer = split_exact(entries, depth, out);
    let ghost lv = without_len(es, depth as int);
    proof {
        let p = |e: EntryView| depth <= e.tokens.len() <= bound;
        assert forall|k: int| 0 <= k < es.len() implies p(#[trigger] es[k]) by {
            assert(es[k].tokens.len() == entries@[k].tokens@.len());
        }
        lemma_partition_items(es, depth as int, p);
        assert forall|k: int| 0 <= k < longer@.len() implies depth < (#[trigger] longer@[k]).tokens@.len() by {
            assert(lv[k] == longer@[k]@);
        }
    }
    let groups = group_by_token(longer, depth);
    let ghost gs = nested_views(groups@);
    proof {
        let p = |e: EntryView| depth < e.tokens.len() <= bound;
        assert forall|k: int| 0 <= k < lv.len() implies p(#[trigger] lv[k]) by {}
        lemma_runs_items(lv, token_key(depth as int), p);
        if depth as int >= bound {
            lemma_without_len_empty(es, depth as int);
        }
    }
    let n = groups.len();
    let mut rest = groups;
    let mut i: usize = 0;
    while rest.len() > 0
        invariant
            i + rest@.len() == gs.len(),
            gs.len() == n,
            nested_views(rest@) == gs.skip(i as int),
            gs == runs(lv, token_key(depth as int)),
            forall|a: int| 0 <= a < gs.len() ==> (#[trigger] gs[a]).len() > 0,
            forall|a: int, b: int|
                0 <= a < gs.len() && 0 <= b < gs[a].len() ==> depth < (#[trigger] gs[a][b]).tokens.len()
                    <= bound,
            view_seq(out@) == out0 + entry_leaves(with_len(es, depth as int)) + groups_spec(
                gs.take(i as int),
                depth + 1,
                bound,
            ),
        decreases rest@.len(),
    {
        let ghost raw = rest@;
        let g = rest.remove(0);
        proof {
            lemma_take_front_group(gs, i as int, raw, rest@, g);
            assert(view_seq(g@)[0].tokens.len() > depth);
            assert(g@[0].tokens@.len() == view_seq(g@)[0].tokens.len());
            assert forall|b: int| 0 <= b < g@.len() implies depth + 1 <= (#[trigger] g@[b]).tokens@.len()
                <= bound by {
                assert(view_seq(g@)[b] == g@[b]@);
                assert(gs[i as int][b] == g@[b]@);
            }
        }
        // The group's tokens are longer than `depth`, so the next depth fits.
        let tokens_len = g[0].tokens.len();
        assert(depth < tokens_len);
        let next = depth + 1;
        collapse_group(g, next, Ghost(bound), out);
        i = i + 1;
    }
    proof {
        assert(gs.take(i as int) == gs);
        if depth as int >= bound {
            assert(lv.len() == 0);
            assert(gs =~= Seq::<Seq<EntryView>>::empty());
        }
    }
}

} // verus!
verus! {

pub proof fn lemma_max_tokens(es: Seq<EntryView>)
    ensures
        max_tokens(es) >= 0,
        forall|k: int| 0 <= k < es.len() ==> (#[trigger] es[k]).tokens.len() <= max_tokens(es),
    decreases es.len(),
{
    if es.len() > 0 {
        lemma_max_tokens(es.drop_last());
        assert forall|k: int| 0 <= k < es.len() implies (#[trigger] es[k]).tokens.len()
            <= max_tokens(es) by {
            if k < es.len() - 1 {
                assert(es[k] == es.drop_last()[k]);
            }
        }
    }
}

pub proof fn lemma_entries_have_tokens(run: Seq<StatView>)
    ensures
        forall|k: int|
            0 <= k < entries_of(run).len() ==> (#[trigger] entries_of(run)[k]).tokens.len() > 0,
    decreases run.len(),
{
    if run.len() > 0 {
        lemma_entries_have_tokens(run.drop_last());
        let e0 = entries_of(run.drop_last());
        let e = entries_of(run);
        if tokenizable(run.last().pattern) {
            assert(e.drop_last() == e0);
            assert forall|k: int| 0 <= k < e.len() implies (#[trigger] e[k]).tokens.len() > 0 by {
                if k < e0.len() {
                    assert(e[k] == e0[k]);
                }
            }
        }
    }
}

/// Folds the bash patterns of one tool.
fn collapse_bash(run: Vec<PermissionStat>, out: &mut Vec<Rule>)
    ensures
        view_seq(final(out)@) == view_seq(old(out)@) + bash_spec(view_seq(run@)),
{
    let ghost orig = view_seq(run@);
    let ghost out0 = view_seq(out@);
    let n = run.len();
    let mut rest = run;
    let mut entries: Vec<Entry> = Vec::new();
    let mut k: usize = 0;
    assert(stat_leaves(untokenized(orig.take(0))) =~= Seq::<CollapsedView>::empty());
    while rest.len() > 0
        invariant
            k + rest@.len() == orig.len(),
            orig.len() == n,
            view_seq(rest@) == orig.skip(k as int),
            view_seq(out@) == out0 + stat_leaves(untokenized(orig.take(k as int))),
            view_seq(entries@) == entries_of(orig.take(k as int)),
        decreases rest@.len(),
    {
        let ghost raw = rest@;
        let x = rest.remove(0);
        proof {
            lemma_take_front(orig, k as int, raw, rest@, x);
        }
        match tokenize(x.pattern.as_str()) {
            Some(tokens) if tokens.len() > 0 => {
                let e = Entry { tokens, stat: x };
                let ghost eo = entries@;
                entries.push(e);
                proof {
                    lemma_view_seq_push(eo, e);
                }
            },
            _ => {
                let l = leaf(&x);
                let ghost o = out@;
                out.push(l);
                proof {
                    lemma_view_seq_push(o, l);
                    let u = untokenized(orig.take(k as int));
                    assert(stat_leaves(u.push(x@)) =~= stat_leaves(u).push(leaf_view(x@)));
                }
            },
        }
        k = k + 1;
    }
    assert(orig.take(k as int) == orig);
    let ghost ev = view_seq(entries@);
    let sorted = sort_stable(entries);
    let ghost sv = view_seq(sorted@);
    let ghost bound = max_tokens(sv);
    proof {
        lemma_entries_have_tokens(orig);
        assert(ev == entries_of(orig));
        lemma_max_tokens(sv);
        let p = |e: EntryView| e.tokens.len() > 0;
        crate::sums::lemma_sorted_keeps::<Entry>(ev, |e: EntryView| 0int, p);
        assert forall|i: int| 0 <= i < sorted@.len() implies 0 < (#[trigger] sorted@[i]).tokens@.len() by {
            assert(sv[i] == sorted@[i]@);
            assert(p(sv[i]));
        }
    }
    let groups = group_by_token(sorted, 0);
    let ghost gs = nested_views(groups@);
    proof {
        let p = |e: EntryView| 0 < e.tokens.len() <= bound;
        assert forall|i: int| 0 <= i < sv.len() implies p(#[trigger] sv[i]) by {
            assert(sv[i] == sorted@[i]@);
        }
        lemma_runs_items(sv, token_key(0), p);
    }
    let ng = groups.len();
    let mut rest = groups;
    let mut i: usize = 0;
    while rest.len() > 0
        invariant
            i + rest@.len() == gs.len(),
            gs.len() == ng,
            nested_views(rest@) == gs.skip(i as int),
            gs == runs(sv, token_key(0)),
            forall|a: int| 0 <= a < gs.len() ==> (#[trigger] gs[a]).len() > 0,
            forall|a: int, b: int|
                0 <= a < gs.len() && 0 <= b < gs[a].len() ==> 0 < (#[trigger] gs[a][b]).tokens.len()
                    <= bound,
            view_seq(out@) == out0 + stat_leaves(untokenized(orig)) + groups_spec(
                gs.take(i as int),
                1,
                bound,
            ),
        decreases rest@.len(),
    {
        let ghost raw = rest@;
        let g = rest.remove(0);
        proof {
            lemma_take_front_group(gs, i as int, raw, rest@, g);
            assert(view_seq(g@)[0].tokens.len() > 0);
            assert forall|b: int| 0 <= b < g@.len() implies 1 <= (#[trigger] g@[b]).tokens@.len()
                <= bound by {
                assert(view_seq(g@)[b] == g@[b]@);
                assert(gs[i as int][b] == g@[b]@);
            }
        }
        collapse_group(g, 1, Ghost(bound), out);
        i = i + 1;
    }
    assert(gs.take(i as int) == gs);
}

} // verus!
verus! {

/// Splits tool-sorted stats into runs of one tool each.
fn group_by_tool(stats: Vec<PermissionStat>) -> (groups: Vec<Vec<PermissionStat>>)
    ensures
        nested_views(groups@) == runs(view_seq(stats@), tool_key()),
{
    let ghost orig = view_seq(stats@);
    let ghost key = tool_key();
    let n = stats.len();
    let mut rest = stats;
    let mut groups: Vec<Vec<PermissionStat>> = Vec::new();
    let mut cur: Vec<PermissionStat> = Vec::new();
    let mut k: usize = 0;
    while rest.len() > 0
        invariant
            k + rest@.len() == orig.len(),
            orig.len() == n,
            view_seq(rest@) == orig.skip(k as int),
            key == tool_key(),
            k == 0 ==> cur@.len() == 0 && groups@.len() == 0,
            k > 0 ==> cur@.len() > 0 && runs(orig.take(k as int), key) == nested_views(
                groups@,
            ).push(view_seq(cur@)),
        decreases rest@.len(),
    {
        let ghost raw = rest@;
        let x = rest.remove(0);
        let ghost r = runs(orig.take(k as int), key);
        proof {
            lemma_take_front(orig, k as int, raw, rest@, x);
            if cur@.len() > 0 {
                assert(key(view_seq(cur@)[0]) == cur@[0].tool@);
            }
            assert(runs(orig.take(k + 1), key) == (if r.len() > 0 && key(r.last()[0]) == key(x@) {
                r.update(r.len() - 1, r.last().push(x@))
            } else {
                r.push(seq![x@])
            }));
        }
        if cur.len() > 0 && cur[0].tool == x.tool {
            let ghost c0 = view_seq(cur@);
            let ghost craw = cur@;
            proof {
                assert(r.last() == c0);
            }
            cur.push(x);
            proof {
                lemma_view_seq_push(craw, x);
                assert(nested_views(groups@).push(view_seq(cur@)) =~= r.update(
                    r.len() - 1,
                    r.last().push(x@),
                ));
            }
        } else {
            proof {
                if k > 0 {
                    assert(r.last() == view_seq(cur@));
                }
            }
            if cur.len() > 0 {
                let ghost g0 = groups@;
                groups.push(cur);
                proof {
                    lemma_nested_views_push(g0, cur);
                }
            }
            cur = Vec::new();
            cur.push(x);
            proof {
                assert(view_seq(cur@) =~= seq![x@]);
                assert(k == 0 ==> r =~= Seq::<Seq<StatView>>::empty());
                assert(nested_views(groups@).push(view_seq(cur@)) =~= r.push(seq![x@]));
            }
        }
        k = k + 1;
    }
    assert(orig.take(k as int) == orig);
    if cur.len() > 0 {
        let ghost g0 = groups@;
        groups.push(cur);
        proof {
            lemma_nested_views_push(g0, cur);
        }
    }
    groups
}

/// Folds observed permission patterns into the coarsest rules the evidence
/// supports, tool by tool in ascending order of tool name.
pub fn collapse_rules(stats: &[PermissionStat]) -> (out: Vec<Rule>)
    ensures
        view_seq(out@) == collapse_spec(stats@.map_values(|s: PermissionStat| s@)),
{
    let ghost sv = stats@.map_values(|s: PermissionStat| s@);
    let mut copies: Vec<PermissionStat> = Vec::new();
    let mut i: usize = 0;
    while i < stats.len()
        invariant
            i <= stats@.len(),
            sv == stats@.map_values(|s: PermissionStat| s@),
            view_seq(copies@) == sv.take(i as int),
        decreases stats@.len() - i,
    {
        let c = stats[i].copy();
        let ghost co = copies@;
        copies.push(c);
        proof {
            lemma_view_seq_push(co, c);
            assert(sv.take(i + 1) =~= sv.take(i as int).push(c@));
        }
        i = i + 1;
    }
    assert(sv.take(i as int) =~= sv);
    let sorted = sort_stable(copies);
    let ghost so = view_seq(sorted@);
    let groups = group_by_tool(sorted);
    let ghost gs = nested_views(groups@);
    let mut out: Vec<Rule> = Vec::new();
    let ng = groups.len();
    let mut rest = groups;
    let mut j: usize = 0;
    while rest.len() > 0
        invariant
            j + rest@.len() == gs.len(),
            gs.len() == ng,
            nested_views(rest@) == gs.skip(j as int),
            gs == runs(so, tool_key()),
            view_seq(out@) == tools_spec(gs.take(j as int)),
        decreases rest@.len(),
    {
        let ghost raw = rest@;
        let g = rest.remove(0);
        proof {
            lemma_take_front_group(gs, j as int, raw, rest@, g);
        }
        if g.len() > 0 && str_eq(g[0].tool.as_str(), "bash") {
            proof {
                assert(view_seq(g@)[0] == g@[0]@);
            }
            collapse_bash(g, &mut out);
        } else {
            proof {
                if g@.len() > 0 {
                    assert(view_seq(g@)[0] == g@[0]@);
                }
            }
            let ghost out0 = view_seq(out@);
            let ghost gv = view_seq(g@);
            let mut b: usize = 0;
            while b < g.len()
                invariant
                    b <= g@.len(),
                    gv == view_seq(g@),
                    view_seq(out@) == out0 + stat_leaves(gv.take(b as int)),
                decreases g@.len() - b,
            {
                let l = leaf(&g[b]);
                let ghost o = out@;
                out.push(l);
                proof {
                    lemma_view_seq_push(o, l);
                    assert(stat_leaves(gv.take(b + 1)) =~= stat_leaves(gv.take(b as int)).push(
                        leaf_view(gv[b as int]),
                    ));
                }
                b = b + 1;
            }
            assert(gv.take(b as int) == gv);
        }
        j = j + 1;
    }
    assert(gs.take(j as int) == gs);
    out
}

/// Folds observed permission patterns into the coarsest rules the evidence
/// supports, tool by tool in ascending order of tool name. Every count of
/// every rule must fit in `i64`, the type the rules carry them in.
pub fn collapse(stats: &[PermissionStat]) -> (out: Vec<CollapsedStat>)
    requires
        rules_fit(stats@.map_values(|s: PermissionStat| s@)),
    ensures
        view_seq(out@) == collapse_spec(stats@.map_values(|s: PermissionStat| s@)),
{
    let ghost want = collapse_spec(stats@.map_values(|s: PermissionStat| s@));
    let rules = collapse_rules(stats);
    let n = rules.len();
    let mut rest = rules;
    let mut out: Vec<CollapsedStat> = Vec::new();
    let mut k: usize = 0;
    while rest.len() > 0
        invariant
            k + rest@.len() == want.len(),
            want.len() == n,
            view_seq(rest@) == want.skip(k as int),
            view_seq(out@) == want.take(k as int),
            forall|i: int| 0 <= i < want.len() ==> counts_fit(#[trigger] want[i]),
        decreases rest@.len(),
    {
        let ghost raw = rest@;
        let x = rest.remove(0);
        proof {
            crate::sort::lemma_take_front(want, k as int, raw, rest@, x);
        }
        let c = x.narrow();
        let ghost o = out@;
        out.push(c);
        proof {
            lemma_view_seq_push(o, c);
        }
        k = k + 1;
    }
    assert(want.take(k as int) == want);
    out
}

} // verus!
