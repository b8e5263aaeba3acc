//! Trimming listed rows: hiding what was seen too rarely, and keeping only
//! the busiest few.
use vstd::prelude::*;

use crate::analysis::{Suggestion, SuggestionView};
use crate::failures::{FailureStat, FailureStatView};
use crate::query::{PermissionStat, StatView};
use crate::sort::{lemma_take_front, view_seq};

verus! {

/// How many rows to show, and how often a row must have been seen.
#[derive(Debug, Clone, Copy, PartialEq, Eq)]
pub struct Limits {
    /// Hide anything seen fewer than this many times.
    pub min_count: i64,
    /// Show only the busiest this many rows.
    pub limit: Option<i64>,
}

impl Default for Limits {
    fn default() -> (r: Limits)
        ensures
            r.min_count == 0 && r.limit is None,
    {
        Limits { min_count: 0, limit: None }
    }
}

/// A row that records how often something was seen.
pub trait Seen: View + Sized {
    spec fn seen_spec(v: Self::V) -> int;

    fn seen(&self) -> (r: i128)
        ensures
            r == Self::seen_spec(self@),
    ;
}

impl Seen for PermissionStat {
    /// Every prompt answered, whichever way.
    open spec fn seen_spec(v: StatView) -> int {
        v.allow_once + v.allow_always + v.deny
    }

    fn seen(&self) -> (r: i128) {
        self.allow_once as i128 + self.allow_always as i128 + self.deny as i128
    }
}

impl Seen for FailureStat {
    open spec fn seen_spec(v: FailureStatView) -> int {
        v.count
    }

    fn seen(&self) -> (r: i128) {
        self.count as i128
    }
}

impl Seen for Suggestion {
    open spec fn seen_spec(v: SuggestionView) -> int {
        v.events
    }

    fn seen(&self) -> (r: i128) {
        self.events as i128
    }
}

/// The rows seen at least `min_count` times, in order.
pub open spec fn seen_at_least<T: Seen>(s: Seq<T::V>, min_count: int) -> Seq<T::V>
    decreases s.len(),
{
    if s.len() == 0 {
        s
    } else if T::seen_spec(s.last()) >= min_count {
        seen_at_least::<T>(s.drop_last(), min_count).push(s.last())
    } else {
        seen_at_least::<T>(s.drop_last(), min_count)
    }
}

/// Row `j` of `s` is busier than row `i`: seen more often, or as often and
/// listed earlier.
pub open spec fn busier<T: Seen>(s: Seq<T::V>, j: int, i: int) -> bool {
    T::seen_spec(s[j]) > T::seen_spec(s[i]) || (T::seen_spec(s[j]) == T::seen_spec(s[i]) && j < i)
}

/// How many of the first `n` rows of `s` are busier than row `i`.
pub open spec fn busier_count<T: Seen>(s: Seq<T::V>, i: int, n: int) -> int
    decreases n,
{
    if n <= 0 {
        0
    } else {
        busier_count::<T>(s, i, n - 1) + if busier::<T>(s, n - 1, i) {
            1int
        } else {
            0int
        }
    }
}

/// The rows of the first `n` of `s` that fewer than `l` rows are busier
/// than, in order.
pub open spec fn busiest_prefix<T: Seen>(s: Seq<T::V>, l: int, n: int) -> Seq<T::V>
    decreases n,
{
    if n <= 0 {
        seq![]
    } else if busier_count::<T>(s, n - 1, s.len() as int) < l {
        busiest_prefix::<T>(s, l, n - 1).push(s[n - 1])
    } else {
        busiest_prefix::<T>(s, l, n - 1)
    }
}

/// The `limit` busiest rows, ties going to the earlier, kept in their order
/// (none for a limit below one); all rows when there is no limit.
pub open spec fn busiest<T: Seen>(s: Seq<T::V>, limit: Option<i64>) -> Seq<T::V> {
    match limit {
        None => s,
        Some(l) => busiest_prefix::<T>(s, l as int, s.len() as int),
    }
}

pub open spec fn trimmed<T: Seen>(s: Seq<T::V>, limits: Limits) -> Seq<T::V> {
    busiest::<T>(seen_at_least::<T>(s, limits.min_count as int), limits.limit)
}

/// How many rows of `rows` are busier than row `i`.
fn count_busier<T: Seen>(rows: &Vec<T>, i: usize) -> (r: usize)
    requires
        i < rows@.len(),
    ensures
        r == busier_count::<T>(view_seq(rows@), i as int, rows@.len() as int),
{
    let ghost s = view_seq(rows@);
    let mine = rows[i].seen();
    let mut c: usize = 0;
    let mut j: usize = 0;
    while j < rows.len()
        invariant
            j <= rows@.len(),
            i < rows@.len(),
            s == view_seq(rows@),
            mine == T::seen_spec(s[i as int]),
            c == busier_count::<T>(s, i as int, j as int),
            c <= j,
        decreases rows@.len() - j,
    {
        let theirs = rows[j].seen();
        assert(s[j as int] == rows@[j as int]@);
        assert(s[i as int] == rows@[i as int]@);
        if theirs > mine || (theirs == mine && j < i) {
            c = c + 1;
        }
        j = j + 1;
    }
    c
}

impl Limits {
    /// Hides the rows seen fewer than `min_count` times, then keeps the
    /// `limit` busiest of the rest, in their order.
    pub fn apply<T: Seen>(&self, rows: Vec<T>) -> (out: Vec<T>)
        ensures
            view_seq(out@) == trimmed::<T>(view_seq(rows@), *self),
    {
        let ghost orig = view_seq(rows@);
        let n = rows.len();
        let mut rest = rows;
        let mut out: Vec<T> = Vec::new();
        let mut k: usize = 0;
        while rest.len() > 0
            invariant
                k + rest@.len() == orig.len(),
                orig.len() == n,
                view_seq(rest@) == orig.skip(k as int),
                view_seq(out@) == seen_at_least::<T>(orig.take(k as int), self.min_count as int),
            decreases rest@.len(),
        {
            let ghost raw = rest@;
            let x = rest.remove(0);
            proof {
                lemma_take_front(orig, k as int, raw, rest@, x);
            }
            if x.seen() >= self.min_count as i128 {
                let ghost o = out@;
                out.push(x);
                proof {
                    crate::sort::lemma_view_seq_push(o, x);
                }
            }
            k = k + 1;
        }
        assert(orig.take(k as int) == orig);
        match self.limit {
            None => out,
            Some(l) => {
                let ghost kept = view_seq(out@);
                let m = out.len();
                let mut ranks: Vec<usize> = Vec::new();
                let mut i: usize = 0;
                while i < m
                    invariant
                        i <= m,
                        m == out@.len(),
                        kept == view_seq(out@),
                        ranks@.len() == i,
                        forall|k: int|
                            0 <= k < i ==> #[trigger] ranks@[k] == busier_count::<T>(kept, k, m as int),
                    decreases m - i,
                {
                    ranks.push(count_busier(&out, i));
                    i = i + 1;
                }
                let mut rest = out;
                let mut result: Vec<T> = Vec::new();
                let mut k: usize = 0;
                while rest.len() > 0
                    invariant
                        k + rest@.len() == m,
                        kept.len() == m,
                        view_seq(rest@) == kept.skip(k as int),
                        ranks@.len() == m,
                        forall|x: int|
                            0 <= x < m ==> #[trigger] ranks@[x] == busier_count::<T>(kept, x, m as int),
                        view_seq(result@) == busiest_prefix::<T>(kept, l as int, k as int),
                    decreases rest@.len(),
                {
                    let ghost raw = rest@;
                    let x = rest.remove(0);
                    proof {
                        lemma_take_front(kept, k as int, raw, rest@, x);
                    }
                    if (ranks[k] as i128) < (l as i128) {
                        let ghost r0 = result@;
                        result.push(x);
                        proof {
                            crate::sort::lemma_view_seq_push(r0, x);
                        }
                    }
                    k = k + 1;
                }
                result
            },
        }
    }
}

} // verus!
verus! {

proof fn lemma_seen_filter<T: Seen>(s: Seq<T::V>, min_count: int)
    ensures
        seen_at_least::<T>(s, min_count) == s.filter(|x: T::V| T::seen_spec(x) >= min_count),
    decreases s.len(),
{
    reveal(Seq::filter);
    if s.len() > 0 {
        lemma_seen_filter::<T>(s.drop_last(), min_count);
    }
}

/// `--min-count` on suggestions keeps exactly those that answer at least
/// that many prompts, in their order.
pub proof fn min_count_keeps_busy_suggestions(rows: Seq<SuggestionView>, min_count: i64)
    ensures
        trimmed::<Suggestion>(rows, Limits { min_count, limit: None }) == rows.filter(
            |x: SuggestionView| x.events >= min_count,
        ),
{
    lemma_seen_filter::<Suggestion>(rows, min_count as int);
    assert((|x: SuggestionView| <Suggestion as Seen>::seen_spec(x) >= min_count as int) =~= (|
        x: SuggestionView,
    | x.events >= min_count));
}

/// `--min-count` on permission counts keeps exactly the patterns prompted
/// about, whichever the answer, at least that many times, in their order.
pub proof fn min_count_keeps_busy_permissions(rows: Seq<StatView>, min_count: i64)
    ensures
        trimmed::<PermissionStat>(rows, Limits { min_count, limit: None }) == rows.filter(
            |x: StatView| x.allow_once + x.allow_always + x.deny >= min_count,
        ),
{
    lemma_seen_filter::<PermissionStat>(rows, min_count as int);
    assert((|x: StatView| <PermissionStat as Seen>::seen_spec(x) >= min_count as int) =~= (|
        x: StatView,
    | x.allow_once + x.allow_always + x.deny >= min_count));
}

/// `--min-count` on failure counts keeps exactly the kinds of failure that
/// happened at least that many times, in their order.
pub proof fn min_count_keeps_frequent_failures(rows: Seq<FailureStatView>, min_count: i64)
    ensures
        trimmed::<FailureStat>(rows, Limits { min_count, limit: None }) == rows.filter(
            |x: FailureStatView| x.count >= min_count,
        ),
{
    lemma_seen_filter::<FailureStat>(rows, min_count as int);
    assert((|x: FailureStatView| <FailureStat as Seen>::seen_spec(x) >= min_count as int) =~= (|
        x: FailureStatView,
    | x.count >= min_count));
}

} // verus!
