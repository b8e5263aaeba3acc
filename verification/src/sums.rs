//! Sums over sequences, and what sorting keeps of them.
use vstd::prelude::*;

use crate::sort::{insert_stable, is_sorted, sorted_stable, TotalPreorder};

verus! {

/// The sum of `f` over `s`.
pub open spec fn sum_of<A>(s: Seq<A>, f: spec_fn(A) -> int) -> int
    decreases s.len(),
{
    if s.len() == 0 {
        0
    } else {
        sum_of(s.drop_last(), f) + f(s.last())
    }
}

pub proof fn lemma_sum_take_le<A>(s: Seq<A>, f: spec_fn(A) -> int, i: int)
    requires
        0 <= i <= s.len(),
        forall|k: int| 0 <= k < s.len() ==> f(#[trigger] s[k]) >= 0,
    ensures
        sum_of(s.take(i), f) <= sum_of(s, f),
    decreases s.len(),
{
    if i < s.len() {
        assert(s.drop_last().take(i) == s.take(i));
        lemma_sum_take_le(s.drop_last(), f, i);
        assert(f(s[s.len() - 1]) >= 0);
    } else {
        assert(s.take(i) == s);
    }
}

pub proof fn lemma_sum_concat<A>(s: Seq<A>, t: Seq<A>, f: spec_fn(A) -> int)
    ensures
        sum_of(s + t, f) == sum_of(s, f) + sum_of(t, f),
    decreases t.len(),
{
    if t.len() == 0 {
        assert(s + t == s);
    } else {
        lemma_sum_concat(s, t.drop_last(), f);
        assert((s + t).drop_last() == s + t.drop_last());
    }
}


pub proof fn lemma_insert_stable_keeps<T: TotalPreorder>(
    s: Seq<T::V>,
    x: T::V,
    f: spec_fn(T::V) -> int,
    p: spec_fn(T::V) -> bool,
)
    requires
        forall|k: int| 0 <= k < s.len() ==> p(#[trigger] s[k]),
        p(x),
    ensures
        insert_stable::<T>(s, x).len() == s.len() + 1,
        sum_of(insert_stable::<T>(s, x), f) == sum_of(s, f) + f(x),
        forall|k: int|
            0 <= k < insert_stable::<T>(s, x).len() ==> p(#[trigger] insert_stable::<T>(s, x)[k]),
    decreases s.len(),
{
    if s.len() == 0 || T::precedes(s.last(), x) {
        assert(s.push(x).drop_last() == s);
        assert forall|k: int| 0 <= k < s.push(x).len() implies p(#[trigger] s.push(x)[k]) by {
            if k < s.len() {
                assert(s.push(x)[k] == s[k]);
            }
        }
    } else {
        let d = s.drop_last();
        assert forall|k: int| 0 <= k < d.len() implies p(#[trigger] d[k]) by {
            assert(d[k] == s[k]);
        }
        lemma_insert_stable_keeps::<T>(d, x, f, p);
        let i = insert_stable::<T>(d, x);
        assert(i.push(s.last()).drop_last() == i);
        assert(p(s[s.len() - 1]));
        assert forall|k: int| 0 <= k < i.push(s.last()).len() implies p(
            #[trigger] i.push(s.last())[k],
        ) by {
            if k < i.len() {
                assert(i.push(s.last())[k] == i[k]);
            }
        }
    }
}

/// Sorting keeps the length, the sum of any `f`, and whatever holds of
/// every item.
pub proof fn lemma_sorted_keeps<T: TotalPreorder>(
    s: Seq<T::V>,
    f: spec_fn(T::V) -> int,
    p: spec_fn(T::V) -> bool,
)
    requires
        forall|k: int| 0 <= k < s.len() ==> p(#[trigger] s[k]),
    ensures
        sorted_stable::<T>(s).len() == s.len(),
        sum_of(sorted_stable::<T>(s), f) == sum_of(s, f),
        forall|k: int| 0 <= k < sorted_stable::<T>(s).len() ==> p(#[trigger] sorted_stable::<T>(s)[k]),
    decreases s.len(),
{
    if s.len() > 0 {
        let d = s.drop_last();
        assert forall|k: int| 0 <= k < d.len() implies p(#[trigger] d[k]) by {
            assert(d[k] == s[k]);
        }
        lemma_sorted_keeps::<T>(d, f, p);
        assert(p(s[s.len() - 1]));
        lemma_insert_stable_keeps::<T>(sorted_stable::<T>(d), s.last(), f, p);
    }
}

} // verus!
verus! {

pub proof fn lemma_sum_single<A>(s: Seq<A>, f: spec_fn(A) -> int)
    requires
        s.len() == 1,
    ensures
        sum_of(s, f) == f(s[0]),
{
    assert(s.drop_last() =~= Seq::<A>::empty());
    assert(sum_of(s.drop_last(), f) == 0);
}

} // verus!
verus! {

pub proof fn lemma_sum_le_pointwise<A>(s: Seq<A>, f: spec_fn(A) -> int, g: spec_fn(A) -> int)
    requires
        forall|k: int| 0 <= k < s.len() ==> f(#[trigger] s[k]) <= g(s[k]),
    ensures
        sum_of(s, f) <= sum_of(s, g),
    decreases s.len(),
{
    if s.len() > 0 {
        lemma_sum_le_pointwise(s.drop_last(), f, g);
        assert(f(s[s.len() - 1]) <= g(s[s.len() - 1]));
    }
}

/// Each item's share of a non-negative sum is at most the sum.
pub proof fn lemma_item_le_sum<A>(s: Seq<A>, f: spec_fn(A) -> int, i: int)
    requires
        0 <= i < s.len(),
        forall|k: int| 0 <= k < s.len() ==> f(#[trigger] s[k]) >= 0,
    ensures
        f(s[i]) <= sum_of(s, f),
    decreases s.len(),
{
    if i < s.len() - 1 {
        lemma_item_le_sum(s.drop_last(), f, i);
        assert(s.drop_last()[i] == s[i]);
        assert(f(s[s.len() - 1]) >= 0);
    } else {
        lemma_sum_take_le(s, f, s.len() - 1);
        assert(s.take(s.len() - 1) == s.drop_last());
        assert forall|k: int| 0 <= k < s.drop_last().len() implies f(#[trigger] s.drop_last()[k]) >= 0 by {
            assert(s.drop_last()[k] == s[k]);
        }
        lemma_sum_nonneg(s.drop_last(), f);
    }
}

pub proof fn lemma_sum_nonneg<A>(s: Seq<A>, f: spec_fn(A) -> int)
    requires
        forall|k: int| 0 <= k < s.len() ==> f(#[trigger] s[k]) >= 0,
    ensures
        sum_of(s, f) >= 0,
    decreases s.len(),
{
    if s.len() > 0 {
        assert forall|k: int| 0 <= k < s.drop_last().len() implies f(#[trigger] s.drop_last()[k]) >= 0 by {
            assert(s.drop_last()[k] == s[k]);
        }
        lemma_sum_nonneg(s.drop_last(), f);
        assert(f(s[s.len() - 1]) >= 0);
    }
}

} // verus!
verus! {

proof fn lemma_insert_sorted<T: TotalPreorder>(s: Seq<T::V>, x: T::V)
    requires
        is_sorted::<T>(s),
    ensures
        is_sorted::<T>(insert_stable::<T>(s, x)),
    decreases s.len(),
{
    if s.len() == 0 || T::precedes(s.last(), x) {
        let r = s.push(x);
        assert forall|i: int, j: int| 0 <= i < j < r.len() implies T::precedes(r[i], r[j]) by {
            if j == s.len() {
                if i < s.len() - 1 {
                    T::precedes_transitive(s[i], s.last(), x);
                }
            }
        }
    } else {
        let d = s.drop_last();
        let last = s.last();
        T::precedes_total(last, x);
        assert(is_sorted::<T>(d));
        lemma_insert_sorted::<T>(d, x);
        let p = |y: T::V| T::precedes(y, last);
        assert forall|k: int| 0 <= k < d.len() implies p(#[trigger] d[k]) by {
            assert(d[k] == s[k]);
        }
        lemma_insert_stable_keeps::<T>(d, x, |y: T::V| 0int, p);
        let i0 = insert_stable::<T>(d, x);
        let r = i0.push(last);
        assert forall|i: int, j: int| 0 <= i < j < r.len() implies T::precedes(r[i], r[j]) by {
            if j == i0.len() {
                assert(p(i0[i]));
            } else {
                assert(r[i] == i0[i] && r[j] == i0[j]);
            }
        }
    }
}

/// The stable sort of a sequence is sorted.
pub proof fn lemma_sorted_is_sorted<T: TotalPreorder>(s: Seq<T::V>)
    ensures
        is_sorted::<T>(sorted_stable::<T>(s)),
    decreases s.len(),
{
    if s.len() > 0 {
        lemma_sorted_is_sorted::<T>(s.drop_last());
        lemma_insert_sorted::<T>(sorted_stable::<T>(s.drop_last()), s.last());
    }
}

} // verus!
verus! {

pub proof fn lemma_sum_zero<A>(s: Seq<A>, f: spec_fn(A) -> int)
    requires
        forall|k: int| 0 <= k < s.len() ==> f(#[trigger] s[k]) == 0,
    ensures
        sum_of(s, f) == 0,
    decreases s.len(),
{
    if s.len() > 0 {
        let d = s.drop_last();
        assert forall|k: int| 0 <= k < d.len() implies f(#[trigger] d[k]) == 0 by {
            assert(d[k] == s[k]);
        }
        lemma_sum_zero(d, f);
        assert(f(s[s.len() - 1]) == 0);
    }
}

pub proof fn lemma_sum_eq<A>(s: Seq<A>, f: spec_fn(A) -> int, h: spec_fn(A) -> int)
    requires
        forall|k: int| 0 <= k < s.len() ==> f(#[trigger] s[k]) == h(s[k]),
    ensures
        sum_of(s, f) == sum_of(s, h),
{
    lemma_sum_le_pointwise(s, f, h);
    lemma_sum_le_pointwise(s, h, f);
}

} // verus!
