//! A stable insertion sort over any type whose view carries a total preorder.
use vstd::prelude::*;

verus! {

/// A total preorder on the views of `Self`, with an executable test for it.
pub trait TotalPreorder: View + Sized {
    spec fn precedes(a: Self::V, b: Self::V) -> bool;

    proof fn precedes_total(a: Self::V, b: Self::V)
        ensures
            Self::precedes(a, b) || Self::precedes(b, a),
    ;

    proof fn precedes_transitive(a: Self::V, b: Self::V, c: Self::V)
        requires
            Self::precedes(a, b),
            Self::precedes(b, c),
        ensures
            Self::precedes(a, c),
    ;

    fn test_precedes(&self, other: &Self) -> (r: bool)
        ensures
            r == Self::precedes(self@, other@),
    ;
}

/// The views of the items of `s`.
pub open spec fn view_seq<T: View>(s: Seq<T>) -> Seq<T::V> {
    s.map_values(|t: T| t@)
}

/// `s` with `x` placed after every element that precedes it, counting from
/// the back: where a stable sort puts the newest arrival.
pub open spec fn insert_stable<T: TotalPreorder>(s: Seq<T::V>, x: T::V) -> Seq<T::V>
    decreases s.len(),
{
    if s.len() == 0 || T::precedes(s.last(), x) {
        s.push(x)
    } else {
        insert_stable::<T>(s.drop_last(), x).push(s.last())
    }
}

/// The stable sort of `s`: elements in non-decreasing order, equal elements
/// in the order they came.
pub open spec fn sorted_stable<T: TotalPreorder>(s: Seq<T::V>) -> Seq<T::V>
    decreases s.len(),
{
    if s.len() == 0 {
        s
    } else {
        insert_stable::<T>(sorted_stable::<T>(s.drop_last()), s.last())
    }
}

pub open spec fn is_sorted<T: TotalPreorder>(s: Seq<T::V>) -> bool {
    forall|i: int, j: int| 0 <= i < j < s.len() ==> T::precedes(s[i], s[j])
}

proof fn lemma_insert_tail<T: TotalPreorder>(s: Seq<T::V>, x: T::V, j: int)
    requires
        0 <= j <= s.len(),
        forall|k: int| j <= k < s.len() ==> !T::precedes(s[k], x),
    ensures
        insert_stable::<T>(s, x) == insert_stable::<T>(s.take(j), x) + s.skip(j),
    decreases s.len(),
{
    if j == s.len() {
        assert(s.take(j) == s);
        assert(s.skip(j) =~= Seq::<T::V>::empty());
    } else {
        lemma_insert_tail::<T>(s.drop_last(), x, j);
        assert(s.drop_last().take(j) == s.take(j));
        assert(s.drop_last().skip(j).push(s.last()) =~= s.skip(j));
    }
}

/// Inserts `x` into `v` where a stable sort would put it.
fn insert_into<T: TotalPreorder>(v: &mut Vec<T>, x: T)
    ensures
        view_seq(final(v)@) == insert_stable::<T>(view_seq(old(v)@), x@),
{
    let mut j = v.len();
    while j > 0 && !v[j - 1].test_precedes(&x)
        invariant
            j <= v@.len(),
            forall|k: int| j <= k < v@.len() ==> !T::precedes(#[trigger] view_seq(v@)[k], x@),
        decreases j,
    {
        j = j - 1;
    }
    let ghost before = view_seq(v@);
    proof {
        lemma_insert_tail::<T>(before, x@, j as int);
        if j > 0 {
            assert(before.take(j as int).last() == before[j - 1]);
        }
    }
    v.insert(j, x);
    assert(view_seq(v@) =~= before.take(j as int).push(x@) + before.skip(j as int));
}

/// Stable sort of `v`.
pub fn sort_stable<T: TotalPreorder>(v: Vec<T>) -> (out: Vec<T>)
    ensures
        view_seq(out@) == sorted_stable::<T>(view_seq(v@)),
{
    let ghost orig = view_seq(v@);
    let n = v.len();
    let mut rest = v;
    let mut out: Vec<T> = Vec::new();
    let mut k: usize = 0;
    assert(view_seq(out@) =~= sorted_stable::<T>(orig.take(0)));
    while rest.len() > 0
        invariant
            k <= orig.len(),
            k + rest@.len() == orig.len(),
            orig.len() == n,
            view_seq(rest@) == orig.skip(k as int),
            view_seq(out@) == sorted_stable::<T>(orig.take(k as int)),
        decreases rest@.len(),
    {
        let ghost raw = rest@;
        let x = rest.remove(0);
        proof {
            lemma_take_front(orig, k as int, raw, rest@, x);
        }
        insert_into(&mut out, x);
        k = k + 1;
    }
    assert(orig.take(k as int) == orig);
    out
}

} // verus!
verus! {

pub proof fn lemma_view_seq_push<T: View>(s: Seq<T>, x: T)
    ensures
        view_seq(s.push(x)) == view_seq(s).push(x@),
{
    assert(view_seq(s.push(x)) =~= view_seq(s).push(x@));
}

} // verus!
verus! {

/// Taking the first item off `raw`, whose views are `orig` from `k` on:
/// what is left has the views from `k + 1` on, and the item is the `k`-th.
pub proof fn lemma_take_front<T: View>(orig: Seq<T::V>, k: int, raw: Seq<T>, rest: Seq<T>, x: T)
    requires
        0 <= k < orig.len(),
        view_seq(raw) == orig.skip(k),
        rest == raw.remove(0),
        x == raw[0],
    ensures
        view_seq(rest) == orig.skip(k + 1),
        orig[k] == x@,
        orig.take(k + 1).drop_last() == orig.take(k),
        orig.take(k + 1).last() == x@,
{
    assert(view_seq(raw).len() == raw.len());
    assert(orig.skip(k).len() == orig.len() - k);
    assert(rest =~= raw.drop_first());
    assert(view_seq(raw)[0] == x@);
    assert(view_seq(rest) =~= orig.skip(k + 1)) by {
        assert forall|i: int| 0 <= i < view_seq(rest).len() implies view_seq(rest)[i] == orig.skip(k + 1)[i] by {
            assert(rest[i] == raw[i + 1]);
            assert(view_seq(raw)[i + 1] == raw[i + 1]@);
        }
    }
    assert(orig.take(k + 1).drop_last() =~= orig.take(k));
}

} // verus!
