//! Stable insertion sort as a recursive specification, with the lemmas the
//! executable sorts of this crate share. A new element is placed after every
//! element already ordered at-or-before it, so equal elements keep their
//! input order.

use vstd::prelude::*;

verus! {

/// `e` inserted into `t` after every trailing element that does not compare
/// `leq` to it: the insertion step of a stable insertion sort.
pub open spec fn insert_sorted<T>(t: Seq<T>, e: T, leq: spec_fn(T, T) -> bool) -> Seq<T>
    decreases t.len(),
{
    if t.len() == 0 {
        seq![e]
    } else if leq(t.last(), e) {
        t.push(e)
    } else {
        insert_sorted(t.drop_last(), e, leq).push(t.last())
    }
}

/// Stable insertion sort of a whole sequence, left to right.
pub open spec fn sort_by_leq<T>(s: Seq<T>, leq: spec_fn(T, T) -> bool) -> Seq<T>
    decreases s.len(),
{
    if s.len() == 0 {
        Seq::<T>::empty()
    } else {
        insert_sorted(sort_by_leq(s.drop_last(), leq), s.last(), leq)
    }
}

pub open spec fn sorted_by_leq<T>(s: Seq<T>, leq: spec_fn(T, T) -> bool) -> bool {
    forall|i: int, j: int| 0 <= i < j < s.len() ==> #[trigger] leq(s[i], s[j])
}

/// A total and transitive comparison.
pub open spec fn total_leq<T>(leq: spec_fn(T, T) -> bool) -> bool {
    (forall|a: T, b: T| #[trigger] leq(a, b) || leq(b, a)) && (forall|a: T, b: T, c: T|
        #[trigger] leq(a, b) && #[trigger] leq(b, c) ==> leq(a, c))
}

pub proof fn lemma_insert_sorted_len<T>(t: Seq<T>, e: T, leq: spec_fn(T, T) -> bool)
    ensures
        insert_sorted(t, e, leq).len() == t.len() + 1,
    decreases t.len(),
{
    if t.len() > 0 && !leq(t.last(), e) {
        lemma_insert_sorted_len(t.drop_last(), e, leq);
    }
}

pub proof fn lemma_sort_len<T>(s: Seq<T>, leq: spec_fn(T, T) -> bool)
    ensures
        sort_by_leq(s, leq).len() == s.len(),
    decreases s.len(),
{
    if s.len() > 0 {
        lemma_sort_len(s.drop_last(), leq);
        lemma_insert_sorted_len(sort_by_leq(s.drop_last(), leq), s.last(), leq);
    }
}

pub proof fn lemma_insert_sorted_contains<T>(t: Seq<T>, e: T, leq: spec_fn(T, T) -> bool, x: T)
    ensures
        insert_sorted(t, e, leq).contains(x) <==> (x == e || t.contains(x)),
    decreases t.len(),
{
    if t.len() == 0 {
        assert(insert_sorted(t, e, leq) == seq![e]);
        assert(seq![e][0] == e);
        if x == e {
            assert(insert_sorted(t, e, leq).contains(x));
        }
    } else if leq(t.last(), e) {
        lemma_contains_push(t, e, x);
    } else {
        lemma_insert_sorted_contains(t.drop_last(), e, leq, x);
        lemma_contains_push(insert_sorted(t.drop_last(), e, leq), t.last(), x);
        lemma_contains_drop_last(t, x);
    }
}

/// Membership in `s.push(e)` is membership in `s` or equality with `e`.
pub proof fn lemma_contains_push<T>(s: Seq<T>, e: T, x: T)
    ensures
        s.push(e).contains(x) <==> (x == e || s.contains(x)),
{
    if x == e {
        assert(s.push(e)[s.len() as int] == e);
        assert(s.push(e).contains(x));
    }
    if s.contains(x) {
        let i = choose|i: int| 0 <= i < s.len() && s[i] == x;
        assert(s.push(e)[i] == x);
        assert(s.push(e).contains(x));
    }
    if s.push(e).contains(x) && x != e {
        let i = choose|i: int| 0 <= i < s.push(e).len() && s.push(e)[i] == x;
        assert(s[i] == x);
    }
}

/// Membership in `s` is membership in `s.drop_last()` or equality with the
/// last element.
pub proof fn lemma_contains_drop_last<T>(s: Seq<T>, x: T)
    requires
        s.len() > 0,
    ensures
        s.contains(x) <==> (x == s.last() || s.drop_last().contains(x)),
{
    if s.contains(x) && x != s.last() {
        let i = choose|i: int| 0 <= i < s.len() && s[i] == x;
        assert(s.drop_last()[i] == x);
    }
    if s.drop_last().contains(x) {
        let i = choose|i: int| 0 <= i < s.drop_last().len() && s.drop_last()[i] == x;
        assert(s[i] == x);
    }
    if x == s.last() {
        assert(s[s.len() - 1] == x);
    }
}

pub proof fn lemma_sort_contains<T>(s: Seq<T>, leq: spec_fn(T, T) -> bool, x: T)
    ensures
        sort_by_leq(s, leq).contains(x) <==> s.contains(x),
    decreases s.len(),
{
    if s.len() > 0 {
        lemma_sort_contains(s.drop_last(), leq, x);
        lemma_insert_sorted_contains(sort_by_leq(s.drop_last(), leq), s.last(), leq, x);
        lemma_contains_drop_last(s, x);
    } else {
        assert(!s.contains(x)) by {
            if s.contains(x) {
                let i = choose|i: int| 0 <= i < s.len() && s[i] == x;
            }
        }
    }
}

pub proof fn lemma_insert_sorted_sorted<T>(t: Seq<T>, e: T, leq: spec_fn(T, T) -> bool)
    requires
        sorted_by_leq(t, leq),
        total_leq(leq),
    ensures
        sorted_by_leq(insert_sorted(t, e, leq), leq),
    decreases t.len(),
{
    let out = insert_sorted(t, e, leq);
    if t.len() == 0 {
    } else if leq(t.last(), e) {
        assert forall|i: int, j: int| 0 <= i < j < out.len() implies #[trigger] leq(
            out[i],
            out[j],
        ) by {
            if j == out.len() - 1 {
                if i < t.len() - 1 {
                    assert(leq(t[i], t[t.len() - 1]));
                }
            }
        }
    } else {
        let inner = insert_sorted(t.drop_last(), e, leq);
        lemma_insert_sorted_sorted(t.drop_last(), e, leq);
        lemma_insert_sorted_len(t.drop_last(), e, leq);
        assert(!leq(t.last(), e));
        assert(leq(e, t.last()));
        assert forall|i: int, j: int| 0 <= i < j < out.len() implies #[trigger] leq(
            out[i],
            out[j],
        ) by {
            if j == out.len() - 1 {
                // out[j] is t.last(); out[i] is an element of inner
                lemma_insert_sorted_contains(t.drop_last(), e, leq, inner[i]);
                assert(inner.contains(inner[i]));
                if inner[i] == e {
                    assert(leq(e, t.last()));
                } else {
                    let m = choose|m: int|
                        0 <= m < t.drop_last().len() && t.drop_last()[m] == inner[i];
                    assert(leq(t[m], t[t.len() - 1]));
                }
            } else {
                assert(leq(inner[i], inner[j]));
            }
        }
    }
}

pub proof fn lemma_sort_sorted<T>(s: Seq<T>, leq: spec_fn(T, T) -> bool)
    requires
        total_leq(leq),
    ensures
        sorted_by_leq(sort_by_leq(s, leq), leq),
    decreases s.len(),
{
    if s.len() > 0 {
        lemma_sort_sorted(s.drop_last(), leq);
        lemma_insert_sorted_sorted(sort_by_leq(s.drop_last(), leq), s.last(), leq);
    }
}

/// Where the backward scan of an insertion sort stops is where the
/// recursive insert lands.
pub proof fn lemma_insert_sorted_at<T>(t: Seq<T>, e: T, leq: spec_fn(T, T) -> bool, j: int)
    requires
        0 <= j <= t.len(),
        forall|m: int| j <= m < t.len() ==> !#[trigger] leq(t[m], e),
        j > 0 ==> leq(t[j - 1], e),
    ensures
        insert_sorted(t, e, leq) == t.insert(j, e),
    decreases t.len(),
{
    if t.len() == 0 {
        assert(insert_sorted(t, e, leq) =~= t.insert(0, e));
    } else if leq(t.last(), e) {
        assert(j == t.len());
        assert(t.push(e) =~= t.insert(j, e));
    } else {
        assert(j < t.len());
        lemma_insert_sorted_at(t.drop_last(), e, leq, j);
        assert(insert_sorted(t.drop_last(), e, leq).push(t.last()) =~= t.insert(j, e)) by {
            t.drop_last().insert_ensures(j, e);
            t.insert_ensures(j, e);
        }
    }
}

/// One step of the outer loop of an insertion sort: sorting one more
/// element is inserting it into the sorted prefix.
pub proof fn lemma_sort_step<T>(s: Seq<T>, k: int, leq: spec_fn(T, T) -> bool)
    requires
        0 <= k < s.len(),
    ensures
        sort_by_leq(s.take(k + 1), leq) == insert_sorted(sort_by_leq(s.take(k), leq), s[k], leq),
{
    assert(s.take(k + 1).drop_last() =~= s.take(k));
    assert(s.take(k + 1).last() == s[k]);
}

} // verus!
