//! The views of list elements.

use vstd::prelude::*;

verus! {

/// The views of the elements of a list.
pub open spec fn views<T: View>(s: Seq<T>) -> Seq<T::V> {
    Seq::new(s.len(), |i: int| s[i]@)
}

pub broadcast proof fn lemma_views_push<T: View>(s: Seq<T>, x: T)
    ensures
        #[trigger] views(s.push(x)) == views(s).push(x@),
{
    assert(views(s.push(x)) =~= views(s).push(x@));
}

pub broadcast proof fn lemma_views_update<T: View>(s: Seq<T>, i: int, x: T)
    requires
        0 <= i < s.len(),
    ensures
        #[trigger] views(s.update(i, x)) == views(s).update(i, x@),
{
    assert(views(s.update(i, x)) =~= views(s).update(i, x@));
}

pub broadcast proof fn lemma_views_insert<T: View>(s: Seq<T>, i: int, x: T)
    requires
        0 <= i <= s.len(),
    ensures
        #[trigger] views(s.insert(i, x)) == views(s).insert(i, x@),
{
    assert(views(s.insert(i, x)) =~= views(s).insert(i, x@));
}

pub broadcast proof fn lemma_views_remove<T: View>(s: Seq<T>, i: int)
    requires
        0 <= i < s.len(),
    ensures
        #[trigger] views(s.remove(i)) == views(s).remove(i),
{
    assert(views(s.remove(i)) =~= views(s).remove(i));
}

pub broadcast proof fn lemma_views_empty<T: View>()
    ensures
        #[trigger] views(Seq::<T>::empty()) == Seq::<T::V>::empty(),
{
    assert(views(Seq::<T>::empty()) =~= Seq::<T::V>::empty());
}

pub broadcast group group_views {
    lemma_views_push,
    lemma_views_update,
    lemma_views_insert,
    lemma_views_remove,
    lemma_views_empty,
}

/// The results that `f` gives for the elements of a list, in order.
pub open spec fn collected<A, B>(s: Seq<A>, f: spec_fn(A) -> Option<B>) -> Seq<B>
    decreases s.len(),
{
    if s.len() == 0 {
        Seq::empty()
    } else {
        match f(s.last()) {
            Some(b) => collected(s.drop_last(), f).push(b),
            None => collected(s.drop_last(), f),
        }
    }
}

pub proof fn lemma_collected_step<A, B>(s: Seq<A>, f: spec_fn(A) -> Option<B>, i: int)
    requires
        0 <= i < s.len(),
    ensures
        collected(s.take(i + 1), f) == (match f(s[i]) {
            Some(b) => collected(s.take(i), f).push(b),
            None => collected(s.take(i), f),
        }),
{
    assert(s.take(i + 1).drop_last() =~= s.take(i));
    assert(s.take(i + 1).last() == s[i]);
}

pub proof fn lemma_collected_member<A, B>(s: Seq<A>, f: spec_fn(A) -> Option<B>, k: int)
    requires
        0 <= k < collected(s, f).len(),
    ensures
        exists|i: int| 0 <= i < s.len() && f(#[trigger] s[i]) == Some(collected(s, f)[k]),
    decreases s.len(),
{
    let rest = s.drop_last();
    if f(s.last()) is Some && k == collected(rest, f).len() {
        assert(f(s[s.len() - 1]) == Some(collected(s, f)[k]));
    } else {
        lemma_collected_member(rest, f, k);
        let i = choose|i: int| 0 <= i < rest.len() && f(#[trigger] rest[i]) == Some(
            collected(rest, f)[k],
        );
        assert(rest[i] == s[i]);
    }
}

/// The elements for which `f` has a result, and the results, go together one
/// by one.
pub proof fn lemma_collected_filter<A, B>(
    s: Seq<A>,
    f: spec_fn(A) -> Option<B>,
    keep: spec_fn(A) -> bool,
)
    requires
        forall|x: A| #![trigger f(x)] #![trigger keep(x)] keep(x) <==> f(x) is Some,
    ensures
        collected(s, f).len() == s.filter(keep).len(),
        forall|j: int|
            0 <= j < collected(s, f).len() ==> f(#[trigger] s.filter(keep)[j]) == Some(
                collected(s, f)[j],
            ),
        forall|j: int|
            0 <= j < collected(s, f).len() ==> f(s.filter(keep)[j]) == Some(
                #[trigger] collected(s, f)[j],
            ),
    decreases s.len(),
{
    reveal(Seq::filter);
    if s.len() > 0 {
        lemma_collected_filter(s.drop_last(), f, keep);
        assert(keep(s.last()) <==> f(s.last()) is Some);
    }
}

} // verus!
