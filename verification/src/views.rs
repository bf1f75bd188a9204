//! The view of a sequence of values: the sequence of their views.

use vstd::prelude::*;

verus! {

/// The sequence of the views of the elements of `s`.
pub open spec fn views_of<T: View>(s: Seq<T>) -> Seq<T::V>
    decreases s.len(),
{
    if s.len() == 0 {
        Seq::empty()
    } else {
        views_of(s.drop_last()).push(s.last()@)
    }
}

pub broadcast proof fn lemma_views_of_len<T: View>(s: Seq<T>)
    ensures
        (#[trigger] views_of(s)).len() == s.len(),
    decreases s.len(),
{
    if s.len() > 0 {
        lemma_views_of_len(s.drop_last());
    }
}

pub broadcast proof fn lemma_views_of_index<T: View>(s: Seq<T>, i: int)
    requires
        0 <= i < s.len(),
    ensures
        #[trigger] views_of(s)[i] == s[i]@,
    decreases s.len(),
{
    lemma_views_of_len(s);
    if i + 1 < s.len() {
        lemma_views_of_index(s.drop_last(), i);
        lemma_views_of_len(s.drop_last());
    }
}

pub broadcast proof fn lemma_views_of_push<T: View>(s: Seq<T>, x: T)
    ensures
        #[trigger] views_of(s.push(x)) == views_of(s).push(x@),
{
    assert(s.push(x).drop_last() =~= s);
    assert(s.push(x).last() == x);
}

pub broadcast proof fn lemma_views_of_drop_last<T: View>(s: Seq<T>)
    requires
        s.len() > 0,
    ensures
        #[trigger] views_of(s.drop_last()) == views_of(s).drop_last(),
{
    lemma_views_of_len(s.drop_last());
}

pub broadcast group group_views_of {
    lemma_views_of_len,
    lemma_views_of_index,
    lemma_views_of_push,
    lemma_views_of_drop_last,
}

} // verus!
