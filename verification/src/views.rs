//! Small facts about vectors seen as sequences of mathematical values.

use vstd::prelude::*;

verus! {

/// A vector that grew by one item: its deep view grew by the item's.
pub proof fn lemma_pushed<T: DeepView>(before: Vec<T>, after: Vec<T>, item: T)
    requires
        after@ == before@.push(item),
    ensures
        after.deep_view() == before.deep_view().push(item.deep_view()),
{
    assert(after.deep_view() =~= before.deep_view().push(item.deep_view()));
}

/// An empty vector has an empty deep view.
pub proof fn lemma_empty<T: DeepView>(v: Vec<T>)
    requires
        v@.len() == 0,
    ensures
        v.deep_view() == Seq::<T::V>::empty(),
{
    assert(v.deep_view() =~= Seq::<T::V>::empty());
}

/// A vector of numbers is its own deep view.
pub proof fn lemma_numbers(v: Vec<u64>)
    ensures
        v.deep_view() == v@,
{
    assert(v.deep_view() =~= v@);
}

} // verus!
