//! Bridging facts between the deep view and the shallow view of vectors,
//! used throughout the crate to connect executable indexing with the model.

use vstd::prelude::*;

verus! {

/// The deep view of a vector has the length of its shallow view.
pub broadcast proof fn lemma_deep_len<T: DeepView>(v: Vec<T>)
    ensures
        #![trigger v.view()]
        v.deep_view().len() == v@.len(),
{
}

/// The deep view of a vector is the deep view of its elements.
pub broadcast proof fn lemma_deep_index<T: DeepView>(v: Vec<T>, i: int)
    requires
        0 <= i < v@.len(),
    ensures
        #![trigger v.view()[i]]
        #![trigger v.deep_view()[i]]
        v.deep_view()[i] == v@[i].deep_view(),
{
}

} // verus!
