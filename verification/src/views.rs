//! Bridge lemmas between the deep view of the vectors that hold the system
//! and the views of their elements.

use vstd::prelude::*;

use crate::rational::Rat;

verus! {

/// The deep view of a rational vector has the vector's length.
pub broadcast proof fn lemma_rvec_view_len(v: Vec<Rat>)
    ensures
        (#[trigger] v.deep_view()).len() == v@.len(),
{
}

/// Indexing the deep view of a rational vector is viewing the indexed element.
pub broadcast proof fn lemma_rvec_view_index(v: Vec<Rat>, i: int)
    requires
        0 <= i < v@.len(),
    ensures
        #![trigger v.deep_view()[i]]
        #![trigger v@[i]]
        v.deep_view()[i] == v@[i]@,
{
}

/// The deep view of a matrix has the matrix's length.
pub broadcast proof fn lemma_mat_view_len(m: Vec<Vec<Rat>>)
    ensures
        (#[trigger] m.deep_view()).len() == m@.len(),
{
}

/// Indexing the deep view of a matrix is the deep view of the indexed row.
pub broadcast proof fn lemma_mat_view_index(m: Vec<Vec<Rat>>, i: int)
    requires
        0 <= i < m@.len(),
    ensures
        #![trigger m.deep_view()[i]]
        #![trigger m@[i]]
        m.deep_view()[i] == m@[i].deep_view(),
{
}


} // verus!
