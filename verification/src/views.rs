use vstd::prelude::*;

verus! {

/// A row of the deep view of a grid is that row's own view.
pub broadcast proof fn lemma_row_deep_view(v: Vec<Vec<i32>>, i: int)
    requires
        0 <= i < v@.len(),
    ensures
        #[trigger] v.deep_view()[i] == v@[i]@,
{
    assert(v.deep_view()[i] =~= v@[i]@);
}

} // verus!
