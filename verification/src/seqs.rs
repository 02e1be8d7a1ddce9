//! Small sequence lemmas shared by the modules that build filtered vectors
//! in loops.

use vstd::prelude::*;

verus! {

/// Filtering distributes over push: the pushed element is kept exactly when
/// the predicate accepts it.
pub proof fn lemma_filter_push<A>(s: Seq<A>, pred: spec_fn(A) -> bool, x: A)
    ensures
        s.push(x).filter(pred) == (if pred(x) {
            s.filter(pred).push(x)
        } else {
            s.filter(pred)
        }),
{
    reveal(Seq::filter);
    assert(s.push(x).drop_last() =~= s);
    assert(s.push(x).last() == x);
}

} // verus!
