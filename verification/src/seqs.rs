//! Sequences that are filtered and mapped.

use vstd::prelude::*;

verus! {

/// A filtered and mapped sequence with one more item at its end.
pub proof fn lemma_select_push<A, B>(
    items: Seq<A>,
    last: A,
    keep: spec_fn(A) -> bool,
    to: spec_fn(A) -> B,
)
    ensures
        items.push(last).filter(keep).map_values(to) == if keep(last) {
            items.filter(keep).map_values(to).push(to(last))
        } else {
            items.filter(keep).map_values(to)
        },
{
    assert(items.push(last).drop_last() =~= items);
    reveal(Seq::filter);
    if keep(last) {
        assert(items.push(last).filter(keep) =~= items.filter(keep).push(last));
        assert(items.filter(keep).push(last).map_values(to) =~= items.filter(keep).map_values(
            to,
        ).push(to(last)));
    } else {
        assert(items.push(last).filter(keep) =~= items.filter(keep));
    }
}

} // verus!
