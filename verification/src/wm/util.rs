//! Small helpers on lists.

use vstd::prelude::*;

verus! {

/// A list read from its end.
pub open spec fn backwards<T>(items: Seq<T>) -> Seq<T> {
    Seq::new(items.len(), |k: int| items[items.len() - 1 - k])
}

/// Appending to a list prepends to the list read from its end.
pub proof fn lemma_backwards_push<T>(items: Seq<T>, item: T)
    ensures
        backwards(items.push(item)) == seq![item] + backwards(items),
{
    assert(backwards(items.push(item)) =~= seq![item] + backwards(items));
}

/// Turns a list around.
pub fn reverse<T>(items: &mut Vec<T>)
    ensures
        final(items)@ == backwards(old(items)@),
{
    let ghost before = items@;
    let mut turned: Vec<T> = Vec::new();
    while items.len() > 0
        invariant
            items@ == before.take(items@.len() as int),
            turned@.len() + items@.len() == before.len(),
            forall|k: int| 0 <= k < turned@.len() ==> turned@[k] == before[before.len() - 1 - k],
        decreases items.len(),
    {
        let item = items.pop().unwrap();
        turned.push(item);
        assert(items@ =~= before.take(items@.len() as int));
    }
    assert(turned@ =~= backwards(before));
    *items = turned;
}

} // verus!
