//! Lists that are taken apart from their front.

use vstd::prelude::*;

verus! {

/// The list back to front, so that its elements can be taken off in their order.
pub fn reversed<T>(list: Vec<T>) -> (result: Vec<T>)
    ensures
        result@ == list@.reverse(),
{
    let ghost all = list@;
    let mut rest = list;
    let mut result: Vec<T> = Vec::new();
    while rest.len() > 0
        invariant
            rest@ == all.take(rest@.len() as int),
            rest@.len() <= all.len(),
            result@ == all.skip(rest@.len() as int).reverse(),
        decreases rest@.len(),
    {
        let ghost last = rest@.len() - 1;
        if let Some(item) = rest.pop() {
            assert(item == all[last]);
            result.push(item);
            assert(all.skip(last).reverse() =~= all.skip(last + 1).reverse().push(item));
        }
    }
    assert(all.skip(0) =~= all);
    result
}

} // verus!
