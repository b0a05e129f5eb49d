//! Moving the items of a vector out of it.

use vstd::prelude::*;

verus! {

/// Moves every item out of the list, last first.
pub fn take_in_reverse<T>(a: &mut Vec<T>) -> (res: Vec<T>)
    ensures
        final(a)@.len() == 0,
        res@.len() == old(a)@.len(),
        forall|k: int| 0 <= k < res@.len() ==> res@[k] == old(a)@[old(a)@.len() - 1 - k],
{
    let mut res: Vec<T> = Vec::new();
    while a.len() > 0
        invariant
            a@.len() + res@.len() == old(a)@.len(),
            a@ == old(a)@.take(a@.len() as int),
            forall|k: int| 0 <= k < res@.len() ==> res@[k] == old(a)@[old(a)@.len() - 1 - k],
        decreases a@.len(),
    {
        match a.pop() {
            Some(item) => {
                res.push(item);
            },
            None => {},
        }
    }
    res
}

} // verus!
