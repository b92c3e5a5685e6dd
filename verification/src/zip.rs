//! Walking two slices side by side.

use vstd::prelude::*;

verus! {

/// The pairs of the items of two slices at the same place, as far as both
/// reach.
pub fn zip<'a, A, B>(left: &'a [A], right: &'a [B]) -> (r: Vec<(&'a A, &'a B)>)
    ensures
        r@.len() == (if left@.len() <= right@.len() {
            left@.len()
        } else {
            right@.len()
        }),
        forall|i: int| 0 <= i < r@.len() ==> *r@[i].0 == left@[i] && *r@[i].1 == right@[i],
{
    let n: usize = if left.len() <= right.len() {
        left.len()
    } else {
        right.len()
    };
    let mut pairs: Vec<(&'a A, &'a B)> = Vec::new();
    let mut i: usize = 0;
    while i < n
        invariant
            i <= n,
            n <= left@.len(),
            n <= right@.len(),
            pairs@.len() == i,
            forall|k: int| 0 <= k < i ==> *pairs@[k].0 == left@[k] && *pairs@[k].1 == right@[k],
        decreases n - i,
    {
        pairs.push((&left[i], &right[i]));
        i += 1;
    }
    pairs
}

} // verus!
