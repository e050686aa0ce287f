//! Byte-string helpers shared by the trie and the decision procedure.

use vstd::prelude::*;

verus! {

/// Whether `a` and `b` agree on their first `n` bytes and on no more:
/// after `n` bytes one of them ends or they differ.
pub open spec fn common_prefix(a: Seq<u8>, b: Seq<u8>, n: int) -> bool {
    &&& 0 <= n <= a.len()
    &&& n <= b.len()
    &&& forall|j: int| 0 <= j < n ==> a[j] == b[j]
    &&& (n < a.len() && n < b.len() ==> a[n] != b[n])
}

/// Returns the smallest index where two byte strings are not equal,
/// looking only at the positions that both have.
pub fn differs_at(a: &[u8], b: &[u8]) -> (r: Option<usize>)
    ensures
        match r {
            Some(i) => i < a@.len() && i < b@.len() && a@[i as int] != b@[i as int]
                && forall|j: int| 0 <= j < i ==> a@[j] == b@[j],
            None => forall|j: int| 0 <= j < a@.len() && j < b@.len() ==> a@[j] == b@[j],
        },
{
    let mut i: usize = 0;
    while i < a.len() && i < b.len()
        invariant
            forall|j: int| 0 <= j < i ==> a@[j] == b@[j],
            i <= a@.len(),
            i <= b@.len(),
        decreases a@.len() - i,
    {
        if a[i] != b[i] {
            return Some(i);
        }
        i += 1;
    }
    None
}

} // verus!
