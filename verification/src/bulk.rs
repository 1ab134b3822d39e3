//! Casting many votes at once, from a list of records.
use crate::storage::StorageMessage;
use vstd::prelude::*;

verus! {

/// One record of a bulk vote file: the id to vote under, and the option chosen.
#[derive(Clone, Copy, Debug, PartialEq, Eq, Structural)]
pub struct Vote {
    pub key: u32,
    pub vote: usize,
}

/// The requests that store each of `votes` under its id, in the order of the records.
pub fn store_requests(votes: &Vec<Vote>) -> (r: Vec<StorageMessage>)
    ensures
        r@.len() == votes@.len(),
        forall|i: int|
            0 <= i < votes@.len() ==> #[trigger] r@[i] == StorageMessage::Store(
                votes@[i].key,
                votes@[i].vote,
            ),
{
    let n = votes.len();
    let mut r: Vec<StorageMessage> = Vec::new();
    let mut k: usize = 0;
    while k < n
        invariant
            k <= n,
            n == votes@.len(),
            r@.len() == k,
            forall|i: int|
                0 <= i < k ==> #[trigger] r@[i] == StorageMessage::Store(
                    votes@[i].key,
                    votes@[i].vote,
                ),
        decreases n - k,
    {
        let v = votes[k];
        r.push(StorageMessage::Store(v.key, v.vote));
        k = k + 1;
    }
    r
}

} // verus!
