//! The vote store that every peer of the network runs.
use std::collections::HashMap;
use vstd::prelude::*;

verus! {

broadcast use vstd::std_specs::hash::group_hash_axioms;

/// A request to a peer's vote store: keep a vote under a key, or look it up.
#[derive(Clone, Copy, Debug, PartialEq, Eq, Structural)]
pub enum StorageMessage {
    Store(u32, usize),
    Retrieve(u32),
}

/// What a vote store answers.
#[derive(Clone, Copy, Debug, PartialEq, Eq, Structural)]
pub enum StorageResult {
    Found(usize),
    NotFound,
}

/// The effect of one request on the stored votes, and the answer to it.
///
/// A store overwrites whatever the key held and is answered `NotFound`;
/// a lookup leaves the votes as they are.
pub open spec fn storage_step(votes: Map<u32, usize>, msg: StorageMessage) -> (
    Map<u32, usize>,
    StorageResult,
) {
    match msg {
        StorageMessage::Store(id, data) => (votes.insert(id, data), StorageResult::NotFound),
        StorageMessage::Retrieve(id) => (
            votes,
            if votes.contains_key(id) {
                StorageResult::Found(votes[id])
            } else {
                StorageResult::NotFound
            },
        ),
    }
}

/// The votes that one peer keeps, by key.
pub struct VoteStorageActor {
    pub storage: HashMap<u32, usize>,
}

impl View for VoteStorageActor {
    type V = Map<u32, usize>;

    open spec fn view(&self) -> Map<u32, usize> {
        self.storage@
    }
}

impl VoteStorageActor {
    /// A store that holds no vote.
    pub fn new() -> (s: Self)
        ensures
            s@ == Map::<u32, usize>::empty(),
    {
        VoteStorageActor { storage: HashMap::new() }
    }

    /// Answers one request, as `storage_step` says.
    pub fn handle(&mut self, msg: StorageMessage) -> (r: StorageResult)
        ensures
            (final(self)@, r) == storage_step(old(self)@, msg),
    {
        match msg {
            StorageMessage::Store(id, data) => {
                self.storage.insert(id, data);
                StorageResult::NotFound
            },
            StorageMessage::Retrieve(id) => {
                match self.storage.get(&id) {
                    Some(data) => StorageResult::Found(*data),
                    None => StorageResult::NotFound,
                }
            },
        }
    }
}

/// A lookup right after a store under the same key answers the stored vote.
pub proof fn lemma_retrieve_after_store(votes: Map<u32, usize>, id: u32, data: usize)
    ensures
        storage_step(storage_step(votes, StorageMessage::Store(id, data)).0, StorageMessage::Retrieve(id)).1
            == StorageResult::Found(data),
{
}

/// A store under one key does not change what a lookup of another key answers.
pub proof fn lemma_store_keeps_other_keys(votes: Map<u32, usize>, id: u32, data: usize, other: u32)
    requires
        other != id,
    ensures
        storage_step(storage_step(votes, StorageMessage::Store(id, data)).0, StorageMessage::Retrieve(other)).1
            == storage_step(votes, StorageMessage::Retrieve(other)).1,
{
}

/// A lookup changes nothing, so asking twice gives the same answer.
pub proof fn lemma_retrieve_is_read_only(votes: Map<u32, usize>, id: u32)
    ensures
        storage_step(votes, StorageMessage::Retrieve(id)).0 == votes,
        storage_step(storage_step(votes, StorageMessage::Retrieve(id)).0, StorageMessage::Retrieve(id)).1
            == storage_step(votes, StorageMessage::Retrieve(id)).1,
{
}

/// A lookup in a store that holds nothing is answered `NotFound`.
pub proof fn lemma_empty_store_finds_nothing(id: u32)
    ensures
        storage_step(Map::<u32, usize>::empty(), StorageMessage::Retrieve(id)).1 == StorageResult::NotFound,
{
}

/// The votes after a run of requests, answered one after another.
pub open spec fn storage_run(votes: Map<u32, usize>, msgs: Seq<StorageMessage>) -> Map<u32, usize>
    decreases msgs.len(),
{
    if msgs.len() == 0 {
        votes
    } else {
        storage_step(storage_run(votes, msgs.drop_last()), msgs.last()).0
    }
}

/// None of `msgs` stores under `id`.
pub open spec fn no_store_under(msgs: Seq<StorageMessage>, id: u32) -> bool {
    forall|i: int| 0 <= i < msgs.len() ==> !(#[trigger] msgs[i] matches StorageMessage::Store(k, _) && k == id)
}

/// Requests that store under other keys, and lookups, leave what a key holds as it was.
pub proof fn lemma_run_keeps_key(votes: Map<u32, usize>, msgs: Seq<StorageMessage>, id: u32)
    requires
        no_store_under(msgs, id),
    ensures
        storage_run(votes, msgs).contains_key(id) == votes.contains_key(id),
        votes.contains_key(id) ==> storage_run(votes, msgs)[id] == votes[id],
    decreases msgs.len(),
{
    if msgs.len() > 0 {
        let rest = msgs.drop_last();
        assert forall|i: int| 0 <= i < rest.len() implies !(#[trigger] rest[i] matches StorageMessage::Store(k, _) && k == id) by {
            assert(rest[i] == msgs[i]);
        }
        lemma_run_keeps_key(votes, rest, id);
        assert(!(msgs[msgs.len() - 1] matches StorageMessage::Store(k, _) && k == id));
    }
}

/// A lookup answers the vote of the last store under its key, whatever requests
/// came in between, so long as none of them stored under that key.
pub proof fn lemma_read_after_write(
    votes: Map<u32, usize>,
    id: u32,
    data: usize,
    between: Seq<StorageMessage>,
)
    requires
        no_store_under(between, id),
    ensures
        storage_step(
            storage_run(storage_step(votes, StorageMessage::Store(id, data)).0, between),
            StorageMessage::Retrieve(id),
        ).1 == StorageResult::Found(data),
{
    lemma_run_keeps_key(storage_step(votes, StorageMessage::Store(id, data)).0, between, id);
}

} // verus!
