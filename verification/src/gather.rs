//! Collecting a sample of the votes stored in the network.
//!
//! The ids of the pool are shuffled and asked for one after another, from the
//! back of the shuffled list, until enough votes are found or no id is left.
//! The caller sends each request and hands the answer back.
use crate::storage::StorageMessage;
use rand::seq::SliceRandom;
use std::collections::HashMap;
use vstd::prelude::*;
use vstd::std_specs::iter::IteratorSpec;

verus! {

broadcast use {
    vstd::seq_lib::group_to_multiset_ensures,
    vstd::multiset::group_multiset_axioms,
    vstd::std_specs::hash::group_hash_axioms,
};

/// Calls `rand::seq::SliceRandom::shuffle` with the thread's random generator.
///
/// The crate permutes the slice in place (Fisher-Yates swaps); the contract
/// states only that the same ids remain, as many times each. Which order comes
/// out is left unsaid: it is chance.
#[verifier::external_body]
fn shuffle_ids(ids: &mut Vec<u32>)
    ensures
        final(ids)@.to_multiset() == old(ids)@.to_multiset(),
{
    ids.shuffle(&mut rand::thread_rng());
}

/// Calls `rand::seq::SliceRandom::choose` with the thread's random generator.
///
/// The crate returns `None` for an empty slice and otherwise an element of the
/// slice at a random index; the contract states that much. Which element comes
/// out is left unsaid: it is chance.
#[verifier::external_body]
fn choose_id(pool: &Vec<u32>) -> (r: Option<u32>)
    ensures
        r is None <==> pool@.len() == 0,
        r matches Some(id) ==> pool@.contains(id),
{
    pool.choose(&mut rand::thread_rng()).copied()
}

/// The request that casts the vote `choice` under a random id of the pool.
///
/// The id is drawn at random; the contract states that it is one of the pool's.
pub fn cast_vote(pool: &Vec<u32>, choice: usize) -> (r: StorageMessage)
    requires
        pool@.len() > 0,
    ensures
        r matches StorageMessage::Store(id, data) && pool@.contains(id) && data == choice,
{
    let id = choose_id(pool).unwrap();
    StorageMessage::Store(id, choice)
}

/// The answer of the network to a lookup of an id.
#[derive(Clone, Copy, Debug, PartialEq, Eq, Structural)]
pub enum RetrieveResponse {
    Found(u32, usize),
    NotFound(u32),
}

/// The state of a gathering, as the contracts see it.
pub struct GatherState {
    /// The ids of the pool that the gathering started from.
    pub pool: Seq<u32>,
    /// The ids asked for so far, in order.
    pub asked: Seq<u32>,
    /// The ids not asked for yet; the next one asked is the last.
    pub pending: Seq<u32>,
    /// The votes found so far, by id.
    pub votes: Map<u32, usize>,
    /// How many votes are wanted.
    pub wanted: nat,
    /// A request is out and its answer not yet recorded.
    pub awaiting: bool,
}

/// What holds of a gathering at every step: the ids asked for and those left
/// are exactly the pool's; no more votes are held than are wanted, and fewer
/// while an answer is awaited.
pub open spec fn gather_ok(s: GatherState) -> bool {
    &&& s.asked.to_multiset().add(s.pending.to_multiset()) == s.pool.to_multiset()
    &&& s.votes.dom().finite()
    &&& s.votes.len() <= s.wanted
    &&& s.awaiting ==> s.votes.len() < s.wanted
}

/// The votes after an answer: a vote found is held under its id, replacing
/// any vote the id held; an id not found changes nothing.
pub open spec fn record_answer(votes: Map<u32, usize>, resp: RetrieveResponse) -> Map<u32, usize> {
    match resp {
        RetrieveResponse::Found(id, vote) => votes.insert(id, vote),
        RetrieveResponse::NotFound(_) => votes,
    }
}

/// `results` holds the vote of each id of `votes` once, in some order of the ids.
pub open spec fn lists_votes(votes: Map<u32, usize>, results: Seq<usize>) -> bool {
    exists|ids: Seq<u32>|
        #![trigger ids.to_set()]
        ids.no_duplicates() && ids.to_set() == votes.dom() && results == ids.map_values(
            |id: u32| votes[id],
        )
}

/// A gathering of votes from the network.
pub struct VoteGatherer {
    pending: Vec<u32>,
    votes: HashMap<u32, usize>,
    wanted: usize,
    awaiting: bool,
    pool: Ghost<Seq<u32>>,
    asked: Ghost<Seq<u32>>,
}

impl VoteGatherer {
    /// The state of the gathering.
    pub closed spec fn state(&self) -> GatherState {
        GatherState {
            pool: self.pool@,
            asked: self.asked@,
            pending: self.pending@,
            votes: self.votes@,
            wanted: self.wanted as nat,
            awaiting: self.awaiting,
        }
    }
}

impl View for VoteGatherer {
    type V = GatherState;

    open spec fn view(&self) -> GatherState {
        self.state()
    }
}

impl VoteGatherer {
    /// Starts gathering `wanted` votes, asking for the ids from the last of `ids` to the first.
    pub fn from_ids(ids: Vec<u32>, wanted: usize) -> (g: Self)
        ensures
            g@.pool == ids@,
            g@.asked == Seq::<u32>::empty(),
            g@.pending == ids@,
            g@.votes == Map::<u32, usize>::empty(),
            g@.wanted == wanted,
            !g@.awaiting,
            gather_ok(g@),
    {
        proof {
            assert(Seq::<u32>::empty().to_multiset().add(ids@.to_multiset()) =~= ids@.to_multiset());
        }
        let ghost pool = ids@;
        VoteGatherer {
            pending: ids,
            votes: HashMap::new(),
            wanted,
            awaiting: false,
            pool: Ghost(pool),
            asked: Ghost(Seq::empty()),
        }
    }

    /// Starts gathering `wanted` votes from the ids of `pool`, in a random order.
    pub fn start(pool: &Vec<u32>, wanted: usize) -> (g: Self)
        ensures
            g@.pool == pool@,
            g@.asked == Seq::<u32>::empty(),
            g@.pending.to_multiset() == pool@.to_multiset(),
            g@.votes == Map::<u32, usize>::empty(),
            g@.wanted == wanted,
            !g@.awaiting,
            gather_ok(g@),
    {
        let mut ids = pool.clone();
        shuffle_ids(&mut ids);
        let mut g = Self::from_ids(ids, wanted);
        proof {
            g.pool@ = pool@;
        }
        g
    }

    /// The id to ask for next, while fewer votes than wanted are held and ids
    /// are left: the last id not yet asked for. `None` ends the gathering.
    pub fn next_request(&mut self) -> (r: Option<u32>)
        requires
            gather_ok(old(self)@),
            !old(self)@.awaiting,
        ensures
            gather_ok(final(self)@),
            final(self)@.pool == old(self)@.pool,
            final(self)@.votes == old(self)@.votes,
            final(self)@.wanted == old(self)@.wanted,
            if old(self)@.votes.len() < old(self)@.wanted && old(self)@.pending.len() > 0 {
                &&& r == Some(old(self)@.pending.last())
                &&& final(self)@.pending == old(self)@.pending.drop_last()
                &&& final(self)@.asked == old(self)@.asked.push(old(self)@.pending.last())
                &&& final(self)@.awaiting
            } else {
                &&& r is None
                &&& final(self)@ == old(self)@
            },
    {
        if self.votes.len() < self.wanted && self.pending.len() > 0 {
            let ghost before = self.pending@;
            let id = self.pending.pop().unwrap();
            proof {
                assert(before =~= self.pending@.push(id));
                let new_asked = self.asked@.push(id);
                assert(new_asked.to_multiset().add(self.pending@.to_multiset())
                    =~= self.asked@.to_multiset().add(before.to_multiset()));
                self.asked@ = new_asked;
            }
            self.awaiting = true;
            Some(id)
        } else {
            None
        }
    }

    /// Records the answer to the request that is out.
    pub fn record(&mut self, resp: RetrieveResponse)
        requires
            gather_ok(old(self)@),
            old(self)@.awaiting,
        ensures
            gather_ok(final(self)@),
            !final(self)@.awaiting,
            final(self)@.pool == old(self)@.pool,
            final(self)@.asked == old(self)@.asked,
            final(self)@.pending == old(self)@.pending,
            final(self)@.wanted == old(self)@.wanted,
            final(self)@.votes == record_answer(old(self)@.votes, resp),
    {
        self.awaiting = false;
        match resp {
            RetrieveResponse::Found(id, vote) => {
                self.votes.insert(id, vote);
            },
            RetrieveResponse::NotFound(_) => {},
        }
    }

    /// The votes found, one per id, in the order in which the map holds its ids
    /// (which the hasher's random seed decides).
    pub fn results(&self) -> (r: Vec<usize>)
        ensures
            lists_votes(self@.votes, r@),
    {
        let mut r: Vec<usize> = Vec::new();
        let ghost all = vstd::std_specs::hash::spec_keys_iter(&self.votes).remaining().unref();
        for k in it: self.votes.keys()
            invariant
                all == it.seq().unref(),
                r@ == it.seq().unref().take(it.index()).map_values(|id: u32| self.votes@[id]),
        {
            let v = self.votes.get(k);
            r.push(*v.unwrap());
        }
        proof {
            assert(all.take(all.len() as int) =~= all);
            assert(all.no_duplicates() && all.to_set() == self.votes@.dom());
        }
        r
    }

    /// How many votes have been found so far.
    pub fn found(&self) -> (n: usize)
        ensures
            n == self@.votes.len(),
    {
        self.votes.len()
    }
}

/// Only ids of the pool are asked for, and each no more often than the pool
/// holds it; so a gathering asks at most as many times as the pool has ids.
pub proof fn lemma_asked_from_pool(s: GatherState, id: u32)
    requires
        gather_ok(s),
    ensures
        s.asked.to_multiset().count(id) <= s.pool.to_multiset().count(id),
        s.asked.contains(id) ==> s.pool.contains(id),
        s.asked.len() + s.pending.len() == s.pool.len(),
{
    assert(s.asked.to_multiset().add(s.pending.to_multiset()).len() == s.pool.to_multiset().len());
}

/// A vote found is then held under its id, and the votes of the other ids stay as they were.
pub proof fn lemma_found_vote_is_kept(votes: Map<u32, usize>, id: u32, vote: usize, other: u32)
    requires
        other != id,
    ensures
        record_answer(votes, RetrieveResponse::Found(id, vote)).contains_key(id),
        record_answer(votes, RetrieveResponse::Found(id, vote))[id] == vote,
        record_answer(votes, RetrieveResponse::Found(id, vote)).contains_key(other)
            == votes.contains_key(other),
        votes.contains_key(other) ==> record_answer(votes, RetrieveResponse::Found(id, vote))[other]
            == votes[other],
{
}

/// An id not found leaves the votes as they were.
pub proof fn lemma_not_found_changes_nothing(votes: Map<u32, usize>, id: u32)
    ensures
        record_answer(votes, RetrieveResponse::NotFound(id)) == votes,
{
}

} // verus!
