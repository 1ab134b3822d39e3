use p2pvote::gather::{cast_vote, RetrieveResponse, VoteGatherer};
use p2pvote::storage::StorageMessage;

#[test]
fn cast_vote_uses_an_id_of_the_pool() {
    let pool = vec![11u32, 22, 33];
    for _ in 0..20 {
        match cast_vote(&pool, 2) {
            StorageMessage::Store(id, choice) => {
                assert!(pool.contains(&id));
                assert_eq!(choice, 2);
            }
            other => panic!("unexpected request {:?}", other),
        }
    }
}

#[test]
fn gathering_asks_every_id_once_then_stops() {
    let pool = vec![1u32, 2, 3, 4];
    let mut g = VoteGatherer::start(&pool, 10);
    let mut asked = Vec::new();
    while let Some(id) = g.next_request() {
        asked.push(id);
        g.record(RetrieveResponse::NotFound(id));
    }
    asked.sort();
    assert_eq!(asked, pool);
    assert_eq!(g.found(), 0);
    assert!(g.results().is_empty());
}

#[test]
fn gathering_stops_at_wanted() {
    let pool = vec![5u32, 6, 7, 8, 9];
    let mut g = VoteGatherer::start(&pool, 2);
    let mut requests = 0;
    while let Some(id) = g.next_request() {
        requests += 1;
        g.record(RetrieveResponse::Found(id, (id % 2) as usize));
    }
    assert_eq!(requests, 2);
    assert_eq!(g.found(), 2);
    assert_eq!(g.results().len(), 2);
}

#[test]
fn a_found_id_keeps_its_last_vote() {
    let pool = vec![1u32, 1, 1];
    let mut g = VoteGatherer::start(&pool, 3);
    let mut vote = 0;
    while let Some(id) = g.next_request() {
        g.record(RetrieveResponse::Found(id, vote));
        vote += 1;
    }
    assert_eq!(g.found(), 1);
    assert_eq!(g.results(), vec![2]);
}

#[test]
fn nothing_wanted_asks_nothing() {
    let pool = vec![1u32, 2];
    let mut g = VoteGatherer::start(&pool, 0);
    assert_eq!(g.next_request(), None);
}

#[test]
fn empty_pool_asks_nothing() {
    let pool: Vec<u32> = Vec::new();
    let mut g = VoteGatherer::start(&pool, 3);
    assert_eq!(g.next_request(), None);
}

#[test]
fn ids_are_asked_from_the_back() {
    let mut g = VoteGatherer::from_ids(vec![1, 2, 3], 2);
    assert_eq!(g.next_request(), Some(3));
    g.record(RetrieveResponse::Found(3, 0));
    assert_eq!(g.next_request(), Some(2));
    g.record(RetrieveResponse::NotFound(2));
    assert_eq!(g.next_request(), Some(1));
    g.record(RetrieveResponse::Found(1, 4));
    assert_eq!(g.next_request(), None);
    let mut results = g.results();
    results.sort();
    assert_eq!(results, vec![0, 4]);
}

#[test]
fn a_repeated_id_keeps_its_latest_vote() {
    let mut g = VoteGatherer::from_ids(vec![7, 8, 7], 5);
    while let Some(id) = g.next_request() {
        g.record(RetrieveResponse::Found(id, id as usize * 10 + g.found()));
    }
    let mut results = g.results();
    results.sort();
    assert_eq!(results, vec![72, 81]);
}

#[test]
fn results_repeat_equal_votes_of_different_ids() {
    let mut g = VoteGatherer::from_ids(vec![1, 2, 3], 3);
    while let Some(id) = g.next_request() {
        g.record(RetrieveResponse::Found(id, 5));
    }
    assert_eq!(g.results(), vec![5, 5, 5]);
}
