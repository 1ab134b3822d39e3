use p2pvote::bulk::{store_requests, Vote};
use p2pvote::storage::StorageMessage;
use p2pvote::tally::{bar_divisor, count_votes, rank_by_count, tally_up, TallyError, TallyRow};

fn labels(names: &[&str]) -> Vec<String> {
    names.iter().map(|s| s.to_string()).collect()
}

#[test]
fn counts_per_option() {
    assert_eq!(count_votes(3, &vec![0, 2, 2, 1, 2]), Ok(vec![1, 1, 3]));
    assert_eq!(count_votes(2, &vec![]), Ok(vec![0, 0]));
}

#[test]
fn first_out_of_bounds_vote_is_reported() {
    assert_eq!(count_votes(2, &vec![0, 5, 1, 7]), Err(TallyError::VoteOutOfBounds(5)));
    assert_eq!(count_votes(0, &vec![0]), Err(TallyError::VoteOutOfBounds(0)));
}

#[test]
fn ranking_is_stable_and_descending() {
    assert_eq!(rank_by_count(&vec![1, 3, 1, 3, 0]), vec![1, 3, 0, 2, 4]);
    assert_eq!(rank_by_count(&vec![]), Vec::<usize>::new());
    assert_eq!(rank_by_count(&vec![2, 2, 2]), vec![0, 1, 2]);
}

#[test]
fn divisor_is_gcd_of_counts() {
    assert_eq!(bar_divisor(&vec![6, 4, 10]), 2);
    assert_eq!(bar_divisor(&vec![6, 3]), 3);
    assert_eq!(bar_divisor(&vec![7, 0, 0]), 7);
    assert_eq!(bar_divisor(&vec![0, 0]), 0);
}

#[test]
fn tally_scenario() {
    let options = labels(&["a", "bb", "ccc"]);
    let t = tally_up(&options, &vec![0, 1, 1, 2, 2, 2, 2]).unwrap();
    assert_eq!(
        t.rows,
        vec![
            TallyRow { option: 2, count: 4, bar: 5 },
            TallyRow { option: 1, count: 2, bar: 3 },
            TallyRow { option: 0, count: 1, bar: 2 },
        ]
    );
    assert_eq!(t.label_width, 3);
    assert_eq!(t.count_width, 1);
}

#[test]
fn tally_scales_bars_by_common_divisor() {
    let options = labels(&["yes", "no"]);
    let t = tally_up(&options, &vec![0, 0, 0, 0, 0, 0, 1, 1, 1]).unwrap();
    assert_eq!(
        t.rows,
        vec![TallyRow { option: 0, count: 6, bar: 3 }, TallyRow { option: 1, count: 3, bar: 2 }]
    );
}

#[test]
fn tally_options_without_votes_get_one_mark() {
    let options = labels(&["x", "y", "z"]);
    let t = tally_up(&options, &vec![1, 1, 1, 1, 1, 1, 1, 1, 1, 1, 1, 1]).unwrap();
    assert_eq!(
        t.rows,
        vec![
            TallyRow { option: 1, count: 12, bar: 2 },
            TallyRow { option: 0, count: 0, bar: 1 },
            TallyRow { option: 2, count: 0, bar: 1 },
        ]
    );
    assert_eq!(t.count_width, 2);
}

#[test]
fn tally_measures_labels_in_bytes() {
    let options = labels(&["ä", "ok"]);
    let t = tally_up(&options, &vec![0]).unwrap();
    assert_eq!(t.label_width, "ä".len());
    assert_eq!(t.label_width, 2);
    let options = labels(&["€uro", "x"]);
    let t = tally_up(&options, &vec![1]).unwrap();
    assert_eq!(t.label_width, 6);
}

#[test]
fn tally_rejects_unknown_option() {
    let options = labels(&["a", "b"]);
    assert_eq!(tally_up(&options, &vec![1, 2, 3]).err(), Some(TallyError::VoteOutOfBounds(2)));
    let none: Vec<String> = Vec::new();
    assert_eq!(tally_up(&none, &vec![0]).err(), Some(TallyError::VoteOutOfBounds(0)));
}

#[test]
fn tally_counts_add_up() {
    let options = labels(&["a", "b", "c", "d"]);
    let votes = vec![3, 0, 3, 1, 3, 0, 2];
    let t = tally_up(&options, &votes).unwrap();
    let total: usize = t.rows.iter().map(|r| r.count).sum();
    assert_eq!(total, votes.len());
    for w in t.rows.windows(2) {
        assert!(w[0].bar >= w[1].bar);
    }
}

#[test]
fn bulk_requests_keep_order() {
    let votes = vec![Vote { key: 10, vote: 1 }, Vote { key: 3, vote: 0 }];
    assert_eq!(
        store_requests(&votes),
        vec![StorageMessage::Store(10, 1), StorageMessage::Store(3, 0)]
    );
}

#[test]
fn tally_ignores_vote_order() {
    let options = labels(&["a", "b", "c"]);
    let first = tally_up(&options, &vec![2, 0, 2, 1, 2, 0]).unwrap();
    let second = tally_up(&options, &vec![0, 2, 1, 0, 2, 2]).unwrap();
    assert_eq!(first.rows, second.rows);
    assert_eq!(first.label_width, second.label_width);
    assert_eq!(first.count_width, second.count_width);
}
