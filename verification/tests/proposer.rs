use narwhal::proposer::{Draft, Proposer};
use narwhal::types::{Digest, Header};

fn d(n: u64) -> Digest {
    Digest::new(n, 0, 0, 0)
}

#[test]
fn one_header_for_each_round() {
    let mut p = Proposer::new(7, vec![d(1), d(2), d(3)]);
    assert_eq!(p.round(), 1);
    assert!(p.add_batch(d(100)));
    assert!(p.add_batch(d(101)));
    assert_eq!(p.propose(3, false, 50), None);
    assert_eq!(
        p.propose(2, false, 50),
        Some(Draft {
            author: 7,
            round: 1,
            payload: vec![d(100), d(101)],
            parents: vec![d(1), d(2), d(3)],
            timestamp: 50,
        })
    );
    assert_eq!(p.propose(0, true, 51), None);
    assert!(p.add_batch(d(102)));
    assert_eq!(p.propose(0, true, 52), None);
    assert_eq!(p.round(), 1);
}

#[test]
fn the_first_news_of_a_closed_round_wins() {
    let mut p = Proposer::new(7, vec![d(1)]);
    assert!(!p.advance(0, vec![d(9)]));
    assert!(p.advance(1, vec![d(11), d(12)]));
    assert_eq!(p.round(), 2);
    assert!(!p.advance(1, vec![d(13)]));
    assert!(!p.advance(0, vec![d(13)]));
    assert_eq!(
        p.propose(5, true, 1),
        Some(Draft { author: 7, round: 2, payload: vec![], parents: vec![d(11), d(12)], timestamp: 1 })
    );
    assert!(!p.advance(1, vec![d(14)]));
    assert_eq!(p.propose(0, true, 2), None);
    assert!(p.advance(4, vec![d(41)]));
    assert_eq!(p.round(), 5);
    assert!(!p.advance(u64::MAX, vec![]));
    assert_eq!(p.propose(0, false, 3).unwrap().round, 5);
}

#[test]
fn a_batch_waits_once_and_leaves_with_the_header() {
    let mut p = Proposer::new(7, vec![d(1)]);
    assert!(p.add_batch(d(5)));
    assert!(!p.add_batch(d(5)));
    assert!(p.add_batch(d(6)));
    assert_eq!(p.propose(1, false, 0).unwrap().payload, vec![d(5), d(6)]);
    assert!(p.add_batch(d(5)));
    assert!(p.advance(1, vec![d(2)]));
    assert_eq!(p.propose(1, false, 0).unwrap().payload, vec![d(5)]);
}

#[test]
fn a_draft_becomes_a_header_under_its_digest() {
    let draft = Draft { author: 1, round: 2, payload: vec![d(3)], parents: vec![d(4)], timestamp: 5 };
    assert_eq!(
        draft.seal(d(6)),
        Header { author: 1, round: 2, payload: vec![d(3)], parents: vec![d(4)], timestamp: 5, digest: d(6) }
    );
}
