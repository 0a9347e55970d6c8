use narwhal::committee::{Authority, Committee};
use narwhal::consensus::{decide, find_anchor, Consensus};
use narwhal::dag::Verdict;
use narwhal::ordering::Decision;
use narwhal::types::{Certificate, Digest, Header};

const ALL: [u64; 4] = [10, 20, 30, 40];

fn committee4() -> Committee {
    Committee::new(ALL.iter().map(|id| Authority { id: *id, stake: 1 }).collect()).unwrap()
}

fn digest(round: u64, author: u64) -> Digest {
    Digest::new(round, author, 0, 0)
}

fn cert(round: u64, author: u64, parents: &[u64]) -> Certificate {
    Certificate {
        header: Header {
            author,
            round,
            payload: vec![Digest::new(round, author, 7, 7)],
            parents: parents.iter().map(|a| digest(round - 1, *a)).collect(),
            timestamp: round,
            digest: digest(round, author),
        },
        votes: vec![10, 20, 30],
    }
}

fn genesis() -> Vec<Certificate> {
    ALL.iter()
        .map(|a| Certificate {
            header: Header {
                author: *a,
                round: 0,
                payload: vec![],
                parents: vec![],
                timestamp: 0,
                digest: digest(0, *a),
            },
            votes: vec![],
        })
        .collect()
}

fn slots(out: &[Certificate]) -> Vec<(u64, u64)> {
    out.iter().map(|c| (c.header.round, c.header.author)).collect()
}

fn feed(core: &mut Consensus, c: Certificate) -> Vec<(u64, u64)> {
    let (v, out) = core.process_certificate(c.clone());
    assert_eq!(v, Verdict::Admit);
    for o in &out {
        assert_eq!(o.header.digest, digest(o.header.round, o.header.author));
    }
    slots(&out)
}

fn is_prefix(a: &[(u64, u64)], b: &[(u64, u64)]) -> bool {
    a.len() <= b.len() && a == &b[..a.len()]
}

#[test]
fn full_rounds_commit_each_leader_two_rounds_later() {
    let mut core = Consensus::new(committee4(), genesis(), 50).unwrap();
    assert_eq!(core.position(), 0);
    let mut committed: Vec<(u64, u64)> = Vec::new();
    for round in 1..=4u64 {
        for author in ALL {
            committed.extend(feed(&mut core, cert(round, author, &ALL)));
            assert_eq!(core.position(), committed.len() as u64);
            if round == 3 && author == 20 {
                assert!(committed.is_empty());
            }
            if round == 3 && author == 30 {
                assert_eq!(committed, vec![(1, 20)]);
            }
        }
    }
    assert_eq!(committed, vec![(1, 20), (1, 10), (1, 30), (1, 40), (2, 30)]);
    assert_eq!(core.next_round(), 3);
    assert_eq!(core.position(), 5);
}

#[test]
fn decision_is_undecided_without_two_rounds_above() {
    let mut core = Consensus::new(committee4(), genesis(), 50).unwrap();
    for author in ALL {
        feed(&mut core, cert(1, author, &ALL));
    }
    assert_eq!(decide(core.dag(), 1), Decision::Undecided);
    assert_eq!(decide(core.dag(), 0), Decision::Undecided);
    assert_eq!(decide(core.dag(), 7), Decision::Undecided);
    assert_eq!(decide(core.dag(), u64::MAX), Decision::Undecided);
    assert_eq!(find_anchor(core.dag(), 0), None);
}

#[test]
fn a_silent_leader_is_passed_over_once_a_quorum_two_rounds_above_does_not_descend_from_it() {
    let mut core = Consensus::new(committee4(), genesis(), 50).unwrap();
    let mut committed: Vec<(u64, u64)> = Vec::new();
    for round in 1..=4u64 {
        for author in ALL {
            committed.extend(feed(&mut core, cert(round, author, &ALL)));
        }
    }
    // The leader of round five, 20, stays silent.
    for author in [10, 30, 40] {
        committed.extend(feed(&mut core, cert(5, author, &ALL)));
    }
    for author in ALL {
        committed.extend(feed(&mut core, cert(6, author, &[10, 30, 40])));
    }
    let through_four = vec![
        (1, 20),
        (1, 10), (1, 30), (1, 40), (2, 30),
        (2, 10), (2, 20), (2, 40), (3, 40),
        (3, 10), (3, 20), (3, 30), (4, 10),
    ];
    assert_eq!(committed, through_four);
    assert_eq!(core.next_round(), 5);
    committed.extend(feed(&mut core, cert(7, 10, &ALL)));
    committed.extend(feed(&mut core, cert(7, 20, &ALL)));
    assert_eq!(core.next_round(), 5);
    assert_eq!(decide(core.dag(), 5), Decision::Undecided);
    committed.extend(feed(&mut core, cert(7, 30, &ALL)));
    // Round seven has closed: round five is passed over, round six is next.
    assert_eq!(decide(core.dag(), 5), Decision::Skip);
    assert_eq!(core.next_round(), 6);
    assert_eq!(committed, through_four);
    committed.extend(feed(&mut core, cert(7, 40, &ALL)));
    committed.extend(feed(&mut core, cert(8, 10, &ALL)));
    committed.extend(feed(&mut core, cert(8, 20, &ALL)));
    assert_eq!(committed, through_four);
    committed.extend(feed(&mut core, cert(8, 30, &ALL)));
    assert_eq!(core.next_round(), 7);
    assert_eq!(
        committed[through_four.len()..],
        [(4, 20), (4, 30), (4, 40), (5, 10), (5, 30), (5, 40), (6, 30)]
    );
}

fn split_dag(anchor_parents: &[u64]) -> Vec<Certificate> {
    // Round one is led by 20. Only 10 builds on it in round two, so that in
    // round three two certificates descend from it and two do not.
    let mut certs = Vec::new();
    for author in ALL {
        certs.push(cert(1, author, &ALL));
    }
    certs.push(cert(2, 10, &[10, 20, 30]));
    for author in [20, 30, 40] {
        certs.push(cert(2, author, &[10, 30, 40]));
    }
    certs.push(cert(3, 10, &[10, 20, 30]));
    certs.push(cert(3, 20, &[10, 20, 30]));
    certs.push(cert(3, 30, &[20, 30, 40]));
    certs.push(cert(3, 40, &[20, 30, 40]));
    certs.push(cert(4, 10, anchor_parents));
    for author in [20, 30, 40] {
        certs.push(cert(4, author, &ALL));
    }
    for round in 5..=6u64 {
        for author in ALL {
            certs.push(cert(round, author, &ALL));
        }
    }
    certs
}

#[test]
fn a_later_leader_commits_an_earlier_one_that_enough_of_its_history_descends_from() {
    let mut core = Consensus::new(committee4(), genesis(), 50).unwrap();
    let certs = split_dag(&[10, 20, 30]);
    let mut committed: Vec<(u64, u64)> = Vec::new();
    for (i, c) in certs.iter().enumerate() {
        committed.extend(feed(&mut core, c.clone()));
        if i < certs.len() - 2 {
            assert!(committed.is_empty());
            assert_eq!(core.next_round(), 1);
        }
    }
    assert_eq!(decide(core.dag(), 1), Decision::Commit);
    assert_eq!(find_anchor(core.dag(), 4), Some(4));
    assert_eq!(find_anchor(core.dag(), 5), None);
    assert_eq!(
        committed,
        vec![
            (1, 20),
            (1, 10), (1, 30), (1, 40), (2, 30),
            (2, 20), (2, 40), (3, 40),
            (2, 10), (3, 10), (3, 20), (3, 30), (4, 10),
        ]
    );
    assert_eq!(core.next_round(), 5);
}

#[test]
fn a_later_leader_passes_over_an_earlier_one_that_too_little_of_its_history_descends_from() {
    let mut core = Consensus::new(committee4(), genesis(), 50).unwrap();
    let certs = split_dag(&[20, 30, 40]);
    let mut committed: Vec<(u64, u64)> = Vec::new();
    for c in certs.iter() {
        committed.extend(feed(&mut core, c.clone()));
    }
    assert_eq!(decide(core.dag(), 1), Decision::Skip);
    assert_eq!(
        committed,
        vec![
            (1, 10), (1, 30), (1, 40), (2, 30),
            (2, 20), (2, 40), (3, 40),
            (1, 20), (2, 10), (3, 20), (3, 30), (4, 10),
        ]
    );
    assert_eq!(core.next_round(), 5);
}

#[test]
fn two_authorities_commit_the_same_sequence_whatever_the_order_of_arrival() {
    let mut one = Consensus::new(committee4(), genesis(), 50).unwrap();
    let mut two = Consensus::new(committee4(), genesis(), 50).unwrap();
    let mut seq_one: Vec<(u64, u64)> = Vec::new();
    let mut seq_two: Vec<(u64, u64)> = Vec::new();
    let certs = split_dag(&[10, 20, 30]);
    // The first takes them as they come; the second takes each round from
    // the back, and lags two rounds behind.
    let mut backlog: Vec<Vec<Certificate>> = Vec::new();
    for round in certs.chunks(4) {
        for c in round {
            seq_one.extend(feed(&mut one, c.clone()));
            assert!(is_prefix(&seq_two, &seq_one) || is_prefix(&seq_one, &seq_two));
        }
        backlog.push(round.iter().rev().cloned().collect());
        if backlog.len() > 2 {
            for c in backlog.remove(0) {
                seq_two.extend(feed(&mut two, c));
                assert!(is_prefix(&seq_two, &seq_one) || is_prefix(&seq_one, &seq_two));
            }
        }
    }
    for round in backlog {
        for c in round {
            seq_two.extend(feed(&mut two, c));
            assert!(is_prefix(&seq_two, &seq_one) || is_prefix(&seq_one, &seq_two));
        }
    }
    assert_eq!(seq_one, seq_two);
    assert_eq!(seq_one.len(), 13);
}

#[test]
fn no_certificate_is_committed_twice() {
    let mut core = Consensus::new(committee4(), genesis(), 3).unwrap();
    let mut committed: Vec<(u64, u64)> = Vec::new();
    for round in 1..=12u64 {
        for author in ALL {
            committed.extend(feed(&mut core, cert(round, author, &ALL)));
        }
    }
    let mut seen = committed.clone();
    seen.sort();
    seen.dedup();
    assert_eq!(seen.len(), committed.len());
    assert_eq!(core.next_round(), 11);
    assert_eq!(committed.len(), 4 * 9 + 1);
    assert_eq!(committed.last(), Some(&(10, 30)));
}

#[test]
fn what_lies_deeper_than_the_depth_below_a_committed_leader_is_dropped() {
    let mut core = Consensus::new(committee4(), genesis(), 2).unwrap();
    for round in 1..=3u64 {
        for author in ALL {
            feed(&mut core, cert(round, author, &ALL));
        }
    }
    // The leader of round one is committed: rounds one and up are retained.
    assert_eq!(core.floor(), 0);
    assert_eq!(core.dag().len(), 16);
    for author in ALL {
        feed(&mut core, cert(4, author, &ALL));
    }
    assert_eq!(core.next_round(), 3);
    assert_eq!(core.floor(), 1);
    assert_eq!(core.dag().len(), 20);
    for author in ALL {
        feed(&mut core, cert(5, author, &ALL));
    }
    // Rounds two and up may still be committed; round one stays for the
    // parents of round two.
    assert_eq!(core.floor(), 2);
    assert!(core.dag().get(0, 10).is_none());
    assert!(core.dag().get(1, 10).is_some());
    assert!(core.dag().get(2, 10).is_some());
    assert!(core.dag().get(5, 40).is_some());
    assert_eq!(core.dag().len(), 20);
}

#[test]
fn redelivery_commits_nothing_and_changes_nothing() {
    let mut core = Consensus::new(committee4(), genesis(), 2).unwrap();
    let mut all = Vec::new();
    for round in 1..=5u64 {
        for author in ALL {
            all.push(cert(round, author, &ALL));
        }
    }
    for c in &all {
        feed(&mut core, c.clone());
    }
    let next = core.next_round();
    let len = core.dag().len();
    for _ in 0..3 {
        for c in &all {
            let (v, out) = core.process_certificate(c.clone());
            assert_eq!(v, if c.header.round < 2 { Verdict::Stale } else { Verdict::Duplicate });
            assert!(out.is_empty());
            assert_eq!(core.next_round(), next);
            assert_eq!(core.dag().len(), len);
        }
    }
}

#[test]
fn a_certificate_that_is_refused_commits_nothing() {
    let mut core = Consensus::new(committee4(), genesis(), 50).unwrap();
    let (v, out) = core.process_certificate(cert(2, 10, &ALL));
    assert_eq!(v, Verdict::MissingParents);
    assert!(out.is_empty());
    assert_eq!(core.accept(cert(1, 10, &ALL)), Verdict::Admit);
    assert_eq!(core.accept(cert(1, 10, &ALL)), Verdict::Duplicate);
    assert!(core.order().is_empty());
    assert_eq!(core.next_round(), 1);
}

#[test]
fn ordering_can_lag_behind_admission() {
    let mut core = Consensus::new(committee4(), genesis(), 50).unwrap();
    for round in 1..=6u64 {
        for author in ALL {
            assert_eq!(core.accept(cert(round, author, &ALL)), Verdict::Admit);
        }
    }
    assert_eq!(core.next_round(), 1);
    let out = slots(&core.order());
    assert_eq!(out.len(), 1 + 4 + 4 + 4);
    assert_eq!(out[0], (1, 20));
    assert_eq!(out[12], (4, 10));
    assert_eq!(core.next_round(), 5);
    assert!(core.order().is_empty());
}

#[test]
fn parents_are_committed_before_their_children() {
    for anchor_parents in [[10u64, 20, 30], [20, 30, 40]] {
        let mut core = Consensus::new(committee4(), genesis(), 50).unwrap();
        let certs = split_dag(&anchor_parents);
        let mut committed: Vec<(u64, u64)> = Vec::new();
        for c in certs.iter() {
            committed.extend(feed(&mut core, c.clone()));
        }
        assert_eq!(committed.len(), 12 + if anchor_parents[0] == 10 { 1 } else { 0 });
        for (i, (round, author)) in committed.iter().enumerate() {
            let c = certs.iter().find(|c| (c.header.round, c.header.author) == (*round, *author));
            for parent in &c.unwrap().header.parents {
                if *round > 1 {
                    let at = committed.iter().position(|s| digest(s.0, s.1) == *parent);
                    assert!(at.unwrap() < i);
                }
            }
        }
    }
}
