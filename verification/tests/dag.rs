use narwhal::committee::{Authority, Committee};
use narwhal::dag::{Dag, Verdict};
use narwhal::types::{Certificate, Digest, Header};

const ALL: [u64; 4] = [10, 20, 30, 40];

fn committee4() -> Committee {
    Committee::new(ALL.iter().map(|id| Authority { id: *id, stake: 1 }).collect()).unwrap()
}

fn digest(round: u64, author: u64) -> Digest {
    Digest::new(round, author, 0, 0)
}

fn cert(round: u64, author: u64, parents: &[u64], voters: &[u64]) -> Certificate {
    Certificate {
        header: Header {
            author,
            round,
            payload: vec![],
            parents: parents.iter().map(|a| digest(round - 1, *a)).collect(),
            timestamp: 0,
            digest: digest(round, author),
        },
        votes: voters.to_vec(),
    }
}

fn genesis() -> Vec<Certificate> {
    ALL.iter()
        .map(|a| Certificate {
            header: Header {
                author: *a,
                round: 0,
                payload: vec![],
                parents: vec![],
                timestamp: 0,
                digest: digest(0, *a),
            },
            votes: vec![],
        })
        .collect()
}

fn fresh() -> Dag {
    Dag::new(committee4(), genesis()).unwrap()
}

#[test]
fn genesis_must_be_of_round_zero_by_distinct_members() {
    assert!(Dag::new(committee4(), genesis()).is_some());
    assert!(Dag::new(committee4(), vec![]).is_some());
    let mut twice = genesis();
    twice.push(genesis().remove(0));
    assert!(Dag::new(committee4(), twice).is_none());
    let mut late = genesis();
    late[1].header.round = 1;
    assert!(Dag::new(committee4(), late).is_none());
    let mut stranger = genesis();
    stranger[2].header.author = 31;
    assert!(Dag::new(committee4(), stranger).is_none());
    let mut clash = genesis();
    clash[3].header.digest = digest(0, 10);
    assert!(Dag::new(committee4(), clash).is_none());
}

#[test]
fn a_certificate_on_a_quorum_of_parents_is_admitted() {
    let mut dag = fresh();
    assert_eq!(dag.len(), 4);
    let c = cert(1, 10, &[10, 20, 30], &[10, 20, 30]);
    assert_eq!(dag.examine(&c), Verdict::Admit);
    assert_eq!(dag.insert(c.clone()), Verdict::Admit);
    assert_eq!(dag.len(), 5);
    assert_eq!(dag.top(), 1);
    assert_eq!(dag.get(1, 10), Some(&c));
    assert_eq!(dag.find(1, digest(1, 10)), Some(&c));
    assert_eq!(dag.get(1, 20), None);
    assert_eq!(dag.find(1, digest(1, 20)), None);
}

#[test]
fn each_refusal_has_its_verdict_and_changes_nothing() {
    let mut dag = fresh();
    assert_eq!(dag.insert(cert(1, 10, &ALL, &[10, 20, 30])), Verdict::Admit);
    let refused = vec![
        (genesis().remove(0), Verdict::Stale),
        (cert(1, 11, &ALL, &[10, 20, 30]), Verdict::UnknownAuthority),
        (cert(1, 10, &ALL, &[10, 20, 30]), Verdict::Duplicate),
        (cert(1, 10, &ALL, &[20, 30, 40]), Verdict::Duplicate),
        (
            {
                let mut c = cert(1, 10, &ALL, &[10, 20, 30]);
                c.header.digest = Digest::new(1, 10, 1, 0);
                c
            },
            Verdict::Equivocation,
        ),
        (
            {
                let mut c = cert(1, 20, &ALL, &[10, 20, 30]);
                c.header.digest = digest(1, 10);
                c
            },
            Verdict::DigestClash,
        ),
        (cert(1, 20, &ALL, &[10, 20]), Verdict::NoQuorum),
        (cert(1, 20, &ALL, &[10, 20, 20, 20, 99]), Verdict::NoQuorum),
        (cert(2, 20, &[10, 20, 30], &[10, 20, 30]), Verdict::MissingParents),
        (cert(1, 20, &[10, 20], &[10, 20, 30]), Verdict::WeakParents),
        (cert(1, 20, &[10, 10, 10, 20], &[10, 20, 30]), Verdict::WeakParents),
    ];
    for (c, expected) in refused {
        assert_eq!(dag.examine(&c), expected);
        assert_eq!(dag.insert(c), expected);
        assert_eq!(dag.len(), 5);
        assert_eq!(dag.top(), 1);
    }
}

#[test]
fn redelivery_is_a_duplicate_any_number_of_times() {
    let mut dag = fresh();
    let c = cert(1, 30, &ALL, &[10, 20, 30, 40]);
    assert_eq!(dag.insert(c.clone()), Verdict::Admit);
    for _ in 0..5 {
        assert_eq!(dag.insert(c.clone()), Verdict::Duplicate);
        assert_eq!(dag.len(), 5);
        assert_eq!(dag.get(1, 30), Some(&c));
    }
}

#[test]
fn missing_parents_are_listed_in_order() {
    let mut dag = fresh();
    dag.insert(cert(1, 20, &ALL, &[10, 20, 30]));
    let c = cert(2, 10, &[40, 20, 10], &[10, 20, 30]);
    assert_eq!(dag.missing_parents(2, &c.header.parents), vec![digest(1, 40), digest(1, 10)]);
    assert!(!dag.knows_parents(2, &c.header.parents));
    assert!(dag.knows_parents(2, &vec![digest(1, 20)]));
    assert!(dag.knows_parents(1, &vec![]));
    assert!(!dag.knows_parents(0, &vec![]));
    assert_eq!(dag.parent_weight(2, &c.header.parents), 1);
    assert_eq!(dag.parent_weight(1, &vec![digest(0, 10), digest(0, 10), digest(0, 40)]), 2);
}

#[test]
fn a_round_closes_with_a_quorum_of_stake() {
    let mut dag = fresh();
    assert!(dag.is_closed(0));
    assert!(!dag.is_closed(1));
    dag.insert(cert(1, 40, &ALL, &[10, 20, 30]));
    dag.insert(cert(1, 10, &ALL, &[10, 20, 30]));
    assert_eq!(dag.round_weight(1), 2);
    assert!(!dag.is_closed(1));
    dag.insert(cert(1, 30, &ALL, &[10, 20, 30]));
    assert_eq!(dag.round_weight(1), 3);
    assert!(dag.is_closed(1));
    assert_eq!(dag.digests_of(1), vec![digest(1, 10), digest(1, 30), digest(1, 40)]);
    assert_eq!(dag.digests_of(2), vec![]);
}

#[test]
fn pruning_drops_the_rounds_below_and_nothing_else() {
    let mut dag = fresh();
    for round in 1..=4u64 {
        for author in ALL {
            assert_eq!(dag.insert(cert(round, author, &ALL, &[10, 20, 30])), Verdict::Admit);
        }
    }
    assert_eq!(dag.len(), 20);
    dag.prune(3);
    assert_eq!(dag.floor(), 3);
    assert_eq!(dag.top(), 4);
    // Round two stays: it holds the parents of round three.
    assert_eq!(dag.len(), 12);
    for author in ALL {
        assert!(dag.get(0, author).is_none());
        assert!(dag.get(1, author).is_none());
        assert!(dag.get(2, author).is_some());
        assert!(dag.get(3, author).is_some());
        assert!(dag.get(4, author).is_some());
    }
    dag.prune(1);
    assert_eq!(dag.floor(), 3);
    assert_eq!(dag.len(), 12);
    assert_eq!(dag.insert(cert(2, 10, &ALL, &[10, 20, 30])), Verdict::Stale);
    assert_eq!(dag.insert(cert(4, 10, &ALL, &[10, 20, 30])), Verdict::Duplicate);
}

#[test]
fn no_round_takes_certificates_without_their_parents() {
    let mut dag = fresh();
    for author in ALL {
        dag.insert(cert(1, author, &ALL, &[10, 20, 30]));
    }
    for author in [10, 20, 30] {
        dag.insert(cert(2, author, &ALL, &[10, 20, 30]));
    }
    dag.prune(3);
    assert_eq!(dag.len(), 3);
    // Round three is the lowest that still admits, and asks for parents.
    assert_eq!(dag.insert(cert(3, 10, &ALL, &[10, 20, 30])), Verdict::MissingParents);
    assert_eq!(dag.missing_parents(3, &cert(3, 10, &ALL, &[]).header.parents), vec![digest(2, 40)]);
    assert_eq!(dag.insert(cert(3, 10, &[10, 20], &[10, 20, 30])), Verdict::WeakParents);
    assert_eq!(dag.insert(cert(3, 10, &[10, 20, 30], &[10, 20, 30])), Verdict::Admit);
    // The parent that is missing can come no more.
    assert_eq!(dag.insert(cert(2, 40, &ALL, &[10, 20, 30])), Verdict::Stale);
    dag.prune(6);
    assert_eq!(dag.len(), 0);
    assert_eq!(dag.insert(cert(6, 10, &ALL, &[10, 20, 30])), Verdict::MissingParents);
    assert_eq!(dag.insert(cert(6, 10, &[], &[10, 20, 30])), Verdict::WeakParents);
    assert_eq!(dag.insert(cert(5, 10, &ALL, &[10, 20, 30])), Verdict::Stale);
    assert_eq!(dag.len(), 0);
}
