use narwhal::committee::{Authority, Committee};
use narwhal::consensus::Consensus;
use narwhal::dag::Verdict;
use narwhal::dag_core::{Core, Reception};
use narwhal::types::{Certificate, Digest, Header};

const ALL: [u64; 4] = [10, 20, 30, 40];
const THREE: [u64; 3] = [10, 20, 30];

fn committee4() -> Committee {
    Committee::new(ALL.iter().map(|id| Authority { id: *id, stake: 1 }).collect()).unwrap()
}

fn digest(round: u64, author: u64) -> Digest {
    Digest::new(round, author, 0, 0)
}

fn cert(round: u64, author: u64, parents: &[u64]) -> Certificate {
    Certificate {
        header: Header {
            author,
            round,
            payload: vec![],
            parents: parents.iter().map(|a| digest(round - 1, *a)).collect(),
            timestamp: round,
            digest: digest(round, author),
        },
        votes: vec![10, 20, 30],
    }
}

fn genesis() -> Vec<Certificate> {
    ALL.iter()
        .map(|a| Certificate {
            header: Header {
                author: *a,
                round: 0,
                payload: vec![],
                parents: vec![],
                timestamp: 0,
                digest: digest(0, *a),
            },
            votes: vec![],
        })
        .collect()
}

fn slots(out: &[Certificate]) -> Vec<(u64, u64)> {
    out.iter().map(|c| (c.header.round, c.header.author)).collect()
}

struct Node {
    core: Core,
    consensus: Consensus,
    committed: Vec<(u64, u64)>,
}

fn node() -> Node {
    Node {
        core: Core::new(committee4(), genesis()).unwrap(),
        consensus: Consensus::new(committee4(), genesis(), 50).unwrap(),
        committed: Vec::new(),
    }
}

fn deliver(node: &mut Node, c: Certificate) -> Reception {
    let r = node.core.process_certificate(c, true);
    if let Reception::Joined(list) = &r {
        for joined in list {
            let (v, out) = node.consensus.process_certificate(joined.clone());
            assert_eq!(v, Verdict::Admit);
            node.committed.extend(slots(&out));
        }
    }
    r
}

#[test]
fn a_forged_certificate_changes_nothing() {
    let mut core = Core::new(committee4(), genesis()).unwrap();
    assert_eq!(core.process_certificate(cert(1, 10, &ALL), false), Reception::Forged);
    assert_eq!(core.dag().len(), 4);
    assert_eq!(core.waiting_len(), 0);
    assert_eq!(
        core.process_certificate(cert(1, 10, &ALL), true),
        Reception::Joined(vec![cert(1, 10, &ALL)])
    );
}

#[test]
fn refusals_are_reported_with_their_verdict() {
    let mut core = Core::new(committee4(), genesis()).unwrap();
    core.process_certificate(cert(1, 10, &ALL), true);
    let mut other = cert(1, 10, &THREE);
    other.header.digest = Digest::new(1, 10, 5, 5);
    assert_eq!(core.process_certificate(other, true), Reception::Refused(Verdict::Equivocation));
    assert_eq!(
        core.process_certificate(cert(1, 10, &ALL), true),
        Reception::Refused(Verdict::Duplicate)
    );
    assert_eq!(
        core.process_certificate(cert(1, 20, &[10]), true),
        Reception::Refused(Verdict::WeakParents)
    );
    assert_eq!(
        core.process_certificate(cert(1, 50, &ALL), true),
        Reception::Refused(Verdict::UnknownAuthority)
    );
    let mut weak = cert(1, 20, &ALL);
    weak.votes = vec![10];
    assert_eq!(core.process_certificate(weak, true), Reception::Refused(Verdict::NoQuorum));
    assert_eq!(core.dag().len(), 5);
    assert_eq!(core.waiting_len(), 0);
}

#[test]
fn a_certificate_waits_once_for_its_parents() {
    let mut core = Core::new(committee4(), genesis()).unwrap();
    core.process_certificate(cert(1, 10, &ALL), true);
    let c = cert(2, 20, &[30, 10, 40]);
    for _ in 0..4 {
        assert_eq!(
            core.process_certificate(c.clone(), true),
            Reception::Held(vec![digest(1, 30), digest(1, 40)])
        );
        assert_eq!(core.waiting_len(), 1);
        assert!(core.holds_back(&c));
        assert_eq!(core.dag().len(), 5);
    }
    assert_eq!(
        core.process_certificate(cert(1, 30, &ALL), true),
        Reception::Joined(vec![cert(1, 30, &ALL)])
    );
    assert_eq!(core.process_certificate(c.clone(), true), Reception::Held(vec![digest(1, 40)]));
    assert_eq!(
        core.process_certificate(cert(1, 40, &ALL), true),
        Reception::Joined(vec![cert(1, 40, &ALL), c.clone()])
    );
    assert_eq!(core.waiting_len(), 0);
    assert!(!core.holds_back(&c));
    assert_eq!(core.process_certificate(c, true), Reception::Refused(Verdict::Duplicate));
}

#[test]
fn a_waiting_certificate_that_turns_out_an_equivocation_is_dropped() {
    let mut core = Core::new(committee4(), genesis()).unwrap();
    for author in THREE {
        core.process_certificate(cert(1, author, &ALL), true);
    }
    let mut twin = cert(2, 10, &[10, 20, 40]);
    twin.header.digest = Digest::new(2, 10, 1, 1);
    assert_eq!(core.process_certificate(twin.clone(), true), Reception::Held(vec![digest(1, 40)]));
    assert_eq!(
        core.process_certificate(cert(2, 10, &THREE), true),
        Reception::Joined(vec![cert(2, 10, &THREE)])
    );
    // Its place is taken now: it is dropped, whether its parent comes or not.
    assert_eq!(core.waiting_len(), 0);
    assert!(!core.holds_back(&twin));
    assert_eq!(
        core.process_certificate(cert(1, 40, &ALL), true),
        Reception::Joined(vec![cert(1, 40, &ALL)])
    );
    assert_eq!(core.process_certificate(twin, true), Reception::Refused(Verdict::Equivocation));
    assert_eq!(core.dag().get(2, 10), Some(&cert(2, 10, &THREE)));
}

#[test]
fn a_closed_round_gives_the_parents_of_the_next() {
    let mut core = Core::new(committee4(), genesis()).unwrap();
    assert_eq!(
        core.closed_parents(0),
        Some(vec![digest(0, 10), digest(0, 20), digest(0, 30), digest(0, 40)])
    );
    core.process_certificate(cert(1, 40, &ALL), true);
    core.process_certificate(cert(1, 20, &ALL), true);
    assert_eq!(core.closed_parents(1), None);
    core.process_certificate(cert(1, 10, &ALL), true);
    assert_eq!(core.closed_parents(1), Some(vec![digest(1, 10), digest(1, 20), digest(1, 40)]));
    assert_eq!(core.closed_parents(2), None);
}

#[test]
fn garbage_collection_keeps_what_lies_within_the_depth() {
    let mut core = Core::new(committee4(), genesis()).unwrap();
    for round in 1..=6u64 {
        for author in ALL {
            core.process_certificate(cert(round, author, &ALL), true);
        }
    }
    assert!(matches!(core.process_certificate(cert(8, 10, &ALL), true), Reception::Held(_)));
    assert_eq!(core.dag().len(), 28);
    core.collect_garbage(2, 3);
    assert_eq!(core.dag().floor(), 0);
    assert_eq!(core.dag().len(), 28);
    core.collect_garbage(6, 3);
    // Rounds up to three are closed; three stays for the parents of four.
    assert_eq!(core.dag().floor(), 4);
    assert_eq!(core.dag().len(), 16);
    assert!(core.dag().get(2, 10).is_none());
    assert!(core.dag().get(3, 10).is_some());
    assert_eq!(core.waiting_len(), 1);
    assert_eq!(
        core.process_certificate(cert(3, 10, &ALL), true),
        Reception::Refused(Verdict::Stale)
    );
    // What waits for its parents keeps waiting, whatever is dropped.
    core.collect_garbage(10, 3);
    assert_eq!(core.dag().floor(), 8);
    assert_eq!(core.dag().len(), 0);
    assert_eq!(core.waiting_len(), 1);
    assert!(core.holds_back(&cert(8, 10, &ALL)));
    assert_eq!(
        core.process_certificate(cert(8, 10, &ALL), true),
        Reception::Held(vec![digest(7, 10), digest(7, 20), digest(7, 30), digest(7, 40)])
    );
    // Once its own round is closed it is given up.
    core.collect_garbage(11, 3);
    assert_eq!(core.dag().floor(), 9);
    assert_eq!(core.waiting_len(), 0);
    assert_eq!(core.dag().len(), 0);
}

#[test]
fn an_authority_that_was_away_catches_up_and_commits_the_same_sequence() {
    let mut present = vec![node(), node(), node()];
    let mut away = node();
    let mut history: Vec<Certificate> = Vec::new();
    // Round one: all four take part, and everybody sees it.
    for author in ALL {
        history.push(cert(1, author, &ALL));
    }
    for c in &history {
        for n in present.iter_mut() {
            assert!(matches!(deliver(n, c.clone()), Reception::Joined(_)));
        }
        assert!(matches!(deliver(&mut away, c.clone()), Reception::Joined(_)));
    }
    // Rounds two to four: 40 is offline, the other three go on.
    let mut missed: Vec<Certificate> = Vec::new();
    for round in 2..=4u64 {
        for author in THREE {
            let parents: &[u64] = if round == 2 { &ALL } else { &THREE };
            missed.push(cert(round, author, parents));
        }
    }
    for c in &missed {
        for n in present.iter_mut() {
            assert!(matches!(deliver(n, c.clone()), Reception::Joined(_)));
        }
    }
    // Round five starts; 40 is back and hears of it first.
    let five = cert(5, 10, &THREE);
    for n in present.iter_mut() {
        deliver(n, five.clone());
    }
    assert_eq!(
        deliver(&mut away, five.clone()),
        Reception::Held(vec![digest(4, 10), digest(4, 20), digest(4, 30)])
    );
    // It asks for what is missing, round by round, newest first.
    for round in [4u64, 3] {
        for author in THREE {
            assert_eq!(
                deliver(&mut away, cert(round, author, &THREE)),
                Reception::Held(vec![
                    digest(round - 1, 10),
                    digest(round - 1, 20),
                    digest(round - 1, 30)
                ])
            );
        }
    }
    assert_eq!(away.core.waiting_len(), 7);
    assert_eq!(deliver(&mut away, cert(2, 10, &ALL)), Reception::Joined(vec![cert(2, 10, &ALL)]));
    assert_eq!(deliver(&mut away, cert(2, 20, &ALL)), Reception::Joined(vec![cert(2, 20, &ALL)]));
    match deliver(&mut away, cert(2, 30, &ALL)) {
        Reception::Joined(list) => assert_eq!(
            slots(&list),
            vec![(2, 30), (3, 10), (3, 20), (3, 30), (4, 10), (4, 20), (4, 30), (5, 10)]
        ),
        other => panic!("not joined: {:?}", other),
    }
    assert_eq!(away.core.waiting_len(), 0);
    assert_eq!(away.core.dag().len(), present[0].core.dag().len());
    assert_eq!(away.committed, present[0].committed);
    // From here on all four hear the same.
    let mut rest: Vec<Certificate> = vec![cert(5, 20, &THREE), cert(5, 30, &THREE)];
    for round in 6..=8u64 {
        for author in ALL {
            let parents: &[u64] = if round == 6 { &THREE } else { &ALL };
            rest.push(cert(round, author, parents));
        }
    }
    for c in &rest {
        for n in present.iter_mut() {
            assert!(matches!(deliver(n, c.clone()), Reception::Joined(_)));
        }
        assert!(matches!(deliver(&mut away, c.clone()), Reception::Joined(_)));
        assert_eq!(away.committed, present[0].committed);
    }
    for n in &present {
        assert_eq!(n.committed, away.committed);
    }
    assert!(away.committed.contains(&(2, 10)));
    assert!(away.committed.contains(&(4, 30)));
    assert_eq!(away.committed.last(), Some(&(6, 30)));
    assert_eq!(away.consensus.next_round(), 7);
}
