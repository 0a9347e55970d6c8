use narwhal::aggregator::{Ack, Aggregator, QuorumWaiter, Voice, VoteOutcome, VotesAggregator};
use narwhal::committee::{Authority, Committee};
use narwhal::dag_core::{Core, Reception};
use narwhal::proposer::Proposer;
use narwhal::types::{Certificate, Digest, Header, Vote};
use narwhal::voter::{Ballot, Voter};

const ALL: [u64; 4] = [10, 20, 30, 40];

fn committee4() -> Committee {
    Committee::new(ALL.iter().map(|id| Authority { id: *id, stake: 1 }).collect()).unwrap()
}

fn digest(round: u64, author: u64) -> Digest {
    Digest::new(round, author, 0, 0)
}

fn genesis() -> Vec<Certificate> {
    ALL.iter()
        .map(|a| Certificate {
            header: Header {
                author: *a,
                round: 0,
                payload: vec![],
                parents: vec![],
                timestamp: 0,
                digest: digest(0, *a),
            },
            votes: vec![],
        })
        .collect()
}

fn header(round: u64, author: u64) -> Header {
    Header {
        author,
        round,
        payload: vec![Digest::new(9, 9, 9, 9)],
        parents: ALL.iter().map(|a| digest(round - 1, *a)).collect(),
        timestamp: 5,
        digest: digest(round, author),
    }
}

fn vote(h: &Header, voter: u64) -> Vote {
    Vote { digest: h.digest, round: h.round, origin: h.author, voter }
}

#[test]
fn a_header_with_three_votes_of_four_is_certified_and_admitted_by_all() {
    let committee = committee4();
    let genesis_digests: Vec<Digest> = genesis().iter().map(|c| c.header.digest).collect();
    let mut proposer = Proposer::new(10, genesis_digests.clone());
    let draft = proposer.propose(0, false, 77).unwrap();
    assert_eq!(draft.round, 1);
    assert_eq!(draft.author, 10);
    assert_eq!(draft.parents, genesis_digests);
    let header = draft.seal(digest(1, 10));

    let mut cores: Vec<Core> =
        ALL.iter().map(|_| Core::new(committee4(), genesis()).unwrap()).collect();
    let mut votes = Vec::new();
    for (i, id) in ALL.iter().enumerate() {
        let mut voter = Voter::new(*id);
        match voter.consider(cores[i].dag(), &header, true) {
            Ballot::Cast(v) => votes.push(v),
            other => panic!("no vote: {:?}", other),
        }
    }
    assert_eq!(votes[2], Vote { digest: digest(1, 10), round: 1, origin: 10, voter: 30 });

    let mut aggregator = VotesAggregator::new(&committee, header.clone());
    assert_eq!(aggregator.append(&committee, votes[0], true), VoteOutcome::Counted);
    assert_eq!(aggregator.append(&committee, votes[1], true), VoteOutcome::Counted);
    let certificate = match aggregator.append(&committee, votes[2], true) {
        VoteOutcome::Certified(c) => c,
        other => panic!("no certificate: {:?}", other),
    };
    assert_eq!(certificate, Certificate { header: header.clone(), votes: vec![10, 20, 30] });
    assert_eq!(aggregator.append(&committee, votes[3], true), VoteOutcome::Late);

    for core in cores.iter_mut() {
        assert_eq!(
            core.process_certificate(certificate.clone(), true),
            Reception::Joined(vec![certificate.clone()])
        );
        assert_eq!(core.dag().get(1, 10), Some(&certificate));
    }
}

#[test]
fn only_authentic_votes_of_members_for_this_header_count_and_each_once() {
    let committee = committee4();
    let h = header(1, 10);
    let mut aggregator = VotesAggregator::new(&committee, h.clone());
    assert_eq!(aggregator.append(&committee, vote(&h, 20), false), VoteOutcome::BadSignature);
    assert_eq!(aggregator.append(&committee, vote(&header(1, 20), 20), true), VoteOutcome::Unrelated);
    assert_eq!(aggregator.append(&committee, vote(&header(2, 10), 20), true), VoteOutcome::Unrelated);
    let mut other = vote(&h, 20);
    other.digest = Digest::new(0, 0, 0, 1);
    assert_eq!(aggregator.append(&committee, other, true), VoteOutcome::Unrelated);
    assert_eq!(aggregator.append(&committee, vote(&h, 21), true), VoteOutcome::Stranger);
    assert_eq!(aggregator.append(&committee, vote(&h, 20), true), VoteOutcome::Counted);
    for _ in 0..3 {
        assert_eq!(aggregator.append(&committee, vote(&h, 20), true), VoteOutcome::Repeated);
    }
    assert_eq!(aggregator.append(&committee, vote(&h, 40), true), VoteOutcome::Counted);
    assert_eq!(aggregator.append(&committee, vote(&h, 40), true), VoteOutcome::Repeated);
    assert_eq!(
        aggregator.append(&committee, vote(&h, 10), true),
        VoteOutcome::Certified(Certificate { header: h.clone(), votes: vec![20, 40, 10] })
    );
    assert_eq!(aggregator.append(&committee, vote(&h, 10), true), VoteOutcome::Late);
    assert_eq!(aggregator.append(&committee, vote(&h, 30), true), VoteOutcome::Late);
}

#[test]
fn votes_weigh_by_stake() {
    let committee = Committee::new(vec![
        Authority { id: 1, stake: 5 },
        Authority { id: 2, stake: 1 },
        Authority { id: 3, stake: 1 },
    ])
    .unwrap();
    assert_eq!(committee.quorum_threshold(), 5);
    let mut h = header(1, 1);
    h.parents = vec![];
    let mut aggregator = VotesAggregator::new(&committee, h.clone());
    assert_eq!(aggregator.append(&committee, vote(&h, 2), true), VoteOutcome::Counted);
    assert_eq!(aggregator.append(&committee, vote(&h, 3), true), VoteOutcome::Counted);
    assert_eq!(
        aggregator.append(&committee, vote(&h, 1), true),
        VoteOutcome::Certified(Certificate { header: h.clone(), votes: vec![2, 3, 1] })
    );
}

#[test]
fn an_aggregator_counts_members_once() {
    let committee = committee4();
    let mut a = Aggregator::new(&committee);
    assert_eq!(a.weight(), 0);
    assert_eq!(a.add(&committee, 30), Voice::Counted);
    assert_eq!(a.add(&committee, 30), Voice::Repeated);
    assert_eq!(a.add(&committee, 31), Voice::Stranger);
    assert_eq!(a.add(&committee, 10), Voice::Counted);
    assert_eq!(a.weight(), 2);
    assert_eq!(a.voices(), vec![30, 10]);
    assert!(a.heard(10));
    assert!(!a.heard(20));
}

#[test]
fn a_batch_is_ready_once_a_quorum_acknowledged_it() {
    let committee = committee4();
    let batch = Digest::new(1, 2, 3, 4);
    let mut waiter = QuorumWaiter::new(&committee, batch);
    assert_eq!(waiter.acknowledge(&committee, Digest::new(1, 2, 3, 5), 10), Ack::Unrelated);
    assert_eq!(waiter.acknowledge(&committee, batch, 11), Ack::Stranger);
    assert_eq!(waiter.acknowledge(&committee, batch, 10), Ack::Counted);
    assert_eq!(waiter.acknowledge(&committee, batch, 10), Ack::Repeated);
    assert_eq!(waiter.acknowledge(&committee, batch, 10), Ack::Repeated);
    assert_eq!(waiter.acknowledge(&committee, batch, 40), Ack::Counted);
    assert_eq!(waiter.acknowledge(&committee, batch, 20), Ack::Quorum);
    assert_eq!(waiter.acknowledge(&committee, batch, 20), Ack::Late);
    assert_eq!(waiter.acknowledge(&committee, batch, 30), Ack::Late);
}
