use narwhal::committee::{Authority, Committee};
use narwhal::dag::{Dag, Verdict};
use narwhal::types::{Certificate, Digest, Header, Vote};
use narwhal::voter::{Ballot, Voter};

const ALL: [u64; 4] = [10, 20, 30, 40];

fn committee4() -> Committee {
    Committee::new(ALL.iter().map(|id| Authority { id: *id, stake: 1 }).collect()).unwrap()
}

fn digest(round: u64, author: u64) -> Digest {
    Digest::new(round, author, 0, 0)
}

fn genesis() -> Vec<Certificate> {
    ALL.iter()
        .map(|a| Certificate {
            header: Header {
                author: *a,
                round: 0,
                payload: vec![],
                parents: vec![],
                timestamp: 0,
                digest: digest(0, *a),
            },
            votes: vec![],
        })
        .collect()
}

fn header(round: u64, author: u64, parents: &[u64]) -> Header {
    Header {
        author,
        round,
        payload: vec![],
        parents: parents.iter().map(|a| digest(round - 1, *a)).collect(),
        timestamp: 0,
        digest: digest(round, author),
    }
}

#[test]
fn a_sound_header_gets_the_vote_and_the_same_vote_again() {
    let dag = Dag::new(committee4(), genesis()).unwrap();
    let mut voter = Voter::new(20);
    let h = header(1, 10, &ALL);
    let expected = Vote { digest: digest(1, 10), round: 1, origin: 10, voter: 20 };
    assert_eq!(voter.consider(&dag, &h, true), Ballot::Cast(expected));
    assert_eq!(voter.cast_on(10, 1), Some(expected));
    assert_eq!(voter.consider(&dag, &h, true), Ballot::Cast(expected));
    assert_eq!(voter.cast_on(10, 2), None);
    assert_eq!(voter.cast_on(20, 1), None);
}

#[test]
fn no_second_header_of_an_author_and_round_gets_the_vote() {
    let dag = Dag::new(committee4(), genesis()).unwrap();
    let mut voter = Voter::new(20);
    let h = header(1, 10, &ALL);
    assert!(matches!(voter.consider(&dag, &h, true), Ballot::Cast(_)));
    let mut other = header(1, 10, &[10, 20, 30]);
    other.digest = Digest::new(1, 10, 0, 1);
    assert_eq!(voter.consider(&dag, &other, true), Ballot::Equivocation);
    assert_eq!(voter.consider(&dag, &other, true), Ballot::Equivocation);
    assert_eq!(voter.cast_on(10, 1).unwrap().digest, digest(1, 10));
    assert!(matches!(voter.consider(&dag, &header(1, 30, &ALL), true), Ballot::Cast(_)));
}

#[test]
fn each_refusal_has_its_answer() {
    let mut dag = Dag::new(committee4(), genesis()).unwrap();
    let certified = Certificate { header: header(1, 40, &ALL), votes: vec![10, 20, 30] };
    assert_eq!(dag.insert(certified), Verdict::Admit);
    let mut voter = Voter::new(20);
    assert_eq!(voter.consider(&dag, &header(1, 10, &ALL), false), Ballot::BadSignature);
    let mut zero = header(1, 10, &ALL);
    zero.round = 0;
    assert_eq!(voter.consider(&dag, &zero, true), Ballot::Stale);
    assert_eq!(voter.consider(&dag, &header(1, 11, &ALL), true), Ballot::Stranger);
    assert_eq!(voter.consider(&dag, &header(1, 40, &ALL), true), Ballot::Certified);
    assert_eq!(voter.consider(&dag, &header(2, 10, &[40, 10]), true), Ballot::MissingParents);
    assert_eq!(voter.consider(&dag, &header(2, 10, &[40]), true), Ballot::WeakParents);
    assert_eq!(voter.consider(&dag, &header(1, 10, &[10, 20]), true), Ballot::WeakParents);
    assert_eq!(voter.cast_on(10, 1), None);
    dag.prune(2);
    assert_eq!(voter.consider(&dag, &header(1, 10, &ALL), true), Ballot::Stale);
    // The lowest round that still gets votes asks for its parents too.
    assert_eq!(voter.consider(&dag, &header(2, 10, &[40]), true), Ballot::WeakParents);
    assert_eq!(voter.consider(&dag, &header(2, 10, &ALL), true), Ballot::MissingParents);
    dag.prune(3);
    assert_eq!(voter.consider(&dag, &header(3, 10, &[]), true), Ballot::WeakParents);
    assert_eq!(voter.consider(&dag, &header(3, 10, &[40]), true), Ballot::MissingParents);
}

#[test]
fn old_votes_are_forgotten_and_recent_ones_kept() {
    let mut dag = Dag::new(committee4(), genesis()).unwrap();
    let mut voter = Voter::new(20);
    assert!(matches!(voter.consider(&dag, &header(1, 10, &ALL), true), Ballot::Cast(_)));
    for author in ALL {
        dag.insert(Certificate { header: header(1, author, &ALL), votes: vec![10, 20, 30] });
    }
    assert!(matches!(voter.consider(&dag, &header(2, 30, &ALL), true), Ballot::Cast(_)));
    assert!(matches!(voter.consider(&dag, &header(2, 10, &ALL), true), Ballot::Cast(_)));
    voter.forget_below(2);
    assert_eq!(voter.cast_on(10, 1), None);
    assert_eq!(voter.cast_on(30, 2).unwrap().digest, digest(2, 30));
    assert_eq!(voter.cast_on(10, 2).unwrap().digest, digest(2, 10));
    voter.forget_below(0);
    assert!(voter.cast_on(10, 2).is_some());
    voter.forget_below(u64::MAX);
    assert_eq!(voter.cast_on(10, 2), None);
}
