use narwhal::committee::{Authority, Committee};
use narwhal::primary::{Primary, Reply, Step};
use narwhal::proposer::Draft;
use narwhal::types::{Certificate, Digest, Header, Vote};

const ALL: [u64; 4] = [10, 20, 30, 40];

fn committee4() -> Committee {
    Committee::new(ALL.iter().map(|id| Authority { id: *id, stake: 1 }).collect()).unwrap()
}

fn digest(round: u64, author: u64) -> Digest {
    Digest::new(round, author, 0, 0)
}

fn genesis() -> Vec<Certificate> {
    ALL.iter()
        .map(|a| Certificate {
            header: Header {
                author: *a,
                round: 0,
                payload: vec![],
                parents: vec![],
                timestamp: 0,
                digest: digest(0, *a),
            },
            votes: vec![],
        })
        .collect()
}

fn header(round: u64, author: u64, parents: &[u64]) -> Header {
    Header {
        author,
        round,
        payload: vec![],
        parents: parents.iter().map(|a| digest(round - 1, *a)).collect(),
        timestamp: 0,
        digest: digest(round, author),
    }
}

fn cert(round: u64, author: u64, parents: &[u64]) -> Certificate {
    Certificate { header: header(round, author, parents), votes: vec![10, 20, 30] }
}

fn primary(me: u64, header_size: usize) -> Primary {
    Primary::new(me, header_size, committee4(), genesis()).unwrap()
}

fn nothing() -> Step {
    Step { joined: vec![], request: None, draft: None }
}

#[test]
fn a_primary_needs_sound_genesis_certificates() {
    assert!(Primary::new(10, 1, committee4(), genesis()).is_some());
    let mut bad = genesis();
    bad[0].header.round = 3;
    assert!(Primary::new(10, 1, committee4(), bad).is_none());
}

#[test]
fn the_first_header_builds_on_the_genesis_certificates() {
    let mut p = primary(20, 2);
    assert_eq!(p.on_batch(Digest::new(1, 1, 1, 1), 5), None);
    assert_eq!(p.on_batch(Digest::new(1, 1, 1, 1), 5), None);
    assert_eq!(
        p.on_batch(Digest::new(2, 2, 2, 2), 6),
        Some(Draft {
            author: 20,
            round: 1,
            payload: vec![Digest::new(1, 1, 1, 1), Digest::new(2, 2, 2, 2)],
            parents: ALL.iter().map(|a| digest(0, *a)).collect(),
            timestamp: 6,
        })
    );
    assert_eq!(p.on_tick(7), None);
    assert_eq!(p.on_batch(Digest::new(3, 3, 3, 3), 8), None);
}

#[test]
fn the_timer_makes_a_header_whatever_waits() {
    let mut p = primary(20, 100);
    let draft = p.on_tick(9).unwrap();
    assert_eq!((draft.round, draft.author, draft.timestamp), (1, 20, 9));
    assert!(draft.payload.is_empty());
    assert_eq!(p.on_tick(10), None);
}

#[test]
fn headers_are_answered_with_a_vote_a_request_or_silence() {
    let mut p = primary(20, 1);
    let h = header(1, 10, &ALL);
    let vote = Vote { digest: digest(1, 10), round: 1, origin: 10, voter: 20 };
    assert_eq!(p.on_header(&h, true), Reply::Vote(vote));
    assert_eq!(p.on_header(&h, true), Reply::Vote(vote));
    assert_eq!(p.on_header(&h, false), Reply::Silence);
    let mut twin = header(1, 10, &[10, 20, 30]);
    twin.digest = Digest::new(1, 10, 9, 9);
    assert_eq!(p.on_header(&twin, true), Reply::Silence);
    assert_eq!(
        p.on_header(&header(2, 30, &[10, 40, 20]), true),
        Reply::Request { to: 30, digests: vec![digest(1, 10), digest(1, 40), digest(1, 20)] }
    );
    assert_eq!(p.on_header(&header(1, 30, &[10]), true), Reply::Silence);
}

#[test]
fn votes_on_the_sealed_header_make_the_certificate() {
    let mut p = primary(10, 0);
    let vote = |voter: u64| Vote { digest: digest(1, 10), round: 1, origin: 10, voter };
    assert_eq!(p.on_vote(vote(20), true), None);
    let draft = p.on_tick(3).unwrap();
    let sealed = draft.seal(digest(1, 10));
    assert!(!p.on_sealed(header(1, 20, &ALL)));
    assert!(!p.on_sealed(header(2, 10, &ALL)));
    assert!(p.on_sealed(sealed.clone()));
    assert!(!p.on_sealed(sealed.clone()));
    assert_eq!(p.on_header(&sealed, true), Reply::Vote(vote(10)));
    assert_eq!(p.on_vote(vote(10), true), None);
    assert_eq!(p.on_vote(vote(10), true), None);
    assert_eq!(p.on_vote(vote(30), false), None);
    assert_eq!(p.on_vote(vote(30), true), None);
    assert_eq!(
        p.on_vote(vote(40), true),
        Some(Certificate { header: sealed.clone(), votes: vec![10, 30, 40] })
    );
    assert_eq!(p.on_vote(vote(20), true), None);
    let step = p.on_certificate(Certificate { header: sealed.clone(), votes: vec![10, 30, 40] }, true, 4);
    assert_eq!(slots(&step.joined), vec![(1, 10)]);
    assert_eq!(step.request, None);
    assert_eq!(step.draft, None);
}

fn slots(out: &[Certificate]) -> Vec<(u64, u64)> {
    out.iter().map(|c| (c.header.round, c.header.author)).collect()
}

#[test]
fn a_closed_round_lets_the_next_header_be_made() {
    let mut p = primary(40, 0);
    let first = p.on_tick(1).unwrap();
    assert_eq!(first.round, 1);
    assert_eq!(p.on_certificate(cert(1, 10, &ALL), true, 2), Step { joined: vec![cert(1, 10, &ALL)], ..nothing() });
    assert_eq!(p.on_certificate(cert(1, 10, &ALL), true, 2), nothing());
    assert_eq!(p.on_certificate(cert(1, 20, &ALL), false, 2), nothing());
    assert_eq!(p.on_certificate(cert(1, 20, &ALL), true, 2).draft, None);
    let step = p.on_certificate(cert(1, 30, &ALL), true, 3);
    assert_eq!(slots(&step.joined), vec![(1, 30)]);
    assert_eq!(
        step.draft,
        Some(Draft {
            author: 40,
            round: 2,
            payload: vec![],
            parents: vec![digest(1, 10), digest(1, 20), digest(1, 30)],
            timestamp: 3,
        })
    );
    // The round is closed already: the fourth certificate changes nothing.
    let step = p.on_certificate(cert(1, 40, &ALL), true, 4);
    assert_eq!(slots(&step.joined), vec![(1, 40)]);
    assert_eq!(step.draft, None);
    assert_eq!(p.on_tick(5), None);
}

#[test]
fn missing_parents_are_asked_of_the_author() {
    let mut p = primary(40, 5);
    let step = p.on_certificate(cert(2, 20, &[10, 20, 30]), true, 1);
    assert!(step.joined.is_empty());
    assert_eq!(step.request, Some((20, vec![digest(1, 10), digest(1, 20), digest(1, 30)])));
    assert!(p.dag_core().holds_back(&cert(2, 20, &[10, 20, 30])));
    p.on_certificate(cert(1, 10, &ALL), true, 1);
    p.on_certificate(cert(1, 20, &ALL), true, 1);
    let step = p.on_certificate(cert(1, 30, &ALL), true, 1);
    assert_eq!(slots(&step.joined), vec![(1, 30), (2, 20)]);
    assert_eq!(step.request, None);
    assert_eq!(p.dag_core().waiting_len(), 0);
}

#[test]
fn a_commit_drops_what_lies_too_deep_and_the_votes_on_it() {
    let mut p = primary(40, 5);
    assert!(matches!(p.on_header(&header(1, 10, &ALL), true), Reply::Vote(_)));
    for round in 1..=5u64 {
        for author in ALL {
            p.on_certificate(cert(round, author, &ALL), true, 1);
        }
    }
    assert_eq!(p.dag_core().dag().len(), 24);
    assert!(matches!(p.on_certificate(cert(7, 10, &ALL), true, 1).request, Some(_)));
    p.on_committed(4, 2);
    assert_eq!(p.dag_core().dag().floor(), 3);
    assert_eq!(p.dag_core().dag().len(), 16);
    assert_eq!(p.dag_core().waiting_len(), 1);
    assert_eq!(p.on_header(&header(1, 10, &ALL), true), Reply::Silence);
    assert_eq!(p.on_header(&header(2, 10, &ALL), true), Reply::Silence);
    p.on_committed(1, 2);
    assert_eq!(p.dag_core().dag().floor(), 3);
    // A certificate that waits never joins for want of its round's parents.
    p.on_committed(8, 2);
    assert_eq!(p.dag_core().dag().floor(), 7);
    assert_eq!(p.dag_core().dag().len(), 0);
    assert_eq!(p.dag_core().waiting_len(), 1);
    assert_eq!(
        p.on_certificate(cert(7, 10, &ALL), true, 1),
        Step { request: Some((10, ALL.iter().map(|a| digest(6, *a)).collect())), ..nothing() }
    );
    p.on_committed(9, 2);
    assert_eq!(p.dag_core().waiting_len(), 0);
}
