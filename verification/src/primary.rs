//! The primary of one authority: its header builder, its voter, its vote
//! aggregator and its DAG core, and what each event makes of them. Every
//! event is one step: the primary says what is to be sent and to whom, and
//! what comes back comes as the next event.

use vstd::prelude::*;
use crate::aggregator::{VoteOutcome, VotesAggregator, certifies, voters_after};
use crate::committee::{Authority, Committee, quorum_threshold, valid_committee, weight};
use crate::dag::{
    Verdict, from_round, genesis_ok, history_of, history_ok, keep_from, present_in, retained,
    round_digests, slot_of, unknown_parents, verdict, views_of,
};
use crate::dag_core::{Core, Reception, drain, received, settled};
use crate::ordering::{gc_floor, higher};
use crate::proposer::{
    Draft, Proposer, ProposerView, advanced, draft_of, proposed, proposer_ok, proposes,
    with_batch,
};
use crate::types::{Certificate, CertificateView, Digest, Header, HeaderView, Vote};
use crate::voter::{Ballot, Voter, ballot, recent_votes, vote_for, voted_on, votes_ok};

verus! {

/// What the primary answers to a header.
#[derive(Clone, Debug, PartialEq, Eq)]
pub enum Reply {
    /// Nothing.
    Silence,
    /// This vote, to the author of the header.
    Vote(Vote),
    /// A request to `to` for the certificates that bear `digests`.
    Request { to: u64, digests: Vec<Digest> },
}

/// What a certificate sets in motion.
#[derive(Clone, Debug, PartialEq, Eq)]
pub struct Step {
    /// The certificates that joined the DAG, in the order in which they
    /// joined: they go to the consensus core.
    pub joined: Vec<Certificate>,
    /// A request to the first for the certificates that bear the digests.
    pub request: Option<(u64, Vec<Digest>)>,
    /// A header to be sealed, signed and sent to everybody.
    pub draft: Option<Draft>,
}

/// The header builder once it hears of `round`: if the round is closed, it
/// learns so, with the digests of the round's certificates.
pub open spec fn told(
    p: ProposerView,
    members: Seq<Authority>,
    dag: Map<(nat, u64), CertificateView>,
    round: u64,
) -> ProposerView {
    if weight(members, present_in(dag, round as nat)) >= quorum_threshold(members) {
        advanced(p, round, round_digests(members, dag, round as nat, members.len() as int))
    } else {
        p
    }
}

/// The header builder once it has heard of the round of each of the first
/// `n` certificates that joined.
pub open spec fn told_all(
    p: ProposerView,
    members: Seq<Authority>,
    dag: Map<(nat, u64), CertificateView>,
    joined: Seq<CertificateView>,
    n: int,
) -> ProposerView
    decreases n,
{
    if n <= 0 {
        p
    } else {
        told(told_all(p, members, dag, joined, n - 1), members, dag, joined[n - 1].header.round)
    }
}

/// The certificates that join the DAG when `c` is delivered: `c` itself if
/// it is admitted, and what that unblocks.
pub open spec fn joined_by(
    members: Seq<Authority>,
    floor: nat,
    dag: Map<(nat, u64), CertificateView>,
    waiting: Seq<CertificateView>,
    c: CertificateView,
    authentic: bool,
) -> Seq<CertificateView> {
    if authentic && verdict(members, dag, floor, c) == Verdict::Admit {
        seq![c] + drain(members, floor, dag.insert(slot_of(c), c), waiting).2
    } else {
        Seq::empty()
    }
}

/// Whether the delivery of `c` calls for a request for its parents.
pub open spec fn asks_for_parents(
    members: Seq<Authority>,
    floor: nat,
    dag: Map<(nat, u64), CertificateView>,
    c: CertificateView,
    authentic: bool,
) -> bool {
    authentic && verdict(members, dag, floor, c) == Verdict::MissingParents
}

/// Whether votes are gathered on a header of `round`.
pub open spec fn gathers_round(gathering: Option<(HeaderView, Seq<u64>)>, round: u64) -> bool {
    match gathering {
        Some(g) => g.0.round == round,
        None => false,
    }
}

/// The primary of one authority.
pub struct Primary {
    me: u64,
    header_size: usize,
    core: Core,
    voter: Voter,
    proposer: Proposer,
    gathering: Option<VotesAggregator>,
}

impl Primary {
    /// The authority.
    pub closed spec fn me(&self) -> u64 {
        self.me
    }

    /// Number of batch digests that make a header worth sending.
    pub closed spec fn header_size(&self) -> usize {
        self.header_size
    }

    pub closed spec fn members(&self) -> Seq<Authority> {
        self.core.members()
    }

    /// The DAG as far as it is retained.
    pub closed spec fn history(&self) -> Map<(nat, u64), CertificateView> {
        self.core.history()
    }

    /// The lowest round that certificates are still admitted to.
    pub closed spec fn lowest(&self) -> nat {
        self.core.lowest()
    }

    /// The certificates that wait for their parents.
    pub closed spec fn waiting(&self) -> Seq<CertificateView> {
        self.core.waiting()
    }

    /// The votes cast so far.
    pub closed spec fn cast(&self) -> Seq<Vote> {
        self.voter@
    }

    /// What the header builder knows.
    pub closed spec fn plan(&self) -> ProposerView {
        self.proposer@
    }

    /// The header of this authority that votes are gathered on, and the
    /// voters counted so far.
    pub closed spec fn gathering(&self) -> Option<(HeaderView, Seq<u64>)> {
        match self.gathering {
            Some(g) => Some((g.header(), g.voters())),
            None => None,
        }
    }

    pub closed spec fn rep_ok(&self) -> bool {
        &&& self.core.wf()
        &&& self.voter.wf()
        &&& self.voter.me() == self.me
        &&& self.proposer.wf()
        &&& self.proposer@.me == self.me
        &&& self.gathering matches Some(g) ==> g.wf(self.core.members())
    }

    pub open spec fn wf(&self) -> bool {
        &&& self.rep_ok()
        &&& valid_committee(self.members())
        &&& history_ok(self.members(), self.history(), self.lowest())
        &&& settled(self.members(), self.lowest(), self.history(), self.waiting())
        &&& votes_ok(self.cast(), self.me())
        &&& proposer_ok(self.plan())
        &&& self.plan().me == self.me()
    }

    /// A primary at the start: it holds the genesis certificates, has cast
    /// no vote, and is ready to make its header of round one on the genesis
    /// certificates as parents. There is none unless the genesis
    /// certificates are of round zero, by distinct members and with distinct
    /// digests.
    pub fn new(me: u64, header_size: usize, committee: Committee, genesis: Vec<Certificate>) -> (r:
        Option<Primary>)
        requires
            committee.wf(),
        ensures
            r.is_some() == genesis_ok(committee@, views_of(genesis@)),
            r matches Some(p) ==> {
                &&& p.wf()
                &&& p.me() == me
                &&& p.header_size() == header_size
                &&& p.members() == committee@
                &&& p.lowest() == 0
                &&& p.history() == history_of(views_of(genesis@))
                &&& p.waiting() == Seq::<CertificateView>::empty()
                &&& p.cast() == Seq::<Vote>::empty()
                &&& p.gathering() is None
                &&& p.plan() == (ProposerView {
                    me,
                    round: 1,
                    ready: true,
                    parents: round_digests(
                        committee@,
                        history_of(views_of(genesis@)),
                        0,
                        committee@.len() as int,
                    ),
                    payload: Seq::empty(),
                    last: 0,
                })
            },
    {
        match Core::new(committee, genesis) {
            None => None,
            Some(core) => {
                let parents: Vec<Digest> = core.dag().digests_of(0);
                Some(
                    Primary {
                        me,
                        header_size,
                        core,
                        voter: Voter::new(me),
                        proposer: Proposer::new(me, parents),
                        gathering: None,
                    },
                )
            },
        }
    }

    /// The DAG core of this primary.
    pub fn dag_core(&self) -> (r: &Core)
        requires
            self.wf(),
        ensures
            r.wf(),
            r.members() == self.members(),
            r.history() == self.history(),
            r.lowest() == self.lowest(),
            r.waiting() == self.waiting(),
    {
        &self.core
    }

    /// Takes a header from the network. `authentic` says whether it
    /// verifies under its author's key and bears the digest of its
    /// contents. A header that earns the vote is answered with the vote; one
    /// whose parents are missing is answered with a request for them, to its
    /// author; any other gets no answer.
    pub fn on_header(&mut self, header: &Header, authentic: bool) -> (r: Reply)
        requires
            old(self).wf(),
        ensures
            final(self).wf(),
            final(self).me() == old(self).me(),
            final(self).header_size() == old(self).header_size(),
            final(self).members() == old(self).members(),
            final(self).history() == old(self).history(),
            final(self).lowest() == old(self).lowest(),
            final(self).waiting() == old(self).waiting(),
            final(self).plan() == old(self).plan(),
            final(self).gathering() == old(self).gathering(),
            ({
                let b = ballot(
                    old(self).members(),
                    old(self).history(),
                    old(self).lowest(),
                    old(self).cast(),
                    old(self).me(),
                    header@,
                    authentic,
                );
                &&& final(self).cast() == if b is Cast && !voted_on(
                    old(self).cast(),
                    header@.author,
                    header@.round,
                ) {
                    old(self).cast().push(vote_for(header@, old(self).me()))
                } else {
                    old(self).cast()
                }
                &&& b matches Ballot::Cast(v) ==> r == Reply::Vote(v)
                &&& b == Ballot::MissingParents ==> (r matches Reply::Request { to, digests } && to
                    == header@.author && digests@ == unknown_parents(
                    old(self).history(),
                    header@.round as nat,
                    header@.parents,
                    header@.parents.len() as int,
                ))
                &&& !(b is Cast) && b != Ballot::MissingParents ==> r == Reply::Silence
            }),
    {
        match self.voter.consider(self.core.dag(), header, authentic) {
            Ballot::Cast(v) => Reply::Vote(v),
            Ballot::MissingParents => {
                let digests: Vec<Digest> = self.core.dag().missing_parents(
                    header.round,
                    &header.parents,
                );
                Reply::Request { to: header.author, digests }
            },
            _ => Reply::Silence,
        }
    }

    /// Takes a header of this authority back from where it was sealed:
    /// from now on the votes on it are gathered. Only the header of the last
    /// draft is taken, and only once.
    pub fn on_sealed(&mut self, header: Header) -> (r: bool)
        requires
            old(self).wf(),
        ensures
            final(self).wf(),
            final(self).me() == old(self).me(),
            final(self).header_size() == old(self).header_size(),
            final(self).members() == old(self).members(),
            final(self).history() == old(self).history(),
            final(self).lowest() == old(self).lowest(),
            final(self).waiting() == old(self).waiting(),
            final(self).plan() == old(self).plan(),
            final(self).cast() == old(self).cast(),
            r == (header@.author == old(self).me() && header@.round == old(self).plan().last
                && !gathers_round(old(self).gathering(), header@.round)),
            final(self).gathering() == if r {
                Some((header@, Seq::<u64>::empty()))
            } else {
                old(self).gathering()
            },
    {
        if header.author != self.me || header.round != self.proposer.last_round() {
            return false;
        }
        let held: Option<VotesAggregator> = self.gathering.take();
        match held {
            Some(g) => {
                if g.round() == header.round {
                    self.gathering = Some(g);
                    return false;
                }
            },
            None => {},
        }
        let fresh: VotesAggregator = VotesAggregator::new(self.core.dag().committee(), header);
        self.gathering = Some(fresh);
        true
    }

    /// Takes a vote from the network. `authentic` says whether it verifies
    /// under the voter's key. The vote that completes the quorum on this
    /// authority's header yields the certificate, which is to be sent to
    /// everybody, this authority included.
    pub fn on_vote(&mut self, vote: Vote, authentic: bool) -> (r: Option<Certificate>)
        requires
            old(self).wf(),
        ensures
            final(self).wf(),
            final(self).me() == old(self).me(),
            final(self).header_size() == old(self).header_size(),
            final(self).members() == old(self).members(),
            final(self).history() == old(self).history(),
            final(self).lowest() == old(self).lowest(),
            final(self).waiting() == old(self).waiting(),
            final(self).plan() == old(self).plan(),
            final(self).cast() == old(self).cast(),
            old(self).gathering() is None ==> r is None && final(self).gathering() is None,
            old(self).gathering() matches Some(g) ==> {
                &&& final(self).gathering() == Some(
                    (g.0, voters_after(old(self).members(), g.0, g.1, vote, authentic)),
                )
                &&& r.is_some() == certifies(old(self).members(), g.0, g.1, vote, authentic)
                &&& r matches Some(c) ==> (c@ == (CertificateView {
                    header: g.0,
                    votes: g.1.push(vote.voter),
                }))
            },
    {
        let held: Option<VotesAggregator> = self.gathering.take();
        match held {
            None => None,
            Some(mut g) => {
                let outcome: VoteOutcome = g.append(self.core.dag().committee(), vote, authentic);
                self.gathering = Some(g);
                match outcome {
                    VoteOutcome::Certified(c) => Some(c),
                    _ => None,
                }
            },
        }
    }

    /// Tells the header builder of the round of each certificate that
    /// joined, and then lets it make a header if it can.
    fn notify(&mut self, joined: &Vec<Certificate>, timed_out: bool, now: u64) -> (r: Option<
        Draft,
    >)
        requires
            old(self).wf(),
        ensures
            final(self).wf(),
            final(self).me() == old(self).me(),
            final(self).header_size() == old(self).header_size(),
            final(self).members() == old(self).members(),
            final(self).history() == old(self).history(),
            final(self).lowest() == old(self).lowest(),
            final(self).waiting() == old(self).waiting(),
            final(self).cast() == old(self).cast(),
            final(self).gathering() == old(self).gathering(),
            ({
                let heard = told_all(
                    old(self).plan(),
                    old(self).members(),
                    old(self).history(),
                    views_of(joined@),
                    joined@.len() as int,
                );
                &&& final(self).plan() == proposed(heard, old(self).header_size(), timed_out)
                &&& r.is_some() == proposes(heard, old(self).header_size(), timed_out)
                &&& r matches Some(d) ==> d@ == draft_of(heard, now)
            }),
    {
        let ghost plan0 = self.plan();
        let ghost members = self.members();
        let ghost dag = self.history();
        let ghost list = views_of(joined@);
        let n: usize = joined.len();
        let mut i: usize = 0;
        while i < n
            invariant
                self.wf(),
                self.me() == old(self).me(),
                self.header_size() == old(self).header_size(),
                self.members() == members,
                self.history() == dag,
                self.lowest() == old(self).lowest(),
                self.waiting() == old(self).waiting(),
                self.cast() == old(self).cast(),
                self.gathering() == old(self).gathering(),
                n == joined.len(),
                list == views_of(joined@),
                0 <= i <= n,
                self.plan() == told_all(plan0, members, dag, list, i as int),
            decreases n - i,
        {
            let round: u64 = joined[i].header.round;
            assert(list[i as int] == joined[i as int]@);
            match self.core.closed_parents(round) {
                Some(parents) => {
                    self.proposer.advance(round, parents);
                },
                None => {},
            }
            i = i + 1;
        }
        self.proposer.propose(self.header_size, timed_out, now)
    }

    /// Takes a certificate from the network. `authentic` says whether its
    /// signatures verify and it bears the digest of its contents; `now` is
    /// the time. What joins the DAG goes to the consensus core; if parents
    /// are missing, they are asked of the certificate's author; and if a
    /// round closed and enough batches wait, the next header is made.
    pub fn on_certificate(&mut self, cert: Certificate, authentic: bool, now: u64) -> (r: Step)
        requires
            old(self).wf(),
        ensures
            final(self).wf(),
            final(self).me() == old(self).me(),
            final(self).header_size() == old(self).header_size(),
            final(self).members() == old(self).members(),
            final(self).lowest() == old(self).lowest(),
            final(self).cast() == old(self).cast(),
            final(self).gathering() == old(self).gathering(),
            (final(self).history(), final(self).waiting()) == received(
                old(self).members(),
                old(self).lowest(),
                old(self).history(),
                old(self).waiting(),
                cert@,
                authentic,
            ),
            views_of(r.joined@) == joined_by(
                old(self).members(),
                old(self).lowest(),
                old(self).history(),
                old(self).waiting(),
                cert@,
                authentic,
            ),
            r.request.is_some() == asks_for_parents(
                old(self).members(),
                old(self).lowest(),
                old(self).history(),
                cert@,
                authentic,
            ),
            r.request matches Some(q) ==> q.0 == cert@.header.author && q.1@ == unknown_parents(
                old(self).history(),
                cert@.header.round as nat,
                cert@.header.parents,
                cert@.header.parents.len() as int,
            ),
            ({
                let heard = told_all(
                    old(self).plan(),
                    old(self).members(),
                    final(self).history(),
                    views_of(r.joined@),
                    r.joined@.len() as int,
                );
                &&& final(self).plan() == proposed(heard, old(self).header_size(), false)
                &&& r.draft.is_some() == proposes(heard, old(self).header_size(), false)
                &&& r.draft matches Some(d) ==> d@ == draft_of(heard, now)
            }),
    {
        let author: u64 = cert.header.author;
        let (joined, request) = match self.core.process_certificate(cert, authentic) {
            Reception::Joined(list) => (list, None),
            Reception::Held(missing) => {
                let none: Vec<Certificate> = Vec::new();
                assert(views_of(none@) =~= Seq::<CertificateView>::empty());
                (none, Some((author, missing)))
            },
            _ => {
                let none: Vec<Certificate> = Vec::new();
                assert(views_of(none@) =~= Seq::<CertificateView>::empty());
                (none, None)
            },
        };
        let draft: Option<Draft> = self.notify(&joined, false, now);
        Step { joined, request, draft }
    }

    /// Takes the digest of a batch that a quorum has stored, and makes the
    /// next header if that is due and enough batches wait by now.
    pub fn on_batch(&mut self, batch: Digest, now: u64) -> (r: Option<Draft>)
        requires
            old(self).wf(),
        ensures
            final(self).wf(),
            final(self).me() == old(self).me(),
            final(self).header_size() == old(self).header_size(),
            final(self).members() == old(self).members(),
            final(self).history() == old(self).history(),
            final(self).lowest() == old(self).lowest(),
            final(self).waiting() == old(self).waiting(),
            final(self).cast() == old(self).cast(),
            final(self).gathering() == old(self).gathering(),
            final(self).plan() == proposed(
                with_batch(old(self).plan(), batch),
                old(self).header_size(),
                false,
            ),
            r.is_some() == proposes(
                with_batch(old(self).plan(), batch),
                old(self).header_size(),
                false,
            ),
            r matches Some(d) ==> d@ == draft_of(with_batch(old(self).plan(), batch), now),
    {
        self.proposer.add_batch(batch);
        self.proposer.propose(self.header_size, false, now)
    }

    /// Takes the tick of the header timer: the next header is made if it is
    /// due, whatever waits.
    pub fn on_tick(&mut self, now: u64) -> (r: Option<Draft>)
        requires
            old(self).wf(),
        ensures
            final(self).wf(),
            final(self).me() == old(self).me(),
            final(self).header_size() == old(self).header_size(),
            final(self).members() == old(self).members(),
            final(self).history() == old(self).history(),
            final(self).lowest() == old(self).lowest(),
            final(self).waiting() == old(self).waiting(),
            final(self).cast() == old(self).cast(),
            final(self).gathering() == old(self).gathering(),
            final(self).plan() == proposed(old(self).plan(), old(self).header_size(), true),
            r.is_some() == proposes(old(self).plan(), old(self).header_size(), true),
            r matches Some(d) ==> d@ == draft_of(old(self).plan(), now),
    {
        self.proposer.propose(self.header_size, true, now)
    }

    /// Takes the news that a certificate of `round` is committed. From then
    /// on no certificate of a round up to `round - depth` is admitted and no
    /// header of such a round gets the vote; those rounds leave the DAG but
    /// for the last of them, the certificates of them that waited are given
    /// up, and the votes on their headers are forgotten. Nothing joins the
    /// DAG by this.
    pub fn on_committed(&mut self, round: u64, depth: u64)
        requires
            old(self).wf(),
            round < u64::MAX,
        ensures
            final(self).wf(),
            final(self).me() == old(self).me(),
            final(self).header_size() == old(self).header_size(),
            final(self).members() == old(self).members(),
            final(self).gathering() == old(self).gathering(),
            final(self).plan() == old(self).plan(),
            final(self).lowest() == higher(old(self).lowest(), gc_floor(round as nat, depth as nat)),
            final(self).history() == old(self).history().restrict(
                from_round(keep_from(gc_floor(round as nat, depth as nat))),
            ),
            final(self).waiting() == retained(old(self).waiting(), final(self).lowest()),
            final(self).cast() == recent_votes(old(self).cast(), final(self).lowest() as u64),
    {
        self.core.collect_garbage(round, depth);
        let floor: u64 = self.core.dag().floor();
        self.voter.forget_below(floor);
    }
}

} // verus!
