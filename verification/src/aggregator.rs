//! Gathering stake: votes on a header until they certify it, and
//! acknowledgements of a batch until a quorum has stored it.

use vstd::prelude::*;
use crate::committee::{
    Authority, Committee, is_member, lemma_weight_bounds, listed,
    quorum_threshold, stake_of, valid_committee, weight, weight_upto,
};
use crate::types::{Certificate, CertificateView, Digest, Header, HeaderView, Vote, copy_ids, has_id};

verus! {

/// Listing one more member adds that member's stake, and nothing else.
pub proof fn lemma_weight_add(members: Seq<Authority>, ids: Seq<u64>, id: u64, n: int)
    requires
        valid_committee(members),
        0 <= n <= members.len(),
        !ids.contains(id),
    ensures
        weight_upto(members, listed(ids.push(id)), n) == weight_upto(members, listed(ids), n)
            + weight_upto(members, crate::committee::same_id(id), n),
    decreases n,
{
    if n > 0 {
        lemma_weight_add(members, ids, id, n - 1);
        let a = members[n - 1].id;
        if a == id {
            assert(ids.push(id)[ids.len() as int] == id);
        } else if ids.contains(a) {
            let i = choose|i: int| 0 <= i < ids.len() && ids[i] == a;
            assert(ids.push(id)[i] == a);
        } else if ids.push(id).contains(a) {
            let i = choose|i: int| 0 <= i < ids.push(id).len() && ids.push(id)[i] == a;
            assert(ids[i] == a);
        }
    }
}

/// Who is counted once the voice of `id` is offered: a member that was not
/// counted is added, and nothing else changes anything.
pub open spec fn heard_after(members: Seq<Authority>, voices: Seq<u64>, id: u64) -> Seq<u64> {
    if is_member(members, id) && !voices.contains(id) {
        voices.push(id)
    } else {
        voices
    }
}

/// The voters counted once `vote` is offered on `header`: an authentic vote
/// for this header, by a member that has not voted, before the quorum is
/// reached, adds its voter, and nothing else changes anything.
pub open spec fn voters_after(
    members: Seq<Authority>,
    header: HeaderView,
    voters: Seq<u64>,
    vote: Vote,
    authentic: bool,
) -> Seq<u64> {
    if authentic && endorses(vote, header) && weight(members, listed(voters)) < quorum_threshold(
        members,
    ) {
        heard_after(members, voters, vote.voter)
    } else {
        voters
    }
}

/// Whether `vote`, offered on `header`, completes the quorum: it is counted,
/// and with it the voters hold a quorum of stake.
pub open spec fn certifies(
    members: Seq<Authority>,
    header: HeaderView,
    voters: Seq<u64>,
    vote: Vote,
    authentic: bool,
) -> bool {
    &&& voters_after(members, header, voters, vote, authentic) != voters
    &&& weight(members, listed(voters.push(vote.voter))) >= quorum_threshold(members)
}

/// The members counted once the acknowledgement of `batch` by `from` is
/// offered to the waiter for `awaited`: one for that batch, by a member that
/// has not acknowledged, before the quorum is reached, adds its sender, and
/// nothing else changes anything.
pub open spec fn acked_after(
    members: Seq<Authority>,
    awaited: Digest,
    acked: Seq<u64>,
    batch: Digest,
    from: u64,
) -> Seq<u64> {
    if batch == awaited && weight(members, listed(acked)) < quorum_threshold(members) {
        heard_after(members, acked, from)
    } else {
        acked
    }
}

/// What becomes of one voice offered to an aggregator.
#[derive(Clone, Copy, PartialEq, Eq, Structural, Debug)]
pub enum Voice {
    /// A member that was not counted before: its stake is added.
    Counted,
    /// A member that is counted already: nothing changes.
    Repeated,
    /// No member of the committee: nothing changes.
    Stranger,
}

/// The members heard so far, each once, and their combined stake.
pub struct Aggregator {
    voices: Vec<u64>,
    total: u64,
}

impl View for Aggregator {
    type V = Seq<u64>;

    closed spec fn view(&self) -> Seq<u64> {
        self.voices@
    }
}

impl Aggregator {
    pub closed spec fn cached(&self) -> int {
        self.total as int
    }

    /// With respect to a committee: only members are counted, each once,
    /// and the stake kept is theirs.
    pub open spec fn wf(&self, members: Seq<Authority>) -> bool {
        &&& valid_committee(members)
        &&& self@.no_duplicates()
        &&& forall|i: int| 0 <= i < self@.len() ==> is_member(members, #[trigger] self@[i])
        &&& self.cached() == weight(members, listed(self@))
    }

    pub fn new(committee: &Committee) -> (r: Aggregator)
        requires
            committee.wf(),
        ensures
            r.wf(committee@),
            r@ == Seq::<u64>::empty(),
            r.cached() == 0,
    {
        let r = Aggregator { voices: Vec::new(), total: 0 };
        proof {
            crate::committee::lemma_weight_none(
                committee@,
                listed(r@),
                committee@.len() as int,
            );
        }
        r
    }

    /// Combined stake of the members heard so far.
    pub fn weight(&self) -> (r: u64)
        ensures
            r == self.cached(),
    {
        self.total
    }

    /// Whether `id` is counted already.
    pub fn heard(&self, id: u64) -> (r: bool)
        ensures
            r == self@.contains(id),
    {
        has_id(&self.voices, id)
    }

    /// The members heard so far, in the order in which they were counted.
    pub fn voices(&self) -> (r: Vec<u64>)
        ensures
            r@ == self@,
    {
        copy_ids(&self.voices)
    }

    /// Counts the voice of `id`: once if it is a member, never twice.
    pub fn add(&mut self, committee: &Committee, id: u64) -> (r: Voice)
        requires
            committee.wf(),
            old(self).wf(committee@),
        ensures
            final(self).wf(committee@),
            r == if !is_member(committee@, id) {
                Voice::Stranger
            } else if old(self)@.contains(id) {
                Voice::Repeated
            } else {
                Voice::Counted
            },
            r == Voice::Counted ==> final(self)@ == old(self)@.push(id) && final(self).cached()
                == old(self).cached() + stake_of(committee@, id),
            r != Voice::Counted ==> final(self)@ == old(self)@ && final(self).cached() == old(self).cached(),
            final(self)@ == heard_after(committee@, old(self)@, id),
    {
        if !committee.contains(id) {
            return Voice::Stranger;
        }
        if has_id(&self.voices, id) {
            return Voice::Repeated;
        }
        let stake: u64 = committee.stake(id);
        proof {
            lemma_weight_add(committee@, self@, id, committee@.len() as int);
            lemma_weight_bounds(committee@, listed(self@.push(id)), committee@.len() as int);
        }
        let ghost before = self@;
        self.voices.push(id);
        self.total = self.total + stake;
        proof {
            assert forall|i: int| 0 <= i < self@.len() implies is_member(
                committee@,
                #[trigger] self@[i],
            ) by {
                if i < before.len() {
                    assert(self@[i] == before[i]);
                }
            }
            assert forall|i: int, j: int| 0 <= i < self@.len() && 0 <= j < self@.len() && i
                != j implies self@[i] != self@[j] by {
                if i < before.len() && j < before.len() {
                    assert(before[i] != before[j]);
                } else if i < before.len() {
                    assert(before[i] == self@[i]);
                } else if j < before.len() {
                    assert(before[j] == self@[j]);
                }
            }
        }
        Voice::Counted
    }
}

/// What becomes of a vote offered to the aggregator of a header.
#[derive(Clone, Debug, PartialEq, Eq)]
pub enum VoteOutcome {
    /// The vote does not verify under the voter's key.
    BadSignature,
    /// The vote is for another header.
    Unrelated,
    /// The voter is no member of the committee.
    Stranger,
    /// The header is certified already.
    Late,
    /// The voter's vote is counted already.
    Repeated,
    /// The vote is counted; the quorum is not reached yet.
    Counted,
    /// The vote is counted and completes the quorum: here is the
    /// certificate.
    Certified(Certificate),
}

/// Whether `vote` endorses `header`.
pub open spec fn endorses(vote: Vote, header: HeaderView) -> bool {
    vote.digest == header.digest && vote.round == header.round && vote.origin == header.author
}

/// The votes gathered on one header of this authority.
pub struct VotesAggregator {
    header: Header,
    tally: Aggregator,
    complete: bool,
}

impl VotesAggregator {
    /// The header that the votes are gathered on.
    pub closed spec fn header(&self) -> HeaderView {
        self.header@
    }

    /// The voters counted so far.
    pub closed spec fn voters(&self) -> Seq<u64> {
        self.tally@
    }

    /// Whether the certificate has been given out.
    pub closed spec fn complete(&self) -> bool {
        self.complete
    }

    pub closed spec fn rep_ok(&self, members: Seq<Authority>) -> bool {
        self.tally.wf(members)
    }

    pub open spec fn wf(&self, members: Seq<Authority>) -> bool {
        &&& self.rep_ok(members)
        &&& valid_committee(members)
        &&& self.voters().no_duplicates()
        &&& self.complete() == (weight(members, listed(self.voters())) >= quorum_threshold(
            members,
        ))
    }

    /// The round of the header that the votes are gathered on.
    pub fn round(&self) -> (r: u64)
        ensures
            r == self.header().round,
    {
        self.header.round
    }

    pub fn new(committee: &Committee, header: Header) -> (r: VotesAggregator)
        requires
            committee.wf(),
        ensures
            r.wf(committee@),
            r.header() == header@,
            r.voters() == Seq::<u64>::empty(),
            !r.complete(),
    {
        proof {
            crate::committee::lemma_thresholds(committee@);
        }
        VotesAggregator { header, tally: Aggregator::new(committee), complete: false }
    }

    /// Takes a vote. `authentic` says whether its signature verifies under
    /// the voter's key. Only an authentic vote for this header, by a member
    /// that has not voted yet, before the quorum is reached, is counted; the
    /// one that completes the quorum yields the certificate.
    pub fn append(&mut self, committee: &Committee, vote: Vote, authentic: bool) -> (r:
        VoteOutcome)
        requires
            committee.wf(),
            old(self).wf(committee@),
        ensures
            final(self).wf(committee@),
            final(self).header() == old(self).header(),
            !authentic ==> r == VoteOutcome::BadSignature,
            authentic && !endorses(vote, old(self).header()) ==> r == VoteOutcome::Unrelated,
            authentic && endorses(vote, old(self).header()) ==> {
                if !is_member(committee@, vote.voter) {
                    r == VoteOutcome::Stranger
                } else if old(self).complete() {
                    r == VoteOutcome::Late
                } else if old(self).voters().contains(vote.voter) {
                    r == VoteOutcome::Repeated
                } else if weight(committee@, listed(old(self).voters().push(vote.voter)))
                    < quorum_threshold(committee@) {
                    r == VoteOutcome::Counted
                } else {
                    r matches VoteOutcome::Certified(c) && c@ == (CertificateView {
                        header: old(self).header(),
                        votes: old(self).voters().push(vote.voter),
                    })
                }
            },
            (r == VoteOutcome::Counted || r is Certified) ==> final(self).voters() == old(self).voters().push(vote.voter),
            !(r == VoteOutcome::Counted || r is Certified) ==> final(self).voters() == old(self).voters() && final(self).complete() == old(self).complete(),
            final(self).voters() == voters_after(
                committee@,
                old(self).header(),
                old(self).voters(),
                vote,
                authentic,
            ),
            r is Certified == certifies(
                committee@,
                old(self).header(),
                old(self).voters(),
                vote,
                authentic,
            ),
    {
        if !authentic {
            return VoteOutcome::BadSignature;
        }
        if !(vote.digest == self.header.digest && vote.round == self.header.round && vote.origin
            == self.header.author) {
            return VoteOutcome::Unrelated;
        }
        if !committee.contains(vote.voter) {
            return VoteOutcome::Stranger;
        }
        if self.complete {
            return VoteOutcome::Late;
        }
        match self.tally.add(committee, vote.voter) {
            Voice::Counted => {
                if self.tally.weight() >= committee.quorum_threshold() {
                    self.complete = true;
                    let c = Certificate {
                        header: self.header.duplicate(),
                        votes: self.tally.voices(),
                    };
                    VoteOutcome::Certified(c)
                } else {
                    VoteOutcome::Counted
                }
            },
            _ => VoteOutcome::Repeated,
        }
    }
}

/// What becomes of an acknowledgement offered to a quorum waiter.
#[derive(Clone, Copy, PartialEq, Eq, Structural, Debug)]
pub enum Ack {
    /// The acknowledgement is for another batch.
    Unrelated,
    /// The sender is no member of the committee.
    Stranger,
    /// The quorum was reached before.
    Late,
    /// The sender's acknowledgement is counted already.
    Repeated,
    /// The acknowledgement is counted; the quorum is not reached yet.
    Counted,
    /// The acknowledgement is counted and completes the quorum: the batch
    /// may be reported to the header builder.
    Quorum,
}

/// The acknowledgements gathered on one batch that this authority sent out.
pub struct QuorumWaiter {
    batch: Digest,
    tally: Aggregator,
    complete: bool,
}

impl QuorumWaiter {
    pub closed spec fn batch(&self) -> Digest {
        self.batch
    }

    /// The members whose acknowledgement is counted.
    pub closed spec fn acked(&self) -> Seq<u64> {
        self.tally@
    }

    /// Whether the quorum has been reached.
    pub closed spec fn complete(&self) -> bool {
        self.complete
    }

    pub closed spec fn rep_ok(&self, members: Seq<Authority>) -> bool {
        self.tally.wf(members)
    }

    pub open spec fn wf(&self, members: Seq<Authority>) -> bool {
        &&& self.rep_ok(members)
        &&& valid_committee(members)
        &&& self.acked().no_duplicates()
        &&& self.complete() == (weight(members, listed(self.acked())) >= quorum_threshold(
            members,
        ))
    }

    pub fn new(committee: &Committee, batch: Digest) -> (r: QuorumWaiter)
        requires
            committee.wf(),
        ensures
            r.wf(committee@),
            r.batch() == batch,
            r.acked() == Seq::<u64>::empty(),
            !r.complete(),
    {
        proof {
            crate::committee::lemma_thresholds(committee@);
        }
        QuorumWaiter { batch, tally: Aggregator::new(committee), complete: false }
    }

    /// Takes the acknowledgement of `batch` by `from`. Only one for this
    /// batch, by a member that has not acknowledged yet, before the quorum
    /// is reached, is counted.
    pub fn acknowledge(&mut self, committee: &Committee, batch: Digest, from: u64) -> (r: Ack)
        requires
            committee.wf(),
            old(self).wf(committee@),
        ensures
            final(self).wf(committee@),
            final(self).batch() == old(self).batch(),
            r == if batch != old(self).batch() {
                Ack::Unrelated
            } else if !is_member(committee@, from) {
                Ack::Stranger
            } else if old(self).complete() {
                Ack::Late
            } else if old(self).acked().contains(from) {
                Ack::Repeated
            } else if weight(committee@, listed(old(self).acked().push(from))) < quorum_threshold(
                committee@,
            ) {
                Ack::Counted
            } else {
                Ack::Quorum
            },
            (r == Ack::Counted || r == Ack::Quorum) ==> final(self).acked() == old(self).acked().push(from),
            !(r == Ack::Counted || r == Ack::Quorum) ==> final(self).acked() == old(self).acked()
                && final(self).complete() == old(self).complete(),
            final(self).acked() == acked_after(
                committee@,
                old(self).batch(),
                old(self).acked(),
                batch,
                from,
            ),
    {
        if batch != self.batch {
            return Ack::Unrelated;
        }
        if !committee.contains(from) {
            return Ack::Stranger;
        }
        if self.complete {
            return Ack::Late;
        }
        match self.tally.add(committee, from) {
            Voice::Counted => {
                if self.tally.weight() >= committee.quorum_threshold() {
                    self.complete = true;
                    Ack::Quorum
                } else {
                    Ack::Counted
                }
            },
            _ => Ack::Repeated,
        }
    }
}

} // verus!
