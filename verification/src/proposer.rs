//! The header builder: one header for each round, on the parents that closed
//! the round before, carrying the batches that are ready.

use vstd::prelude::*;
use crate::types::{Digest, Header, HeaderView, has_digest};

verus! {

/// A header before its digest is known.
#[derive(Clone, Debug, PartialEq, Eq)]
pub struct Draft {
    pub author: u64,
    pub round: u64,
    pub payload: Vec<Digest>,
    pub parents: Vec<Digest>,
    pub timestamp: u64,
}

pub struct DraftView {
    pub author: u64,
    pub round: u64,
    pub payload: Seq<Digest>,
    pub parents: Seq<Digest>,
    pub timestamp: u64,
}

impl View for Draft {
    type V = DraftView;

    open spec fn view(&self) -> DraftView {
        DraftView {
            author: self.author,
            round: self.round,
            payload: self.payload@,
            parents: self.parents@,
            timestamp: self.timestamp,
        }
    }
}

/// The header that a draft becomes under the digest of its contents.
pub open spec fn sealed(draft: DraftView, digest: Digest) -> HeaderView {
    HeaderView {
        author: draft.author,
        round: draft.round,
        payload: draft.payload,
        parents: draft.parents,
        timestamp: draft.timestamp,
        digest,
    }
}

impl Draft {
    /// The header that this draft becomes under the digest of its contents.
    pub fn seal(self, digest: Digest) -> (r: Header)
        ensures
            r@ == sealed(self@, digest),
    {
        Header {
            author: self.author,
            round: self.round,
            payload: self.payload,
            parents: self.parents,
            timestamp: self.timestamp,
            digest,
        }
    }
}

/// What the header builder knows.
pub struct ProposerView {
    /// The authority that proposes.
    pub me: u64,
    /// The round of the header that is to be made next, or was made last.
    pub round: u64,
    /// Whether the header of `round` is still to be made.
    pub ready: bool,
    /// The parents for the header of `round`.
    pub parents: Seq<Digest>,
    /// The batches that wait for a header, each once.
    pub payload: Seq<Digest>,
    /// The round of the last header made; zero before the first.
    pub last: u64,
}

/// The header builder of one authority.
pub struct Proposer {
    me: u64,
    round: u64,
    ready: bool,
    parents: Vec<Digest>,
    payload: Vec<Digest>,
    last: u64,
}

impl View for Proposer {
    type V = ProposerView;

    closed spec fn view(&self) -> ProposerView {
        ProposerView {
            me: self.me,
            round: self.round,
            ready: self.ready,
            parents: self.parents@,
            payload: self.payload@,
            last: self.last,
        }
    }
}

/// No header is made twice for one round: while the header of the round is
/// to be made, none was made for it or a later round; once it is made, it
/// is the last.
pub open spec fn proposer_ok(p: ProposerView) -> bool {
    &&& p.round >= 1
    &&& p.payload.no_duplicates()
    &&& if p.ready {
        p.last < p.round
    } else {
        p.last == p.round
    }
}

/// The builder once the digest of a batch is offered: a digest that waits
/// already is not taken twice.
pub open spec fn with_batch(p: ProposerView, batch: Digest) -> ProposerView {
    if p.payload.contains(batch) {
        p
    } else {
        ProposerView { payload: p.payload.push(batch), ..p }
    }
}

/// Whether the news that `closed` is closed allows a header of a later
/// round than the one on hand.
pub open spec fn moves_on(p: ProposerView, closed: u64) -> bool {
    closed < u64::MAX && closed + 1 > p.round
}

/// The builder once it learns that `closed` is closed, with the digests of
/// its certificates: it moves to the round after, with these parents, if
/// that is a later round than the one on hand; for each round the first
/// news wins.
pub open spec fn advanced(p: ProposerView, closed: u64, parents: Seq<Digest>) -> ProposerView {
    if moves_on(p, closed) {
        ProposerView { round: (closed + 1) as u64, ready: true, parents, ..p }
    } else {
        p
    }
}

/// Whether a header is made now: the header of the round on hand is still
/// to be made, and either enough batches wait or the timer has run out.
pub open spec fn proposes(p: ProposerView, min_payload: usize, timed_out: bool) -> bool {
    p.ready && (p.payload.len() >= min_payload || timed_out)
}

/// The header that is made: of the round on hand, with all waiting batches
/// and the parents of the round.
pub open spec fn draft_of(p: ProposerView, timestamp: u64) -> DraftView {
    DraftView {
        author: p.me,
        round: p.round,
        payload: p.payload,
        parents: p.parents,
        timestamp,
    }
}

/// The builder after an attempt to make a header.
pub open spec fn proposed(p: ProposerView, min_payload: usize, timed_out: bool) -> ProposerView {
    if proposes(p, min_payload, timed_out) {
        ProposerView {
            ready: false,
            parents: Seq::empty(),
            payload: Seq::empty(),
            last: p.round,
            ..p
        }
    } else {
        p
    }
}

impl Proposer {
    pub open spec fn wf(&self) -> bool {
        proposer_ok(self@)
    }

    /// A header builder that is ready for round one, on the genesis
    /// certificates as parents.
    pub fn new(me: u64, genesis: Vec<Digest>) -> (r: Proposer)
        ensures
            r.wf(),
            r@ == (ProposerView {
                me,
                round: 1,
                ready: true,
                parents: genesis@,
                payload: Seq::empty(),
                last: 0,
            }),
    {
        Proposer { me, round: 1, ready: true, parents: genesis, payload: Vec::new(), last: 0 }
    }

    /// The round of the header that is to be made next, or was made last.
    pub fn round(&self) -> (r: u64)
        ensures
            r == self@.round,
    {
        self.round
    }

    /// The round of the last header made; zero before the first.
    pub fn last_round(&self) -> (r: u64)
        ensures
            r == self@.last,
    {
        self.last
    }

    /// Takes the digest of a batch that a quorum has stored. A digest that
    /// waits already is not taken twice.
    pub fn add_batch(&mut self, batch: Digest) -> (r: bool)
        requires
            old(self).wf(),
        ensures
            final(self).wf(),
            r == !old(self)@.payload.contains(batch),
            final(self)@ == with_batch(old(self)@, batch),
    {
        if has_digest(&self.payload, batch) {
            return false;
        }
        let ghost before = self@.payload;
        self.payload.push(batch);
        proof {
            assert forall|i: int, j: int| 0 <= i < self@.payload.len() && 0 <= j
                < self@.payload.len() && i != j implies self@.payload[i] != self@.payload[j] by {
                if i < before.len() && j < before.len() {
                    assert(before[i] != before[j]);
                } else if i < before.len() {
                    assert(before[i] == self@.payload[i]);
                } else if j < before.len() {
                    assert(before[j] == self@.payload[j]);
                }
            }
        }
        true
    }

    /// Learns that `closed` is closed, with the digests of its certificates.
    /// If that allows a header of a later round than the one on hand, the
    /// builder moves to the round after `closed` with these parents;
    /// otherwise nothing changes: for each round the first news wins.
    pub fn advance(&mut self, closed: u64, parents: Vec<Digest>) -> (r: bool)
        requires
            old(self).wf(),
        ensures
            final(self).wf(),
            r == moves_on(old(self)@, closed),
            final(self)@ == advanced(old(self)@, closed, parents@),
    {
        if closed == u64::MAX || closed + 1 <= self.round {
            return false;
        }
        self.round = closed + 1;
        self.ready = true;
        self.parents = parents;
        true
    }

    /// Makes the header of the round on hand if it is still to be made and
    /// either at least `min_payload` batches wait or the timer has run out.
    /// The header takes all waiting batches and the parents of the round.
    pub fn propose(&mut self, min_payload: usize, timed_out: bool, timestamp: u64) -> (r: Option<
        Draft,
    >)
        requires
            old(self).wf(),
        ensures
            final(self).wf(),
            r.is_some() == proposes(old(self)@, min_payload, timed_out),
            r matches Some(d) ==> d@ == draft_of(old(self)@, timestamp) && d.round > old(self)@.last,
            final(self)@ == proposed(old(self)@, min_payload, timed_out),
    {
        if !self.ready || !(self.payload.len() >= min_payload || timed_out) {
            return None;
        }
        let mut payload: Vec<Digest> = Vec::new();
        let mut parents: Vec<Digest> = Vec::new();
        core::mem::swap(&mut payload, &mut self.payload);
        core::mem::swap(&mut parents, &mut self.parents);
        self.ready = false;
        self.last = self.round;
        Some(Draft { author: self.me, round: self.round, payload, parents, timestamp })
    }
}

} // verus!
