//! Voting on headers: an authority endorses a header only if it builds on
//! what the DAG holds, and never two headers of one author for one round.

use vstd::prelude::*;
use crate::committee::{Authority, is_member, quorum_threshold, weight};
use crate::dag::{Dag, cites, parents_known};
use crate::types::{CertificateView, Header, HeaderView, Vote};

verus! {

/// What an authority answers to a header.
#[derive(Clone, Copy, PartialEq, Eq, Structural, Debug)]
pub enum Ballot {
    /// The header is endorsed: this vote goes to its author.
    Cast(Vote),
    /// The header does not verify under its author's key.
    BadSignature,
    /// Its round is zero or lies below the lowest round that certificates
    /// are admitted to.
    Stale,
    /// Its author is no member of the committee.
    Stranger,
    /// The DAG already holds a certificate of its author for its round.
    Certified,
    /// Some of its parents are not held.
    MissingParents,
    /// Its parents' authors hold less than a quorum of stake.
    WeakParents,
    /// A different header of its author for its round was endorsed before.
    Equivocation,
}

/// Whether `votes` lists a vote on a header of `origin` for `round`.
pub open spec fn voted_on(votes: Seq<Vote>, origin: u64, round: u64) -> bool {
    exists|i: int|
        0 <= i < votes.len() && (#[trigger] votes[i]).origin == origin && votes[i].round == round
}

/// The vote that `votes` lists on a header of `origin` for `round`.
pub open spec fn vote_on(votes: Seq<Vote>, origin: u64, round: u64) -> Vote {
    let i = choose|i: int|
        0 <= i < votes.len() && (#[trigger] votes[i]).origin == origin && votes[i].round == round;
    votes[i]
}

/// At most one vote for each author and round, all of them by `me`.
pub open spec fn votes_ok(votes: Seq<Vote>, me: u64) -> bool {
    &&& forall|i: int| 0 <= i < votes.len() ==> (#[trigger] votes[i]).voter == me
    &&& forall|i: int, j: int|
        0 <= i < j < votes.len() ==> !((#[trigger] votes[i]).origin == (#[trigger] votes[j]).origin
            && votes[i].round == votes[j].round)
}

/// The votes of `votes` on headers of the rounds from `floor` on, in the
/// order of the list.
pub open spec fn recent_votes(votes: Seq<Vote>, floor: u64) -> Seq<Vote>
    decreases votes.len(),
{
    if votes.len() == 0 {
        Seq::empty()
    } else if votes.last().round >= floor {
        recent_votes(votes.drop_last(), floor).push(votes.last())
    } else {
        recent_votes(votes.drop_last(), floor)
    }
}

/// Forgetting old votes leaves one vote at most for each author and round.
proof fn lemma_recent_votes_ok(votes: Seq<Vote>, floor: u64, me: u64)
    requires
        votes_ok(votes, me),
    ensures
        votes_ok(recent_votes(votes, floor), me),
        forall|j: int|
            0 <= j < recent_votes(votes, floor).len() ==> votes.contains(
                #[trigger] recent_votes(votes, floor)[j],
            ),
    decreases votes.len(),
{
    if votes.len() > 0 {
        let front = votes.drop_last();
        let kept = recent_votes(votes, floor);
        let before = recent_votes(front, floor);
        assert forall|i: int| 0 <= i < front.len() implies (#[trigger] front[i]).voter == me by {
            assert(front[i] == votes[i]);
        }
        assert forall|i: int, j: int| 0 <= i < j < front.len() implies !((#[trigger] front[i]).origin
            == (#[trigger] front[j]).origin && front[i].round == front[j].round) by {
            assert(front[i] == votes[i] && front[j] == votes[j]);
        }
        lemma_recent_votes_ok(front, floor, me);
        assert forall|j: int| 0 <= j < kept.len() implies votes.contains(#[trigger] kept[j]) by {
            if j < before.len() {
                assert(kept[j] == before[j]);
                assert(front.contains(before[j]));
                let i = choose|i: int| 0 <= i < front.len() && front[i] == before[j];
                assert(votes[i] == kept[j]);
            } else {
                assert(votes[votes.len() - 1] == kept[j]);
            }
        }
        assert forall|i: int| 0 <= i < kept.len() implies (#[trigger] kept[i]).voter == me by {
            assert(votes.contains(kept[i]));
            let x = choose|x: int| 0 <= x < votes.len() && votes[x] == kept[i];
            assert(votes[x].voter == me);
        }
        assert forall|i: int, j: int| 0 <= i < j < kept.len() implies !((#[trigger] kept[i]).origin
            == (#[trigger] kept[j]).origin && kept[i].round == kept[j].round) by {
            if j < before.len() {
                assert(kept[i] == before[i] && kept[j] == before[j]);
            } else {
                assert(kept[i] == before[i]);
                assert(front.contains(before[i]));
                let x = choose|x: int| 0 <= x < front.len() && front[x] == before[i];
                assert(votes[x] == kept[i]);
                assert(votes[votes.len() - 1] == kept[j]);
            }
        }
    }
}

/// The vote of `me` on `header`.
pub open spec fn vote_for(header: HeaderView, me: u64) -> Vote {
    Vote { digest: header.digest, round: header.round, origin: header.author, voter: me }
}

/// The answer to a header, the first that applies in this order: bad
/// signature, stale, stranger, certified already, missing parents, weak
/// parents, equivocation; else the vote is cast, and a header that was
/// endorsed before gets the same vote again.
pub open spec fn ballot(
    members: Seq<Authority>,
    dag: Map<(nat, u64), CertificateView>,
    floor: nat,
    votes: Seq<Vote>,
    me: u64,
    header: HeaderView,
    authentic: bool,
) -> Ballot {
    let round = header.round as nat;
    if !authentic {
        Ballot::BadSignature
    } else if round == 0 || round < floor {
        Ballot::Stale
    } else if !is_member(members, header.author) {
        Ballot::Stranger
    } else if dag.contains_key((round, header.author)) {
        Ballot::Certified
    } else if !parents_known(dag, round, header.parents) {
        Ballot::MissingParents
    } else if weight(members, cites(dag, round, header.parents)) < quorum_threshold(members) {
        Ballot::WeakParents
    } else if voted_on(votes, header.author, header.round) && vote_on(
        votes,
        header.author,
        header.round,
    ).digest != header.digest {
        Ballot::Equivocation
    } else {
        Ballot::Cast(vote_for(header, me))
    }
}

/// The votes that one authority has cast.
pub struct Voter {
    me: u64,
    votes: Vec<Vote>,
}

impl View for Voter {
    type V = Seq<Vote>;

    closed spec fn view(&self) -> Seq<Vote> {
        self.votes@
    }
}

impl Voter {
    /// The authority that votes.
    pub closed spec fn me(&self) -> u64 {
        self.me
    }

    pub open spec fn wf(&self) -> bool {
        votes_ok(self@, self.me())
    }

    pub fn new(me: u64) -> (r: Voter)
        ensures
            r.wf(),
            r.me() == me,
            r@ == Seq::<Vote>::empty(),
    {
        Voter { me, votes: Vec::new() }
    }

    /// The vote cast on a header of `origin` for `round`, if there is one.
    pub fn cast_on(&self, origin: u64, round: u64) -> (r: Option<Vote>)
        requires
            self.wf(),
        ensures
            r.is_some() == voted_on(self@, origin, round),
            r matches Some(v) ==> v == vote_on(self@, origin, round) && v.origin == origin
                && v.round == round,
    {
        let n: usize = self.votes.len();
        let mut i: usize = 0;
        while i < n
            invariant
                self.wf(),
                n == self.votes.len(),
                0 <= i <= n,
                forall|x: int|
                    0 <= x < i ==> !((#[trigger] self@[x]).origin == origin && self@[x].round
                        == round),
            decreases n - i,
        {
            if self.votes[i].origin == origin && self.votes[i].round == round {
                proof {
                    let w = choose|w: int|
                        0 <= w < self@.len() && (#[trigger] self@[w]).origin == origin
                            && self@[w].round == round;
                    assert(self@[i as int].origin == self@[w].origin);
                    assert(w == i);
                }
                return Some(self.votes[i]);
            }
            i = i + 1;
        }
        None
    }

    /// Forgets the votes on headers of rounds below `floor`: once those
    /// rounds have left the DAG, their headers are stale and get no vote.
    pub fn forget_below(&mut self, floor: u64)
        requires
            old(self).wf(),
        ensures
            final(self).wf(),
            final(self).me() == old(self).me(),
            final(self)@ == recent_votes(old(self)@, floor),
    {
        let ghost all = self@;
        let n: usize = self.votes.len();
        let mut kept: Vec<Vote> = Vec::new();
        let mut i: usize = 0;
        while i < n
            invariant
                n == self.votes.len(),
                all == self.votes@,
                0 <= i <= n,
                kept@ == recent_votes(all.take(i as int), floor),
            decreases n - i,
        {
            proof {
                assert(all.take(i + 1).drop_last() =~= all.take(i as int));
                assert(all.take(i + 1).last() == all[i as int]);
            }
            if self.votes[i].round >= floor {
                kept.push(self.votes[i]);
            }
            i = i + 1;
        }
        proof {
            assert(all.take(n as int) =~= all);
            lemma_recent_votes_ok(all, floor, self.me);
        }
        self.votes = kept;
    }

    /// Answers a header, given the DAG as it stands. `authentic` says
    /// whether the header verifies under its author's key. A vote that is
    /// cast is remembered, so that no other header of the same author and
    /// round is endorsed later.
    pub fn consider(&mut self, dag: &Dag, header: &Header, authentic: bool) -> (r: Ballot)
        requires
            old(self).wf(),
            dag.wf(),
        ensures
            final(self).wf(),
            final(self).me() == old(self).me(),
            r == ballot(
                dag.members(),
                dag@,
                dag.lowest(),
                old(self)@,
                old(self).me(),
                header@,
                authentic,
            ),
            final(self)@ == if r is Cast && !voted_on(old(self)@, header@.author, header@.round) {
                old(self)@.push(vote_for(header@, old(self).me()))
            } else {
                old(self)@
            },
    {
        let round: u64 = header.round;
        if !authentic {
            return Ballot::BadSignature;
        }
        if round == 0 || round < dag.floor() {
            return Ballot::Stale;
        }
        if !dag.committee().contains(header.author) {
            return Ballot::Stranger;
        }
        if dag.get(round, header.author).is_some() {
            return Ballot::Certified;
        }
        if !dag.knows_parents(round, &header.parents) {
            return Ballot::MissingParents;
        }
        if dag.parent_weight(round, &header.parents) < dag.committee().quorum_threshold() {
            return Ballot::WeakParents;
        }
        let vote = Vote { digest: header.digest, round, origin: header.author, voter: self.me };
        match self.cast_on(header.author, round) {
            Some(prior) => {
                if prior.digest != header.digest {
                    Ballot::Equivocation
                } else {
                    proof {
                        let w = choose|w: int|
                            0 <= w < self@.len() && (#[trigger] self@[w]).origin == header.author
                                && self@[w].round == round;
                        assert(self@[w].voter == self.me);
                    }
                    Ballot::Cast(vote)
                }
            },
            None => {
                let ghost before = self@;
                self.votes.push(vote);
                proof {
                    assert forall|i: int, j: int| 0 <= i < j < self@.len() implies !((
                    #[trigger] self@[i]).origin == (#[trigger] self@[j]).origin && self@[i].round
                        == self@[j].round) by {
                        assert(self@[i] == before[i]);
                        if j < before.len() {
                            assert(self@[j] == before[j]);
                        }
                    }
                    assert forall|i: int| 0 <= i < self@.len() implies (#[trigger] self@[i]).voter
                        == self.me by {
                        if i < before.len() {
                            assert(self@[i] == before[i]);
                        }
                    }
                }
                Ballot::Cast(vote)
            },
        }
    }
}

} // verus!
