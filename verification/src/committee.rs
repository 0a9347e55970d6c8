//! The committee: who the authorities are, how much each one's voice weighs,
//! and the stake thresholds that the protocol's quorums rest on.

use vstd::prelude::*;
use crate::types::has_id;

verus! {

/// A committee member: its identifier and its voting stake.
#[derive(Clone, Copy, PartialEq, Eq, Structural, Debug)]
pub struct Authority {
    pub id: u64,
    pub stake: u64,
}

/// Combined stake of the first `n` members.
pub open spec fn stake_upto(members: Seq<Authority>, n: int) -> int
    decreases n,
{
    if n <= 0 {
        0
    } else {
        stake_upto(members, n - 1) + members[n - 1].stake
    }
}

/// Combined stake of all members.
pub open spec fn total_stake(members: Seq<Authority>) -> int {
    stake_upto(members, members.len() as int)
}

/// Combined stake of those among the first `n` members whose identifier
/// satisfies `holds`.
pub open spec fn weight_upto(members: Seq<Authority>, holds: spec_fn(u64) -> bool, n: int) -> int
    decreases n,
{
    if n <= 0 {
        0
    } else {
        weight_upto(members, holds, n - 1) + if holds(members[n - 1].id) {
            members[n - 1].stake as int
        } else {
            0
        }
    }
}

/// Combined stake of the members whose identifier satisfies `holds`.
pub open spec fn weight(members: Seq<Authority>, holds: spec_fn(u64) -> bool) -> int {
    weight_upto(members, holds, members.len() as int)
}

/// The least stake that exceeds two thirds of the total.
pub open spec fn quorum_threshold(members: Seq<Authority>) -> int {
    2 * total_stake(members) / 3 + 1
}

/// The least stake that is certain to include an honest authority: one third
/// of the total, rounded up.
pub open spec fn validity_threshold(members: Seq<Authority>) -> int {
    (total_stake(members) + 2) / 3
}

/// A committee is a non-empty list of authorities in strictly ascending order
/// of identifier, each with positive stake, whose total stake fits a `u64`.
pub open spec fn valid_committee(members: Seq<Authority>) -> bool {
    &&& 0 < members.len() <= usize::MAX
    &&& forall|i: int, j: int| 0 <= i < j < members.len() ==> members[i].id < members[j].id
    &&& forall|i: int| 0 <= i < members.len() ==> members[i].stake > 0
    &&& total_stake(members) <= u64::MAX
}

pub open spec fn is_member(members: Seq<Authority>, id: u64) -> bool {
    exists|i: int| 0 <= i < members.len() && members[i].id == id
}

/// The property of being the authority `id`.
pub open spec fn same_id(id: u64) -> spec_fn(u64) -> bool {
    |a: u64| a == id
}

/// The property of being listed in `ids`.
pub open spec fn listed(ids: Seq<u64>) -> spec_fn(u64) -> bool {
    |a: u64| ids.contains(a)
}

/// Stake of the authority `id`; zero for a stranger.
pub open spec fn stake_of(members: Seq<Authority>, id: u64) -> int {
    weight(members, same_id(id))
}

/// The leader of a round: the members take turns in order of identifier.
pub open spec fn leader_of(members: Seq<Authority>, round: nat) -> u64 {
    members[(round % members.len()) as int].id
}

pub proof fn lemma_weight_bounds(members: Seq<Authority>, holds: spec_fn(u64) -> bool, n: int)
    requires
        0 <= n <= members.len(),
    ensures
        0 <= weight_upto(members, holds, n) <= stake_upto(members, n),
        stake_upto(members, n) <= total_stake(members),
    decreases members.len() - n,
{
    lemma_stake_upto_monotone(members, n, members.len() as int);
    lemma_weight_upto_bounds(members, holds, n);
}

proof fn lemma_weight_upto_bounds(members: Seq<Authority>, holds: spec_fn(u64) -> bool, n: int)
    requires
        0 <= n <= members.len(),
    ensures
        0 <= weight_upto(members, holds, n) <= stake_upto(members, n),
    decreases n,
{
    if n > 0 {
        lemma_weight_upto_bounds(members, holds, n - 1);
    }
}

proof fn lemma_stake_upto_monotone(members: Seq<Authority>, a: int, b: int)
    requires
        0 <= a <= b <= members.len(),
    ensures
        0 <= stake_upto(members, a) <= stake_upto(members, b),
    decreases b,
{
    if a < b {
        lemma_stake_upto_monotone(members, a, b - 1);
    } else if a > 0 {
        lemma_stake_upto_monotone(members, a - 1, a - 1);
        lemma_stake_upto_monotone(members, 0, a - 1);
    }
}

/// Weight splits along any second property: those that have it and those
/// that do not.
pub proof fn lemma_weight_split(
    members: Seq<Authority>,
    p: spec_fn(u64) -> bool,
    q: spec_fn(u64) -> bool,
    n: int,
)
    requires
        0 <= n <= members.len(),
    ensures
        weight_upto(members, p, n) == weight_upto(members, |a: u64| p(a) && q(a), n) + weight_upto(
            members,
            |a: u64| p(a) && !q(a),
            n,
        ),
    decreases n,
{
    if n > 0 {
        lemma_weight_split(members, p, q, n - 1);
    }
}

/// A property that implies another, member by member, weighs no more.
pub proof fn lemma_weight_monotone(
    members: Seq<Authority>,
    p: spec_fn(u64) -> bool,
    q: spec_fn(u64) -> bool,
    n: int,
)
    requires
        0 <= n <= members.len(),
        forall|i: int| 0 <= i < n && p(#[trigger] members[i].id) ==> q(members[i].id),
    ensures
        weight_upto(members, p, n) <= weight_upto(members, q, n),
    decreases n,
{
    if n > 0 {
        lemma_weight_monotone(members, p, q, n - 1);
    }
}

/// Two properties that agree on every member weigh the same.
pub proof fn lemma_weight_equal(
    members: Seq<Authority>,
    p: spec_fn(u64) -> bool,
    q: spec_fn(u64) -> bool,
    n: int,
)
    requires
        0 <= n <= members.len(),
        forall|i: int| 0 <= i < n ==> p(#[trigger] members[i].id) == q(members[i].id),
    ensures
        weight_upto(members, p, n) == weight_upto(members, q, n),
    decreases n,
{
    if n > 0 {
        lemma_weight_equal(members, p, q, n - 1);
    }
}

/// Two properties that no member has both weigh together no more than the
/// whole committee.
pub proof fn lemma_weight_disjoint(
    members: Seq<Authority>,
    p: spec_fn(u64) -> bool,
    q: spec_fn(u64) -> bool,
    n: int,
)
    requires
        0 <= n <= members.len(),
        forall|i: int| 0 <= i < n ==> !(p(#[trigger] members[i].id) && q(members[i].id)),
    ensures
        weight_upto(members, p, n) + weight_upto(members, q, n) <= stake_upto(members, n),
    decreases n,
{
    if n > 0 {
        lemma_weight_disjoint(members, p, q, n - 1);
    }
}

/// How the two thresholds relate to the total stake.
pub proof fn lemma_thresholds(members: Seq<Authority>)
    requires
        valid_committee(members),
    ensures
        1 <= validity_threshold(members) <= quorum_threshold(members) <= total_stake(members),
        quorum_threshold(members) + validity_threshold(members) > total_stake(members),
        2 * quorum_threshold(members) - total_stake(members) >= validity_threshold(members),
        3 * quorum_threshold(members) > 2 * total_stake(members),
{
    lemma_stake_upto_monotone(members, 1, members.len() as int);
    assert(stake_upto(members, 1) == stake_upto(members, 0) + members[0].stake);
    assert(stake_upto(members, 0) == 0);
}

/// Quorum intersection: a property that holds of a quorum of stake and one
/// that holds of a validity threshold of stake meet in some member.
pub proof fn lemma_quorum_meets_validity(
    members: Seq<Authority>,
    p: spec_fn(u64) -> bool,
    q: spec_fn(u64) -> bool,
) -> (i: int)
    requires
        valid_committee(members),
        weight(members, p) >= quorum_threshold(members),
        weight(members, q) >= validity_threshold(members),
    ensures
        0 <= i < members.len(),
        p(members[i].id),
        q(members[i].id),
{
    lemma_thresholds(members);
    if forall|i: int| 0 <= i < members.len() ==> !(p(#[trigger] members[i].id) && q(members[i].id)) {
        lemma_weight_disjoint(members, p, q, members.len() as int);
    }
    choose|i: int| 0 <= i < members.len() && p(#[trigger] members[i].id) && q(members[i].id)
}

/// The committee of one epoch.
pub struct Committee {
    members: Vec<Authority>,
    total: u64,
}

impl View for Committee {
    type V = Seq<Authority>;

    closed spec fn view(&self) -> Seq<Authority> {
        self.members@
    }
}

impl Committee {
    pub closed spec fn cached_total(&self) -> int {
        self.total as int
    }

    pub open spec fn wf(&self) -> bool {
        &&& valid_committee(self@)
        &&& self.cached_total() == total_stake(self@)
    }

    /// Builds a committee from its members. They must come in strictly
    /// ascending order of identifier, each with positive stake, and their
    /// total stake must fit a `u64`; otherwise there is no committee.
    pub fn new(members: Vec<Authority>) -> (r: Option<Committee>)
        ensures
            r.is_some() == valid_committee(members@),
            r matches Some(c) ==> c.wf() && c@ == members@,
    {
        let n: usize = members.len();
        if n == 0 {
            return None;
        }
        let mut total: u64 = 0;
        let mut i: usize = 0;
        while i < n
            invariant
                n == members.len(),
                0 <= i <= n,
                total == stake_upto(members@, i as int),
                forall|a: int, b: int| 0 <= a < b < i ==> members[a].id < members[b].id,
                forall|a: int| 0 <= a < i ==> members[a].stake > 0,
            decreases n - i,
        {
            let m: Authority = members[i];
            if m.stake == 0 {
                return None;
            }
            if i > 0 && members[i - 1].id >= m.id {
                return None;
            }
            if m.stake > u64::MAX - total {
                proof {
                    lemma_stake_upto_monotone(members@, i + 1, n as int);
                }
                return None;
            }
            total = total + m.stake;
            i = i + 1;
        }
        Some(Committee { members, total })
    }

    /// Number of authorities.
    pub fn size(&self) -> (r: usize)
        requires
            self.wf(),
        ensures
            r == self@.len(),
            r > 0,
    {
        self.members.len()
    }

    /// The member at position `i` in order of identifier.
    pub fn member(&self, i: usize) -> (r: Authority)
        requires
            self.wf(),
            i < self@.len(),
        ensures
            r == self@[i as int],
    {
        self.members[i]
    }

    /// Combined stake of all authorities.
    pub fn total_stake(&self) -> (r: u64)
        requires
            self.wf(),
        ensures
            r == total_stake(self@),
    {
        self.total
    }

    /// Stake that a quorum must reach: more than two thirds of the total.
    pub fn quorum_threshold(&self) -> (r: u64)
        requires
            self.wf(),
        ensures
            r == quorum_threshold(self@),
    {
        proof {
            lemma_thresholds(self@);
        }
        let t: u128 = self.total as u128;
        ((2 * t) / 3 + 1) as u64
    }

    /// Stake that is sure to include an honest authority: a third of the
    /// total, rounded up.
    pub fn validity_threshold(&self) -> (r: u64)
        requires
            self.wf(),
        ensures
            r == validity_threshold(self@),
    {
        let t: u128 = self.total as u128;
        ((t + 2) / 3) as u64
    }

    /// Position of the authority `id` in the committee, if it is a member.
    pub fn index_of(&self, id: u64) -> (r: Option<usize>)
        requires
            self.wf(),
        ensures
            r.is_some() == is_member(self@, id),
            r matches Some(i) ==> i < self@.len() && self@[i as int].id == id,
    {
        let n: usize = self.members.len();
        let mut i: usize = 0;
        while i < n
            invariant
                n == self.members.len(),
                0 <= i <= n,
                forall|k: int| 0 <= k < i ==> self.members[k].id != id,
            decreases n - i,
        {
            if self.members[i].id == id {
                return Some(i);
            }
            i = i + 1;
        }
        None
    }

    /// Whether `id` is an authority of this committee.
    pub fn contains(&self, id: u64) -> (r: bool)
        requires
            self.wf(),
        ensures
            r == is_member(self@, id),
    {
        self.index_of(id).is_some()
    }

    /// Stake of the authority `id`; zero for a stranger.
    pub fn stake(&self, id: u64) -> (r: u64)
        requires
            self.wf(),
        ensures
            r == stake_of(self@, id),
    {
        match self.index_of(id) {
            Some(i) => {
                proof {
                    lemma_stake_of_member(self@, i as int);
                }
                self.members[i].stake
            },
            None => {
                proof {
                    lemma_stake_of_stranger(self@, id);
                }
                0
            },
        }
    }

    /// Combined stake of the members that `ids` lists, each counted once.
    pub fn listed_weight(&self, ids: &Vec<u64>) -> (r: u64)
        requires
            self.wf(),
        ensures
            r == weight(self@, listed(ids@)),
    {
        let n: usize = self.members.len();
        let mut acc: u64 = 0;
        let mut i: usize = 0;
        while i < n
            invariant
                self.wf(),
                n == self.members.len(),
                0 <= i <= n,
                acc == weight_upto(self@, listed(ids@), i as int),
            decreases n - i,
        {
            proof {
                lemma_weight_bounds(self@, listed(ids@), i + 1);
            }
            if has_id(ids, self.members[i].id) {
                acc = acc + self.members[i].stake;
            }
            i = i + 1;
        }
        acc
    }

    /// The authority whose turn it is to lead `round`.
    pub fn leader(&self, round: u64) -> (r: u64)
        requires
            self.wf(),
        ensures
            r == leader_of(self@, round as nat),
            is_member(self@, r),
    {
        let n: u64 = self.members.len() as u64;
        let k: usize = (round % n) as usize;
        self.members[k].id
    }

    /// An independent copy of this committee.
    pub fn duplicate(&self) -> (r: Committee)
        requires
            self.wf(),
        ensures
            r.wf(),
            r@ == self@,
    {
        let n: usize = self.members.len();
        let mut members: Vec<Authority> = Vec::new();
        let mut i: usize = 0;
        while i < n
            invariant
                n == self.members.len(),
                0 <= i <= n,
                members@ == self.members@.subrange(0, i as int),
            decreases n - i,
        {
            members.push(self.members[i]);
            assert(members@ == self.members@.subrange(0, i + 1));
            i = i + 1;
        }
        assert(members@ == self.members@);
        Committee { members, total: self.total }
    }
}

/// A member's stake is the stake listed at its position.
pub proof fn lemma_stake_of_member(members: Seq<Authority>, i: int)
    requires
        valid_committee(members),
        0 <= i < members.len(),
    ensures
        stake_of(members, members[i].id) == members[i].stake,
{
    let id = members[i].id;
    lemma_weight_single(members, id, i, members.len() as int);
}

proof fn lemma_weight_single(members: Seq<Authority>, id: u64, i: int, n: int)
    requires
        valid_committee(members),
        0 <= i < members.len(),
        0 <= n <= members.len(),
        members[i].id == id,
    ensures
        weight_upto(members, same_id(id), n) == if i < n {
            members[i].stake as int
        } else {
            0
        },
    decreases n,
{
    if n > 0 {
        lemma_weight_single(members, id, i, n - 1);
    }
}

/// Who is not a member has no stake.
pub proof fn lemma_stake_of_stranger(members: Seq<Authority>, id: u64)
    requires
        !is_member(members, id),
    ensures
        stake_of(members, id) == 0,
{
    lemma_weight_none(members, same_id(id), members.len() as int);
}

/// A property that no member has weighs nothing.
pub proof fn lemma_weight_none(members: Seq<Authority>, p: spec_fn(u64) -> bool, n: int)
    requires
        0 <= n <= members.len(),
        forall|i: int| 0 <= i < n ==> !p(#[trigger] members[i].id),
    ensures
        weight_upto(members, p, n) == 0,
    decreases n,
{
    if n > 0 {
        lemma_weight_none(members, p, n - 1);
    }
}

} // verus!
