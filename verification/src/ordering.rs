//! The leader rule that turns the DAG into one sequence, as mathematics: how
//! the leader of a round is decided, and why two authorities that see
//! different parts of the same DAG never decide a round differently.

use vstd::prelude::*;
use crate::committee::{
    Authority, leader_of, lemma_thresholds, lemma_weight_disjoint, lemma_weight_equal,
    lemma_weight_monotone, lemma_weight_none, lemma_weight_split, quorum_threshold, total_stake,
    valid_committee, validity_threshold, weight,
};
use crate::dag::{
    Verdict, cites, digest_used, from_round, grounded, history_ok, keep_from, slot_of, verdict,
};
use crate::types::CertificateView;

verus! {

/// Whether the certificate of `a` for `round` names the certificate of `b`
/// for the round before among its parents.
pub open spec fn link(dag: Map<(nat, u64), CertificateView>, round: nat, a: u64, b: u64) -> bool {
    dag.contains_key((round, a)) && cites(dag, round, dag[(round, a)].header.parents)(b)
}

/// Whether parent links lead from the certificate of `from` for round `top`
/// down to the certificate of `b` for `round`.
pub open spec fn reaches(
    dag: Map<(nat, u64), CertificateView>,
    top: nat,
    from: u64,
    round: nat,
    b: u64,
) -> bool
    decreases top - round,
{
    if round > top {
        false
    } else if round == top {
        b == from && dag.contains_key((top, from))
    } else {
        let above = round + 1;
        exists|a: u64| reaches(dag, top, from, above as nat, a) && #[trigger] link(dag, above as nat, a, b)
    }
}

/// The authors whose certificate for `round` is reached from the certificate
/// of `from` for round `top`.
pub open spec fn layer(dag: Map<(nat, u64), CertificateView>, top: nat, from: u64, round: nat)
    -> spec_fn(u64) -> bool {
    |b: u64| reaches(dag, top, from, round, b)
}

/// Whether the certificate of `a` two rounds above `round` descends from the
/// certificate of the leader of `round`.
pub open spec fn backs(
    members: Seq<Authority>,
    dag: Map<(nat, u64), CertificateView>,
    round: nat,
    a: u64,
) -> bool {
    exists|b: u64| #[trigger]
        link(dag, round + 2, a, b) && link(dag, round + 1, b, leader_of(members, round))
}

/// The authors whose certificate two rounds above `round` descends from the
/// leader of `round`.
pub open spec fn backers(members: Seq<Authority>, dag: Map<(nat, u64), CertificateView>, round: nat)
    -> spec_fn(u64) -> bool {
    |a: u64| backs(members, dag, round, a)
}

/// The authors whose certificate two rounds above `round` does not descend
/// from the leader of `round`.
pub open spec fn shunners(
    members: Seq<Authority>,
    dag: Map<(nat, u64), CertificateView>,
    round: nat,
) -> spec_fn(u64) -> bool {
    |a: u64| dag.contains_key((round + 2, a)) && !backs(members, dag, round, a)
}

/// The authors whose certificate two rounds above `round` both is reached
/// from the leader of the later round `anchor` and descends from the leader
/// of `round`.
pub open spec fn vouchers(
    members: Seq<Authority>,
    dag: Map<(nat, u64), CertificateView>,
    round: nat,
    anchor: nat,
) -> spec_fn(u64) -> bool {
    |a: u64|
        reaches(dag, anchor, leader_of(members, anchor), round + 2, a) && backs(
            members,
            dag,
            round,
            a,
        )
}

/// What is decided of the leader of a round.
#[derive(Clone, Copy, PartialEq, Eq, Structural, Debug)]
pub enum Decision {
    /// The leader's certificate is committed, with its causal history.
    Commit,
    /// The round is passed over.
    Skip,
    /// What is held does not decide the round yet.
    Undecided,
}

/// The decision on the leader of `round`, from a DAG whose rounds go up to
/// `top`.
///
/// The leader is committed once a quorum of stake two rounds above descends
/// from it, and passed over once a quorum of stake two rounds above does not.
/// Where neither holds, the next leader at least three rounds above that is
/// not itself passed over settles it, once it is committed: the leader is
/// committed if a validity threshold of stake among what that later leader
/// reaches two rounds above `round` descends from it, and passed over if not.
pub open spec fn status(
    members: Seq<Authority>,
    dag: Map<(nat, u64), CertificateView>,
    top: nat,
    round: nat,
) -> Decision
    decreases 2 * (top - round) + 1,
{
    if weight(members, backers(members, dag, round)) >= quorum_threshold(members) {
        Decision::Commit
    } else if weight(members, shunners(members, dag, round)) >= quorum_threshold(members) {
        Decision::Skip
    } else if round + 3 > top {
        Decision::Undecided
    } else {
        match anchor_from(members, dag, top, round + 3) {
            None => Decision::Undecided,
            Some(anchor) => if weight(members, vouchers(members, dag, round, anchor))
                >= validity_threshold(members) {
                Decision::Commit
            } else {
                Decision::Skip
            },
        }
    }
}

/// The first round from `from` on whose leader is not passed over, if that
/// leader is committed.
pub open spec fn anchor_from(
    members: Seq<Authority>,
    dag: Map<(nat, u64), CertificateView>,
    top: nat,
    from: nat,
) -> Option<nat>
    decreases 2 * (top - from) + 2,
{
    if from > top {
        None
    } else {
        match status(members, dag, top, from) {
            Decision::Commit => Some(from),
            Decision::Undecided => None,
            Decision::Skip => anchor_from(members, dag, top, from + 1),
        }
    }
}

/// Two DAGs are compatible when they hold the same header wherever both hold
/// a certificate of one author and round, and a digest names the same
/// certificate in both: they are two views of one DAG.
pub open spec fn compatible(
    d1: Map<(nat, u64), CertificateView>,
    d2: Map<(nat, u64), CertificateView>,
) -> bool {
    &&& forall|k: (nat, u64)|
        #![trigger d1.contains_key(k), d2.contains_key(k)]
        d1.contains_key(k) && d2.contains_key(k) ==> d1[k].header == d2[k].header
    &&& forall|r: nat, a: u64, b: u64|
        #![trigger d1.contains_key((r, a)), d2.contains_key((r, b))]
        d1.contains_key((r, a)) && d2.contains_key((r, b)) && d1[(r, a)].header.digest == d2[(
            r,
            b,
        )].header.digest ==> a == b
}

pub proof fn lemma_compatible_symmetric(
    d1: Map<(nat, u64), CertificateView>,
    d2: Map<(nat, u64), CertificateView>,
)
    requires
        compatible(d1, d2),
    ensures
        compatible(d2, d1),
{
    assert forall|k: (nat, u64)|
        #![trigger d2.contains_key(k), d1.contains_key(k)]
        d2.contains_key(k) && d1.contains_key(k) implies d2[k].header == d1[k].header by {
        assert(d1.contains_key(k) && d2.contains_key(k));
    }
    assert forall|r: nat, a: u64, b: u64|
        #![trigger d2.contains_key((r, a)), d1.contains_key((r, b))]
        d2.contains_key((r, a)) && d1.contains_key((r, b)) && d2[(r, a)].header.digest == d1[(
            r,
            b,
        )].header.digest implies a == b by {
        assert(d1.contains_key((r, b)) && d2.contains_key((r, a)));
    }
}

/// A parent link that one view holds is held by any compatible view that
/// holds the child in a round that certificates are still admitted to.
pub proof fn lemma_link_transfers(
    members: Seq<Authority>,
    d1: Map<(nat, u64), CertificateView>,
    d2: Map<(nat, u64), CertificateView>,
    f2: nat,
    r: nat,
    a: u64,
    b: u64,
)
    requires
        history_ok(members, d2, f2),
        compatible(d1, d2),
        link(d1, r, a, b),
        d2.contains_key((r, a)),
        r > f2,
    ensures
        link(d2, r, a, b),
        d2.contains_key(((r - 1) as nat, b)),
{
    let below = (r - 1) as nat;
    let parents = d1[(r, a)].header.parents;
    assert(d1.contains_key((r, a)) && d2.contains_key((r, a)));
    assert(d2[(r, a)].header.parents == parents);
    let dg = d1[(below, b)].header.digest;
    assert(parents.contains(dg));
    let j = choose|j: int| 0 <= j < parents.len() && parents[j] == dg;
    assert(grounded(members, d2, r, d2[(r, a)].header.parents));
    assert(digest_used(d2, below, parents[j]));
    let b2 = choose|b2: u64| #[trigger]
        d2.contains_key((below, b2)) && d2[(below, b2)].header.digest == dg;
    assert(d1.contains_key((below, b)) && d2.contains_key((below, b2)));
    assert(b == b2);
}

/// What is reached lies in the DAG, and so does where the path starts.
pub proof fn lemma_reaches_held(
    dag: Map<(nat, u64), CertificateView>,
    top: nat,
    from: u64,
    round: nat,
    b: u64,
)
    requires
        reaches(dag, top, from, round, b),
    ensures
        round <= top,
        dag.contains_key((round, b)),
        dag.contains_key((top, from)),
    decreases top - round,
{
    if round < top {
        let above = (round + 1) as nat;
        let a = choose|a: u64| reaches(dag, top, from, above, a) && #[trigger] link(dag, above, a, b);
        lemma_reaches_held(dag, top, from, above, a);
    }
}

/// A path that one view holds is held by any compatible view that holds its
/// start and retains the rounds that it runs through.
pub proof fn lemma_reaches_transfers(
    members: Seq<Authority>,
    d1: Map<(nat, u64), CertificateView>,
    d2: Map<(nat, u64), CertificateView>,
    f2: nat,
    top: nat,
    from: u64,
    round: nat,
    b: u64,
)
    requires
        history_ok(members, d2, f2),
        compatible(d1, d2),
        reaches(d1, top, from, round, b),
        d2.contains_key((top, from)),
        round >= f2,
    ensures
        reaches(d2, top, from, round, b),
    decreases top - round,
{
    if round < top {
        let above = (round + 1) as nat;
        let a = choose|a: u64| reaches(d1, top, from, above, a) && #[trigger] link(d1, above, a, b);
        lemma_reaches_transfers(members, d1, d2, f2, top, from, above, a);
        lemma_reaches_held(d2, top, from, above, a);
        lemma_link_transfers(members, d1, d2, f2, above, a, b);
    }
}

/// Descent from a leader that one view holds is held by any compatible view
/// that holds the descendant and retains the leader's round.
pub proof fn lemma_backs_transfers(
    members: Seq<Authority>,
    d1: Map<(nat, u64), CertificateView>,
    d2: Map<(nat, u64), CertificateView>,
    f2: nat,
    round: nat,
    a: u64,
)
    requires
        history_ok(members, d2, f2),
        compatible(d1, d2),
        backs(members, d1, round, a),
        d2.contains_key((round + 2, a)),
        round >= f2,
    ensures
        backs(members, d2, round, a),
{
    let b = choose|b: u64| #[trigger]
        link(d1, round + 2, a, b) && link(d1, round + 1, b, leader_of(members, round));
    lemma_link_transfers(members, d1, d2, f2, round + 2, a, b);
    lemma_link_transfers(members, d1, d2, f2, round + 1, b, leader_of(members, round));
}

/// A property of positive weight holds of some member.
pub proof fn lemma_weight_witness(members: Seq<Authority>, p: spec_fn(u64) -> bool) -> (i: int)
    requires
        weight(members, p) > 0,
    ensures
        0 <= i < members.len(),
        p(members[i].id),
{
    if forall|i: int| 0 <= i < members.len() ==> !p(#[trigger] members[i].id) {
        lemma_weight_none(members, p, members.len() as int);
    }
    choose|i: int| 0 <= i < members.len() && p(#[trigger] members[i].id)
}

/// What a certificate reaches in any round below it that certificates are
/// still admitted to covers a quorum of stake.
pub proof fn lemma_layer_weight(
    members: Seq<Authority>,
    dag: Map<(nat, u64), CertificateView>,
    floor: nat,
    top: nat,
    from: u64,
    round: nat,
)
    requires
        valid_committee(members),
        history_ok(members, dag, floor),
        dag.contains_key((top, from)),
        floor <= round < top,
    ensures
        weight(members, layer(dag, top, from, round)) >= quorum_threshold(members),
    decreases top - round,
{
    let above = (round + 1) as nat;
    lemma_thresholds(members);
    let a = if above == top {
        from
    } else {
        lemma_layer_weight(members, dag, floor, top, from, above);
        let i = lemma_weight_witness(members, layer(dag, top, from, above));
        members[i].id
    };
    assert(reaches(dag, top, from, above, a));
    lemma_reaches_held(dag, top, from, above, a);
    let parents = dag[(above, a)].header.parents;
    assert(grounded(members, dag, above, parents));
    assert forall|i: int|
        0 <= i < members.len() && cites(dag, above, parents)(
            #[trigger] members[i].id,
        ) implies layer(dag, top, from, round)(members[i].id) by {
        assert(link(dag, above, a, members[i].id));
    }
    lemma_weight_monotone(
        members,
        cites(dag, above, parents),
        layer(dag, top, from, round),
        members.len() as int,
    );
}

/// A committed leader's certificate is held.
pub proof fn lemma_commit_holds_leader(
    members: Seq<Authority>,
    dag: Map<(nat, u64), CertificateView>,
    top: nat,
    round: nat,
)
    requires
        valid_committee(members),
        status(members, dag, top, round) == Decision::Commit,
    ensures
        dag.contains_key((round, leader_of(members, round))),
{
    lemma_thresholds(members);
    let i = if weight(members, backers(members, dag, round)) >= quorum_threshold(members) {
        lemma_weight_witness(members, backers(members, dag, round))
    } else {
        let anchor = anchor_from(members, dag, top, round + 3).unwrap();
        lemma_weight_witness(members, vouchers(members, dag, round, anchor))
    };
    let a = members[i].id;
    assert(backs(members, dag, round, a));
    let b = choose|b: u64| #[trigger]
        link(dag, round + 2, a, b) && link(dag, round + 1, b, leader_of(members, round));
    assert(link(dag, round + 1, b, leader_of(members, round)));
}

/// The anchor found from `from` on is a committed leader, and every leader
/// between `from` and it is passed over.
pub proof fn lemma_anchor(
    members: Seq<Authority>,
    dag: Map<(nat, u64), CertificateView>,
    top: nat,
    from: nat,
)
    requires
        anchor_from(members, dag, top, from).is_some(),
    ensures
        from <= anchor_from(members, dag, top, from).unwrap() <= top,
        status(members, dag, top, anchor_from(members, dag, top, from).unwrap())
            == Decision::Commit,
        forall|y: nat|
            from <= y < anchor_from(members, dag, top, from).unwrap() ==> #[trigger] status(
                members,
                dag,
                top,
                y,
            ) == Decision::Skip,
    decreases top + 1 - from,
{
    if from > top {
        assert(anchor_from(members, dag, top, from) is None);
    } else if status(members, dag, top, from) == Decision::Skip {
        lemma_anchor(members, dag, top, from + 1);
    }
}

/// The authors of whom one view says that they descend from the leader and
/// the authors of whom a compatible view says that they do not are apart.
proof fn lemma_backers_apart(
    members: Seq<Authority>,
    d1: Map<(nat, u64), CertificateView>,
    d2: Map<(nat, u64), CertificateView>,
    f2: nat,
    round: nat,
)
    requires
        valid_committee(members),
        history_ok(members, d2, f2),
        compatible(d1, d2),
        round >= f2,
    ensures
        weight(members, backers(members, d1, round)) + weight(
            members,
            shunners(members, d2, round),
        ) <= total_stake(members),
{
    let p = backers(members, d1, round);
    let q = shunners(members, d2, round);
    assert forall|i: int| 0 <= i < members.len() implies !(p(#[trigger] members[i].id) && q(
        members[i].id,
    )) by {
        let a = members[i].id;
        if p(a) && q(a) {
            lemma_backs_transfers(members, d1, d2, f2, round, a);
        }
    }
    lemma_weight_disjoint(members, p, q, members.len() as int);
}

/// Where one view decides a round by what it holds two rounds above, no
/// compatible view decides it otherwise.
proof fn lemma_direct_decision_stands(
    members: Seq<Authority>,
    d1: Map<(nat, u64), CertificateView>,
    f1: nat,
    top1: nat,
    d2: Map<(nat, u64), CertificateView>,
    f2: nat,
    top2: nat,
    round: nat,
)
    requires
        valid_committee(members),
        history_ok(members, d1, f1),
        history_ok(members, d2, f2),
        compatible(d1, d2),
        f1 <= round,
        f2 <= round,
        weight(members, backers(members, d1, round)) >= quorum_threshold(members) || weight(
            members,
            shunners(members, d1, round),
        ) >= quorum_threshold(members),
        status(members, d2, top2, round) != Decision::Undecided,
    ensures
        status(members, d1, top1, round) == status(members, d2, top2, round),
{
    lemma_thresholds(members);
    lemma_compatible_symmetric(d1, d2);
    lemma_backers_apart(members, d1, d2, f2, round);
    lemma_backers_apart(members, d2, d1, f1, round);
    let quorum = quorum_threshold(members);
    let pro1 = weight(members, backers(members, d1, round));
    let con1 = weight(members, shunners(members, d1, round));
    let pro2 = weight(members, backers(members, d2, round));
    let con2 = weight(members, shunners(members, d2, round));
    if pro2 < quorum && con2 < quorum {
        let anchor = anchor_from(members, d2, top2, round + 3).unwrap();
        lemma_anchor(members, d2, top2, round + 3);
        lemma_commit_holds_leader(members, d2, top2, anchor);
        let lead = leader_of(members, anchor);
        let reached = layer(d2, anchor, lead, round + 2);
        let back2 = backers(members, d2, round);
        let vouch = vouchers(members, d2, round, anchor);
        let both = |a: u64| reached(a) && back2(a);
        let rest = |a: u64| reached(a) && !back2(a);
        lemma_layer_weight(members, d2, f2, anchor, lead, round + 2);
        lemma_weight_split(members, reached, back2, members.len() as int);
        assert forall|i: int| 0 <= i < members.len() implies both(#[trigger] members[i].id)
            == vouch(members[i].id) by {}
        lemma_weight_equal(members, both, vouch, members.len() as int);
        if pro1 >= quorum {
            let back1 = backers(members, d1, round);
            assert forall|i: int| 0 <= i < members.len() implies !(back1(
                #[trigger] members[i].id,
            ) && rest(members[i].id)) by {
                let a = members[i].id;
                if back1(a) && rest(a) {
                    lemma_reaches_held(d2, anchor, lead, round + 2, a);
                    lemma_backs_transfers(members, d1, d2, f2, round, a);
                }
            }
            lemma_weight_disjoint(members, back1, rest, members.len() as int);
        } else {
            let shun1 = shunners(members, d1, round);
            assert forall|i: int| 0 <= i < members.len() implies !(vouch(
                #[trigger] members[i].id,
            ) && shun1(members[i].id)) by {
                let a = members[i].id;
                if vouch(a) && shun1(a) {
                    lemma_backs_transfers(members, d2, d1, f1, round, a);
                }
            }
            lemma_weight_disjoint(members, vouch, shun1, members.len() as int);
        }
    }
}

/// Two compatible views that both decide a round decide it alike.
pub proof fn lemma_decisions_agree(
    members: Seq<Authority>,
    d1: Map<(nat, u64), CertificateView>,
    f1: nat,
    top1: nat,
    d2: Map<(nat, u64), CertificateView>,
    f2: nat,
    top2: nat,
    round: nat,
)
    requires
        valid_committee(members),
        history_ok(members, d1, f1),
        history_ok(members, d2, f2),
        compatible(d1, d2),
        f1 <= round,
        f2 <= round,
        status(members, d1, top1, round) != Decision::Undecided,
        status(members, d2, top2, round) != Decision::Undecided,
    ensures
        status(members, d1, top1, round) == status(members, d2, top2, round),
    decreases top1 + top2 - round,
{
    lemma_compatible_symmetric(d1, d2);
    let quorum = quorum_threshold(members);
    if weight(members, backers(members, d1, round)) >= quorum || weight(
        members,
        shunners(members, d1, round),
    ) >= quorum {
        lemma_direct_decision_stands(members, d1, f1, top1, d2, f2, top2, round);
    } else if weight(members, backers(members, d2, round)) >= quorum || weight(
        members,
        shunners(members, d2, round),
    ) >= quorum {
        lemma_direct_decision_stands(members, d2, f2, top2, d1, f1, top1, round);
    } else {
        let a1 = anchor_from(members, d1, top1, round + 3).unwrap();
        let a2 = anchor_from(members, d2, top2, round + 3).unwrap();
        lemma_anchor(members, d1, top1, round + 3);
        lemma_anchor(members, d2, top2, round + 3);
        if a1 < a2 {
            assert(status(members, d2, top2, a1) == Decision::Skip);
            lemma_decisions_agree(members, d1, f1, top1, d2, f2, top2, a1);
        } else if a2 < a1 {
            assert(status(members, d1, top1, a2) == Decision::Skip);
            lemma_decisions_agree(members, d1, f1, top1, d2, f2, top2, a2);
        } else {
            lemma_commit_holds_leader(members, d1, top1, a1);
            lemma_commit_holds_leader(members, d2, top2, a1);
            lemma_vouchers_agree(members, d1, f1, d2, f2, round, a1);
        }
    }
}

/// Two compatible views that hold a later leader's certificate see the same
/// of its descent through the round two above `round`.
pub proof fn lemma_vouchers_agree(
    members: Seq<Authority>,
    d1: Map<(nat, u64), CertificateView>,
    f1: nat,
    d2: Map<(nat, u64), CertificateView>,
    f2: nat,
    round: nat,
    anchor: nat,
)
    requires
        valid_committee(members),
        history_ok(members, d1, f1),
        history_ok(members, d2, f2),
        compatible(d1, d2),
        f1 <= round,
        f2 <= round,
        d1.contains_key((anchor, leader_of(members, anchor))),
        d2.contains_key((anchor, leader_of(members, anchor))),
    ensures
        weight(members, vouchers(members, d1, round, anchor)) == weight(
            members,
            vouchers(members, d2, round, anchor),
        ),
{
    lemma_compatible_symmetric(d1, d2);
    let lead = leader_of(members, anchor);
    let v1 = vouchers(members, d1, round, anchor);
    let v2 = vouchers(members, d2, round, anchor);
    assert forall|i: int| 0 <= i < members.len() implies v1(#[trigger] members[i].id) == v2(
        members[i].id,
    ) by {
        let a = members[i].id;
        if v1(a) {
            lemma_reaches_transfers(members, d1, d2, f2, anchor, lead, round + 2, a);
            lemma_reaches_held(d2, anchor, lead, round + 2, a);
            lemma_backs_transfers(members, d1, d2, f2, round, a);
        }
        if v2(a) {
            lemma_reaches_transfers(members, d2, d1, f1, anchor, lead, round + 2, a);
            lemma_reaches_held(d1, anchor, lead, round + 2, a);
            lemma_backs_transfers(members, d2, d1, f1, round, a);
        }
    }
    lemma_weight_equal(members, v1, v2, members.len() as int);
}

/// How far the ordering has come: the next round to decide, the lowest
/// round whose certificates may still be committed, and the slots from that
/// round on that are committed already.
pub struct Progress {
    pub next: nat,
    pub floor: nat,
    pub done: Set<(nat, u64)>,
}

/// Where the ordering starts: at round one, with nothing committed.
pub open spec fn start() -> Progress {
    Progress { next: 1, floor: 0, done: Set::empty() }
}

/// The lowest round that certificates are still admitted to, and may still
/// be committed of, once the leader of `round` is committed: `depth` rounds
/// in all, the leader's round being the last.
pub open spec fn gc_floor(round: nat, depth: nat) -> nat {
    if round >= depth {
        (round - depth + 1) as nat
    } else {
        0
    }
}

/// Whether the certificate of `a` for `round` is reached from the leader of
/// round `top` and not committed yet.
pub open spec fn fresh(
    dag: Map<(nat, u64), CertificateView>,
    top: nat,
    from: u64,
    done: Set<(nat, u64)>,
    round: nat,
    a: u64,
) -> bool {
    reaches(dag, top, from, round, a) && !done.contains((round, a))
}

/// The fresh slots of `round` among the first `n` members, in the order of
/// the committee.
pub open spec fn row(
    members: Seq<Authority>,
    dag: Map<(nat, u64), CertificateView>,
    top: nat,
    from: u64,
    done: Set<(nat, u64)>,
    round: nat,
    n: int,
) -> Seq<(nat, u64)>
    decreases n,
{
    if n <= 0 {
        Seq::empty()
    } else if fresh(dag, top, from, done, round, members[n - 1].id) {
        row(members, dag, top, from, done, round, n - 1).push((round, members[n - 1].id))
    } else {
        row(members, dag, top, from, done, round, n - 1)
    }
}

/// The fresh slots of the rounds from `lo` up to but not including `hi`,
/// round by round.
pub open spec fn rows(
    members: Seq<Authority>,
    dag: Map<(nat, u64), CertificateView>,
    top: nat,
    from: u64,
    done: Set<(nat, u64)>,
    lo: nat,
    hi: nat,
) -> Seq<(nat, u64)>
    decreases hi,
{
    if hi <= lo {
        Seq::empty()
    } else {
        rows(members, dag, top, from, done, lo, (hi - 1) as nat) + row(
            members,
            dag,
            top,
            from,
            done,
            (hi - 1) as nat,
            members.len() as int,
        )
    }
}

/// The lowest round whose certificates are committed: genesis never is.
pub open spec fn first_round(floor: nat) -> nat {
    if floor >= 1 {
        floor
    } else {
        1
    }
}

/// What committing the leader of `round` commits, in order: every
/// certificate from `floor` on that the leader's certificate reaches and
/// that is not committed yet, by ascending round and, within a round, by
/// ascending author.
pub open spec fn sub_dag(
    members: Seq<Authority>,
    dag: Map<(nat, u64), CertificateView>,
    round: nat,
    done: Set<(nat, u64)>,
    floor: nat,
) -> Seq<(nat, u64)> {
    rows(members, dag, round, leader_of(members, round), done, first_round(floor), round + 1)
}

/// The committed slots from `floor` on, once `out` is committed too.
pub open spec fn mark(done: Set<(nat, u64)>, out: Seq<(nat, u64)>, floor: nat) -> Set<(nat, u64)> {
    Set::new(|k: (nat, u64)| (done.contains(k) || out.contains(k)) && k.0 >= floor)
}

pub open spec fn higher(a: nat, b: nat) -> nat {
    if a >= b {
        a
    } else {
        b
    }
}

/// The progress after the leader of `p.next` is committed.
pub open spec fn committed(
    members: Seq<Authority>,
    depth: nat,
    dag: Map<(nat, u64), CertificateView>,
    p: Progress,
) -> Progress {
    let floor = higher(p.floor, gc_floor(p.next, depth));
    Progress {
        next: p.next + 1,
        floor,
        done: mark(p.done, sub_dag(members, dag, p.next, p.done, p.floor), floor),
    }
}

/// The progress after the leader of `p.next` is passed over.
pub open spec fn skipped(p: Progress) -> Progress {
    Progress { next: p.next + 1, floor: p.floor, done: p.done }
}

/// Runs the ordering from `p` as far as the DAG decides: the progress
/// reached, and the slots committed on the way, in order.
pub open spec fn advance(
    members: Seq<Authority>,
    depth: nat,
    dag: Map<(nat, u64), CertificateView>,
    top: nat,
    p: Progress,
) -> (Progress, Seq<(nat, u64)>)
    decreases top + 1 - p.next,
{
    if p.next > top {
        (p, Seq::empty())
    } else {
        match status(members, dag, top, p.next) {
            Decision::Undecided => (p, Seq::empty()),
            Decision::Skip => advance(members, depth, dag, top, skipped(p)),
            Decision::Commit => {
                let rest = advance(members, depth, dag, top, committed(members, depth, dag, p));
                (rest.0, sub_dag(members, dag, p.next, p.done, p.floor) + rest.1)
            },
        }
    }
}

proof fn lemma_row_agrees(
    members: Seq<Authority>,
    d1: Map<(nat, u64), CertificateView>,
    f1: nat,
    d2: Map<(nat, u64), CertificateView>,
    f2: nat,
    top: nat,
    from: u64,
    done: Set<(nat, u64)>,
    round: nat,
    n: int,
)
    requires
        history_ok(members, d1, f1),
        history_ok(members, d2, f2),
        compatible(d1, d2),
        compatible(d2, d1),
        d1.contains_key((top, from)),
        d2.contains_key((top, from)),
        f1 <= round,
        f2 <= round,
        n <= members.len(),
    ensures
        row(members, d1, top, from, done, round, n) == row(members, d2, top, from, done, round, n),
    decreases n,
{
    if n > 0 {
        lemma_row_agrees(members, d1, f1, d2, f2, top, from, done, round, n - 1);
        let a = members[n - 1].id;
        if reaches(d1, top, from, round, a) {
            lemma_reaches_transfers(members, d1, d2, f2, top, from, round, a);
        }
        if reaches(d2, top, from, round, a) {
            lemma_reaches_transfers(members, d2, d1, f1, top, from, round, a);
        }
    }
}

proof fn lemma_rows_agree(
    members: Seq<Authority>,
    d1: Map<(nat, u64), CertificateView>,
    f1: nat,
    d2: Map<(nat, u64), CertificateView>,
    f2: nat,
    top: nat,
    from: u64,
    done: Set<(nat, u64)>,
    lo: nat,
    hi: nat,
)
    requires
        history_ok(members, d1, f1),
        history_ok(members, d2, f2),
        compatible(d1, d2),
        compatible(d2, d1),
        d1.contains_key((top, from)),
        d2.contains_key((top, from)),
        f1 <= lo,
        f2 <= lo,
    ensures
        rows(members, d1, top, from, done, lo, hi) == rows(members, d2, top, from, done, lo, hi),
    decreases hi,
{
    if hi > lo {
        lemma_rows_agree(members, d1, f1, d2, f2, top, from, done, lo, (hi - 1) as nat);
        lemma_row_agrees(
            members,
            d1,
            f1,
            d2,
            f2,
            top,
            from,
            done,
            (hi - 1) as nat,
            members.len() as int,
        );
    }
}

/// Two compatible views that hold a leader's certificate commit the same
/// with it, in the same order.
pub proof fn lemma_sub_dag_agrees(
    members: Seq<Authority>,
    d1: Map<(nat, u64), CertificateView>,
    f1: nat,
    d2: Map<(nat, u64), CertificateView>,
    f2: nat,
    round: nat,
    done: Set<(nat, u64)>,
    floor: nat,
)
    requires
        history_ok(members, d1, f1),
        history_ok(members, d2, f2),
        compatible(d1, d2),
        d1.contains_key((round, leader_of(members, round))),
        d2.contains_key((round, leader_of(members, round))),
        f1 <= floor,
        f2 <= floor,
    ensures
        sub_dag(members, d1, round, done, floor) == sub_dag(members, d2, round, done, floor),
{
    lemma_compatible_symmetric(d1, d2);
    lemma_rows_agree(
        members,
        d1,
        f1,
        d2,
        f2,
        round,
        leader_of(members, round),
        done,
        first_round(floor),
        round + 1,
    );
}

/// No divergent order: of two authorities that have come equally far and
/// hold compatible views of the DAG, one commits from there on a sequence
/// that the other's sequence begins with. So whatever both commit, they
/// commit in the same order.
pub proof fn lemma_orders_agree(
    members: Seq<Authority>,
    depth: nat,
    d1: Map<(nat, u64), CertificateView>,
    f1: nat,
    top1: nat,
    d2: Map<(nat, u64), CertificateView>,
    f2: nat,
    top2: nat,
    p: Progress,
)
    requires
        valid_committee(members),
        history_ok(members, d1, f1),
        history_ok(members, d2, f2),
        compatible(d1, d2),
        f1 <= p.floor,
        f2 <= p.floor,
        p.floor <= p.next,
    ensures
        advance(members, depth, d1, top1, p).1.is_prefix_of(
            advance(members, depth, d2, top2, p).1,
        ) || advance(members, depth, d2, top2, p).1.is_prefix_of(
            advance(members, depth, d1, top1, p).1,
        ),
    decreases top1 + top2 + 1 - p.next,
{
    let run1 = advance(members, depth, d1, top1, p).1;
    let run2 = advance(members, depth, d2, top2, p).1;
    let s1 = status(members, d1, top1, p.next);
    let s2 = status(members, d2, top2, p.next);
    if p.next > top1 || s1 == Decision::Undecided {
        assert(run1 =~= Seq::empty());
        assert(run1.is_prefix_of(run2));
    } else if p.next > top2 || s2 == Decision::Undecided {
        assert(run2 =~= Seq::empty());
        assert(run2.is_prefix_of(run1));
    } else {
        lemma_decisions_agree(members, d1, f1, top1, d2, f2, top2, p.next);
        if s1 == Decision::Skip {
            lemma_orders_agree(members, depth, d1, f1, top1, d2, f2, top2, skipped(p));
        } else {
            lemma_commit_holds_leader(members, d1, top1, p.next);
            lemma_commit_holds_leader(members, d2, top2, p.next);
            lemma_sub_dag_agrees(members, d1, f1, d2, f2, p.next, p.done, p.floor);
            let out = sub_dag(members, d1, p.next, p.done, p.floor);
            let q = committed(members, depth, d1, p);
            assert(q == committed(members, depth, d2, p));
            lemma_orders_agree(members, depth, d1, f1, top1, d2, f2, top2, q);
            let m1 = advance(members, depth, d1, top1, q).1;
            let m2 = advance(members, depth, d2, top2, q).1;
            assert(run1 == out + m1);
            assert(run2 == out + m2);
            if m1.is_prefix_of(m2) {
                assert((out + m1) =~= (out + m2).subrange(0, (out + m1).len() as int));
            } else {
                assert((out + m2) =~= (out + m1).subrange(0, (out + m2).len() as int));
            }
        }
    }
}

/// Whatever two such authorities both commit, they commit in the same
/// order: if one commits `x` before `y`, the other does not commit `y`
/// before `x`, provided neither commits a slot twice.
pub proof fn lemma_same_order(run1: Seq<(nat, u64)>, run2: Seq<(nat, u64)>, i: int, j: int)
    requires
        run1.is_prefix_of(run2) || run2.is_prefix_of(run1),
        0 <= i < j < run1.len(),
        run2.contains(run1[i]),
        run2.contains(run1[j]),
        run1.no_duplicates(),
        run2.no_duplicates(),
    ensures
        run2.index_of(run1[i]) < run2.index_of(run1[j]),
{
    let a = run2.index_of(run1[i]);
    let b = run2.index_of(run1[j]);
    assert(0 <= a < run2.len() && run2[a] == run1[i]);
    assert(0 <= b < run2.len() && run2[b] == run1[j]);
    if run1.is_prefix_of(run2) {
        assert(run2[i] == run1[i]);
        assert(run2[j] == run1[j]);
    } else {
        assert(run1[a] == run2[a]);
        assert(run1[b] == run2[b]);
    }
}

/// Whether `g` holds, from `round` on, every certificate that `d` holds.
pub open spec fn extends_from(
    d: Map<(nat, u64), CertificateView>,
    g: Map<(nat, u64), CertificateView>,
    round: nat,
) -> bool {
    forall|k: (nat, u64)| #[trigger] d.contains_key(k) && k.0 >= round ==> g.contains_key(k)
}

/// Nothing that the DAG holds lies above `top`.
pub open spec fn bounded(dag: Map<(nat, u64), CertificateView>, top: nat) -> bool {
    forall|k: (nat, u64)| #[trigger] dag.contains_key(k) ==> k.0 <= top
}

/// A decision stands: once what an authority holds decides a round, whatever
/// it comes to hold in addition decides the round the same way.
pub proof fn lemma_decision_stands(
    members: Seq<Authority>,
    d: Map<(nat, u64), CertificateView>,
    fd: nat,
    topd: nat,
    g: Map<(nat, u64), CertificateView>,
    fg: nat,
    topg: nat,
    round: nat,
)
    requires
        valid_committee(members),
        history_ok(members, d, fd),
        history_ok(members, g, fg),
        compatible(d, g),
        extends_from(d, g, round),
        bounded(g, topg),
        fd <= round,
        fg <= round,
        status(members, d, topd, round) != Decision::Undecided,
    ensures
        status(members, g, topg, round) == status(members, d, topd, round),
    decreases topd - round,
{
    lemma_thresholds(members);
    lemma_compatible_symmetric(d, g);
    let quorum = quorum_threshold(members);
    let n = members.len() as int;
    if weight(members, backers(members, d, round)) >= quorum {
        assert forall|i: int|
            0 <= i < n && backers(members, d, round)(#[trigger] members[i].id) implies backers(
            members,
            g,
            round,
        )(members[i].id) by {
            let a = members[i].id;
            let b = choose|b: u64| #[trigger]
                link(d, round + 2, a, b) && link(d, round + 1, b, leader_of(members, round));
            assert(d.contains_key((round + 2, a)));
            lemma_backs_transfers(members, d, g, fg, round, a);
        }
        lemma_weight_monotone(members, backers(members, d, round), backers(members, g, round), n);
    } else if weight(members, shunners(members, d, round)) >= quorum {
        assert forall|i: int|
            0 <= i < n && shunners(members, d, round)(#[trigger] members[i].id) implies shunners(
            members,
            g,
            round,
        )(members[i].id) by {
            let a = members[i].id;
            assert(d.contains_key((round + 2, a)));
            if backs(members, g, round, a) {
                lemma_backs_transfers(members, g, d, fd, round, a);
            }
        }
        lemma_weight_monotone(members, shunners(members, d, round), shunners(members, g, round), n);
        lemma_backers_apart(members, g, d, fd, round);
    } else {
        let anchor = anchor_from(members, d, topd, round + 3).unwrap();
        lemma_anchor(members, d, topd, round + 3);
        lemma_commit_holds_leader(members, d, topd, anchor);
        assert(g.contains_key((anchor, leader_of(members, anchor))));
        lemma_anchor_stands(members, d, fd, topd, g, fg, topg, round, round + 3, anchor);
    }
    lemma_decisions_agree(members, d, fd, topd, g, fg, topg, round);
}

/// The anchor stands: the later leader that settles a round for an authority
/// is the one that settles it on whatever the authority comes to hold in
/// addition.
proof fn lemma_anchor_stands(
    members: Seq<Authority>,
    d: Map<(nat, u64), CertificateView>,
    fd: nat,
    topd: nat,
    g: Map<(nat, u64), CertificateView>,
    fg: nat,
    topg: nat,
    round: nat,
    from: nat,
    anchor: nat,
)
    requires
        valid_committee(members),
        history_ok(members, d, fd),
        history_ok(members, g, fg),
        compatible(d, g),
        extends_from(d, g, round),
        bounded(g, topg),
        fd <= round,
        fg <= round,
        round < from <= anchor <= topd,
        anchor <= topg,
        status(members, d, topd, anchor) == Decision::Commit,
        forall|y: nat| from <= y < anchor ==> #[trigger] status(members, d, topd, y) == Decision::Skip,
    ensures
        anchor_from(members, g, topg, from) == Some(anchor),
    decreases topd - round, anchor - from,
{
    lemma_decision_stands(members, d, fd, topd, g, fg, topg, from);
    if from < anchor {
        assert(status(members, d, topd, from) == Decision::Skip);
        lemma_anchor_stands(members, d, fd, topd, g, fg, topg, round, from + 1, anchor);
    }
}

/// Ordering goes on where it stopped: an authority that orders on what it
/// holds commits the beginning of what it would commit on anything that
/// holds more, and continues from the progress it reached exactly as if it
/// had ordered all at once. So every authority's sequence, however its
/// certificates arrived, is the beginning of one and the same sequence.
pub proof fn lemma_advance_extends(
    members: Seq<Authority>,
    depth: nat,
    d: Map<(nat, u64), CertificateView>,
    fd: nat,
    topd: nat,
    g: Map<(nat, u64), CertificateView>,
    fg: nat,
    topg: nat,
    p: Progress,
)
    requires
        valid_committee(members),
        history_ok(members, d, fd),
        history_ok(members, g, fg),
        compatible(d, g),
        extends_from(d, g, p.floor),
        bounded(g, topg),
        fd <= p.floor,
        fg <= p.floor,
        p.floor <= p.next,
    ensures
        advance(members, depth, g, topg, p).0 == advance(
            members,
            depth,
            g,
            topg,
            advance(members, depth, d, topd, p).0,
        ).0,
        advance(members, depth, g, topg, p).1 == advance(members, depth, d, topd, p).1 + advance(
            members,
            depth,
            g,
            topg,
            advance(members, depth, d, topd, p).0,
        ).1,
        advance(members, depth, d, topd, p).1.is_prefix_of(advance(members, depth, g, topg, p).1),
    decreases topd + 1 - p.next,
{
    let here = advance(members, depth, d, topd, p);
    let there = advance(members, depth, g, topg, p);
    let onward = advance(members, depth, g, topg, here.0);
    let s = status(members, d, topd, p.next);
    if p.next > topd || s == Decision::Undecided {
        assert(here.1 + onward.1 =~= onward.1);
    } else {
        lemma_decision_stands(members, d, fd, topd, g, fg, topg, p.next);
        if p.next + 2 > topg {
            lemma_undecided_near_top(members, g, topg, p.next);
        }
        if s == Decision::Skip {
            lemma_advance_extends(members, depth, d, fd, topd, g, fg, topg, skipped(p));
        } else {
            lemma_commit_holds_leader(members, d, topd, p.next);
            lemma_sub_dag_agrees(members, d, fd, g, fg, p.next, p.done, p.floor);
            let q = committed(members, depth, d, p);
            assert(q == committed(members, depth, g, p));
            lemma_advance_extends(members, depth, d, fd, topd, g, fg, topg, q);
            let out = sub_dag(members, d, p.next, p.done, p.floor);
            let rest = advance(members, depth, d, topd, q);
            assert(out + (rest.1 + onward.1) =~= (out + rest.1) + onward.1);
        }
    }
    assert(here.1 =~= there.1.subrange(0, here.1.len() as int));
}

/// A round whose second round above lies beyond everything held is not
/// decided.
pub proof fn lemma_undecided_near_top(
    members: Seq<Authority>,
    dag: Map<(nat, u64), CertificateView>,
    top: nat,
    round: nat,
)
    requires
        valid_committee(members),
        bounded(dag, top),
        round + 2 > top,
    ensures
        status(members, dag, top, round) == Decision::Undecided,
{
    lemma_thresholds(members);
    let p = backers(members, dag, round);
    let q = shunners(members, dag, round);
    assert forall|i: int| 0 <= i < members.len() implies !p(#[trigger] members[i].id) by {
        let a = members[i].id;
        if backs(members, dag, round, a) {
            let b = choose|b: u64| #[trigger]
                link(dag, round + 2, a, b) && link(dag, round + 1, b, leader_of(members, round));
            assert(dag.contains_key((round + 2, a)));
        }
    }
    assert forall|i: int| 0 <= i < members.len() implies !q(#[trigger] members[i].id) by {
        let a = members[i].id;
        if dag.contains_key((round + 2, a)) {
        }
    }
    lemma_weight_none(members, p, members.len() as int);
    lemma_weight_none(members, q, members.len() as int);
}

/// Whether the slot `k` is due when the leader `from` of round `top` is
/// committed: held, reached from the leader, and not committed before.
pub open spec fn due(
    dag: Map<(nat, u64), CertificateView>,
    top: nat,
    from: u64,
    done: Set<(nat, u64)>,
    k: (nat, u64),
) -> bool {
    dag.contains_key(k) && !done.contains(k) && reaches(dag, top, from, k.0, k.1)
}

/// What a row lists is due, and of the row's round.
pub proof fn lemma_row_held(
    members: Seq<Authority>,
    dag: Map<(nat, u64), CertificateView>,
    top: nat,
    from: u64,
    done: Set<(nat, u64)>,
    round: nat,
    n: int,
)
    requires
        n <= members.len(),
    ensures
        forall|i: int|
            0 <= i < row(members, dag, top, from, done, round, n).len() ==> due(
                dag,
                top,
                from,
                done,
                #[trigger] row(members, dag, top, from, done, round, n)[i],
            ) && row(members, dag, top, from, done, round, n)[i].0 == round,
    decreases n,
{
    if n > 0 {
        let prev = row(members, dag, top, from, done, round, n - 1);
        let cur = row(members, dag, top, from, done, round, n);
        lemma_row_held(members, dag, top, from, done, round, n - 1);
        let a = members[n - 1].id;
        assert forall|i: int| 0 <= i < cur.len() implies due(dag, top, from, done, #[trigger] cur[i])
            && cur[i].0 == round by {
            if i < prev.len() {
                assert(cur[i] == prev[i]);
            } else {
                assert(cur[i] == (round, a));
                lemma_reaches_held(dag, top, from, round, a);
            }
        }
    }
}

/// What a run of rows lists is due, and of one of its rounds.
pub proof fn lemma_rows_held(
    members: Seq<Authority>,
    dag: Map<(nat, u64), CertificateView>,
    top: nat,
    from: u64,
    done: Set<(nat, u64)>,
    lo: nat,
    hi: nat,
)
    ensures
        forall|i: int|
            0 <= i < rows(members, dag, top, from, done, lo, hi).len() ==> due(
                dag,
                top,
                from,
                done,
                #[trigger] rows(members, dag, top, from, done, lo, hi)[i],
            ) && lo <= rows(members, dag, top, from, done, lo, hi)[i].0 < hi,
    decreases hi,
{
    if hi > lo {
        let below = (hi - 1) as nat;
        let prev = rows(members, dag, top, from, done, lo, below);
        let last = row(members, dag, top, from, done, below, members.len() as int);
        let cur = rows(members, dag, top, from, done, lo, hi);
        lemma_rows_held(members, dag, top, from, done, lo, below);
        lemma_row_held(members, dag, top, from, done, below, members.len() as int);
        assert(cur == prev + last);
        assert forall|i: int| 0 <= i < cur.len() implies due(dag, top, from, done, #[trigger] cur[i])
            && lo <= cur[i].0 < hi by {
            if i < prev.len() {
                assert(cur[i] == prev[i]);
            } else {
                assert(cur[i] == last[i - prev.len()]);
            }
        }
    }
}

/// Where a consensus core stands: the DAG that it holds, the highest round
/// that it has admitted a certificate of, and how far it has ordered.
pub struct Standing {
    pub dag: Map<(nat, u64), CertificateView>,
    pub top: nat,
    pub progress: Progress,
}

/// What the delivery of one certificate makes of a consensus core, and what
/// is committed by it, in order. A certificate that is admitted joins the
/// DAG, the ordering runs as far as the DAG decides, and the rounds that
/// fell below the depth are dropped; any other certificate changes nothing.
pub open spec fn delivered(members: Seq<Authority>, depth: nat, s: Standing, c: CertificateView) -> (
    Standing,
    Seq<(nat, u64)>,
) {
    if verdict(members, s.dag, s.progress.floor, c) == Verdict::Admit {
        let dag = s.dag.insert(slot_of(c), c);
        let top = higher(s.top, c.header.round as nat);
        let run = advance(members, depth, dag, top, s.progress);
        (
            Standing { dag: dag.restrict(from_round(keep_from(run.0.floor))), top, progress: run.0 },
            run.1,
        )
    } else {
        (s, Seq::empty())
    }
}

/// What the first `n` of `deliveries`, one after the other, make of a
/// consensus core that starts on the genesis certificates, and everything
/// that is committed on the way, in order.
pub open spec fn run(
    members: Seq<Authority>,
    depth: nat,
    genesis: Map<(nat, u64), CertificateView>,
    deliveries: Seq<CertificateView>,
    n: int,
) -> (Standing, Seq<(nat, u64)>)
    decreases n,
{
    if n <= 0 {
        (Standing { dag: genesis, top: 0, progress: start() }, Seq::empty())
    } else {
        let before = run(members, depth, genesis, deliveries, n - 1);
        let step = delivered(members, depth, before.0, deliveries[n - 1]);
        (step.0, before.1 + step.1)
    }
}

/// Whether `whole` holds every certificate that `dag` holds, with the same
/// header.
pub open spec fn within(
    dag: Map<(nat, u64), CertificateView>,
    whole: Map<(nat, u64), CertificateView>,
) -> bool {
    forall|k: (nat, u64)| #[trigger]
        dag.contains_key(k) ==> whole.contains_key(k) && whole[k].header == dag[k].header
}

/// Whether `whole` holds every certificate that the run admits.
pub open spec fn run_within(
    members: Seq<Authority>,
    depth: nat,
    genesis: Map<(nat, u64), CertificateView>,
    deliveries: Seq<CertificateView>,
    n: int,
    whole: Map<(nat, u64), CertificateView>,
) -> bool {
    &&& within(genesis, whole)
    &&& forall|i: int|
        0 <= i < n && i < deliveries.len() && verdict(
            members,
            run(members, depth, genesis, deliveries, i).0.dag,
            run(members, depth, genesis, deliveries, i).0.progress.floor,
            #[trigger] deliveries[i],
        ) == Verdict::Admit ==> whole.contains_key(slot_of(deliveries[i])) && whole[slot_of(
            deliveries[i],
        )].header == deliveries[i].header
}

/// A DAG that lies within an orderly one is compatible with it.
pub proof fn lemma_within_compatible(
    members: Seq<Authority>,
    dag: Map<(nat, u64), CertificateView>,
    whole: Map<(nat, u64), CertificateView>,
    lowest: nat,
)
    requires
        history_ok(members, whole, lowest),
        within(dag, whole),
    ensures
        compatible(dag, whole),
        forall|round: nat| extends_from(dag, whole, round),
{
    assert forall|r: nat, a: u64, b: u64|
        #![trigger dag.contains_key((r, a)), whole.contains_key((r, b))]
        dag.contains_key((r, a)) && whole.contains_key((r, b)) && dag[(r, a)].header.digest
            == whole[(r, b)].header.digest implies a == b by {
        assert(whole.contains_key((r, a)));
    }
}

/// On course: whatever the order in which its certificates arrive, a
/// consensus core has committed the beginning of the one sequence that the
/// whole DAG gives, and will commit the rest of it from where it stands.
/// The whole DAG is any orderly DAG from genesis on that holds what the
/// core admits.
pub proof fn lemma_run_on_course(
    members: Seq<Authority>,
    depth: nat,
    genesis: Map<(nat, u64), CertificateView>,
    deliveries: Seq<CertificateView>,
    n: int,
    whole: Map<(nat, u64), CertificateView>,
    limit: nat,
)
    requires
        valid_committee(members),
        history_ok(members, genesis, 0),
        history_ok(members, whole, 0),
        bounded(whole, limit),
        0 <= n <= deliveries.len(),
        run_within(members, depth, genesis, deliveries, n, whole),
    ensures
        ({
            let r = run(members, depth, genesis, deliveries, n);
            let ideal = advance(members, depth, whole, limit, start());
            &&& history_ok(members, r.0.dag, r.0.progress.floor)
            &&& within(r.0.dag, whole)
            &&& r.0.progress.floor <= r.0.progress.next
            &&& r.1 + advance(members, depth, whole, limit, r.0.progress).1 == ideal.1
            &&& advance(members, depth, whole, limit, r.0.progress).0 == ideal.0
            &&& r.1.is_prefix_of(ideal.1)
        }),
    decreases n,
{
    let r = run(members, depth, genesis, deliveries, n);
    let ideal = advance(members, depth, whole, limit, start());
    if n <= 0 {
        assert(r.1 + ideal.1 =~= ideal.1);
    } else {
        assert forall|i: int|
            0 <= i < n - 1 && i < deliveries.len() && verdict(
                members,
                run(members, depth, genesis, deliveries, i).0.dag,
                run(members, depth, genesis, deliveries, i).0.progress.floor,
                #[trigger] deliveries[i],
            ) == Verdict::Admit implies whole.contains_key(slot_of(deliveries[i])) && whole[slot_of(
            deliveries[i],
        )].header == deliveries[i].header by {}
        lemma_run_on_course(members, depth, genesis, deliveries, n - 1, whole, limit);
        let before = run(members, depth, genesis, deliveries, n - 1);
        let s = before.0;
        let c = deliveries[n - 1];
        if verdict(members, s.dag, s.progress.floor, c) == Verdict::Admit {
            let dag = s.dag.insert(slot_of(c), c);
            let top = higher(s.top, c.header.round as nat);
            let step = advance(members, depth, dag, top, s.progress);
            crate::dag::lemma_insert_keeps_history_ok(members, s.dag, s.progress.floor, c);
            assert(within(dag, whole)) by {
                assert forall|k: (nat, u64)| #[trigger] dag.contains_key(k) implies whole.contains_key(
                    k,
                ) && whole[k].header == dag[k].header by {
                    if k != slot_of(c) {
                        assert(s.dag.contains_key(k));
                    }
                }
            }
            lemma_within_compatible(members, dag, whole, 0);
            assert(extends_from(dag, whole, s.progress.floor));
            lemma_advance_extends(
                members,
                depth,
                dag,
                s.progress.floor,
                top,
                whole,
                0,
                limit,
                s.progress,
            );
            crate::guarantees::lemma_ordering_keeps_undecided_rounds(
                members,
                depth,
                dag,
                top,
                s.progress,
            );
            crate::dag::lemma_restrict_keeps_history_ok(
                members,
                dag,
                s.progress.floor,
                step.0.floor,
            );
            let onward = advance(members, depth, whole, limit, step.0);
            assert(before.1 + (step.1 + onward.1) =~= (before.1 + step.1) + onward.1);
        }
    }
    assert(r.1 =~= ideal.1.subrange(0, r.1.len() as int));
}

/// No divergent order: two consensus cores of one committee, whatever
/// reached them and in whatever order, have committed sequences of which
/// one begins the other, as long as one orderly DAG holds what both admit.
/// So a certificate that both have committed has the same place in both,
/// and two certificates that both have committed come in the same order in
/// both.
pub proof fn lemma_runs_agree(
    members: Seq<Authority>,
    depth: nat,
    whole: Map<(nat, u64), CertificateView>,
    limit: nat,
    genesis1: Map<(nat, u64), CertificateView>,
    deliveries1: Seq<CertificateView>,
    genesis2: Map<(nat, u64), CertificateView>,
    deliveries2: Seq<CertificateView>,
)
    requires
        valid_committee(members),
        history_ok(members, whole, 0),
        bounded(whole, limit),
        history_ok(members, genesis1, 0),
        history_ok(members, genesis2, 0),
        run_within(members, depth, genesis1, deliveries1, deliveries1.len() as int, whole),
        run_within(members, depth, genesis2, deliveries2, deliveries2.len() as int, whole),
    ensures
        ({
            let out1 = run(members, depth, genesis1, deliveries1, deliveries1.len() as int).1;
            let out2 = run(members, depth, genesis2, deliveries2, deliveries2.len() as int).1;
            &&& out1.is_prefix_of(out2) || out2.is_prefix_of(out1)
            &&& out1.no_duplicates()
            &&& out2.no_duplicates()
            &&& forall|i1: int, i2: int|
                0 <= i1 < out1.len() && 0 <= i2 < out2.len() && out1[i1] == out2[i2] ==> i1 == i2
            &&& forall|i1: int, j1: int, i2: int, j2: int|
                0 <= i1 < out1.len() && 0 <= j1 < out1.len() && 0 <= i2 < out2.len() && 0 <= j2
                    < out2.len() && out1[i1] == out2[i2] && out1[j1] == out2[j2] ==> (i1 < j1
                    <==> i2 < j2)
        }),
{
    let out1 = run(members, depth, genesis1, deliveries1, deliveries1.len() as int).1;
    let out2 = run(members, depth, genesis2, deliveries2, deliveries2.len() as int).1;
    let ideal = advance(members, depth, whole, limit, start()).1;
    lemma_run_on_course(
        members,
        depth,
        genesis1,
        deliveries1,
        deliveries1.len() as int,
        whole,
        limit,
    );
    lemma_run_on_course(
        members,
        depth,
        genesis2,
        deliveries2,
        deliveries2.len() as int,
        whole,
        limit,
    );
    crate::guarantees::lemma_advance_emits_once(members, depth, whole, limit, start());
    assert forall|i: int| 0 <= i < out1.len() implies out1[i] == ideal[i] by {
        assert(out1[i] == ideal.subrange(0, out1.len() as int)[i]);
    }
    assert forall|i: int| 0 <= i < out2.len() implies out2[i] == ideal[i] by {
        assert(out2[i] == ideal.subrange(0, out2.len() as int)[i]);
    }
    if out1.len() <= out2.len() {
        assert(out1 =~= out2.subrange(0, out1.len() as int));
    } else {
        assert(out2 =~= out1.subrange(0, out2.len() as int));
    }
}

/// Two consensus cores that stand at the same progress have committed the
/// same sequence: the same certificates in the same order, none missing and
/// none twice.
pub proof fn lemma_same_progress_same_sequence(
    members: Seq<Authority>,
    depth: nat,
    whole: Map<(nat, u64), CertificateView>,
    limit: nat,
    genesis1: Map<(nat, u64), CertificateView>,
    deliveries1: Seq<CertificateView>,
    genesis2: Map<(nat, u64), CertificateView>,
    deliveries2: Seq<CertificateView>,
)
    requires
        valid_committee(members),
        history_ok(members, whole, 0),
        bounded(whole, limit),
        history_ok(members, genesis1, 0),
        history_ok(members, genesis2, 0),
        run_within(members, depth, genesis1, deliveries1, deliveries1.len() as int, whole),
        run_within(members, depth, genesis2, deliveries2, deliveries2.len() as int, whole),
        run(members, depth, genesis1, deliveries1, deliveries1.len() as int).0.progress == run(
            members,
            depth,
            genesis2,
            deliveries2,
            deliveries2.len() as int,
        ).0.progress,
    ensures
        run(members, depth, genesis1, deliveries1, deliveries1.len() as int).1 == run(
            members,
            depth,
            genesis2,
            deliveries2,
            deliveries2.len() as int,
        ).1,
{
    let r1 = run(members, depth, genesis1, deliveries1, deliveries1.len() as int);
    let r2 = run(members, depth, genesis2, deliveries2, deliveries2.len() as int);
    let rest = advance(members, depth, whole, limit, r1.0.progress).1;
    lemma_run_on_course(
        members,
        depth,
        genesis1,
        deliveries1,
        deliveries1.len() as int,
        whole,
        limit,
    );
    lemma_run_on_course(
        members,
        depth,
        genesis2,
        deliveries2,
        deliveries2.len() as int,
        whole,
        limit,
    );
    assert(r1.1 + rest == r2.1 + rest);
    assert(r1.1.len() == r2.1.len()) by {
        assert((r1.1 + rest).len() == (r2.1 + rest).len());
    }
    assert forall|i: int| 0 <= i < r1.1.len() implies r1.1[i] == r2.1[i] by {
        assert((r1.1 + rest)[i] == (r2.1 + rest)[i]);
    }
    assert(r1.1 =~= r2.1);
}

} // verus!
