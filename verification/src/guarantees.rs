//! What the library guarantees of every DAG, every ordering and every
//! redelivery, stated over the same definitions that the functions'
//! contracts use.

use vstd::prelude::*;
use crate::aggregator::{acked_after, heard_after, voters_after};
use crate::committee::{
    Authority, is_member, leader_of, lemma_thresholds, lemma_weight_disjoint, lemma_weight_equal,
    lemma_weight_monotone, lemma_weight_none, lemma_weight_split, listed, quorum_threshold,
    valid_committee,
    validity_threshold, weight,
};
use crate::dag::{
    Verdict, certified, cites, digest_used, from_round, grounded, history_ok, keep_from,
    parents_known, present_in, slot_of, verdict,
};
use crate::dag_core::{
    drain, is_waiting, lemma_drain_settles, pass, received, received_all, settled,
};
use crate::ordering::{
    Decision, Progress, advance, backers, backs, bounded, committed, first_round, fresh, gc_floor,
    lemma_commit_holds_leader, lemma_weight_witness, link, reaches, row, rows, shunners, skipped,
    status, sub_dag,
};
use crate::types::{CertificateView, Digest, HeaderView, Vote};
use crate::voter::{vote_for, votes_ok};

verus! {

/// No equivocation in the DAG: two certificates that it holds for the same
/// author and round are one and the same.
pub proof fn lemma_one_certificate_per_slot(
    members: Seq<Authority>,
    dag: Map<(nat, u64), CertificateView>,
    floor: nat,
    k1: (nat, u64),
    k2: (nat, u64),
)
    requires
        history_ok(members, dag, floor),
        dag.contains_key(k1),
        dag.contains_key(k2),
        dag[k1].header.round == dag[k2].header.round,
        dag[k1].header.author == dag[k2].header.author,
    ensures
        k1 == k2,
        dag[k1] == dag[k2],
{
    assert(slot_of(dag[k1]) == k1);
    assert(slot_of(dag[k2]) == k2);
}

/// A certificate is admitted only to a free place, and admitting it changes
/// no certificate that is held: what the DAG holds for an author and round,
/// it holds for good.
pub proof fn lemma_admission_replaces_nothing(
    members: Seq<Authority>,
    dag: Map<(nat, u64), CertificateView>,
    floor: nat,
    c: CertificateView,
    k: (nat, u64),
)
    requires
        verdict(members, dag, floor, c) == Verdict::Admit,
        dag.contains_key(k),
    ensures
        k != slot_of(c),
        dag.insert(slot_of(c), c).contains_key(k),
        dag.insert(slot_of(c), c)[k] == dag[k],
{
}

/// Causal completeness: every parent that a held certificate names is
/// held, in the round before, as long as the certificate's round is one
/// that certificates are still admitted to.
pub proof fn lemma_parents_held(
    members: Seq<Authority>,
    dag: Map<(nat, u64), CertificateView>,
    floor: nat,
    k: (nat, u64),
    j: int,
)
    requires
        history_ok(members, dag, floor),
        dag.contains_key(k),
        k.0 >= 1,
        k.0 >= floor,
        0 <= j < dag[k].header.parents.len(),
    ensures
        digest_used(dag, (k.0 - 1) as nat, dag[k].header.parents[j]),
{
    assert(grounded(members, dag, k.0, dag[k].header.parents));
}

/// A certificate is admitted only when all its parents are held already,
/// by authors that hold a quorum of stake.
pub proof fn lemma_admitted_after_parents(
    members: Seq<Authority>,
    dag: Map<(nat, u64), CertificateView>,
    floor: nat,
    c: CertificateView,
)
    requires
        verdict(members, dag, floor, c) == Verdict::Admit,
    ensures
        c.header.round >= 1,
        parents_known(dag, c.header.round as nat, c.header.parents),
        weight(members, cites(dag, c.header.round as nat, c.header.parents)) >= quorum_threshold(
            members,
        ),
{
}

/// The leader of a round depends on the round and the committee alone: the
/// same round and committee give the same leader, to whoever computes it.
pub proof fn lemma_leader_is_a_function(
    members1: Seq<Authority>,
    round1: nat,
    members2: Seq<Authority>,
    round2: nat,
)
    requires
        members1 == members2,
        round1 == round2,
    ensures
        leader_of(members1, round1) == leader_of(members2, round2),
{
}

/// The leader is a member, and the members lead in turn: the same one again
/// after as many rounds as there are members.
pub proof fn lemma_leaders_take_turns(members: Seq<Authority>, round: nat)
    requires
        valid_committee(members),
    ensures
        is_member(members, leader_of(members, round)),
        leader_of(members, round + members.len()) == leader_of(members, round),
{
    let n = members.len() as int;
    let i = (round as int) % n;
    assert(0 <= i < n);
    assert(members[i].id == leader_of(members, round));
    assert((round + n) % n == round as int % n) by (nonlinear_arith)
        requires
            n > 0,
    ;
}

/// Dropping the rounds below `floor` keeps every path that does not go
/// below it.
pub proof fn lemma_prune_keeps_paths(
    dag: Map<(nat, u64), CertificateView>,
    floor: nat,
    top: nat,
    from: u64,
    round: nat,
    b: u64,
)
    requires
        reaches(dag, top, from, round, b),
        round >= floor,
    ensures
        reaches(dag.restrict(from_round(floor)), top, from, round, b),
    decreases top - round,
{
    let kept = dag.restrict(from_round(floor));
    crate::ordering::lemma_reaches_held(dag, top, from, round, b);
    assert(from_round(floor).contains((top, from)));
    if round < top {
        let above = (round + 1) as nat;
        let a = choose|a: u64| reaches(dag, top, from, above, a) && #[trigger] link(dag, above, a, b);
        lemma_prune_keeps_paths(dag, floor, top, from, above, a);
        assert(from_round(floor).contains((above, a)));
        assert(from_round(floor).contains((round, b)));
        assert(link(kept, above, a, b));
    }
}

/// Garbage collection at depth `depth` below the round `highest` removes no
/// certificate within that depth that a leader's certificate reaches: every
/// causal ancestor of a leader that is less than `depth` rounds below
/// `highest` is still reached afterwards.
pub proof fn lemma_gc_keeps_ancestors(
    dag: Map<(nat, u64), CertificateView>,
    highest: nat,
    depth: nat,
    top: nat,
    from: u64,
    round: nat,
    b: u64,
)
    requires
        reaches(dag, top, from, round, b),
        round + depth > highest,
    ensures
        dag.restrict(from_round(keep_from(gc_floor(highest, depth)))).contains_key((round, b)),
        reaches(
            dag.restrict(from_round(keep_from(gc_floor(highest, depth)))),
            top,
            from,
            round,
            b,
        ),
{
    lemma_prune_keeps_paths(dag, keep_from(gc_floor(highest, depth)), top, from, round, b);
    crate::ordering::lemma_reaches_held(
        dag.restrict(from_round(keep_from(gc_floor(highest, depth)))),
        top,
        from,
        round,
        b,
    );
}

/// The ordering never drops from its DAG a round that an undecided leader
/// stands in: the lowest round that may still be committed stays at or
/// below the next round to decide.
pub proof fn lemma_ordering_keeps_undecided_rounds(
    members: Seq<Authority>,
    depth: nat,
    dag: Map<(nat, u64), CertificateView>,
    top: nat,
    p: Progress,
)
    requires
        p.floor <= p.next,
    ensures
        advance(members, depth, dag, top, p).0.floor <= advance(members, depth, dag, top, p).0.next,
        advance(members, depth, dag, top, p).0.next >= p.next,
        advance(members, depth, dag, top, p).0.floor >= p.floor,
    decreases top + 1 - p.next,
{
    if p.next <= top {
        match status(members, dag, top, p.next) {
            Decision::Undecided => {},
            Decision::Skip => {
                lemma_ordering_keeps_undecided_rounds(members, depth, dag, top, skipped(p));
            },
            Decision::Commit => {
                lemma_ordering_keeps_undecided_rounds(
                    members,
                    depth,
                    dag,
                    top,
                    committed(members, depth, dag, p),
                );
            },
        }
    }
}

/// Whether the slot `a` comes before the slot `b`: by round, and within a
/// round by author.
pub open spec fn slot_before(a: (nat, u64), b: (nat, u64)) -> bool {
    a.0 < b.0 || (a.0 == b.0 && a.1 < b.1)
}

proof fn lemma_row_sorted(
    members: Seq<Authority>,
    dag: Map<(nat, u64), CertificateView>,
    top: nat,
    from: u64,
    done: Set<(nat, u64)>,
    round: nat,
    n: int,
)
    requires
        valid_committee(members),
        0 <= n <= members.len(),
    ensures
        forall|i: int|
            0 <= i < row(members, dag, top, from, done, round, n).len() ==> (#[trigger] row(
                members,
                dag,
                top,
                from,
                done,
                round,
                n,
            )[i]).0 == round && n >= 1 && row(members, dag, top, from, done, round, n)[i].1
                <= members[n - 1].id,
        forall|i: int, j: int|
            0 <= i < j < row(members, dag, top, from, done, round, n).len() ==> slot_before(
                #[trigger] row(members, dag, top, from, done, round, n)[i],
                #[trigger] row(members, dag, top, from, done, round, n)[j],
            ),
    decreases n,
{
    if n > 0 {
        let prev = row(members, dag, top, from, done, round, n - 1);
        let cur = row(members, dag, top, from, done, round, n);
        lemma_row_sorted(members, dag, top, from, done, round, n - 1);
        assert forall|i: int| 0 <= i < cur.len() implies (#[trigger] cur[i]).0 == round && cur[i].1
            <= members[n - 1].id by {
            if i < prev.len() {
                assert(cur[i] == prev[i]);
                assert(members[n - 2].id < members[n - 1].id);
            }
        }
        assert forall|i: int, j: int| 0 <= i < j < cur.len() implies slot_before(
            #[trigger] cur[i],
            #[trigger] cur[j],
        ) by {
            assert(cur[i] == prev[i]);
            if j < prev.len() {
                assert(cur[j] == prev[j]);
            } else {
                assert(members[n - 2].id < members[n - 1].id);
            }
        }
    }
}

proof fn lemma_rows_sorted(
    members: Seq<Authority>,
    dag: Map<(nat, u64), CertificateView>,
    top: nat,
    from: u64,
    done: Set<(nat, u64)>,
    lo: nat,
    hi: nat,
)
    requires
        valid_committee(members),
    ensures
        forall|i: int|
            0 <= i < rows(members, dag, top, from, done, lo, hi).len() ==> lo <= (#[trigger] rows(
                members,
                dag,
                top,
                from,
                done,
                lo,
                hi,
            )[i]).0 < hi && fresh(
                dag,
                top,
                from,
                done,
                rows(members, dag, top, from, done, lo, hi)[i].0,
                rows(members, dag, top, from, done, lo, hi)[i].1,
            ),
        forall|i: int, j: int|
            0 <= i < j < rows(members, dag, top, from, done, lo, hi).len() ==> slot_before(
                #[trigger] rows(members, dag, top, from, done, lo, hi)[i],
                #[trigger] rows(members, dag, top, from, done, lo, hi)[j],
            ),
    decreases hi,
{
    if hi > lo {
        let below = (hi - 1) as nat;
        let prev = rows(members, dag, top, from, done, lo, below);
        let last = row(members, dag, top, from, done, below, members.len() as int);
        let cur = rows(members, dag, top, from, done, lo, hi);
        lemma_rows_sorted(members, dag, top, from, done, lo, below);
        lemma_row_sorted(members, dag, top, from, done, below, members.len() as int);
        crate::ordering::lemma_row_held(
            members,
            dag,
            top,
            from,
            done,
            below,
            members.len() as int,
        );
        assert(cur == prev + last);
        assert forall|i: int| 0 <= i < cur.len() implies lo <= (#[trigger] cur[i]).0 < hi && fresh(
            dag,
            top,
            from,
            done,
            cur[i].0,
            cur[i].1,
        ) by {
            if i < prev.len() {
                assert(cur[i] == prev[i]);
            } else {
                assert(cur[i] == last[i - prev.len()]);
            }
        }
        assert forall|i: int, j: int| 0 <= i < j < cur.len() implies slot_before(
            #[trigger] cur[i],
            #[trigger] cur[j],
        ) by {
            if j < prev.len() {
                assert(cur[i] == prev[i] && cur[j] == prev[j]);
            } else if i < prev.len() {
                assert(cur[i] == prev[i]);
                assert(cur[j] == last[j - prev.len()]);
            } else {
                assert(cur[i] == last[i - prev.len()]);
                assert(cur[j] == last[j - prev.len()]);
            }
        }
    }
}

/// What a committed leader commits comes by ascending round and, within a
/// round, by ascending author; it holds exactly the certificates from the
/// first committable round on that the leader's certificate reaches and
/// that were not committed before: each of them, and nothing else.
pub proof fn lemma_sub_dag_sorted(
    members: Seq<Authority>,
    dag: Map<(nat, u64), CertificateView>,
    round: nat,
    done: Set<(nat, u64)>,
    floor: nat,
)
    requires
        valid_committee(members),
    ensures
        forall|i: int, j: int|
            0 <= i < j < sub_dag(members, dag, round, done, floor).len() ==> slot_before(
                #[trigger] sub_dag(members, dag, round, done, floor)[i],
                #[trigger] sub_dag(members, dag, round, done, floor)[j],
            ),
        forall|i: int|
            0 <= i < sub_dag(members, dag, round, done, floor).len() ==> first_round(floor) <= (
            #[trigger] sub_dag(members, dag, round, done, floor)[i]).0 <= round && fresh(
                dag,
                round,
                leader_of(members, round),
                done,
                sub_dag(members, dag, round, done, floor)[i].0,
                sub_dag(members, dag, round, done, floor)[i].1,
            ),
        forall|r: nat, x: int|
            0 <= x < members.len() && first_round(floor) <= r <= round && fresh(
                dag,
                round,
                leader_of(members, round),
                done,
                r,
                #[trigger] members[x].id,
            ) ==> #[trigger] sub_dag(members, dag, round, done, floor).contains((r, members[x].id)),
{
    lemma_rows_sorted(
        members,
        dag,
        round,
        leader_of(members, round),
        done,
        first_round(floor),
        round + 1,
    );
    assert forall|r: nat, x: int|
        0 <= x < members.len() && first_round(floor) <= r <= round && fresh(
            dag,
            round,
            leader_of(members, round),
            done,
            r,
            #[trigger] members[x].id,
        ) implies #[trigger] sub_dag(members, dag, round, done, floor).contains(
        (r, members[x].id),
    ) by {
        lemma_rows_complete(
            members,
            dag,
            round,
            leader_of(members, round),
            done,
            first_round(floor),
            round + 1,
            r,
            x,
        );
    }
}

/// No certificate joins the DAG while one of its parents is not held:
/// whatever its round, it is refused, or it waits.
pub proof fn lemma_no_admission_without_parents(
    members: Seq<Authority>,
    dag: Map<(nat, u64), CertificateView>,
    floor: nat,
    c: CertificateView,
    j: int,
)
    requires
        0 <= j < c.header.parents.len(),
        !digest_used(dag, (c.header.round - 1) as nat, c.header.parents[j]),
    ensures
        verdict(members, dag, floor, c) != Verdict::Admit,
        c.header.round >= 1 && c.header.round >= floor && is_member(members, c.header.author)
            && !dag.contains_key(slot_of(c)) && !digest_used(
            dag,
            c.header.round as nat,
            c.header.digest,
        ) && certified(members, c) ==> verdict(members, dag, floor, c) == Verdict::MissingParents,
{
}

/// At most once: the ordering commits no slot twice, and none that was
/// committed before.
pub proof fn lemma_advance_emits_once(
    members: Seq<Authority>,
    depth: nat,
    dag: Map<(nat, u64), CertificateView>,
    top: nat,
    p: Progress,
)
    requires
        valid_committee(members),
    ensures
        advance(members, depth, dag, top, p).1.no_duplicates(),
        forall|i: int|
            0 <= i < advance(members, depth, dag, top, p).1.len() ==> !p.done.contains(
                #[trigger] advance(members, depth, dag, top, p).1[i],
            ) && advance(members, depth, dag, top, p).1[i].0 >= p.floor,
    decreases top + 1 - p.next,
{
    if p.next <= top {
        match status(members, dag, top, p.next) {
            Decision::Undecided => {},
            Decision::Skip => {
                lemma_advance_emits_once(members, depth, dag, top, skipped(p));
            },
            Decision::Commit => {
                let q = committed(members, depth, dag, p);
                let out = sub_dag(members, dag, p.next, p.done, p.floor);
                let rest = advance(members, depth, dag, top, q).1;
                let run = advance(members, depth, dag, top, p).1;
                lemma_advance_emits_once(members, depth, dag, top, q);
                lemma_sub_dag_sorted(members, dag, p.next, p.done, p.floor);
                assert(run == out + rest);
                assert forall|i: int| 0 <= i < run.len() implies !p.done.contains(#[trigger] run[i])
                    && run[i].0 >= p.floor by {
                    if i < out.len() {
                        assert(run[i] == out[i]);
                    } else {
                        assert(run[i] == rest[i - out.len()]);
                        assert(!q.done.contains(rest[i - out.len()]));
                    }
                }
                assert forall|i: int, j: int| 0 <= i < run.len() && 0 <= j < run.len() && i
                    != j implies run[i] != run[j] by {
                    let (x, y) = if i < j {
                        (i, j)
                    } else {
                        (j, i)
                    };
                    if y < out.len() {
                        assert(run[x] == out[x] && run[y] == out[y]);
                        assert(slot_before(out[x], out[y]));
                    } else if x < out.len() {
                        assert(run[x] == out[x]);
                        assert(run[y] == rest[y - out.len()]);
                        assert(!q.done.contains(rest[y - out.len()]));
                        assert(out.contains(out[x]));
                    } else {
                        assert(run[x] == rest[x - out.len()]);
                        assert(run[y] == rest[y - out.len()]);
                    }
                }
            },
        }
    }
}

/// A pass admits only to free places: what the DAG held before, it holds
/// unchanged after.
pub proof fn lemma_pass_keeps_held(
    members: Seq<Authority>,
    floor: nat,
    dag: Map<(nat, u64), CertificateView>,
    waiting: Seq<CertificateView>,
    i: int,
    k: (nat, u64),
)
    requires
        0 <= i <= waiting.len(),
        dag.contains_key(k),
    ensures
        pass(members, floor, dag, waiting, i).0.contains_key(k),
        pass(members, floor, dag, waiting, i).0[k] == dag[k],
    decreases waiting.len() - i,
{
    if i < waiting.len() {
        let c = waiting[i];
        if verdict(members, dag, floor, c) == Verdict::Admit {
            lemma_pass_keeps_held(members, floor, dag.insert(slot_of(c), c), waiting, i + 1, k);
        } else {
            lemma_pass_keeps_held(members, floor, dag, waiting, i + 1, k);
        }
    }
}

/// Draining admits only to free places.
pub proof fn lemma_drain_keeps_held(
    members: Seq<Authority>,
    floor: nat,
    dag: Map<(nat, u64), CertificateView>,
    waiting: Seq<CertificateView>,
    k: (nat, u64),
)
    requires
        dag.contains_key(k),
    ensures
        drain(members, floor, dag, waiting).0.contains_key(k),
        drain(members, floor, dag, waiting).0[k] == dag[k],
    decreases waiting.len(),
{
    let r = pass(members, floor, dag, waiting, 0);
    lemma_pass_keeps_held(members, floor, dag, waiting, 0, k);
    if !(r.2.len() == 0 || r.1.len() >= waiting.len()) {
        lemma_drain_keeps_held(members, floor, r.0, r.1, k);
    }
}

/// Redelivering a certificate changes nothing: the DAG core is after the
/// second delivery as it was after the first.
pub proof fn lemma_certificate_redelivery(
    members: Seq<Authority>,
    floor: nat,
    dag: Map<(nat, u64), CertificateView>,
    waiting: Seq<CertificateView>,
    c: CertificateView,
    authentic: bool,
)
    ensures
        received(
            members,
            floor,
            received(members, floor, dag, waiting, c, authentic).0,
            received(members, floor, dag, waiting, c, authentic).1,
            c,
            authentic,
        ) == received(members, floor, dag, waiting, c, authentic),
{
    let v = verdict(members, dag, floor, c);
    let once = received(members, floor, dag, waiting, c, authentic);
    if authentic {
        if v == Verdict::Admit {
            let next = dag.insert(slot_of(c), c);
            lemma_drain_keeps_held(members, floor, next, waiting, slot_of(c));
            assert(verdict(members, once.0, floor, c) == Verdict::Duplicate);
        } else if v == Verdict::MissingParents {
            if !is_waiting(waiting, c) {
                let w = waiting.push(c);
                assert(slot_of(w[waiting.len() as int]) == slot_of(c));
            }
            assert(is_waiting(once.1, c));
        }
    }
}

/// A certificate that the DAG admitted is refused as a duplicate when it
/// comes again, and as stale once its round has been dropped: either way it
/// changes nothing.
pub proof fn lemma_admitted_once(
    members: Seq<Authority>,
    dag: Map<(nat, u64), CertificateView>,
    floor: nat,
    later: nat,
    c: CertificateView,
)
    requires
        verdict(members, dag, floor, c) == Verdict::Admit,
        later >= floor,
    ensures
        verdict(members, dag.insert(slot_of(c), c), floor, c) == Verdict::Duplicate,
        verdict(
            members,
            dag.insert(slot_of(c), c).restrict(from_round(keep_from(later))),
            later,
            c,
        ) == if c.header.round >= later {
            Verdict::Duplicate
        } else {
            Verdict::Stale
        },
{
    let k = slot_of(c);
    if c.header.round >= later {
        assert(from_round(keep_from(later)).contains(k));
    }
}

/// Redelivering a voice changes nothing: who is counted after the second
/// delivery is who was counted after the first.
pub proof fn lemma_voice_redelivery(members: Seq<Authority>, voices: Seq<u64>, id: u64)
    ensures
        heard_after(members, heard_after(members, voices, id), id) == heard_after(
            members,
            voices,
            id,
        ),
{
    if is_member(members, id) && !voices.contains(id) {
        assert(voices.push(id)[voices.len() as int] == id);
    }
}

/// Redelivering a vote, or an acknowledgement, changes nothing: the voters
/// counted after the second delivery are those counted after the first.
pub proof fn lemma_vote_redelivery(
    members: Seq<Authority>,
    header: HeaderView,
    voters: Seq<u64>,
    vote: Vote,
    authentic: bool,
)
    ensures
        voters_after(
            members,
            header,
            voters_after(members, header, voters, vote, authentic),
            vote,
            authentic,
        ) == voters_after(members, header, voters, vote, authentic),
{
    let once = voters_after(members, header, voters, vote, authentic);
    if once != voters {
        assert(voters.push(vote.voter)[voters.len() as int] == vote.voter);
        assert(once.contains(vote.voter));
    }
}

/// Redelivering the acknowledgement of a batch changes nothing.
pub proof fn lemma_acknowledgement_redelivery(
    members: Seq<Authority>,
    awaited: Digest,
    acked: Seq<u64>,
    batch: Digest,
    from: u64,
)
    ensures
        acked_after(members, awaited, acked_after(members, awaited, acked, batch, from), batch, from)
            == acked_after(members, awaited, acked, batch, from),
{
    let once = acked_after(members, awaited, acked, batch, from);
    if once != acked {
        assert(acked.push(from)[acked.len() as int] == from);
        assert(once.contains(from));
    }
}

/// The members that have both properties.
pub open spec fn both(p: spec_fn(u64) -> bool, q: spec_fn(u64) -> bool) -> spec_fn(u64) -> bool {
    |a: u64| p(a) && q(a)
}

/// Two quorums share members that hold a validity threshold of stake: more
/// than the faulty authorities can hold.
pub proof fn lemma_quorums_share_stake(
    members: Seq<Authority>,
    p: spec_fn(u64) -> bool,
    q: spec_fn(u64) -> bool,
)
    requires
        valid_committee(members),
        weight(members, p) >= quorum_threshold(members),
        weight(members, q) >= quorum_threshold(members),
    ensures
        weight(members, both(p, q)) >= validity_threshold(members),
{
    let n = members.len() as int;
    let shared = |a: u64| p(a) && q(a);
    let rest = |a: u64| p(a) && !q(a);
    lemma_thresholds(members);
    lemma_weight_split(members, p, q, n);
    assert forall|i: int| 0 <= i < n implies shared(#[trigger] members[i].id) == both(p, q)(
        members[i].id,
    ) by {}
    lemma_weight_equal(members, shared, both(p, q), n);
    assert forall|i: int| 0 <= i < n implies !(rest(#[trigger] members[i].id) && q(
        members[i].id,
    )) by {}
    lemma_weight_disjoint(members, rest, q, n);
}

/// Why no author gets two certificates for one round: any two certificates
/// share voters that hold a validity threshold of stake. With less than that
/// in faulty hands, one of those voters keeps to the rule of one vote for
/// each author and round, so the two certificates are for one header.
pub proof fn lemma_certificates_share_voters(
    members: Seq<Authority>,
    c1: CertificateView,
    c2: CertificateView,
)
    requires
        valid_committee(members),
        certified(members, c1),
        certified(members, c2),
    ensures
        weight(members, both(listed(c1.votes), listed(c2.votes))) >= validity_threshold(members),
        validity_threshold(members) >= 1,
{
    lemma_thresholds(members);
    lemma_quorums_share_stake(members, listed(c1.votes), listed(c2.votes));
}

proof fn lemma_row_complete(
    members: Seq<Authority>,
    dag: Map<(nat, u64), CertificateView>,
    top: nat,
    from: u64,
    done: Set<(nat, u64)>,
    round: nat,
    n: int,
    x: int,
)
    requires
        0 <= x < n <= members.len(),
        fresh(dag, top, from, done, round, members[x].id),
    ensures
        row(members, dag, top, from, done, round, n).contains((round, members[x].id)),
    decreases n,
{
    let cur = row(members, dag, top, from, done, round, n);
    let prev = row(members, dag, top, from, done, round, n - 1);
    if x == n - 1 {
        assert(cur[cur.len() - 1] == (round, members[x].id));
    } else {
        lemma_row_complete(members, dag, top, from, done, round, n - 1, x);
        let j = choose|j: int| 0 <= j < prev.len() && prev[j] == (round, members[x].id);
        assert(cur[j] == prev[j]);
    }
}

proof fn lemma_rows_complete(
    members: Seq<Authority>,
    dag: Map<(nat, u64), CertificateView>,
    top: nat,
    from: u64,
    done: Set<(nat, u64)>,
    lo: nat,
    hi: nat,
    round: nat,
    x: int,
)
    requires
        0 <= x < members.len(),
        lo <= round < hi,
        fresh(dag, top, from, done, round, members[x].id),
    ensures
        rows(members, dag, top, from, done, lo, hi).contains((round, members[x].id)),
    decreases hi,
{
    let below = (hi - 1) as nat;
    let prev = rows(members, dag, top, from, done, lo, below);
    let last = row(members, dag, top, from, done, below, members.len() as int);
    let cur = rows(members, dag, top, from, done, lo, hi);
    assert(cur == prev + last);
    if round == below {
        lemma_row_complete(members, dag, top, from, done, round, members.len() as int, x);
        let j = choose|j: int| 0 <= j < last.len() && last[j] == (round, members[x].id);
        assert(cur[prev.len() + j] == last[j]);
    } else {
        lemma_rows_complete(members, dag, top, from, done, lo, below, round, x);
        let j = choose|j: int| 0 <= j < prev.len() && prev[j] == (round, members[x].id);
        assert(cur[j] == prev[j]);
    }
}

/// The committed sequence follows the DAG: whatever parent a committed
/// certificate names was committed before it, unless the parent's round is
/// genesis or was dropped by then.
pub proof fn lemma_parents_come_first(
    members: Seq<Authority>,
    depth: nat,
    dag: Map<(nat, u64), CertificateView>,
    lowest: nat,
    top: nat,
    p: Progress,
    i: int,
    b: u64,
)
    requires
        valid_committee(members),
        history_ok(members, dag, lowest),
        p.floor <= p.next,
        0 <= i < advance(members, depth, dag, top, p).1.len(),
        link(
            dag,
            advance(members, depth, dag, top, p).1[i].0,
            advance(members, depth, dag, top, p).1[i].1,
            b,
        ),
    ensures
        ({
            let run = advance(members, depth, dag, top, p).1;
            let parent = ((run[i].0 - 1) as nat, b);
            ||| p.done.contains(parent)
            ||| parent.0 < first_round(advance(members, depth, dag, top, p).0.floor)
            ||| exists|j: int| 0 <= j < i && run[j] == parent
        }),
    decreases top + 1 - p.next,
{
    let run = advance(members, depth, dag, top, p).1;
    let end = advance(members, depth, dag, top, p).0;
    let parent = ((run[i].0 - 1) as nat, b);
    lemma_ordering_keeps_undecided_rounds(members, depth, dag, top, p);
    if p.next <= top {
        match status(members, dag, top, p.next) {
            Decision::Undecided => {},
            Decision::Skip => {
                lemma_parents_come_first(members, depth, dag, lowest, top, skipped(p), i, b);
            },
            Decision::Commit => {
                let lead = leader_of(members, p.next);
                let q = committed(members, depth, dag, p);
                let out = sub_dag(members, dag, p.next, p.done, p.floor);
                let rest = advance(members, depth, dag, top, q).1;
                assert(run == out + rest);
                lemma_sub_dag_sorted(members, dag, p.next, p.done, p.floor);
                lemma_ordering_keeps_undecided_rounds(members, depth, dag, top, q);
                if i < out.len() {
                    let x = out[i];
                    assert(run[i] == x);
                    assert(fresh(dag, p.next, lead, p.done, x.0, x.1));
                    assert(dag.contains_key(parent));
                    let above = (parent.0 + 1) as nat;
                    assert(reaches(dag, p.next, lead, above, x.1) && link(dag, above, x.1, b));
                    assert(reaches(dag, p.next, lead, parent.0, b));
                    if !p.done.contains(parent) && parent.0 >= first_round(p.floor) {
                        let w = choose|w: int| 0 <= w < members.len() && members[w].id == b;
                        lemma_rows_complete(
                            members,
                            dag,
                            p.next,
                            lead,
                            p.done,
                            first_round(p.floor),
                            p.next + 1,
                            parent.0,
                            w,
                        );
                        let j = choose|j: int| 0 <= j < out.len() && out[j] == parent;
                        if j > i {
                            assert(slot_before(out[i], out[j]));
                        }
                        assert(run[j] == parent);
                    }
                } else {
                    let k = i - out.len();
                    assert(run[i] == rest[k]);
                    lemma_parents_come_first(members, depth, dag, lowest, top, q, k, b);
                    if q.done.contains(parent) {
                        if !p.done.contains(parent) {
                            let j = choose|j: int| 0 <= j < out.len() && out[j] == parent;
                            assert(run[j] == parent);
                        }
                    } else if parent.0 >= first_round(end.floor) {
                        let j = choose|j: int| 0 <= j < k && rest[j] == parent;
                        assert(run[out.len() + j] == parent);
                    }
                }
            },
        }
    }
}

/// The members that are not honest.
pub open spec fn faulty(honest: spec_fn(u64) -> bool) -> spec_fn(u64) -> bool {
    |a: u64| !honest(a)
}

/// No author gets two certificates for one round. Let the faulty
/// authorities hold less than a validity threshold of stake, let every
/// honest authority keep to one vote for each author and round, and let the
/// honest voters that a certificate lists have cast their vote for its
/// header. Then two certificates of one author for one round bear the same
/// digest: they certify one header.
pub proof fn lemma_no_two_certificates(
    members: Seq<Authority>,
    honest: spec_fn(u64) -> bool,
    cast: spec_fn(u64) -> Seq<Vote>,
    c1: CertificateView,
    c2: CertificateView,
)
    requires
        valid_committee(members),
        weight(members, faulty(honest)) < validity_threshold(members),
        forall|a: u64| honest(a) ==> votes_ok(#[trigger] cast(a), a),
        forall|a: u64|
            honest(a) && c1.votes.contains(a) ==> (#[trigger] cast(a)).contains(
                vote_for(c1.header, a),
            ),
        forall|a: u64|
            honest(a) && c2.votes.contains(a) ==> (#[trigger] cast(a)).contains(
                vote_for(c2.header, a),
            ),
        certified(members, c1),
        certified(members, c2),
        c1.header.author == c2.header.author,
        c1.header.round == c2.header.round,
    ensures
        c1.header.digest == c2.header.digest,
{
    let n = members.len() as int;
    let shared = both(listed(c1.votes), listed(c2.votes));
    lemma_certificates_share_voters(members, c1, c2);
    if forall|i: int| 0 <= i < n && shared(#[trigger] members[i].id) ==> faulty(honest)(
        members[i].id,
    ) {
        lemma_weight_monotone(members, shared, faulty(honest), n);
    }
    let i = choose|i: int|
        0 <= i < n && shared(#[trigger] members[i].id) && !faulty(honest)(members[i].id);
    let a = members[i].id;
    let votes = cast(a);
    assert(honest(a) && c1.votes.contains(a) && c2.votes.contains(a));
    let v1 = vote_for(c1.header, a);
    let v2 = vote_for(c2.header, a);
    let x = choose|x: int| 0 <= x < votes.len() && votes[x] == v1;
    let y = choose|y: int| 0 <= y < votes.len() && votes[y] == v2;
    assert(votes[x].origin == votes[y].origin && votes[x].round == votes[y].round);
    assert(x == y);
}

/// A silent leader is passed over: where the leader of a round has no
/// certificate, the round is passed over as soon as the round two above is
/// closed.
pub proof fn lemma_silent_leader_is_passed_over(
    members: Seq<Authority>,
    dag: Map<(nat, u64), CertificateView>,
    top: nat,
    round: nat,
)
    requires
        valid_committee(members),
        !dag.contains_key((round, leader_of(members, round))),
        weight(members, present_in(dag, round + 2)) >= quorum_threshold(members),
    ensures
        status(members, dag, top, round) == Decision::Skip,
{
    let n = members.len() as int;
    lemma_thresholds(members);
    assert forall|i: int| 0 <= i < n implies !backers(members, dag, round)(
        #[trigger] members[i].id,
    ) by {
        let a = members[i].id;
        if backs(members, dag, round, a) {
            let b = choose|b: u64| #[trigger]
                link(dag, round + 2, a, b) && link(dag, round + 1, b, leader_of(members, round));
            assert(link(dag, round + 1, b, leader_of(members, round)));
        }
    }
    lemma_weight_none(members, backers(members, dag, round), n);
    assert forall|i: int| 0 <= i < n implies present_in(dag, round + 2)(#[trigger] members[i].id)
        == shunners(members, dag, round)(members[i].id) by {}
    lemma_weight_equal(members, present_in(dag, round + 2), shunners(members, dag, round), n);
}

/// The block of a committed leader: when the next round to decide is
/// decided to commit, what is committed next is what the leader's
/// certificate reaches and was not committed before, from the first
/// committable round on, by round and author, the leader's certificate
/// last; and the ordering goes on from there.
pub proof fn lemma_committed_block(
    members: Seq<Authority>,
    depth: nat,
    dag: Map<(nat, u64), CertificateView>,
    top: nat,
    p: Progress,
)
    requires
        valid_committee(members),
        p.next <= top,
        first_round(p.floor) <= p.next,
        !p.done.contains((p.next, leader_of(members, p.next))),
        status(members, dag, top, p.next) == Decision::Commit,
    ensures
        ({
            let block = sub_dag(members, dag, p.next, p.done, p.floor);
            let rest = advance(members, depth, dag, top, committed(members, depth, dag, p));
            &&& advance(members, depth, dag, top, p).1 == block + rest.1
            &&& advance(members, depth, dag, top, p).0 == rest.0
            &&& block.len() > 0
            &&& block.last() == (p.next, leader_of(members, p.next))
        }),
{
    let lead = leader_of(members, p.next);
    let block = sub_dag(members, dag, p.next, p.done, p.floor);
    lemma_commit_holds_leader(members, dag, top, p.next);
    lemma_leaders_take_turns(members, p.next);
    lemma_sub_dag_sorted(members, dag, p.next, p.done, p.floor);
    let x = choose|x: int| 0 <= x < members.len() && members[x].id == lead;
    assert(fresh(dag, p.next, lead, p.done, p.next, members[x].id));
    assert(block.contains((p.next, members[x].id)));
    let j = choose|j: int| 0 <= j < block.len() && block[j] == (p.next, lead);
    let last = block.len() - 1;
    if j < last {
        assert(slot_before(block[j], block[last]));
        assert(fresh(dag, p.next, lead, p.done, block[last].0, block[last].1));
    }
}

/// After a silent leader the ordering goes on with the next: let the leader
/// of the next round to decide have no certificate, let the round two above
/// be closed, and let a quorum of stake three rounds above descend from the
/// leader of the round after. Then the silent leader's round is passed
/// over, and what is committed next is the block of the leader of the round
/// after.
pub proof fn lemma_order_resumes_after_silent_leader(
    members: Seq<Authority>,
    depth: nat,
    dag: Map<(nat, u64), CertificateView>,
    top: nat,
    p: Progress,
)
    requires
        valid_committee(members),
        bounded(dag, top),
        1 <= p.next,
        p.floor <= p.next,
        !dag.contains_key((p.next, leader_of(members, p.next))),
        weight(members, present_in(dag, p.next + 2)) >= quorum_threshold(members),
        weight(members, backers(members, dag, p.next + 1)) >= quorum_threshold(members),
        !p.done.contains(((p.next + 1) as nat, leader_of(members, p.next + 1))),
    ensures
        ({
            let after = skipped(p);
            let block = sub_dag(members, dag, after.next, after.done, after.floor);
            let rest = advance(members, depth, dag, top, committed(members, depth, dag, after));
            &&& status(members, dag, top, p.next) == Decision::Skip
            &&& status(members, dag, top, after.next) == Decision::Commit
            &&& advance(members, depth, dag, top, p).1 == block + rest.1
            &&& block.len() > 0
            &&& block.last() == (after.next, leader_of(members, after.next))
        }),
{
    lemma_thresholds(members);
    lemma_silent_leader_is_passed_over(members, dag, top, p.next);
    let i = lemma_weight_witness(members, backers(members, dag, p.next + 1));
    let a = members[i].id;
    assert(backs(members, dag, p.next + 1, a));
    let b = choose|b: u64| #[trigger]
        link(dag, (p.next + 1) + 2, a, b) && link(
            dag,
            (p.next + 1) + 1,
            b,
            leader_of(members, p.next + 1),
        );
    assert(dag.contains_key(((p.next + 3) as nat, a)));
    lemma_committed_block(members, depth, dag, top, skipped(p));
}

/// Whether every certificate that `dag` holds is held by `whole` as well.
pub open spec fn part_of(
    dag: Map<(nat, u64), CertificateView>,
    whole: Map<(nat, u64), CertificateView>,
) -> bool {
    forall|k: (nat, u64)| #[trigger] dag.contains_key(k) ==> whole.contains_key(k) && whole[k] == dag[k]
}

/// Whether `list` lists certificates of `whole`, of rounds after genesis.
pub open spec fn certificates_of(
    list: Seq<CertificateView>,
    whole: Map<(nat, u64), CertificateView>,
) -> bool {
    forall|i: int|
        0 <= i < list.len() ==> (#[trigger] list[i]).header.round >= 1 && whole.contains_key(
            slot_of(list[i]),
        ) && whole[slot_of(list[i])] == list[i]
}

/// A certificate of an orderly DAG, offered to a part of that DAG, is
/// admitted or waits for a parent, unless the part holds it already.
proof fn lemma_verdict_on_part(
    members: Seq<Authority>,
    whole: Map<(nat, u64), CertificateView>,
    dag: Map<(nat, u64), CertificateView>,
    c: CertificateView,
)
    requires
        valid_committee(members),
        history_ok(members, whole, 0),
        part_of(dag, whole),
        c.header.round >= 1,
        whole.contains_key(slot_of(c)),
        whole[slot_of(c)] == c,
    ensures
        dag.contains_key(slot_of(c)) ==> verdict(members, dag, 0, c) == Verdict::Duplicate,
        !dag.contains_key(slot_of(c)) ==> verdict(members, dag, 0, c) == if parents_known(
            dag,
            c.header.round as nat,
            c.header.parents,
        ) {
            Verdict::Admit
        } else {
            Verdict::MissingParents
        },
{
    let k = slot_of(c);
    let n = members.len() as int;
    if !dag.contains_key(k) {
        if digest_used(dag, k.0, c.header.digest) {
            let b = choose|b: u64| #[trigger]
                dag.contains_key((k.0, b)) && dag[(k.0, b)].header.digest == c.header.digest;
            assert(whole.contains_key((k.0, b)) && whole.contains_key((k.0, k.1)));
        }
        if parents_known(dag, k.0, c.header.parents) {
            let parents = c.header.parents;
            let below = (k.0 - 1) as nat;
            assert(grounded(members, whole, k.0, whole[k].header.parents));
            assert forall|i: int|
                0 <= i < n && cites(whole, k.0, parents)(#[trigger] members[i].id) implies cites(
                dag,
                k.0,
                parents,
            )(members[i].id) by {
                let a = members[i].id;
                let dg = whole[(below, a)].header.digest;
                let j = choose|j: int| 0 <= j < parents.len() && parents[j] == dg;
                assert(digest_used(dag, below, parents[j]));
                let b = choose|b: u64| #[trigger]
                    dag.contains_key((below, b)) && dag[(below, b)].header.digest == dg;
                assert(whole.contains_key((below, b)) && whole.contains_key((below, a)));
            }
            lemma_weight_monotone(members, cites(whole, k.0, parents), cites(dag, k.0, parents), n);
        }
    }
}

/// A pass over certificates of an orderly DAG loses none of them: each
/// joins the DAG or keeps waiting, and the DAG stays a part of the whole.
proof fn lemma_pass_loses_nothing(
    members: Seq<Authority>,
    whole: Map<(nat, u64), CertificateView>,
    dag: Map<(nat, u64), CertificateView>,
    waiting: Seq<CertificateView>,
    i: int,
)
    requires
        valid_committee(members),
        history_ok(members, whole, 0),
        part_of(dag, whole),
        certificates_of(waiting, whole),
        0 <= i <= waiting.len(),
    ensures
        part_of(pass(members, 0, dag, waiting, i).0, whole),
        certificates_of(pass(members, 0, dag, waiting, i).1, whole),
        forall|k: (nat, u64)| #[trigger]
            dag.contains_key(k) ==> pass(members, 0, dag, waiting, i).0.contains_key(k),
        forall|x: int|
            i <= x < waiting.len() ==> pass(members, 0, dag, waiting, i).0.contains_key(
                slot_of(#[trigger] waiting[x]),
            ) || pass(members, 0, dag, waiting, i).1.contains(waiting[x]),
    decreases waiting.len() - i,
{
    let r = pass(members, 0, dag, waiting, i);
    if i < waiting.len() {
        let c = waiting[i];
        let v = verdict(members, dag, 0, c);
        lemma_verdict_on_part(members, whole, dag, c);
        let next = if v == Verdict::Admit {
            dag.insert(slot_of(c), c)
        } else {
            dag
        };
        lemma_pass_loses_nothing(members, whole, next, waiting, i + 1);
        let tail = pass(members, 0, next, waiting, i + 1);
        assert forall|k: (nat, u64)| #[trigger] dag.contains_key(k) implies r.0.contains_key(k) by {
            assert(next.contains_key(k));
        }
        if v == Verdict::MissingParents {
            let kept = seq![c] + tail.1;
            assert(r.1 == kept);
            assert forall|y: int| 0 <= y < kept.len() implies (#[trigger] kept[y]).header.round >= 1
                && whole.contains_key(slot_of(kept[y])) && whole[slot_of(kept[y])] == kept[y] by {
                if y > 0 {
                    assert(kept[y] == tail.1[y - 1]);
                }
            }
        }
        assert forall|x: int| i <= x < waiting.len() implies r.0.contains_key(
            slot_of(#[trigger] waiting[x]),
        ) || r.1.contains(waiting[x]) by {
            if x == i {
                if v == Verdict::MissingParents {
                    assert(r.1[0] == c);
                } else {
                    assert(next.contains_key(slot_of(c)));
                }
            } else if !tail.0.contains_key(slot_of(waiting[x])) {
                let y = choose|y: int| 0 <= y < tail.1.len() && tail.1[y] == waiting[x];
                if v == Verdict::MissingParents {
                    assert(r.1[y + 1] == waiting[x]);
                }
            }
        }
    }
}

/// Draining certificates of an orderly DAG loses none of them.
proof fn lemma_drain_loses_nothing(
    members: Seq<Authority>,
    whole: Map<(nat, u64), CertificateView>,
    dag: Map<(nat, u64), CertificateView>,
    waiting: Seq<CertificateView>,
)
    requires
        valid_committee(members),
        history_ok(members, whole, 0),
        part_of(dag, whole),
        certificates_of(waiting, whole),
    ensures
        part_of(drain(members, 0, dag, waiting).0, whole),
        certificates_of(drain(members, 0, dag, waiting).1, whole),
        forall|k: (nat, u64)| #[trigger]
            dag.contains_key(k) ==> drain(members, 0, dag, waiting).0.contains_key(k),
        forall|x: int|
            0 <= x < waiting.len() ==> drain(members, 0, dag, waiting).0.contains_key(
                slot_of(#[trigger] waiting[x]),
            ) || drain(members, 0, dag, waiting).1.contains(waiting[x]),
    decreases waiting.len(),
{
    let r = pass(members, 0, dag, waiting, 0);
    let d = drain(members, 0, dag, waiting);
    lemma_pass_loses_nothing(members, whole, dag, waiting, 0);
    if !(r.2.len() == 0 || r.1.len() >= waiting.len()) {
        lemma_drain_loses_nothing(members, whole, r.0, r.1);
        assert forall|k: (nat, u64)| #[trigger] dag.contains_key(k) implies d.0.contains_key(k) by {
            assert(r.0.contains_key(k));
        }
        assert forall|x: int| 0 <= x < waiting.len() implies d.0.contains_key(
            slot_of(#[trigger] waiting[x]),
        ) || d.1.contains(waiting[x]) by {
            if r.0.contains_key(slot_of(waiting[x])) {
                assert(d.0.contains_key(slot_of(waiting[x])));
            } else {
                let y = choose|y: int| 0 <= y < r.1.len() && r.1[y] == waiting[x];
                assert(d.0.contains_key(slot_of(r.1[y])) || d.1.contains(r.1[y]));
            }
        }
    }
}

/// What holds of a DAG core while certificates of an orderly DAG reach it:
/// it holds a part of that DAG, what waits are certificates of that DAG
/// that miss a parent, and none of what has reached it is lost.
pub open spec fn catching_up(
    members: Seq<Authority>,
    whole: Map<(nat, u64), CertificateView>,
    genesis: Map<(nat, u64), CertificateView>,
    deliveries: Seq<CertificateView>,
    n: int,
    dag: Map<(nat, u64), CertificateView>,
    waiting: Seq<CertificateView>,
) -> bool {
    &&& part_of(dag, whole)
    &&& certificates_of(waiting, whole)
    &&& settled(members, 0, dag, waiting)
    &&& forall|k: (nat, u64)| #[trigger] genesis.contains_key(k) ==> dag.contains_key(k)
    &&& forall|i: int|
        0 <= i < n ==> dag.contains_key(slot_of(#[trigger] deliveries[i])) || waiting.contains(
            deliveries[i],
        )
}

proof fn lemma_keeps_catching_up(
    members: Seq<Authority>,
    whole: Map<(nat, u64), CertificateView>,
    genesis: Map<(nat, u64), CertificateView>,
    deliveries: Seq<CertificateView>,
    n: int,
)
    requires
        valid_committee(members),
        history_ok(members, whole, 0),
        part_of(genesis, whole),
        certificates_of(deliveries, whole),
        0 <= n <= deliveries.len(),
    ensures
        catching_up(
            members,
            whole,
            genesis,
            deliveries,
            n,
            received_all(members, 0, genesis, Seq::empty(), deliveries, n).0,
            received_all(members, 0, genesis, Seq::empty(), deliveries, n).1,
        ),
    decreases n,
{
    if n > 0 {
        lemma_keeps_catching_up(members, whole, genesis, deliveries, n - 1);
        let s = received_all(members, 0, genesis, Seq::empty(), deliveries, n - 1);
        let t = received_all(members, 0, genesis, Seq::empty(), deliveries, n);
        let c = deliveries[n - 1];
        let v = verdict(members, s.0, 0, c);
        lemma_verdict_on_part(members, whole, s.0, c);
        if v == Verdict::Admit {
            let next = s.0.insert(slot_of(c), c);
            lemma_drain_loses_nothing(members, whole, next, s.1);
            lemma_drain_settles(members, 0, next, s.1);
            assert forall|k: (nat, u64)| #[trigger] genesis.contains_key(k) implies t.0.contains_key(
                k,
            ) by {
                assert(s.0.contains_key(k));
                assert(next.contains_key(k));
            }
            assert forall|i: int| 0 <= i < n implies t.0.contains_key(
                slot_of(#[trigger] deliveries[i]),
            ) || t.1.contains(deliveries[i]) by {
                if i == n - 1 {
                    assert(next.contains_key(slot_of(c)));
                } else if s.0.contains_key(slot_of(deliveries[i])) {
                    assert(next.contains_key(slot_of(deliveries[i])));
                } else {
                    let y = choose|y: int| 0 <= y < s.1.len() && s.1[y] == deliveries[i];
                    assert(t.0.contains_key(slot_of(s.1[y])) || t.1.contains(s.1[y]));
                }
            }
        } else if v == Verdict::MissingParents {
            if is_waiting(s.1, c) {
                let y = choose|y: int|
                    0 <= y < s.1.len() && slot_of(#[trigger] s.1[y]) == slot_of(c)
                        && s.1[y].header.digest == c.header.digest;
                assert(s.1[y] == c);
            } else {
                let w = s.1.push(c);
                assert(t.1 == w);
                assert(w[s.1.len() as int] == c);
                assert forall|y: int| 0 <= y < w.len() implies (#[trigger] w[y]).header.round >= 1
                    && whole.contains_key(slot_of(w[y])) && whole[slot_of(w[y])] == w[y] && verdict(
                    members,
                    s.0,
                    0,
                    w[y],
                ) == Verdict::MissingParents by {
                    if y < s.1.len() {
                        assert(w[y] == s.1[y]);
                    }
                }
                assert forall|i: int| 0 <= i < n implies t.0.contains_key(
                    slot_of(#[trigger] deliveries[i]),
                ) || t.1.contains(deliveries[i]) by {
                    if i < n - 1 && !s.0.contains_key(slot_of(deliveries[i])) {
                        let y = choose|y: int| 0 <= y < s.1.len() && s.1[y] == deliveries[i];
                        assert(w[y] == deliveries[i]);
                    }
                }
            }
        }
    }
}

/// Round by round, a core that has caught up holds what the whole DAG
/// holds.
proof fn lemma_caught_up_holds(
    members: Seq<Authority>,
    whole: Map<(nat, u64), CertificateView>,
    genesis: Map<(nat, u64), CertificateView>,
    deliveries: Seq<CertificateView>,
    dag: Map<(nat, u64), CertificateView>,
    waiting: Seq<CertificateView>,
    k: (nat, u64),
)
    requires
        valid_committee(members),
        history_ok(members, whole, 0),
        catching_up(members, whole, genesis, deliveries, deliveries.len() as int, dag, waiting),
        forall|x: (nat, u64)| #[trigger] whole.contains_key(x) && x.0 == 0 ==> genesis.contains_key(x),
        forall|x: (nat, u64)|
            #[trigger] whole.contains_key(x) && x.0 >= 1 ==> deliveries.contains(whole[x]),
        whole.contains_key(k),
    ensures
        dag.contains_key(k),
    decreases k.0,
{
    if k.0 >= 1 && !dag.contains_key(k) {
        let c = whole[k];
        assert(slot_of(c) == k);
        let i = choose|i: int| 0 <= i < deliveries.len() && deliveries[i] == c;
        assert(dag.contains_key(slot_of(deliveries[i])) || waiting.contains(deliveries[i]));
        let y = choose|y: int| 0 <= y < waiting.len() && waiting[y] == c;
        assert(verdict(members, dag, 0, waiting[y]) == Verdict::MissingParents);
        lemma_verdict_on_part(members, whole, dag, c);
        let below = (k.0 - 1) as nat;
        assert(grounded(members, whole, k.0, c.header.parents));
        assert forall|j: int| 0 <= j < c.header.parents.len() implies digest_used(
            dag,
            below,
            #[trigger] c.header.parents[j],
        ) by {
            assert(digest_used(whole, below, c.header.parents[j]));
            let b = choose|b: u64| #[trigger]
                whole.contains_key((below, b)) && whole[(below, b)].header.digest
                    == c.header.parents[j];
            lemma_caught_up_holds(members, whole, genesis, deliveries, dag, waiting, (below, b));
            assert(dag.contains_key((below, b)));
        }
    }
}

/// Catching up: an authority that was away and then receives the
/// certificates that it missed, in any order, ends with the DAG that the
/// others hold. Let the whole DAG be orderly from genesis on, let the core
/// start on its genesis certificates, and let every other certificate of the
/// whole DAG reach it at some time, among deliveries that are all
/// certificates of the whole DAG. Then in the end the core holds exactly the
/// whole DAG, and nothing waits any more.
pub proof fn lemma_catches_up(
    members: Seq<Authority>,
    whole: Map<(nat, u64), CertificateView>,
    genesis: Map<(nat, u64), CertificateView>,
    deliveries: Seq<CertificateView>,
)
    requires
        valid_committee(members),
        history_ok(members, whole, 0),
        part_of(genesis, whole),
        certificates_of(deliveries, whole),
        forall|x: (nat, u64)| #[trigger] whole.contains_key(x) && x.0 == 0 ==> genesis.contains_key(x),
        forall|x: (nat, u64)|
            #[trigger] whole.contains_key(x) && x.0 >= 1 ==> deliveries.contains(whole[x]),
    ensures
        received_all(
            members,
            0,
            genesis,
            Seq::empty(),
            deliveries,
            deliveries.len() as int,
        ).0 == whole,
        received_all(
            members,
            0,
            genesis,
            Seq::empty(),
            deliveries,
            deliveries.len() as int,
        ).1.len() == 0,
{
    let n = deliveries.len() as int;
    let end = received_all(members, 0, genesis, Seq::empty(), deliveries, n);
    lemma_keeps_catching_up(members, whole, genesis, deliveries, n);
    assert forall|k: (nat, u64)| #[trigger] whole.contains_key(k) implies end.0.contains_key(k) by {
        lemma_caught_up_holds(members, whole, genesis, deliveries, end.0, end.1, k);
    }
    assert(end.0 =~= whole);
    if end.1.len() > 0 {
        let w = end.1[0];
        assert(verdict(members, end.0, 0, w) == Verdict::MissingParents);
        lemma_verdict_on_part(members, whole, end.0, w);
    }
}

} // verus!
