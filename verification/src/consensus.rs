//! The consensus core: it takes the certificates that the DAG admits and
//! gives out, in one order for all authorities, the certificates that the
//! leader rule commits.

use vstd::prelude::*;
use crate::committee::{
    Authority, Committee, leader_of, lemma_weight_bounds,
    quorum_threshold, valid_committee, validity_threshold, weight, weight_upto,
};
use crate::dag::{
    Dag, Verdict, from_round, genesis_ok, history_of, history_ok, keep_from, slot_of, verdict,
    views_of,
};
use crate::ordering::{
    Decision, Progress, Standing, advance, anchor_from, backers, backs, bounded, committed, delivered,
    first_round, gc_floor, higher, layer, lemma_anchor, lemma_reaches_held, lemma_rows_held,
    lemma_undecided_near_top, link, mark, reaches, row, rows, shunners, skipped, status, sub_dag,
    vouchers,
};
use crate::types::{Certificate, CertificateView, has_digest};

verus! {

/// Whether the certificate of `a` for `round` names the certificate of `b`
/// for the round before among its parents.
pub fn linked(dag: &Dag, round: u64, a: u64, b: u64) -> (r: bool)
    requires
        dag.wf(),
    ensures
        r == link(dag@, round as nat, a, b),
{
    if round == 0 {
        return false;
    }
    match dag.get(round, a) {
        None => false,
        Some(child) => match dag.get(round - 1, b) {
            None => false,
            Some(parent) => has_digest(&child.header.parents, parent.header.digest),
        },
    }
}

/// Whether the certificate of `a` two rounds above `round` descends from the
/// certificate of the leader of `round`.
pub fn backs_leader(dag: &Dag, round: u64, a: u64) -> (r: bool)
    requires
        dag.wf(),
        round + 2 <= u64::MAX,
    ensures
        r == backs(dag.members(), dag@, round as nat, a),
{
    let committee: &Committee = dag.committee();
    let lead: u64 = committee.leader(round);
    let n: usize = committee.size();
    let mut j: usize = 0;
    while j < n
        invariant
            dag.wf(),
            committee.wf(),
            committee@ == dag.members(),
            round + 2 <= u64::MAX,
            lead == leader_of(dag.members(), round as nat),
            n == dag.members().len(),
            0 <= j <= n,
            forall|x: int|
                0 <= x < j ==> !(link(dag@, (round + 2) as nat, a, (#[trigger] dag.members()[x]).id)
                    && link(dag@, (round + 1) as nat, dag.members()[x].id, lead)),
        decreases n - j,
    {
        let b: u64 = committee.member(j).id;
        if linked(dag, round + 2, a, b) && linked(dag, round + 1, b, lead) {
            proof {
                let r = round as nat;
                assert(link(dag@, (r + 2) as nat, a, b) && link(
                    dag@,
                    (r + 1) as nat,
                    b,
                    leader_of(dag.members(), r),
                ));
            }
            return true;
        }
        j = j + 1;
    }
    proof {
        if backs(dag.members(), dag@, round as nat, a) {
            let b = choose|b: u64| #[trigger]
                link(dag@, (round + 2) as nat, a, b) && link(dag@, (round + 1) as nat, b, lead);
            assert(dag@.contains_key(((round + 1) as nat, b)));
            let x = choose|x: int| 0 <= x < dag.members().len() && dag.members()[x].id == b;
            assert(dag.members()[x].id == b);
        }
    }
    false
}

/// The stake two rounds above `round` that descends from the leader of
/// `round`, and the stake there that does not.
pub fn tally(dag: &Dag, round: u64) -> (r: (u64, u64))
    requires
        dag.wf(),
        round + 2 <= u64::MAX,
    ensures
        r.0 == weight(dag.members(), backers(dag.members(), dag@, round as nat)),
        r.1 == weight(dag.members(), shunners(dag.members(), dag@, round as nat)),
{
    let committee: &Committee = dag.committee();
    let n: usize = committee.size();
    let mut pro: u64 = 0;
    let mut con: u64 = 0;
    let mut i: usize = 0;
    while i < n
        invariant
            dag.wf(),
            committee.wf(),
            committee@ == dag.members(),
            round + 2 <= u64::MAX,
            n == dag.members().len(),
            0 <= i <= n,
            pro == weight_upto(
                dag.members(),
                backers(dag.members(), dag@, round as nat),
                i as int,
            ),
            con == weight_upto(
                dag.members(),
                shunners(dag.members(), dag@, round as nat),
                i as int,
            ),
        decreases n - i,
    {
        proof {
            lemma_weight_bounds(
                dag.members(),
                backers(dag.members(), dag@, round as nat),
                i + 1,
            );
            lemma_weight_bounds(
                dag.members(),
                shunners(dag.members(), dag@, round as nat),
                i + 1,
            );
        }
        let m: Authority = committee.member(i);
        if backs_leader(dag, round, m.id) {
            pro = pro + m.stake;
        } else if dag.get(round + 2, m.id).is_some() {
            con = con + m.stake;
        }
        i = i + 1;
    }
    (pro, con)
}

/// Whether `flags` says of each member, in the order of the committee,
/// whether its identifier has the property.
pub open spec fn flags_match(
    flags: Seq<bool>,
    members: Seq<Authority>,
    holds: spec_fn(u64) -> bool,
) -> bool {
    &&& flags.len() == members.len()
    &&& forall|i: int| 0 <= i < members.len() ==> flags[i] == holds((#[trigger] members[i]).id)
}

/// A round number as a natural number.
pub open spec fn as_round(r: Option<u64>) -> Option<nat> {
    match r {
        None => None,
        Some(x) => Some(x as nat),
    }
}

/// For each member, whether it is the author `lead` of a certificate held
/// for `round`: where a path from that certificate starts.
pub fn top_layer(dag: &Dag, round: u64, lead: u64) -> (r: Vec<bool>)
    requires
        dag.wf(),
    ensures
        flags_match(r@, dag.members(), layer(dag@, round as nat, lead, round as nat)),
{
    let committee: &Committee = dag.committee();
    let n: usize = committee.size();
    let held: bool = dag.get(round, lead).is_some();
    let mut flags: Vec<bool> = Vec::new();
    let mut i: usize = 0;
    while i < n
        invariant
            dag.wf(),
            committee.wf(),
            committee@ == dag.members(),
            n == dag.members().len(),
            0 <= i <= n,
            held == dag@.contains_key((round as nat, lead)),
            flags@.len() == i,
            forall|x: int|
                0 <= x < i ==> flags@[x] == layer(dag@, round as nat, lead, round as nat)(
                    (#[trigger] dag.members()[x]).id,
                ),
        decreases n - i,
    {
        flags.push(held && committee.member(i).id == lead);
        i = i + 1;
    }
    flags
}

/// From the members whose certificate for `round` is reached from the
/// certificate of `lead` for round `top`, those whose certificate for the
/// round before is.
fn lower_layer(dag: &Dag, top: u64, lead: u64, round: u64, upper: &Vec<bool>) -> (r: Vec<bool>)
    requires
        dag.wf(),
        1 <= round <= top,
        flags_match(upper@, dag.members(), layer(dag@, top as nat, lead, round as nat)),
    ensures
        flags_match(r@, dag.members(), layer(dag@, top as nat, lead, (round - 1) as nat)),
{
    let committee: &Committee = dag.committee();
    let n: usize = committee.size();
    let ghost below = (round - 1) as nat;
    let mut flags: Vec<bool> = Vec::new();
    let mut j: usize = 0;
    while j < n
        invariant
            dag.wf(),
            committee.wf(),
            committee@ == dag.members(),
            n == dag.members().len(),
            1 <= round <= top,
            below == round - 1,
            flags_match(upper@, dag.members(), layer(dag@, top as nat, lead, round as nat)),
            0 <= j <= n,
            flags@.len() == j,
            forall|x: int|
                0 <= x < j ==> flags@[x] == layer(dag@, top as nat, lead, below)(
                    (#[trigger] dag.members()[x]).id,
                ),
        decreases n - j,
    {
        let b: u64 = committee.member(j).id;
        let mut found: bool = false;
        let mut i: usize = 0;
        while i < n
            invariant
                dag.wf(),
                committee.wf(),
                committee@ == dag.members(),
                n == dag.members().len(),
                1 <= round <= top,
                below == round - 1,
                flags_match(upper@, dag.members(), layer(dag@, top as nat, lead, round as nat)),
                0 <= i <= n,
                found ==> reaches(dag@, top as nat, lead, below, b),
                !found ==> forall|x: int|
                    0 <= x < i ==> !(reaches(
                        dag@,
                        top as nat,
                        lead,
                        round as nat,
                        (#[trigger] dag.members()[x]).id,
                    ) && link(dag@, round as nat, dag.members()[x].id, b)),
            decreases n - i,
        {
            let a: u64 = committee.member(i).id;
            if upper[i] && linked(dag, round, a, b) {
                proof {
                    assert(upper@[i as int] == layer(dag@, top as nat, lead, round as nat)(
                        dag.members()[i as int].id,
                    ));
                    let above = (below + 1) as nat;
                    assert(reaches(dag@, top as nat, lead, above, a) && link(dag@, above, a, b));
                }
                found = true;
            }
            i = i + 1;
        }
        proof {
            if !found && reaches(dag@, top as nat, lead, below, b) {
                let above = (below + 1) as nat;
                let a = choose|a: u64|
                    reaches(dag@, top as nat, lead, above, a) && #[trigger] link(dag@, above, a, b);
                lemma_reaches_held(dag@, top as nat, lead, above, a);
                let x = choose|x: int| 0 <= x < dag.members().len() && dag.members()[x].id == a;
                assert(dag.members()[x].id == a);
            }
        }
        flags.push(found);
        j = j + 1;
    }
    flags
}

/// For each member, whether its certificate for `round` is reached from the
/// certificate of `lead` for round `top`.
pub fn layer_at(dag: &Dag, top: u64, lead: u64, round: u64) -> (r: Vec<bool>)
    requires
        dag.wf(),
        round <= top,
    ensures
        flags_match(r@, dag.members(), layer(dag@, top as nat, lead, round as nat)),
{
    let mut flags: Vec<bool> = top_layer(dag, top, lead);
    let mut r: u64 = top;
    while r > round
        invariant
            dag.wf(),
            round <= r <= top,
            flags_match(flags@, dag.members(), layer(dag@, top as nat, lead, r as nat)),
        decreases r - round,
    {
        flags = lower_layer(dag, top, lead, r, &flags);
        r = r - 1;
    }
    flags
}

/// The stake two rounds above `round` that both is reached from the leader
/// of the later round `anchor` and descends from the leader of `round`.
pub fn voucher_weight(dag: &Dag, round: u64, anchor: u64) -> (r: u64)
    requires
        dag.wf(),
        round + 2 <= anchor,
    ensures
        r == weight(
            dag.members(),
            vouchers(dag.members(), dag@, round as nat, anchor as nat),
        ),
{
    let committee: &Committee = dag.committee();
    let n: usize = committee.size();
    let lead: u64 = committee.leader(anchor);
    let flags: Vec<bool> = layer_at(dag, anchor, lead, round + 2);
    let mut acc: u64 = 0;
    let mut i: usize = 0;
    while i < n
        invariant
            dag.wf(),
            committee.wf(),
            committee@ == dag.members(),
            n == dag.members().len(),
            round + 2 <= anchor,
            lead == leader_of(dag.members(), anchor as nat),
            flags_match(
                flags@,
                dag.members(),
                layer(dag@, anchor as nat, lead, (round + 2) as nat),
            ),
            0 <= i <= n,
            acc == weight_upto(
                dag.members(),
                vouchers(dag.members(), dag@, round as nat, anchor as nat),
                i as int,
            ),
        decreases n - i,
    {
        proof {
            lemma_weight_bounds(
                dag.members(),
                vouchers(dag.members(), dag@, round as nat, anchor as nat),
                i + 1,
            );
            assert(flags@[i as int] == layer(dag@, anchor as nat, lead, (round + 2) as nat)(
                dag.members()[i as int].id,
            ));
        }
        let m: Authority = committee.member(i);
        if flags[i] && backs_leader(dag, round, m.id) {
            acc = acc + m.stake;
        }
        i = i + 1;
    }
    acc
}

/// The decision on the leader of `round`, given the anchor found from three
/// rounds above on.
fn settle(dag: &Dag, round: u64, later: Option<u64>) -> (r: Decision)
    requires
        dag.wf(),
        round + 3 <= dag.highest() ==> as_round(later) == anchor_from(
            dag.members(),
            dag@,
            dag.highest(),
            (round + 3) as nat,
        ),
    ensures
        r == status(dag.members(), dag@, dag.highest(), round as nat),
{
    let top: u64 = dag.top();
    if top < 2 || round > top - 2 {
        proof {
            lemma_undecided_near_top(dag.members(), dag@, dag.highest(), round as nat);
        }
        return Decision::Undecided;
    }
    let committee: &Committee = dag.committee();
    let quorum: u64 = committee.quorum_threshold();
    let (pro, con) = tally(dag, round);
    if pro >= quorum {
        return Decision::Commit;
    }
    if con >= quorum {
        return Decision::Skip;
    }
    if top < 3 || round > top - 3 {
        return Decision::Undecided;
    }
    match later {
        None => Decision::Undecided,
        Some(anchor) => {
            proof {
                lemma_anchor(dag.members(), dag@, dag.highest(), (round + 3) as nat);
            }
            if voucher_weight(dag, round, anchor) >= committee.validity_threshold() {
                Decision::Commit
            } else {
                Decision::Skip
            }
        },
    }
}

/// The first round from `from` on whose leader is not passed over, if that
/// leader is committed.
pub fn find_anchor(dag: &Dag, from: u64) -> (r: Option<u64>)
    requires
        dag.wf(),
    ensures
        as_round(r) == anchor_from(dag.members(), dag@, dag.highest(), from as nat),
{
    let top: u64 = dag.top();
    if from > top {
        return None;
    }
    let mut r: u64 = top;
    let mut a1: Option<u64> = None;
    let mut a2: Option<u64> = None;
    let mut a3: Option<u64> = None;
    loop
        invariant
            dag.wf(),
            top == dag.highest(),
            from <= r <= top,
            as_round(a1) == anchor_from(dag.members(), dag@, dag.highest(), (r + 1) as nat),
            as_round(a2) == anchor_from(dag.members(), dag@, dag.highest(), (r + 2) as nat),
            as_round(a3) == anchor_from(dag.members(), dag@, dag.highest(), (r + 3) as nat),
        decreases r - from,
    {
        let s: Decision = settle(dag, r, a3);
        let a0: Option<u64> = match s {
            Decision::Commit => Some(r),
            Decision::Undecided => None,
            Decision::Skip => a1,
        };
        if r == from {
            return a0;
        }
        a3 = a2;
        a2 = a1;
        a1 = a0;
        r = r - 1;
    }
}

/// The decision on the leader of `round`, from all that the DAG holds.
pub fn decide(dag: &Dag, round: u64) -> (r: Decision)
    requires
        dag.wf(),
    ensures
        r == status(dag.members(), dag@, dag.highest(), round as nat),
{
    let top: u64 = dag.top();
    let later: Option<u64> = if top >= 3 && round <= top - 3 {
        find_anchor(dag, round + 3)
    } else {
        None
    };
    settle(dag, round, later)
}

/// A slot with its round as a natural number.
pub open spec fn as_slot(s: (u64, u64)) -> (nat, u64) {
    (s.0 as nat, s.1)
}

pub open spec fn as_slots(v: Seq<(u64, u64)>) -> Seq<(nat, u64)> {
    Seq::new(v.len(), |i: int| as_slot(v[i]))
}

/// Whether `k` is one of the slots that `v` lists.
pub open spec fn has_slot(v: Seq<(u64, u64)>, k: (nat, u64)) -> bool {
    exists|i: int| 0 <= i < v.len() && as_slot(#[trigger] v[i]) == k
}

/// The slots that `v` lists.
pub open spec fn slots_in(v: Seq<(u64, u64)>) -> Set<(nat, u64)> {
    Set::new(|k: (nat, u64)| has_slot(v, k))
}

/// The certificates that the DAG holds in `slots`, in that order.
pub open spec fn certs_at(dag: Map<(nat, u64), CertificateView>, slots: Seq<(nat, u64)>) -> Seq<
    CertificateView,
> {
    Seq::new(slots.len(), |i: int| dag[slots[i]])
}

proof fn lemma_has_slot_push(v: Seq<(u64, u64)>, e: (u64, u64), k: (nat, u64))
    ensures
        has_slot(v.push(e), k) <==> has_slot(v, k) || as_slot(e) == k,
{
    let w = v.push(e);
    if has_slot(w, k) {
        let i = choose|i: int| 0 <= i < w.len() && as_slot(#[trigger] w[i]) == k;
        if i < v.len() {
            assert(as_slot(v[i]) == k);
        }
    }
    if has_slot(v, k) {
        let i = choose|i: int| 0 <= i < v.len() && as_slot(#[trigger] v[i]) == k;
        assert(as_slot(w[i]) == k);
    }
    if as_slot(e) == k {
        assert(as_slot(w[v.len() as int]) == k);
    }
}

proof fn lemma_has_slot_listed(v: Seq<(u64, u64)>, k: (nat, u64))
    ensures
        has_slot(v, k) <==> as_slots(v).contains(k),
{
    let w = as_slots(v);
    if has_slot(v, k) {
        let i = choose|i: int| 0 <= i < v.len() && as_slot(#[trigger] v[i]) == k;
        assert(w[i] == k);
    }
    if w.contains(k) {
        let i = choose|i: int| 0 <= i < w.len() && w[i] == k;
        assert(as_slot(v[i]) == k);
    }
}

/// Whether `done` lists the slot of `author` in `round`.
pub fn is_done(done: &Vec<(u64, u64)>, round: u64, author: u64) -> (r: bool)
    ensures
        r == slots_in(done@).contains((round as nat, author)),
{
    let n: usize = done.len();
    let mut i: usize = 0;
    while i < n
        invariant
            n == done.len(),
            0 <= i <= n,
            forall|x: int| 0 <= x < i ==> as_slot(#[trigger] done@[x]) != (round as nat, author),
        decreases n - i,
    {
        if done[i].0 == round && done[i].1 == author {
            assert(as_slot(done@[i as int]) == (round as nat, author));
            return true;
        }
        i = i + 1;
    }
    false
}

/// The lowest round that certificates are still admitted to once the
/// leader of `round` is committed.
pub fn retain_from(round: u64, depth: u64) -> (r: u64)
    requires
        round < u64::MAX,
    ensures
        r == gc_floor(round as nat, depth as nat),
{
    if round >= depth {
        round - depth + 1
    } else {
        0
    }
}

/// The committed slots from `floor` on, once `found` is committed too.
pub fn remark(done: &Vec<(u64, u64)>, found: &Vec<(u64, u64)>, floor: u64) -> (r: Vec<(u64, u64)>)
    ensures
        slots_in(r@) == mark(slots_in(done@), as_slots(found@), floor as nat),
{
    let mut out: Vec<(u64, u64)> = Vec::new();
    let n: usize = done.len();
    let mut i: usize = 0;
    while i < n
        invariant
            n == done.len(),
            0 <= i <= n,
            forall|k: (nat, u64)|
                has_slot(out@, k) <==> k.0 >= floor && has_slot(done@.take(i as int), k),
        decreases n - i,
    {
        let ghost before = out@;
        let e: (u64, u64) = done[i];
        if e.0 >= floor {
            out.push(e);
        }
        proof {
            assert(done@.take(i + 1) =~= done@.take(i as int).push(e));
            assert forall|k: (nat, u64)|
                has_slot(out@, k) <==> k.0 >= floor && has_slot(done@.take(i + 1), k) by {
                lemma_has_slot_push(done@.take(i as int), e, k);
                lemma_has_slot_push(before, e, k);
            }
        }
        i = i + 1;
    }
    assert(done@.take(n as int) =~= done@);
    let m: usize = found.len();
    let mut j: usize = 0;
    while j < m
        invariant
            m == found.len(),
            0 <= j <= m,
            forall|k: (nat, u64)|
                has_slot(out@, k) <==> k.0 >= floor && (has_slot(done@, k) || has_slot(
                    found@.take(j as int),
                    k,
                )),
        decreases m - j,
    {
        let ghost before = out@;
        let e: (u64, u64) = found[j];
        if e.0 >= floor {
            out.push(e);
        }
        proof {
            assert(found@.take(j + 1) =~= found@.take(j as int).push(e));
            assert forall|k: (nat, u64)|
                has_slot(out@, k) <==> k.0 >= floor && (has_slot(done@, k) || has_slot(
                    found@.take(j + 1),
                    k,
                )) by {
                lemma_has_slot_push(found@.take(j as int), e, k);
                lemma_has_slot_push(before, e, k);
            }
        }
        j = j + 1;
    }
    proof {
        assert(found@.take(m as int) =~= found@);
        let target = mark(slots_in(done@), as_slots(found@), floor as nat);
        assert forall|k: (nat, u64)| slots_in(out@).contains(k) == target.contains(k) by {
            lemma_has_slot_listed(found@, k);
        }
        assert(slots_in(out@) =~= target);
    }
    out
}

/// What committing the leader of `round` commits, in order.
pub fn flatten(dag: &Dag, round: u64, done: &Vec<(u64, u64)>, floor: u64) -> (r: Vec<(u64, u64)>)
    requires
        dag.wf(),
    ensures
        as_slots(r@) == sub_dag(
            dag.members(),
            dag@,
            round as nat,
            slots_in(done@),
            floor as nat,
        ),
{
    let lo: u64 = if floor >= 1 {
        floor
    } else {
        1
    };
    let mut out: Vec<(u64, u64)> = Vec::new();
    if lo > round {
        assert(as_slots(out@) =~= Seq::empty());
        return out;
    }
    let committee: &Committee = dag.committee();
    let n: usize = committee.size();
    let lead: u64 = committee.leader(round);
    let ghost members = dag.members();
    let ghost marked = slots_in(done@);
    let mut layers: Vec<Vec<bool>> = Vec::new();
    let mut flags: Vec<bool> = top_layer(dag, round, lead);
    let mut r: u64 = round;
    while r > lo
        invariant
            dag.wf(),
            members == dag.members(),
            1 <= lo <= r <= round,
            layers@.len() == round - r,
            flags_match(flags@, members, layer(dag@, round as nat, lead, r as nat)),
            forall|k: int|
                0 <= k < layers@.len() ==> flags_match(
                    (#[trigger] layers@[k])@,
                    members,
                    layer(dag@, round as nat, lead, (round - k) as nat),
                ),
        decreases r - lo,
    {
        let lower: Vec<bool> = lower_layer(dag, round, lead, r, &flags);
        layers.push(flags);
        flags = lower;
        r = r - 1;
    }
    layers.push(flags);
    let mut k: usize = layers.len();
    assert(as_slots(out@) =~= Seq::empty());
    while k > 0
        invariant
            dag.wf(),
            committee.wf(),
            committee@ == dag.members(),
            members == dag.members(),
            marked == slots_in(done@),
            n == members.len(),
            lead == leader_of(members, round as nat),
            1 <= lo <= round,
            layers@.len() == round - lo + 1,
            0 <= k <= layers@.len(),
            forall|x: int|
                0 <= x < layers@.len() ==> flags_match(
                    (#[trigger] layers@[x])@,
                    members,
                    layer(dag@, round as nat, lead, (round - x) as nat),
                ),
            as_slots(out@) == rows(
                members,
                dag@,
                round as nat,
                lead,
                marked,
                lo as nat,
                (round + 1 - k) as nat,
            ),
        decreases k,
    {
        k = k - 1;
        let here: u64 = round - (k as u64);
        let ghost base = as_slots(out@);
        let mut i: usize = 0;
        while i < n
            invariant
                dag.wf(),
                committee.wf(),
                committee@ == dag.members(),
                members == dag.members(),
                marked == slots_in(done@),
                n == members.len(),
                0 <= k < layers@.len(),
                here == round - k,
                flags_match(
                    layers@[k as int]@,
                    members,
                    layer(dag@, round as nat, lead, here as nat),
                ),
                0 <= i <= n,
                as_slots(out@) == base + row(
                    members,
                    dag@,
                    round as nat,
                    lead,
                    marked,
                    here as nat,
                    i as int,
                ),
            decreases n - i,
        {
            let a: u64 = committee.member(i).id;
            let ghost before = out@;
            proof {
                assert(layers@[k as int]@[i as int] == layer(
                    dag@,
                    round as nat,
                    lead,
                    here as nat,
                )(members[i as int].id));
            }
            if layers[k][i] && !is_done(done, here, a) {
                out.push((here, a));
                proof {
                    assert(as_slots(out@) =~= as_slots(before).push((here as nat, a)));
                    assert(as_slots(out@) =~= base + row(
                        members,
                        dag@,
                        round as nat,
                        lead,
                        marked,
                        here as nat,
                        i + 1,
                    ));
                }
            }
            i = i + 1;
        }
    }
    out
}

/// Appends to `out` a copy of the certificate held in each of `slots`.
fn collect(dag: &Dag, slots: &Vec<(u64, u64)>, out: &mut Vec<Certificate>)
    requires
        dag.wf(),
        forall|i: int| 0 <= i < slots@.len() ==> dag@.contains_key(as_slot(#[trigger] slots@[i])),
    ensures
        views_of(final(out)@) == views_of(old(out)@) + certs_at(dag@, as_slots(slots@)),
{
    let ghost start = views_of(out@);
    let n: usize = slots.len();
    let mut i: usize = 0;
    assert(views_of(out@) =~= start + certs_at(dag@, as_slots(slots@).take(0)));
    while i < n
        invariant
            dag.wf(),
            n == slots.len(),
            0 <= i <= n,
            forall|x: int|
                0 <= x < slots@.len() ==> dag@.contains_key(as_slot(#[trigger] slots@[x])),
            views_of(out@) == start + certs_at(dag@, as_slots(slots@).take(i as int)),
        decreases n - i,
    {
        let ghost before = views_of(out@);
        let s: (u64, u64) = slots[i];
        assert(dag@.contains_key(as_slot(slots@[i as int])));
        match dag.get(s.0, s.1) {
            Some(c) => {
                out.push(c.duplicate());
                proof {
                    assert(views_of(out@) =~= before.push(c@));
                    assert(as_slots(slots@).take(i + 1) =~= as_slots(slots@).take(i as int).push(
                        as_slot(s),
                    ));
                    assert(views_of(out@) =~= start + certs_at(
                        dag@,
                        as_slots(slots@).take(i + 1),
                    ));
                }
            },
            None => {},
        }
        i = i + 1;
    }
    assert(as_slots(slots@).take(n as int) =~= as_slots(slots@));
}

/// A count that stops at the largest number of 64 bits.
pub open spec fn capped_count(n: int) -> int {
    if n <= u64::MAX {
        n
    } else {
        u64::MAX as int
    }
}

/// The consensus core of one authority: its own copy of the DAG, and how
/// far it has ordered it.
pub struct Consensus {
    dag: Dag,
    depth: u64,
    next: u64,
    done: Vec<(u64, u64)>,
    emitted: u64,
}

impl Consensus {
    /// The DAG as far as it is retained.
    pub closed spec fn history(&self) -> Map<(nat, u64), CertificateView> {
        self.dag@
    }

    pub closed spec fn members(&self) -> Seq<Authority> {
        self.dag.members()
    }

    /// The highest round of any certificate admitted so far.
    pub closed spec fn top(&self) -> nat {
        self.dag.highest()
    }

    /// The number of rounds, a committed leader's own counted, whose
    /// certificates are still admitted and may still be committed.
    pub closed spec fn depth(&self) -> nat {
        self.depth as nat
    }

    /// How far the ordering has come.
    pub closed spec fn progress(&self) -> Progress {
        Progress {
            next: self.next as nat,
            floor: self.dag.lowest(),
            done: slots_in(self.done@),
        }
    }

    /// Where the core stands.
    pub open spec fn standing(&self) -> Standing {
        Standing { dag: self.history(), top: self.top(), progress: self.progress() }
    }

    /// The number of certificates committed so far: the place in the
    /// sequence of the next one to be committed.
    pub closed spec fn committed_count(&self) -> int {
        self.emitted as int
    }

    pub closed spec fn rep_ok(&self) -> bool {
        self.dag.wf()
    }

    pub open spec fn wf(&self) -> bool {
        &&& self.rep_ok()
        &&& valid_committee(self.members())
        &&& history_ok(self.members(), self.history(), self.progress().floor)
        &&& bounded(self.history(), self.top())
        &&& 1 <= self.progress().next
        &&& self.progress().floor <= self.progress().next
    }

    /// A consensus core that holds the genesis certificates and has ordered
    /// nothing. There is none unless the genesis certificates are of round
    /// zero, by distinct members and with distinct digests.
    pub fn new(committee: Committee, genesis: Vec<Certificate>, depth: u64) -> (r: Option<
        Consensus,
    >)
        requires
            committee.wf(),
        ensures
            r.is_some() == genesis_ok(committee@, views_of(genesis@)),
            r matches Some(c) ==> {
                &&& c.wf()
                &&& c.members() == committee@
                &&& c.depth() == depth
                &&& c.top() == 0
                &&& c.history() == history_of(views_of(genesis@))
                &&& c.progress().next == 1
                &&& c.progress().floor == 0
                &&& c.progress().done == Set::<(nat, u64)>::empty()
                &&& c.committed_count() == 0
            },
    {
        match Dag::new(committee, genesis) {
            None => None,
            Some(dag) => {
                let c = Consensus { dag, depth, next: 1, done: Vec::new(), emitted: 0 };
                assert(c.progress().done =~= Set::<(nat, u64)>::empty());
                Some(c)
            },
        }
    }

    /// The number of certificates committed so far: the place in the
    /// sequence of the next one to be committed.
    pub fn position(&self) -> (r: u64)
        ensures
            r == self.committed_count(),
    {
        self.emitted
    }

    /// The next round whose leader is to be decided.
    pub fn next_round(&self) -> (r: u64)
        ensures
            r == self.progress().next,
    {
        self.next
    }

    /// The lowest round whose certificates may still be committed.
    pub fn floor(&self) -> (r: u64)
        ensures
            r == self.progress().floor,
    {
        self.dag.floor()
    }

    /// The DAG as this core holds it.
    pub fn dag(&self) -> (r: &Dag)
        requires
            self.wf(),
        ensures
            r.wf(),
            r@ == self.history(),
            r.members() == self.members(),
            r.highest() == self.top(),
            r.lowest() == self.progress().floor,
    {
        &self.dag
    }

    /// Offers a certificate to this core's DAG, which admits it or not as
    /// any DAG does. Nothing is ordered yet.
    pub fn accept(&mut self, cert: Certificate) -> (r: Verdict)
        requires
            old(self).wf(),
        ensures
            final(self).wf(),
            final(self).members() == old(self).members(),
            final(self).depth() == old(self).depth(),
            final(self).progress() == old(self).progress(),
            final(self).committed_count() == old(self).committed_count(),
            r == verdict(old(self).members(), old(self).history(), old(self).progress().floor, cert@),
            r == Verdict::Admit ==> final(self).history() == old(self).history().insert(
                slot_of(cert@),
                cert@,
            ) && final(self).top() == higher(old(self).top(), cert@.header.round as nat),
            r != Verdict::Admit ==> final(self).history() == old(self).history() && final(self).top() == old(self).top(),
    {
        self.dag.insert(cert)
    }

    /// Orders what the DAG decides by now: commits or passes over leader
    /// after leader until one is undecided, gives out what was committed, in
    /// order, and drops from the DAG the rounds that fell below the depth.
    pub fn order(&mut self) -> (out: Vec<Certificate>)
        requires
            old(self).wf(),
        ensures
            final(self).wf(),
            final(self).members() == old(self).members(),
            final(self).depth() == old(self).depth(),
            final(self).top() == old(self).top(),
            final(self).committed_count() == capped_count(old(self).committed_count() + out@.len()),
            ({
                let run = advance(
                    old(self).members(),
                    old(self).depth(),
                    old(self).history(),
                    old(self).top(),
                    old(self).progress(),
                );
                &&& final(self).progress() == run.0
                &&& views_of(out@) == certs_at(old(self).history(), run.1)
                &&& final(self).history() == old(self).history().restrict(
                    from_round(keep_from(run.0.floor)),
                )
            }),
    {
        let ghost begin = self.progress();
        let ghost dag0 = self.dag@;
        let ghost members = self.dag.members();
        let ghost depth = self.depth as nat;
        let ghost peak = self.dag.highest();
        let ghost count0 = self.emitted;
        let top: u64 = self.dag.top();
        let mut out: Vec<Certificate> = Vec::new();
        let mut floor: u64 = self.dag.floor();
        let ghost mut slots: Seq<(nat, u64)> = Seq::empty();
        let mut going: bool = true;
        assert(views_of(out@) =~= certs_at(dag0, slots));
        assert(slots + advance(members, depth, dag0, peak, begin).1 =~= advance(
            members,
            depth,
            dag0,
            peak,
            begin,
        ).1);
        while going
            invariant
                self.dag.wf(),
                self.dag@ == dag0,
                self.dag.members() == members,
                self.dag.highest() == peak,
                self.depth == depth,
                self.emitted == count0,
                top == peak,
                self.dag.lowest() <= floor <= self.next,
                1 <= self.next,
                ({
                    let cur = Progress {
                        next: self.next as nat,
                        floor: floor as nat,
                        done: slots_in(self.done@),
                    };
                    &&& advance(members, depth, dag0, peak, begin).0 == advance(
                        members,
                        depth,
                        dag0,
                        peak,
                        cur,
                    ).0
                    &&& advance(members, depth, dag0, peak, begin).1 == slots + advance(
                        members,
                        depth,
                        dag0,
                        peak,
                        cur,
                    ).1
                    &&& !going ==> advance(members, depth, dag0, peak, cur) == (
                        cur,
                        Seq::<(nat, u64)>::empty(),
                    )
                }),
                views_of(out@) == certs_at(dag0, slots),
            decreases
                    (if self.next <= top {
                        top + 1 - self.next
                    } else {
                        0
                    }),
                    (if going {
                        1int
                    } else {
                        0int
                    }),
        {
            let ghost cur = Progress {
                next: self.next as nat,
                floor: floor as nat,
                done: slots_in(self.done@),
            };
            if self.next > top {
                going = false;
            } else {
                let d: Decision = decide(&self.dag, self.next);
                proof {
                    if self.next + 2 > top {
                        lemma_undecided_near_top(members, dag0, peak, self.next as nat);
                    }
                }
                match d {
                    Decision::Undecided => {
                        going = false;
                    },
                    Decision::Skip => {
                        self.next = self.next + 1;
                        proof {
                            let after = Progress {
                                next: self.next as nat,
                                floor: floor as nat,
                                done: slots_in(self.done@),
                            };
                            assert(after == skipped(cur));
                        }
                    },
                    Decision::Commit => {
                        let found: Vec<(u64, u64)> = flatten(
                            &self.dag,
                            self.next,
                            &self.done,
                            floor,
                        );
                        let ghost fresh_slots = as_slots(found@);
                        proof {
                            lemma_rows_held(
                                members,
                                dag0,
                                self.next as nat,
                                leader_of(members, self.next as nat),
                                slots_in(self.done@),
                                first_round(floor as nat),
                                (self.next + 1) as nat,
                            );
                            assert forall|i: int| 0 <= i < found@.len() implies dag0.contains_key(
                                as_slot(#[trigger] found@[i]),
                            ) by {
                                assert(fresh_slots[i] == as_slot(found@[i]));
                            }
                        }
                        collect(&self.dag, &found, &mut out);
                        let aged: u64 = retain_from(self.next, self.depth);
                        let new_floor: u64 = if aged > floor {
                            aged
                        } else {
                            floor
                        };
                        let marked: Vec<(u64, u64)> = remark(&self.done, &found, new_floor);
                        self.done = marked;
                        floor = new_floor;
                        self.next = self.next + 1;
                        proof {
                            let after = Progress {
                                next: self.next as nat,
                                floor: floor as nat,
                                done: slots_in(self.done@),
                            };
                            assert(after == committed(members, depth, dag0, cur));
                            let rest = advance(members, depth, dag0, peak, after);
                            assert(advance(members, depth, dag0, peak, cur).1 == fresh_slots
                                + rest.1);
                            assert(slots + (fresh_slots + rest.1) =~= (slots + fresh_slots)
                                + rest.1);
                            assert(certs_at(dag0, slots) + certs_at(dag0, fresh_slots)
                                =~= certs_at(dag0, slots + fresh_slots));
                            slots = slots + fresh_slots;
                        }
                    },
                }
            }
        }
        proof {
            assert(slots + Seq::<(nat, u64)>::empty() =~= slots);
        }
        self.dag.prune(floor);
        let count: u64 = out.len() as u64;
        self.emitted = if self.emitted > u64::MAX - count {
            u64::MAX
        } else {
            self.emitted + count
        };
        out
    }

    /// Takes a certificate from the DAG core: admits it to this core's DAG
    /// if it can be admitted, and then orders what the DAG decides by now.
    /// A certificate that is not admitted changes nothing and commits
    /// nothing.
    pub fn process_certificate(&mut self, cert: Certificate) -> (r: (Verdict, Vec<Certificate>))
        requires
            old(self).wf(),
        ensures
            final(self).wf(),
            final(self).members() == old(self).members(),
            final(self).depth() == old(self).depth(),
            r.0 == verdict(
                old(self).members(),
                old(self).history(),
                old(self).progress().floor,
                cert@,
            ),
            r.0 != Verdict::Admit ==> {
                &&& r.1@.len() == 0
                &&& final(self).history() == old(self).history()
                &&& final(self).top() == old(self).top()
                &&& final(self).progress() == old(self).progress()
            },
            final(self).committed_count() == capped_count(old(self).committed_count() + r.1@.len()),
            final(self).standing() == delivered(
                old(self).members(),
                old(self).depth(),
                old(self).standing(),
                cert@,
            ).0,
            views_of(r.1@) == certs_at(
                old(self).history().insert(slot_of(cert@), cert@),
                delivered(old(self).members(), old(self).depth(), old(self).standing(), cert@).1,
            ),
            r.0 == Verdict::Admit ==> ({
                let dag = old(self).history().insert(slot_of(cert@), cert@);
                let top = higher(old(self).top(), cert@.header.round as nat);
                let run = advance(old(self).members(), old(self).depth(), dag, top, old(self).progress());
                &&& final(self).top() == top
                &&& final(self).progress() == run.0
                &&& views_of(r.1@) == certs_at(dag, run.1)
                &&& final(self).history() == dag.restrict(from_round(keep_from(run.0.floor)))
            }),
    {
        let v: Verdict = self.accept(cert);
        if v != Verdict::Admit {
            let none: Vec<Certificate> = Vec::new();
            assert(views_of(none@) =~= Seq::<CertificateView>::empty());
            return (v, none);
        }
        let out: Vec<Certificate> = self.order();
        (v, out)
    }
}

} // verus!
