//! The certificate DAG: at most one certificate for each author and round,
//! every certificate that may still be admitted resting on parents that
//! are already held.

use vstd::prelude::*;
use crate::committee::{
    Authority, Committee, is_member, lemma_weight_bounds, lemma_weight_monotone, listed,
    quorum_threshold, valid_committee, weight, weight_upto,
};
use crate::types::{Certificate, CertificateView, Digest, has_digest};

verus! {

/// The place of a certificate in the DAG: its round and its author.
pub open spec fn slot_of(c: CertificateView) -> (nat, u64) {
    (c.header.round as nat, c.header.author)
}

/// The DAG that a list of certificates spells out, later entries winning
/// over earlier ones of the same slot.
pub open spec fn history_of(certs: Seq<CertificateView>) -> Map<(nat, u64), CertificateView>
    decreases certs.len(),
{
    if certs.len() == 0 {
        Map::empty()
    } else {
        history_of(certs.drop_last()).insert(slot_of(certs.last()), certs.last())
    }
}

pub open spec fn views_of(certs: Seq<Certificate>) -> Seq<CertificateView> {
    Seq::new(certs.len(), |i: int| certs[i]@)
}

pub open spec fn distinct_slots(certs: Seq<CertificateView>) -> bool {
    forall|i: int, j: int|
        0 <= i < j < certs.len() ==> slot_of(#[trigger] certs[i]) != slot_of(#[trigger] certs[j])
}

pub proof fn lemma_history_contains(certs: Seq<CertificateView>, k: (nat, u64))
    ensures
        history_of(certs).contains_key(k) <==> exists|i: int|
            0 <= i < certs.len() && slot_of(#[trigger] certs[i]) == k,
    decreases certs.len(),
{
    if certs.len() > 0 {
        let front = certs.drop_last();
        lemma_history_contains(front, k);
        if history_of(certs).contains_key(k) {
            if slot_of(certs.last()) == k {
                assert(slot_of(certs[certs.len() - 1]) == k);
            } else {
                let i = choose|i: int| 0 <= i < front.len() && slot_of(#[trigger] front[i]) == k;
                assert(slot_of(certs[i]) == k);
            }
        }
        if exists|i: int| 0 <= i < certs.len() && slot_of(#[trigger] certs[i]) == k {
            let i = choose|i: int| 0 <= i < certs.len() && slot_of(#[trigger] certs[i]) == k;
            if i < certs.len() - 1 {
                assert(slot_of(front[i]) == k);
            }
        }
    }
}

pub proof fn lemma_history_at(certs: Seq<CertificateView>, i: int)
    requires
        distinct_slots(certs),
        0 <= i < certs.len(),
    ensures
        history_of(certs).contains_key(slot_of(certs[i])),
        history_of(certs)[slot_of(certs[i])] == certs[i],
    decreases certs.len(),
{
    let front = certs.drop_last();
    if i < certs.len() - 1 {
        assert forall|a: int, b: int| 0 <= a < b < front.len() implies slot_of(
            #[trigger] front[a],
        ) != slot_of(#[trigger] front[b]) by {
            assert(front[a] == certs[a] && front[b] == certs[b]);
        }
        lemma_history_at(front, i);
        assert(front[i] == certs[i]);
        assert(slot_of(certs[i]) != slot_of(certs[certs.len() - 1]));
    }
}

/// Whether some certificate of `round` bears the digest `d`.
pub open spec fn digest_used(dag: Map<(nat, u64), CertificateView>, round: nat, d: Digest) -> bool {
    exists|b: u64| #[trigger] dag.contains_key((round, b)) && dag[(round, b)].header.digest == d
}

/// Whether every digest of `parents` names a certificate of the round
/// before `round`.
pub open spec fn parents_known(
    dag: Map<(nat, u64), CertificateView>,
    round: nat,
    parents: Seq<Digest>,
) -> bool {
    round >= 1 && forall|j: int|
        0 <= j < parents.len() ==> digest_used(dag, (round - 1) as nat, #[trigger] parents[j])
}

/// The authors whose certificate of the round before `round` is among
/// `parents`.
pub open spec fn cites(dag: Map<(nat, u64), CertificateView>, round: nat, parents: Seq<Digest>)
    -> spec_fn(u64) -> bool {
    |b: u64|
        round >= 1 && dag.contains_key(((round - 1) as nat, b)) && parents.contains(
            dag[((round - 1) as nat, b)].header.digest,
        )
}

/// The authors that have a certificate of `round`.
pub open spec fn present_in(dag: Map<(nat, u64), CertificateView>, round: nat) -> spec_fn(
    u64,
) -> bool {
    |a: u64| dag.contains_key((round, a))
}

/// The digests among the first `n` of `parents` that name no certificate of
/// the round before `round`, in the order of the list.
pub open spec fn unknown_parents(
    dag: Map<(nat, u64), CertificateView>,
    round: nat,
    parents: Seq<Digest>,
    n: int,
) -> Seq<Digest>
    decreases n,
{
    if n <= 0 {
        Seq::empty()
    } else if digest_used(dag, (round - 1) as nat, parents[n - 1]) {
        unknown_parents(dag, round, parents, n - 1)
    } else {
        unknown_parents(dag, round, parents, n - 1).push(parents[n - 1])
    }
}

/// The digests of the certificates that the first `n` members have for
/// `round`, in the order of the committee.
pub open spec fn round_digests(
    members: Seq<Authority>,
    dag: Map<(nat, u64), CertificateView>,
    round: nat,
    n: int,
) -> Seq<Digest>
    decreases n,
{
    if n <= 0 {
        Seq::empty()
    } else if dag.contains_key((round, members[n - 1].id)) {
        round_digests(members, dag, round, n - 1).push(
            dag[(round, members[n - 1].id)].header.digest,
        )
    } else {
        round_digests(members, dag, round, n - 1)
    }
}

/// The certificates of `certs` whose round is at least `floor`, in the order
/// of the list.
pub open spec fn retained(certs: Seq<CertificateView>, floor: nat) -> Seq<CertificateView>
    decreases certs.len(),
{
    if certs.len() == 0 {
        Seq::empty()
    } else if certs.last().header.round >= floor {
        retained(certs.drop_last(), floor).push(certs.last())
    } else {
        retained(certs.drop_last(), floor)
    }
}

/// The lowest round that is retained when `floor` is the lowest round that
/// certificates are admitted to: the round before, which holds the parents
/// of the certificates of `floor`.
pub open spec fn keep_from(floor: nat) -> nat {
    if floor >= 1 {
        (floor - 1) as nat
    } else {
        0
    }
}

/// The slots of the rounds from `floor` on.
pub open spec fn from_round(floor: nat) -> Set<(nat, u64)> {
    Set::new(|k: (nat, u64)| k.0 >= floor)
}

proof fn lemma_retained_members(certs: Seq<CertificateView>, floor: nat)
    ensures
        forall|j: int|
            0 <= j < retained(certs, floor).len() ==> (#[trigger] retained(
                certs,
                floor,
            )[j]).header.round >= floor && certs.contains(retained(certs, floor)[j]),
        forall|i: int|
            0 <= i < certs.len() && (#[trigger] certs[i]).header.round >= floor ==> retained(
                certs,
                floor,
            ).contains(certs[i]),
    decreases certs.len(),
{
    if certs.len() > 0 {
        let front = certs.drop_last();
        let kept = retained(certs, floor);
        let before = retained(front, floor);
        lemma_retained_members(front, floor);
        assert forall|j: int| 0 <= j < kept.len() implies (#[trigger] kept[j]).header.round >= floor
            && certs.contains(kept[j]) by {
            if j < before.len() {
                assert(kept[j] == before[j]);
                assert(front.contains(before[j]));
                let i = choose|i: int| 0 <= i < front.len() && front[i] == before[j];
                assert(certs[i] == kept[j]);
            } else {
                assert(certs[certs.len() - 1] == kept[j]);
            }
        }
        assert forall|i: int|
            0 <= i < certs.len() && (#[trigger] certs[i]).header.round >= floor implies kept.contains(
            certs[i],
        ) by {
            if i < certs.len() - 1 {
                assert(front[i] == certs[i]);
                assert(before.contains(front[i]));
                let j = choose|j: int| 0 <= j < before.len() && before[j] == front[i];
                assert(kept[j] == certs[i]);
            } else {
                assert(kept[kept.len() - 1] == certs[i]);
            }
        }
    }
}

proof fn lemma_retained_distinct(certs: Seq<CertificateView>, floor: nat)
    requires
        distinct_slots(certs),
    ensures
        distinct_slots(retained(certs, floor)),
    decreases certs.len(),
{
    if certs.len() > 0 {
        let front = certs.drop_last();
        let kept = retained(certs, floor);
        let before = retained(front, floor);
        assert forall|a: int, b: int| 0 <= a < b < front.len() implies slot_of(
            #[trigger] front[a],
        ) != slot_of(#[trigger] front[b]) by {
            assert(front[a] == certs[a] && front[b] == certs[b]);
        }
        lemma_retained_distinct(front, floor);
        lemma_retained_members(front, floor);
        assert forall|a: int, b: int| 0 <= a < b < kept.len() implies slot_of(#[trigger] kept[a])
            != slot_of(#[trigger] kept[b]) by {
            if b < before.len() {
                assert(kept[a] == before[a] && kept[b] == before[b]);
            } else {
                assert(kept[a] == before[a]);
                assert(front.contains(before[a]));
                let i = choose|i: int| 0 <= i < front.len() && front[i] == before[a];
                assert(certs[i] == kept[a]);
                assert(certs[certs.len() - 1] == kept[b]);
            }
        }
    }
}

/// What is retained of a list is of a round from `floor` on, and was in the
/// list.
pub proof fn lemma_retained_listed(certs: Seq<CertificateView>, floor: nat)
    ensures
        forall|j: int|
            0 <= j < retained(certs, floor).len() ==> (#[trigger] retained(
                certs,
                floor,
            )[j]).header.round >= floor && certs.contains(retained(certs, floor)[j]),
{
    lemma_retained_members(certs, floor);
}

/// Dropping the certificates below `floor` from the list restricts the DAG
/// to the rounds from `floor` on.
proof fn lemma_retained_history(certs: Seq<CertificateView>, floor: nat)
    requires
        distinct_slots(certs),
    ensures
        history_of(retained(certs, floor)) == history_of(certs).restrict(from_round(floor)),
{
    let kept = retained(certs, floor);
    let a = history_of(kept);
    let b = history_of(certs).restrict(from_round(floor));
    lemma_retained_members(certs, floor);
    lemma_retained_distinct(certs, floor);
    assert forall|k: (nat, u64)| #[trigger] a.dom().contains(k) implies b.dom().contains(k)
        && a[k] == b[k] by {
        lemma_history_contains(kept, k);
        let j = choose|j: int| 0 <= j < kept.len() && slot_of(#[trigger] kept[j]) == k;
        assert(kept[j].header.round >= floor);
        lemma_history_at(kept, j);
        assert(certs.contains(kept[j]));
        let i = choose|i: int| 0 <= i < certs.len() && certs[i] == kept[j];
        lemma_history_at(certs, i);
        assert(from_round(floor).contains(k));
    }
    assert forall|k: (nat, u64)| #[trigger] b.dom().contains(k) implies a.dom().contains(k) by {
        assert(history_of(certs).contains_key(k));
        assert(from_round(floor).contains(k));
        lemma_history_contains(certs, k);
        let i = choose|i: int| 0 <= i < certs.len() && slot_of(#[trigger] certs[i]) == k;
        assert(certs[i].header.round >= floor);
        assert(kept.contains(certs[i]));
        let j = choose|j: int| 0 <= j < kept.len() && kept[j] == certs[i];
        lemma_history_at(kept, j);
    }
    assert(a =~= b);
}

/// A certificate is certified when the authorities that voted for it hold a
/// quorum of stake.
pub open spec fn certified(members: Seq<Authority>, c: CertificateView) -> bool {
    weight(members, listed(c.votes)) >= quorum_threshold(members)
}

/// A parent list is grounded in the DAG when each parent is held and the
/// parents' authors hold a quorum of stake.
pub open spec fn grounded(
    members: Seq<Authority>,
    dag: Map<(nat, u64), CertificateView>,
    round: nat,
    parents: Seq<Digest>,
) -> bool {
    &&& parents_known(dag, round, parents)
    &&& weight(members, cites(dag, round, parents)) >= quorum_threshold(members)
}

/// What holds of every DAG that this library builds, with `floor` the lowest
/// round that is still retained.
pub open spec fn history_ok(
    members: Seq<Authority>,
    dag: Map<(nat, u64), CertificateView>,
    floor: nat,
) -> bool {
    &&& forall|k: (nat, u64)| #[trigger]
        dag.contains_key(k) ==> {
            &&& slot_of(dag[k]) == k
            &&& is_member(members, k.1)
            &&& k.0 >= keep_from(floor)
            &&& k.0 >= 1 ==> certified(members, dag[k])
            &&& k.0 >= 1 && k.0 >= floor ==> grounded(members, dag, k.0, dag[k].header.parents)
        }
    &&& forall|r: nat, a: u64, b: u64|
        #[trigger] dag.contains_key((r, a)) && #[trigger] dag.contains_key((r, b)) && dag[(
            r,
            a,
        )].header.digest == dag[(r, b)].header.digest ==> a == b
}

/// Genesis certificates are of round zero, by distinct members, with
/// distinct digests.
pub open spec fn genesis_ok(members: Seq<Authority>, genesis: Seq<CertificateView>) -> bool {
    &&& forall|i: int|
        0 <= i < genesis.len() ==> (#[trigger] genesis[i]).header.round == 0 && is_member(
            members,
            genesis[i].header.author,
        )
    &&& forall|i: int, j: int|
        0 <= i < j < genesis.len() ==> (#[trigger] genesis[i]).header.author != (
        #[trigger] genesis[j]).header.author && genesis[i].header.digest
            != genesis[j].header.digest
}

/// What becomes of a certificate that is offered to the DAG.
#[derive(Clone, Copy, PartialEq, Eq, Structural, Debug)]
pub enum Verdict {
    /// It joins the DAG.
    Admit,
    /// Its round is zero or lies below the lowest round that certificates
    /// are admitted to.
    Stale,
    /// Its author is no member of the committee.
    UnknownAuthority,
    /// The DAG already holds it.
    Duplicate,
    /// The DAG holds another certificate of the same author and round.
    Equivocation,
    /// Another author's certificate of the same round bears its digest.
    DigestClash,
    /// Its voters hold less than a quorum of stake.
    NoQuorum,
    /// Some of its parents are not held yet.
    MissingParents,
    /// Its parents' authors hold less than a quorum of stake.
    WeakParents,
}

/// The verdict on a certificate, the first that applies in this order:
/// stale, stranger, duplicate or equivocation, digest clash, no quorum,
/// missing parents, weak parents; else it is admitted.
pub open spec fn verdict(
    members: Seq<Authority>,
    dag: Map<(nat, u64), CertificateView>,
    floor: nat,
    c: CertificateView,
) -> Verdict {
    let k = slot_of(c);
    if k.0 == 0 || k.0 < floor {
        Verdict::Stale
    } else if !is_member(members, k.1) {
        Verdict::UnknownAuthority
    } else if dag.contains_key(k) {
        if dag[k].header.digest == c.header.digest {
            Verdict::Duplicate
        } else {
            Verdict::Equivocation
        }
    } else if digest_used(dag, k.0, c.header.digest) {
        Verdict::DigestClash
    } else if !certified(members, c) {
        Verdict::NoQuorum
    } else if !parents_known(dag, k.0, c.header.parents) {
        Verdict::MissingParents
    } else if weight(members, cites(dag, k.0, c.header.parents)) < quorum_threshold(members) {
        Verdict::WeakParents
    } else {
        Verdict::Admit
    }
}

/// The DAG of one authority.
pub struct Dag {
    committee: Committee,
    certs: Vec<Certificate>,
    floor: u64,
    top: u64,
}

impl View for Dag {
    type V = Map<(nat, u64), CertificateView>;

    closed spec fn view(&self) -> Map<(nat, u64), CertificateView> {
        history_of(views_of(self.certs@))
    }
}

impl Dag {
    /// The committee that the DAG was made for.
    pub closed spec fn members(&self) -> Seq<Authority> {
        self.committee@
    }

    /// The lowest round that certificates are still admitted to. The round
    /// before it is retained too: it holds their parents.
    pub closed spec fn lowest(&self) -> nat {
        self.floor as nat
    }

    /// The highest round of any certificate admitted so far.
    pub closed spec fn highest(&self) -> nat {
        self.top as nat
    }

    pub closed spec fn rep_ok(&self) -> bool {
        &&& self.committee.wf()
        &&& distinct_slots(views_of(self.certs@))
    }

    pub open spec fn wf(&self) -> bool {
        &&& self.rep_ok()
        &&& valid_committee(self.members())
        &&& history_ok(self.members(), self@, self.lowest())
        &&& forall|k: (nat, u64)| #[trigger] self@.contains_key(k) ==> k.0 <= self.highest()
    }

    /// A DAG that holds the genesis certificates and nothing else. There is
    /// none unless they are of round zero, by distinct members and with
    /// distinct digests.
    pub fn new(committee: Committee, genesis: Vec<Certificate>) -> (r: Option<Dag>)
        requires
            committee.wf(),
        ensures
            r.is_some() == genesis_ok(committee@, views_of(genesis@)),
            r matches Some(d) ==> {
                &&& d.wf()
                &&& d@ == history_of(views_of(genesis@))
                &&& d.members() == committee@
                &&& d.lowest() == 0
                &&& d.highest() == 0
            },
    {
        let ghost g = views_of(genesis@);
        let n: usize = genesis.len();
        let mut i: usize = 0;
        while i < n
            invariant
                committee.wf(),
                n == genesis.len(),
                g == views_of(genesis@),
                0 <= i <= n,
                forall|a: int|
                    0 <= a < i ==> (#[trigger] g[a]).header.round == 0 && is_member(
                        committee@,
                        g[a].header.author,
                    ),
                forall|a: int, b: int|
                    0 <= a < b < i ==> (#[trigger] g[a]).header.author != (
                    #[trigger] g[b]).header.author && g[a].header.digest != g[b].header.digest,
            decreases n - i,
        {
            assert(g[i as int] == genesis[i as int]@);
            if genesis[i].header.round != 0 || !committee.contains(genesis[i].header.author) {
                return None;
            }
            let mut j: usize = 0;
            while j < i
                invariant
                    n == genesis.len(),
                    g == views_of(genesis@),
                    0 <= j <= i < n,
                    forall|a: int|
                        0 <= a < j ==> (#[trigger] g[a]).header.author != g[i as int].header.author
                            && g[a].header.digest != g[i as int].header.digest,
                decreases i - j,
            {
                assert(g[j as int] == genesis[j as int]@);
                assert(g[i as int] == genesis[i as int]@);
                if genesis[j].header.author == genesis[i].header.author || genesis[j].header.digest
                    == genesis[i].header.digest {
                    return None;
                }
                j = j + 1;
            }
            i = i + 1;
        }
        let d = Dag { committee, certs: genesis, floor: 0, top: 0 };
        proof {
            assert forall|k: (nat, u64)| #[trigger] d@.contains_key(k) implies slot_of(d@[k]) == k
                && is_member(d.members(), k.1) && k.0 == 0 by {
                lemma_history_contains(g, k);
                let a = choose|a: int| 0 <= a < g.len() && slot_of(#[trigger] g[a]) == k;
                lemma_history_at(g, a);
            }
            assert forall|r: nat, a: u64, b: u64|
                #[trigger] d@.contains_key((r, a)) && #[trigger] d@.contains_key((r, b)) && d@[(
                    r,
                    a,
                )].header.digest == d@[(r, b)].header.digest implies a == b by {
                lemma_history_contains(g, (r, a));
                lemma_history_contains(g, (r, b));
                let x = choose|x: int| 0 <= x < g.len() && slot_of(#[trigger] g[x]) == (r, a);
                let y = choose|y: int| 0 <= y < g.len() && slot_of(#[trigger] g[y]) == (r, b);
                lemma_history_at(g, x);
                lemma_history_at(g, y);
            }
        }
        Some(d)
    }

    /// The lowest round that certificates are still admitted to.
    pub fn floor(&self) -> (r: u64)
        ensures
            r == self.lowest(),
    {
        self.floor
    }

    /// The highest round of any certificate admitted so far.
    pub fn top(&self) -> (r: u64)
        ensures
            r == self.highest(),
    {
        self.top
    }

    pub fn committee(&self) -> (r: &Committee)
        requires
            self.wf(),
        ensures
            r.wf(),
            r@ == self.members(),
    {
        &self.committee
    }

    /// Number of certificates held.
    pub fn len(&self) -> (r: usize)
        requires
            self.wf(),
        ensures
            r == self@.dom().len(),
    {
        proof {
            lemma_history_len(views_of(self.certs@));
        }
        self.certs.len()
    }

    /// The certificate of `author` for `round`, if the DAG holds one.
    pub fn get(&self, round: u64, author: u64) -> (r: Option<&Certificate>)
        requires
            self.wf(),
        ensures
            r.is_some() == self@.contains_key((round as nat, author)),
            r matches Some(c) ==> c@ == self@[(round as nat, author)],
    {
        let ghost g = views_of(self.certs@);
        let n: usize = self.certs.len();
        let mut i: usize = 0;
        while i < n
            invariant
                self.wf(),
                n == self.certs.len(),
                g == views_of(self.certs@),
                0 <= i <= n,
                forall|a: int| 0 <= a < i ==> slot_of(#[trigger] g[a]) != (round as nat, author),
            decreases n - i,
        {
            assert(g[i as int] == self.certs[i as int]@);
            if self.certs[i].header.round == round && self.certs[i].header.author == author {
                proof {
                    lemma_history_at(g, i as int);
                }
                return Some(&self.certs[i]);
            }
            i = i + 1;
        }
        proof {
            lemma_history_contains(g, (round as nat, author));
        }
        None
    }

    /// The certificate of `round` that bears `digest`, if the DAG holds one.
    pub fn find(&self, round: u64, digest: Digest) -> (r: Option<&Certificate>)
        requires
            self.wf(),
        ensures
            r.is_some() == digest_used(self@, round as nat, digest),
            r matches Some(c) ==> {
                &&& c@.header.round == round
                &&& c@.header.digest == digest
                &&& self@.contains_key(slot_of(c@))
                &&& self@[slot_of(c@)] == c@
            },
    {
        let ghost g = views_of(self.certs@);
        let n: usize = self.certs.len();
        let mut i: usize = 0;
        while i < n
            invariant
                self.wf(),
                n == self.certs.len(),
                g == views_of(self.certs@),
                0 <= i <= n,
                forall|a: int|
                    0 <= a < i ==> !((#[trigger] g[a]).header.round == round
                        && g[a].header.digest == digest),
            decreases n - i,
        {
            assert(g[i as int] == self.certs[i as int]@);
            if self.certs[i].header.round == round && self.certs[i].header.digest == digest {
                proof {
                    lemma_history_at(g, i as int);
                }
                return Some(&self.certs[i]);
            }
            i = i + 1;
        }
        proof {
            if digest_used(self@, round as nat, digest) {
                let b = choose|b: u64| #[trigger]
                    self@.contains_key((round as nat, b)) && self@[(
                        round as nat,
                        b,
                    )].header.digest == digest;
                lemma_history_contains(g, (round as nat, b));
                let a = choose|a: int|
                    0 <= a < g.len() && slot_of(#[trigger] g[a]) == (round as nat, b);
                lemma_history_at(g, a);
            }
        }
        None
    }

    /// Combined stake of the authors that have a certificate of `round`.
    pub fn round_weight(&self, round: u64) -> (r: u64)
        requires
            self.wf(),
        ensures
            r == weight(self.members(), present_in(self@, round as nat)),
    {
        let n: usize = self.committee.size();
        let mut acc: u64 = 0;
        let mut i: usize = 0;
        while i < n
            invariant
                self.wf(),
                n == self.members().len(),
                0 <= i <= n,
                acc == weight_upto(self.members(), present_in(self@, round as nat), i as int),
            decreases n - i,
        {
            proof {
                lemma_weight_bounds(self.members(), present_in(self@, round as nat), i + 1);
            }
            let m: Authority = self.committee.member(i);
            if self.get(round, m.id).is_some() {
                acc = acc + m.stake;
            }
            i = i + 1;
        }
        acc
    }

    /// Whether the certificates held for `round` cover a quorum of stake.
    pub fn is_closed(&self, round: u64) -> (r: bool)
        requires
            self.wf(),
        ensures
            r == (weight(self.members(), present_in(self@, round as nat)) >= quorum_threshold(
                self.members(),
            )),
    {
        self.round_weight(round) >= self.committee.quorum_threshold()
    }

    /// The digests of the certificates held for `round`, in the order of the
    /// committee: the parents for a header of the next round.
    pub fn digests_of(&self, round: u64) -> (r: Vec<Digest>)
        requires
            self.wf(),
        ensures
            r@ == round_digests(
                self.members(),
                self@,
                round as nat,
                self.members().len() as int,
            ),
    {
        let n: usize = self.committee.size();
        let mut out: Vec<Digest> = Vec::new();
        let mut i: usize = 0;
        while i < n
            invariant
                self.wf(),
                n == self.members().len(),
                0 <= i <= n,
                out@ == round_digests(self.members(), self@, round as nat, i as int),
            decreases n - i,
        {
            match self.get(round, self.committee.member(i).id) {
                Some(c) => {
                    out.push(c.header.digest);
                },
                None => {},
            }
            i = i + 1;
        }
        out
    }

    /// Combined stake of the authors whose certificate of the round before
    /// `round` is among `parents`.
    pub fn parent_weight(&self, round: u64, parents: &Vec<Digest>) -> (r: u64)
        requires
            self.wf(),
        ensures
            r == weight(self.members(), cites(self@, round as nat, parents@)),
    {
        let n: usize = self.committee.size();
        let mut acc: u64 = 0;
        let mut i: usize = 0;
        while i < n
            invariant
                self.wf(),
                n == self.members().len(),
                0 <= i <= n,
                acc == weight_upto(
                    self.members(),
                    cites(self@, round as nat, parents@),
                    i as int,
                ),
            decreases n - i,
        {
            proof {
                lemma_weight_bounds(self.members(), cites(self@, round as nat, parents@), i + 1);
            }
            let m: Authority = self.committee.member(i);
            if round >= 1 {
                match self.get(round - 1, m.id) {
                    Some(c) => {
                        if has_digest(parents, c.header.digest) {
                            acc = acc + m.stake;
                        }
                    },
                    None => {},
                }
            }
            i = i + 1;
        }
        acc
    }

    /// Whether every digest of `parents` names a certificate of the round
    /// before `round`.
    pub fn knows_parents(&self, round: u64, parents: &Vec<Digest>) -> (r: bool)
        requires
            self.wf(),
        ensures
            r == parents_known(self@, round as nat, parents@),
    {
        if round == 0 {
            return false;
        }
        let n: usize = parents.len();
        let mut j: usize = 0;
        while j < n
            invariant
                self.wf(),
                round >= 1,
                n == parents.len(),
                0 <= j <= n,
                forall|x: int|
                    0 <= x < j ==> digest_used(self@, (round - 1) as nat, #[trigger] parents@[x]),
            decreases n - j,
        {
            if self.find(round - 1, parents[j]).is_none() {
                return false;
            }
            j = j + 1;
        }
        true
    }

    /// The digests of `parents` that name no certificate of the round before
    /// `round`: what has to be fetched before a certificate with these
    /// parents can be admitted.
    pub fn missing_parents(&self, round: u64, parents: &Vec<Digest>) -> (r: Vec<Digest>)
        requires
            self.wf(),
            round >= 1,
        ensures
            r@ == unknown_parents(self@, round as nat, parents@, parents@.len() as int),
    {
        let n: usize = parents.len();
        let mut out: Vec<Digest> = Vec::new();
        let mut j: usize = 0;
        while j < n
            invariant
                self.wf(),
                round >= 1,
                n == parents.len(),
                0 <= j <= n,
                out@ == unknown_parents(self@, round as nat, parents@, j as int),
            decreases n - j,
        {
            if self.find(round - 1, parents[j]).is_none() {
                out.push(parents[j]);
            }
            j = j + 1;
        }
        out
    }

    /// The verdict that `insert` would reach on `cert`.
    pub fn examine(&self, cert: &Certificate) -> (r: Verdict)
        requires
            self.wf(),
        ensures
            r == verdict(self.members(), self@, self.lowest(), cert@),
    {
        let round: u64 = cert.header.round;
        let author: u64 = cert.header.author;
        if round == 0 || round < self.floor {
            return Verdict::Stale;
        }
        if !self.committee.contains(author) {
            return Verdict::UnknownAuthority;
        }
        match self.get(round, author) {
            Some(held) => {
                if held.header.digest == cert.header.digest {
                    return Verdict::Duplicate;
                } else {
                    return Verdict::Equivocation;
                }
            },
            None => {},
        }
        if self.find(round, cert.header.digest).is_some() {
            return Verdict::DigestClash;
        }
        if self.committee.listed_weight(&cert.votes) < self.committee.quorum_threshold() {
            return Verdict::NoQuorum;
        }
        if !self.knows_parents(round, &cert.header.parents) {
            return Verdict::MissingParents;
        }
        if self.parent_weight(round, &cert.header.parents) < self.committee.quorum_threshold() {
            return Verdict::WeakParents;
        }
        Verdict::Admit
    }

    /// Offers a certificate to the DAG. It joins the DAG exactly when the
    /// verdict is `Admit`; on any other verdict the DAG stays as it was.
    pub fn insert(&mut self, cert: Certificate) -> (r: Verdict)
        requires
            old(self).wf(),
        ensures
            final(self).wf(),
            final(self).members() == old(self).members(),
            final(self).lowest() == old(self).lowest(),
            r == verdict(old(self).members(), old(self)@, old(self).lowest(), cert@),
            r == Verdict::Admit ==> final(self)@ == old(self)@.insert(slot_of(cert@), cert@)
                && final(self).highest() == if cert@.header.round > old(self).highest() {
                cert@.header.round as nat
            } else {
                old(self).highest()
            },
            r != Verdict::Admit ==> final(self)@ == old(self)@ && final(self).highest() == old(self).highest(),
    {
        let r: Verdict = self.examine(&cert);
        if r != Verdict::Admit {
            return r;
        }
        let ghost before = views_of(self.certs@);
        let ghost dag0 = self@;
        let ghost c = cert@;
        let ghost k = slot_of(c);
        let ghost members = self.members();
        let ghost floor = self.lowest();
        if cert.header.round > self.top {
            self.top = cert.header.round;
        }
        self.certs.push(cert);
        proof {
            let after = views_of(self.certs@);
            assert(after =~= before.push(c));
            assert(after.drop_last() =~= before);
            let dag1 = self@;
            assert(dag1 == dag0.insert(k, c));
            lemma_history_contains(before, k);
            assert forall|i: int, j: int| 0 <= i < j < after.len() implies slot_of(
                #[trigger] after[i],
            ) != slot_of(#[trigger] after[j]) by {
                assert(after[i] == before[i]);
                if j < before.len() {
                    assert(after[j] == before[j]);
                }
            }
            lemma_insert_keeps_history_ok(members, dag0, floor, c);
        }
        Verdict::Admit
    }

    /// Makes `round` the lowest round that certificates are admitted to,
    /// unless that already is higher, and drops every certificate of a
    /// round more than one below: the round before stays, for the parents.
    pub fn prune(&mut self, round: u64)
        requires
            old(self).wf(),
        ensures
            final(self).wf(),
            final(self).members() == old(self).members(),
            final(self).highest() == old(self).highest(),
            final(self).lowest() == if round > old(self).lowest() {
                round as nat
            } else {
                old(self).lowest()
            },
            final(self)@ == old(self)@.restrict(from_round(keep_from(round as nat))),
    {
        let ghost g = views_of(self.certs@);
        let ghost dag0 = self@;
        let ghost members = self.members();
        let ghost floor0 = self.lowest();
        if round <= self.floor {
            assert(dag0 =~= dag0.restrict(from_round(keep_from(round as nat))));
            return ;
        }
        let keep: u64 = round - 1;
        let n: usize = self.certs.len();
        let mut kept: Vec<Certificate> = Vec::new();
        let mut i: usize = 0;
        while i < n
            invariant
                n == self.certs.len(),
                g == views_of(self.certs@),
                0 <= i <= n,
                views_of(kept@) == retained(g.subrange(0, i as int), keep as nat),
            decreases n - i,
        {
            proof {
                assert(g.subrange(0, i + 1).drop_last() =~= g.subrange(0, i as int));
                assert(g.subrange(0, i + 1).last() == self.certs[i as int]@);
            }
            let ghost kept0 = views_of(kept@);
            if self.certs[i].header.round >= keep {
                kept.push(self.certs[i].duplicate());
                assert(views_of(kept@) =~= kept0.push(self.certs[i as int]@));
            }
            i = i + 1;
        }
        self.certs = kept;
        self.floor = round;
        proof {
            assert(g.subrange(0, n as int) =~= g);
            lemma_retained_distinct(g, keep as nat);
            lemma_retained_history(g, keep as nat);
            lemma_restrict_keeps_history_ok(members, dag0, floor0, round as nat);
        }
    }
}

/// Admitting a certificate keeps the DAG in order.
pub proof fn lemma_insert_keeps_history_ok(
    members: Seq<Authority>,
    dag: Map<(nat, u64), CertificateView>,
    floor: nat,
    c: CertificateView,
)
    requires
        valid_committee(members),
        history_ok(members, dag, floor),
        verdict(members, dag, floor, c) == Verdict::Admit,
    ensures
        history_ok(members, dag.insert(slot_of(c), c), floor),
{
    let k = slot_of(c);
    let next = dag.insert(k, c);
    assert forall|x: (nat, u64)| #[trigger] next.contains_key(x) implies {
        &&& slot_of(next[x]) == x
        &&& is_member(members, x.1)
        &&& x.0 >= keep_from(floor)
        &&& x.0 >= 1 ==> certified(members, next[x])
        &&& x.0 >= 1 && x.0 >= floor ==> grounded(members, next, x.0, next[x].header.parents)
    } by {
        if x.0 >= 1 && x.0 >= floor {
            let parents = next[x].header.parents;
            if x != k {
                assert(dag.contains_key(x));
            }
            assert(grounded(members, dag, x.0, parents));
            assert forall|j: int| 0 <= j < parents.len() implies digest_used(
                next,
                (x.0 - 1) as nat,
                #[trigger] parents[j],
            ) by {
                assert(digest_used(dag, (x.0 - 1) as nat, parents[j]));
                let b = choose|b: u64| #[trigger]
                    dag.contains_key(((x.0 - 1) as nat, b)) && dag[((x.0 - 1) as nat, b)].header.digest
                        == parents[j];
                assert(next.contains_key(((x.0 - 1) as nat, b)));
            }
            assert forall|i: int|
                0 <= i < members.len() && cites(dag, x.0, parents)(
                    #[trigger] members[i].id,
                ) implies cites(next, x.0, parents)(members[i].id) by {
                assert(dag.contains_key(((x.0 - 1) as nat, members[i].id)));
            }
            lemma_weight_monotone(
                members,
                cites(dag, x.0, parents),
                cites(next, x.0, parents),
                members.len() as int,
            );
        } else if x != k {
            assert(dag.contains_key(x));
        }
    }
    assert forall|r: nat, a: u64, b: u64|
        #[trigger] next.contains_key((r, a)) && #[trigger] next.contains_key((r, b)) && next[(
            r,
            a,
        )].header.digest == next[(r, b)].header.digest implies a == b by {
        if (r, a) == k && (r, b) != k {
            assert(dag.contains_key((r, b)));
        }
        if (r, b) == k && (r, a) != k {
            assert(dag.contains_key((r, a)));
        }
        if (r, a) != k && (r, b) != k {
            assert(dag.contains_key((r, a)) && dag.contains_key((r, b)));
        }
    }
}

/// Raising the lowest round that certificates are admitted to, and dropping
/// the rounds more than one below it, keeps the DAG in order.
pub proof fn lemma_restrict_keeps_history_ok(
    members: Seq<Authority>,
    dag: Map<(nat, u64), CertificateView>,
    floor: nat,
    round: nat,
)
    requires
        valid_committee(members),
        history_ok(members, dag, floor),
        round >= floor,
    ensures
        history_ok(members, dag.restrict(from_round(keep_from(round))), round),
{
    let next = dag.restrict(from_round(keep_from(round)));
    assert forall|x: (nat, u64)| #[trigger] next.contains_key(x) implies {
        &&& slot_of(next[x]) == x
        &&& is_member(members, x.1)
        &&& x.0 >= keep_from(round)
        &&& x.0 >= 1 ==> certified(members, next[x])
        &&& x.0 >= 1 && x.0 >= round ==> grounded(members, next, x.0, next[x].header.parents)
    } by {
        assert(dag.contains_key(x));
        if x.0 >= 1 && x.0 >= round {
            let parents = next[x].header.parents;
            assert(grounded(members, dag, x.0, parents));
            assert forall|j: int| 0 <= j < parents.len() implies digest_used(
                next,
                (x.0 - 1) as nat,
                #[trigger] parents[j],
            ) by {
                assert(digest_used(dag, (x.0 - 1) as nat, parents[j]));
                let b = choose|b: u64| #[trigger]
                    dag.contains_key(((x.0 - 1) as nat, b)) && dag[((x.0 - 1) as nat, b)].header.digest
                        == parents[j];
                assert(next.contains_key(((x.0 - 1) as nat, b)));
            }
            assert forall|i: int|
                0 <= i < members.len() && cites(dag, x.0, parents)(
                    #[trigger] members[i].id,
                ) implies cites(next, x.0, parents)(members[i].id) by {
                assert(dag.contains_key(((x.0 - 1) as nat, members[i].id)));
                assert(next.contains_key(((x.0 - 1) as nat, members[i].id)));
            }
            lemma_weight_monotone(
                members,
                cites(dag, x.0, parents),
                cites(next, x.0, parents),
                members.len() as int,
            );
        }
    }
    assert forall|r: nat, a: u64, b: u64|
        #[trigger] next.contains_key((r, a)) && #[trigger] next.contains_key((r, b)) && next[(
            r,
            a,
        )].header.digest == next[(r, b)].header.digest implies a == b by {
        assert(dag.contains_key((r, a)) && dag.contains_key((r, b)));
    }
}

/// A list of certificates with distinct slots spells out a DAG of as many
/// entries.
pub proof fn lemma_history_len(certs: Seq<CertificateView>)
    requires
        distinct_slots(certs),
    ensures
        history_of(certs).dom().finite(),
        history_of(certs).dom().len() == certs.len(),
    decreases certs.len(),
{
    if certs.len() > 0 {
        let front = certs.drop_last();
        assert forall|a: int, b: int| 0 <= a < b < front.len() implies slot_of(
            #[trigger] front[a],
        ) != slot_of(#[trigger] front[b]) by {
            assert(front[a] == certs[a] && front[b] == certs[b]);
        }
        lemma_history_len(front);
        lemma_history_contains(front, slot_of(certs.last()));
        if history_of(front).contains_key(slot_of(certs.last())) {
            let i = choose|i: int|
                0 <= i < front.len() && slot_of(#[trigger] front[i]) == slot_of(certs.last());
            assert(front[i] == certs[i]);
            assert(slot_of(certs[i]) != slot_of(certs[certs.len() - 1]));
        }
        assert(history_of(certs).dom() =~= history_of(front).dom().insert(slot_of(certs.last())));
    } else {
        assert(history_of(certs).dom() =~= Set::empty());
    }
}

} // verus!
