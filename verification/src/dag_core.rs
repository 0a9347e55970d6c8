//! The DAG core and synchronizer: it takes certificates from the network,
//! admits those whose parents are held, keeps the others waiting while their
//! parents are fetched, and admits them once the parents have arrived.

use vstd::prelude::*;
use crate::committee::{Authority, Committee, quorum_threshold, valid_committee, weight};
use crate::consensus::retain_from;
use crate::dag::{
    Dag, Verdict, digest_used, from_round, genesis_ok, history_of, history_ok, keep_from,
    lemma_retained_listed, parents_known, present_in, retained, round_digests, slot_of,
    unknown_parents, verdict, views_of,
};
use crate::ordering::{gc_floor, higher};
use crate::types::{Certificate, CertificateView, Digest};

verus! {

/// One pass over the waiting certificates from position `i` on, in order:
/// each one that can be admitted by then joins the DAG, each one whose
/// parents are still missing keeps waiting, and the others are dropped.
/// Gives the DAG after the pass, those that keep waiting, and those that
/// joined.
pub open spec fn pass(
    members: Seq<Authority>,
    floor: nat,
    dag: Map<(nat, u64), CertificateView>,
    waiting: Seq<CertificateView>,
    i: int,
) -> (Map<(nat, u64), CertificateView>, Seq<CertificateView>, Seq<CertificateView>)
    decreases waiting.len() - i,
{
    if i < 0 || i >= waiting.len() {
        (dag, Seq::empty(), Seq::empty())
    } else {
        let c = waiting[i];
        match verdict(members, dag, floor, c) {
            Verdict::Admit => {
                let r = pass(members, floor, dag.insert(slot_of(c), c), waiting, i + 1);
                (r.0, r.1, seq![c] + r.2)
            },
            Verdict::MissingParents => {
                let r = pass(members, floor, dag, waiting, i + 1);
                (r.0, seq![c] + r.1, r.2)
            },
            _ => pass(members, floor, dag, waiting, i + 1),
        }
    }
}

/// Passes over the waiting certificates until a pass admits none.
pub open spec fn drain(
    members: Seq<Authority>,
    floor: nat,
    dag: Map<(nat, u64), CertificateView>,
    waiting: Seq<CertificateView>,
) -> (Map<(nat, u64), CertificateView>, Seq<CertificateView>, Seq<CertificateView>)
    decreases waiting.len(),
{
    let r = pass(members, floor, dag, waiting, 0);
    if r.2.len() == 0 || r.1.len() >= waiting.len() {
        r
    } else {
        let s = drain(members, floor, r.0, r.1);
        (s.0, s.1, r.2 + s.2)
    }
}

/// Every waiting certificate still misses a parent.
pub open spec fn settled(
    members: Seq<Authority>,
    floor: nat,
    dag: Map<(nat, u64), CertificateView>,
    waiting: Seq<CertificateView>,
) -> bool {
    forall|i: int|
        0 <= i < waiting.len() ==> verdict(members, dag, floor, #[trigger] waiting[i])
            == Verdict::MissingParents
}

/// Whether `c` is among the waiting certificates.
pub open spec fn is_waiting(waiting: Seq<CertificateView>, c: CertificateView) -> bool {
    exists|i: int|
        0 <= i < waiting.len() && slot_of(#[trigger] waiting[i]) == slot_of(c)
            && waiting[i].header.digest == c.header.digest
}

/// The DAG and the waiting certificates once `c` is delivered: a forged or
/// refused certificate changes nothing; one that is admitted joins the DAG,
/// which is then drained; one whose parents are missing waits, once.
pub open spec fn received(
    members: Seq<Authority>,
    floor: nat,
    dag: Map<(nat, u64), CertificateView>,
    waiting: Seq<CertificateView>,
    c: CertificateView,
    authentic: bool,
) -> (Map<(nat, u64), CertificateView>, Seq<CertificateView>) {
    let v = verdict(members, dag, floor, c);
    if !authentic {
        (dag, waiting)
    } else if v == Verdict::Admit {
        let d = drain(members, floor, dag.insert(slot_of(c), c), waiting);
        (d.0, d.1)
    } else if v == Verdict::MissingParents && !is_waiting(waiting, c) {
        (dag, waiting.push(c))
    } else {
        (dag, waiting)
    }
}

/// The DAG and the waiting certificates once the first `n` of `deliveries`
/// have come, one after the other, all of them authentic.
pub open spec fn received_all(
    members: Seq<Authority>,
    floor: nat,
    dag: Map<(nat, u64), CertificateView>,
    waiting: Seq<CertificateView>,
    deliveries: Seq<CertificateView>,
    n: int,
) -> (Map<(nat, u64), CertificateView>, Seq<CertificateView>)
    decreases n,
{
    if n <= 0 {
        (dag, waiting)
    } else {
        let s = received_all(members, floor, dag, waiting, deliveries, n - 1);
        received(members, floor, s.0, s.1, deliveries[n - 1], true)
    }
}

/// A pass neither loses nor gains certificates beyond those it drops.
pub proof fn lemma_pass_len(
    members: Seq<Authority>,
    floor: nat,
    dag: Map<(nat, u64), CertificateView>,
    waiting: Seq<CertificateView>,
    i: int,
)
    requires
        0 <= i <= waiting.len(),
    ensures
        pass(members, floor, dag, waiting, i).1.len() + pass(
            members,
            floor,
            dag,
            waiting,
            i,
        ).2.len() <= waiting.len() - i,
    decreases waiting.len() - i,
{
    if i < waiting.len() {
        let c = waiting[i];
        lemma_pass_len(members, floor, dag.insert(slot_of(c), c), waiting, i + 1);
        lemma_pass_len(members, floor, dag, waiting, i + 1);
    }
}

/// A pass that admits nothing leaves the DAG as it was, and every
/// certificate that it keeps waiting still misses a parent.
pub proof fn lemma_pass_quiet(
    members: Seq<Authority>,
    floor: nat,
    dag: Map<(nat, u64), CertificateView>,
    waiting: Seq<CertificateView>,
    i: int,
)
    requires
        0 <= i <= waiting.len(),
        pass(members, floor, dag, waiting, i).2.len() == 0,
    ensures
        pass(members, floor, dag, waiting, i).0 == dag,
        settled(members, floor, dag, pass(members, floor, dag, waiting, i).1),
    decreases waiting.len() - i,
{
    if i < waiting.len() {
        let c = waiting[i];
        let v = verdict(members, dag, floor, c);
        if v == Verdict::Admit {
            let r = pass(members, floor, dag.insert(slot_of(c), c), waiting, i + 1);
            assert((seq![c] + r.2).len() > 0);
        } else {
            lemma_pass_quiet(members, floor, dag, waiting, i + 1);
            let r = pass(members, floor, dag, waiting, i + 1);
            if v == Verdict::MissingParents {
                let kept = seq![c] + r.1;
                assert forall|j: int| 0 <= j < kept.len() implies verdict(
                    members,
                    dag,
                    floor,
                    #[trigger] kept[j],
                ) == Verdict::MissingParents by {
                    if j > 0 {
                        assert(kept[j] == r.1[j - 1]);
                    }
                }
            }
        }
    }
}

/// After draining, every certificate that still waits misses a parent.
pub proof fn lemma_drain_settles(
    members: Seq<Authority>,
    floor: nat,
    dag: Map<(nat, u64), CertificateView>,
    waiting: Seq<CertificateView>,
)
    ensures
        settled(
            members,
            floor,
            drain(members, floor, dag, waiting).0,
            drain(members, floor, dag, waiting).1,
        ),
    decreases waiting.len(),
{
    let r = pass(members, floor, dag, waiting, 0);
    lemma_pass_len(members, floor, dag, waiting, 0);
    if r.2.len() == 0 {
        lemma_pass_quiet(members, floor, dag, waiting, 0);
    } else {
        lemma_drain_settles(members, floor, r.0, r.1);
    }
}

/// What becomes of a certificate that the network delivers.
#[derive(Clone, Debug, PartialEq, Eq)]
pub enum Reception {
    /// Its signatures do not verify. Nothing changes.
    Forged,
    /// The DAG refuses it, with this verdict. Nothing changes.
    Refused(Verdict),
    /// Some of its parents are not held: it waits, and these digests are to
    /// be asked of the other authorities.
    Held(Vec<Digest>),
    /// It joined the DAG, and with it the waiting certificates that it
    /// unblocked: here they are, in the order in which they joined.
    Joined(Vec<Certificate>),
}

/// The DAG core of one authority.
pub struct Core {
    dag: Dag,
    waiting: Vec<Certificate>,
}

impl Core {
    /// The DAG as far as it is retained.
    pub closed spec fn history(&self) -> Map<(nat, u64), CertificateView> {
        self.dag@
    }

    pub closed spec fn members(&self) -> Seq<Authority> {
        self.dag.members()
    }

    /// The lowest round that certificates are still admitted to.
    pub closed spec fn lowest(&self) -> nat {
        self.dag.lowest()
    }

    /// The certificates that wait for their parents.
    pub closed spec fn waiting(&self) -> Seq<CertificateView> {
        views_of(self.waiting@)
    }

    pub closed spec fn rep_ok(&self) -> bool {
        self.dag.wf()
    }

    pub open spec fn wf(&self) -> bool {
        &&& self.rep_ok()
        &&& valid_committee(self.members())
        &&& history_ok(self.members(), self.history(), self.lowest())
        &&& settled(self.members(), self.lowest(), self.history(), self.waiting())
    }

    /// A core that holds the genesis certificates and nothing else. There is
    /// none unless they are of round zero, by distinct members and with
    /// distinct digests.
    pub fn new(committee: Committee, genesis: Vec<Certificate>) -> (r: Option<Core>)
        requires
            committee.wf(),
        ensures
            r.is_some() == genesis_ok(committee@, views_of(genesis@)),
            r matches Some(c) ==> {
                &&& c.wf()
                &&& c.members() == committee@
                &&& c.lowest() == 0
                &&& c.history() == history_of(views_of(genesis@))
                &&& c.waiting() == Seq::<CertificateView>::empty()
            },
    {
        match Dag::new(committee, genesis) {
            None => None,
            Some(dag) => {
                let c = Core { dag, waiting: Vec::new() };
                assert(c.waiting() =~= Seq::<CertificateView>::empty());
                Some(c)
            },
        }
    }

    /// The DAG as this core holds it.
    pub fn dag(&self) -> (r: &Dag)
        requires
            self.wf(),
        ensures
            r.wf(),
            r@ == self.history(),
            r.members() == self.members(),
            r.lowest() == self.lowest(),
    {
        &self.dag
    }

    /// The parents for a header of the round after `round`: the digests of
    /// the certificates held for `round`, once they cover a quorum of stake.
    /// Until then the round is open, and there are none.
    pub fn closed_parents(&self, round: u64) -> (r: Option<Vec<Digest>>)
        requires
            self.wf(),
        ensures
            r.is_some() == (weight(self.members(), present_in(self.history(), round as nat))
                >= quorum_threshold(self.members())),
            r matches Some(parents) ==> parents@ == round_digests(
                self.members(),
                self.history(),
                round as nat,
                self.members().len() as int,
            ),
    {
        if self.dag.is_closed(round) {
            Some(self.dag.digests_of(round))
        } else {
            None
        }
    }

    /// Number of certificates that wait for their parents.
    pub fn waiting_len(&self) -> (r: usize)
        ensures
            r == self.waiting().len(),
    {
        self.waiting.len()
    }

    /// Whether `cert` is among the waiting certificates.
    pub fn holds_back(&self, cert: &Certificate) -> (r: bool)
        ensures
            r == is_waiting(self.waiting(), cert@),
    {
        let ghost w = views_of(self.waiting@);
        let n: usize = self.waiting.len();
        let mut i: usize = 0;
        while i < n
            invariant
                n == self.waiting.len(),
                w == views_of(self.waiting@),
                0 <= i <= n,
                forall|x: int|
                    0 <= x < i ==> !(slot_of(#[trigger] w[x]) == slot_of(cert@)
                        && w[x].header.digest == cert@.header.digest),
            decreases n - i,
        {
            assert(w[i as int] == self.waiting[i as int]@);
            if self.waiting[i].header.round == cert.header.round && self.waiting[i].header.author
                == cert.header.author && self.waiting[i].header.digest == cert.header.digest {
                return true;
            }
            i = i + 1;
        }
        false
    }

    /// One pass over the waiting certificates.
    fn sweep(&mut self) -> (joined: Vec<Certificate>)
        requires
            old(self).dag.wf(),
        ensures
            final(self).dag.wf(),
            final(self).members() == old(self).members(),
            final(self).lowest() == old(self).lowest(),
            ({
                let r = pass(
                    old(self).members(),
                    old(self).lowest(),
                    old(self).history(),
                    old(self).waiting(),
                    0,
                );
                &&& final(self).history() == r.0
                &&& final(self).waiting() == r.1
                &&& views_of(joined@) == r.2
            }),
    {
        let ghost members = self.members();
        let ghost floor = self.lowest();
        let ghost dag0 = self.history();
        let ghost w = self.waiting();
        let n: usize = self.waiting.len();
        let mut kept: Vec<Certificate> = Vec::new();
        let mut joined: Vec<Certificate> = Vec::new();
        let mut i: usize = 0;
        assert(views_of(kept@) + pass(members, floor, dag0, w, 0).1 =~= pass(
            members,
            floor,
            dag0,
            w,
            0,
        ).1);
        assert(views_of(joined@) + pass(members, floor, dag0, w, 0).2 =~= pass(
            members,
            floor,
            dag0,
            w,
            0,
        ).2);
        while i < n
            invariant
                self.dag.wf(),
                self.dag.members() == members,
                self.dag.lowest() == floor,
                n == self.waiting.len(),
                w == views_of(self.waiting@),
                0 <= i <= n,
                pass(members, floor, dag0, w, 0).0 == pass(members, floor, self.dag@, w, i as int).0,
                pass(members, floor, dag0, w, 0).1 == views_of(kept@) + pass(
                    members,
                    floor,
                    self.dag@,
                    w,
                    i as int,
                ).1,
                pass(members, floor, dag0, w, 0).2 == views_of(joined@) + pass(
                    members,
                    floor,
                    self.dag@,
                    w,
                    i as int,
                ).2,
            decreases n - i,
        {
            let ghost c = w[i as int];
            let ghost dag1 = self.dag@;
            let ghost kept0 = views_of(kept@);
            let ghost joined0 = views_of(joined@);
            assert(c == self.waiting[i as int]@);
            let copy: Certificate = self.waiting[i].duplicate();
            let v: Verdict = self.dag.insert(copy);
            match v {
                Verdict::Admit => {
                    joined.push(self.waiting[i].duplicate());
                    proof {
                        let r = pass(members, floor, self.dag@, w, i + 1);
                        assert(views_of(joined@) =~= joined0 + seq![c]);
                        assert(joined0 + (seq![c] + r.2) =~= (joined0 + seq![c]) + r.2);
                    }
                },
                Verdict::MissingParents => {
                    kept.push(self.waiting[i].duplicate());
                    proof {
                        let r = pass(members, floor, self.dag@, w, i + 1);
                        assert(views_of(kept@) =~= kept0 + seq![c]);
                        assert(kept0 + (seq![c] + r.1) =~= (kept0 + seq![c]) + r.1);
                    }
                },
                _ => {},
            }
            i = i + 1;
        }
        proof {
            assert(views_of(kept@) + Seq::<CertificateView>::empty() =~= views_of(kept@));
            assert(views_of(joined@) + Seq::<CertificateView>::empty() =~= views_of(joined@));
        }
        self.waiting = kept;
        joined
    }

    /// Passes over the waiting certificates until a pass admits none, and
    /// appends those that joined to `joined`.
    fn settle(&mut self, joined: &mut Vec<Certificate>)
        requires
            old(self).dag.wf(),
        ensures
            final(self).dag.wf(),
            final(self).members() == old(self).members(),
            final(self).lowest() == old(self).lowest(),
            ({
                let r = drain(
                    old(self).members(),
                    old(self).lowest(),
                    old(self).history(),
                    old(self).waiting(),
                );
                &&& final(self).history() == r.0
                &&& final(self).waiting() == r.1
                &&& views_of(final(joined)@) == views_of(old(joined)@) + r.2
            }),
    {
        let ghost members = self.members();
        let ghost floor = self.lowest();
        let ghost dag0 = self.history();
        let ghost w0 = self.waiting();
        let ghost start = views_of(joined@);
        let ghost mut sofar: Seq<CertificateView> = Seq::empty();
        let mut going: bool = true;
        assert(sofar + drain(members, floor, dag0, w0).2 =~= drain(members, floor, dag0, w0).2);
        assert(start + sofar =~= start);
        while going
            invariant
                self.dag.wf(),
                self.dag.members() == members,
                self.dag.lowest() == floor,
                views_of(joined@) == start + sofar,
                going ==> drain(members, floor, dag0, w0).0 == drain(
                    members,
                    floor,
                    self.dag@,
                    self.waiting(),
                ).0,
                going ==> drain(members, floor, dag0, w0).1 == drain(
                    members,
                    floor,
                    self.dag@,
                    self.waiting(),
                ).1,
                going ==> drain(members, floor, dag0, w0).2 == sofar + drain(
                    members,
                    floor,
                    self.dag@,
                    self.waiting(),
                ).2,
                !going ==> drain(members, floor, dag0, w0) == (self.dag@, self.waiting(), sofar),
            decreases self.waiting().len(), (if going { 1int } else { 0int }),
        {
            let ghost dag1 = self.dag@;
            let ghost w1 = self.waiting();
            let ghost joined0 = views_of(joined@);
            proof {
                lemma_pass_len(members, floor, dag1, w1, 0);
            }
            let mut fresh: Vec<Certificate> = self.sweep();
            let ghost got = views_of(fresh@);
            if fresh.len() == 0 {
                going = false;
                proof {
                    assert(got =~= Seq::<CertificateView>::empty());
                    assert(sofar + got =~= sofar);
                }
            } else {
                proof {
                    let s = drain(members, floor, self.dag@, self.waiting());
                    assert(sofar + (got + s.2) =~= (sofar + got) + s.2);
                    assert(start + (sofar + got) =~= (start + sofar) + got);
                    sofar = sofar + got;
                }
                append_all(joined, &mut fresh);
            }
        }
    }

    /// Takes a certificate from the network. `authentic` says whether its
    /// signatures verify. A certificate that the DAG admits joins it, and
    /// with it every waiting certificate that this unblocks; one whose
    /// parents are missing waits, once, while they are fetched; any other is
    /// refused and changes nothing.
    pub fn process_certificate(&mut self, cert: Certificate, authentic: bool) -> (r: Reception)
        requires
            old(self).wf(),
        ensures
            final(self).wf(),
            final(self).members() == old(self).members(),
            final(self).lowest() == old(self).lowest(),
            (final(self).history(), final(self).waiting()) == received(
                old(self).members(),
                old(self).lowest(),
                old(self).history(),
                old(self).waiting(),
                cert@,
                authentic,
            ),
            ({
                let members = old(self).members();
                let floor = old(self).lowest();
                let dag = old(self).history();
                let waiting = old(self).waiting();
                let v = verdict(members, dag, floor, cert@);
                if !authentic {
                    &&& r == Reception::Forged
                    &&& final(self).history() == dag
                    &&& final(self).waiting() == waiting
                } else if v == Verdict::Admit {
                    let d = drain(members, floor, dag.insert(slot_of(cert@), cert@), waiting);
                    &&& r matches Reception::Joined(list)
                    &&& views_of(list@) == seq![cert@] + d.2
                    &&& final(self).history() == d.0
                    &&& final(self).waiting() == d.1
                } else if v == Verdict::MissingParents {
                    &&& r matches Reception::Held(missing)
                    &&& missing@ == unknown_parents(
                        dag,
                        cert@.header.round as nat,
                        cert@.header.parents,
                        cert@.header.parents.len() as int,
                    )
                    &&& final(self).history() == dag
                    &&& final(self).waiting() == if is_waiting(waiting, cert@) {
                        waiting
                    } else {
                        waiting.push(cert@)
                    }
                } else {
                    &&& r == Reception::Refused(v)
                    &&& final(self).history() == dag
                    &&& final(self).waiting() == waiting
                }
            }),
    {
        if !authentic {
            return Reception::Forged;
        }
        let ghost members = self.members();
        let ghost floor = self.lowest();
        let ghost dag0 = self.history();
        let ghost w0 = self.waiting();
        let v: Verdict = self.dag.examine(&cert);
        match v {
            Verdict::Admit => {
                let mut joined: Vec<Certificate> = Vec::new();
                joined.push(cert.duplicate());
                assert(views_of(joined@) =~= seq![cert@]);
                self.dag.insert(cert);
                self.settle(&mut joined);
                proof {
                    lemma_drain_settles(members, floor, dag0.insert(slot_of(cert@), cert@), w0);
                }
                Reception::Joined(joined)
            },
            Verdict::MissingParents => {
                let missing: Vec<Digest> = self.dag.missing_parents(
                    cert.header.round,
                    &cert.header.parents,
                );
                if !self.holds_back(&cert) {
                    let ghost c = cert@;
                    self.waiting.push(cert);
                    proof {
                        assert(self.waiting() =~= w0.push(c));
                        assert forall|i: int| 0 <= i < self.waiting().len() implies verdict(
                            members,
                            dag0,
                            floor,
                            #[trigger] self.waiting()[i],
                        ) == Verdict::MissingParents by {
                            if i < w0.len() {
                                assert(self.waiting()[i] == w0[i]);
                            }
                        }
                    }
                }
                Reception::Held(missing)
            },
            _ => Reception::Refused(v),
        }
    }

    /// Drops what lies deeper than `depth` rounds below `highest`. From then
    /// on no certificate of a round up to `highest - depth` is admitted;
    /// those rounds leave the DAG but for the last of them, which holds the
    /// parents of the round above, and the certificates of them that still
    /// waited are given up. Nothing joins the DAG by this: a certificate
    /// that waits keeps waiting for its parents.
    pub fn collect_garbage(&mut self, highest: u64, depth: u64)
        requires
            old(self).wf(),
            highest < u64::MAX,
        ensures
            final(self).wf(),
            final(self).members() == old(self).members(),
            final(self).lowest() == higher(
                old(self).lowest(),
                gc_floor(highest as nat, depth as nat),
            ),
            final(self).history() == old(self).history().restrict(
                from_round(keep_from(gc_floor(highest as nat, depth as nat))),
            ),
            final(self).waiting() == retained(old(self).waiting(), final(self).lowest()),
    {
        let ghost members = self.members();
        let ghost dag0 = self.history();
        let ghost floor0 = self.lowest();
        let ghost w0 = self.waiting();
        let floor: u64 = retain_from(highest, depth);
        self.dag.prune(floor);
        let bar: u64 = self.dag.floor();
        let n: usize = self.waiting.len();
        let mut kept: Vec<Certificate> = Vec::new();
        let mut i: usize = 0;
        while i < n
            invariant
                n == self.waiting.len(),
                w0 == views_of(self.waiting@),
                0 <= i <= n,
                views_of(kept@) == retained(w0.subrange(0, i as int), bar as nat),
            decreases n - i,
        {
            proof {
                assert(w0.subrange(0, i + 1).drop_last() =~= w0.subrange(0, i as int));
                assert(w0.subrange(0, i + 1).last() == self.waiting[i as int]@);
            }
            let ghost kept0 = views_of(kept@);
            if self.waiting[i].header.round >= bar {
                kept.push(self.waiting[i].duplicate());
                assert(views_of(kept@) =~= kept0.push(self.waiting[i as int]@));
            }
            i = i + 1;
        }
        self.waiting = kept;
        proof {
            assert(w0.subrange(0, n as int) =~= w0);
            lemma_pruning_admits_nothing(members, dag0, floor0, floor as nat, w0);
        }
    }
}

/// Garbage collection makes no waiting certificate join: a certificate that
/// misses a parent still misses it once old rounds are dropped, unless its
/// own round is among those that are no longer admitted.
pub proof fn lemma_pruning_admits_nothing(
    members: Seq<Authority>,
    dag: Map<(nat, u64), CertificateView>,
    floor: nat,
    round: nat,
    waiting: Seq<CertificateView>,
)
    requires
        settled(members, floor, dag, waiting),
    ensures
        settled(
            members,
            higher(floor, round),
            dag.restrict(from_round(keep_from(round))),
            retained(waiting, higher(floor, round)),
        ),
        forall|i: int|
            0 <= i < waiting.len() ==> verdict(
                members,
                dag.restrict(from_round(keep_from(round))),
                higher(floor, round),
                #[trigger] waiting[i],
            ) != Verdict::Admit,
{
    let next = dag.restrict(from_round(keep_from(round)));
    let bar = higher(floor, round);
    let kept = retained(waiting, bar);
    assert forall|i: int| 0 <= i < waiting.len() implies verdict(
        members,
        next,
        bar,
        #[trigger] waiting[i],
    ) == if waiting[i].header.round >= bar {
        Verdict::MissingParents
    } else {
        Verdict::Stale
    } by {
        let c = waiting[i];
        let k = slot_of(c);
        assert(verdict(members, dag, floor, c) == Verdict::MissingParents);
        if digest_used(next, k.0, c.header.digest) {
            let b = choose|b: u64| #[trigger]
                next.contains_key((k.0, b)) && next[(k.0, b)].header.digest == c.header.digest;
            assert(dag.contains_key((k.0, b)));
        }
        if parents_known(next, k.0, c.header.parents) {
            assert forall|j: int| 0 <= j < c.header.parents.len() implies digest_used(
                dag,
                (k.0 - 1) as nat,
                #[trigger] c.header.parents[j],
            ) by {
                let below = (k.0 - 1) as nat;
                assert(digest_used(next, below, c.header.parents[j]));
                let b = choose|b: u64| #[trigger]
                    next.contains_key((below, b)) && next[(below, b)].header.digest
                        == c.header.parents[j];
                assert(dag.contains_key((below, b)));
            }
        }
    }
    lemma_retained_listed(waiting, bar);
    assert forall|j: int| 0 <= j < kept.len() implies verdict(members, next, bar, #[trigger] kept[j])
        == Verdict::MissingParents by {
        let i = choose|i: int| 0 <= i < waiting.len() && waiting[i] == kept[j];
        assert(verdict(members, next, bar, waiting[i]) == Verdict::MissingParents);
    }
}

/// Moves every certificate of `from` to the end of `to`, in order.
fn append_all(to: &mut Vec<Certificate>, from: &mut Vec<Certificate>)
    ensures
        views_of(final(to)@) == views_of(old(to)@) + views_of(old(from)@),
{
    let ghost a = views_of(to@);
    let ghost b = views_of(from@);
    to.append(from);
    assert(views_of(to@) =~= a + b);
}

} // verus!
