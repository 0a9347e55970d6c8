//! The messages that authorities exchange: headers, votes and certificates,
//! each identified by a content digest that the caller supplies.

use vstd::prelude::*;

verus! {

/// A 256-bit content digest, held as four words.
#[derive(Clone, Copy, PartialEq, Eq, Structural, Debug, Hash)]
pub struct Digest {
    pub w0: u64,
    pub w1: u64,
    pub w2: u64,
    pub w3: u64,
}

impl Digest {
    pub fn new(w0: u64, w1: u64, w2: u64, w3: u64) -> (r: Digest)
        ensures
            r == (Digest { w0, w1, w2, w3 }),
    {
        Digest { w0, w1, w2, w3 }
    }
}

/// One authority's proposal for one round.
#[derive(Clone, Debug, PartialEq, Eq)]
pub struct Header {
    pub author: u64,
    pub round: u64,
    /// Digests of the batches that the header carries.
    pub payload: Vec<Digest>,
    /// Digests of the certificates of the round before that it builds on.
    pub parents: Vec<Digest>,
    pub timestamp: u64,
    pub digest: Digest,
}

pub struct HeaderView {
    pub author: u64,
    pub round: u64,
    pub payload: Seq<Digest>,
    pub parents: Seq<Digest>,
    pub timestamp: u64,
    pub digest: Digest,
}

impl View for Header {
    type V = HeaderView;

    open spec fn view(&self) -> HeaderView {
        HeaderView {
            author: self.author,
            round: self.round,
            payload: self.payload@,
            parents: self.parents@,
            timestamp: self.timestamp,
            digest: self.digest,
        }
    }
}

/// One authority's endorsement of a header.
#[derive(Clone, Copy, PartialEq, Eq, Structural, Debug)]
pub struct Vote {
    /// Digest of the endorsed header.
    pub digest: Digest,
    pub round: u64,
    /// Author of the endorsed header.
    pub origin: u64,
    /// The authority that casts the vote.
    pub voter: u64,
}

/// A header together with the authorities whose votes certify it.
#[derive(Clone, Debug, PartialEq, Eq)]
pub struct Certificate {
    pub header: Header,
    pub votes: Vec<u64>,
}

pub struct CertificateView {
    pub header: HeaderView,
    pub votes: Seq<u64>,
}

impl View for Certificate {
    type V = CertificateView;

    open spec fn view(&self) -> CertificateView {
        CertificateView { header: self.header@, votes: self.votes@ }
    }
}

/// Whether `d` occurs in `list`.
pub fn has_digest(list: &Vec<Digest>, d: Digest) -> (r: bool)
    ensures
        r == list@.contains(d),
{
    let n: usize = list.len();
    let mut i: usize = 0;
    while i < n
        invariant
            n == list.len(),
            0 <= i <= n,
            forall|k: int| 0 <= k < i ==> list[k] != d,
        decreases n - i,
    {
        if list[i] == d {
            return true;
        }
        i = i + 1;
    }
    false
}

/// Whether `id` occurs in `list`.
pub fn has_id(list: &Vec<u64>, id: u64) -> (r: bool)
    ensures
        r == list@.contains(id),
{
    let n: usize = list.len();
    let mut i: usize = 0;
    while i < n
        invariant
            n == list.len(),
            0 <= i <= n,
            forall|k: int| 0 <= k < i ==> list[k] != id,
        decreases n - i,
    {
        if list[i] == id {
            return true;
        }
        i = i + 1;
    }
    false
}

/// A copy of a list of digests.
pub fn copy_digests(list: &Vec<Digest>) -> (r: Vec<Digest>)
    ensures
        r@ == list@,
{
    let n: usize = list.len();
    let mut out: Vec<Digest> = Vec::new();
    let mut i: usize = 0;
    while i < n
        invariant
            n == list.len(),
            0 <= i <= n,
            out@ == list@.subrange(0, i as int),
        decreases n - i,
    {
        out.push(list[i]);
        assert(out@ == list@.subrange(0, i + 1));
        i = i + 1;
    }
    assert(out@ == list@);
    out
}

/// A copy of a list of authority identifiers.
pub fn copy_ids(list: &Vec<u64>) -> (r: Vec<u64>)
    ensures
        r@ == list@,
{
    let n: usize = list.len();
    let mut out: Vec<u64> = Vec::new();
    let mut i: usize = 0;
    while i < n
        invariant
            n == list.len(),
            0 <= i <= n,
            out@ == list@.subrange(0, i as int),
        decreases n - i,
    {
        out.push(list[i]);
        assert(out@ == list@.subrange(0, i + 1));
        i = i + 1;
    }
    assert(out@ == list@);
    out
}

impl Header {
    /// An independent copy with the same contents.
    pub fn duplicate(&self) -> (r: Header)
        ensures
            r@ == self@,
    {
        Header {
            author: self.author,
            round: self.round,
            payload: copy_digests(&self.payload),
            parents: copy_digests(&self.parents),
            timestamp: self.timestamp,
            digest: self.digest,
        }
    }
}

impl Certificate {
    /// An independent copy with the same contents.
    pub fn duplicate(&self) -> (r: Certificate)
        ensures
            r@ == self@,
    {
        Certificate { header: self.header.duplicate(), votes: copy_ids(&self.votes) }
    }

    pub fn round(&self) -> (r: u64)
        ensures
            r == self@.header.round,
    {
        self.header.round
    }

    pub fn author(&self) -> (r: u64)
        ensures
            r == self@.header.author,
    {
        self.header.author
    }

    pub fn digest(&self) -> (r: Digest)
        ensures
            r == self@.header.digest,
    {
        self.header.digest
    }
}

} // verus!
