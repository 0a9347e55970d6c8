//! The batch maker of a worker: transactions gather until they make a batch
//! worth sending, or until the timer says to send what there is.

use vstd::prelude::*;

verus! {

/// Combined length of the first `n` transactions.
pub open spec fn bytes_upto(transactions: Seq<Vec<u8>>, n: int) -> int
    decreases n,
{
    if n <= 0 {
        0
    } else {
        bytes_upto(transactions, n - 1) + transactions[n - 1]@.len()
    }
}

/// Combined length of the transactions.
pub open spec fn bytes_of(transactions: Seq<Vec<u8>>) -> int {
    bytes_upto(transactions, transactions.len() as int)
}

/// Whether the transactions make a batch worth sending.
pub open spec fn fills(transactions: Seq<Vec<u8>>, batch_size: usize) -> bool {
    bytes_of(transactions) >= batch_size
}

pub proof fn lemma_bytes_nonnegative(transactions: Seq<Vec<u8>>, n: int)
    ensures
        bytes_upto(transactions, n) >= 0,
    decreases n,
{
    if n > 0 {
        lemma_bytes_nonnegative(transactions, n - 1);
    }
}

proof fn lemma_bytes_push(transactions: Seq<Vec<u8>>, last: Vec<u8>, n: int)
    requires
        0 <= n <= transactions.len(),
    ensures
        bytes_upto(transactions.push(last), n) == bytes_upto(transactions, n),
    decreases n,
{
    if n > 0 {
        lemma_bytes_push(transactions, last, n - 1);
    }
}

/// The transactions that wait for a batch.
pub struct BatchMaker {
    batch_size: usize,
    buffer: Vec<Vec<u8>>,
    size: usize,
}

impl View for BatchMaker {
    type V = Seq<Vec<u8>>;

    closed spec fn view(&self) -> Seq<Vec<u8>> {
        self.buffer@
    }
}

impl BatchMaker {
    /// Bytes that make a batch worth sending.
    pub closed spec fn batch_size(&self) -> usize {
        self.batch_size
    }

    pub closed spec fn counted(&self) -> int {
        self.size as int
    }

    /// The bytes counted are those that wait, as far as a machine word
    /// counts.
    pub open spec fn wf(&self) -> bool {
        self.counted() == if bytes_of(self@) <= usize::MAX {
            bytes_of(self@)
        } else {
            usize::MAX as int
        }
    }

    pub fn new(batch_size: usize) -> (r: BatchMaker)
        ensures
            r.wf(),
            r.batch_size() == batch_size,
            r@ == Seq::<Vec<u8>>::empty(),
    {
        BatchMaker { batch_size, buffer: Vec::new(), size: 0 }
    }

    /// Takes a transaction. If the transactions that wait make a batch
    /// worth sending by now, they leave as a batch, in the order in which
    /// they came.
    pub fn add(&mut self, transaction: Vec<u8>) -> (r: Option<Vec<Vec<u8>>>)
        requires
            old(self).wf(),
        ensures
            final(self).wf(),
            final(self).batch_size() == old(self).batch_size(),
            r.is_some() == fills(old(self)@.push(transaction), old(self).batch_size()),
            r matches Some(batch) ==> batch@ == old(self)@.push(transaction),
            final(self)@ == if r.is_some() {
                Seq::<Vec<u8>>::empty()
            } else {
                old(self)@.push(transaction)
            },
    {
        let ghost before = self@;
        let len: usize = transaction.len();
        proof {
            lemma_bytes_push(before, transaction, before.len() as int);
            lemma_bytes_nonnegative(before, before.len() as int);
        }
        self.size = if self.size > usize::MAX - len {
            usize::MAX
        } else {
            self.size + len
        };
        self.buffer.push(transaction);
        if self.size >= self.batch_size {
            let mut batch: Vec<Vec<u8>> = Vec::new();
            core::mem::swap(&mut batch, &mut self.buffer);
            self.size = 0;
            Some(batch)
        } else {
            None
        }
    }

    /// Takes the tick of the batch timer: what waits leaves as a batch,
    /// unless nothing waits.
    pub fn flush(&mut self) -> (r: Option<Vec<Vec<u8>>>)
        requires
            old(self).wf(),
        ensures
            final(self).wf(),
            final(self).batch_size() == old(self).batch_size(),
            r.is_some() == (old(self)@.len() > 0),
            r matches Some(batch) ==> batch@ == old(self)@,
            final(self)@ == Seq::<Vec<u8>>::empty(),
    {
        if self.buffer.len() == 0 {
            return None;
        }
        let mut batch: Vec<Vec<u8>> = Vec::new();
        core::mem::swap(&mut batch, &mut self.buffer);
        self.size = 0;
        Some(batch)
    }
}

} // verus!
