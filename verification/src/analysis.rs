//! What the committed sequence tells of the run: for each committed
//! certificate, by how much each counter of the benchmark grows.

use vstd::prelude::*;

verus! {

/// What is known of one committed batch: its size in bytes, and when each
/// of its sample transactions was sent.
#[derive(Clone, Debug, PartialEq, Eq)]
pub struct BatchInfo {
    pub size: u64,
    pub samples: Vec<u64>,
}

/// By how much the counters grow with one committed certificate. Each
/// amount stops at the largest number of 64 bits.
#[derive(Clone, Copy, PartialEq, Eq, Structural, Debug)]
pub struct Increments {
    /// Committed certificates: one.
    pub certificates: u64,
    /// Time since the commit before.
    pub commit_gap: u64,
    /// Bytes of the committed batches.
    pub bytes: u64,
    /// Sample transactions of the committed batches.
    pub samples: u64,
    /// Send time of the first sample transaction of the run, in the
    /// certificate that holds it; zero in every other.
    pub first_sent: u64,
    /// Sum of the latencies of the sample transactions.
    pub latency: u64,
    /// Sum of the squares of those latencies.
    pub latency_square: u64,
}

/// The largest number of 64 bits, or `x` if that is less.
pub open spec fn capped(x: int) -> int {
    if x <= u64::MAX {
        x
    } else {
        u64::MAX as int
    }
}

/// Time from `sent` to `commit`; none if the clocks put the send later.
pub open spec fn latency_of(commit: u64, sent: u64) -> int {
    if commit >= sent {
        commit - sent
    } else {
        0
    }
}

/// Sum of the latencies of the first `n` samples.
pub open spec fn latency_sum(commit: u64, samples: Seq<u64>, n: int) -> int
    decreases n,
{
    if n <= 0 {
        0
    } else {
        latency_sum(commit, samples, n - 1) + latency_of(commit, samples[n - 1])
    }
}

/// Sum of the squared latencies of the first `n` samples.
pub open spec fn square_sum(commit: u64, samples: Seq<u64>, n: int) -> int
    decreases n,
{
    if n <= 0 {
        0
    } else {
        square_sum(commit, samples, n - 1) + latency_of(commit, samples[n - 1]) * latency_of(
            commit,
            samples[n - 1],
        )
    }
}

pub open spec fn total_bytes(batches: Seq<BatchInfo>, n: int) -> int
    decreases n,
{
    if n <= 0 {
        0
    } else {
        total_bytes(batches, n - 1) + batches[n - 1].size
    }
}

pub open spec fn total_samples(batches: Seq<BatchInfo>, n: int) -> int
    decreases n,
{
    if n <= 0 {
        0
    } else {
        total_samples(batches, n - 1) + batches[n - 1].samples@.len()
    }
}

pub open spec fn total_latency(commit: u64, batches: Seq<BatchInfo>, n: int) -> int
    decreases n,
{
    if n <= 0 {
        0
    } else {
        total_latency(commit, batches, n - 1) + latency_sum(
            commit,
            batches[n - 1].samples@,
            batches[n - 1].samples@.len() as int,
        )
    }
}

pub open spec fn total_square(commit: u64, batches: Seq<BatchInfo>, n: int) -> int
    decreases n,
{
    if n <= 0 {
        0
    } else {
        total_square(commit, batches, n - 1) + square_sum(
            commit,
            batches[n - 1].samples@,
            batches[n - 1].samples@.len() as int,
        )
    }
}

/// The first sample among the first `n` batches, if there is one.
pub open spec fn first_sample(batches: Seq<BatchInfo>, n: int) -> Option<u64>
    decreases n,
{
    if n <= 0 {
        None
    } else {
        match first_sample(batches, n - 1) {
            Some(t) => Some(t),
            None => if batches[n - 1].samples@.len() > 0 {
                Some(batches[n - 1].samples@[0])
            } else {
                None
            },
        }
    }
}

proof fn lemma_sums_nonnegative(commit: u64, samples: Seq<u64>, n: int)
    requires
        0 <= n <= samples.len(),
    ensures
        latency_sum(commit, samples, n) >= 0,
        square_sum(commit, samples, n) >= 0,
    decreases n,
{
    if n > 0 {
        lemma_sums_nonnegative(commit, samples, n - 1);
        let l = latency_of(commit, samples[n - 1]);
        assert(l * l >= 0) by (nonlinear_arith)
            requires
                l >= 0,
        ;
    }
}

proof fn lemma_totals_nonnegative(commit: u64, batches: Seq<BatchInfo>, n: int)
    requires
        0 <= n <= batches.len(),
    ensures
        total_bytes(batches, n) >= 0,
        total_samples(batches, n) >= 0,
        total_latency(commit, batches, n) >= 0,
        total_square(commit, batches, n) >= 0,
    decreases n,
{
    if n > 0 {
        lemma_totals_nonnegative(commit, batches, n - 1);
        lemma_sums_nonnegative(
            commit,
            batches[n - 1].samples@,
            batches[n - 1].samples@.len() as int,
        );
    }
}

/// The sum of two amounts, stopping at the largest number of 64 bits.
fn add_capped(a: u64, b: u64) -> (r: u64)
    ensures
        r == capped(a + b),
{
    if a > u64::MAX - b {
        u64::MAX
    } else {
        a + b
    }
}

/// What the analysis remembers between two commits.
pub struct Analysis {
    first_recorded: bool,
    last_commit: u64,
}

impl Analysis {
    /// Whether a sample transaction has been seen.
    pub closed spec fn first_recorded(&self) -> bool {
        self.first_recorded
    }

    /// Time of the last commit; zero before the first.
    pub closed spec fn last_commit(&self) -> u64 {
        self.last_commit
    }

    pub fn new() -> (r: Analysis)
        ensures
            !r.first_recorded(),
            r.last_commit() == 0,
    {
        Analysis { first_recorded: false, last_commit: 0 }
    }

    /// Takes one committed certificate: the time of its commit and what is
    /// known of its batches. Says by how much each counter grows.
    pub fn observe(&mut self, commit: u64, batches: &Vec<BatchInfo>) -> (r: Increments)
        ensures
            final(self).last_commit() == commit,
            final(self).first_recorded() == (old(self).first_recorded() || first_sample(
                batches@,
                batches@.len() as int,
            ).is_some()),
            r.certificates == 1,
            r.commit_gap == latency_of(commit, old(self).last_commit()),
            r.bytes == capped(total_bytes(batches@, batches@.len() as int)),
            r.samples == capped(total_samples(batches@, batches@.len() as int)),
            r.latency == capped(total_latency(commit, batches@, batches@.len() as int)),
            r.latency_square == capped(total_square(commit, batches@, batches@.len() as int)),
            r.first_sent == if old(self).first_recorded() {
                0
            } else {
                match first_sample(batches@, batches@.len() as int) {
                    Some(t) => t,
                    None => 0,
                }
            },
    {
        let commit_gap: u64 = if commit >= self.last_commit {
            commit - self.last_commit
        } else {
            0
        };
        self.last_commit = commit;
        let had_first: bool = self.first_recorded;
        let mut first: Option<u64> = None;
        let mut bytes: u64 = 0;
        let mut samples: u64 = 0;
        let mut latency: u64 = 0;
        let mut square: u64 = 0;
        let n: usize = batches.len();
        let mut i: usize = 0;
        while i < n
            invariant
                n == batches.len(),
                0 <= i <= n,
                first == first_sample(batches@, i as int),
                bytes == capped(total_bytes(batches@, i as int)),
                samples == capped(total_samples(batches@, i as int)),
                latency == capped(total_latency(commit, batches@, i as int)),
                square == capped(total_square(commit, batches@, i as int)),
            decreases n - i,
        {
            let batch: &BatchInfo = &batches[i];
            let m: usize = batch.samples.len();
            proof {
                lemma_totals_nonnegative(commit, batches@, i as int);
            }
            bytes = add_capped(bytes, batch.size);
            samples = add_capped(samples, m as u64);
            if first.is_none() && m > 0 {
                first = Some(batch.samples[0]);
            }
            let mut part: u64 = 0;
            let mut part_square: u64 = 0;
            let mut j: usize = 0;
            while j < m
                invariant
                    m == batch.samples.len(),
                    0 <= j <= m,
                    part == capped(latency_sum(commit, batch.samples@, j as int)),
                    part_square == capped(square_sum(commit, batch.samples@, j as int)),
                decreases m - j,
            {
                let sent: u64 = batch.samples[j];
                let l: u64 = if commit >= sent {
                    commit - sent
                } else {
                    0
                };
                proof {
                    lemma_sums_nonnegative(commit, batch.samples@, j as int);
                    assert(0 <= l * l <= 0xffff_ffff_ffff_ffff * 0xffff_ffff_ffff_ffff)
                        by (nonlinear_arith)
                        requires
                            0 <= l <= 0xffff_ffff_ffff_ffff,
                    ;
                }
                let wide: u128 = (l as u128) * (l as u128);
                let sq: u64 = if wide > 0xffff_ffff_ffff_ffff {
                    u64::MAX
                } else {
                    wide as u64
                };
                part = add_capped(part, l);
                part_square = add_capped(part_square, sq);
                j = j + 1;
            }
            proof {
                lemma_sums_nonnegative(commit, batch.samples@, m as int);
            }
            latency = add_capped(latency, part);
            square = add_capped(square, part_square);
            i = i + 1;
        }
        let first_sent: u64 = if had_first {
            0
        } else {
            match first {
                Some(t) => {
                    self.first_recorded = true;
                    t
                },
                None => 0,
            }
        };
        Increments {
            certificates: 1,
            commit_gap,
            bytes,
            samples,
            first_sent,
            latency,
            latency_square: square,
        }
    }
}

} // verus!
