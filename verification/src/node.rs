//! What a node decides before it runs: how loud it logs, which worker it
//! is, with which parameters it runs, and how long it waits before it asks
//! again for a certificate that has not come.

use vstd::prelude::*;

verus! {

/// Capacity of every channel between the components: a full channel holds
/// its sender back.
pub const CHANNEL_CAPACITY: usize = 1_000;

/// The log filter for a number of `-v` flags.
pub open spec fn level_name(verbosity: u64) -> Seq<char> {
    if verbosity == 0 {
        "error"@
    } else if verbosity == 1 {
        "warn"@
    } else if verbosity == 2 {
        "info"@
    } else if verbosity == 3 {
        "debug"@
    } else {
        "trace"@
    }
}

/// The log filter for a number of `-v` flags: errors only without any, and
/// one level more for each flag up to four.
pub fn log_level(verbosity: u64) -> (r: &'static str)
    ensures
        r@ == level_name(verbosity),
{
    if verbosity == 0 {
        "error"
    } else if verbosity == 1 {
        "warn"
    } else if verbosity == 2 {
        "info"
    } else if verbosity == 3 {
        "debug"
    } else {
        "trace"
    }
}

pub open spec fn is_digit(b: u8) -> bool {
    48 <= b <= 57
}

pub open spec fn all_digits(s: Seq<u8>) -> bool {
    forall|i: int| 0 <= i < s.len() ==> is_digit(#[trigger] s[i])
}

/// The number that a string of decimal digits writes.
pub open spec fn decimal(s: Seq<u8>) -> int
    decreases s.len(),
{
    if s.len() == 0 {
        0
    } else {
        decimal(s.drop_last()) * 10 + (s.last() - 48)
    }
}

/// The text without a leading plus sign.
pub open spec fn unsigned_part(text: Seq<u8>) -> Seq<u8> {
    if text.len() > 0 && text[0] == 43 {
        text.subrange(1, text.len() as int)
    } else {
        text
    }
}

/// The worker identifier that `text` writes: one or more decimal digits,
/// after a plus sign or none, that make a number of 32 bits.
pub open spec fn worker_id_of(text: Seq<u8>) -> Option<u32> {
    let digits = unsigned_part(text);
    if digits.len() > 0 && all_digits(digits) && decimal(digits) <= u32::MAX {
        Some(decimal(digits) as u32)
    } else {
        None
    }
}

proof fn lemma_decimal_grows(s: Seq<u8>, i: int)
    requires
        all_digits(s),
        0 <= i <= s.len(),
    ensures
        0 <= decimal(s.take(i)) <= decimal(s),
    decreases s.len() - i,
{
    if i < s.len() {
        lemma_decimal_grows(s, i + 1);
        assert(s.take(i + 1).drop_last() =~= s.take(i));
        assert(is_digit(s[i]));
        assert(s.take(i + 1).last() == s[i]);
        lemma_decimal_nonnegative(s.take(i));
    } else {
        assert(s.take(i) =~= s);
        lemma_decimal_nonnegative(s);
    }
}

proof fn lemma_decimal_nonnegative(s: Seq<u8>)
    requires
        all_digits(s),
    ensures
        decimal(s) >= 0,
    decreases s.len(),
{
    if s.len() > 0 {
        assert(is_digit(s[s.len() - 1]));
        assert forall|i: int| 0 <= i < s.drop_last().len() implies is_digit(
            #[trigger] s.drop_last()[i],
        ) by {
            assert(s.drop_last()[i] == s[i]);
        }
        lemma_decimal_nonnegative(s.drop_last());
    }
}

/// Reads a worker identifier. There is none unless the text is one or more
/// decimal digits, after a plus sign or none, that make a number of 32 bits.
pub fn parse_worker_id(text: &[u8]) -> (r: Option<u32>)
    ensures
        r == worker_id_of(text@),
{
    let n: usize = text.len();
    let start: usize = if n > 0 && text[0] == 43 {
        1
    } else {
        0
    };
    let ghost digits = unsigned_part(text@);
    if start == n {
        return None;
    }
    let mut acc: u64 = 0;
    let mut i: usize = start;
    assert(digits.take(0) =~= Seq::<u8>::empty());
    while i < n
        invariant
            n == text.len(),
            start <= i <= n,
            start <= 1,
            digits == unsigned_part(text@),
            digits.len() == n - start,
            forall|x: int| 0 <= x < digits.len() ==> digits[x] == text@[x + start],
            forall|x: int| 0 <= x < i - start ==> is_digit(#[trigger] digits[x]),
            acc == decimal(digits.take(i - start)),
            acc <= u32::MAX,
        decreases n - i,
    {
        let b: u8 = text[i];
        assert(digits[i - start] == b);
        if b < 48 || b > 57 {
            return None;
        }
        let next: u64 = acc * 10 + ((b - 48) as u64);
        proof {
            assert(digits.take(i - start + 1).drop_last() =~= digits.take(i - start));
            assert(digits.take(i - start + 1).last() == b);
            assert(next == decimal(digits.take(i - start + 1)));
        }
        if next > 0xffff_ffff {
            proof {
                if all_digits(digits) {
                    lemma_decimal_grows(digits, i - start + 1);
                }
            }
            return None;
        }
        acc = next;
        i = i + 1;
    }
    proof {
        assert(digits.take(n - start) =~= digits);
    }
    Some(acc as u32)
}

/// The parameters that a node runs with.
#[derive(Clone, Copy, PartialEq, Eq, Structural, Debug)]
pub struct Parameters {
    /// Number of batch digests that make a header worth sending.
    pub header_size: usize,
    /// Milliseconds after which a header is sent whatever it carries.
    pub max_header_delay: u64,
    /// Number of rounds, a committed leader's own counted, whose
    /// certificates are still admitted and may still be committed.
    pub gc_depth: u64,
    /// Milliseconds before a request for a missing certificate is repeated
    /// for the first time; the wait doubles with each repetition.
    pub sync_retry_delay: u64,
    /// The longest wait between two requests, in milliseconds.
    pub sync_max_delay: u64,
    /// Number of requests after which a missing certificate is given up.
    pub sync_max_retries: u32,
    /// Number of authorities that a repeated request is sent to.
    pub sync_retry_nodes: usize,
    /// Bytes that make a batch worth sending.
    pub batch_size: usize,
    /// Milliseconds after which a batch is sent whatever it holds.
    pub max_batch_delay: u64,
}

/// The parameters of a node that is told none.
pub open spec fn default_parameters() -> Parameters {
    Parameters {
        header_size: 1_000,
        max_header_delay: 100,
        gc_depth: 50,
        sync_retry_delay: 5_000,
        sync_max_delay: 60_000,
        sync_max_retries: 10,
        sync_retry_nodes: 3,
        batch_size: 500_000,
        max_batch_delay: 100,
    }
}

impl Default for Parameters {
    fn default() -> (r: Parameters)
        ensures
            r == default_parameters(),
    {
        Parameters {
            header_size: 1_000,
            max_header_delay: 100,
            gc_depth: 50,
            sync_retry_delay: 5_000,
            sync_max_delay: 60_000,
            sync_max_retries: 10,
            sync_retry_nodes: 3,
            batch_size: 500_000,
            max_batch_delay: 100,
        }
    }
}

pub open spec fn lesser(a: int, b: int) -> int {
    if a <= b {
        a
    } else {
        b
    }
}

/// The wait before the request numbered `attempt`, counted from zero: the
/// first delay, doubled with each attempt, and never more than `cap`.
pub open spec fn backoff(delay: int, cap: int, attempt: nat) -> int
    decreases attempt,
{
    if attempt == 0 {
        lesser(delay, cap)
    } else {
        lesser(2 * backoff(delay, cap, (attempt - 1) as nat), cap)
    }
}

impl Parameters {
    /// The wait in milliseconds before a missing certificate is asked for
    /// again, after `attempt` earlier requests; none once the requests
    /// allowed are used up, so that a peer that never answers is given up.
    pub fn retry_delay(&self, attempt: u32) -> (r: Option<u64>)
        ensures
            r == if attempt >= self.sync_max_retries {
                None
            } else {
                Some(
                    backoff(
                        self.sync_retry_delay as int,
                        self.sync_max_delay as int,
                        attempt as nat,
                    ) as u64,
                )
            },
    {
        if attempt >= self.sync_max_retries {
            return None;
        }
        let cap: u64 = self.sync_max_delay;
        let mut wait: u64 = if self.sync_retry_delay <= cap {
            self.sync_retry_delay
        } else {
            cap
        };
        let mut k: u32 = 0;
        while k < attempt
            invariant
                0 <= k <= attempt,
                cap == self.sync_max_delay,
                wait <= cap,
                wait == backoff(self.sync_retry_delay as int, cap as int, k as nat),
            decreases attempt - k,
        {
            wait = if wait > cap - wait {
                cap
            } else {
                wait + wait
            };
            k = k + 1;
        }
        Some(wait)
    }
}

} // verus!
