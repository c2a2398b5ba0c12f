//! Latency samples and their percentiles. Samples are durations in whole
//! nanoseconds.
use vstd::prelude::*;
use vstd::relations::{sorted_by, total_ordering};

verus! {

/// The ascending order on samples.
pub open spec fn ascending() -> spec_fn(u128, u128) -> bool {
    |a: u128, b: u128| a <= b
}

/// The samples in ascending order.
pub open spec fn sorted_samples(samples: Seq<u128>) -> Seq<u128> {
    samples.sort_by(ascending())
}

/// The rank of the median among `n` samples: `round((n - 1) * 0.5)`, halves
/// rounded up.
pub open spec fn median_rank(n: nat) -> nat {
    n / 2
}

/// The rank of the 99th percentile among `n` samples:
/// `round((n - 1) * 0.99)`, halves rounded up.
pub open spec fn p99_rank(n: nat) -> nat {
    if n == 0 {
        0
    } else {
        ((99 * (n - 1) + 50) / 100) as nat
    }
}

/// The sample at `rank` in ascending order, or 0 when there is none.
pub open spec fn sample_at_rank(samples: Seq<u128>, rank: nat) -> u128 {
    if samples.len() == 0 {
        0
    } else {
        sorted_samples(samples)[rank as int]
    }
}

/// `slice::sort_unstable`: afterwards the values are in ascending order and
/// are the same values, each as many times as before.
#[verifier::external_body]
fn sort_ascending(samples: &mut Vec<u128>)
    ensures
        final(samples)@.to_multiset() == old(samples)@.to_multiset(),
        sorted_by(final(samples)@, ascending()),
{
    samples.sort_unstable();
}

/// Records latency samples and reports percentiles.
#[derive(Debug)]
pub struct LatencyRecorder {
    samples: Vec<u128>,
}

impl View for LatencyRecorder {
    type V = Seq<u128>;

    /// The samples, in the order recorded.
    closed spec fn view(&self) -> Seq<u128> {
        self.samples@
    }
}

/// `<=` on samples is a total order.
proof fn lemma_ascending_total()
    ensures
        total_ordering(ascending()),
{
}

impl Default for LatencyRecorder {
    fn default() -> (recorder: Self)
        ensures
            recorder@ == Seq::<u128>::empty(),
    {
        Self::new()
    }
}

impl LatencyRecorder {
    pub fn new() -> (recorder: Self)
        ensures
            recorder@ == Seq::<u128>::empty(),
    {
        Self { samples: Vec::new() }
    }

    /// Records one sample, in nanoseconds.
    pub fn record(&mut self, nanos: u128)
        ensures
            final(self)@ == old(self)@.push(nanos),
    {
        self.samples.push(nanos);
    }

    /// The median sample: the one at rank `round((n - 1) * 0.5)` in ascending
    /// order, or 0 with no samples.
    pub fn p50(&self) -> (median: u128)
        ensures
            median == sample_at_rank(self@, median_rank(self@.len())),
    {
        let n = self.samples.len();
        self.value_at_rank(n / 2)
    }

    /// The 99th percentile sample: the one at rank `round((n - 1) * 0.99)` in
    /// ascending order, or 0 with no samples.
    pub fn p99(&self) -> (high: u128)
        ensures
            high == sample_at_rank(self@, p99_rank(self@.len())),
    {
        let n = self.samples.len();
        if n == 0 {
            return 0;
        }
        let rank = (99 * ((n - 1) as u128) + 50) / 100;
        assert(rank < n) by (nonlinear_arith)
            requires
                rank == (99 * (n - 1) + 50) / 100,
                n >= 1,
        ;
        self.value_at_rank(rank as usize)
    }

    /// The number of samples recorded.
    pub fn sample_count(&self) -> (count: usize)
        ensures
            count == self@.len(),
    {
        self.samples.len()
    }

    /// The sample at `rank` in ascending order, or 0 with no samples.
    fn value_at_rank(&self, rank: usize) -> (value: u128)
        requires
            self@.len() == 0 || rank < self@.len(),
        ensures
            value == sample_at_rank(self@, rank as nat),
    {
        if self.samples.len() == 0 {
            return 0;
        }
        let mut sorted = self.samples.clone();
        assert(sorted@ =~= self.samples@);
        sort_ascending(&mut sorted);
        proof {
            lemma_ascending_total();
            self@.lemma_sort_by_ensures(ascending());
            vstd::seq_lib::lemma_sorted_unique(sorted@, sorted_samples(self@), ascending());
            vstd::seq_lib::to_multiset_len(sorted@);
            vstd::seq_lib::to_multiset_len(self@);
        }
        sorted[rank]
    }
}

/// Law: the median never exceeds the 99th percentile.
pub proof fn law_median_at_most_p99(samples: Seq<u128>)
    ensures
        sample_at_rank(samples, median_rank(samples.len())) <= sample_at_rank(
            samples,
            p99_rank(samples.len()),
        ),
{
    let n = samples.len();
    if n > 0 {
        let lo = median_rank(n);
        let hi = p99_rank(n);
        assert(lo <= hi && hi < n) by (nonlinear_arith)
            requires
                lo == n / 2,
                hi == (99 * (n - 1) + 50) / 100,
                n >= 1,
        ;
        lemma_ascending_total();
        samples.lemma_sort_by_ensures(ascending());
        let sorted = sorted_samples(samples);
        assert(sorted.len() == n) by {
            vstd::seq_lib::to_multiset_len(sorted);
            vstd::seq_lib::to_multiset_len(samples);
        }
        if lo < hi {
            assert(ascending()(sorted[lo as int], sorted[hi as int]));
        }
    }
}

/// Law: percentiles depend only on which samples were recorded, not on the
/// order in which they were recorded. Two recorders holding the same samples,
/// each as many times, have the same count and report the same sample at
/// every rank, so the same median and the same 99th percentile.
pub proof fn law_percentiles_ignore_order(a: Seq<u128>, b: Seq<u128>, rank: nat)
    requires
        a.to_multiset() == b.to_multiset(),
    ensures
        a.len() == b.len(),
        sample_at_rank(a, rank) == sample_at_rank(b, rank),
{
    vstd::seq_lib::to_multiset_len(a);
    vstd::seq_lib::to_multiset_len(b);
    lemma_ascending_total();
    a.lemma_sort_by_ensures(ascending());
    b.lemma_sort_by_ensures(ascending());
    vstd::seq_lib::lemma_sorted_unique(sorted_samples(a), sorted_samples(b), ascending());
}

} // verus!
