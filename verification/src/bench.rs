use vstd::prelude::*;
use vstd::relations::{sorted_by, total_ordering};

verus! {

/// `s` is in ascending order.
pub open spec fn ascending(s: Seq<u64>) -> bool {
    forall|i: int, j: int| 0 <= i <= j < s.len() ==> s[i] <= s[j]
}

/// `t` holds the entries of `s`, in ascending order.
pub open spec fn is_ascending_arrangement(t: Seq<u64>, s: Seq<u64>) -> bool {
    ascending(t) && t.to_multiset() == s.to_multiset()
}

/// `slice::sort_unstable` on a vector of `u64`: the documentation promises
/// that afterwards the vector is sorted in ascending order and holds the
/// same entries as before.
#[verifier::external_body]
fn sort_unstable(v: &mut Vec<u64>)
    ensures
        is_ascending_arrangement(final(v)@, old(v)@),
{
    v.sort_unstable();
}

/// A sample set has exactly one ascending arrangement.
pub proof fn law_ascending_arrangement_unique(s: Seq<u64>, t1: Seq<u64>, t2: Seq<u64>)
    requires
        is_ascending_arrangement(t1, s),
        is_ascending_arrangement(t2, s),
    ensures
        t1 == t2,
{
    let leq = |a: u64, b: u64| a <= b;
    assert(total_ordering(leq));
    assert(sorted_by(t1, leq));
    assert(sorted_by(t2, leq));
    vstd::seq_lib::lemma_sorted_unique(t1, t2, leq);
}

/// Benchmark harness comparing CPU and GPU execution times.
pub struct BenchmarkHarness {
    pub warmup_iters: usize,
    pub bench_iters: usize,
}

impl BenchmarkHarness {
    pub fn new(warmup_iters: usize, bench_iters: usize) -> (r: Self)
        ensures
            r.warmup_iters == warmup_iters,
            r.bench_iters == bench_iters,
    {
        BenchmarkHarness { warmup_iters, bench_iters }
    }

    /// The time reported for a run of `bench_iters` timed samples: the
    /// sample at index `bench_iters / 2` once the samples are in ascending
    /// order (the upper median).
    pub fn median_ns(&self, times: Vec<u64>) -> (r: u64)
        requires
            times@.len() == self.bench_iters,
            self.bench_iters > 0,
        ensures
            exists|t: Seq<u64>|
                #[trigger] is_ascending_arrangement(t, times@) && r == t[(self.bench_iters / 2) as int],
    {
        let mut sorted = times;
        sort_unstable(&mut sorted);
        proof {
            vstd::seq_lib::to_multiset_len(sorted@);
            vstd::seq_lib::to_multiset_len(times@);
        }
        let r = sorted[self.bench_iters / 2];
        assert(is_ascending_arrangement(sorted@, times@));
        r
    }
}

} // verus!
