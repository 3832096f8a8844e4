use vstd::prelude::*;
use crate::endpoint::Endpoint;

verus! {

/// How many of the endpoints are marked healthy.
pub open spec fn count_healthy(s: Seq<Endpoint>) -> nat
    decreases s.len(),
{
    if s.len() == 0 {
        0
    } else {
        count_healthy(s.drop_last()) + if s.last().healthy { 1nat } else { 0nat }
    }
}

/// The healthy count never exceeds the number of endpoints.
pub proof fn lemma_count_healthy_bound(s: Seq<Endpoint>)
    ensures
        count_healthy(s) <= s.len(),
    decreases s.len(),
{
    if s.len() > 0 {
        lemma_count_healthy_bound(s.drop_last());
    }
}

/// Pool summary: the control-plane view of desired against actual pool.
/// `degraded = pool_size - healthy`, and `healthy` counts the endpoints marked healthy.
#[derive(Debug, Clone, PartialEq, Eq)]
pub struct PoolSummary {
    pub target: usize,
    pub pool_size: usize,
    pub healthy: usize,
    pub degraded: usize,
    pub endpoints: Vec<Endpoint>,
}

/// The state word of a pool: `initializing` while empty, `ok` when nothing is degraded,
/// `degraded` otherwise.
pub open spec fn status_of(pool_size: usize, degraded: usize) -> Seq<char> {
    if pool_size == 0 {
        "initializing"@
    } else if degraded == 0 {
        "ok"@
    } else {
        "degraded"@
    }
}

impl PoolSummary {
    /// The summary of `endpoints` against the desired `target`.
    pub open spec fn summarizes(self, target: usize, endpoints: Seq<Endpoint>) -> bool {
        &&& self.target == target
        &&& self.pool_size == endpoints.len()
        &&& self.healthy == count_healthy(endpoints)
        &&& self.degraded == endpoints.len() - count_healthy(endpoints)
        &&& self.endpoints@ == endpoints
    }

    pub fn from_endpoints(target: usize, endpoints: Vec<Endpoint>) -> (s: PoolSummary)
        ensures
            s.summarizes(target, endpoints@),
            s.healthy + s.degraded == s.pool_size,
    {
        let mut healthy: usize = 0;
        let mut i: usize = 0;
        while i < endpoints.len()
            invariant
                i <= endpoints.len(),
                healthy == count_healthy(endpoints@.take(i as int)),
                healthy <= i,
            decreases endpoints.len() - i,
        {
            assert(endpoints@.take((i + 1) as int).drop_last() =~= endpoints@.take(i as int));
            if endpoints[i].healthy {
                healthy = healthy + 1;
            }
            i = i + 1;
        }
        assert(endpoints@.take(endpoints.len() as int) =~= endpoints@);
        let pool_size = endpoints.len();
        PoolSummary {
            target,
            pool_size,
            healthy,
            degraded: pool_size.saturating_sub(healthy),
            endpoints,
        }
    }

    /// `initializing`, `ok` or `degraded`.
    pub fn status(&self) -> (r: &'static str)
        ensures
            r@ == status_of(self.pool_size, self.degraded),
    {
        if self.pool_size == 0 {
            "initializing"
        } else if self.degraded == 0 {
            "ok"
        } else {
            "degraded"
        }
    }
}

} // verus!
