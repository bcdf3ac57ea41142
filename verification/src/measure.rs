//! Checking sharded two-hop queries against a reference graph and totalling their statistics.
use vstd::prelude::*;
use crate::error::GraphError;
use crate::graph::{Graph, two_hop};
use crate::hub::same_users;
use crate::sharded::ShardedGraph;

verus! {

/// `a` and `b` have equal lengths and each holds every user of the other.
pub open spec fn same_members(a: Seq<u64>, b: Seq<u64>) -> bool {
    &&& a.len() == b.len()
    &&& forall|i: int| 0 <= i < a.len() ==> b.contains(#[trigger] a[i])
    &&& forall|j: int| 0 <= j < b.len() ==> a.contains(#[trigger] b[j])
}

/// Both the direct and the batched query from `source` find the users the reference graph's
/// two-hop query finds.
pub open spec fn answers_match(g: ShardedGraph, reference: Graph, source: u64) -> bool {
    &&& same_members(g.direct_stats(source).user_ids, two_hop(reference.adjacency(), source))
    &&& same_members(g.batched_stats(source).user_ids, two_hop(reference.adjacency(), source))
}

/// Shards touched, cross-shard hops, direct requests and batched requests, summed over the
/// queries from sources `1..=k`.
pub open spec fn query_totals(g: ShardedGraph, k: nat) -> (nat, nat, nat, nat)
    decreases k,
{
    if k == 0 {
        (0, 0, 0, 0)
    } else {
        let t = query_totals(g, (k - 1) as nat);
        let d = g.direct_stats(k as u64);
        let b = g.batched_stats(k as u64);
        (t.0 + d.shards_touched, t.1 + d.cross_shard_hops, t.2 + d.shard_requests, t.3 + b.shard_requests)
    }
}

proof fn lemma_query_totals_mono(g: ShardedGraph, j: nat, k: nat)
    requires
        j <= k,
    ensures
        query_totals(g, j).0 <= query_totals(g, k).0,
        query_totals(g, j).1 <= query_totals(g, k).1,
        query_totals(g, j).2 <= query_totals(g, k).2,
        query_totals(g, j).3 <= query_totals(g, k).3,
    decreases k,
{
    if j < k {
        lemma_query_totals_mono(g, j, (k - 1) as nat);
    }
}

/// Totals of the direct and batched queries from sources `1..=query_count`.
#[derive(Debug, Clone, Copy, PartialEq, Eq)]
pub struct QueryTotals {
    pub shards_touched: usize,
    pub cross_shard_hops: usize,
    pub direct_shard_requests: usize,
    pub batched_shard_requests: usize,
}

/// Runs the direct and the batched two-hop query from every source `1..=query_count`, checks
/// both against `reference`, and sums their statistics. The first source whose answers differ
/// from the reference's is reported.
pub fn measure_queries(reference: &Graph, sharded: &ShardedGraph, query_count: u64) -> (result: Result<QueryTotals, GraphError>)
    requires
        reference.wf(),
        sharded.wf(),
        query_totals(*sharded, query_count as nat).0 <= usize::MAX,
        query_totals(*sharded, query_count as nat).1 <= usize::MAX,
        query_totals(*sharded, query_count as nat).2 <= usize::MAX,
        query_totals(*sharded, query_count as nat).3 <= usize::MAX,
    ensures
        result is Ok <==> forall|s: u64| 1 <= s <= query_count ==> #[trigger] answers_match(*sharded, *reference, s),
        result matches Ok(t) ==> {
            let q = query_totals(*sharded, query_count as nat);
            &&& t.shards_touched == q.0
            &&& t.cross_shard_hops == q.1
            &&& t.direct_shard_requests == q.2
            &&& t.batched_shard_requests == q.3
        },
        result matches Err(e) ==> exists|s: u64| #![trigger answers_match(*sharded, *reference, s)]
            1 <= s <= query_count && e == GraphError::QueryResultMismatch(s) && !answers_match(*sharded, *reference, s)
                && forall|r: u64| 1 <= r < s ==> #[trigger] answers_match(*sharded, *reference, r),
{
    let mut totals = QueryTotals { shards_touched: 0, cross_shard_hops: 0, direct_shard_requests: 0, batched_shard_requests: 0 };
    let mut done: u64 = 0;
    while done < query_count
        invariant
            reference.wf(),
            sharded.wf(),
            done <= query_count,
            query_totals(*sharded, query_count as nat).0 <= usize::MAX,
            query_totals(*sharded, query_count as nat).1 <= usize::MAX,
            query_totals(*sharded, query_count as nat).2 <= usize::MAX,
            query_totals(*sharded, query_count as nat).3 <= usize::MAX,
            forall|r: u64| 1 <= r <= done ==> #[trigger] answers_match(*sharded, *reference, r),
            ({
                let q = query_totals(*sharded, done as nat);
                &&& totals.shards_touched == q.0
                &&& totals.cross_shard_hops == q.1
                &&& totals.direct_shard_requests == q.2
                &&& totals.batched_shard_requests == q.3
            }),
        decreases query_count - done,
    {
        let source = done + 1;
        let expected = reference.get_two_hop_ids(source);
        let direct = sharded.get_two_hop_with_stats(source);
        let batched = sharded.get_two_hop_batched_with_stats(source);
        let direct_ok = same_users(&direct.user_ids, &expected);
        let batched_ok = same_users(&batched.user_ids, &expected);
        proof {
            assert(direct_ok == same_members(sharded.direct_stats(source).user_ids, two_hop(reference.adjacency(), source)));
            assert(batched_ok == same_members(sharded.batched_stats(source).user_ids, two_hop(reference.adjacency(), source)));
        }
        if !direct_ok || !batched_ok {
            proof {
                assert(!answers_match(*sharded, *reference, source));
            }
            return Err(GraphError::QueryResultMismatch(source));
        }
        proof {
            lemma_query_totals_mono(*sharded, source as nat, query_count as nat);
        }
        totals.shards_touched = totals.shards_touched + direct.shards_touched;
        totals.cross_shard_hops = totals.cross_shard_hops + direct.cross_shard_hops;
        totals.direct_shard_requests = totals.direct_shard_requests + direct.shard_requests;
        totals.batched_shard_requests = totals.batched_shard_requests + batched.shard_requests;
        done = source;
    }
    Ok(totals)
}

} // verus!
