use graph_shard_lab::cache::{AdjacencyLruCache, EvictionPolicy};
use graph_shard_lab::cache_benchmark::{
    RunStats, adjacency_for, build_caches, cached_two_hop, first_hops_for, policy_name, run_queries, shard_for,
    uncached_two_hop, warm_hubs,
};

#[test]
fn workload_formulas_give_expected_users() {
    assert_eq!(adjacency_for(1), vec![49, 66, 83, 100, 117, 134, 151, 168]);
    // the products and sums wrap at 2^64
    assert_eq!(adjacency_for(1 << 63), vec![5826, 5843, 5860, 5877, 5894, 5911, 5928, 5945]);
    assert_eq!(first_hops_for(1), vec![1, 38, 198, 8117, 6136, 4155, 2174, 193]);
    assert_eq!(shard_for(7), 3);
    assert_eq!(policy_name(EvictionPolicy::Fifo), "fifo");
    let stats = RunStats { queries: 1, hits: 3, misses: 5 };
    assert_eq!(stats.total_accesses(), 8);
}

#[test]
fn cached_query_matches_uncached_query() {
    let expected = uncached_two_hop(1);
    assert_eq!(expected.len(), 64);
    assert_eq!(&expected[..4], &[49, 66, 83, 100]);
    assert_eq!(expected[63], 8942);
    let mut caches = build_caches(2, EvictionPolicy::Lru).unwrap();
    let (first, hits, misses) = cached_two_hop(1, &mut caches);
    assert_eq!(first, expected);
    assert_eq!((hits, misses), (0, 8));
    let (again, hits, misses) = cached_two_hop(1, &mut caches);
    assert_eq!(again, expected);
    assert_eq!(hits + misses, 8);
    assert!(hits > 0);
}

#[test]
fn stale_cache_entries_are_used_as_they_are() {
    let mut caches: Vec<AdjacencyLruCache> = build_caches(4, EvictionPolicy::Lru).unwrap();
    // user 1 lives on shard 1; a list cached there for it is read instead of its targets
    caches[1].insert(1, vec![0, 7]);
    let (ids, hits, misses) = cached_two_hop(1, &mut caches);
    assert_eq!((hits, misses), (1, 7));
    assert_eq!(&ids[..2], &[0, 7]);
}

#[test]
fn warming_fills_the_hub_lists() {
    let mut caches = build_caches(50, EvictionPolicy::Lru).unwrap();
    warm_hubs(&mut caches);
    assert_eq!(caches.iter().map(|c| c.len()).sum::<usize>(), 100);
    let (_, hits, misses) = cached_two_hop(1, &mut caches);
    assert_eq!((hits, misses), (2, 6));
}

#[test]
fn runs_count_every_access() {
    assert_eq!(run_queries(0, EvictionPolicy::Lru, false).unwrap_err(), "Cache capacity must be greater than zero");
    let cold = run_queries(25, EvictionPolicy::Lfu, false).unwrap();
    assert_eq!(cold.queries, 10_000);
    assert_eq!(cold.hits + cold.misses, 80_000);
    let warm = run_queries(25, EvictionPolicy::Lfu, true).unwrap();
    assert_eq!(warm.hits + warm.misses, 80_000);
}
