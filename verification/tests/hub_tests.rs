use graph_shard_lab::Graph;
use graph_shard_lab::error::GraphError;
use graph_shard_lab::hub::{
    CacheRunStats, HubCacheStats, HubWorkload, adjacency_reads, hub_read_total, rank_by_reads, rank_hubs_by_reads,
    run_real_cached_queries, same_users, simulate_cache_run, simulate_hub_cache_run,
};
use graph_shard_lab::measure::measure_queries;
use graph_shard_lab::sharded::{Placement, ShardedGraph};

fn small_workload() -> HubWorkload {
    HubWorkload { user_count: 4, hub_ids: vec![2, 4], edges: vec![(1, 2), (3, 2), (2, 4), (4, 1)] }
}

#[test]
fn adjacency_reads_count_edges_per_target() {
    let reads = adjacency_reads(&small_workload());
    assert_eq!(reads, vec![0, 1, 2, 0, 1]);
}

#[test]
fn hub_read_total_sums_hub_reads() {
    let workload = small_workload();
    let reads = adjacency_reads(&workload);
    assert_eq!(hub_read_total(&reads, &workload.hub_ids), 3);
    assert_eq!(hub_read_total(&reads, &vec![]), 0);
}

#[test]
fn rank_by_reads_orders_by_reads_then_id() {
    let ranked = rank_by_reads(&vec![0, 1, 2, 0, 1]);
    assert_eq!(ranked, vec![(2, 2), (1, 1), (4, 1), (3, 0)]);
    assert!(rank_by_reads(&vec![]).is_empty());
    assert!(rank_by_reads(&vec![7]).is_empty());
}

#[test]
fn rank_hubs_by_reads_orders_hubs_by_incoming_edges() {
    let edges = vec![(1, 2), (3, 2), (2, 4), (4, 1)];
    assert_eq!(rank_hubs_by_reads(&edges, 3), vec![2, 1, 3]);
    assert!(rank_hubs_by_reads(&edges, 0).is_empty());
}

#[test]
fn hub_cache_run_counts_hub_and_normal_hits() {
    let edges = [(9, 1), (9, 2), (9, 1), (9, 3), (9, 1)];
    let stats = simulate_hub_cache_run(&edges, 2, 1).unwrap();
    assert_eq!(
        stats,
        HubCacheStats { hits: 2, misses: 3, hub_hits: 2, hub_misses: 1, normal_hits: 0, normal_misses: 2 }
    );
}

#[test]
fn hub_cache_run_rejects_zero_capacity() {
    assert_eq!(simulate_hub_cache_run(&[(1, 2)], 0, 1), Err(GraphError::ZeroCacheCapacity));
}

#[test]
fn cache_run_counts_cold_and_startup_hits() {
    let edges = [(9, 1), (9, 2), (9, 1), (9, 3), (9, 1)];
    let cold = simulate_cache_run(&edges, 2, &[], 2).unwrap();
    assert_eq!(cold, CacheRunStats { hits: 2, misses: 3, startup_hits: 0, startup_accesses: 2 });
}

#[test]
fn cache_run_preloads_only_capacity_ids() {
    let edges = [(9, 1), (9, 2), (9, 1), (9, 3), (9, 1)];
    let warmed = simulate_cache_run(&edges, 2, &[3, 1, 2], 2).unwrap();
    assert_eq!(warmed, CacheRunStats { hits: 3, misses: 2, startup_hits: 1, startup_accesses: 2 });
    let long_window = simulate_cache_run(&edges, 2, &[3, 1, 2], 100).unwrap();
    assert_eq!(long_window.startup_accesses, 5);
    assert_eq!(long_window.startup_hits, 3);
    assert_eq!(simulate_cache_run(&edges, 0, &[1], 2), Err(GraphError::ZeroCacheCapacity));
}

#[test]
fn same_users_ignores_order() {
    assert!(same_users(&vec![1, 2, 3], &vec![3, 1, 2]));
    assert!(!same_users(&vec![1, 2], &vec![1, 2, 3]));
    assert!(!same_users(&vec![1, 2], &vec![1, 3]));
    assert!(same_users(&vec![], &vec![]));
}

fn small_graphs() -> (Graph, ShardedGraph) {
    let workload = small_workload();
    let mut reference = Graph::new();
    let mut sharded = ShardedGraph::with_placement_and_cache(2, Placement::Hash, 2).unwrap();
    for id in 1..=workload.user_count {
        reference.add_user(id, &format!("user-{id}")).unwrap();
        sharded.add_user(id, &format!("user-{id}")).unwrap();
    }
    for &(source, target) in &workload.edges {
        reference.add_follow(source, target).unwrap();
        sharded.add_follow(source, target).unwrap();
    }
    (reference, sharded)
}

#[test]
fn real_cached_queries_total_hits_and_misses() {
    let (reference, mut sharded) = small_graphs();
    let stats = run_real_cached_queries(&reference, &mut sharded, 4, 2, 1).unwrap();
    assert_eq!(stats.hits, 1);
    assert_eq!(stats.misses, 3);
    assert_eq!(stats.startup_hits, 0);
    assert_eq!(stats.startup_misses, 2);
}

#[test]
fn real_cached_queries_warm_hubs_first() {
    let (reference, mut sharded) = small_graphs();
    sharded.warm_cache_for_user(2).unwrap();
    let stats = run_real_cached_queries(&reference, &mut sharded, 4, 2, 1).unwrap();
    assert_eq!(stats.hits, 2);
    assert_eq!(stats.misses, 2);
    assert_eq!(stats.startup_hits, 1);
    assert_eq!(stats.startup_misses, 1);
}

#[test]
fn real_cached_queries_reject_uneven_startup_window() {
    let (reference, mut sharded) = small_graphs();
    assert_eq!(run_real_cached_queries(&reference, &mut sharded, 4, 3, 2), Err(GraphError::UnevenStartupWindow));
}

#[test]
fn measure_queries_sums_direct_and_batched_statistics() {
    let (reference, sharded) = small_graphs();
    let totals = measure_queries(&reference, &sharded, 4).unwrap();
    let mut touched = 0;
    let mut hops = 0;
    for source in 1..=4 {
        let direct = sharded.get_two_hop_with_stats(source);
        touched += direct.shards_touched;
        hops += direct.cross_shard_hops;
    }
    assert_eq!(totals.shards_touched, touched);
    assert_eq!(totals.cross_shard_hops, hops);
    assert_eq!(totals.direct_shard_requests, 8);
    assert_eq!(totals.batched_shard_requests, 8);
}

#[test]
fn measure_queries_reports_first_mismatching_source() {
    let (mut reference, sharded) = small_graphs();
    reference.add_follow(3, 4).unwrap();
    assert_eq!(measure_queries(&reference, &sharded, 4), Err(GraphError::QueryResultMismatch(3)));
}

#[test]
fn real_cached_queries_report_first_mismatching_source() {
    let (mut reference, mut sharded) = small_graphs();
    reference.add_follow(3, 4).unwrap();
    assert_eq!(
        run_real_cached_queries(&reference, &mut sharded, 4, 2, 1),
        Err(GraphError::CachedResultMismatch(3))
    );
}

#[test]
fn real_cached_queries_need_caching() {
    let (reference, _) = small_graphs();
    let mut uncached = ShardedGraph::with_placement(2, Placement::Hash).unwrap();
    for id in 1..=4 {
        uncached.add_user(id, &format!("user-{id}")).unwrap();
    }
    assert_eq!(run_real_cached_queries(&reference, &mut uncached, 4, 2, 1), Err(GraphError::CachingDisabled));
    let stats = run_real_cached_queries(&reference, &mut uncached, 0, 2, 1).unwrap();
    assert_eq!((stats.hits, stats.misses, stats.startup_hits, stats.startup_misses), (0, 0, 0, 0));
}
