use graph_shard_lab::cache::EvictionPolicy;
use graph_shard_lab::sharded::{Placement, ShardedGraph};

#[test]
fn hash_placement_balances_users() {
    let mut graph = ShardedGraph::new(4).unwrap();

    for id in 1..=8 {
        graph.add_user(id, &format!("user-{id}")).unwrap();
    }

    assert_eq!(graph.users_per_shard(), vec![2, 2, 2, 2]);
}

#[test]
fn creates_requested_cache_policy_for_every_shard() {
    let graph = ShardedGraph::new_with_cache_policy(4, 100, EvictionPolicy::Lfu).unwrap();

    let caches = graph.caches().unwrap();

    assert_eq!(caches.len(), 4);

    for cache in caches {
        assert_eq!(cache.policy(), EvictionPolicy::Lfu);
        assert_eq!(cache.capacity(), 100);
        assert_eq!(cache.byte_capacity(), None);
    }
}

#[test]
fn creates_policy_cache_with_byte_limit_for_every_shard() {
    let graph =
        ShardedGraph::new_with_policy_and_byte_bounded_cache(3, 50, 4096, EvictionPolicy::Fifo)
            .unwrap();

    let caches = graph.caches().unwrap();

    assert_eq!(caches.len(), 3);

    for cache in caches {
        assert_eq!(cache.policy(), EvictionPolicy::Fifo);
        assert_eq!(cache.capacity(), 50);
        assert_eq!(cache.byte_capacity(), Some(4096));
        assert_eq!(cache.current_bytes(), 0);
    }
}

#[test]
fn creates_byte_bounded_cache_for_every_shard() {
    let graph = ShardedGraph::new_with_byte_bounded_cache(4, 100, 4096).unwrap();

    let caches = graph.caches().unwrap();

    assert_eq!(caches.len(), 4);

    for cache in caches {
        assert_eq!(cache.capacity(), 100);
        assert_eq!(cache.byte_capacity(), Some(4096));
        assert_eq!(cache.current_bytes(), 0);
    }
}

#[test]
fn byte_bounded_cache_rejects_zero_byte_capacity() {
    assert!(ShardedGraph::new_with_byte_bounded_cache(4, 100, 0).is_err());
}

#[test]
fn oversized_adjacency_is_not_cached_by_sharded_graph() {
    let mut graph = ShardedGraph::new_with_byte_bounded_cache(2, 10, 1).unwrap();

    graph.add_user(1, "Alice").unwrap();
    graph.add_user(2, "Bob").unwrap();
    graph.add_user(3, "Charlie").unwrap();

    graph.add_follow(1, 2).unwrap();
    graph.add_follow(2, 3).unwrap();

    let first = graph.get_two_hop_with_cache_stats(1).unwrap();

    assert_eq!(first.user_ids, vec![3]);
    assert_eq!(first.cache_hits, 0);
    assert_eq!(first.cache_misses, 1);

    // The adjacency list cannot fit into a one-byte cache,
    // so the second query must miss again.
    let second = graph.get_two_hop_with_cache_stats(1).unwrap();

    assert_eq!(second.user_ids, vec![3]);
    assert_eq!(second.cache_hits, 0);
    assert_eq!(second.cache_misses, 1);
}

#[test]
fn warming_preloads_real_adjacency_data() {
    let mut graph = build_cached_sample_graph();

    graph.warm_cache_for_user(2).unwrap();

    let result = graph.get_two_hop_with_cache_stats(1).unwrap();

    // User 1 follows users 2 and 3.
    // User 2 was warmed, while user 3 was not.
    assert_eq!(result.cache_hits, 1);
    assert_eq!(result.cache_misses, 1);
}

#[test]
fn community_placement_keeps_communities_together() {
    let mut graph =
        ShardedGraph::with_placement(2, Placement::Community { community_size: 4 }).unwrap();

    for id in 1..=8 {
        graph.add_user(id, &format!("user-{id}")).unwrap();
    }

    assert_eq!(graph.users_per_shard(), vec![4, 4]);

    assert_eq!(graph.placement_for_user(1), graph.placement_for_user(4));

    assert_eq!(graph.placement_for_user(5), graph.placement_for_user(8));

    assert_ne!(graph.placement_for_user(1), graph.placement_for_user(5));
}

fn build_cached_sample_graph() -> ShardedGraph {
    let mut graph = ShardedGraph::new_with_cache(2, 10).unwrap();

    for id in 1..=4 {
        graph.add_user(id, &format!("user-{id}")).unwrap();
    }

    graph.add_follow(1, 2).unwrap();
    graph.add_follow(1, 3).unwrap();
    graph.add_follow(2, 3).unwrap();
    graph.add_follow(3, 4).unwrap();

    graph
}

#[test]
fn cached_sharded_query_matches_uncached_query() {
    let mut graph = build_cached_sample_graph();

    let mut expected = graph.get_two_hop_with_stats(1).user_ids;

    let cached = graph.get_two_hop_with_cache_stats(1).unwrap();

    let mut actual = cached.user_ids;

    expected.sort_unstable();
    actual.sort_unstable();

    assert_eq!(actual, expected);
}

#[test]
fn observed_traffic_warming_preloads_hottest_adjacencies() {
    let mut graph = ShardedGraph::new_with_cache(1, 2).unwrap();

    for user_id in 1..=6 {
        graph.add_user(user_id, &format!("user-{user_id}")).unwrap();
    }

    // Querying User 1 reads adjacency lists for Users 2 and 3.
    graph.add_follow(1, 2).unwrap();
    graph.add_follow(1, 3).unwrap();

    // These queries create two additional accesses for User 2.
    graph.add_follow(4, 2).unwrap();
    graph.add_follow(5, 2).unwrap();

    graph.get_two_hop_with_cache_stats(1).unwrap();
    graph.get_two_hop_with_cache_stats(4).unwrap();
    graph.get_two_hop_with_cache_stats(5).unwrap();

    assert_eq!(graph.observed_adjacency_access_count(2), 3);

    assert_eq!(graph.observed_adjacency_access_count(3), 1);

    // Clear the existing cache and warm only one user per shard.
    let warmed = graph.warm_cache_from_observed_traffic(1).unwrap();

    assert_eq!(warmed, 1);

    /*
    User 2 was hottest and should be a hit.
    User 3 was not warmed and should be a miss.
    */
    let result = graph.get_two_hop_with_cache_stats(1).unwrap();

    assert_eq!(result.cache_hits, 1);
    assert_eq!(result.cache_misses, 1);
}

#[test]
fn observed_access_counts_can_be_cleared() {
    let mut graph = ShardedGraph::new_with_cache(1, 10).unwrap();

    graph.add_user(1, "Alice").unwrap();
    graph.add_user(2, "Bob").unwrap();

    graph.add_follow(1, 2).unwrap();

    graph.get_two_hop_with_cache_stats(1).unwrap();

    assert_eq!(graph.observed_adjacency_access_count(2), 1);

    graph.clear_observed_adjacency_accesses();

    assert_eq!(graph.observed_adjacency_access_count(2), 0);
}

#[test]
fn observed_traffic_warming_requires_enabled_cache() {
    let mut graph = ShardedGraph::new(2).unwrap();

    assert!(graph.warm_cache_from_observed_traffic(10).is_err());
}

#[test]
fn observed_traffic_warming_rejects_zero_limit() {
    let mut graph = ShardedGraph::new_with_cache(2, 10).unwrap();

    assert!(graph.warm_cache_from_observed_traffic(0).is_err());
}

#[test]
fn cached_sharded_query_misses_then_hits() {
    let mut graph = build_cached_sample_graph();

    let first = graph.get_two_hop_with_cache_stats(1).unwrap();

    assert_eq!(first.cache_hits, 0);
    assert_eq!(first.cache_misses, 2);

    let second = graph.get_two_hop_with_cache_stats(1).unwrap();

    assert_eq!(second.cache_hits, 2);
    assert_eq!(second.cache_misses, 0);
}

#[test]
fn cached_query_rejects_graph_without_caches() {
    let mut graph = ShardedGraph::new(2).unwrap();

    assert!(graph.get_two_hop_with_cache_stats(1).is_err());
}

#[test]
fn existing_constructor_keeps_caching_disabled() {
    let graph = ShardedGraph::new(4).unwrap();

    assert!(graph.caches().is_none());
}

#[test]
fn cached_constructor_creates_one_cache_per_shard() {
    let graph = ShardedGraph::new_with_cache(4, 100).unwrap();

    let caches = graph.caches().unwrap();

    assert_eq!(caches.len(), 4);

    for cache in caches {
        assert_eq!(cache.capacity(), 100);
        assert!(cache.is_empty());
    }
}

#[test]
fn cached_constructor_rejects_zero_capacity() {
    assert!(ShardedGraph::new_with_cache(4, 0).is_err());
}

#[test]
fn balanced_placement_handles_uneven_communities() {
    /*
    Communities:

    users 1-4  = size 4
    users 5-7  = size 3
    users 8-9  = size 2
    user 10    = size 1

    Balanced assignment across three shards:

    shard 0 = 4 users
    shard 1 = 3 users
    shard 2 = 3 users
    */
    let mut graph = ShardedGraph::with_balanced_communities(3, vec![4, 3, 2, 1]).unwrap();

    for id in 1..=10 {
        graph.add_user(id, &format!("user-{id}")).unwrap();
    }

    assert_eq!(graph.users_per_shard(), vec![4, 3, 3]);

    assert_eq!(graph.placement_for_user(1), graph.placement_for_user(4));

    assert_eq!(graph.placement_for_user(5), graph.placement_for_user(7));

    assert_eq!(graph.placement_for_user(8), graph.placement_for_user(10));

    assert!(graph.add_user(11, "outside-range").is_err());
}

#[test]
fn supports_cross_shard_edges() {
    let mut graph = ShardedGraph::new(4).unwrap();

    graph.add_user(1, "Alice").unwrap();
    graph.add_user(2, "Bob").unwrap();

    graph.add_follow(1, 2).unwrap();

    assert_eq!(graph.get_following_ids(1), &[2]);
}

#[test]
fn supports_cross_shard_two_hop_queries() {
    let mut graph = ShardedGraph::new(4).unwrap();

    graph.add_user(1, "Alice").unwrap();
    graph.add_user(2, "Bob").unwrap();
    graph.add_user(3, "Charlie").unwrap();
    graph.add_user(4, "Diana").unwrap();

    graph.add_follow(1, 2).unwrap();
    graph.add_follow(2, 3).unwrap();
    graph.add_follow(2, 4).unwrap();

    assert_eq!(graph.get_two_hop_ids(1), vec![3, 4]);
}

#[test]
fn records_query_statistics() {
    let mut graph = ShardedGraph::new(4).unwrap();

    graph.add_user(1, "Alice").unwrap();
    graph.add_user(2, "Bob").unwrap();
    graph.add_user(3, "Charlie").unwrap();

    graph.add_follow(1, 2).unwrap();
    graph.add_follow(2, 3).unwrap();

    let result = graph.get_two_hop_with_stats(1);

    assert_eq!(result.user_ids, vec![3]);
    assert_eq!(result.shards_touched, 3);
    assert_eq!(result.cross_shard_hops, 2);
    assert_eq!(result.shard_requests, 2);
}

#[test]
fn edge_mutations_invalidate_cached_adjacency_lists() {
    let mut graph = ShardedGraph::new_with_cache(2, 10).unwrap();

    graph.add_user(1, "Alice").unwrap();
    graph.add_user(2, "Bob").unwrap();
    graph.add_user(3, "Charlie").unwrap();
    graph.add_user(4, "Diana").unwrap();

    graph.add_follow(1, 2).unwrap();
    graph.add_follow(2, 3).unwrap();

    // First query loads User 2's adjacency list into its shard cache.
    let first = graph.get_two_hop_with_cache_stats(1).unwrap();

    assert_eq!(first.user_ids, vec![3]);
    assert_eq!(first.cache_hits, 0);
    assert_eq!(first.cache_misses, 1);

    // User 2's adjacency list changes from [3] to [3, 4].
    graph.add_follow(2, 4).unwrap();

    // The old cached [3] must have been invalidated.
    let after_add = graph.get_two_hop_with_cache_stats(1).unwrap();

    assert_eq!(after_add.user_ids, vec![3, 4]);
    assert_eq!(after_add.cache_hits, 0);
    assert_eq!(after_add.cache_misses, 1);

    // The fresh [3, 4] is now cached.
    let repeated = graph.get_two_hop_with_cache_stats(1).unwrap();

    assert_eq!(repeated.user_ids, vec![3, 4]);
    assert_eq!(repeated.cache_hits, 1);
    assert_eq!(repeated.cache_misses, 0);

    // Remove 2 → 3, changing User 2's adjacency list to [4].
    let removed = graph.remove_follow(2, 3).unwrap();

    assert!(removed);

    // Removal must invalidate the cached [3, 4].
    let after_remove = graph.get_two_hop_with_cache_stats(1).unwrap();

    assert_eq!(after_remove.user_ids, vec![4]);
    assert_eq!(after_remove.cache_hits, 0);
    assert_eq!(after_remove.cache_misses, 1);
}

#[test]
fn batches_first_hop_reads_by_shard() {
    let mut graph = ShardedGraph::new(4).unwrap();

    for id in [1, 2, 3, 6, 7] {
        graph.add_user(id, &format!("user-{id}")).unwrap();
    }

    graph.add_follow(1, 2).unwrap();
    graph.add_follow(1, 6).unwrap();
    graph.add_follow(2, 3).unwrap();
    graph.add_follow(6, 7).unwrap();

    let direct = graph.get_two_hop_with_stats(1);
    let batched = graph.get_two_hop_batched_with_stats(1);

    let mut direct_ids = direct.user_ids;
    let mut batched_ids = batched.user_ids;

    direct_ids.sort_unstable();
    batched_ids.sort_unstable();

    assert_eq!(direct_ids, batched_ids);
    assert_eq!(direct_ids, vec![3, 7]);

    assert_eq!(direct.shard_requests, 3);
    assert_eq!(batched.shard_requests, 2);

    assert_eq!(direct.shards_touched, batched.shards_touched);
    assert_eq!(direct.cross_shard_hops, batched.cross_shard_hops);
}
