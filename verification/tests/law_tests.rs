use graph_shard_lab::cache::{AdjacencyLruCache, IdLruSimulator};
use graph_shard_lab::distributed::{check_config, group_by_shard, merge_second_hops, plan_add_follow, plan_add_user};
use graph_shard_lab::error::GraphError;
use graph_shard_lab::sharded::{Placement, ShardedGraph, parse_placement_info};
use graph_shard_lab::splitting::{apply_splitting_plan, plan_community_splitting};
use std::collections::HashSet;

#[test]
fn cached_queries_follow_edge_changes() {
    let mut graph = ShardedGraph::new_with_cache(2, 8).unwrap();
    for id in 1..=6 {
        graph.add_user(id, &format!("user-{id}")).unwrap();
    }
    graph.add_follow(1, 2).unwrap();
    graph.add_follow(1, 3).unwrap();
    graph.add_follow(2, 4).unwrap();
    graph.add_follow(3, 5).unwrap();
    let first = graph.get_two_hop_with_cache_stats(1).unwrap();
    assert_eq!(first.user_ids, graph.get_two_hop_ids(1));
    assert_eq!((first.cache_hits, first.cache_misses), (0, 2));
    // the edge changes drop the stale cached lists, so the next query still agrees
    graph.add_follow(2, 6).unwrap();
    assert!(graph.remove_follow(3, 5).unwrap());
    let second = graph.get_two_hop_with_cache_stats(1).unwrap();
    assert_eq!(second.user_ids, vec![4, 6]);
    assert_eq!(second.user_ids, graph.get_two_hop_ids(1));
    assert_eq!((second.cache_hits, second.cache_misses), (0, 2));
    let third = graph.get_two_hop_with_cache_stats(1).unwrap();
    assert_eq!(third.user_ids, second.user_ids);
    assert_eq!((third.cache_hits, third.cache_misses), (2, 0));
}

#[test]
fn batched_grouping_reaches_the_same_users() {
    let groups = group_by_shard(&[5, 2, 7, 4], 2).unwrap();
    assert_eq!(groups, vec![(0, vec![2, 4]), (1, vec![5, 7])]);
    assert_eq!(group_by_shard(&[3, 0], 2).unwrap_err(), "Cannot find shard for user 0");
    // lists of the first hops 5, 2, 7, 4 read one by one, then grouped by worker
    let direct = vec![vec![9, 1], vec![3], vec![1, 8], vec![3, 5]];
    let batched = vec![vec![3], vec![3, 5], vec![9, 1], vec![1, 8]];
    assert_eq!(merge_second_hops(&direct, 5), vec![1, 3, 8, 9]);
    assert_eq!(merge_second_hops(&direct, 5), merge_second_hops(&batched, 5));
}

#[test]
fn coordinator_decisions_and_messages() {
    assert_eq!(check_config(0, 4).unwrap_err(), "Shard count must be greater than zero");
    assert_eq!(check_config(2, 0).unwrap_err(), "Channel capacity must be greater than zero");
    assert!(check_config(2, 4).is_ok());
    let mut users = HashSet::new();
    assert_eq!(plan_add_user(&users, 0, 3).unwrap_err(), "User ID must be greater than zero");
    assert_eq!(plan_add_user(&users, 7, 3).unwrap(), 1);
    users.insert(7);
    assert_eq!(plan_add_user(&users, 7, 3).unwrap_err(), "User 7 already exists");
    assert_eq!(plan_add_follow(&users, 7, 8, 3).unwrap_err(), "Target user 8 does not exist");
    assert_eq!(plan_add_follow(&users, 9, 7, 3).unwrap_err(), "Source user 9 does not exist");
    users.insert(8);
    assert_eq!(plan_add_follow(&users, 8, 7, 3).unwrap(), 2);
}

#[test]
fn placement_text_reads_back() {
    let placement = Placement::BalancedCommunity { community_sizes: vec![5, 3], community_to_shard: vec![1, 0] };
    let graph = ShardedGraph::with_placement(2, placement.clone()).unwrap();
    let info = graph.placement_info();
    assert_eq!(info, "BalancedCommunity:5,3:1,0");
    match parse_placement_info(&info).unwrap() {
        Placement::BalancedCommunity { community_sizes, community_to_shard } => {
            assert_eq!(community_sizes, vec![5, 3]);
            assert_eq!(community_to_shard, vec![1, 0]);
        }
        other => panic!("unexpected placement {other:?}"),
    }
    assert!(matches!(parse_placement_info("Community:12").unwrap(), Placement::Community { community_size: 12 }));
    assert_eq!(
        parse_placement_info("Community:x").unwrap_err(),
        GraphError::IoError("Invalid community size: invalid digit found in string".to_string())
    );
    assert_eq!(
        parse_placement_info("BalancedCommunity:1,2").unwrap_err(),
        GraphError::IoError("Invalid BalancedCommunity format".to_string())
    );
    assert_eq!(
        parse_placement_info("Ring").unwrap_err(),
        GraphError::IoError("Unknown placement type: Ring".to_string())
    );
}

#[test]
fn planned_splits_number_every_user() {
    let plan = plan_community_splitting(&[10, 3], 2, 4).unwrap();
    let sizes: Vec<Vec<u64>> = plan.communities.iter().map(|c| c.split_into.iter().map(|chunk| chunk.size).collect()).collect();
    assert_eq!(sizes, vec![vec![4, 4, 2], vec![3]]);
    let graph = apply_splitting_plan(2, &plan, &[(1, 11), (13, 2)]).unwrap();
    assert_eq!(graph.user_count(), 13);
    assert_eq!(graph.edge_count(), 2);
    assert_eq!(graph.get_following_ids(13), &[2]);
}

#[test]
fn rejects_invalid_worker_configuration() {
    assert!(check_config(0, 32).is_err());

    assert!(check_config(4, 0).is_err());
}

#[test]
fn cached_query_counts_match_direct_query() {
    let mut graph = ShardedGraph::with_placement_and_cache(2, Placement::Hash, 2).unwrap();
    for id in 1..=5 {
        graph.add_user(id, &format!("user-{id}")).unwrap();
    }
    for (source, target) in [(1, 2), (1, 3), (2, 4), (3, 5), (4, 1), (5, 2)] {
        graph.add_follow(source, target).unwrap();
    }
    for source in 1..=5 {
        let direct = graph.get_two_hop_with_stats(source);
        let cached = graph.get_two_hop_with_cache_stats(source).unwrap();
        assert_eq!(cached.shards_touched, direct.shards_touched);
        assert_eq!(cached.cross_shard_hops, direct.cross_shard_hops);
        assert_eq!(cached.shard_requests, direct.shard_requests);
        assert_eq!(cached.cache_hits + cached.cache_misses, cached.shard_requests - 1);
    }
}

#[test]
fn id_simulator_hits_like_lru_adjacency_cache() {
    let mut simulator = IdLruSimulator::new(2).unwrap();
    let mut cache = AdjacencyLruCache::new(2).unwrap();
    for user_id in [1, 2, 1, 3, 1, 2, 2, 4, 3] {
        let simulated_hit = simulator.access(user_id);
        let cache_hit = cache.get(user_id).is_some();
        if !cache_hit {
            cache.insert(user_id, vec![user_id]);
        }
        assert_eq!(simulated_hit, cache_hit);
        assert_eq!(simulator.len(), cache.len());
    }
}

#[test]
fn warming_after_clearing_observations_caches_nothing() {
    let mut graph = ShardedGraph::new_with_cache(1, 10).unwrap();
    graph.add_user(1, "Alice").unwrap();
    graph.add_user(2, "Bob").unwrap();
    graph.add_follow(1, 2).unwrap();
    graph.get_two_hop_with_cache_stats(1).unwrap();
    assert_eq!(graph.observed_adjacency_access_count(2), 1);
    graph.clear_observed_adjacency_accesses();
    assert_eq!(graph.warm_cache_from_observed_traffic(3), Ok(0));
    assert!(graph.caches().unwrap().iter().all(|cache| cache.is_empty()));
}

#[test]
fn direct_query_touches_between_one_and_all_shards() {
    let mut graph = ShardedGraph::with_placement(3, Placement::Hash).unwrap();
    for id in 1..=6 {
        graph.add_user(id, &format!("user-{id}")).unwrap();
    }
    for (source, target) in [(1, 2), (1, 3), (2, 4), (3, 5), (3, 6)] {
        graph.add_follow(source, target).unwrap();
    }
    for source in 1..=6 {
        let direct = graph.get_two_hop_with_stats(source);
        assert!(1 <= direct.shards_touched && direct.shards_touched <= 3);
        assert_eq!(direct.shard_requests, 1 + graph.get_following_ids(source).len());
    }
}

#[test]
fn lru_cache_get_and_insert_keep_other_lists() {
    let mut cache = AdjacencyLruCache::new(2).unwrap();
    cache.insert(10, vec![1, 2]);
    cache.insert(11, vec![3]);
    assert_eq!(cache.get(10), Some(vec![1, 2]));
    assert_eq!(cache.len(), 2);
    assert_eq!(cache.get(11), Some(vec![3]));
    cache.insert(12, vec![4]);
    assert!(!cache.contains(10));
    assert_eq!(cache.get(11), Some(vec![3]));
    assert_eq!(cache.get(12), Some(vec![4]));
}
