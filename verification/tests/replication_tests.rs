use graph_shard_lab::sharded::ShardedGraph;

fn build_replicated_graph() -> ShardedGraph {
    let mut graph = ShardedGraph::new_with_cache(4, 100).unwrap();

    for id in 1..=16 {
        graph.add_user(id, &format!("user-{id}")).unwrap();
    }

    for source in 1..=16 {
        for offset in 1..=3 {
            let target = ((source + offset - 1) % 16) + 1;
            graph.add_follow(source, target).unwrap();
        }
    }

    graph
}

#[test]
fn replicates_user_across_all_shards() {
    let mut graph = build_replicated_graph();

    let stats = graph.replicate_user(1).unwrap();

    assert_eq!(stats.replicated_users, 1);
    assert!(graph.is_replicated(1));

    for shard_id in 0..graph.shard_count() {
        assert!(graph.shard(shard_id).get_user(1).is_some());
    }
}

#[test]
fn replicated_user_has_same_adjacency_on_all_shards() {
    let mut graph = build_replicated_graph();

    graph.replicate_user(1).unwrap();

    let home_shard = graph.placement_for_user(1);
    let home_adjacency = graph.shard(home_shard).get_following_ids(1).to_vec();

    for shard_id in 0..graph.shard_count() {
        let shard_adjacency = graph.shard(shard_id).get_following_ids(1).to_vec();

        assert_eq!(shard_adjacency, home_adjacency);
    }
}

#[test]
fn does_not_replicate_twice() {
    let mut graph = build_replicated_graph();

    graph.replicate_user(1).unwrap();
    let stats = graph.replicate_user(1).unwrap();

    assert_eq!(stats.replicated_users, 1);
}

#[test]
fn unreplicate_removes_replication() {
    let mut graph = build_replicated_graph();

    graph.replicate_user(1).unwrap();
    assert!(graph.is_replicated(1));

    graph.unreplicate_user(1).unwrap();
    assert!(!graph.is_replicated(1));

    let home_shard = graph.placement_for_user(1);
    let home_adjacency = graph.shard(home_shard).get_following_ids(1).to_vec();

    for shard_id in 0..graph.shard_count() {
        if shard_id == home_shard {
            continue;
        }
        assert!(
            graph.shard(shard_id).get_user(1).is_none(),
            "User 1 should be removed from shard {shard_id}"
        );
        assert!(
            graph.shard(shard_id).get_following_ids(1).is_empty(),
            "Adjacency list for user 1 should be empty on shard {shard_id}"
        );
    }

    assert_eq!(
        graph.shard(home_shard).get_following_ids(1),
        &home_adjacency
    );
}

#[test]
fn add_follow_updates_replicas() {
    let mut graph = build_replicated_graph();

    graph.replicate_user(1).unwrap();

    graph.add_follow_replicated(1, 16).unwrap();

    for shard_id in 0..graph.shard_count() {
        assert!(graph.shard(shard_id).get_following_ids(1).contains(&16));
    }
}

#[test]
fn remove_follow_updates_replicas() {
    let mut graph = build_replicated_graph();

    graph.replicate_user(1).unwrap();

    let home_shard = graph.placement_for_user(1);
    let targets = graph.shard(home_shard).get_following_ids(1).to_vec();
    let first_target = targets[0];

    graph.remove_follow_replicated(1, first_target).unwrap();

    for shard_id in 0..graph.shard_count() {
        assert!(
            !graph.shard(shard_id)
                .get_following_ids(1)
                .contains(&first_target)
        );
    }
}

#[test]
fn auto_replicate_hubs_replicates_multiple() {
    let mut graph = build_replicated_graph();

    let stats = graph.auto_replicate_hubs(&[1, 5, 9]).unwrap();

    assert_eq!(stats.replicated_users, 3);
    assert!(graph.is_replicated(1));
    assert!(graph.is_replicated(5));
    assert!(graph.is_replicated(9));
}

#[test]
fn replicated_query_returns_correct_results() {
    let mut graph = build_replicated_graph();

    graph.replicate_user(1).unwrap();

    let mut expected = graph.get_two_hop_ids(1);
    expected.sort_unstable();

    let mut actual = graph.get_two_hop_with_stats(1).user_ids;
    actual.sort_unstable();

    assert_eq!(actual, expected);
}

#[test]
fn replication_stats_counts_edges() {
    let mut graph = build_replicated_graph();

    graph.replicate_user(1).unwrap();

    let stats = graph.replication_stats();

    assert_eq!(stats.replicated_users, 1);

    let home_shard = graph.placement_for_user(1);
    let edge_count = graph.shard(home_shard).get_following_ids(1).len();

    assert_eq!(
        stats.total_replicated_edges,
        edge_count * (graph.shard_count() - 1)
    );
}

#[test]
fn hub_replication_stops_at_a_missing_hub() {
    let mut graph = build_replicated_graph();
    let result = graph.auto_replicate_hubs(&[3, 99, 5]);
    assert_eq!(result.unwrap_err(), graph_shard_lab::error::GraphError::UserNotFound(99));
    assert!(graph.is_replicated(3));
    assert!(!graph.is_replicated(5));
    // the logical graph is untouched
    assert_eq!(graph.get_following_ids(3), &[4, 5, 6]);
    for shard in 0..4 {
        assert!(graph.shard(shard).get_user(3).is_some());
        assert_eq!(graph.shard(shard).get_following_ids(3), &[4, 5, 6]);
    }
}

#[test]
fn unreplicating_after_replicating_restores_shard_counts() {
    let mut graph = ShardedGraph::new_with_cache(3, 4).unwrap();
    for id in 1..=6 {
        graph.add_user(id, &format!("user-{id}")).unwrap();
    }
    for (source, target) in [(1, 2), (1, 3), (2, 4), (4, 1), (5, 6)] {
        graph.add_follow(source, target).unwrap();
    }
    let users_before = graph.users_per_shard();
    let edges_before = graph.edges_per_shard();
    let first = graph.replicate_user(1).unwrap();
    let second = graph.replicate_user(1).unwrap();
    assert_eq!(first.replicated_users, second.replicated_users);
    assert_eq!(first.total_replicated_edges, second.total_replicated_edges);
    assert_ne!(graph.users_per_shard(), users_before);
    graph.unreplicate_user(1).unwrap();
    assert_eq!(graph.users_per_shard(), users_before);
    assert_eq!(graph.edges_per_shard(), edges_before);
}
