use graph_shard_lab::balanced::assign_communities_balanced;
use graph_shard_lab::rebalance::find_least_loaded_shard;
use graph_shard_lab::sharded::{Placement, ShardedGraph};

fn build_unbalanced_graph() -> ShardedGraph {
    let sizes = vec![8, 2];
    let assignment = assign_communities_balanced(&sizes, 2).unwrap();

    let mut graph = ShardedGraph::with_placement(
        2,
        Placement::BalancedCommunity {
            community_sizes: sizes,
            community_to_shard: assignment.community_to_shard,
        },
    )
    .unwrap();

    for id in 1..=10 {
        graph.add_user(id, &format!("user-{id}")).unwrap();
    }

    for source in 1..=5 {
        for target in 6..=10 {
            graph.add_follow(source, target).unwrap();
        }
    }

    graph
}

#[test]
fn detects_unbalanced_shards() {
    let graph = build_unbalanced_graph();

    let counts = graph.users_per_shard();

    assert_ne!(counts[0], counts[1]);
}

#[test]
fn find_least_loaded_shard_returns_minimum() {
    let counts = [10, 5, 8];

    assert_eq!(find_least_loaded_shard(&counts), 1);
}
