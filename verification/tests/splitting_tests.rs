use graph_shard_lab::sharded::Placement;
use graph_shard_lab::splitting::{apply_splitting_plan, create_split_placement, plan_community_splitting};

#[test]
fn small_communities_are_not_split() {
    let plan = plan_community_splitting(&[100, 200, 300], 4, 500).unwrap();

    for community in &plan.communities {
        assert_eq!(community.split_into.len(), 1);
    }
}

#[test]
fn large_community_is_split() {
    let plan = plan_community_splitting(&[1000], 4, 400).unwrap();

    assert_eq!(plan.communities.len(), 1);
    assert!(plan.communities[0].split_into.len() > 1);
}

#[test]
fn split_chunks_cover_original_size() {
    let plan = plan_community_splitting(&[1000], 4, 400).unwrap();

    let total: u64 = plan.communities[0].split_into.iter().map(|c| c.size).sum();

    assert_eq!(total, 1000);
}

#[test]
fn split_chunks_do_not_exceed_max_size() {
    let plan = plan_community_splitting(&[1000], 4, 400).unwrap();

    for community in &plan.communities {
        for chunk in &community.split_into {
            assert!(chunk.size <= 400);
        }
    }
}

#[test]
fn creates_valid_sharded_graph() {
    let plan = plan_community_splitting(&[100, 200, 300], 4, 500).unwrap();

    let graph = apply_splitting_plan(4, &plan, &[]).unwrap();

    assert_eq!(graph.shard_count(), 4);
    assert!(graph.user_count() > 0);
}

#[test]
fn creates_valid_sharded_graph_with_edges() {
    let plan = plan_community_splitting(&[4, 3, 3], 2, 500).unwrap();

    let edges: Vec<(u64, u64)> = vec![(1, 2), (3, 4), (5, 6), (7, 8)];

    let graph = apply_splitting_plan(2, &plan, &edges).unwrap();

    assert_eq!(graph.shard_count(), 2);
    assert_eq!(graph.user_count(), 10);
    assert_eq!(graph.edge_count(), 4);
}

#[test]
fn create_split_placement_returns_valid_placement() {
    let placement = create_split_placement(&[100, 200, 300], 4, 500).unwrap();

    if let Placement::BalancedCommunity {
        community_sizes,
        community_to_shard,
    } = placement
    {
        assert_eq!(community_sizes.len(), 3);
        assert_eq!(community_to_shard.len(), 3);
        let total: u64 = community_sizes.iter().sum();
        assert_eq!(total, 600);
    } else {
        panic!("Expected BalancedCommunity placement");
    }
}

#[test]
fn split_placement_flattens_chunks() {
    let placement = create_split_placement(&[4000, 1000], 2, 2000).unwrap();

    if let Placement::BalancedCommunity {
        community_sizes,
        community_to_shard,
    } = placement
    {
        assert_eq!(community_sizes, vec![2000, 2000, 1000]);
        assert_eq!(community_to_shard, vec![0, 1, 1]);
    } else {
        panic!("Expected BalancedCommunity placement");
    }
}

#[test]
fn rejects_zero_shard_count() {
    assert!(plan_community_splitting(&[100, 200], 0, 500).is_err());
}

#[test]
fn rejects_empty_communities() {
    assert!(plan_community_splitting(&[], 4, 500).is_err());
}

#[test]
fn rejects_zero_community_sizes() {
    assert!(plan_community_splitting(&[100, 0, 200], 4, 500).is_err());
}
