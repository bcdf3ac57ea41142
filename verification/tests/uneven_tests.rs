use graph_shard_lab::uneven::{accepts_draw, generate_uneven_community_workload, generate_uneven_community_workload_within};
use std::collections::HashSet;

#[test]
fn generates_expected_user_and_edge_counts() {
    let sizes = [4, 3, 2, 1];

    let workload = generate_uneven_community_workload(&sizes, 2, 0, 42).unwrap();

    assert_eq!(workload.user_count, 10);
    assert_eq!(workload.community_count, 4);
    assert_eq!(workload.edges.len(), 20);
}

#[test]
fn generates_requested_local_edges() {
    let sizes = [4, 3, 3];

    let workload = generate_uneven_community_workload(&sizes, 2, 1, 42).unwrap();

    for source in 1..=workload.user_count {
        let source_community = community_for_user(source, &sizes);

        let source_edges: Vec<_> = workload
            .edges
            .iter()
            .filter(|(edge_source, _)| *edge_source == source)
            .collect();

        assert_eq!(source_edges.len(), 2);

        let local_count = source_edges
            .iter()
            .filter(|(_, target)| community_for_user(*target, &sizes) == source_community)
            .count();

        assert_eq!(local_count, 1);
    }
}

#[test]
fn same_seed_produces_same_workload() {
    let sizes = [4, 3, 3];

    let first = generate_uneven_community_workload(&sizes, 2, 1, 42).unwrap();

    let second = generate_uneven_community_workload(&sizes, 2, 1, 42).unwrap();

    assert_eq!(first.edges, second.edges);
}

#[test]
fn rejects_invalid_workloads() {
    assert!(generate_uneven_community_workload(&[], 2, 1, 42,).is_err());

    assert!(generate_uneven_community_workload(&[4, 0, 3], 2, 1, 42,).is_err());

    assert!(generate_uneven_community_workload(&[4, 3], 2, 3, 42,).is_err());

    assert!(generate_uneven_community_workload(&[2, 1], 3, 1, 42,).is_err());
}

fn community_for_user(user_id: u64, community_sizes: &[u64]) -> usize {
    let mut final_user_id = 0_u64;

    for (community_id, community_size) in community_sizes.iter().enumerate() {
        final_user_id += community_size;

        if user_id <= final_user_id {
            return community_id;
        }
    }

    panic!("User ID is outside community ranges");
}

#[test]
fn accepts_draw_decides_each_phase() {
    let mut selected = HashSet::new();
    selected.insert(3u64);
    assert!(accepts_draw(2, 1, 1, 4, true, &selected));
    assert!(!accepts_draw(1, 1, 1, 4, true, &selected));
    assert!(!accepts_draw(3, 1, 1, 4, true, &selected));
    assert!(accepts_draw(5, 1, 1, 4, false, &selected));
    assert!(!accepts_draw(2, 1, 1, 4, false, &selected));
    selected.insert(5);
    assert!(!accepts_draw(5, 1, 1, 4, false, &selected));
}

#[test]
fn zero_edges_per_user_always_succeeds() {
    let workload = generate_uneven_community_workload(&[3, 2], 0, 0, 7).unwrap();
    assert_eq!(workload.user_count, 5);
    assert_eq!(workload.community_count, 2);
    assert!(workload.edges.is_empty());
}

#[test]
fn sampling_fails_only_when_draws_run_out() {
    let (result, draws, _) = generate_uneven_community_workload_within(&[4, 3], 2, 1, 42, 0);
    assert_eq!(result.unwrap_err(), "Random sampling did not complete the workload");
    assert_eq!(draws, 0);
    let (result, draws, _) = generate_uneven_community_workload_within(&[4, 3], 2, 1, 42, 5);
    assert!(result.is_err());
    assert_eq!(draws, 5);
    let (result, draws, _) = generate_uneven_community_workload_within(&[4, 3], 2, 1, 42, 1_000_000);
    let workload = result.unwrap();
    assert_eq!(workload.edges.len(), 14);
    assert!(draws >= 14);
}

#[test]
fn bounded_generator_matches_unbounded_one_for_a_seed() {
    let (result, _, _) = generate_uneven_community_workload_within(&[4, 3, 3], 3, 2, 7, u64::MAX);
    let bounded = result.unwrap();
    let unbounded = generate_uneven_community_workload(&[4, 3, 3], 3, 2, 7).unwrap();
    assert_eq!(bounded.edges, unbounded.edges);
}
