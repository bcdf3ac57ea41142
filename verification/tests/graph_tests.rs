use graph_shard_lab::error::GraphError;
use graph_shard_lab::balanced::assign_communities_balanced;
use graph_shard_lab::cache::{AdjacencyLruCache, IdLruSimulator};
use graph_shard_lab::Graph;

fn build_sample_graph() -> Graph {
    let mut graph = Graph::new();

    graph.add_user(1, "Alice").unwrap();
    graph.add_user(2, "Bob").unwrap();
    graph.add_user(3, "Charlie").unwrap();
    graph.add_user(4, "Diana").unwrap();

    graph.add_follow(1, 2).unwrap();
    graph.add_follow(1, 3).unwrap();
    graph.add_follow(2, 3).unwrap();
    graph.add_follow(3, 4).unwrap();

    graph
}

#[test]
fn removes_an_existing_edge() {
    let mut graph = Graph::new();

    graph.add_user(1, "Alice").unwrap();
    graph.add_user(2, "Bob").unwrap();
    graph.add_user(3, "Charlie").unwrap();

    graph.add_follow(1, 2).unwrap();
    graph.add_follow(1, 3).unwrap();

    assert_eq!(graph.get_following_ids(1), &[2, 3]);

    let removed = graph.remove_follow(1, 2).unwrap();

    assert!(removed);
    assert_eq!(graph.get_following_ids(1), &[3]);
}

#[test]
fn removing_a_missing_edge_returns_false() {
    let mut graph = Graph::new();

    graph.add_user(1, "Alice").unwrap();
    graph.add_user(2, "Bob").unwrap();

    let removed = graph.remove_follow(1, 2).unwrap();

    assert!(!removed);
    assert!(graph.get_following_ids(1).is_empty());
}

#[test]
fn returns_one_hop_users() {
    let graph = build_sample_graph();

    assert_eq!(graph.get_following_ids(1), &[2, 3]);
}

#[test]
fn returns_two_hop_users() {
    let graph = build_sample_graph();

    assert_eq!(graph.get_two_hop_ids(1), vec![3, 4]);
}

#[test]
fn rejects_missing_target_user() {
    let mut graph = Graph::new();

    graph.add_user(1, "Alice").unwrap();

    assert!(graph.add_follow(1, 999).is_err());
}

#[test]
fn does_not_duplicate_edges() {
    let mut graph = Graph::new();

    graph.add_user(1, "Alice").unwrap();
    graph.add_user(2, "Bob").unwrap();

    graph.add_follow(1, 2).unwrap();
    graph.add_follow(1, 2).unwrap();

    assert_eq!(graph.edge_count(), 1);
}

#[test]
fn rejects_duplicate_user_ids() {
    let mut graph = Graph::new();

    graph.add_user(1, "Alice").unwrap();

    assert!(graph.add_user(1, "Different Alice").is_err());
}

#[test]
fn cached_two_hop_query_returns_same_users() {
    let graph = build_sample_graph();

    let expected = graph.get_two_hop_ids(1);

    let mut cache = AdjacencyLruCache::new(10).unwrap();

    let cached = graph.get_two_hop_ids_with_cache(1, &mut cache);

    assert_eq!(cached.user_ids, expected);
}

#[test]
fn cached_two_hop_query_misses_then_hits() {
    let graph = build_sample_graph();

    let mut cache = AdjacencyLruCache::new(10).unwrap();

    let first = graph.get_two_hop_ids_with_cache(1, &mut cache);

    assert_eq!(first.user_ids, vec![3, 4]);
    assert_eq!(first.cache_hits, 0);
    assert_eq!(first.cache_misses, 2);

    let second = graph.get_two_hop_ids_with_cache(1, &mut cache);

    assert_eq!(second.user_ids, vec![3, 4]);
    assert_eq!(second.cache_hits, 2);
    assert_eq!(second.cache_misses, 0);
}

#[test]
fn reports_graph_size() {
    let graph = build_sample_graph();

    assert_eq!(graph.user_count(), 4);
    assert_eq!(graph.edge_count(), 4);
}

#[test]
fn first_access_is_a_miss_and_second_is_a_hit() {
    let mut cache = IdLruSimulator::new(3).unwrap();

    assert!(!cache.access(10));
    assert!(cache.access(10));
}

#[test]
fn adjacency_cache_hit_moves_entry_to_most_recent() {
    let mut cache = AdjacencyLruCache::new(3).unwrap();

    cache.insert(1, vec![10]);
    cache.insert(2, vec![20]);
    cache.insert(3, vec![30]);

    assert_eq!(cache.get(1), Some(vec![10]));

    cache.insert(4, vec![40]);

    assert!(cache.contains(1));
    assert!(!cache.contains(2));
    assert!(cache.contains(3));
    assert!(cache.contains(4));
    assert_eq!(cache.len(), 3);
}

#[test]
fn never_exceeds_capacity() {
    let mut cache = IdLruSimulator::new(2).unwrap();

    cache.access(10);
    cache.access(20);
    cache.access(30);

    assert_eq!(cache.len(), 2);
    assert!(!cache.contains(10));
    assert!(cache.contains(20));
    assert!(cache.contains(30));
}

#[test]
fn adjacency_cache_can_invalidate_an_entry() {
    let mut cache = AdjacencyLruCache::new(2).unwrap();

    cache.insert(10, vec![20, 30]);
    cache.insert(11, vec![40, 50]);

    assert!(cache.contains(10));
    assert_eq!(cache.len(), 2);

    let removed = cache.invalidate(10);

    assert!(removed);
    assert!(!cache.contains(10));
    assert_eq!(cache.len(), 1);

    let removed_again = cache.invalidate(10);

    assert!(!removed_again);
    assert_eq!(cache.len(), 1);

    assert!(cache.contains(11));
}

#[test]
fn evicts_the_least_recently_used_entry() {
    let mut cache = IdLruSimulator::new(3).unwrap();

    cache.access(10);
    cache.access(20);
    cache.access(30);

    assert!(cache.access(10));

    cache.access(40);

    assert!(cache.contains(10));
    assert!(!cache.contains(20));
    assert!(cache.contains(30));
    assert!(cache.contains(40));
}

#[test]
fn rejects_zero_capacity() {
    assert!(IdLruSimulator::new(0).is_err());
}

#[test]
fn adjacency_cache_stores_real_following_lists() {
    let mut cache = AdjacencyLruCache::new(3).unwrap();

    cache.insert(10, vec![20, 30, 40]);

    assert_eq!(cache.get(10), Some(vec![20, 30, 40]));
}

#[test]
fn adjacency_cache_returns_none_for_a_miss() {
    let mut cache = AdjacencyLruCache::new(3).unwrap();

    assert_eq!(cache.get(999), None);
}

#[test]
fn adjacency_cache_evicts_least_recently_used_entry() {
    let mut cache = AdjacencyLruCache::new(2).unwrap();

    cache.insert(10, vec![1]);
    cache.insert(20, vec![2]);

    assert_eq!(cache.get(10), Some(vec![1]));

    cache.insert(30, vec![3]);

    assert!(cache.contains(10));
    assert!(!cache.contains(20));
    assert!(cache.contains(30));
}

#[test]
fn adjacency_cache_replaces_existing_data() {
    let mut cache = AdjacencyLruCache::new(2).unwrap();

    cache.insert(10, vec![1, 2]);
    cache.insert(10, vec![3, 4]);

    assert_eq!(cache.len(), 1);
    assert_eq!(cache.get(10), Some(vec![3, 4]));
}

#[test]
fn balances_uneven_communities() {
    let community_sizes = [4_000, 2_500, 1_500, 1_000, 1_000];

    let assignment = assign_communities_balanced(&community_sizes, 4).unwrap();

    assert_eq!(assignment.community_to_shard, vec![0, 1, 2, 3, 3]);

    assert_eq!(assignment.users_per_shard, vec![4_000, 2_500, 1_500, 2_000]);
}

#[test]
fn balances_equal_communities() {
    let community_sizes = [1_000, 1_000, 1_000, 1_000];

    let assignment = assign_communities_balanced(&community_sizes, 4).unwrap();

    assert_eq!(assignment.users_per_shard, vec![1_000, 1_000, 1_000, 1_000]);
}

#[test]
fn rejects_invalid_input() {
    assert!(assign_communities_balanced(&[1_000], 0).is_err());

    assert!(assign_communities_balanced(&[], 4).is_err());

    assert!(assign_communities_balanced(&[1_000, 0], 4).is_err());
}

#[test]
fn errors_read_as_messages() {
    let mut graph = Graph::new();
    graph.add_user(1, "Alice").unwrap();
    assert_eq!(graph.add_user(1, "Alice").unwrap_err().message(), "User 1 already exists");
    assert_eq!(graph.add_follow(7, 1).unwrap_err().message(), "Source user 7 does not exist");
    assert_eq!(graph.add_follow(1, 8).unwrap_err().message(), "Target user 8 does not exist");
    assert_eq!(GraphError::ZeroCacheCapacity.message(), "Cache capacity must be greater than zero");
    assert_eq!(GraphError::ShardNotFound(12).message(), "No shard holds user 12");
}
