use vstd::prelude::*;

verus! {

/// A generated community workload: users `1..=user_count`, grouped into communities, and
/// the follow edges between them.
#[derive(Debug, Clone)]
pub struct CommunityWorkload {
    pub user_count: u64,
    pub community_count: u64,
    pub edges: Vec<(u64, u64)>,
}

/// A hub-heavy workload: users `1..=user_count`, the hub users among them, and the follow
/// edges. Each edge `(source, target)` stands for one read of `target`'s adjacency list when
/// `source` is queried.
#[derive(Debug, Clone)]
pub struct HubWorkload {
    pub user_count: u64,
    pub hub_ids: Vec<u64>,
    pub edges: Vec<(u64, u64)>,
}

} // verus!
