use vstd::prelude::*;
use std::collections::{HashMap, HashSet};
use crate::error::GraphError;
use crate::graph::{Graph, User, list_of, added_edge, removed_edge, contains_id, saturate};
use crate::cache::{AdjacencyLruCache, CacheEntry, EvictionPolicy, without_key, after_get, after_insert, lookup};
use crate::balanced::{assign_communities_balanced, balanced_placement, size_sum};
use crate::stats::{placed_only, second_shards, second_cross, placed_lists, placed_count, first_shards, first_cross, reached_shards, reached_cross, firsts_on, group_lists, batched_lists, group_shards, group_cross, batched_shards, batched_cross, busy_shards, sat};
use crate::twohop::{collect_lists, append_new};
use crate::graph::append_new_exec;
use vstd::std_specs::iter::IteratorSpec;
use crate::rank::{is_ranked, rank_by_weight, lemma_ranking_unique};
pub use crate::placement_text::parse_placement_info;

verus! {

broadcast use vstd::std_specs::hash::group_hash_axioms;

/// How users are assigned to shards.
#[derive(Debug, Clone)]
pub enum Placement {
    /// `shard = user_id % shard_count`.
    Hash,
    /// Equal-sized communities: users `1..=size` form community 0, the next `size` users
    /// community 1, and so on; community `c` lives on shard `c % shard_count`.
    Community { community_size: u64 },
    /// Communities of the given sizes, in ID order, each stored on the given shard.
    BalancedCommunity { community_sizes: Vec<u64>, community_to_shard: Vec<usize> },
}

/// Why a placement cannot serve `shard_count` shards, checked in this order.
pub open spec fn placement_error(shard_count: nat, placement: Placement) -> Option<GraphError> {
    if shard_count == 0 {
        Some(GraphError::ZeroShardCount)
    } else {
        match placement {
            Placement::Hash => None,
            Placement::Community { community_size } => if community_size == 0 {
                Some(GraphError::ZeroCommunitySize)
            } else {
                None
            },
            Placement::BalancedCommunity { community_sizes, community_to_shard } => balanced_error(
                shard_count,
                community_sizes@,
                community_to_shard@,
            ),
        }
    }
}

/// Why communities of these sizes, stored on these shards, cannot serve `shard_count`
/// shards, checked in this order.
pub open spec fn balanced_error(shard_count: nat, community_sizes: Seq<u64>, community_to_shard: Seq<usize>) -> Option<GraphError> {
    if community_sizes.len() == 0 {
        Some(GraphError::EmptyCommunities)
    } else if community_sizes.contains(0) {
        Some(GraphError::ZeroCommunitySizes)
    } else if community_sizes.len() != community_to_shard.len() {
        Some(GraphError::CommunitySizeMismatch)
    } else if exists|i: int| 0 <= i < community_to_shard.len() && #[trigger] community_to_shard[i] >= shard_count {
        Some(GraphError::InvalidShardInAssignment)
    } else if size_sum(community_sizes) > u64::MAX {
        Some(GraphError::CommunitySizeOverflow)
    } else {
        None
    }
}

/// The shard of the first community, from community `c` on (whose IDs start after
/// `offset`), whose ID range reaches `id`.
pub open spec fn community_shard(sizes: Seq<u64>, shards: Seq<usize>, id: int, c: int, offset: int) -> Option<usize>
    decreases sizes.len() - c,
{
    if c < 0 || c >= sizes.len() {
        None
    } else if id <= offset + sizes[c] {
        if c < shards.len() {
            Some(shards[c])
        } else {
            None
        }
    } else {
        community_shard(sizes, shards, id, c + 1, offset + sizes[c])
    }
}

/// Every list that a user's home shard stores leads only to users stored on their home
/// shards.
pub open spec fn closed_edges(graphs: Seq<Graph>, placement: Placement) -> bool {
    forall|h: int, x: u64, i: int| #![trigger graphs[h].adjacency()[x][i]]
        0 <= h < graphs.len() && placement_shard(placement, graphs.len(), x) == Some(h as usize)
            && graphs[h].adjacency().contains_key(x) && 0 <= i < graphs[h].adjacency()[x].len() ==> {
            let y = graphs[h].adjacency()[x][i];
            placement_shard(placement, graphs.len(), y) matches Some(hy) && hy < graphs.len() && graphs[hy as int].has_user(y)
        }
}

/// The shard that `placement` assigns to `user_id`, if any.
pub open spec fn placement_shard(placement: Placement, shard_count: nat, user_id: u64) -> Option<usize> {
    if user_id == 0 {
        None
    } else {
        match placement {
            Placement::Hash => Some(((user_id as usize) as int % shard_count as int) as usize),
            Placement::Community { community_size } => Some(
                ((((user_id - 1) / community_size as int) as u64 as usize) as int % shard_count as int) as usize,
            ),
            Placement::BalancedCommunity { community_sizes, community_to_shard } => community_shard(
                community_sizes@,
                community_to_shard@,
                user_id as int,
                0,
                0,
            ),
        }
    }
}

pub proof fn lemma_community_shard_range(sizes: Seq<u64>, shards: Seq<usize>, id: int, c: int, offset: int, n: nat)
    requires
        forall|i: int| 0 <= i < shards.len() ==> #[trigger] shards[i] < n,
    ensures
        community_shard(sizes, shards, id, c, offset) matches Some(s) ==> s < n,
    decreases sizes.len() - c,
{
    if 0 <= c < sizes.len() && id > offset + sizes[c] {
        lemma_community_shard_range(sizes, shards, id, c + 1, offset + sizes[c], n);
    }
}

pub proof fn lemma_placement_shard_range(placement: Placement, shard_count: nat, user_id: u64)
    requires
        placement_error(shard_count, placement) is None,
    ensures
        placement_shard(placement, shard_count, user_id) matches Some(s) ==> s < shard_count,
{
    match placement {
        Placement::BalancedCommunity { community_sizes, community_to_shard } => {
            lemma_community_shard_range(community_sizes@, community_to_shard@, user_id as int, 0, 0, shard_count);
        },
        _ => {},
    }
}

/// Statistics of one two-hop query over logical shards.
#[derive(Debug)]
pub struct QueryResult {
    pub user_ids: Vec<u64>,
    pub shards_touched: usize,
    pub cross_shard_hops: usize,
    pub shard_requests: usize,
}

/// Statistics of one two-hop query through the shard-local caches.
#[derive(Debug)]
pub struct CachedQueryResult {
    pub user_ids: Vec<u64>,
    pub shards_touched: usize,
    pub cross_shard_hops: usize,
    pub shard_requests: usize,
    pub cache_hits: usize,
    pub cache_misses: usize,
}

/// Users spread over logical in-memory shards; a user's outgoing edges are stored with the
/// user on its home shard.
pub struct ShardedGraph {
    pub(crate) shards: Vec<Graph>,
    pub(crate) caches: Option<Vec<AdjacencyLruCache>>,
    // One access-frequency map per logical shard: user ID to observed adjacency reads.
    observed_adjacency_accesses: Vec<HashMap<u64, u64>>,
    pub(crate) placement: Placement,
    pub(crate) replicated_users: HashSet<u64>,
}

/// Why caches with these settings cannot be built, checked in this order.
pub open spec fn cache_error(capacity: usize, byte_capacity: Option<usize>) -> Option<GraphError> {
    if capacity == 0 {
        Some(GraphError::ZeroCacheCapacity)
    } else if byte_capacity == Some(0usize) {
        Some(GraphError::ZeroByteCapacity)
    } else {
        None
    }
}

impl ShardedGraph {
    pub closed spec fn graphs(&self) -> Seq<Graph> {
        self.shards@
    }

    pub closed spec fn spec_placement(&self) -> Placement {
        self.placement
    }

    pub closed spec fn cache_list(&self) -> Option<Seq<AdjacencyLruCache>> {
        match self.caches {
            Some(caches) => Some(caches@),
            None => None,
        }
    }

    /// Per shard: user ID to observed adjacency reads.
    pub closed spec fn observed(&self) -> Seq<Map<u64, u64>> {
        self.observed_adjacency_accesses@.map_values(|m: HashMap<u64, u64>| m@)
    }

    pub closed spec fn replicated(&self) -> Set<u64> {
        self.replicated_users@
    }

    pub open spec fn shard_count_spec(&self) -> nat {
        self.graphs().len()
    }

    /// The home shard of `user_id`.
    pub open spec fn home(&self, user_id: u64) -> Option<usize> {
        placement_shard(self.spec_placement(), self.shard_count_spec(), user_id)
    }

    pub open spec fn has_user(&self, user_id: u64) -> bool {
        match self.home(user_id) {
            Some(h) => self.graphs()[h as int].has_user(user_id),
            None => false,
        }
    }

    /// The adjacency list of `source` as its home shard stores it.
    pub open spec fn following(&self, source: u64) -> Seq<u64> {
        match self.home(source) {
            Some(h) => self.graphs()[h as int].following(source),
            None => Seq::empty(),
        }
    }

    /// The users the shards store together, each with its name on its home shard.
    pub open spec fn logical_names(&self) -> Map<u64, Seq<char>> {
        Map::new(|u: u64| self.has_user(u), |u: u64| self.graphs()[self.home(u).unwrap() as int].names()[u])
    }

    /// The graph the shards store together: each user's list on its home shard.
    pub open spec fn logical_adjacency(&self) -> Map<u64, Seq<u64>> {
        Map::new(
            |s: u64| self.home(s) matches Some(h) && self.graphs()[h as int].adjacency().contains_key(s),
            |s: u64| self.graphs()[self.home(s).unwrap() as int].adjacency()[s],
        )
    }

    /// Every sharded graph built by a constructor keeps this.
    pub closed spec fn wf(&self) -> bool {
        &&& 0 < self.shards@.len() <= usize::MAX
        &&& placement_error(self.shards@.len() as nat, self.placement) is None
        &&& forall|i: int| 0 <= i < self.shards@.len() ==> (#[trigger] self.shards@[i]).wf()
        &&& self.replicas_only_where_replicated()
        &&& closed_edges(self.shards@, self.placement)
        &&& forall|u: u64| #[trigger] self.replicated_users@.contains(u) ==> self.home(u) is Some
        &&& self.observed_adjacency_accesses@.len() == self.shards@.len()
        &&& self.caches matches Some(caches) ==> {
            &&& caches@.len() == self.shards@.len()
            &&& forall|i: int| 0 <= i < caches@.len() ==> (#[trigger] caches@[i]).wf()
            &&& forall|i: int| 0 <= i < caches@.len() ==> (#[trigger] caches@[i]).same_settings(&caches@[0])
        }
    }

    /// Every edge the shards store together leads to a stored user.
    pub open spec fn edges_closed(&self) -> bool {
        closed_edges(self.graphs(), self.spec_placement())
    }

    /// A shard other than a user's home shard holds the user only while the user is
    /// replicated.
    pub open spec fn replicas_only_where_replicated(&self) -> bool {
        forall|u: u64, s: int|
            0 <= s < self.shard_count_spec() && !self.replicated().contains(u) && self.home(u) != Some(s as usize)
                ==> !#[trigger] self.graphs()[s].has_user(u)
    }

    pub proof fn lemma_wf_placement(&self)
        requires
            self.wf(),
        ensures
            0 < self.shard_count_spec() <= usize::MAX,
            placement_error(self.shard_count_spec(), self.spec_placement()) is None,
            self.replicas_only_where_replicated(),
            self.edges_closed(),
            forall|u: u64| #[trigger] self.replicated().contains(u) ==> self.home(u) is Some,
            forall|i: int| 0 <= i < self.shard_count_spec() ==> (#[trigger] self.graphs()[i]).wf(),
            self.cache_list() matches Some(caches) ==> caches.len() == self.shard_count_spec()
                && self.cache_views().len() == self.shard_count_spec(),
            forall|u: u64| #[trigger] self.home(u) matches Some(h) ==> h < self.shard_count_spec(),
            self.cache_list() matches Some(caches) ==> forall|i: int| 0 <= i < caches.len() ==> (#[trigger] caches[i]).wf(),
    {
        assert forall|u: u64| #[trigger] self.home(u) matches Some(h) ==> h < self.shard_count_spec() by {
            lemma_placement_shard_range(self.placement, self.shards@.len() as nat, u);
        }
    }

    /// A graph as a constructor hands it out: `shard_count` empty shards, nothing observed,
    /// nothing replicated.
    pub open spec fn is_fresh(&self, shard_count: nat, placement: Placement) -> bool {
        &&& self.shard_count_spec() == shard_count
        &&& self.spec_placement() == placement
        &&& forall|i: int| 0 <= i < shard_count ==> (#[trigger] self.graphs()[i]).names() == Map::<u64, Seq<char>>::empty()
        &&& forall|i: int| 0 <= i < shard_count ==> (#[trigger] self.graphs()[i]).adjacency() == Map::<u64, Seq<u64>>::empty()
        &&& forall|i: int| 0 <= i < shard_count ==> #[trigger] self.observed()[i] == Map::<u64, u64>::empty()
        &&& self.replicated() == Set::<u64>::empty()
    }

    /// A graph as a constructor hands it out stores no users and no edges.
    pub proof fn lemma_fresh_is_empty(&self, shard_count: nat, placement: Placement)
        requires
            self.wf(),
            self.is_fresh(shard_count, placement),
        ensures
            self.logical_names() == Map::<u64, Seq<char>>::empty(),
            self.logical_adjacency() == Map::<u64, Seq<u64>>::empty(),
    {
        self.lemma_wf_placement();
        assert forall|u: u64| !#[trigger] self.logical_names().contains_key(u) by {
            if let Some(h) = self.home(u) {
                assert(self.graphs()[h as int].names() == Map::<u64, Seq<char>>::empty());
            }
        }
        assert forall|u: u64| !#[trigger] self.logical_adjacency().contains_key(u) by {
            if let Some(h) = self.home(u) {
                assert(self.graphs()[h as int].adjacency() == Map::<u64, Seq<u64>>::empty());
            }
        }
        assert(self.logical_names() =~= Map::<u64, Seq<char>>::empty());
        assert(self.logical_adjacency() =~= Map::<u64, Seq<u64>>::empty());
    }

    /// Every shard owns an empty cache with these settings.
    pub open spec fn has_empty_caches(
        &self,
        capacity: usize,
        byte_capacity: Option<usize>,
        policy: EvictionPolicy,
    ) -> bool {
        &&& self.cache_list() matches Some(caches) && {
            &&& caches.len() == self.shard_count_spec()
            &&& forall|i: int| 0 <= i < caches.len() ==> {
                &&& (#[trigger] caches[i])@ == Seq::<CacheEntry>::empty()
                &&& caches[i].spec_capacity() == capacity
                &&& caches[i].spec_byte_capacity() == byte_capacity
                &&& caches[i].spec_policy() == policy
            }
        }
    }

    pub fn new(shard_count: usize) -> (result: Result<Self, GraphError>)
        ensures
            match result {
                Ok(graph) => placement_error(shard_count as nat, Placement::Hash) is None && graph.wf()
                    && graph.is_fresh(shard_count as nat, Placement::Hash) && graph.cache_list() is None,
                Err(e) => placement_error(shard_count as nat, Placement::Hash) == Some(e),
            },
    {
        Self::with_placement(shard_count, Placement::Hash)
    }

    pub fn with_placement(shard_count: usize, placement: Placement) -> (result: Result<Self, GraphError>)
        ensures
            match result {
                Ok(graph) => placement_error(shard_count as nat, placement) is None && graph.wf()
                    && graph.is_fresh(shard_count as nat, placement) && graph.cache_list() is None,
                Err(e) => placement_error(shard_count as nat, placement) == Some(e),
            },
    {
        if shard_count == 0 {
            return Err(GraphError::ZeroShardCount);
        }
        match &placement {
            Placement::Hash => {},
            Placement::Community { community_size } => {
                if *community_size == 0 {
                    return Err(GraphError::ZeroCommunitySize);
                }
            },
            Placement::BalancedCommunity { community_sizes, community_to_shard } => {
                if community_sizes.len() == 0 {
                    return Err(GraphError::EmptyCommunities);
                }
                if contains_id(community_sizes.as_slice(), 0) {
                    return Err(GraphError::ZeroCommunitySizes);
                }
                if community_sizes.len() != community_to_shard.len() {
                    return Err(GraphError::CommunitySizeMismatch);
                }
                let mut i: usize = 0;
                while i < community_to_shard.len()
                    invariant
                        shard_count > 0,
                        placement == (Placement::BalancedCommunity {
                            community_sizes: *community_sizes,
                            community_to_shard: *community_to_shard,
                        }),
                        community_sizes@.len() != 0,
                        !community_sizes@.contains(0),
                        community_sizes@.len() == community_to_shard@.len(),
                        i <= community_to_shard@.len(),
                        forall|j: int| 0 <= j < i ==> #[trigger] community_to_shard@[j] < shard_count,
                    decreases community_to_shard@.len() - i,
                {
                    if community_to_shard[i] >= shard_count {
                        proof {
                            assert(community_to_shard@[i as int] >= shard_count);
                        }
                        return Err(GraphError::InvalidShardInAssignment);
                    }
                    i = i + 1;
                }
                if !sizes_fit(community_sizes.as_slice()) {
                    return Err(GraphError::CommunitySizeOverflow);
                }
            },
        }
        let mut shards: Vec<Graph> = Vec::new();
        let mut observed: Vec<HashMap<u64, u64>> = Vec::new();
        for i in 0..shard_count
            invariant
                shards@.len() == i,
                observed@.len() == i,
                forall|j: int| 0 <= j < i ==> (#[trigger] shards@[j]).wf(),
                forall|j: int| 0 <= j < i ==> (#[trigger] shards@[j]).names() == Map::<u64, Seq<char>>::empty(),
                forall|j: int| 0 <= j < i ==> (#[trigger] shards@[j]).adjacency() == Map::<u64, Seq<u64>>::empty(),
                forall|j: int| 0 <= j < i ==> (#[trigger] observed@[j])@ == Map::<u64, u64>::empty(),
        {
            shards.push(Graph::new());
            observed.push(HashMap::new());
        }
        let graph = ShardedGraph {
            shards,
            caches: None,
            observed_adjacency_accesses: observed,
            placement,
            replicated_users: HashSet::new(),
        };
        proof {
            assert forall|i: int| 0 <= i < shard_count implies #[trigger] graph.observed()[i] == Map::<u64, u64>::empty() by {
                assert(graph.observed()[i] == graph.observed_adjacency_accesses@[i]@);
            }
        }
        Ok(graph)
    }
}

/// Whether the community sizes add up within `u64`.
fn sizes_fit(sizes: &[u64]) -> (result: bool)
    ensures
        result == (size_sum(sizes@) <= u64::MAX),
{
    let mut total: u64 = 0;
    let mut i: usize = 0;
    while i < sizes.len()
        invariant
            i <= sizes@.len(),
            total == size_sum(sizes@.take(i as int)),
        decreases sizes@.len() - i,
    {
        proof {
            assert(sizes@.take(i + 1).drop_last() =~= sizes@.take(i as int));
        }
        match total.checked_add(sizes[i]) {
            Some(t) => {
                total = t;
            },
            None => {
                proof {
                    lemma_size_sum_prefix(sizes@, i + 1);
                }
                return false;
            },
        }
        i = i + 1;
    }
    proof {
        assert(sizes@.take(sizes@.len() as int) =~= sizes@);
    }
    true
}

pub proof fn lemma_size_sum_prefix(s: Seq<u64>, k: int)
    requires
        0 <= k <= s.len(),
    ensures
        size_sum(s.take(k)) <= size_sum(s),
    decreases s.len(),
{
    if k < s.len() {
        lemma_size_sum_prefix(s.drop_last(), k);
        assert(s.drop_last().take(k) =~= s.take(k));
    } else {
        assert(s.take(k) =~= s);
    }
}

} // verus!

verus! {

/// Caches after dropping the cached list of `user_id` from shard `shard`'s cache.
pub open spec fn caches_invalidated(
    before: Option<Seq<AdjacencyLruCache>>,
    after: Option<Seq<AdjacencyLruCache>>,
    shard: int,
    user_id: u64,
) -> bool {
    match before {
        None => after is None,
        Some(old_caches) => after matches Some(new_caches) && {
            &&& new_caches.len() == old_caches.len()
            &&& forall|i: int| 0 <= i < old_caches.len() && i != shard ==> #[trigger] new_caches[i] == old_caches[i]
            &&& (0 <= shard < old_caches.len() ==> {
                &&& new_caches[shard]@ == without_key(old_caches[shard]@, user_id)
                &&& new_caches[shard].same_settings(&old_caches[shard])
            })
        },
    }
}

impl ShardedGraph {
    /// Everything but the shard graphs is equal.
    pub open spec fn same_meta(&self, other: &Self) -> bool {
        &&& self.spec_placement() == other.spec_placement()
        &&& self.cache_list() == other.cache_list()
        &&& self.observed() == other.observed()
        &&& self.replicated() == other.replicated()
    }

    /// The shard graphs are equal but for shard `shard`.
    pub open spec fn same_shards_except(&self, other: &Self, shard: int) -> bool {
        &&& self.graphs().len() == other.graphs().len()
        &&& forall|i: int| 0 <= i < self.graphs().len() && i != shard ==> #[trigger] self.graphs()[i] == other.graphs()[i]
    }

    pub fn with_placement_and_cache(shard_count: usize, placement: Placement, cache_capacity_per_shard: usize) -> (result: Result<Self, GraphError>)
        ensures
            match result {
                Ok(graph) => placement_error(shard_count as nat, placement) is None
                    && cache_error(cache_capacity_per_shard, None) is None && graph.wf()
                    && graph.is_fresh(shard_count as nat, placement)
                    && graph.has_empty_caches(cache_capacity_per_shard, None, EvictionPolicy::Lru),
                Err(e) => if placement_error(shard_count as nat, placement) is Some {
                    placement_error(shard_count as nat, placement) == Some(e)
                } else {
                    cache_error(cache_capacity_per_shard, None) == Some(e)
                },
            },
    {
        Self::build_with_caches(shard_count, placement, cache_capacity_per_shard, None, EvictionPolicy::Lru)
    }

    pub fn with_placement_and_cache_policy(shard_count: usize, placement: Placement, cache_capacity_per_shard: usize, policy: EvictionPolicy) -> (result: Result<Self, GraphError>)
        ensures
            match result {
                Ok(graph) => placement_error(shard_count as nat, placement) is None
                    && cache_error(cache_capacity_per_shard, None) is None && graph.wf()
                    && graph.is_fresh(shard_count as nat, placement)
                    && graph.has_empty_caches(cache_capacity_per_shard, None, policy),
                Err(e) => if placement_error(shard_count as nat, placement) is Some {
                    placement_error(shard_count as nat, placement) == Some(e)
                } else {
                    cache_error(cache_capacity_per_shard, None) == Some(e)
                },
            },
    {
        Self::build_with_caches(shard_count, placement, cache_capacity_per_shard, None, policy)
    }

    pub fn with_placement_and_byte_bounded_cache(
        shard_count: usize,
        placement: Placement,
        cache_capacity_per_shard: usize,
        cache_byte_capacity_per_shard: usize,
    ) -> (result: Result<Self, GraphError>)
        ensures
            match result {
                Ok(graph) => placement_error(shard_count as nat, placement) is None
                    && cache_error(cache_capacity_per_shard, Some(cache_byte_capacity_per_shard)) is None && graph.wf()
                    && graph.is_fresh(shard_count as nat, placement)
                    && graph.has_empty_caches(cache_capacity_per_shard, Some(cache_byte_capacity_per_shard), EvictionPolicy::Lru),
                Err(e) => if placement_error(shard_count as nat, placement) is Some {
                    placement_error(shard_count as nat, placement) == Some(e)
                } else {
                    cache_error(cache_capacity_per_shard, Some(cache_byte_capacity_per_shard)) == Some(e)
                },
            },
    {
        Self::build_with_caches(
            shard_count,
            placement,
            cache_capacity_per_shard,
            Some(cache_byte_capacity_per_shard),
            EvictionPolicy::Lru,
        )
    }

    pub fn with_placement_and_policy_and_byte_bounded_cache(
        shard_count: usize,
        placement: Placement,
        cache_capacity_per_shard: usize,
        cache_byte_capacity_per_shard: usize,
        policy: EvictionPolicy,
    ) -> (result: Result<Self, GraphError>)
        ensures
            match result {
                Ok(graph) => placement_error(shard_count as nat, placement) is None
                    && cache_error(cache_capacity_per_shard, Some(cache_byte_capacity_per_shard)) is None && graph.wf()
                    && graph.is_fresh(shard_count as nat, placement)
                    && graph.has_empty_caches(cache_capacity_per_shard, Some(cache_byte_capacity_per_shard), policy),
                Err(e) => if placement_error(shard_count as nat, placement) is Some {
                    placement_error(shard_count as nat, placement) == Some(e)
                } else {
                    cache_error(cache_capacity_per_shard, Some(cache_byte_capacity_per_shard)) == Some(e)
                },
            },
    {
        Self::build_with_caches(
            shard_count,
            placement,
            cache_capacity_per_shard,
            Some(cache_byte_capacity_per_shard),
            policy,
        )
    }

    pub fn new_with_cache(shard_count: usize, cache_capacity_per_shard: usize) -> (result: Result<Self, GraphError>)
        ensures
            match result {
                Ok(graph) => placement_error(shard_count as nat, Placement::Hash) is None
                    && cache_error(cache_capacity_per_shard, None) is None && graph.wf()
                    && graph.is_fresh(shard_count as nat, Placement::Hash)
                    && graph.has_empty_caches(cache_capacity_per_shard, None, EvictionPolicy::Lru),
                Err(e) => if placement_error(shard_count as nat, Placement::Hash) is Some {
                    placement_error(shard_count as nat, Placement::Hash) == Some(e)
                } else {
                    cache_error(cache_capacity_per_shard, None) == Some(e)
                },
            },
    {
        Self::with_placement_and_cache(shard_count, Placement::Hash, cache_capacity_per_shard)
    }

    pub fn new_with_byte_bounded_cache(shard_count: usize, cache_capacity_per_shard: usize, cache_byte_capacity_per_shard: usize) -> (result: Result<Self, GraphError>)
        ensures
            match result {
                Ok(graph) => placement_error(shard_count as nat, Placement::Hash) is None
                    && cache_error(cache_capacity_per_shard, Some(cache_byte_capacity_per_shard)) is None && graph.wf()
                    && graph.is_fresh(shard_count as nat, Placement::Hash)
                    && graph.has_empty_caches(cache_capacity_per_shard, Some(cache_byte_capacity_per_shard), EvictionPolicy::Lru),
                Err(e) => if placement_error(shard_count as nat, Placement::Hash) is Some {
                    placement_error(shard_count as nat, Placement::Hash) == Some(e)
                } else {
                    cache_error(cache_capacity_per_shard, Some(cache_byte_capacity_per_shard)) == Some(e)
                },
            },
    {
        Self::with_placement_and_byte_bounded_cache(shard_count, Placement::Hash, cache_capacity_per_shard, cache_byte_capacity_per_shard)
    }

    pub fn new_with_cache_policy(shard_count: usize, cache_capacity_per_shard: usize, policy: EvictionPolicy) -> (result: Result<Self, GraphError>)
        ensures
            match result {
                Ok(graph) => placement_error(shard_count as nat, Placement::Hash) is None
                    && cache_error(cache_capacity_per_shard, None) is None && graph.wf()
                    && graph.is_fresh(shard_count as nat, Placement::Hash)
                    && graph.has_empty_caches(cache_capacity_per_shard, None, policy),
                Err(e) => if placement_error(shard_count as nat, Placement::Hash) is Some {
                    placement_error(shard_count as nat, Placement::Hash) == Some(e)
                } else {
                    cache_error(cache_capacity_per_shard, None) == Some(e)
                },
            },
    {
        Self::with_placement_and_cache_policy(shard_count, Placement::Hash, cache_capacity_per_shard, policy)
    }

    pub fn new_with_policy_and_byte_bounded_cache(
        shard_count: usize,
        cache_capacity_per_shard: usize,
        cache_byte_capacity_per_shard: usize,
        policy: EvictionPolicy,
    ) -> (result: Result<Self, GraphError>)
        ensures
            match result {
                Ok(graph) => placement_error(shard_count as nat, Placement::Hash) is None
                    && cache_error(cache_capacity_per_shard, Some(cache_byte_capacity_per_shard)) is None && graph.wf()
                    && graph.is_fresh(shard_count as nat, Placement::Hash)
                    && graph.has_empty_caches(cache_capacity_per_shard, Some(cache_byte_capacity_per_shard), policy),
                Err(e) => if placement_error(shard_count as nat, Placement::Hash) is Some {
                    placement_error(shard_count as nat, Placement::Hash) == Some(e)
                } else {
                    cache_error(cache_capacity_per_shard, Some(cache_byte_capacity_per_shard)) == Some(e)
                },
            },
    {
        Self::with_placement_and_policy_and_byte_bounded_cache(
            shard_count,
            Placement::Hash,
            cache_capacity_per_shard,
            cache_byte_capacity_per_shard,
            policy,
        )
    }

    fn build_with_caches(
        shard_count: usize,
        placement: Placement,
        capacity: usize,
        byte_capacity: Option<usize>,
        policy: EvictionPolicy,
    ) -> (result: Result<Self, GraphError>)
        ensures
            match result {
                Ok(graph) => placement_error(shard_count as nat, placement) is None
                    && cache_error(capacity, byte_capacity) is None && graph.wf()
                    && graph.is_fresh(shard_count as nat, placement)
                    && graph.has_empty_caches(capacity, byte_capacity, policy),
                Err(e) => if placement_error(shard_count as nat, placement) is Some {
                    placement_error(shard_count as nat, placement) == Some(e)
                } else {
                    cache_error(capacity, byte_capacity) == Some(e)
                },
            },
    {
        let mut graph = Self::with_placement(shard_count, placement)?;
        let mut caches: Vec<AdjacencyLruCache> = Vec::new();
        for i in 0..shard_count
            invariant
                graph.wf(),
                graph.is_fresh(shard_count as nat, placement),
                graph.cache_list() is None,
                placement_error(shard_count as nat, placement) is None,
                caches@.len() == i,
                i > 0 ==> cache_error(capacity, byte_capacity) is None,
                forall|j: int| 0 <= j < i ==> {
                    &&& (#[trigger] caches@[j]).wf()
                    &&& caches@[j]@ == Seq::<CacheEntry>::empty()
                    &&& caches@[j].spec_capacity() == capacity
                    &&& caches@[j].spec_byte_capacity() == byte_capacity
                    &&& caches@[j].spec_policy() == policy
                },
        {
            let cache = match byte_capacity {
                Some(bytes) => AdjacencyLruCache::new_with_policy_and_byte_capacity(capacity, bytes, policy)?,
                None => AdjacencyLruCache::new_with_policy(capacity, policy)?,
            };
            caches.push(cache);
        }
        proof {
            if shard_count > 0 {
                assert(caches@[0].spec_capacity() == capacity);
            }
        }
        let ghost before = graph;
        graph.caches = Some(caches);
        proof {
            assert(graph.observed() == before.observed());
            assert forall|i: int| 0 <= i < shard_count implies #[trigger] graph.observed()[i] == Map::<u64, u64>::empty() by {
                assert(before.observed()[i] == Map::<u64, u64>::empty());
            }
        }
        Ok(graph)
    }

    /// Builds the greedy balanced assignment of the communities and places users by it.
    pub fn with_balanced_communities(shard_count: usize, community_sizes: Vec<u64>) -> (result: Result<Self, GraphError>)
        requires
            size_sum(community_sizes@) <= u64::MAX,
        ensures
            shard_count == 0 ==> result == Err::<Self, GraphError>(GraphError::ZeroShardCount),
            shard_count != 0 && community_sizes@.len() == 0 ==> result == Err::<Self, GraphError>(GraphError::EmptyCommunities),
            shard_count != 0 && community_sizes@.len() != 0 && community_sizes@.contains(0) ==> result
                == Err::<Self, GraphError>(GraphError::ZeroCommunitySizes),
            shard_count != 0 && community_sizes@.len() != 0 && !community_sizes@.contains(0) ==> result is Ok,
            result matches Ok(graph) ==> {
                &&& graph.wf()
                &&& graph.cache_list() is None
                &&& (graph.spec_placement() matches Placement::BalancedCommunity { community_sizes: sizes, community_to_shard: map }
                    && sizes@ == community_sizes@ && map@ == balanced_placement(community_sizes@, shard_count as nat).assignment)
                &&& graph.is_fresh(shard_count as nat, graph.spec_placement())
            },
    {
        let assignment = assign_communities_balanced(community_sizes.as_slice(), shard_count)?;
        let ghost sizes = community_sizes@;
        proof {
            assert(sizes.len() == community_sizes.len());
            crate::balanced::lemma_greedy_shape_ranking(sizes, shard_count as nat);
        }
        let placement = Placement::BalancedCommunity {
            community_sizes,
            community_to_shard: assignment.community_to_shard,
        };
        let result = Self::with_placement(shard_count, placement);
        proof {
            assert(placement_error(shard_count as nat, placement) is None) by {
                if placement_error(shard_count as nat, placement) is Some {
                    if exists|i: int| 0 <= i < sizes.len() && #[trigger] balanced_placement(sizes, shard_count as nat).assignment[i] >= shard_count {
                        let i = choose|i: int| 0 <= i < sizes.len() && #[trigger] balanced_placement(sizes, shard_count as nat).assignment[i] >= shard_count;
                    }
                }
            }
        }
        result
    }

    pub(crate) fn try_shard_for(&self, user_id: u64) -> (result: Option<usize>)
        requires
            self.wf(),
        ensures
            result == self.home(user_id),
            result matches Some(s) ==> s < self.shard_count_spec(),
    {
        proof {
            lemma_placement_shard_range(self.placement, self.shards@.len() as nat, user_id);
        }
        if user_id == 0 {
            return None;
        }
        match &self.placement {
            Placement::Hash => Some(#[verifier::truncate] (user_id as usize) % self.shards.len()),
            Placement::Community { community_size } => {
                let community_id = (user_id - 1) / *community_size;
                Some(#[verifier::truncate] (community_id as usize) % self.shards.len())
            },
            Placement::BalancedCommunity { community_sizes, community_to_shard } => {
                let ghost sizes = community_sizes@;
                let ghost map = community_to_shard@;
                let mut final_user_id: u64 = 0;
                let mut community_id: usize = 0;
                while community_id < community_sizes.len()
                    invariant
                        self.wf(),
                        user_id != 0,
                        self.placement == (Placement::BalancedCommunity {
                            community_sizes: *community_sizes,
                            community_to_shard: *community_to_shard,
                        }),
                        sizes == community_sizes@,
                        map == community_to_shard@,
                        size_sum(sizes) <= u64::MAX,
                        community_id <= sizes.len(),
                        final_user_id == size_sum(sizes.take(community_id as int)),
                        community_shard(sizes, map, user_id as int, 0, 0)
                            == community_shard(sizes, map, user_id as int, community_id as int, final_user_id as int),
                    decreases sizes.len() - community_id,
                {
                    proof {
                        assert(sizes.take(community_id + 1).drop_last() =~= sizes.take(community_id as int));
                        lemma_size_sum_prefix(sizes, community_id + 1);
                    }
                    final_user_id = final_user_id + community_sizes[community_id];
                    if user_id <= final_user_id {
                        return if community_id < community_to_shard.len() {
                            Some(community_to_shard[community_id])
                        } else {
                            None
                        };
                    }
                    community_id = community_id + 1;
                }
                None
            },
        }
    }

    /// The home shard of a user the placement covers.
    pub(crate) fn shard_for(&self, user_id: u64) -> (result: usize)
        requires
            self.wf(),
            self.home(user_id) is Some,
        ensures
            Some(result) == self.home(user_id),
            result < self.shard_count_spec(),
    {
        match self.try_shard_for(user_id) {
            Some(s) => s,
            None => 0,
        }
    }

    /// The shard that stores `user_id` according to the placement; the placement must cover
    /// the user.
    pub fn placement_for_user(&self, user_id: u64) -> (result: usize)
        requires
            self.wf(),
            self.home(user_id) is Some,
        ensures
            Some(result) == self.home(user_id),
    {
        self.shard_for(user_id)
    }

    /// Adds a user on its home shard.
    pub fn add_user(&mut self, id: u64, name: &str) -> (result: Result<(), GraphError>)
        requires
            old(self).wf(),
        ensures
            final(self).wf(),
            final(self).same_meta(old(self)),
            id == 0 ==> result == Err::<(), GraphError>(GraphError::ZeroShardCount),
            id != 0 && old(self).home(id) is None ==> result == Err::<(), GraphError>(GraphError::OutsideCommunityRange(id)),
            id == 0 || old(self).home(id) is None ==> final(self).graphs() == old(self).graphs(),
            final(self).logical_adjacency() == old(self).logical_adjacency(),
            final(self).logical_names() == if id != 0 && old(self).home(id) is Some && !old(self).has_user(id) {
                old(self).logical_names().insert(id, name@)
            } else {
                old(self).logical_names()
            },
            old(self).home(id) matches Some(h) ==> {
                &&& final(self).same_shards_except(old(self), h as int)
                &&& final(self).graphs()[h as int].adjacency() == old(self).graphs()[h as int].adjacency()
                &&& if old(self).graphs()[h as int].has_user(id) {
                    &&& result == Err::<(), GraphError>(GraphError::UserAlreadyExists(id))
                    &&& final(self).graphs()[h as int].names() == old(self).graphs()[h as int].names()
                } else {
                    &&& result is Ok
                    &&& final(self).graphs()[h as int].names() == old(self).graphs()[h as int].names().insert(id, name@)
                }
            },
    {
        if id == 0 {
            return Err(GraphError::ZeroShardCount);
        }
        let shard_id = match self.try_shard_for(id) {
            Some(s) => s,
            None => {
                return Err(GraphError::OutsideCommunityRange(id));
            },
        };
        let result = self.shards[shard_id].add_user(id, name);
        proof {
            assert forall|i: int| 0 <= i < self.shards@.len() implies (#[trigger] self.shards@[i]).wf() by {
                if i != shard_id {
                    assert(self.shards@[i] == old(self).shards@[i]);
                }
            }
            assert forall|u: u64, s: int|
                0 <= s < self.shard_count_spec() && !self.replicated().contains(u) && self.home(u) != Some(s as usize)
                implies !#[trigger] self.graphs()[s].has_user(u) by {
                assert(!old(self).graphs()[s].has_user(u));
                if s != shard_id {
                    assert(self.graphs()[s] == old(self).graphs()[s]);
                }
            }
            Self::lemma_logical_same_lists(old(self), self, shard_id as int);
            old(self).lemma_wf_placement();
            let expected = if !old(self).has_user(id) {
                old(self).logical_names().insert(id, name@)
            } else {
                old(self).logical_names()
            };
            assert forall|u: u64| #[trigger] self.logical_names().contains_key(u) == expected.contains_key(u) by {
                if let Some(h) = old(self).home(u) {
                    assert(self.home(u) == Some(h));
                    if h != shard_id {
                        assert(self.graphs()[h as int] == old(self).graphs()[h as int]);
                    }
                }
            }
            assert forall|u: u64| #[trigger] self.logical_names().contains_key(u) implies self.logical_names()[u] == expected[u] by {
                let h = old(self).home(u).unwrap();
                if h != shard_id {
                    assert(self.graphs()[h as int] == old(self).graphs()[h as int]);
                }
            }
            assert(self.logical_names() =~= expected);
        }
        result
    }

    /// When the shards differ only in the names on shard `shard`, the logical graph is the same.
    proof fn lemma_logical_same_lists(before: &Self, after: &Self, shard: int)
        requires
            before.wf(),
            after.spec_placement() == before.spec_placement(),
            after.graphs().len() == before.graphs().len(),
            forall|i: int| 0 <= i < before.graphs().len() && i != shard ==> #[trigger] after.graphs()[i] == before.graphs()[i],
            0 <= shard < before.graphs().len() ==> after.graphs()[shard].adjacency() == before.graphs()[shard].adjacency(),
        ensures
            after.logical_adjacency() == before.logical_adjacency(),
    {
        before.lemma_wf_placement();
        assert forall|k: u64| #[trigger] after.logical_adjacency().contains_key(k) == before.logical_adjacency().contains_key(k) by {
            if let Some(h) = before.home(k) {
                assert(after.home(k) == Some(h));
                if h as int != shard {
                    assert(after.graphs()[h as int] == before.graphs()[h as int]);
                }
            }
        }
        assert forall|k: u64| #[trigger] after.logical_adjacency().contains_key(k) implies after.logical_adjacency()[k] == before.logical_adjacency()[k] by {
            let h = before.home(k).unwrap();
            if h as int != shard {
                assert(after.graphs()[h as int] == before.graphs()[h as int]);
            }
        }
        assert(after.logical_adjacency() =~= before.logical_adjacency());
    }

    /// When every shard keeps its names, the users the shards store together are the same.
    proof fn lemma_logical_names_same(before: &Self, after: &Self)
        requires
            before.wf(),
            after.spec_placement() == before.spec_placement(),
            after.graphs().len() == before.graphs().len(),
            forall|i: int| 0 <= i < before.graphs().len() ==> #[trigger] after.graphs()[i].names() == before.graphs()[i].names(),
        ensures
            after.logical_names() == before.logical_names(),
    {
        before.lemma_wf_placement();
        assert forall|u: u64| #[trigger] after.logical_names().contains_key(u) == before.logical_names().contains_key(u) by {
            if let Some(h) = before.home(u) {
                assert(after.graphs()[h as int].names() == before.graphs()[h as int].names());
            }
        }
        assert forall|u: u64| #[trigger] after.logical_names().contains_key(u) implies after.logical_names()[u] == before.logical_names()[u] by {
            let h = before.home(u).unwrap();
            assert(after.graphs()[h as int].names() == before.graphs()[h as int].names());
        }
        assert(after.logical_names() =~= before.logical_names());
    }

    /// When the shards differ only in the list of `source` on its home shard, the logical
    /// graph differs in that list alone.
    proof fn lemma_logical_list_update(before: &Self, after: &Self, source: u64, list: Seq<u64>)
        requires
            before.wf(),
            before.home(source) is Some,
            after.spec_placement() == before.spec_placement(),
            after.graphs().len() == before.graphs().len(),
            forall|i: int| 0 <= i < before.graphs().len() && i != before.home(source).unwrap() as int
                ==> #[trigger] after.graphs()[i] == before.graphs()[i],
            after.graphs()[before.home(source).unwrap() as int].adjacency()
                == before.graphs()[before.home(source).unwrap() as int].adjacency().insert(source, list),
        ensures
            after.logical_adjacency() == before.logical_adjacency().insert(source, list),
    {
        before.lemma_wf_placement();
        let hs = before.home(source).unwrap() as int;
        let expected = before.logical_adjacency().insert(source, list);
        assert forall|k: u64| #[trigger] after.logical_adjacency().contains_key(k) == expected.contains_key(k) by {
            if let Some(h) = before.home(k) {
                assert(after.home(k) == Some(h));
                if h as int != hs {
                    assert(after.graphs()[h as int] == before.graphs()[h as int]);
                }
            }
        }
        assert forall|k: u64| #[trigger] after.logical_adjacency().contains_key(k) implies after.logical_adjacency()[k] == expected[k] by {
            let h = before.home(k).unwrap();
            if h as int != hs {
                assert(after.graphs()[h as int] == before.graphs()[h as int]);
            }
        }
        assert(after.logical_adjacency() =~= expected);
    }

    pub(crate) fn invalidate_cached_adjacency(&mut self, shard_id: usize, user_id: u64)
        requires
            old(self).wf(),
            shard_id < old(self).shard_count_spec(),
        ensures
            final(self).wf(),
            final(self).graphs() == old(self).graphs(),
            final(self).spec_placement() == old(self).spec_placement(),
            final(self).observed() == old(self).observed(),
            final(self).replicated() == old(self).replicated(),
            caches_invalidated(old(self).cache_list(), final(self).cache_list(), shard_id as int, user_id),
    {
        match &mut self.caches {
            Some(caches) => {
                let ghost before = caches@;
                caches[shard_id].invalidate(user_id);
                proof {
                    assert forall|i: int| 0 <= i < caches@.len() implies (#[trigger] caches@[i]).wf() by {
                        if i != shard_id {
                            assert(caches@[i] == before[i]);
                        }
                    }
                    assert forall|i: int| 0 <= i < caches@.len() implies (#[trigger] caches@[i]).same_settings(&caches@[0]) by {
                        assert(before[i].same_settings(&before[0]));
                        if i != shard_id {
                            assert(caches@[i] == before[i]);
                        }
                        if shard_id != 0 {
                            assert(caches@[0] == before[0]);
                        }
                    }
                }
            },
            None => {},
        }
    }

    /// Adds `source -> target` on the source's home shard; both users must exist. A new edge
    /// drops the source's cached list on that shard.
    pub fn add_follow(&mut self, source: u64, target: u64) -> (result: Result<(), GraphError>)
        requires
            old(self).wf(),
        ensures
            final(self).wf(),
            final(self).spec_placement() == old(self).spec_placement(),
            final(self).observed() == old(self).observed(),
            final(self).replicated() == old(self).replicated(),
            final(self).logical_names() == old(self).logical_names(),
            result is Err ==> final(self).logical_adjacency() == old(self).logical_adjacency(),
            !old(self).has_user(source) ==> result == Err::<(), GraphError>(GraphError::SourceUserNotFound(source)),
            old(self).has_user(source) && !old(self).has_user(target) ==> result == Err::<(), GraphError>(GraphError::TargetUserNotFound(target)),
            result is Err ==> final(self).graphs() == old(self).graphs() && final(self).cache_list() == old(self).cache_list(),
            old(self).has_user(source) && old(self).has_user(target) ==> result is Ok && ({
                let h = old(self).home(source).unwrap() as int;
                &&& final(self).same_shards_except(old(self), h)
                &&& final(self).graphs()[h].names() == old(self).graphs()[h].names()
                &&& final(self).graphs()[h].adjacency() == added_edge(old(self).graphs()[h].adjacency(), source, target)
                &&& final(self).logical_adjacency() == added_edge(old(self).logical_adjacency(), source, target)
                &&& final(self).logical_names() == old(self).logical_names()
                &&& if old(self).following(source).contains(target) {
                    final(self).cache_list() == old(self).cache_list()
                } else {
                    caches_invalidated(old(self).cache_list(), final(self).cache_list(), h, source)
                }
            }),
            old(self).cache_list() is Some && crate::properties::caches_agree(old(self).cache_views(), old(self).graphs())
                ==> final(self).cache_list() is Some && crate::properties::caches_agree(final(self).cache_views(), final(self).graphs()),
    {
        if self.get_user(source).is_none() {
            return Err(GraphError::SourceUserNotFound(source));
        }
        if self.get_user(target).is_none() {
            return Err(GraphError::TargetUserNotFound(target));
        }
        let source_shard = match self.try_shard_for(source) {
            Some(s) => s,
            None => {
                return Err(GraphError::ShardNotFound(source));
            },
        };
        let edge_already_exists = contains_id(self.shards[source_shard].get_following_ids(source), target);
        let result = self.shards[source_shard].add_follow_unchecked(source, target);
        proof {
            old(self).lemma_wf_placement();
            lemma_closed_after_add(old(self).shards@, self.shards@, self.placement, source_shard as int, source, target);
            let adj = old(self).graphs()[source_shard as int].adjacency();
            if old(self).graphs()[source_shard as int].has_user(source) {
                assert(added_edge(adj, source, target) == adj.insert(source, added_edge(adj, source, target)[source]));
                Self::lemma_logical_list_update(old(self), self, source, added_edge(adj, source, target)[source]);
                old(self).lemma_logical_list(source);
            }
            assert forall|i: int| 0 <= i < self.shards@.len() implies (#[trigger] self.shards@[i]).wf() by {
                if i != source_shard {
                    assert(self.shards@[i] == old(self).shards@[i]);
                }
            }
            assert forall|u: u64, s: int|
                0 <= s < self.shard_count_spec() && !self.replicated().contains(u) && self.home(u) != Some(s as usize)
                implies !#[trigger] self.graphs()[s].has_user(u) by {
                assert(!old(self).graphs()[s].has_user(u));
                if s != source_shard {
                    assert(self.graphs()[s] == old(self).graphs()[s]);
                }
            }
            assert forall|i: int| 0 <= i < old(self).graphs().len() implies #[trigger] self.graphs()[i].names() == old(self).graphs()[i].names() by {
                if i != source_shard {
                    assert(self.graphs()[i] == old(self).graphs()[i]);
                }
            }
            Self::lemma_logical_names_same(old(self), self);
        }
        match result {
            Ok(()) => {},
            Err(e) => {
                return Err(e);
            },
        }
        let ghost mid = *self;
        if !edge_already_exists {
            self.invalidate_cached_adjacency(source_shard, source);
        }
        proof {
            Self::lemma_logical_names_same(&mid, self);
            if old(self).cache_list() is Some && crate::properties::caches_agree(old(self).cache_views(), old(self).graphs()) {
                let h = source_shard as int;
                let adj = old(self).graphs()[h].adjacency();
                if edge_already_exists {
                    assert(self.graphs()[h].adjacency() =~= adj);
                    assert forall|i: int| 0 <= i < old(self).graphs().len() implies (#[trigger] self.graphs()[i]).adjacency()
                        == old(self).graphs()[i].adjacency() by {
                        if i != h {
                            assert(self.graphs()[i] == old(self).graphs()[i]);
                        }
                    }
                    crate::properties::lemma_unchanged_caches_agree(*old(self), *self);
                } else {
                    assert forall|u: u64| u != source implies #[trigger] list_of(self.graphs()[h].adjacency(), u) == list_of(adj, u) by {}
                    crate::properties::lemma_invalidated_caches_agree(*old(self), *self, h, source);
                }
            }
        }
        Ok(())
    }

    /// Removes `source -> target` from the source's home shard; both users must exist.
    /// Returns whether the edge existed; a removed edge drops the source's cached list.
    pub fn remove_follow(&mut self, source: u64, target: u64) -> (result: Result<bool, GraphError>)
        requires
            old(self).wf(),
        ensures
            final(self).wf(),
            final(self).spec_placement() == old(self).spec_placement(),
            final(self).observed() == old(self).observed(),
            final(self).replicated() == old(self).replicated(),
            final(self).logical_names() == old(self).logical_names(),
            result is Err ==> final(self).logical_adjacency() == old(self).logical_adjacency(),
            !old(self).has_user(source) ==> result == Err::<bool, GraphError>(GraphError::SourceUserNotFound(source)),
            old(self).has_user(source) && !old(self).has_user(target) ==> result == Err::<bool, GraphError>(GraphError::TargetUserNotFound(target)),
            result is Err ==> final(self).graphs() == old(self).graphs() && final(self).cache_list() == old(self).cache_list(),
            old(self).has_user(source) && old(self).has_user(target) ==> result == Ok::<bool, GraphError>(old(self).following(source).contains(target)) && ({
                let h = old(self).home(source).unwrap() as int;
                &&& final(self).same_shards_except(old(self), h)
                &&& final(self).graphs()[h].names() == old(self).graphs()[h].names()
                &&& final(self).graphs()[h].adjacency() == removed_edge(old(self).graphs()[h].adjacency(), source, target)
                &&& final(self).logical_adjacency() == removed_edge(old(self).logical_adjacency(), source, target)
                &&& final(self).logical_names() == old(self).logical_names()
                &&& if old(self).following(source).contains(target) {
                    caches_invalidated(old(self).cache_list(), final(self).cache_list(), h, source)
                } else {
                    final(self).cache_list() == old(self).cache_list()
                }
            }),
            old(self).cache_list() is Some && crate::properties::caches_agree(old(self).cache_views(), old(self).graphs())
                ==> final(self).cache_list() is Some && crate::properties::caches_agree(final(self).cache_views(), final(self).graphs()),
    {
        if self.get_user(source).is_none() {
            return Err(GraphError::SourceUserNotFound(source));
        }
        if self.get_user(target).is_none() {
            return Err(GraphError::TargetUserNotFound(target));
        }
        let source_shard = match self.try_shard_for(source) {
            Some(s) => s,
            None => {
                return Err(GraphError::ShardNotFound(source));
            },
        };
        let result = self.shards[source_shard].remove_follow_unchecked(source, target);
        proof {
            let adj = old(self).graphs()[source_shard as int].adjacency();
            if old(self).graphs()[source_shard as int].has_user(source) {
                old(self).lemma_logical_list(source);
                if adj.contains_key(source) && adj[source].contains(target) {
                    assert(removed_edge(adj, source, target) == adj.insert(source, removed_edge(adj, source, target)[source]));
                    Self::lemma_logical_list_update(old(self), self, source, removed_edge(adj, source, target)[source]);
                } else {
                    Self::lemma_logical_same_lists(old(self), self, source_shard as int);
                }
            }
            assert forall|i: int| 0 <= i < self.shards@.len() implies (#[trigger] self.shards@[i]).wf() by {
                if i != source_shard {
                    assert(self.shards@[i] == old(self).shards@[i]);
                }
            }
            assert forall|u: u64, s: int|
                0 <= s < self.shard_count_spec() && !self.replicated().contains(u) && self.home(u) != Some(s as usize)
                implies !#[trigger] self.graphs()[s].has_user(u) by {
                assert(!old(self).graphs()[s].has_user(u));
                if s != source_shard {
                    assert(self.graphs()[s] == old(self).graphs()[s]);
                }
            }
            assert forall|i: int| 0 <= i < old(self).graphs().len() implies #[trigger] self.graphs()[i].names() == old(self).graphs()[i].names() by {
                if i != source_shard {
                    assert(self.graphs()[i] == old(self).graphs()[i]);
                }
            }
            Self::lemma_logical_names_same(old(self), self);
        }
        let removed = match result {
            Ok(removed) => removed,
            Err(e) => {
                return Err(e);
            },
        };
        let ghost mid = *self;
        if removed {
            self.invalidate_cached_adjacency(source_shard, source);
        }
        proof {
            Self::lemma_logical_names_same(&mid, self);
            if old(self).cache_list() is Some && crate::properties::caches_agree(old(self).cache_views(), old(self).graphs()) {
                let h = source_shard as int;
                let adj = old(self).graphs()[h].adjacency();
                if !removed {
                    assert(self.graphs()[h].adjacency() =~= adj);
                    assert forall|i: int| 0 <= i < old(self).graphs().len() implies (#[trigger] self.graphs()[i]).adjacency()
                        == old(self).graphs()[i].adjacency() by {
                        if i != h {
                            assert(self.graphs()[i] == old(self).graphs()[i]);
                        }
                    }
                    crate::properties::lemma_unchanged_caches_agree(*old(self), *self);
                } else {
                    assert forall|u: u64| u != source implies #[trigger] list_of(self.graphs()[h].adjacency(), u) == list_of(adj, u) by {}
                    crate::properties::lemma_invalidated_caches_agree(*old(self), *self, h, source);
                }
            }
        }
        Ok(removed)
    }

    /// The user as stored on its home shard.
    pub fn get_user(&self, id: u64) -> (result: Option<&User>)
        requires
            self.wf(),
        ensures
            match result {
                Some(user) => self.has_user(id) && user.id == id
                    && user.name@ == self.graphs()[self.home(id).unwrap() as int].names()[id],
                None => !self.has_user(id),
            },
    {
        let shard_id = match self.try_shard_for(id) {
            Some(s) => s,
            None => {
                return None;
            },
        };
        self.shards[shard_id].get_user(id)
    }

    /// The adjacency list of `source` on its home shard (empty outside the placement).
    pub fn get_following_ids(&self, source: u64) -> (result: &[u64])
        requires
            self.wf(),
        ensures
            result@ == self.following(source),
    {
        let shard_id = match self.try_shard_for(source) {
            Some(s) => s,
            None => {
                return &[];
            },
        };
        self.shards[shard_id].get_following_ids(source)
    }

    pub fn shard_count(&self) -> (result: usize)
        ensures
            result == self.shard_count_spec(),
    {
        self.shards.len()
    }

    /// One logical shard's graph.
    pub fn shard(&self, shard_id: usize) -> (result: &Graph)
        requires
            shard_id < self.shard_count_spec(),
        ensures
            *result == self.graphs()[shard_id as int],
    {
        &self.shards[shard_id]
    }

    /// How users are assigned to shards.
    pub fn placement(&self) -> (result: &Placement)
        ensures
            *result == self.spec_placement(),
    {
        &self.placement
    }

    /// The users whose adjacency lists every shard holds.
    pub fn replicated_users(&self) -> (result: &HashSet<u64>)
        ensures
            result@ == self.replicated(),
    {
        &self.replicated_users
    }

    /// The shard-local caches, when caching is enabled.
    pub fn caches(&self) -> (result: Option<&Vec<AdjacencyLruCache>>)
        ensures
            match result {
                Some(caches) => self.cache_list() == Some(caches@),
                None => self.cache_list() is None,
            },
    {
        match &self.caches {
            Some(caches) => Some(caches),
            None => None,
        }
    }

    /// The number of users stored on each shard.
    pub fn users_per_shard(&self) -> (result: Vec<usize>)
        requires
            self.wf(),
        ensures
            result@.len() == self.shard_count_spec(),
            forall|i: int| 0 <= i < result@.len() ==> #[trigger] result@[i] == self.graphs()[i].names().len(),
    {
        let mut counts: Vec<usize> = Vec::new();
        for i in 0..self.shards.len()
            invariant
                self.wf(),
                counts@.len() == i,
                forall|j: int| 0 <= j < i ==> #[trigger] counts@[j] == self.graphs()[j].names().len(),
        {
            counts.push(self.shards[i].user_count());
        }
        counts
    }

    /// The number of edges stored on each shard (each saturating at `usize::MAX`).
    pub fn edges_per_shard(&self) -> (result: Vec<usize>)
        requires
            self.wf(),
        ensures
            result@.len() == self.shard_count_spec(),
            forall|i: int| 0 <= i < result@.len() ==> #[trigger] result@[i] == saturate(self.graphs()[i].edges().len()),
    {
        let mut counts: Vec<usize> = Vec::new();
        for i in 0..self.shards.len()
            invariant
                self.wf(),
                counts@.len() == i,
                forall|j: int| 0 <= j < i ==> #[trigger] counts@[j] == saturate(self.graphs()[j].edges().len()),
        {
            counts.push(self.shards[i].edge_count());
        }
        counts
    }

    /// The IDs stored on each shard.
    pub fn user_ids_per_shard(&self) -> (result: Vec<Vec<u64>>)
        requires
            self.wf(),
        ensures
            result@.len() == self.shard_count_spec(),
            forall|i: int| 0 <= i < result@.len() ==> (#[trigger] result@[i])@.no_duplicates()
                && result@[i]@.to_set() == self.graphs()[i].names().dom(),
    {
        let mut ids: Vec<Vec<u64>> = Vec::new();
        for i in 0..self.shards.len()
            invariant
                self.wf(),
                ids@.len() == i,
                forall|j: int| 0 <= j < i ==> (#[trigger] ids@[j])@.no_duplicates()
                    && ids@[j]@.to_set() == self.graphs()[j].names().dom(),
        {
            ids.push(self.shards[i].user_ids());
        }
        ids
    }

    /// Users stored on all shards together (saturating at `usize::MAX`).
    pub fn user_count(&self) -> (result: usize)
        requires
            self.wf(),
        ensures
            result == saturate(total_users(self.graphs())),
    {
        let mut total: usize = 0;
        for i in 0..self.shards.len()
            invariant
                self.wf(),
                total == saturate(total_users(self.graphs().take(i as int))),
        {
            proof {
                assert(self.graphs().take(i + 1).drop_last() =~= self.graphs().take(i as int));
            }
            let count = self.shards[i].user_count();
            total = if total > usize::MAX - count { usize::MAX } else { total + count };
        }
        proof {
            assert(self.graphs().take(self.graphs().len() as int) =~= self.graphs());
        }
        total
    }

    /// Edges stored on all shards together (saturating at `usize::MAX`).
    pub fn edge_count(&self) -> (result: usize)
        requires
            self.wf(),
        ensures
            result == saturate(total_edges(self.graphs())),
    {
        let mut total: usize = 0;
        for i in 0..self.shards.len()
            invariant
                self.wf(),
                total == saturate(total_edges(self.graphs().take(i as int))),
        {
            proof {
                assert(self.graphs().take(i + 1).drop_last() =~= self.graphs().take(i as int));
                self.graphs()[i as int].lemma_wf();
            }
            let count = self.shards[i].edge_count();
            total = if total > usize::MAX - count { usize::MAX } else { total + count };
        }
        proof {
            assert(self.graphs().take(self.graphs().len() as int) =~= self.graphs());
        }
        total
    }

    /// How many adjacency reads of `user_id` its home shard has observed.
    pub fn observed_adjacency_access_count(&self, user_id: u64) -> (result: u64)
        requires
            self.wf(),
        ensures
            result == (match self.home(user_id) {
                Some(h) => if self.observed()[h as int].contains_key(user_id) {
                    self.observed()[h as int][user_id]
                } else {
                    0
                },
                None => 0,
            }),
    {
        let shard_id = match self.try_shard_for(user_id) {
            Some(s) => s,
            None => {
                return 0;
            },
        };
        match self.observed_adjacency_accesses[shard_id].get(&user_id) {
            Some(count) => *count,
            None => 0,
        }
    }

    pub fn clear_observed_adjacency_accesses(&mut self)
        requires
            old(self).wf(),
        ensures
            final(self).wf(),
            final(self).graphs() == old(self).graphs(),
            final(self).spec_placement() == old(self).spec_placement(),
            final(self).cache_list() == old(self).cache_list(),
            final(self).replicated() == old(self).replicated(),
            final(self).observed().len() == old(self).observed().len(),
            forall|i: int| 0 <= i < final(self).observed().len() ==> #[trigger] final(self).observed()[i] == Map::<u64, u64>::empty(),
    {
        let n = self.observed_adjacency_accesses.len();
        for i in 0..n
            invariant
                n == self.observed_adjacency_accesses@.len(),
                self.shards@ == old(self).shards@,
                self.placement == old(self).placement,
                self.caches == old(self).caches,
                self.replicated_users == old(self).replicated_users,
                n == old(self).observed_adjacency_accesses@.len(),
                forall|j: int| 0 <= j < i ==> (#[trigger] self.observed_adjacency_accesses@[j])@ == Map::<u64, u64>::empty(),
        {
            self.observed_adjacency_accesses[i].clear();
        }
    }

    pub(crate) fn record_observed_adjacency_access(&mut self, shard_id: usize, user_id: u64)
        requires
            old(self).wf(),
            shard_id < old(self).shard_count_spec(),
        ensures
            final(self).wf(),
            final(self).graphs() == old(self).graphs(),
            final(self).spec_placement() == old(self).spec_placement(),
            final(self).cache_list() == old(self).cache_list(),
            final(self).replicated() == old(self).replicated(),
            final(self).observed() == old(self).observed().update(shard_id as int, counted(old(self).observed()[shard_id as int], user_id)),
    {
        let current = match self.observed_adjacency_accesses[shard_id].get(&user_id) {
            Some(count) => *count,
            None => 0,
        };
        let next = if current == u64::MAX { current } else { current + 1 };
        self.observed_adjacency_accesses[shard_id].insert(user_id, next);
        proof {
            assert(self.observed() =~= old(self).observed().update(shard_id as int, counted(old(self).observed()[shard_id as int], user_id)));
        }
    }
}

/// Access counts after one more observed read of `user_id` (saturating).
pub open spec fn counted(counts: Map<u64, u64>, user_id: u64) -> Map<u64, u64> {
    let current = if counts.contains_key(user_id) { counts[user_id] } else { 0u64 };
    counts.insert(user_id, if current == u64::MAX { current } else { (current + 1) as u64 })
}

pub open spec fn total_users(graphs: Seq<Graph>) -> nat
    decreases graphs.len(),
{
    if graphs.len() == 0 {
        0
    } else {
        total_users(graphs.drop_last()) + graphs.last().names().len()
    }
}

pub open spec fn total_edges(graphs: Seq<Graph>) -> nat
    decreases graphs.len(),
{
    if graphs.len() == 0 {
        0
    } else {
        total_edges(graphs.drop_last()) + graphs.last().edges().len()
    }
}

} // verus!

verus! {

/// What one two-hop query over logical shards reports, as numbers.
pub struct QueryStats {
    pub user_ids: Seq<u64>,
    pub shards_touched: nat,
    pub cross_shard_hops: nat,
    pub shard_requests: nat,
}

impl ShardedGraph {
    /// The direct two-hop query from `source`: the source's home shard, then each covered
    /// first hop's home shard in turn.
    pub open spec fn direct_stats(&self, source: u64) -> QueryStats {
        let p = self.spec_placement();
        let n = self.shard_count_spec();
        let adj = self.logical_adjacency();
        let firsts = self.following(source);
        match self.home(source) {
            None => QueryStats { user_ids: Seq::empty(), shards_touched: 0, cross_shard_hops: 0, shard_requests: 0 },
            Some(ss) => QueryStats {
                user_ids: collect_lists(placed_lists(p, n, adj, firsts), source),
                shards_touched: first_shards(p, n, firsts).union(reached_shards(p, n, adj, firsts)).insert(ss).len(),
                cross_shard_hops: sat((first_cross(p, n, ss, firsts) + reached_cross(p, n, adj, firsts)) as int),
                shard_requests: sat((1 + placed_count(p, n, firsts)) as int),
            },
        }
    }

    /// The batched two-hop query from `source`: the first hops grouped by home shard, one
    /// request per shard that holds any.
    pub open spec fn batched_stats(&self, source: u64) -> QueryStats {
        let p = self.spec_placement();
        let n = self.shard_count_spec();
        let adj = self.logical_adjacency();
        let firsts = self.following(source);
        match self.home(source) {
            None => QueryStats { user_ids: Seq::empty(), shards_touched: 0, cross_shard_hops: 0, shard_requests: 0 },
            Some(ss) => QueryStats {
                user_ids: collect_lists(batched_lists(p, n, adj, firsts, n), source),
                shards_touched: first_shards(p, n, firsts).union(batched_shards(p, n, adj, firsts, n)).insert(ss).len(),
                cross_shard_hops: sat((first_cross(p, n, ss, firsts) + batched_cross(p, n, adj, firsts, n)) as int),
                shard_requests: sat((1 + busy_shards(p, n, firsts, n)) as int),
            },
        }
    }
}

impl ShardedGraph {
    pub proof fn lemma_logical_list(&self, source: u64)
        ensures
            list_of(self.logical_adjacency(), source) == self.following(source),
    {
    }

    /// Scans the second hops `seconds` read from shard `from`: covered users are collected
    /// (new ones only, never `source`), their shards touched, and crossings counted.
    fn scan_second_hops(
        &self,
        seconds: &[u64],
        from: usize,
        source: u64,
        user_ids: &mut Vec<u64>,
        seen: &mut HashSet<u64>,
        touched: &mut HashSet<usize>,
        hops: &mut usize,
    )
        requires
            self.wf(),
            old(seen)@ == old(user_ids)@.to_set(),
        ensures
            final(user_ids)@ == append_new(old(user_ids)@, placed_only(self.spec_placement(), self.shard_count_spec(), seconds@), source),
            final(seen)@ == final(user_ids)@.to_set(),
            final(touched)@ == old(touched)@.union(second_shards(self.spec_placement(), self.shard_count_spec(), seconds@)),
            *final(hops) == sat(*old(hops) + second_cross(self.spec_placement(), self.shard_count_spec(), seconds@, from)),
    {
        let ghost p = self.spec_placement();
        let ghost n = self.shard_count_spec();
        proof {
            assert(seconds@.take(0) =~= Seq::<u64>::empty());
            assert(old(touched)@.union(Set::<usize>::empty()) =~= old(touched)@);
        }
        for j in 0..seconds.len()
            invariant
                self.wf(),
                p == self.spec_placement(),
                n == self.shard_count_spec(),
                seen@ == user_ids@.to_set(),
                user_ids@ == append_new(old(user_ids)@, placed_only(p, n, seconds@.take(j as int)), source),
                touched@ == old(touched)@.union(second_shards(p, n, seconds@.take(j as int))),
                *hops == sat(*old(hops) + second_cross(p, n, seconds@.take(j as int), from)),
        {
            let x = seconds[j];
            let ghost t = seconds@.take(j + 1);
            proof {
                assert(t.drop_last() =~= seconds@.take(j as int));
                assert(t.last() == x);
            }
            match self.try_shard_for(x) {
                None => {},
                Some(xs) => {
                    touched.insert(xs);
                    if xs != from {
                        *hops = if *hops == usize::MAX { usize::MAX } else { *hops + 1 };
                    }
                    proof {
                        user_ids@.lemma_push_to_set_commute(x);
                        let before = placed_only(p, n, seconds@.take(j as int));
                        assert(before.push(x).drop_last() =~= before);
                        assert(touched@ =~= old(touched)@.union(second_shards(p, n, t)));
                    }
                    if x != source && seen.insert(x) {
                        user_ids.push(x);
                    }
                },
            }
        }
        proof {
            assert(seconds@.take(seconds@.len() as int) =~= seconds@);
        }
    }

    /// The two-hop query from `source`, reading each first hop's adjacency list from its
    /// home shard, with the logical cost of doing so.
    pub fn get_two_hop_with_stats(&self, source: u64) -> (result: QueryResult)
        requires
            self.wf(),
        ensures
            result.user_ids@ == self.direct_stats(source).user_ids,
            result.shards_touched == self.direct_stats(source).shards_touched,
            result.cross_shard_hops == self.direct_stats(source).cross_shard_hops,
            result.shard_requests == self.direct_stats(source).shard_requests,
    {
        let ghost p = self.spec_placement();
        let ghost n = self.shard_count_spec();
        let ghost adj = self.logical_adjacency();
        let source_shard = match self.try_shard_for(source) {
            Some(s) => s,
            None => {
                return QueryResult { user_ids: Vec::new(), shards_touched: 0, cross_shard_hops: 0, shard_requests: 0 };
            },
        };
        let firsts = self.get_following_ids(source);
        let mut user_ids: Vec<u64> = Vec::new();
        let mut seen: HashSet<u64> = HashSet::new();
        let mut touched: HashSet<usize> = HashSet::new();
        let mut cross_shard_hops: usize = 0;
        let mut shard_requests: usize = 1;
        touched.insert(source_shard);
        proof {
            assert(firsts@.take(0) =~= Seq::<u64>::empty());
            assert(user_ids@.to_set() =~= seen@);
            assert(touched@ =~= Set::<usize>::empty().union(Set::<usize>::empty()).insert(source_shard));
        }
        for i in 0..firsts.len()
            invariant
                self.wf(),
                p == self.spec_placement(),
                n == self.shard_count_spec(),
                adj == self.logical_adjacency(),
                seen@ == user_ids@.to_set(),
                ({
                    let pre = firsts@.take(i as int);
                    &&& user_ids@ == collect_lists(placed_lists(p, n, adj, pre), source)
                    &&& touched@ == first_shards(p, n, pre).union(reached_shards(p, n, adj, pre)).insert(source_shard)
                    &&& cross_shard_hops == sat((first_cross(p, n, source_shard, pre) + reached_cross(p, n, adj, pre)) as int)
                    &&& shard_requests == sat((1 + placed_count(p, n, pre)) as int)
                }),
        {
            let first_hop = firsts[i];
            let ghost pre = firsts@.take(i as int);
            let ghost t = firsts@.take(i + 1);
            proof {
                assert(t.drop_last() =~= pre);
                assert(t.last() == first_hop);
            }
            match self.try_shard_for(first_hop) {
                None => {},
                Some(first_hop_shard) => {
                    touched.insert(first_hop_shard);
                    if first_hop_shard != source_shard {
                        cross_shard_hops = if cross_shard_hops == usize::MAX { usize::MAX } else { cross_shard_hops + 1 };
                    }
                    shard_requests = if shard_requests == usize::MAX { usize::MAX } else { shard_requests + 1 };
                    let second_hops = self.get_following_ids(first_hop);
                    proof {
                        self.lemma_logical_list(first_hop);
                        let lists = placed_lists(p, n, adj, pre);
                        assert(lists.push(placed_only(p, n, second_hops@)).drop_last() =~= lists);
                    }
                    let ghost touched_mid = touched@;
                    self.scan_second_hops(second_hops, first_hop_shard, source, &mut user_ids, &mut seen, &mut touched, &mut cross_shard_hops);
                    proof {
                        assert(touched@ =~= first_shards(p, n, t).union(reached_shards(p, n, adj, t)).insert(source_shard));
                    }
                },
            }
        }
        proof {
            assert(firsts@.take(firsts@.len() as int) =~= firsts@);
        }
        QueryResult { user_ids, shards_touched: touched.len(), cross_shard_hops, shard_requests }
    }

    /// The two-hop query with first hops grouped by shard: one request reads the source's
    /// list, then one request per shard holding first hops reads that shard's lists
    /// (shards in ascending order).
    pub fn get_two_hop_batched_with_stats(&self, source: u64) -> (result: QueryResult)
        requires
            self.wf(),
        ensures
            result.user_ids@ == self.batched_stats(source).user_ids,
            result.shards_touched == self.batched_stats(source).shards_touched,
            result.cross_shard_hops == self.batched_stats(source).cross_shard_hops,
            result.shard_requests == self.batched_stats(source).shard_requests,
    {
        let ghost p = self.spec_placement();
        let ghost n = self.shard_count_spec();
        let ghost adj = self.logical_adjacency();
        let source_shard = match self.try_shard_for(source) {
            Some(s) => s,
            None => {
                return QueryResult { user_ids: Vec::new(), shards_touched: 0, cross_shard_hops: 0, shard_requests: 0 };
            },
        };
        let firsts = self.get_following_ids(source);
        let shard_count = self.shards.len();
        let mut user_ids: Vec<u64> = Vec::new();
        let mut seen: HashSet<u64> = HashSet::new();
        let mut touched: HashSet<usize> = HashSet::new();
        let mut cross_shard_hops: usize = 0;
        touched.insert(source_shard);
        let mut first_hops_by_shard: Vec<Vec<u64>> = Vec::new();
        for s in 0..shard_count
            invariant
                first_hops_by_shard@.len() == s,
                forall|j: int| 0 <= j < s ==> (#[trigger] first_hops_by_shard@[j])@ == Seq::<u64>::empty(),
        {
            first_hops_by_shard.push(Vec::new());
        }
        proof {
            assert(firsts@.take(0) =~= Seq::<u64>::empty());
            assert(user_ids@.to_set() =~= seen@);
            assert(touched@ =~= Set::<usize>::empty().insert(source_shard));
        }
        for i in 0..firsts.len()
            invariant
                self.wf(),
                p == self.spec_placement(),
                n == self.shard_count_spec(),
                shard_count == n,
                first_hops_by_shard@.len() == n,
                forall|j: int| 0 <= j < n ==> (#[trigger] first_hops_by_shard@[j])@ == firsts_on(p, n, firsts@.take(i as int), j as usize),
                touched@ == first_shards(p, n, firsts@.take(i as int)).insert(source_shard),
                cross_shard_hops == sat(first_cross(p, n, source_shard, firsts@.take(i as int)) as int),
        {
            let first_hop = firsts[i];
            let ghost pre = firsts@.take(i as int);
            let ghost t = firsts@.take(i + 1);
            proof {
                assert(t.drop_last() =~= pre);
                assert(t.last() == first_hop);
            }
            match self.try_shard_for(first_hop) {
                None => {},
                Some(first_hop_shard) => {
                    touched.insert(first_hop_shard);
                    if first_hop_shard != source_shard {
                        cross_shard_hops = if cross_shard_hops == usize::MAX { usize::MAX } else { cross_shard_hops + 1 };
                    }
                    let ghost groups_before = first_hops_by_shard@;
                    first_hops_by_shard[first_hop_shard].push(first_hop);
                    proof {
                        assert forall|j: int| 0 <= j < n implies (#[trigger] first_hops_by_shard@[j])@ == firsts_on(p, n, t, j as usize) by {
                            if j != first_hop_shard {
                                assert(first_hops_by_shard@[j] == groups_before[j]);
                            }
                        }
                        assert(touched@ =~= first_shards(p, n, t).insert(source_shard));
                    }
                },
            }
        }
        proof {
            assert(firsts@.take(firsts@.len() as int) =~= firsts@);
            assert(touched@ =~= first_shards(p, n, firsts@).union(Set::<usize>::empty()).insert(source_shard));
        }
        let mut shard_requests: usize = 1;
        for s in 0..shard_count
            invariant
                self.wf(),
                p == self.spec_placement(),
                n == self.shard_count_spec(),
                adj == self.logical_adjacency(),
                shard_count == n,
                first_hops_by_shard@.len() == n,
                forall|j: int| 0 <= j < n ==> (#[trigger] first_hops_by_shard@[j])@ == firsts_on(p, n, firsts@, j as usize),
                seen@ == user_ids@.to_set(),
                user_ids@ == collect_lists(batched_lists(p, n, adj, firsts@, s as nat), source),
                touched@ == first_shards(p, n, firsts@).union(batched_shards(p, n, adj, firsts@, s as nat)).insert(source_shard),
                cross_shard_hops == sat((first_cross(p, n, source_shard, firsts@) + batched_cross(p, n, adj, firsts@, s as nat)) as int),
                shard_requests == sat((1 + busy_shards(p, n, firsts@, s as nat)) as int),
        {
            let group = &first_hops_by_shard[s];
            let ghost group_view = group@;
            let ghost done = batched_lists(p, n, adj, firsts@, s as nat);
            let ghost shards_done = batched_shards(p, n, adj, firsts@, s as nat);
            let ghost cross_done = batched_cross(p, n, adj, firsts@, s as nat);
            if group.len() > 0 {
                shard_requests = if shard_requests == usize::MAX { usize::MAX } else { shard_requests + 1 };
            }
            proof {
                assert(group_view.take(0) =~= Seq::<u64>::empty());
                assert(done + group_lists(p, n, adj, group_view.take(0)) =~= done);
                assert(shards_done.union(Set::<usize>::empty()) =~= shards_done);
            }
            for k in 0..group.len()
                invariant
                    self.wf(),
                    p == self.spec_placement(),
                    n == self.shard_count_spec(),
                    adj == self.logical_adjacency(),
                    s < n,
                    group@ == group_view,
                    seen@ == user_ids@.to_set(),
                    user_ids@ == collect_lists(done + group_lists(p, n, adj, group_view.take(k as int)), source),
                    touched@ == first_shards(p, n, firsts@).union(shards_done.union(group_shards(p, n, adj, group_view.take(k as int)))).insert(source_shard),
                    cross_shard_hops == sat((first_cross(p, n, source_shard, firsts@) + cross_done + group_cross(p, n, adj, group_view.take(k as int), s)) as int),
            {
                let first_hop = group[k];
                let ghost gt = group_view.take(k + 1);
                proof {
                    assert(gt.drop_last() =~= group_view.take(k as int));
                    assert(gt.last() == first_hop);
                }
                let second_hops = self.get_following_ids(first_hop);
                proof {
                    self.lemma_logical_list(first_hop);
                    let before = done + group_lists(p, n, adj, group_view.take(k as int));
                    assert(done + group_lists(p, n, adj, gt) =~= before.push(placed_only(p, n, second_hops@)));
                    assert(before.push(placed_only(p, n, second_hops@)).drop_last() =~= before);
                }
                self.scan_second_hops(second_hops, s, source, &mut user_ids, &mut seen, &mut touched, &mut cross_shard_hops);
                proof {
                    assert(touched@ =~= first_shards(p, n, firsts@).union(shards_done.union(group_shards(p, n, adj, gt))).insert(source_shard));
                }
            }
            proof {
                assert(group_view.take(group_view.len() as int) =~= group_view);
                assert(group_view == firsts_on(p, n, firsts@, s));
            }
        }
        QueryResult { user_ids, shards_touched: touched.len(), cross_shard_hops, shard_requests }
    }

    /// The IDs the direct two-hop query returns.
    pub fn get_two_hop_ids(&self, source: u64) -> (result: Vec<u64>)
        requires
            self.wf(),
        ensures
            result@ == self.direct_stats(source).user_ids,
    {
        let result = self.get_two_hop_with_stats(source).user_ids;
        proof {
            if self.home(source) is None {
                assert(result@ =~= Seq::<u64>::empty());
            }
        }
        result
    }
}

} // verus!

verus! {

/// The state of a cached sharded two-hop walk after some first hops.
pub struct ShardCacheWalk {
    pub caches: Seq<Seq<CacheEntry>>,
    pub observed: Seq<Map<u64, u64>>,
    pub lists: Seq<Seq<u64>>,
    pub touched: Set<usize>,
    pub hops: nat,
    pub requests: nat,
    pub hits: nat,
    pub misses: nat,
}

/// What a cached walk reads of a sharded graph: the shards, the placement and the
/// replicated users.
pub struct ShardMeta {
    pub graphs: Seq<Graph>,
    pub placement: Placement,
    pub replicated: Set<u64>,
}

impl ShardMeta {
    pub open spec fn home(&self, user_id: u64) -> Option<usize> {
        placement_shard(self.placement, self.graphs.len(), user_id)
    }

    /// The shard serving `user_id` to a request made on shard `requesting`: the requesting
    /// shard itself when it holds a replica of the user, else the home shard.
    pub open spec fn local_first(&self, user_id: u64, requesting: usize) -> Option<usize> {
        if self.replicated.contains(user_id) && 0 <= requesting < self.graphs.len()
            && self.graphs[requesting as int].has_user(user_id) {
            Some(requesting)
        } else {
            self.home(user_id)
        }
    }

    /// The users of `list` that some shard serves to shard `requesting`, in order.
    pub open spec fn local_only(&self, list: Seq<u64>, requesting: usize) -> Seq<u64>
        decreases list.len(),
    {
        if list.len() == 0 {
            Seq::empty()
        } else {
            let rest = self.local_only(list.drop_last(), requesting);
            if self.local_first(list.last(), requesting) is Some {
                rest.push(list.last())
            } else {
                rest
            }
        }
    }

    pub open spec fn local_shards(&self, list: Seq<u64>, requesting: usize) -> Set<usize>
        decreases list.len(),
    {
        if list.len() == 0 {
            Set::empty()
        } else {
            let rest = self.local_shards(list.drop_last(), requesting);
            match self.local_first(list.last(), requesting) {
                Some(s) => rest.insert(s),
                None => rest,
            }
        }
    }

    pub open spec fn local_cross(&self, list: Seq<u64>, requesting: usize) -> nat
        decreases list.len(),
    {
        if list.len() == 0 {
            0
        } else {
            let rest = self.local_cross(list.drop_last(), requesting);
            match self.local_first(list.last(), requesting) {
                Some(s) => if s != requesting {
                    rest + 1
                } else {
                    rest
                },
                None => rest,
            }
        }
    }

    /// The cached two-hop walk from `source` (on shard `ss`) over the first hops `firsts`,
    /// starting from the cache contents `caches` and access counts `observed`.
    pub open spec fn cached_walk(
        &self,
        caches: Seq<Seq<CacheEntry>>,
        observed: Seq<Map<u64, u64>>,
        ss: usize,
        firsts: Seq<u64>,
        capacity: nat,
        byte_capacity: Option<usize>,
        policy: EvictionPolicy,
    ) -> ShardCacheWalk
        decreases firsts.len(),
    {
        if firsts.len() == 0 {
            ShardCacheWalk { caches, observed, lists: Seq::empty(), touched: set![ss], hops: 0, requests: 1, hits: 0, misses: 0 }
        } else {
            let w = self.cached_walk(caches, observed, ss, firsts.drop_last(), capacity, byte_capacity, policy);
            let f = firsts.last();
            match self.local_first(f, ss) {
                None => w,
                Some(fs) => {
                    let entries = w.caches[fs as int];
                    let (list, after, hit) = match lookup(entries, f) {
                        Some(l) => (l, after_get(entries, policy, f), true),
                        None => {
                            let read = self.graphs[fs as int].following(f);
                            (read, after_insert(entries, capacity, byte_capacity, policy, f, read), false)
                        },
                    };
                    ShardCacheWalk {
                        caches: w.caches.update(fs as int, after),
                        observed: w.observed.update(fs as int, counted(w.observed[fs as int], f)),
                        lists: w.lists.push(self.local_only(list, fs)),
                        touched: w.touched.insert(fs).union(self.local_shards(list, fs)),
                        hops: w.hops + (if fs != ss { 1nat } else { 0nat }) + self.local_cross(list, fs),
                        requests: w.requests + 1,
                        hits: w.hits + if hit { 1nat } else { 0nat },
                        misses: w.misses + if hit { 0nat } else { 1nat },
                    }
                },
            }
        }
    }
}

impl ShardedGraph {
    pub open spec fn meta(&self) -> ShardMeta {
        ShardMeta { graphs: self.graphs(), placement: self.spec_placement(), replicated: self.replicated() }
    }

    pub open spec fn cache_views(&self) -> Seq<Seq<CacheEntry>> {
        self.cache_list().unwrap().map_values(|c: AdjacencyLruCache| c@)
    }

    pub(crate) fn shard_for_user_local_first(&self, user_id: u64, requesting_shard: usize) -> (result: Option<usize>)
        requires
            self.wf(),
            requesting_shard < self.shard_count_spec(),
        ensures
            result == self.meta().local_first(user_id, requesting_shard),
            result matches Some(s) ==> s < self.shard_count_spec(),
    {
        if self.replicated_users.contains(&user_id) && self.shards[requesting_shard].get_user(user_id).is_some() {
            return Some(requesting_shard);
        }
        self.try_shard_for(user_id)
    }

    fn scan_local_second_hops(
        &self,
        seconds: &[u64],
        from: usize,
        source: u64,
        user_ids: &mut Vec<u64>,
        seen: &mut HashSet<u64>,
        touched: &mut HashSet<usize>,
        hops: &mut usize,
    )
        requires
            self.wf(),
            from < self.shard_count_spec(),
            old(seen)@ == old(user_ids)@.to_set(),
        ensures
            final(user_ids)@ == append_new(old(user_ids)@, self.meta().local_only(seconds@, from), source),
            final(seen)@ == final(user_ids)@.to_set(),
            final(touched)@ == old(touched)@.union(self.meta().local_shards(seconds@, from)),
            *final(hops) == sat(*old(hops) + self.meta().local_cross(seconds@, from)),
    {
        proof {
            assert(seconds@.take(0) =~= Seq::<u64>::empty());
            assert(old(touched)@.union(Set::<usize>::empty()) =~= old(touched)@);
        }
        for j in 0..seconds.len()
            invariant
                self.wf(),
                from < self.shard_count_spec(),
                seen@ == user_ids@.to_set(),
                user_ids@ == append_new(old(user_ids)@, self.meta().local_only(seconds@.take(j as int), from), source),
                touched@ == old(touched)@.union(self.meta().local_shards(seconds@.take(j as int), from)),
                *hops == sat(*old(hops) + self.meta().local_cross(seconds@.take(j as int), from)),
        {
            let x = seconds[j];
            let ghost t = seconds@.take(j + 1);
            proof {
                assert(t.drop_last() =~= seconds@.take(j as int));
                assert(t.last() == x);
            }
            match self.shard_for_user_local_first(x, from) {
                None => {},
                Some(xs) => {
                    touched.insert(xs);
                    if xs != from {
                        *hops = if *hops == usize::MAX { usize::MAX } else { *hops + 1 };
                    }
                    proof {
                        user_ids@.lemma_push_to_set_commute(x);
                        let before = self.meta().local_only(seconds@.take(j as int), from);
                        assert(before.push(x).drop_last() =~= before);
                        assert(touched@ =~= old(touched)@.union(self.meta().local_shards(t, from)));
                    }
                    if x != source && seen.insert(x) {
                        user_ids.push(x);
                    }
                },
            }
        }
        proof {
            assert(seconds@.take(seconds@.len() as int) =~= seconds@);
        }
    }

    /// Reads `user_id` through shard `shard_id`'s cache.
    fn cache_get(&mut self, shard_id: usize, user_id: u64) -> (result: Option<Vec<u64>>)
        requires
            old(self).wf(),
            old(self).cache_list() is Some,
            shard_id < old(self).shard_count_spec(),
        ensures
            final(self).wf(),
            final(self).graphs() == old(self).graphs(),
            final(self).spec_placement() == old(self).spec_placement(),
            final(self).observed() == old(self).observed(),
            final(self).replicated() == old(self).replicated(),
            final(self).cache_list() is Some,
            final(self).cache_list().unwrap()[0].same_settings(&old(self).cache_list().unwrap()[0]),
            final(self).cache_views() == old(self).cache_views().update(
                shard_id as int,
                after_get(old(self).cache_views()[shard_id as int], old(self).cache_list().unwrap()[0].spec_policy(), user_id),
            ),
            match result {
                Some(list) => lookup(old(self).cache_views()[shard_id as int], user_id) == Some(list@),
                None => lookup(old(self).cache_views()[shard_id as int], user_id) is None,
            },
    {
        match &mut self.caches {
            Some(caches) => {
                let ghost before = caches@;
                proof {
                    assert(before[shard_id as int].same_settings(&before[0]));
                }
                let result = caches[shard_id].get_shared(user_id);
                proof {
                    self.lemma_caches_updated(before, caches@, shard_id as int);
                }
                result
            },
            None => None,
        }
    }

    /// Inserts into shard `shard_id`'s cache and hands the list back.
    pub(crate) fn cache_insert(&mut self, shard_id: usize, user_id: u64, list: Vec<u64>) -> (result: Vec<u64>)
        requires
            old(self).wf(),
            old(self).cache_list() is Some,
            shard_id < old(self).shard_count_spec(),
        ensures
            final(self).wf(),
            final(self).graphs() == old(self).graphs(),
            final(self).spec_placement() == old(self).spec_placement(),
            final(self).observed() == old(self).observed(),
            final(self).replicated() == old(self).replicated(),
            final(self).cache_list() is Some,
            final(self).cache_list().unwrap()[0].same_settings(&old(self).cache_list().unwrap()[0]),
            final(self).cache_views() == old(self).cache_views().update(
                shard_id as int,
                after_insert(
                    old(self).cache_views()[shard_id as int],
                    old(self).cache_list().unwrap()[0].spec_capacity(),
                    old(self).cache_list().unwrap()[0].spec_byte_capacity(),
                    old(self).cache_list().unwrap()[0].spec_policy(),
                    user_id,
                    list@,
                ),
            ),
            result@ == list@,
    {
        match &mut self.caches {
            Some(caches) => {
                let ghost before = caches@;
                proof {
                    assert(before[shard_id as int].same_settings(&before[0]));
                }
                let result = caches[shard_id].insert_shared(user_id, list);
                proof {
                    self.lemma_caches_updated(before, caches@, shard_id as int);
                }
                result
            },
            None => list,
        }
    }

    proof fn lemma_caches_updated(&self, before: Seq<AdjacencyLruCache>, after: Seq<AdjacencyLruCache>, shard_id: int)
        requires
            self.shards@.len() > 0,
            before.len() == self.shards@.len(),
            after.len() == before.len(),
            0 <= shard_id < before.len(),
            forall|i: int| 0 <= i < before.len() ==> (#[trigger] before[i]).wf(),
            forall|i: int| 0 <= i < before.len() ==> (#[trigger] before[i]).same_settings(&before[0]),
            forall|i: int| 0 <= i < before.len() && i != shard_id ==> #[trigger] after[i] == before[i],
            after[shard_id].wf(),
            after[shard_id].same_settings(&before[shard_id]),
        ensures
            forall|i: int| 0 <= i < after.len() ==> (#[trigger] after[i]).wf(),
            forall|i: int| 0 <= i < after.len() ==> (#[trigger] after[i]).same_settings(&after[0]),
            after[0].same_settings(&before[0]),
            after.map_values(|c: AdjacencyLruCache| c@) == before.map_values(|c: AdjacencyLruCache| c@).update(shard_id, after[shard_id]@),
    {
        assert forall|i: int| 0 <= i < after.len() implies (#[trigger] after[i]).same_settings(&after[0]) by {
            assert(before[i].same_settings(&before[0]));
            if shard_id != 0 {
                assert(after[0] == before[0]);
            }
        }
        assert(after.map_values(|c: AdjacencyLruCache| c@) =~= before.map_values(|c: AdjacencyLruCache| c@).update(shard_id, after[shard_id]@));
    }
}

} // verus!

verus! {

impl ShardedGraph {
    /// The two-hop query through the shard-local caches. Each covered first hop is served
    /// by the requesting shard when that shard replicates it, else by its home shard; the
    /// read is counted in that shard's access counts and goes through that shard's cache
    /// (a miss reads the shard's graph and caches the list).
    pub fn get_two_hop_with_cache_stats(&mut self, source: u64) -> (result: Result<CachedQueryResult, GraphError>)
        requires
            old(self).wf(),
        ensures
            final(self).wf(),
            old(self).cache_list() is Some && crate::properties::caches_agree(old(self).cache_views(), old(self).graphs())
                ==> final(self).cache_list() is Some && crate::properties::caches_agree(final(self).cache_views(), final(self).graphs()),
            final(self).graphs() == old(self).graphs(),
            final(self).spec_placement() == old(self).spec_placement(),
            final(self).replicated() == old(self).replicated(),
            old(self).cache_list() is None ==> result == Err::<CachedQueryResult, GraphError>(GraphError::CachingDisabled)
                && final(self).cache_list() is None && final(self).observed() == old(self).observed(),
            old(self).cache_list() is Some ==> final(self).cache_list() is Some
                && final(self).cache_list().unwrap()[0].same_settings(&old(self).cache_list().unwrap()[0]),
            old(self).cache_list() is Some && old(self).home(source) is None ==> (result matches Ok(r) && r.user_ids@.len() == 0
                && r.shards_touched == 0 && r.cross_shard_hops == 0 && r.shard_requests == 0 && r.cache_hits == 0
                && r.cache_misses == 0) && final(self).cache_views() == old(self).cache_views()
                && final(self).observed() == old(self).observed(),
            old(self).cache_list() is Some && old(self).home(source) is Some ==> ({
                let settings = old(self).cache_list().unwrap()[0];
                let w = old(self).meta().cached_walk(
                    old(self).cache_views(),
                    old(self).observed(),
                    old(self).home(source).unwrap(),
                    old(self).following(source),
                    settings.spec_capacity(),
                    settings.spec_byte_capacity(),
                    settings.spec_policy(),
                );
                &&& final(self).cache_views() == w.caches
                &&& final(self).observed() == w.observed
                &&& (result matches Ok(r) && {
                    &&& r.user_ids@ == collect_lists(w.lists, source)
                    &&& r.shards_touched == w.touched.len()
                    &&& r.cross_shard_hops == sat(w.hops as int)
                    &&& r.shard_requests == sat(w.requests as int)
                    &&& r.cache_hits == w.hits
                    &&& r.cache_misses == w.misses
                })
            }),
    {
        if self.caches.is_none() {
            return Err(GraphError::CachingDisabled);
        }
        let source_shard = match self.try_shard_for(source) {
            Some(s) => s,
            None => {
                return Ok(CachedQueryResult {
                    user_ids: Vec::new(),
                    shards_touched: 0,
                    cross_shard_hops: 0,
                    shard_requests: 0,
                    cache_hits: 0,
                    cache_misses: 0,
                });
            },
        };
        let ghost settings = self.cache_list().unwrap()[0];
        let ghost capacity = settings.spec_capacity();
        let ghost byte_capacity = settings.spec_byte_capacity();
        let ghost policy = settings.spec_policy();
        let ghost start_caches = self.cache_views();
        let ghost start_observed = self.observed();
        // Copy this list so we do not keep an immutable borrow of self while mutating the caches.
        let first_hops = vstd::slice::slice_to_vec(self.get_following_ids(source));
        let mut user_ids: Vec<u64> = Vec::new();
        let mut seen: HashSet<u64> = HashSet::new();
        let mut touched: HashSet<usize> = HashSet::new();
        let mut cross_shard_hops: usize = 0;
        let mut shard_requests: usize = 1;
        let mut cache_hits: usize = 0;
        let mut cache_misses: usize = 0;
        touched.insert(source_shard);
        proof {
            assert(first_hops@.take(0) =~= Seq::<u64>::empty());
            assert(user_ids@.to_set() =~= seen@);
            assert(touched@ =~= set![source_shard]);
        }
        for i in 0..first_hops.len()
            invariant
                self.wf(),
                self.graphs() == old(self).graphs(),
                self.spec_placement() == old(self).spec_placement(),
                self.replicated() == old(self).replicated(),
                self.cache_list() is Some,
                self.cache_list().unwrap()[0].spec_capacity() == capacity,
                self.cache_list().unwrap()[0].spec_byte_capacity() == byte_capacity,
                self.cache_list().unwrap()[0].spec_policy() == policy,
                source_shard < self.shard_count_spec(),
                seen@ == user_ids@.to_set(),
                ({
                    let w = old(self).meta().cached_walk(start_caches, start_observed, source_shard, first_hops@.take(i as int), capacity, byte_capacity, policy);
                    &&& self.cache_views() == w.caches
                    &&& self.observed() == w.observed
                    &&& user_ids@ == collect_lists(w.lists, source)
                    &&& touched@ == w.touched
                    &&& cross_shard_hops == sat(w.hops as int)
                    &&& shard_requests == sat(w.requests as int)
                    &&& cache_hits == w.hits
                    &&& cache_misses == w.misses
                    &&& w.hits + w.misses <= i
                }),
        {
            let first_hop = first_hops[i];
            let ghost pre = first_hops@.take(i as int);
            let ghost t = first_hops@.take(i + 1);
            let ghost w = old(self).meta().cached_walk(start_caches, start_observed, source_shard, pre, capacity, byte_capacity, policy);
            proof {
                assert(t.drop_last() =~= pre);
                assert(t.last() == first_hop);
            }
            match self.shard_for_user_local_first(first_hop, source_shard) {
                None => {},
                Some(first_hop_shard) => {
                    touched.insert(first_hop_shard);
                    if first_hop_shard != source_shard {
                        cross_shard_hops = if cross_shard_hops == usize::MAX { usize::MAX } else { cross_shard_hops + 1 };
                    }
                    // The query still contacts the owning shard: a cache hit avoids reading the
                    // shard's main graph, but not the logical shard request.
                    shard_requests = if shard_requests == usize::MAX { usize::MAX } else { shard_requests + 1 };
                    self.record_observed_adjacency_access(first_hop_shard, first_hop);
                    let cached_adjacency_list = self.cache_get(first_hop_shard, first_hop);
                    let second_hops = match cached_adjacency_list {
                        Some(adjacency_list) => {
                            cache_hits = cache_hits + 1;
                            adjacency_list
                        },
                        None => {
                            cache_misses = cache_misses + 1;
                            let adjacency_list = vstd::slice::slice_to_vec(self.shards[first_hop_shard].get_following_ids(first_hop));
                            self.cache_insert(first_hop_shard, first_hop, adjacency_list)
                        },
                    };
                    proof {
                        assert(w.lists.push(self.meta().local_only(second_hops@, first_hop_shard)).drop_last() =~= w.lists);
                    }
                    self.scan_local_second_hops(
                        second_hops.as_slice(),
                        first_hop_shard,
                        source,
                        &mut user_ids,
                        &mut seen,
                        &mut touched,
                        &mut cross_shard_hops,
                    );
                },
            }
        }
        proof {
            assert(first_hops@.take(first_hops@.len() as int) =~= first_hops@);
            if crate::properties::caches_agree(old(self).cache_views(), old(self).graphs()) {
                let settings = old(self).cache_list().unwrap()[0];
                crate::properties::lemma_cached_walk_keeps_agreement(
                    *old(self),
                    old(self).cache_views(),
                    old(self).observed(),
                    old(self).home(source).unwrap(),
                    old(self).following(source),
                    settings.spec_capacity(),
                    settings.spec_byte_capacity(),
                    settings.spec_policy(),
                );
            }
        }
        Ok(CachedQueryResult {
            user_ids,
            shards_touched: touched.len(),
            cross_shard_hops,
            shard_requests,
            cache_hits,
            cache_misses,
        })
    }
}

} // verus!

verus! {

/// Every observed `(access count, user)` pair of one shard.
pub open spec fn count_items(counts: Map<u64, u64>) -> Set<(u64, u64)> {
    Set::new(|p: (u64, u64)| counts.contains_key(p.1) && counts[p.1] == p.0)
}

/// The observed users of one shard as `(access count, user)` pairs, most accessed first and
/// lower ID first among equal counts.
pub open spec fn hottest(counts: Map<u64, u64>) -> Seq<(u64, u64)> {
    choose|r: Seq<(u64, u64)>| is_ranked(r) && r.to_set() == count_items(counts)
}

pub open spec fn min_nat(a: nat, b: nat) -> nat {
    if a <= b {
        a
    } else {
        b
    }
}

/// The users warmed into one shard's cache, in insertion order: the `limit` most accessed,
/// coldest first, so that the hottest end up the most recent.
pub open spec fn warm_order(counts: Map<u64, u64>, limit: nat) -> Seq<u64> {
    let h = hottest(counts);
    h.take(min_nat(limit, h.len()) as int).map_values(|p: (u64, u64)| p.1).reverse()
}

/// `entries` after inserting each user of `ids` in turn, with its list as `g` stores it.
pub open spec fn insert_all(
    entries: Seq<CacheEntry>,
    capacity: nat,
    byte_capacity: Option<usize>,
    policy: EvictionPolicy,
    g: Graph,
    ids: Seq<u64>,
) -> Seq<CacheEntry>
    decreases ids.len(),
{
    if ids.len() == 0 {
        entries
    } else {
        let id = ids.last();
        after_insert(
            insert_all(entries, capacity, byte_capacity, policy, g, ids.drop_last()),
            capacity,
            byte_capacity,
            policy,
            id,
            g.following(id),
        )
    }
}

/// The number of entries over all caches.
pub open spec fn entry_total(views: Seq<Seq<CacheEntry>>) -> nat
    decreases views.len(),
{
    if views.len() == 0 {
        0
    } else {
        entry_total(views.drop_last()) + views.last().len()
    }
}

impl ShardedGraph {
    /// Every shard's cache after warming it from its observed accesses with at most
    /// `max_entries` entries.
    pub open spec fn warmed_views(&self, max_entries: nat) -> Seq<Seq<CacheEntry>> {
        let settings = self.cache_list().unwrap()[0];
        Seq::new(
            self.shard_count_spec(),
            |s: int| insert_all(
                Seq::empty(),
                settings.spec_capacity(),
                settings.spec_byte_capacity(),
                settings.spec_policy(),
                self.graphs()[s],
                warm_order(self.observed()[s], min_nat(settings.spec_capacity(), max_entries)),
            ),
        )
    }

    /// Empties shard `shard_id`'s cache.
    fn cache_clear(&mut self, shard_id: usize)
        requires
            old(self).wf(),
            old(self).cache_list() is Some,
            shard_id < old(self).shard_count_spec(),
        ensures
            final(self).wf(),
            final(self).graphs() == old(self).graphs(),
            final(self).spec_placement() == old(self).spec_placement(),
            final(self).observed() == old(self).observed(),
            final(self).replicated() == old(self).replicated(),
            final(self).cache_list() is Some,
            final(self).cache_list().unwrap()[0].same_settings(&old(self).cache_list().unwrap()[0]),
            final(self).cache_views() == old(self).cache_views().update(shard_id as int, Seq::<CacheEntry>::empty()),
    {
        match &mut self.caches {
            Some(caches) => {
                let ghost before = caches@;
                proof {
                    assert(before[shard_id as int].same_settings(&before[0]));
                }
                caches[shard_id].clear();
                proof {
                    self.lemma_caches_updated(before, caches@, shard_id as int);
                }
            },
            None => {},
        }
    }

    /// The number of entries in shard `shard_id`'s cache.
    fn cache_len(&self, shard_id: usize) -> (result: usize)
        requires
            self.wf(),
            self.cache_list() is Some,
            shard_id < self.shard_count_spec(),
        ensures
            result == self.cache_views()[shard_id as int].len(),
    {
        match &self.caches {
            Some(caches) => caches[shard_id].len(),
            None => 0,
        }
    }

    /// The entry limit of shard `shard_id`'s cache.
    fn cache_capacity(&self, shard_id: usize) -> (result: usize)
        requires
            self.wf(),
            self.cache_list() is Some,
            shard_id < self.shard_count_spec(),
        ensures
            result == self.cache_list().unwrap()[0].spec_capacity(),
    {
        match &self.caches {
            Some(caches) => {
                proof {
                    assert(caches@[shard_id as int].same_settings(&caches@[0]));
                }
                caches[shard_id].capacity()
            },
            None => 0,
        }
    }

    /// The observed `(access count, user)` pairs of shard `shard_id`.
    fn observed_items(&self, shard_id: usize) -> (items: Vec<(u64, u64)>)
        requires
            self.wf(),
            shard_id < self.shard_count_spec(),
        ensures
            items@.no_duplicates(),
            items@.to_set() == count_items(self.observed()[shard_id as int]),
    {
        let counts = &self.observed_adjacency_accesses[shard_id];
        let ghost m = counts@;
        let mut items: Vec<(u64, u64)> = Vec::new();
        let ghost all = vstd::std_specs::hash::spec_keys_iter(counts).remaining().unref();
        proof {
            vstd::std_specs::hash::axiom_spec_keys_iter(counts);
            assert(all.take(all.len() as int) =~= all);
        }
        for key in it: counts.keys()
            invariant
                it.seq().unref() == all,
                all.take(all.len() as int) == all,
                all.no_duplicates(),
                all.to_set() == m.dom(),
                m == counts@,
                items@ == all.take(it.index() as int).map_values(|k: u64| (m[k], k)),
            ensures
                items@ == all.map_values(|k: u64| (m[k], k)),
        {
            let ghost i = it.index();
            proof {
                assert(all.take(i + 1) =~= all.take(i as int).push(*key));
                assert(all.contains(*key));
                assert(all.to_set().contains(*key));
            }
            let count = match counts.get(key) {
                Some(c) => *c,
                None => 0,
            };
            items.push((count, *key));
            proof {
                assert(items@ =~= all.take(i + 1).map_values(|k: u64| (m[k], k)));
            }
        }
        proof {
            assert(m == self.observed()[shard_id as int]);
            assert forall|a: int, b: int| 0 <= a < items@.len() && 0 <= b < items@.len() && a != b
                implies items@[a] != items@[b] by {
                assert(items@[a].1 == all[a] && items@[b].1 == all[b]);
            }
            assert forall|p: (u64, u64)| items@.to_set().contains(p) <==> #[trigger] count_items(m).contains(p) by {
                if items@.to_set().contains(p) {
                    let a = choose|a: int| 0 <= a < items@.len() && items@[a] == p;
                    assert(all.to_set().contains(all[a]));
                }
                if count_items(m).contains(p) {
                    assert(all.to_set().contains(p.1));
                    let a = choose|a: int| 0 <= a < all.len() && all[a] == p.1;
                    assert(items@[a] == p);
                }
            }
            assert(items@.to_set() =~= count_items(m));
        }
        items
    }

    /// The users to warm into shard `shard_id`, in insertion order.
    fn warm_plan_for_shard(&self, shard_id: usize, limit: usize) -> (ids: Vec<u64>)
        requires
            self.wf(),
            shard_id < self.shard_count_spec(),
        ensures
            ids@ == warm_order(self.observed()[shard_id as int], limit as nat),
    {
        let items = self.observed_items(shard_id);
        let ranked = rank_by_weight(&items);
        let ghost counts = self.observed()[shard_id as int];
        proof {
            lemma_ranking_unique(hottest(counts), ranked@);
        }
        let k: usize = if limit < ranked.len() { limit } else { ranked.len() };
        let mut ids: Vec<u64> = Vec::new();
        let mut j: usize = k;
        while j > 0
            invariant
                j <= k <= ranked@.len(),
                ids@.len() == k - j,
                forall|i: int| 0 <= i < k - j ==> #[trigger] ids@[i] == ranked@[k - 1 - i].1,
            decreases j,
        {
            j = j - 1;
            ids.push(ranked[j].1);
        }
        proof {
            assert(ids@ =~= ranked@.take(k as int).map_values(|p: (u64, u64)| p.1).reverse());
        }
        ids
    }

    /// Fills each shard's cache with up to `max_entries_per_shard` of its most accessed
    /// users (fewer where the cache holds fewer), after emptying every cache; returns the
    /// number of cached entries.
    pub fn warm_cache_from_observed_traffic(&mut self, max_entries_per_shard: usize) -> (result: Result<usize, GraphError>)
        requires
            old(self).wf(),
        ensures
            final(self).wf(),
            max_entries_per_shard > 0 && old(self).cache_list() is Some ==> crate::properties::caches_agree(final(self).cache_views(), final(self).graphs()),
            final(self).graphs() == old(self).graphs(),
            final(self).spec_placement() == old(self).spec_placement(),
            final(self).observed() == old(self).observed(),
            final(self).replicated() == old(self).replicated(),
            max_entries_per_shard == 0 ==> result == Err::<usize, GraphError>(GraphError::WarmEntryLimitZero)
                && final(self).cache_list() == old(self).cache_list(),
            max_entries_per_shard > 0 && old(self).cache_list() is None ==> result == Err::<usize, GraphError>(
                GraphError::CachingDisabled,
            ) && final(self).cache_list() is None,
            max_entries_per_shard > 0 && old(self).cache_list() is Some ==> {
                &&& final(self).cache_list() is Some
                &&& final(self).cache_list().unwrap()[0].same_settings(&old(self).cache_list().unwrap()[0])
                &&& final(self).cache_views() == old(self).warmed_views(max_entries_per_shard as nat)
                &&& result matches Ok(count) && count == sat(entry_total(final(self).cache_views()) as int)
            },
    {
        if max_entries_per_shard == 0 {
            return Err(GraphError::WarmEntryLimitZero);
        }
        if self.caches.is_none() {
            return Err(GraphError::CachingDisabled);
        }
        let n = self.shards.len();
        let ghost settings = self.cache_list().unwrap()[0];
        let ghost start_views = self.cache_views();
        // Plan every shard before any cache changes.
        let mut plan: Vec<Vec<u64>> = Vec::new();
        for s in 0..n
            invariant
                self.wf(),
                *self == *old(self),
                self.cache_list() is Some,
                settings == self.cache_list().unwrap()[0],
                n == self.shard_count_spec(),
                plan@.len() == s,
                forall|t: int| 0 <= t < s ==> (#[trigger] plan@[t])@ == warm_order(
                    self.observed()[t],
                    min_nat(settings.spec_capacity(), max_entries_per_shard as nat),
                ),
        {
            let capacity = self.cache_capacity(s);
            let limit = if capacity < max_entries_per_shard { capacity } else { max_entries_per_shard };
            let ids = self.warm_plan_for_shard(s, limit);
            plan.push(ids);
        }
        for s in 0..n
            invariant
                self.wf(),
                self.graphs() == old(self).graphs(),
                self.spec_placement() == old(self).spec_placement(),
                self.observed() == old(self).observed(),
                self.replicated() == old(self).replicated(),
                self.cache_list() is Some,
                self.cache_list().unwrap()[0].same_settings(&settings),
                n == self.shard_count_spec(),
                self.cache_views().len() == n,
                forall|t: int| 0 <= t < s ==> #[trigger] self.cache_views()[t] == Seq::<CacheEntry>::empty(),
        {
            self.cache_clear(s);
        }
        for s in 0..n
            invariant
                self.wf(),
                self.graphs() == old(self).graphs(),
                self.spec_placement() == old(self).spec_placement(),
                self.observed() == old(self).observed(),
                self.replicated() == old(self).replicated(),
                self.cache_list() is Some,
                self.cache_list().unwrap()[0].same_settings(&settings),
                n == self.shard_count_spec(),
                plan@.len() == n,
                self.cache_views().len() == n,
                forall|t: int| 0 <= t < s ==> #[trigger] self.cache_views()[t] == insert_all(
                    Seq::empty(),
                    settings.spec_capacity(),
                    settings.spec_byte_capacity(),
                    settings.spec_policy(),
                    self.graphs()[t],
                    plan@[t]@,
                ),
                forall|t: int| s <= t < n ==> #[trigger] self.cache_views()[t] == Seq::<CacheEntry>::empty(),
        {
            let ids = &plan[s];
            let ghost g = self.graphs()[s as int];
            proof {
                assert(ids@.take(0) =~= Seq::<u64>::empty());
            }
            for e in 0..ids.len()
                invariant
                    self.wf(),
                    self.graphs() == old(self).graphs(),
                    self.spec_placement() == old(self).spec_placement(),
                    self.observed() == old(self).observed(),
                    self.replicated() == old(self).replicated(),
                    self.cache_list() is Some,
                    self.cache_list().unwrap()[0].same_settings(&settings),
                    n == self.shard_count_spec(),
                    s < n,
                    g == self.graphs()[s as int],
                    self.cache_views().len() == n,
                    forall|t: int| 0 <= t < s ==> #[trigger] self.cache_views()[t] == insert_all(
                        Seq::empty(),
                        settings.spec_capacity(),
                        settings.spec_byte_capacity(),
                        settings.spec_policy(),
                        self.graphs()[t],
                        plan@[t]@,
                    ),
                    forall|t: int| s < t < n ==> #[trigger] self.cache_views()[t] == Seq::<CacheEntry>::empty(),
                    self.cache_views()[s as int] == insert_all(
                        Seq::empty(),
                        settings.spec_capacity(),
                        settings.spec_byte_capacity(),
                        settings.spec_policy(),
                        g,
                        ids@.take(e as int),
                    ),
            {
                let id = ids[e];
                let list = vstd::slice::slice_to_vec(self.shards[s].get_following_ids(id));
                let _ = self.cache_insert(s, id, list);
                proof {
                    assert(ids@.take(e + 1).drop_last() =~= ids@.take(e as int));
                }
            }
            proof {
                assert(ids@.take(ids@.len() as int) =~= ids@);
            }
        }
        let mut total: usize = 0;
        proof {
            assert(self.cache_views().take(0) =~= Seq::<Seq<CacheEntry>>::empty());
        }
        for s in 0..n
            invariant
                self.wf(),
                self.cache_list() is Some,
                n == self.shard_count_spec(),
                self.cache_views().len() == n,
                total == sat(entry_total(self.cache_views().take(s as int)) as int),
        {
            let len = self.cache_len(s);
            proof {
                assert(self.cache_views().take(s + 1).drop_last() =~= self.cache_views().take(s as int));
            }
            total = if usize::MAX - total < len { usize::MAX } else { total + len };
        }
        proof {
            assert(self.cache_views().take(n as int) =~= self.cache_views());
            assert(self.cache_views() =~= old(self).warmed_views(max_entries_per_shard as nat));
            let settings = old(self).cache_list().unwrap()[0];
            let views = self.cache_views();
            assert forall|i: int| 0 <= i < views.len() implies crate::properties::cache_agrees(#[trigger] views[i], self.graphs()[i].adjacency()) by {
                let g = old(self).graphs()[i];
                assert(crate::properties::cache_agrees(Seq::<CacheEntry>::empty(), g.adjacency()));
                lemma_insert_all_agrees(
                    Seq::empty(),
                    settings.spec_capacity(),
                    settings.spec_byte_capacity(),
                    settings.spec_policy(),
                    g,
                    warm_order(old(self).observed()[i], min_nat(settings.spec_capacity(), max_entries_per_shard as nat)),
                );
            }
        }
        Ok(total)
    }

    /// Loads `user_id`'s adjacency list, as its home shard stores it, into that shard's cache.
    pub fn warm_cache_for_user(&mut self, user_id: u64) -> (result: Result<(), GraphError>)
        requires
            old(self).wf(),
        ensures
            final(self).wf(),
            old(self).cache_list() is Some && crate::properties::caches_agree(old(self).cache_views(), old(self).graphs())
                ==> final(self).cache_list() is Some && crate::properties::caches_agree(final(self).cache_views(), final(self).graphs()),
            final(self).graphs() == old(self).graphs(),
            final(self).spec_placement() == old(self).spec_placement(),
            final(self).observed() == old(self).observed(),
            final(self).replicated() == old(self).replicated(),
            old(self).home(user_id) is None ==> result == Err::<(), GraphError>(GraphError::ShardNotFound(user_id))
                && final(self).cache_list() == old(self).cache_list(),
            old(self).home(user_id) is Some && !old(self).has_user(user_id) ==> result == Err::<(), GraphError>(
                GraphError::UserNotFound(user_id),
            ) && final(self).cache_list() == old(self).cache_list(),
            old(self).has_user(user_id) && old(self).cache_list() is None ==> result == Err::<(), GraphError>(
                GraphError::CachingDisabled,
            ) && final(self).cache_list() is None,
            old(self).has_user(user_id) && old(self).cache_list() is Some ==> {
                let settings = old(self).cache_list().unwrap()[0];
                let h = old(self).home(user_id).unwrap() as int;
                &&& result is Ok
                &&& final(self).cache_list() is Some
                &&& final(self).cache_list().unwrap()[0].same_settings(&settings)
                &&& final(self).cache_views() == old(self).cache_views().update(
                    h,
                    after_insert(
                        old(self).cache_views()[h],
                        settings.spec_capacity(),
                        settings.spec_byte_capacity(),
                        settings.spec_policy(),
                        user_id,
                        old(self).following(user_id),
                    ),
                )
            },
    {
        let shard_id = match self.try_shard_for(user_id) {
            Some(s) => s,
            None => {
                return Err(GraphError::ShardNotFound(user_id));
            },
        };
        if self.shards[shard_id].get_user(user_id).is_none() {
            return Err(GraphError::UserNotFound(user_id));
        }
        let adjacency_list = vstd::slice::slice_to_vec(self.shards[shard_id].get_following_ids(user_id));
        if self.caches.is_none() {
            return Err(GraphError::CachingDisabled);
        }
        let _ = self.cache_insert(shard_id, user_id, adjacency_list);
        proof {
            if old(self).cache_list() is Some && crate::properties::caches_agree(old(self).cache_views(), old(self).graphs()) {
                let settings = old(self).cache_list().unwrap()[0];
                let h = shard_id as int;
                let adj = old(self).graphs()[h].adjacency();
                crate::properties::lemma_after_insert_agrees(
                    old(self).cache_views()[h],
                    adj,
                    settings.spec_capacity(),
                    settings.spec_byte_capacity(),
                    settings.spec_policy(),
                    user_id,
                );
                let views = self.cache_views();
                assert forall|i: int| 0 <= i < views.len() implies crate::properties::cache_agrees(#[trigger] views[i], self.graphs()[i].adjacency()) by {
                    if i != h {
                        assert(views[i] == old(self).cache_views()[i]);
                    }
                }
            }
        }
        Ok(())
    }
}

} // verus!

verus! {

impl ShardedGraph {
    /// Adds a user on shard `shard_id`, which is the user's home shard or replicates it.
    pub(crate) fn shard_add_user(&mut self, shard_id: usize, id: u64, name: &str) -> (result: Result<(), GraphError>)
        requires
            old(self).wf(),
            shard_id < old(self).shard_count_spec(),
            old(self).home(id) == Some(shard_id) || old(self).replicated().contains(id),
        ensures
            final(self).wf(),
            final(self).same_meta(old(self)),
            final(self).same_shards_except(old(self), shard_id as int),
            final(self).graphs()[shard_id as int].adjacency() == old(self).graphs()[shard_id as int].adjacency(),
            if old(self).graphs()[shard_id as int].has_user(id) {
                &&& result == Err::<(), GraphError>(GraphError::UserAlreadyExists(id))
                &&& final(self).graphs()[shard_id as int].names() == old(self).graphs()[shard_id as int].names()
            } else {
                &&& result is Ok
                &&& final(self).graphs()[shard_id as int].names() == old(self).graphs()[shard_id as int].names().insert(id, name@)
            },
    {
        let result = self.shards[shard_id].add_user(id, name);
        proof {
            assert forall|i: int| 0 <= i < self.shards@.len() implies (#[trigger] self.shards@[i]).wf() by {
                if i != shard_id {
                    assert(self.shards@[i] == old(self).shards@[i]);
                }
            }
            assert forall|u: u64, s: int|
                0 <= s < self.shard_count_spec() && !self.replicated().contains(u) && self.home(u) != Some(s as usize)
                implies !#[trigger] self.graphs()[s].has_user(u) by {
                assert(!old(self).graphs()[s].has_user(u));
                if s != shard_id {
                    assert(self.graphs()[s] == old(self).graphs()[s]);
                }
            }
        }
        result
    }

    /// Adds `source -> target` on shard `shard_id`, where the source must exist.
    pub(crate) fn shard_add_follow(&mut self, shard_id: usize, source: u64, target: u64) -> (result: Result<(), GraphError>)
        requires
            old(self).wf(),
            shard_id < old(self).shard_count_spec(),
            old(self).home(source) == Some(shard_id) ==> old(self).has_user(target),
        ensures
            final(self).wf(),
            final(self).same_meta(old(self)),
            final(self).same_shards_except(old(self), shard_id as int),
            final(self).graphs()[shard_id as int].names() == old(self).graphs()[shard_id as int].names(),
            old(self).graphs()[shard_id as int].has_user(source) ==> result is Ok
                && final(self).graphs()[shard_id as int].adjacency() == added_edge(old(self).graphs()[shard_id as int].adjacency(), source, target),
            !old(self).graphs()[shard_id as int].has_user(source) ==> result == Err::<(), GraphError>(GraphError::SourceUserNotFound(source))
                && final(self).graphs()[shard_id as int].adjacency() == old(self).graphs()[shard_id as int].adjacency(),
    {
        let result = self.shards[shard_id].add_follow_unchecked(source, target);
        proof {
            assert forall|i: int| 0 <= i < self.shards@.len() implies (#[trigger] self.shards@[i]).wf() by {
                if i != shard_id {
                    assert(self.shards@[i] == old(self).shards@[i]);
                }
            }
            old(self).lemma_wf_placement();
            lemma_closed_after_add(old(self).shards@, self.shards@, self.placement, shard_id as int, source, target);
            assert forall|u: u64, s: int|
                0 <= s < self.shard_count_spec() && !self.replicated().contains(u) && self.home(u) != Some(s as usize)
                implies !#[trigger] self.graphs()[s].has_user(u) by {
                assert(!old(self).graphs()[s].has_user(u));
                if s != shard_id {
                    assert(self.graphs()[s] == old(self).graphs()[s]);
                }
            }
        }
        result
    }

    /// Removes `source -> target` from shard `shard_id`, where the source must exist.
    pub(crate) fn shard_remove_follow(&mut self, shard_id: usize, source: u64, target: u64) -> (result: Result<bool, GraphError>)
        requires
            old(self).wf(),
            shard_id < old(self).shard_count_spec(),
        ensures
            final(self).wf(),
            final(self).same_meta(old(self)),
            final(self).same_shards_except(old(self), shard_id as int),
            final(self).graphs()[shard_id as int].names() == old(self).graphs()[shard_id as int].names(),
            old(self).graphs()[shard_id as int].has_user(source) ==> result == Ok::<bool, GraphError>(
                old(self).graphs()[shard_id as int].following(source).contains(target),
            ) && final(self).graphs()[shard_id as int].adjacency() == removed_edge(old(self).graphs()[shard_id as int].adjacency(), source, target),
            !old(self).graphs()[shard_id as int].has_user(source) ==> result == Err::<bool, GraphError>(GraphError::SourceUserNotFound(source))
                && final(self).graphs()[shard_id as int].adjacency() == old(self).graphs()[shard_id as int].adjacency(),
    {
        let result = self.shards[shard_id].remove_follow_unchecked(source, target);
        proof {
            assert forall|i: int| 0 <= i < self.shards@.len() implies (#[trigger] self.shards@[i]).wf() by {
                if i != shard_id {
                    assert(self.shards@[i] == old(self).shards@[i]);
                }
            }
            assert forall|u: u64, s: int|
                0 <= s < self.shard_count_spec() && !self.replicated().contains(u) && self.home(u) != Some(s as usize)
                implies !#[trigger] self.graphs()[s].has_user(u) by {
                assert(!old(self).graphs()[s].has_user(u));
                if s != shard_id {
                    assert(self.graphs()[s] == old(self).graphs()[s]);
                }
            }
        }
        result
    }

    /// Removes a user and the user's list from shard `shard_id`.
    pub(crate) fn shard_remove_user(&mut self, shard_id: usize, id: u64) -> (removed: bool)
        requires
            old(self).wf(),
            shard_id < old(self).shard_count_spec(),
            old(self).home(id) != Some(shard_id),
        ensures
            final(self).wf(),
            final(self).same_meta(old(self)),
            final(self).same_shards_except(old(self), shard_id as int),
            removed == old(self).graphs()[shard_id as int].has_user(id),
            final(self).graphs()[shard_id as int].names() == old(self).graphs()[shard_id as int].names().remove(id),
            final(self).graphs()[shard_id as int].adjacency() == old(self).graphs()[shard_id as int].adjacency().remove(id),
    {
        let removed = self.shards[shard_id].remove_user(id);
        proof {
            lemma_closed_after_remove(old(self).shards@, self.shards@, self.placement, shard_id as int, id);
            assert forall|i: int| 0 <= i < self.shards@.len() implies (#[trigger] self.shards@[i]).wf() by {
                if i != shard_id {
                    assert(self.shards@[i] == old(self).shards@[i]);
                }
            }
            assert forall|u: u64, s: int|
                0 <= s < self.shard_count_spec() && !self.replicated().contains(u) && self.home(u) != Some(s as usize)
                implies !#[trigger] self.graphs()[s].has_user(u) by {
                assert(!old(self).graphs()[s].has_user(u));
                if s != shard_id {
                    assert(self.graphs()[s] == old(self).graphs()[s]);
                }
            }
        }
        removed
    }

    /// Records `id` as replicated.
    pub(crate) fn mark_replicated(&mut self, id: u64)
        requires
            old(self).wf(),
            old(self).home(id) is Some,
        ensures
            final(self).wf(),
            final(self).graphs() == old(self).graphs(),
            final(self).spec_placement() == old(self).spec_placement(),
            final(self).cache_list() == old(self).cache_list(),
            final(self).observed() == old(self).observed(),
            final(self).replicated() == old(self).replicated().insert(id),
    {
        self.replicated_users.insert(id);
        proof {
            assert forall|u: u64, s: int|
                0 <= s < self.shard_count_spec() && !self.replicated().contains(u) && self.home(u) != Some(s as usize)
                implies !#[trigger] self.graphs()[s].has_user(u) by {
                assert(!old(self).graphs()[s].has_user(u));
            }
        }
    }

    /// Records `id` as no longer replicated; no shard but its home may hold it.
    pub(crate) fn unmark_replicated(&mut self, id: u64)
        requires
            old(self).wf(),
            forall|s: int| 0 <= s < old(self).shard_count_spec() && old(self).home(id) != Some(s as usize)
                ==> !#[trigger] old(self).graphs()[s].has_user(id),
        ensures
            final(self).wf(),
            final(self).graphs() == old(self).graphs(),
            final(self).spec_placement() == old(self).spec_placement(),
            final(self).cache_list() == old(self).cache_list(),
            final(self).observed() == old(self).observed(),
            final(self).replicated() == old(self).replicated().remove(id),
    {
        self.replicated_users.remove(&id);
        proof {
            assert forall|u: u64, s: int|
                0 <= s < self.shard_count_spec() && !self.replicated().contains(u) && self.home(u) != Some(s as usize)
                implies !#[trigger] self.graphs()[s].has_user(u) by {
                if u != id {
                    assert(!old(self).graphs()[s].has_user(u));
                }
            }
        }
    }
}

} // verus!

verus! {

/// Inserting users' lists as a graph stores them keeps a cache agreeing with that graph.
pub proof fn lemma_insert_all_agrees(
    entries: Seq<CacheEntry>,
    capacity: nat,
    byte_capacity: Option<usize>,
    policy: EvictionPolicy,
    g: Graph,
    ids: Seq<u64>,
)
    requires
        crate::properties::cache_agrees(entries, g.adjacency()),
    ensures
        crate::properties::cache_agrees(insert_all(entries, capacity, byte_capacity, policy, g, ids), g.adjacency()),
    decreases ids.len(),
{
    if ids.len() > 0 {
        lemma_insert_all_agrees(entries, capacity, byte_capacity, policy, g, ids.drop_last());
        crate::properties::lemma_after_insert_agrees(
            insert_all(entries, capacity, byte_capacity, policy, g, ids.drop_last()),
            g.adjacency(),
            capacity,
            byte_capacity,
            policy,
            ids.last(),
        );
    }
}

} // verus!

verus! {

/// With no observed accesses on any shard, warming the caches from observed traffic leaves
/// every cache empty, whatever the entry limit, so the warm-up caches nothing.
pub proof fn lemma_warm_without_observations(g: ShardedGraph, max_entries: nat)
    requires
        g.wf(),
        g.cache_list() is Some,
        forall|i: int| 0 <= i < g.observed().len() ==> #[trigger] g.observed()[i] == Map::<u64, u64>::empty(),
    ensures
        forall|s: int| 0 <= s < g.shard_count_spec() ==> #[trigger] g.warmed_views(max_entries)[s] == Seq::<CacheEntry>::empty(),
        entry_total(g.warmed_views(max_entries)) == 0,
{
    let views = g.warmed_views(max_entries);
    assert(g.observed().len() == g.shard_count_spec());
    assert forall|s: int| 0 <= s < g.shard_count_spec() implies #[trigger] views[s] == Seq::<CacheEntry>::empty() by {
        let counts = g.observed()[s];
        assert(counts == Map::<u64, u64>::empty());
        assert(count_items(counts) =~= Set::<(u64, u64)>::empty());
        let empty = Seq::<(u64, u64)>::empty();
        assert(is_ranked(empty) && empty.to_set() =~= count_items(counts));
        let h = hottest(counts);
        assert(is_ranked(h) && h.to_set() == count_items(counts));
        if h.len() > 0 {
            assert(h.to_set().contains(h[0]));
        }
        assert(warm_order(counts, min_nat(g.cache_list().unwrap()[0].spec_capacity(), max_entries)) =~= Seq::<u64>::empty());
    }
    lemma_entry_total_empty(views);
}

proof fn lemma_entry_total_empty(views: Seq<Seq<CacheEntry>>)
    requires
        forall|s: int| 0 <= s < views.len() ==> #[trigger] views[s] == Seq::<CacheEntry>::empty(),
    ensures
        entry_total(views) == 0,
    decreases views.len(),
{
    if views.len() > 0 {
        lemma_entry_total_empty(views.drop_last());
        assert(views.last() == views[views.len() - 1]);
    }
}

} // verus!

verus! {

/// How many user IDs in `1..=k` the communities of `sizes`, stored on shards `shards`, place
/// on shard `s`.
pub open spec fn shard_id_count(sizes: Seq<u64>, shards: Seq<usize>, s: usize, k: nat) -> nat
    decreases k,
{
    if k == 0 {
        0
    } else {
        shard_id_count(sizes, shards, s, (k - 1) as nat) + if community_shard(sizes, shards, k as int, 0, 0) == Some(s) {
            1nat
        } else {
            0nat
        }
    }
}

proof fn lemma_prefix_sum_step(sizes: Seq<u64>, j: int)
    requires
        0 <= j < sizes.len(),
    ensures
        size_sum(sizes.take(j + 1)) == size_sum(sizes.take(j)) + sizes[j],
        size_sum(sizes.take(j)) >= 0,
    decreases j,
{
    assert(sizes.take(j + 1).drop_last() =~= sizes.take(j));
    if j > 0 {
        lemma_prefix_sum_step(sizes, j - 1);
    } else {
        assert(sizes.take(0) =~= Seq::<u64>::empty());
    }
}

proof fn lemma_in_community(sizes: Seq<u64>, shards: Seq<usize>, id: int, c: int, j: int)
    requires
        0 <= j <= c < sizes.len(),
        c < shards.len(),
        size_sum(sizes.take(c)) < id <= size_sum(sizes.take(c + 1)),
    ensures
        community_shard(sizes, shards, id, j, size_sum(sizes.take(j))) == Some(shards[c]),
    decreases c - j,
{
    lemma_prefix_sum_step(sizes, j);
    lemma_prefix_sum_step(sizes, c);
    if j < c {
        lemma_size_sum_prefix(sizes.take(c), j + 1);
        assert(sizes.take(c).take(j + 1) =~= sizes.take(j + 1));
        lemma_in_community(sizes, shards, id, c, j + 1);
    }
}

proof fn lemma_block_count(sizes: Seq<u64>, shards: Seq<usize>, s: usize, c: int, t: int)
    requires
        0 <= c < sizes.len(),
        c < shards.len(),
        0 <= t <= sizes[c],
    ensures
        size_sum(sizes.take(c)) >= 0,
        shard_id_count(sizes, shards, s, (size_sum(sizes.take(c)) + t) as nat)
            == shard_id_count(sizes, shards, s, size_sum(sizes.take(c)) as nat) + if shards[c] == s { t } else { 0 },
    decreases t,
{
    lemma_prefix_sum_step(sizes, c);
    if t > 0 {
        lemma_block_count(sizes, shards, s, c, t - 1);
        let id = size_sum(sizes.take(c)) + t;
        lemma_in_community(sizes, shards, id, c, 0);
        assert(sizes.take(0) =~= Seq::<u64>::empty());
    }
}

proof fn lemma_community_counts(sizes: Seq<u64>, shards: Seq<usize>, s: usize, c: int)
    requires
        0 <= c <= sizes.len(),
        sizes.len() == shards.len(),
    ensures
        size_sum(sizes.take(c)) >= 0,
        shard_id_count(sizes, shards, s, size_sum(sizes.take(c)) as nat) == crate::balanced::prefix_load(sizes, shards, s, c),
    decreases c,
{
    if c > 0 {
        lemma_community_counts(sizes, shards, s, c - 1);
        lemma_prefix_sum_step(sizes, c - 1);
        lemma_block_count(sizes, shards, s, c - 1, sizes[c - 1] as int);
    } else {
        assert(sizes.take(0) =~= Seq::<u64>::empty());
    }
}

proof fn lemma_id_set_len(sizes: Seq<u64>, shards: Seq<usize>, s: usize, k: nat)
    requires
        k <= u64::MAX,
    ensures
        Set::new(|u: u64| 1 <= u <= k && community_shard(sizes, shards, u as int, 0, 0) == Some(s)).finite(),
        Set::new(|u: u64| 1 <= u <= k && community_shard(sizes, shards, u as int, 0, 0) == Some(s)).len()
            == shard_id_count(sizes, shards, s, k),
    decreases k,
{
    let set_k = Set::new(|u: u64| 1 <= u <= k && community_shard(sizes, shards, u as int, 0, 0) == Some(s));
    if k == 0 {
        assert(set_k =~= Set::<u64>::empty());
    } else {
        lemma_id_set_len(sizes, shards, s, (k - 1) as nat);
        let prev = Set::new(|u: u64| 1 <= u <= (k - 1) as nat && community_shard(sizes, shards, u as int, 0, 0) == Some(s));
        let top = k as u64;
        if community_shard(sizes, shards, k as int, 0, 0) == Some(s) {
            assert(set_k =~= prev.insert(top));
            assert(!prev.contains(top));
        } else {
            assert(set_k =~= prev);
        }
    }
}

/// A graph built with the balanced community placement, holding exactly the users
/// `1..=size_sum(sizes)` and no replicas, stores on every shard as many users as the
/// balanced assignment loads onto it.
pub proof fn lemma_balanced_users_fill_loads(g: ShardedGraph, sizes: Seq<u64>, s: usize)
    requires
        g.wf(),
        g.replicated() == Set::<u64>::empty(),
        g.spec_placement() matches Placement::BalancedCommunity { community_sizes, community_to_shard }
            && community_sizes@ == sizes
            && community_to_shard@ == balanced_placement(sizes, g.shard_count_spec()).assignment,
        exists|r: Seq<(u64, u64)>| crate::rank::is_ranked(r) && r.to_set() == crate::balanced::community_items(sizes).to_set(),
        sizes.len() <= usize::MAX,
        size_sum(sizes) <= u64::MAX,
        forall|u: u64| #[trigger] g.has_user(u) <==> 1 <= u <= size_sum(sizes),
        s < g.shard_count_spec(),
    ensures
        g.graphs()[s as int].names().len() == balanced_placement(sizes, g.shard_count_spec()).loads[s as int],
{
    g.lemma_wf_placement();
    let n = g.shard_count_spec();
    let a = balanced_placement(sizes, n).assignment;
    crate::balanced::lemma_greedy_shape_ranking(sizes, n);
    crate::balanced::lemma_balanced_loads(sizes, n, s);
    lemma_community_counts(sizes, a, s, sizes.len() as int);
    assert(sizes.take(sizes.len() as int) =~= sizes);
    let total = size_sum(sizes);
    lemma_id_set_len(sizes, a, s, total as nat);
    let ids = Set::new(|u: u64| 1 <= u <= total as nat && community_shard(sizes, a, u as int, 0, 0) == Some(s));
    let names = g.graphs()[s as int].names();
    assert(names.dom() =~= ids) by {
        assert forall|u: u64| names.dom().contains(u) implies ids.contains(u) by {
            assert(g.graphs()[s as int].has_user(u));
            assert(!g.replicated().contains(u));
            assert(g.home(u) == Some(s));
            assert(g.has_user(u));
        }
        assert forall|u: u64| ids.contains(u) implies names.dom().contains(u) by {
            assert(g.home(u) == Some(s));
            assert(g.has_user(u));
        }
    }
}

} // verus!

verus! {

/// Adding `source -> target` on shard `k`, where `target` is stored whenever `k` is the home
/// of `source`, keeps every stored edge leading to a stored user.
proof fn lemma_closed_after_add(
    before: Seq<Graph>,
    after: Seq<Graph>,
    p: Placement,
    k: int,
    source: u64,
    target: u64,
)
    requires
        closed_edges(before, p),
        before.len() == after.len(),
        0 <= k < before.len(),
        forall|i: int| 0 <= i < before.len() && i != k ==> #[trigger] after[i] == before[i],
        after[k].names() == before[k].names(),
        after[k].adjacency() == added_edge(before[k].adjacency(), source, target) || after[k].adjacency() == before[k].adjacency(),
        placement_shard(p, before.len(), source) == Some(k as usize) ==> (placement_shard(p, before.len(), target) matches Some(ht)
            && ht < before.len() && before[ht as int].has_user(target)),
    ensures
        closed_edges(after, p),
{
    let n = before.len();
    assert forall|h: int, x: u64, i: int| #![trigger after[h].adjacency()[x][i]]
        0 <= h < after.len() && placement_shard(p, after.len(), x) == Some(h as usize) && after[h].adjacency().contains_key(x)
            && 0 <= i < after[h].adjacency()[x].len() implies ({
            let y = after[h].adjacency()[x][i];
            placement_shard(p, after.len(), y) matches Some(hy) && hy < after.len() && after[hy as int].has_user(y)
        }) by {
        let y = after[h].adjacency()[x][i];
        let old_adj = before[h].adjacency();
        if h != k || after[k].adjacency() == before[k].adjacency() || x != source {
            if h == k && after[k].adjacency() != before[k].adjacency() {
                assert(after[h].adjacency()[x] == old_adj[x]);
                assert(old_adj.contains_key(x));
            }
            assert(old_adj.contains_key(x) && old_adj[x][i] == y);
            assert(before[h].adjacency()[x][i] == y);
        } else {
            let list = list_of(old_adj, source);
            if i < list.len() {
                assert(old_adj.contains_key(source));
                assert(after[h].adjacency()[x][i] == list[i]);
                assert(before[h].adjacency()[x][i] == y);
            } else {
                assert(y == target);
            }
        }
        let hy = placement_shard(p, n, y).unwrap();
        if hy as int != k {
            assert(after[hy as int] == before[hy as int]);
        }
    }
}

/// Removing a user from a shard that is not its home keeps every stored edge leading to a
/// stored user.
proof fn lemma_closed_after_remove(before: Seq<Graph>, after: Seq<Graph>, p: Placement, k: int, id: u64)
    requires
        closed_edges(before, p),
        before.len() == after.len(),
        0 <= k < before.len(),
        forall|i: int| 0 <= i < before.len() && i != k ==> #[trigger] after[i] == before[i],
        after[k].names() == before[k].names().remove(id),
        after[k].adjacency() == before[k].adjacency().remove(id),
        placement_shard(p, before.len(), id) != Some(k as usize),
    ensures
        closed_edges(after, p),
{
    let n = before.len();
    assert forall|h: int, x: u64, i: int| #![trigger after[h].adjacency()[x][i]]
        0 <= h < after.len() && placement_shard(p, after.len(), x) == Some(h as usize) && after[h].adjacency().contains_key(x)
            && 0 <= i < after[h].adjacency()[x].len() implies ({
            let y = after[h].adjacency()[x][i];
            placement_shard(p, after.len(), y) matches Some(hy) && hy < after.len() && after[hy as int].has_user(y)
        }) by {
        let y = after[h].adjacency()[x][i];
        assert(before[h].adjacency().contains_key(x) && before[h].adjacency()[x][i] == y);
        let hy = placement_shard(p, n, y).unwrap();
        if hy as int != k {
            assert(after[hy as int] == before[hy as int]);
        } else {
            assert(y != id);
        }
    }
}

} // verus!

verus! {

impl ShardedGraph {
    /// Every edge of a sharded graph leads to a user it stores.
    pub proof fn lemma_edges_lead_to_users(&self)
        requires
            self.wf(),
        ensures
            forall|s: u64, i: int| #![trigger self.logical_adjacency()[s][i]]
                self.logical_adjacency().contains_key(s) && 0 <= i < self.logical_adjacency()[s].len()
                ==> self.logical_names().contains_key(self.logical_adjacency()[s][i]),
    {
        self.lemma_wf_placement();
        let g = self.graphs();
        assert forall|s: u64, i: int| #![trigger self.logical_adjacency()[s][i]]
            self.logical_adjacency().contains_key(s) && 0 <= i < self.logical_adjacency()[s].len()
            implies self.logical_names().contains_key(self.logical_adjacency()[s][i]) by {
            let h = self.home(s).unwrap();
            assert(g[h as int].adjacency()[s][i] == self.logical_adjacency()[s][i]);
            let y = g[h as int].adjacency()[s][i];
            assert(self.has_user(y));
        }
    }
}

} // verus!

verus! {

proof fn lemma_past_communities(sizes: Seq<u64>, shards: Seq<usize>, id: int, c: int)
    requires
        0 <= c <= sizes.len(),
        id > size_sum(sizes),
    ensures
        community_shard(sizes, shards, id, c, size_sum(sizes.take(c))) is None,
    decreases sizes.len() - c,
{
    if c < sizes.len() {
        lemma_prefix_sum_step(sizes, c);
        lemma_size_sum_prefix(sizes, c + 1);
        lemma_past_communities(sizes, shards, id, c + 1);
    }
}

/// Under a balanced community placement, no shard is home to an ID past the last community,
/// so `add_user` refuses it.
pub proof fn lemma_balanced_past_last_user(sizes: Seq<u64>, shards: Seq<usize>, id: int)
    requires
        id > size_sum(sizes),
    ensures
        community_shard(sizes, shards, id, 0, 0) is None,
{
    assert(sizes.take(0) =~= Seq::<u64>::empty());
    lemma_past_communities(sizes, shards, id, 0);
}

} // verus!

verus! {

/// Warming a shard from its observed counts takes its most accessed users: each warmed user
/// was observed, is warmed once, and was accessed at least as often as every observed user
/// left out; at most `limit` users are warmed, and fewer only when every observed user is.
/// They are warmed coldest first (higher ID first among equal counts), so the most accessed
/// ends up the most recently used.
pub proof fn lemma_warm_order_takes_hottest(counts: Map<u64, u64>, limit: nat)
    requires
        counts.dom().finite(),
    ensures
        ({
            let w = warm_order(counts, limit);
            &&& w.len() <= limit
            &&& w.no_duplicates()
            &&& forall|i: int| 0 <= i < w.len() ==> counts.contains_key(#[trigger] w[i])
            &&& forall|u: u64, i: int| #![trigger counts[u], w[i]] counts.contains_key(u) && !w.contains(u) && 0 <= i < w.len()
                ==> counts[u] <= counts[w[i]]
            &&& w.len() < limit ==> forall|u: u64| #[trigger] counts.contains_key(u) ==> w.contains(u)
            &&& forall|i: int, j: int| 0 <= i < j < w.len() ==> counts[#[trigger] w[i]] < counts[#[trigger] w[j]]
                || (counts[w[i]] == counts[w[j]] && w[i] > w[j])
        }),
{
    let items = count_items(counts);
    let f = |u: u64| (counts[u], u);
    assert(items =~= counts.dom().map(f)) by {
        assert forall|p: (u64, u64)| items.contains(p) implies counts.dom().map(f).contains(p) by {
            assert(f(p.1) == p);
        }
    }
    counts.dom().lemma_map_finite(f);
    crate::rank::lemma_ranking_exists(items);
    let h = hottest(counts);
    assert(is_ranked(h) && h.to_set() == items);
    crate::rank::lemma_ranked_no_duplicates(h);
    let k = min_nat(limit, h.len());
    let w = warm_order(counts, limit);
    let top = h.take(k as int).map_values(|p: (u64, u64)| p.1);
    assert(w == top.reverse());
    assert forall|i: int| 0 <= i < w.len() implies w[i] == h[k - 1 - i].1 by {}
    // Each warmed user is the ID of a ranked pair among the first `k`.
    assert forall|i: int| 0 <= i < w.len() implies counts.contains_key(#[trigger] w[i]) && counts[w[i]] == h[k - 1 - i].0 by {
        assert(h.to_set().contains(h[k - 1 - i]));
    }
    assert(w.no_duplicates()) by {
        assert forall|a: int, b: int| 0 <= a < w.len() && 0 <= b < w.len() && a != b implies w[a] != w[b] by {
            let pa = h[k - 1 - a];
            let pb = h[k - 1 - b];
            assert(h.to_set().contains(pa) && h.to_set().contains(pb));
            assert(pa != pb);
        }
    }
    assert forall|u: u64, i: int| #![trigger counts[u], w[i]] counts.contains_key(u) && !w.contains(u) && 0 <= i < w.len()
        implies counts[u] <= counts[w[i]] by {
        assert(items.contains((counts[u], u)));
        let m = choose|m: int| 0 <= m < h.len() && h[m] == (counts[u], u);
        if m < k {
            assert(w[k - 1 - m] == u);
        }
        assert(crate::rank::ranks_before(h[k - 1 - i], h[m]));
    }
    assert forall|i: int, j: int| 0 <= i < j < w.len() implies counts[#[trigger] w[i]] < counts[#[trigger] w[j]]
        || (counts[w[i]] == counts[w[j]] && w[i] > w[j]) by {
        assert(crate::rank::ranks_before(h[k - 1 - j], h[k - 1 - i]));
    }
    if w.len() < limit {
        assert forall|u: u64| #[trigger] counts.contains_key(u) implies w.contains(u) by {
            assert(items.contains((counts[u], u)));
            let m = choose|m: int| 0 <= m < h.len() && h[m] == (counts[u], u);
            assert(w[k - 1 - m] == u);
        }
    }
}

/// Every shard's observed counts cover finitely many users.
pub proof fn lemma_observed_finite(g: ShardedGraph, s: int)
    requires
        g.wf(),
        0 <= s < g.shard_count_spec(),
    ensures
        g.observed()[s].dom().finite(),
{
    assert(g.observed()[s] == g.observed_adjacency_accesses@[s]@);
}

} // verus!

verus! {

/// Under the equal-community placement, the users `1..=community_size` live on shard 0, the
/// users of one community share a shard, and each next community lives on the next shard,
/// wrapping round after the last: community `c` lives on shard `c % shard_count`.
pub proof fn lemma_community_placement_rotates(community_size: u64, shard_count: nat, user_id: u64)
    requires
        community_size > 0,
        0 < shard_count <= usize::MAX,
        1 <= user_id,
    ensures
        ({
            let p = Placement::Community { community_size };
            &&& placement_shard(p, shard_count, user_id) is Some
            &&& user_id <= community_size ==> placement_shard(p, shard_count, user_id) == Some(0usize)
            &&& user_id % community_size != 0 && user_id < u64::MAX ==> placement_shard(p, shard_count, (user_id + 1) as u64)
                == placement_shard(p, shard_count, user_id)
            &&& user_id + community_size <= usize::MAX ==> placement_shard(p, shard_count, (user_id + community_size) as u64)
                == Some(((placement_shard(p, shard_count, user_id).unwrap() + 1) % (shard_count as int)) as usize)
        }),
{
    let size = community_size as int;
    let n = shard_count as int;
    let c = (user_id - 1) / size;
    assert(0 <= c <= user_id - 1) by (nonlinear_arith)
        requires
            size > 0,
            c == (user_id - 1) / size,
            user_id >= 1,
    ;
    if user_id <= community_size {
        assert(c == 0) by (nonlinear_arith)
            requires
                size > 0,
                c == (user_id - 1) / size,
                1 <= user_id <= size,
        ;
        assert((((user_id - 1) / size) as u64 as usize) as int == 0);
        assert(0int % n == 0);
        assert(placement_shard(Placement::Community { community_size }, shard_count, user_id) == Some(0usize));
    }
    if user_id % community_size != 0 && user_id < u64::MAX {
        let q = user_id as int / size;
        let r = user_id as int % size;
        vstd::arithmetic::div_mod::lemma_fundamental_div_mod(user_id as int, size);
        assert(1 <= r < size);
        assert(user_id == q * size + r) by (nonlinear_arith)
            requires
                user_id == size * q + r,
        ;
        vstd::arithmetic::div_mod::lemma_fundamental_div_mod_converse(user_id - 1, size, q, r - 1);
        vstd::arithmetic::div_mod::lemma_fundamental_div_mod_converse(user_id as int, size, q, r);
        assert(((user_id + 1) - 1) / size == c);
        let next = (user_id + 1) as u64;
        assert((next - 1) / size == c);
        assert(placement_shard(Placement::Community { community_size }, shard_count, next)
            == placement_shard(Placement::Community { community_size }, shard_count, user_id));
    }
    if user_id + community_size <= usize::MAX {
        vstd::arithmetic::div_mod::lemma_div_plus_one(user_id - 1, size);
        assert((user_id + size - 1) / size == c + 1);
        assert(c + 1 <= usize::MAX) by (nonlinear_arith)
            requires
                size > 0,
                c == (user_id - 1) / size,
                c <= user_id - 1,
                user_id + size <= usize::MAX,
        ;
        vstd::arithmetic::div_mod::lemma_add_mod_noop_right(1, c, n);
        assert((c % n + 1) % n == (c + 1) % n);
        let p = Placement::Community { community_size };
        let next = (user_id + community_size) as u64;
        assert((next - 1) / size == c + 1);
        assert(((c as u64 as usize) as int) == c);
        assert((((c + 1) as u64 as usize) as int) == c + 1);
        assert(placement_shard(p, shard_count, user_id) == Some((c % n) as usize));
        assert(placement_shard(p, shard_count, next) == Some(((c + 1) % n) as usize));
    }
}

} // verus!

verus! {

/// Under hash placement, users `1..shard_count` live on the shard of their own number, and
/// users `shard_count` apart share a shard.
pub proof fn lemma_hash_placement_cycles(shard_count: nat, user_id: u64)
    requires
        0 < shard_count <= usize::MAX,
        1 <= user_id,
        user_id + shard_count <= usize::MAX,
    ensures
        user_id < shard_count ==> placement_shard(Placement::Hash, shard_count, user_id) == Some(user_id as usize),
        placement_shard(Placement::Hash, shard_count, (user_id + shard_count) as u64)
            == placement_shard(Placement::Hash, shard_count, user_id),
{
    let n = shard_count as int;
    vstd::arithmetic::div_mod::lemma_mod_add_multiples_vanish(user_id as int, n);
    if user_id < shard_count {
        vstd::arithmetic::div_mod::lemma_small_mod(user_id as nat, shard_count);
    }
}

} // verus!
