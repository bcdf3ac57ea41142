//! Hub-heavy workloads: adjacency reads per user, read rankings, cold and preloaded LRU
//! simulations, and runs of cached sharded queries checked against a reference graph.
use vstd::prelude::*;
use crate::rank::{rank_by_weight, ranks_before};
use crate::cache::{IdLruSimulator, lru_access};
use crate::error::GraphError;
use crate::cache::CacheEntry;
use crate::graph::{Graph, two_hop};
use crate::sharded::{ShardMeta, ShardedGraph};
use crate::measure::same_members;
use crate::properties::{caches_agree, places_all, lemma_sharded_two_hop_matches_reference};
use crate::twohop::collect_lists;
pub use crate::workload::HubWorkload;

verus! {

/// How many edges of `edges` point at `user_id`.
pub open spec fn target_count(edges: Seq<(u64, u64)>, user_id: u64) -> nat
    decreases edges.len(),
{
    if edges.len() == 0 {
        0
    } else {
        target_count(edges.drop_last(), user_id) + if edges.last().1 == user_id { 1nat } else { 0nat }
    }
}

pub proof fn lemma_target_count_bound(edges: Seq<(u64, u64)>, user_id: u64)
    ensures
        target_count(edges, user_id) <= edges.len(),
    decreases edges.len(),
{
    if edges.len() > 0 {
        lemma_target_count_bound(edges.drop_last(), user_id);
    }
}

/// Counts, for every user ID up to `limit`, the edges that point at it; edges pointing past
/// `limit` are not counted.
fn count_targets(edges: &Vec<(u64, u64)>, limit: u64) -> (counts: Vec<u64>)
    requires
        limit < usize::MAX,
    ensures
        counts@.len() == limit + 1,
        forall|u: int| 0 <= u <= limit ==> #[trigger] counts@[u] == target_count(edges@, u as u64),
{
    let len: usize = (limit + 1) as usize;
    let mut counts: Vec<u64> = Vec::new();
    while counts.len() < len
        invariant
            len == limit + 1,
            counts@.len() <= len,
            forall|u: int| 0 <= u < counts@.len() ==> #[trigger] counts@[u] == 0,
        decreases len - counts@.len(),
    {
        counts.push(0);
    }
    for i in 0..edges.len()
        invariant
            limit < usize::MAX,
            counts@.len() == limit + 1,
            forall|u: int| 0 <= u <= limit ==> #[trigger] counts@[u] == target_count(edges@.take(i as int), u as u64),
    {
        let target = edges[i].1;
        let ghost prev = counts@;
        proof {
            let t = edges@.take(i + 1);
            assert(t.drop_last() =~= edges@.take(i as int));
            assert(t.last() == edges@[i as int]);
        }
        if target <= limit {
            let t: usize = target as usize;
            proof {
                assert(counts@[t as int] == target_count(edges@.take(i as int), target));
                lemma_target_count_bound(edges@.take(i as int), target);
            }
            counts.set(t, counts[t] + 1);
        }
        proof {
            let t = edges@.take(i + 1);
            assert forall|u: int| 0 <= u <= limit implies #[trigger] counts@[u] == target_count(t, u as u64) by {
                assert(prev[u] == target_count(edges@.take(i as int), u as u64));
                assert(target_count(t, u as u64) == target_count(edges@.take(i as int), u as u64)
                    + if target == u as u64 { 1nat } else { 0nat });
            }
        }
    }
    proof {
        assert(edges@.take(edges@.len() as int) =~= edges@);
    }
    counts
}

/// How many times each user's adjacency list is read: `reads[u]` is the number of edges that
/// point at `u` (index 0 stands for no user and stays 0).
pub fn adjacency_reads(w: &HubWorkload) -> (reads: Vec<u64>)
    requires
        w.user_count < usize::MAX,
        forall|i: int| 0 <= i < w.edges@.len() ==> (#[trigger] w.edges@[i]).1 <= w.user_count,
    ensures
        reads@.len() == w.user_count + 1,
        forall|u: int| 0 <= u <= w.user_count ==> #[trigger] reads@[u] == target_count(w.edges@, u as u64),
{
    count_targets(&w.edges, w.user_count)
}

/// The sum of `reads[id]` over the IDs in `ids`.
pub open spec fn reads_of(reads: Seq<u64>, ids: Seq<u64>) -> nat
    decreases ids.len(),
{
    if ids.len() == 0 {
        0
    } else {
        reads_of(reads, ids.drop_last()) + reads[ids.last() as int] as nat
    }
}

proof fn lemma_reads_of_prefix(reads: Seq<u64>, ids: Seq<u64>, k: int)
    requires
        0 <= k <= ids.len(),
    ensures
        reads_of(reads, ids.take(k)) <= reads_of(reads, ids),
    decreases ids.len(),
{
    if k < ids.len() {
        assert(ids.drop_last().take(k) =~= ids.take(k));
        lemma_reads_of_prefix(reads, ids.drop_last(), k);
    } else {
        assert(ids.take(k) =~= ids);
    }
}

/// The adjacency reads that land on the users in `hub_ids`.
pub fn hub_read_total(reads: &Vec<u64>, hub_ids: &Vec<u64>) -> (total: u64)
    requires
        forall|i: int| 0 <= i < hub_ids@.len() ==> (#[trigger] hub_ids@[i]) < reads@.len(),
        reads_of(reads@, hub_ids@) <= u64::MAX,
    ensures
        total == reads_of(reads@, hub_ids@),
{
    let mut total: u64 = 0;
    for i in 0..hub_ids.len()
        invariant
            forall|i: int| 0 <= i < hub_ids@.len() ==> (#[trigger] hub_ids@[i]) < reads@.len(),
            reads_of(reads@, hub_ids@) <= u64::MAX,
            total == reads_of(reads@, hub_ids@.take(i as int)),
    {
        proof {
            let t = hub_ids@.take(i + 1);
            assert(t.drop_last() =~= hub_ids@.take(i as int));
            assert(t.last() == hub_ids@[i as int]);
            lemma_reads_of_prefix(reads@, hub_ids@, i + 1);
        }
        let id = hub_ids[i];
        proof {
            let t = hub_ids@.take(i + 1);
            assert(id < reads@.len());
            assert(reads@.len() == reads.len());
            assert(reads_of(reads@, t) == reads_of(reads@, hub_ids@.take(i as int)) + reads@[id as int]);
        }
        let k: usize = id as usize;
        assert(k as int == id as int);
        total = total + reads[k];
    }
    proof {
        assert(hub_ids@.take(hub_ids@.len() as int) =~= hub_ids@);
    }
    total
}

/// `ranked` lists `(user, reads)` pairs, most reads first, lower user ID first among equal
/// reads.
pub open spec fn ranked_by_reads(ranked: Seq<(u64, u64)>) -> bool {
    forall|i: int, j: int| 0 <= i < j < ranked.len()
        ==> ranks_before(((#[trigger] ranked[i]).1, ranked[i].0), ((#[trigger] ranked[j]).1, ranked[j].0))
}

/// The user IDs of `(user, reads)` pairs, in order.
pub open spec fn ids_of(ranked: Seq<(u64, u64)>) -> Seq<u64> {
    ranked.map_values(|p: (u64, u64)| p.0)
}

/// Every user `1..reads.len()` paired with its read count, most reads first, lower user ID
/// first among equal reads.
pub fn rank_by_reads(reads: &Vec<u64>) -> (ranked: Vec<(u64, u64)>)
    ensures
        ranked@.len() == if reads@.len() == 0 { 0 } else { reads@.len() - 1 },
        ranked_by_reads(ranked@),
        forall|i: int| 0 <= i < ranked@.len() ==> 1 <= (#[trigger] ranked@[i]).0 < reads@.len()
            && ranked@[i].1 == reads@[ranked@[i].0 as int],
        forall|u: u64| 1 <= u < reads@.len() ==> #[trigger] ids_of(ranked@).contains(u),
{
    let mut items: Vec<(u64, u64)> = Vec::new();
    let mut u: usize = 1;
    while u < reads.len()
        invariant
            1 <= u,
            u <= reads@.len() || (reads@.len() == 0 && u == 1),
            items@.len() == u - 1,
            forall|k: int| 0 <= k < items@.len() ==> (#[trigger] items@[k]) == (reads@[k + 1], (k + 1) as u64),
        decreases reads@.len() - u,
    {
        items.push((reads[u], u as u64));
        u = u + 1;
    }
    proof {
        assert(items@.no_duplicates()) by {
            assert forall|a: int, b: int| 0 <= a < items@.len() && 0 <= b < items@.len() && a != b
                implies items@[a] != items@[b] by {
                assert(items@[a].1 == (a + 1) as u64 && items@[b].1 == (b + 1) as u64);
            }
        }
    }
    let by_weight = rank_by_weight(&items);
    let mut ranked: Vec<(u64, u64)> = Vec::new();
    for i in 0..by_weight.len()
        invariant
            ranked@.len() == i,
            forall|k: int| 0 <= k < i ==> (#[trigger] ranked@[k]) == (by_weight@[k].1, by_weight@[k].0),
    {
        let (weight, id) = by_weight[i];
        ranked.push((id, weight));
    }
    proof {
        assert forall|i: int| 0 <= i < ranked@.len() implies 1 <= (#[trigger] ranked@[i]).0 < reads@.len()
            && ranked@[i].1 == reads@[ranked@[i].0 as int] by {
            assert(by_weight@.to_set().contains(by_weight@[i]));
            assert(items@.to_set().contains(by_weight@[i]));
            let k = choose|k: int| 0 <= k < items@.len() && items@[k] == by_weight@[i];
            assert(k + 1 < reads@.len());
            assert(items@[k] == (reads@[k + 1], (k + 1) as u64));
        }
        assert forall|u: u64| 1 <= u < reads@.len() implies #[trigger] ids_of(ranked@).contains(u) by {
            assert(items@[u - 1] == (reads@[u as int], u));
            assert(items@.to_set().contains(items@[u - 1]));
            assert(by_weight@.to_set().contains(items@[u - 1]));
            let i = choose|i: int| 0 <= i < by_weight@.len() && by_weight@[i] == items@[u - 1];
            assert(ranked@[i].0 == u);
            assert(ids_of(ranked@)[i] == u);
        }
        assert forall|i: int, j: int| 0 <= i < j < ranked@.len()
            implies ranks_before(((#[trigger] ranked@[i]).1, ranked@[i].0), ((#[trigger] ranked@[j]).1, ranked@[j].0)) by {
            assert(ranks_before(by_weight@[i], by_weight@[j]));
        }
    }
    ranked
}

/// The hub IDs `1..=hub_count` ordered by how many edges point at them, most first, lower ID
/// first among equal counts.
pub fn rank_hubs_by_reads(edges: &Vec<(u64, u64)>, hub_count: u64) -> (ranked: Vec<u64>)
    requires
        hub_count < usize::MAX,
    ensures
        ranked@.len() == hub_count,
        forall|i: int| 0 <= i < ranked@.len() ==> 1 <= #[trigger] ranked@[i] <= hub_count,
        forall|h: u64| 1 <= h <= hub_count ==> #[trigger] ranked@.contains(h),
        forall|i: int, j: int| 0 <= i < j < ranked@.len() ==> ranks_before(
            (target_count(edges@, #[trigger] ranked@[i]) as u64, ranked@[i]),
            (target_count(edges@, #[trigger] ranked@[j]) as u64, ranked@[j]),
        ),
{
    let counts = count_targets(edges, hub_count);
    let by_reads = rank_by_reads(&counts);
    let mut ranked: Vec<u64> = Vec::new();
    for i in 0..by_reads.len()
        invariant
            ranked@.len() == i,
            forall|k: int| 0 <= k < i ==> (#[trigger] ranked@[k]) == by_reads@[k].0,
    {
        ranked.push(by_reads[i].0);
    }
    proof {
        assert forall|h: u64| 1 <= h <= hub_count implies #[trigger] ranked@.contains(h) by {
            assert(ids_of(by_reads@).contains(h));
            let i = choose|i: int| 0 <= i < by_reads@.len() && ids_of(by_reads@)[i] == h;
            assert(ranked@[i] == h);
        }
        assert forall|i: int, j: int| 0 <= i < j < ranked@.len() implies ranks_before(
            (target_count(edges@, #[trigger] ranked@[i]) as u64, ranked@[i]),
            (target_count(edges@, #[trigger] ranked@[j]) as u64, ranked@[j]),
        ) by {
            assert(ranks_before((by_reads@[i].1, by_reads@[i].0), (by_reads@[j].1, by_reads@[j].0)));
            assert(counts@[ranked@[i] as int] == target_count(edges@, ranked@[i]));
            assert(counts@[ranked@[j] as int] == target_count(edges@, ranked@[j]));
        }
    }
    ranked
}

/// The targets of `edges`, in order: the adjacency lists a run of two-hop queries reads.
pub open spec fn targets_of(edges: Seq<(u64, u64)>) -> Seq<u64> {
    edges.map_values(|e: (u64, u64)| e.1)
}

/// The usage order an LRU simulator of `capacity` holds after starting from `entries` and
/// accessing `ids` in turn.
pub open spec fn lru_run(entries: Seq<u64>, capacity: nat, ids: Seq<u64>) -> Seq<u64>
    decreases ids.len(),
{
    if ids.len() == 0 {
        entries
    } else {
        lru_access(lru_run(entries, capacity, ids.drop_last()), capacity, ids.last())
    }
}

/// How many of the accesses of `ids`, made in turn from `entries`, find their ID cached.
pub open spec fn lru_hits(entries: Seq<u64>, capacity: nat, ids: Seq<u64>) -> nat
    decreases ids.len(),
{
    if ids.len() == 0 {
        0
    } else {
        lru_hits(entries, capacity, ids.drop_last())
            + if lru_run(entries, capacity, ids.drop_last()).contains(ids.last()) { 1nat } else { 0nat }
    }
}

/// Hub hits, hub misses, normal hits and normal misses of a cold LRU simulator of `capacity`
/// accessing `ids` in turn; a hub is an ID up to `hub_count`.
pub open spec fn hub_tally(capacity: nat, ids: Seq<u64>, hub_count: u64) -> (nat, nat, nat, nat)
    decreases ids.len(),
{
    if ids.len() == 0 {
        (0, 0, 0, 0)
    } else {
        let t = hub_tally(capacity, ids.drop_last(), hub_count);
        let hit = lru_run(Seq::empty(), capacity, ids.drop_last()).contains(ids.last());
        let hub = ids.last() <= hub_count;
        if hit && hub {
            (t.0 + 1, t.1, t.2, t.3)
        } else if hub {
            (t.0, t.1 + 1, t.2, t.3)
        } else if hit {
            (t.0, t.1, t.2 + 1, t.3)
        } else {
            (t.0, t.1, t.2, t.3 + 1)
        }
    }
}

pub proof fn lemma_lru_hits_bound(entries: Seq<u64>, capacity: nat, ids: Seq<u64>)
    ensures
        lru_hits(entries, capacity, ids) <= ids.len(),
    decreases ids.len(),
{
    if ids.len() > 0 {
        lemma_lru_hits_bound(entries, capacity, ids.drop_last());
    }
}

/// Hit and miss counts of one cold LRU run over a hub-heavy workload.
#[derive(Debug, Clone, Copy, PartialEq, Eq)]
pub struct HubCacheStats {
    pub hits: u64,
    pub misses: u64,
    pub hub_hits: u64,
    pub hub_misses: u64,
    pub normal_hits: u64,
    pub normal_misses: u64,
}

/// Runs one read of each edge's target, in edge order, through an empty LRU simulator of
/// `capacity`, counting hits and misses overall, on hubs (IDs up to `hub_count`) and on the
/// other users.
pub fn simulate_hub_cache_run(edges: &[(u64, u64)], capacity: usize, hub_count: u64) -> (result: Result<HubCacheStats, GraphError>)
    ensures
        capacity == 0 <==> result is Err,
        capacity == 0 ==> result == Err::<HubCacheStats, GraphError>(GraphError::ZeroCacheCapacity),
        result matches Ok(s) ==> {
            let t = hub_tally(capacity as nat, targets_of(edges@), hub_count);
            &&& s.hub_hits == t.0
            &&& s.hub_misses == t.1
            &&& s.normal_hits == t.2
            &&& s.normal_misses == t.3
            &&& s.hits == t.0 + t.2
            &&& s.misses == t.1 + t.3
            &&& s.hits + s.misses == edges@.len()
        },
{
    let mut cache = match IdLruSimulator::new(capacity) {
        Ok(c) => c,
        Err(e) => return Err(e),
    };
    let ghost ts = targets_of(edges@);
    let mut stats = HubCacheStats { hits: 0, misses: 0, hub_hits: 0, hub_misses: 0, normal_hits: 0, normal_misses: 0 };
    for i in 0..edges.len()
        invariant
            ts == targets_of(edges@),
            cache.wf(),
            cache.spec_capacity() == capacity,
            cache@ == lru_run(Seq::empty(), capacity as nat, ts.take(i as int)),
            ({
                let t = hub_tally(capacity as nat, ts.take(i as int), hub_count);
                &&& stats.hub_hits == t.0
                &&& stats.hub_misses == t.1
                &&& stats.normal_hits == t.2
                &&& stats.normal_misses == t.3
                &&& stats.hits == t.0 + t.2
                &&& stats.misses == t.1 + t.3
                &&& t.0 + t.1 + t.2 + t.3 == i
            }),
    {
        let target = edges[i].1;
        proof {
            let t = ts.take(i + 1);
            assert(t.drop_last() =~= ts.take(i as int));
            assert(t.last() == target);
        }
        let is_hub = target <= hub_count;
        let cache_hit = cache.access(target);
        if cache_hit {
            stats.hits = stats.hits + 1;
            if is_hub {
                stats.hub_hits = stats.hub_hits + 1;
            } else {
                stats.normal_hits = stats.normal_hits + 1;
            }
        } else {
            stats.misses = stats.misses + 1;
            if is_hub {
                stats.hub_misses = stats.hub_misses + 1;
            } else {
                stats.normal_misses = stats.normal_misses + 1;
            }
        }
    }
    proof {
        assert(ts.take(edges@.len() as int) =~= ts);
    }
    Ok(stats)
}

/// Hit and miss counts of one LRU run, and of its first accesses.
#[derive(Debug, Clone, Copy, PartialEq, Eq)]
pub struct CacheRunStats {
    pub hits: u64,
    pub misses: u64,
    pub startup_hits: u64,
    pub startup_accesses: u64,
}

/// The usage order after preloading: the first `capacity` IDs of `preloaded` (all of them if
/// fewer) accessed in turn by an empty simulator.
pub open spec fn preloaded_order(capacity: nat, preloaded: Seq<u64>) -> Seq<u64> {
    let p = if capacity < preloaded.len() { capacity as int } else { preloaded.len() as int };
    lru_run(Seq::empty(), capacity, preloaded.take(p))
}

/// Preloads an LRU simulator of `capacity` with the first `capacity` IDs of `preloaded`
/// (uncounted), then reads each edge's target in edge order, counting hits and misses overall
/// and within the first `startup_window` reads.
pub fn simulate_cache_run(
    edges: &[(u64, u64)],
    capacity: usize,
    preloaded: &[u64],
    startup_window: usize,
) -> (result: Result<CacheRunStats, GraphError>)
    ensures
        capacity == 0 <==> result is Err,
        capacity == 0 ==> result == Err::<CacheRunStats, GraphError>(GraphError::ZeroCacheCapacity),
        result matches Ok(s) ==> {
            let init = preloaded_order(capacity as nat, preloaded@);
            let ts = targets_of(edges@);
            let k = if startup_window < ts.len() { startup_window as int } else { ts.len() as int };
            &&& s.hits == lru_hits(init, capacity as nat, ts)
            &&& s.hits + s.misses == ts.len()
            &&& s.startup_accesses == k
            &&& s.startup_hits == lru_hits(init, capacity as nat, ts.take(k))
        },
{
    let mut cache = match IdLruSimulator::new(capacity) {
        Ok(c) => c,
        Err(e) => return Err(e),
    };
    let p: usize = if capacity < preloaded.len() { capacity } else { preloaded.len() };
    for j in 0..p
        invariant
            p <= preloaded@.len(),
            cache.wf(),
            cache.spec_capacity() == capacity,
            cache@ == lru_run(Seq::empty(), capacity as nat, preloaded@.take(j as int)),
    {
        proof {
            let t = preloaded@.take(j + 1);
            assert(t.drop_last() =~= preloaded@.take(j as int));
        }
        cache.access(preloaded[j]);
    }
    let ghost init = cache@;
    let ghost ts = targets_of(edges@);
    let mut hits: u64 = 0;
    let mut misses: u64 = 0;
    let mut startup_hits: u64 = 0;
    let mut startup_accesses: u64 = 0;
    for i in 0..edges.len()
        invariant
            init == preloaded_order(capacity as nat, preloaded@),
            ts == targets_of(edges@),
            cache.wf(),
            cache.spec_capacity() == capacity,
            cache@ == lru_run(init, capacity as nat, ts.take(i as int)),
            hits == lru_hits(init, capacity as nat, ts.take(i as int)),
            hits + misses == i,
            startup_accesses == if i < startup_window { i as int } else { startup_window as int },
            startup_hits == lru_hits(init, capacity as nat, ts.take(startup_accesses as int)),
    {
        let target = edges[i].1;
        proof {
            let t = ts.take(i + 1);
            assert(t.drop_last() =~= ts.take(i as int));
            assert(t.last() == target);
            lemma_lru_hits_bound(init, capacity as nat, ts.take(i as int));
        }
        let cache_hit = cache.access(target);
        if cache_hit {
            hits = hits + 1;
        } else {
            misses = misses + 1;
        }
        if i < startup_window {
            startup_accesses = startup_accesses + 1;
            if cache_hit {
                startup_hits = startup_hits + 1;
            }
        }
    }
    proof {
        assert(ts.take(edges@.len() as int) =~= ts);
    }
    Ok(CacheRunStats { hits, misses, startup_hits, startup_accesses })
}

/// Cache hit and miss totals of a run of cached sharded queries, and of its first queries.
#[derive(Debug, Clone, Copy, PartialEq, Eq)]
pub struct RealCacheRunStats {
    pub hits: usize,
    pub misses: usize,
    pub startup_hits: usize,
    pub startup_misses: usize,
}

/// Each cached walk counts one hit or one miss per first hop it reads, and one request for
/// the source's shard besides.
pub proof fn lemma_cached_walk_counts(
    m: ShardMeta,
    caches: Seq<Seq<CacheEntry>>,
    observed: Seq<Map<u64, u64>>,
    ss: usize,
    firsts: Seq<u64>,
    capacity: nat,
    byte_capacity: Option<usize>,
    policy: crate::cache::EvictionPolicy,
)
    ensures
        ({
            let w = m.cached_walk(caches, observed, ss, firsts, capacity, byte_capacity, policy);
            &&& w.hits + w.misses + 1 == w.requests
            &&& w.requests <= firsts.len() + 1
        }),
    decreases firsts.len(),
{
    if firsts.len() > 0 {
        lemma_cached_walk_counts(m, caches, observed, ss, firsts.drop_last(), capacity, byte_capacity, policy);
    }
}

/// The caches, access counts, hits and misses after the cached queries from sources
/// `1..=k`, in turn, on `g`.
pub open spec fn cached_queries(g: ShardedGraph, k: nat) -> (Seq<Seq<CacheEntry>>, Seq<Map<u64, u64>>, nat, nat)
    decreases k,
{
    if k == 0 {
        (g.cache_views(), g.observed(), 0, 0)
    } else {
        let prev = cached_queries(g, (k - 1) as nat);
        let source = k as u64;
        match g.home(source) {
            None => prev,
            Some(h) => {
                let settings = g.cache_list().unwrap()[0];
                let w = g.meta().cached_walk(
                    prev.0,
                    prev.1,
                    h,
                    g.following(source),
                    settings.spec_capacity(),
                    settings.spec_byte_capacity(),
                    settings.spec_policy(),
                );
                (w.caches, w.observed, prev.2 + w.hits, prev.3 + w.misses)
            },
        }
    }
}

/// The first-hop lists of sources `1..=k` together.
pub open spec fn follow_total(g: ShardedGraph, k: nat) -> nat
    decreases k,
{
    if k == 0 {
        0
    } else {
        follow_total(g, (k - 1) as nat) + g.following(k as u64).len()
    }
}

proof fn lemma_cached_queries_bound(g: ShardedGraph, k: nat)
    ensures
        cached_queries(g, k).2 + cached_queries(g, k).3 <= follow_total(g, k),
    decreases k,
{
    if k > 0 {
        lemma_cached_queries_bound(g, (k - 1) as nat);
        let prev = cached_queries(g, (k - 1) as nat);
        let source = k as u64;
        if let Some(h) = g.home(source) {
            let settings = g.cache_list().unwrap()[0];
            lemma_cached_walk_counts(
                g.meta(),
                prev.0,
                prev.1,
                h,
                g.following(source),
                settings.spec_capacity(),
                settings.spec_byte_capacity(),
                settings.spec_policy(),
            );
        }
    }
}

proof fn lemma_follow_total_mono(g: ShardedGraph, j: nat, k: nat)
    requires
        j <= k,
    ensures
        follow_total(g, j) <= follow_total(g, k),
    decreases k,
{
    if j < k {
        lemma_follow_total_mono(g, j, (k - 1) as nat);
    }
}

/// Whether `a` and `b` hold the same users: equal lengths, and each holds every user of the
/// other (for lists that hold each user once, the same users in some order).
pub fn same_users(a: &Vec<u64>, b: &Vec<u64>) -> (result: bool)
    ensures
        result == (a@.len() == b@.len() && (forall|i: int| 0 <= i < a@.len() ==> b@.contains(#[trigger] a@[i]))
            && (forall|j: int| 0 <= j < b@.len() ==> a@.contains(#[trigger] b@[j]))),
{
    if a.len() != b.len() {
        return false;
    }
    for i in 0..a.len()
        invariant
            forall|k: int| 0 <= k < i ==> b@.contains(#[trigger] a@[k]),
    {
        if !vec_contains(b, a[i]) {
            return false;
        }
    }
    for j in 0..b.len()
        invariant
            forall|k: int| 0 <= k < j ==> a@.contains(#[trigger] b@[k]),
    {
        if !vec_contains(a, b[j]) {
            return false;
        }
    }
    true
}

fn vec_contains(v: &Vec<u64>, x: u64) -> (result: bool)
    ensures
        result == v@.contains(x),
{
    for i in 0..v.len()
        invariant
            forall|k: int| 0 <= k < i ==> v@[k] != x,
    {
        if v[i] == x {
            return true;
        }
    }
    false
}

/// The users the cached query from `source` returns when it runs on `g` right after the
/// cached queries from `1..source`.
pub open spec fn cached_answer(g: ShardedGraph, source: u64) -> Seq<u64> {
    let prev = cached_queries(g, (source - 1) as nat);
    match g.home(source) {
        None => Seq::empty(),
        Some(h) => {
            let settings = g.cache_list().unwrap()[0];
            collect_lists(
                g.meta().cached_walk(
                    prev.0,
                    prev.1,
                    h,
                    g.following(source),
                    settings.spec_capacity(),
                    settings.spec_byte_capacity(),
                    settings.spec_policy(),
                ).lists,
                source,
            )
        },
    }
}

/// That cached answer holds the users the reference graph reaches in two hops from `source`.
pub open spec fn cached_answer_matches(g: ShardedGraph, reference: Graph, source: u64) -> bool {
    same_members(cached_answer(g, source), two_hop(reference.adjacency(), source))
}

/// Runs the cached two-hop query from every source `1..=query_count` in turn, checks each
/// answer against `reference`, and totals cache hits and misses, overall and over the first
/// `startup_window / edges_per_user` queries (the queries whose reads fill the first
/// `startup_window` accesses). It stops at the first source whose cached answer differs from
/// the reference's, and fails on the first query when caching is disabled.
pub fn run_real_cached_queries(
    reference: &Graph,
    sharded: &mut ShardedGraph,
    query_count: u64,
    startup_window: u64,
    edges_per_user: u64,
) -> (result: Result<RealCacheRunStats, GraphError>)
    requires
        reference.wf(),
        old(sharded).wf(),
        edges_per_user > 0,
        follow_total(*old(sharded), query_count as nat) <= usize::MAX,
    ensures
        final(sharded).wf(),
        final(sharded).graphs() == old(sharded).graphs(),
        final(sharded).spec_placement() == old(sharded).spec_placement(),
        final(sharded).replicated() == old(sharded).replicated(),
        startup_window % edges_per_user != 0 ==> result == Err::<RealCacheRunStats, GraphError>(GraphError::UnevenStartupWindow)
            && *final(sharded) == *old(sharded),
        startup_window % edges_per_user == 0 && old(sharded).cache_list() is None ==> {
            &&& query_count > 0 ==> result == Err::<RealCacheRunStats, GraphError>(GraphError::CachingDisabled)
            &&& query_count == 0 ==> (result matches Ok(s) && s.hits == 0 && s.misses == 0 && s.startup_hits == 0
                && s.startup_misses == 0)
            &&& final(sharded).cache_list() is None
            &&& final(sharded).observed() == old(sharded).observed()
        },
        startup_window % edges_per_user == 0 && old(sharded).cache_list() is Some ==> ({
            let g = *old(sharded);
            let all = cached_queries(g, query_count as nat);
            let sq = startup_window / edges_per_user;
            let startup = cached_queries(g, if sq < query_count { sq as nat } else { query_count as nat });
            &&& final(sharded).cache_list() is Some
            &&& (result is Ok <==> forall|s: u64| 1 <= s <= query_count ==> #[trigger] cached_answer_matches(g, *reference, s))
            &&& result matches Ok(st) ==> {
                &&& st.hits == all.2
                &&& st.misses == all.3
                &&& st.startup_hits == startup.2
                &&& st.startup_misses == startup.3
                &&& final(sharded).cache_views() == all.0
                &&& final(sharded).observed() == all.1
            }
            &&& result matches Err(e) ==> exists|s: u64| #![trigger cached_answer_matches(g, *reference, s)]
                1 <= s <= query_count && e == GraphError::CachedResultMismatch(s) && !cached_answer_matches(g, *reference, s)
                    && forall|r: u64| 1 <= r < s ==> #[trigger] cached_answer_matches(g, *reference, r)
        }),
{
    if startup_window % edges_per_user != 0 {
        return Err(GraphError::UnevenStartupWindow);
    }
    let startup_queries = startup_window / edges_per_user;
    let ghost g0 = *sharded;
    let mut hits: usize = 0;
    let mut misses: usize = 0;
    let mut startup_hits: usize = 0;
    let mut startup_misses: usize = 0;
    let mut done: u64 = 0;
    while done < query_count
        invariant
            reference.wf(),
            g0 == *old(sharded),
            edges_per_user > 0,
            startup_window % edges_per_user == 0,
            startup_queries == startup_window / edges_per_user,
            g0.wf(),
            follow_total(g0, query_count as nat) <= usize::MAX,
            done <= query_count,
            sharded.wf(),
            sharded.graphs() == g0.graphs(),
            sharded.spec_placement() == g0.spec_placement(),
            sharded.replicated() == g0.replicated(),
            g0.cache_list() is None ==> done == 0 && *sharded == g0 && hits == 0 && misses == 0 && startup_hits == 0
                && startup_misses == 0,
            g0.cache_list() is Some ==> {
                &&& sharded.cache_list() is Some
                &&& sharded.cache_list().unwrap()[0].same_settings(&g0.cache_list().unwrap()[0])
                &&& sharded.cache_views() == cached_queries(g0, done as nat).0
                &&& sharded.observed() == cached_queries(g0, done as nat).1
                &&& hits == cached_queries(g0, done as nat).2
                &&& misses == cached_queries(g0, done as nat).3
                &&& ({
                    let k = if startup_queries < done { startup_queries as nat } else { done as nat };
                    &&& startup_hits == cached_queries(g0, k).2
                    &&& startup_misses == cached_queries(g0, k).3
                })
                &&& forall|r: u64| 1 <= r <= done ==> #[trigger] cached_answer_matches(g0, *reference, r)
            },
        decreases query_count - done,
    {
        let source = done + 1;
        let expected = reference.get_two_hop_ids(source);
        let ghost cur = *sharded;
        proof {
            assert(cur.meta() == g0.meta());
            assert(cur.home(source) == g0.home(source));
            assert(cur.following(source) == g0.following(source));
            lemma_cached_queries_bound(g0, source as nat);
            lemma_follow_total_mono(g0, source as nat, query_count as nat);
        }
        let cached = match sharded.get_two_hop_with_cache_stats(source) {
            Ok(r) => r,
            Err(e) => return Err(e),
        };
        let answer_ok = same_users(&cached.user_ids, &expected);
        proof {
            assert(cached.user_ids@ == cached_answer(g0, source));
            assert(answer_ok == cached_answer_matches(g0, *reference, source));
        }
        if !answer_ok {
            return Err(GraphError::CachedResultMismatch(source));
        }
        hits = hits + cached.cache_hits;
        misses = misses + cached.cache_misses;
        if source <= startup_queries {
            startup_hits = startup_hits + cached.cache_hits;
            startup_misses = startup_misses + cached.cache_misses;
        }
        done = source;
    }
    Ok(RealCacheRunStats { hits, misses, startup_hits, startup_misses })
}

/// When the shard caches agree with their shards, every replica agrees with its home list and
/// the sharded graph stores the reference graph under a placement that covers it, every
/// cached answer of a run of cached queries holds the reference graph's two-hop users, and
/// the caches keep agreeing: `run_real_cached_queries` then succeeds.
pub proof fn lemma_cached_run_matches_reference(g: ShardedGraph, reference: Graph, k: nat)
    requires
        g.wf(),
        g.cache_list() is Some,
        caches_agree(g.cache_views(), g.graphs()),
        forall|u: u64| #[trigger] g.replicated().contains(u) ==> g.replicas_agree(u),
        g.logical_adjacency() == reference.adjacency(),
        places_all(g.spec_placement(), g.shard_count_spec(), reference.adjacency()),
        k <= u64::MAX,
    ensures
        caches_agree(cached_queries(g, k).0, g.graphs()),
        forall|s: u64| 1 <= s <= k ==> #[trigger] cached_answer_matches(g, reference, s),
    decreases k,
{
    if k > 0 {
        lemma_cached_run_matches_reference(g, reference, (k - 1) as nat);
        let prev = cached_queries(g, (k - 1) as nat);
        let source = k as u64;
        let answer = cached_answer(g, source);
        lemma_sharded_two_hop_matches_reference(g, reference, source);
        if let Some(h) = g.home(source) {
            let settings = g.cache_list().unwrap()[0];
            crate::properties::lemma_sharded_cache_walk(
                g,
                prev.0,
                prev.1,
                h,
                g.following(source),
                settings.spec_capacity(),
                settings.spec_byte_capacity(),
                settings.spec_policy(),
            );
        }
        assert(answer == two_hop(reference.adjacency(), source));
        assert forall|i: int| 0 <= i < answer.len() implies answer.contains(#[trigger] answer[i]) by {}
        assert(cached_answer_matches(g, reference, source));
        assert forall|s: u64| 1 <= s <= k implies #[trigger] cached_answer_matches(g, reference, s) by {
            if s < k {
                assert(1 <= s <= (k - 1) as nat);
            }
        }
    }
}

} // verus!
