use vstd::prelude::*;
use crate::cache::{AdjacencyLruCache, CacheEntry, EvictionPolicy, after_get, after_insert, lookup};
use crate::distributed::{merge_second_hops, strictly_ascending};
use crate::twohop::{collect_lists, in_some_list, lemma_collect_lists};

verus! {

/// Shards the benchmark spreads its caches over.
pub const SHARD_COUNT: usize = 4;
/// Users of the synthetic graph, numbered from 1.
pub const USER_COUNT: u64 = 10_000;
/// The first users, which every query reads twice as often.
pub const HUB_COUNT: u64 = 100;
/// Queries of one run, sources 1 to this.
pub const TOTAL_QUERIES: u64 = 10_000;
/// First hops read by one query.
pub const FIRST_HOPS_PER_QUERY: usize = 8;
/// Targets of every user.
pub const SECOND_HOPS_PER_USER: u64 = 8;

/// Cache hits and misses of one run.
#[derive(Debug)]
pub struct RunStats {
    pub queries: usize,
    pub hits: usize,
    pub misses: usize,
}

impl RunStats {
    /// Every adjacency read of the run: hits and misses.
    pub fn total_accesses(&self) -> (total: usize)
        requires
            self.hits + self.misses <= usize::MAX,
        ensures
            total == self.hits + self.misses,
    {
        self.hits + self.misses
    }
}

/// The label of a policy in reports.
pub open spec fn policy_label(policy: EvictionPolicy) -> Seq<char> {
    match policy {
        EvictionPolicy::Lru => "lru"@,
        EvictionPolicy::Fifo => "fifo"@,
        EvictionPolicy::Lfu => "lfu"@,
    }
}

/// The label of `policy` in reports.
pub fn policy_name(policy: EvictionPolicy) -> (name: &'static str)
    ensures
        name@ == policy_label(policy),
{
    match policy {
        EvictionPolicy::Lru => "lru",
        EvictionPolicy::Fifo => "fifo",
        EvictionPolicy::Lfu => "lfu",
    }
}

/// The shard of a user: its ID modulo the shard count.
pub open spec fn shard_of(user_id: u64) -> int {
    ((user_id as usize) as int) % (SHARD_COUNT as int)
}

/// The shard whose cache holds `user_id`'s list.
pub fn shard_for(user_id: u64) -> (shard: usize)
    ensures
        shard == shard_of(user_id),
        shard < SHARD_COUNT,
{
    #[verifier::truncate] (user_id as usize) % SHARD_COUNT
}

/// Target `offset` (from 1) of `user_id`: `1 + (31 user_id + 17 offset) mod USER_COUNT`, the
/// products and sum wrapping at 2^64.
pub open spec fn target_of(user_id: u64, offset: u64) -> u64 {
    (1 + user_id.wrapping_mul(31).wrapping_add(offset.wrapping_mul(17)) % USER_COUNT) as u64
}

/// The targets of `user_id`, for offsets 1 to `SECOND_HOPS_PER_USER`.
pub open spec fn adjacency_of(user_id: u64) -> Seq<u64> {
    Seq::new(SECOND_HOPS_PER_USER as nat, |i: int| target_of(user_id, (i + 1) as u64))
}

/// The targets of `user_id`.
pub fn adjacency_for(user_id: u64) -> (targets: Vec<u64>)
    ensures
        targets@ == adjacency_of(user_id),
{
    let mut targets: Vec<u64> = Vec::new();
    for offset in 1..SECOND_HOPS_PER_USER + 1
        invariant
            targets@ == adjacency_of(user_id).take(offset - 1),
    {
        targets.push(1 + (user_id.wrapping_mul(31).wrapping_add(offset.wrapping_mul(17))) % USER_COUNT);
        proof {
            assert(adjacency_of(user_id).take(offset as int) =~= adjacency_of(user_id).take(offset - 1).push(
                target_of(user_id, offset),
            ));
        }
    }
    proof {
        assert(adjacency_of(user_id).take(SECOND_HOPS_PER_USER as int) =~= adjacency_of(user_id));
    }
    targets
}

/// Whether the first hops of `source` can be computed without overflow.
pub open spec fn source_in_range(source: u64) -> bool {
    &&& 1 <= source
    &&& source * 97 + 5 * 7_919 <= u64::MAX
}

/// The first hops of `source`: two hubs, then six other users.
pub open spec fn first_hops_of(source: u64) -> Seq<u64> {
    seq![(1 + (source - 1) % HUB_COUNT as int) as u64, (1 + (source + 36) % HUB_COUNT as int) as u64]
        + Seq::new(6, |o: int| (HUB_COUNT + 1 + (source * 97 + o * 7_919) % (USER_COUNT - HUB_COUNT) as int) as u64)
}

/// The users a query from `source` reads first.
pub fn first_hops_for(source: u64) -> (first_hops: Vec<u64>)
    requires
        source_in_range(source),
    ensures
        first_hops@ == first_hops_of(source),
{
    let normal_user_count = USER_COUNT - HUB_COUNT;
    let mut first_hops: Vec<u64> = Vec::new();
    first_hops.push(1 + ((source - 1) % HUB_COUNT));
    first_hops.push(1 + ((source + 36) % HUB_COUNT));
    let ghost hubs = first_hops@;
    for offset in 0..6u64
        invariant
            source_in_range(source),
            normal_user_count == USER_COUNT - HUB_COUNT,
            hubs.len() == 2,
            first_hops@ == hubs + first_hops_of(source).skip(2).take(offset as int),
    {
        let normal_user = HUB_COUNT + 1 + ((source * 97 + offset * 7_919) % normal_user_count);
        first_hops.push(normal_user);
        proof {
            assert(first_hops_of(source).skip(2).take(offset + 1) =~= first_hops_of(source).skip(2).take(offset as int).push(
                normal_user,
            ));
        }
    }
    proof {
        assert(hubs + first_hops_of(source).skip(2).take(6) =~= first_hops_of(source));
    }
    first_hops
}

/// The users some list of `lists` holds.
pub open spec fn reached(lists: Seq<Seq<u64>>) -> Set<u64> {
    Set::new(|x: u64| in_some_list(lists, x))
}

/// The adjacency lists of `first_hops`.
pub open spec fn lists_of(first_hops: Seq<u64>) -> Seq<Seq<u64>> {
    first_hops.map_values(|f: u64| adjacency_of(f))
}

fn holds_zero(lists: &Vec<Vec<u64>>) -> (result: bool)
    ensures
        result == in_some_list(lists@.map_values(|l: Vec<u64>| l@), 0),
{
    let ghost views = lists@.map_values(|l: Vec<u64>| l@);
    for i in 0..lists.len()
        invariant
            views == lists@.map_values(|l: Vec<u64>| l@),
            forall|k: int| 0 <= k < i ==> !(#[trigger] views[k]).contains(0),
    {
        if crate::graph::contains_id(lists[i].as_slice(), 0) {
            proof {
                assert(views[i as int].contains(0));
            }
            return true;
        }
    }
    false
}

/// Every user some list of `lists` holds, each once, ascending.
fn sorted_union(lists: &Vec<Vec<u64>>) -> (ids: Vec<u64>)
    ensures
        strictly_ascending(ids@),
        ids@.to_set() == reached(lists@.map_values(|l: Vec<u64>| l@)),
{
    let ghost views = lists@.map_values(|l: Vec<u64>| l@);
    let others = merge_second_hops(lists, 0);
    proof {
        lemma_collect_lists(views, 0);
        assert(!others@.contains(0)) by {
            if others@.contains(0) {
                assert(others@.to_set().contains(0));
            }
        }
    }
    if holds_zero(lists) {
        let mut ids: Vec<u64> = Vec::new();
        ids.push(0);
        let mut i: usize = 0;
        while i < others.len()
            invariant
                i <= others@.len(),
                ids@ == seq![0u64] + others@.take(i as int),
            decreases others@.len() - i,
        {
            ids.push(others[i]);
            proof {
                assert(others@.take(i + 1) =~= others@.take(i as int).push(others@[i as int]));
            }
            i = i + 1;
        }
        proof {
            assert(others@.take(others@.len() as int) =~= others@);
            assert forall|a: int, b: int| 0 <= a < b < ids@.len() implies ids@[a] < ids@[b] by {
                if a == 0 {
                    assert(ids@[b] == others@[b - 1]);
                    assert(others@[b - 1] != 0);
                } else {
                    assert(ids@[a] == others@[a - 1]);
                    assert(ids@[b] == others@[b - 1]);
                }
            }
            assert forall|x: u64| ids@.to_set().contains(x) <==> reached(views).contains(x) by {
                if ids@.contains(x) && x != 0 {
                    let k = choose|k: int| 0 <= k < ids@.len() && ids@[k] == x;
                    assert(others@[k - 1] == x);
                    assert(others@.to_set().contains(x));
                }
                if x != 0 && reached(views).contains(x) {
                    assert(collect_lists(views, 0).contains(x));
                    assert(others@.to_set().contains(x));
                    let k = choose|k: int| 0 <= k < others@.len() && others@[k] == x;
                    assert(ids@[k + 1] == x);
                }
                if x == 0 {
                    assert(ids@[0] == 0);
                }
            }
            assert(ids@.to_set() =~= reached(views));
        }
        ids
    } else {
        proof {
            assert(others@.to_set() =~= reached(views));
        }
        others
    }
}

/// Every user reached in two hops from `source`, ascending, read without a cache.
pub fn uncached_two_hop(source: u64) -> (ids: Vec<u64>)
    requires
        source_in_range(source),
    ensures
        strictly_ascending(ids@),
        ids@.to_set() == reached(lists_of(first_hops_of(source))),
{
    let first_hops = first_hops_for(source);
    let ghost hops = first_hops@;
    let mut lists: Vec<Vec<u64>> = Vec::new();
    for i in 0..first_hops.len()
        invariant
            first_hops@ == hops,
            lists@.len() == i,
            forall|k: int| 0 <= k < i ==> (#[trigger] lists@[k])@ == adjacency_of(hops[k]),
    {
        let list = adjacency_for(first_hops[i]);
        lists.push(list);
    }
    proof {
        assert(lists@.map_values(|l: Vec<u64>| l@) =~= lists_of(hops));
    }
    sorted_union(&lists)
}

} // verus!

verus! {

/// The caches and counters of a cached query after reading some first hops.
pub struct CachedReads {
    pub caches: Seq<Seq<CacheEntry>>,
    pub lists: Seq<Seq<u64>>,
    pub hits: nat,
    pub misses: nat,
}

/// Reads the lists of `first_hops` in turn, each through the cache of its shard: a cached
/// list is used as it is (a hit); otherwise the user's targets are computed and inserted (a
/// miss).
pub open spec fn cached_reads(
    caches: Seq<Seq<CacheEntry>>,
    capacity: nat,
    byte_capacity: Option<usize>,
    policy: EvictionPolicy,
    first_hops: Seq<u64>,
) -> CachedReads
    decreases first_hops.len(),
{
    if first_hops.len() == 0 {
        CachedReads { caches, lists: Seq::empty(), hits: 0, misses: 0 }
    } else {
        let r = cached_reads(caches, capacity, byte_capacity, policy, first_hops.drop_last());
        let f = first_hops.last();
        let s = shard_of(f);
        match lookup(r.caches[s], f) {
            Some(list) => CachedReads {
                caches: r.caches.update(s, after_get(r.caches[s], policy, f)),
                lists: r.lists.push(list),
                hits: r.hits + 1,
                misses: r.misses,
            },
            None => CachedReads {
                caches: r.caches.update(s, after_insert(r.caches[s], capacity, byte_capacity, policy, f, adjacency_of(f))),
                lists: r.lists.push(adjacency_of(f)),
                hits: r.hits,
                misses: r.misses + 1,
            },
        }
    }
}

/// One cache per shard, all well formed and alike.
pub open spec fn caches_ready(caches: Seq<AdjacencyLruCache>) -> bool {
    &&& caches.len() == SHARD_COUNT
    &&& forall|i: int| 0 <= i < caches.len() ==> (#[trigger] caches[i]).wf() && caches[i].same_settings(&caches[0])
}

pub open spec fn cache_views(caches: Seq<AdjacencyLruCache>) -> Seq<Seq<CacheEntry>> {
    caches.map_values(|c: AdjacencyLruCache| c@)
}

/// The two-hop query from `source` through the shard caches: the users reached, ascending,
/// with the number of cache hits and misses.
pub fn cached_two_hop(source: u64, caches: &mut Vec<AdjacencyLruCache>) -> (result: (Vec<u64>, usize, usize))
    requires
        source_in_range(source),
        caches_ready(old(caches)@),
    ensures
        caches_ready(final(caches)@),
        final(caches)@[0].same_settings(&old(caches)@[0]),
        ({
            let r = cached_reads(
                cache_views(old(caches)@),
                old(caches)@[0].spec_capacity(),
                old(caches)@[0].spec_byte_capacity(),
                old(caches)@[0].spec_policy(),
                first_hops_of(source),
            );
            &&& cache_views(final(caches)@) == r.caches
            &&& strictly_ascending(result.0@)
            &&& result.0@.to_set() == reached(r.lists)
            &&& result.1 == r.hits
            &&& result.2 == r.misses
        }),
{
    let ghost settings = caches@[0];
    let ghost start = cache_views(caches@);
    let first_hops = first_hops_for(source);
    let ghost hops = first_hops@;
    let mut lists: Vec<Vec<u64>> = Vec::new();
    let mut hits: usize = 0;
    let mut misses: usize = 0;
    proof {
        assert(hops.take(0) =~= Seq::<u64>::empty());
    }
    for i in 0..first_hops.len()
        invariant
            first_hops@ == hops,
            hops.len() == FIRST_HOPS_PER_QUERY,
            caches_ready(caches@),
            caches@[0].same_settings(&settings),
            ({
                let r = cached_reads(start, settings.spec_capacity(), settings.spec_byte_capacity(), settings.spec_policy(), hops.take(i as int));
                &&& cache_views(caches@) == r.caches
                &&& lists@.map_values(|l: Vec<u64>| l@) == r.lists
                &&& hits == r.hits
                &&& misses == r.misses
                &&& hits + misses == i
            }),
    {
        let f = first_hops[i];
        let s = shard_for(f);
        let ghost before = caches@;
        let ghost before_lists = lists@;
        let ghost prev = cached_reads(start, settings.spec_capacity(), settings.spec_byte_capacity(), settings.spec_policy(), hops.take(i as int));
        proof {
            assert(hops.take(i + 1).drop_last() =~= hops.take(i as int));
            assert(hops.take(i + 1).last() == f);
            assert(cache_views(before)[s as int] == before[s as int]@);
        }
        let list = match caches[s].get_shared(f) {
            Some(cached) => {
                hits = hits + 1;
                cached
            },
            None => {
                misses = misses + 1;
                let targets = adjacency_for(f);
                caches[s].insert_shared(f, targets)
            },
        };
        lists.push(list);
        proof {
            assert forall|k: int| 0 <= k < caches@.len() implies (#[trigger] caches@[k]).wf() && caches@[k].same_settings(&caches@[0]) by {
                if k != s {
                    assert(caches@[k] == before[k]);
                }
                if s != 0 {
                    assert(caches@[0] == before[0]);
                }
            }
            assert(cache_views(caches@) =~= cached_reads(start, settings.spec_capacity(), settings.spec_byte_capacity(), settings.spec_policy(), hops.take(i + 1)).caches) by {
                assert forall|k: int| 0 <= k < caches@.len() implies cache_views(caches@)[k] == cached_reads(start, settings.spec_capacity(), settings.spec_byte_capacity(), settings.spec_policy(), hops.take(i + 1)).caches[k] by {
                    if k != s {
                        assert(caches@[k] == before[k]);
                    }
                }
            }
            assert(lists@.map_values(|l: Vec<u64>| l@) =~= before_lists.map_values(|l: Vec<u64>| l@).push(list@));
        }
    }
    proof {
        assert(hops.take(hops.len() as int) =~= hops);
    }
    let ids = sorted_union(&lists);
    (ids, hits, misses)
}

} // verus!

verus! {

/// Every user's targets, as a map.
pub open spec fn target_map() -> Map<u64, Seq<u64>> {
    Map::new(|u: u64| true, |u: u64| adjacency_of(u))
}

/// Every cached list is the targets of its user.
pub open spec fn caches_hold_targets(caches: Seq<Seq<CacheEntry>>) -> bool {
    forall|i: int| 0 <= i < caches.len() ==> crate::properties::cache_agrees(#[trigger] caches[i], target_map())
}

/// Reading through caches that hold users' targets reads exactly those targets, counts each
/// first hop once as a hit or a miss, and leaves the caches holding targets.
pub proof fn lemma_cached_reads_are_targets(
    caches: Seq<Seq<CacheEntry>>,
    capacity: nat,
    byte_capacity: Option<usize>,
    policy: EvictionPolicy,
    first_hops: Seq<u64>,
)
    requires
        caches.len() == SHARD_COUNT,
        caches_hold_targets(caches),
    ensures
        ({
            let r = cached_reads(caches, capacity, byte_capacity, policy, first_hops);
            &&& r.lists == lists_of(first_hops)
            &&& r.caches.len() == SHARD_COUNT
            &&& caches_hold_targets(r.caches)
            &&& r.hits + r.misses == first_hops.len()
        }),
    decreases first_hops.len(),
{
    if first_hops.len() > 0 {
        let init = first_hops.drop_last();
        lemma_cached_reads_are_targets(caches, capacity, byte_capacity, policy, init);
        let r = cached_reads(caches, capacity, byte_capacity, policy, init);
        let f = first_hops.last();
        let s = shard_of(f);
        let entries = r.caches[s];
        assert(crate::properties::cache_agrees(entries, target_map()));
        crate::properties::lemma_lookup_agrees(entries, target_map(), f);
        crate::properties::lemma_after_get_agrees(entries, target_map(), policy, f);
        crate::properties::lemma_after_insert_agrees(entries, target_map(), capacity, byte_capacity, policy, f);
        assert(crate::graph::list_of(target_map(), f) == adjacency_of(f));
        let next = cached_reads(caches, capacity, byte_capacity, policy, first_hops);
        assert forall|i: int| 0 <= i < next.caches.len() implies crate::properties::cache_agrees(#[trigger] next.caches[i], target_map()) by {
            if i != s {
                assert(next.caches[i] == r.caches[i]);
            }
        }
        assert(lists_of(first_hops) =~= lists_of(init).push(adjacency_of(f)));
    } else {
        assert(lists_of(first_hops) =~= Seq::<Seq<u64>>::empty());
    }
}

/// A cached two-hop query through caches that hold users' targets reaches the users the
/// uncached query reaches.
pub proof fn lemma_cached_query_matches(
    caches: Seq<Seq<CacheEntry>>,
    capacity: nat,
    byte_capacity: Option<usize>,
    policy: EvictionPolicy,
    source: u64,
)
    requires
        caches.len() == SHARD_COUNT,
        caches_hold_targets(caches),
    ensures
        reached(cached_reads(caches, capacity, byte_capacity, policy, first_hops_of(source)).lists) == reached(
            lists_of(first_hops_of(source)),
        ),
{
    lemma_cached_reads_are_targets(caches, capacity, byte_capacity, policy, first_hops_of(source));
}

} // verus!

verus! {

/// The caches after inserting the targets of users 1 to `k`, each into its shard's cache.
pub open spec fn warmed(
    caches: Seq<Seq<CacheEntry>>,
    capacity: nat,
    byte_capacity: Option<usize>,
    policy: EvictionPolicy,
    k: nat,
) -> Seq<Seq<CacheEntry>>
    decreases k,
{
    if k == 0 {
        caches
    } else {
        let c = warmed(caches, capacity, byte_capacity, policy, (k - 1) as nat);
        let u = k as u64;
        c.update(shard_of(u), after_insert(c[shard_of(u)], capacity, byte_capacity, policy, u, adjacency_of(u)))
    }
}

/// The caches and counters after the queries from sources 1 to `n`, in turn.
pub struct RunTotals {
    pub caches: Seq<Seq<CacheEntry>>,
    pub hits: nat,
    pub misses: nat,
}

pub open spec fn run_totals(
    caches: Seq<Seq<CacheEntry>>,
    capacity: nat,
    byte_capacity: Option<usize>,
    policy: EvictionPolicy,
    n: nat,
) -> RunTotals
    decreases n,
{
    if n == 0 {
        RunTotals { caches, hits: 0, misses: 0 }
    } else {
        let t = run_totals(caches, capacity, byte_capacity, policy, (n - 1) as nat);
        let r = cached_reads(t.caches, capacity, byte_capacity, policy, first_hops_of(n as u64));
        RunTotals { caches: r.caches, hits: t.hits + r.hits, misses: t.misses + r.misses }
    }
}

/// The caches a run starts from: empty, then holding the hubs' targets when `warm`.
pub open spec fn start_caches(capacity: nat, policy: EvictionPolicy, warm: bool) -> Seq<Seq<CacheEntry>> {
    let empty = Seq::new(SHARD_COUNT as nat, |i: int| Seq::<CacheEntry>::empty());
    if warm {
        warmed(empty, capacity, None, policy, HUB_COUNT as nat)
    } else {
        empty
    }
}

/// One empty cache per shard, each holding `capacity_per_shard` lists under `policy`.
pub fn build_caches(capacity_per_shard: usize, policy: EvictionPolicy) -> (result: Result<Vec<AdjacencyLruCache>, String>)
    ensures
        capacity_per_shard == 0 ==> (result matches Err(e) && e@ == "Cache capacity must be greater than zero"@),
        capacity_per_shard > 0 ==> (result matches Ok(caches) && {
            &&& caches_ready(caches@)
            &&& cache_views(caches@) == start_caches(capacity_per_shard as nat, policy, false)
            &&& caches@[0].spec_capacity() == capacity_per_shard
            &&& caches@[0].spec_byte_capacity() is None
            &&& caches@[0].spec_policy() == policy
        }),
{
    let mut caches: Vec<AdjacencyLruCache> = Vec::new();
    for i in 0..SHARD_COUNT
        invariant
            capacity_per_shard > 0 || i == 0,
            caches@.len() == i,
            forall|k: int| 0 <= k < i ==> {
                &&& (#[trigger] caches@[k]).wf()
                &&& caches@[k]@ == Seq::<CacheEntry>::empty()
                &&& caches@[k].spec_capacity() == capacity_per_shard
                &&& caches@[k].spec_byte_capacity() is None
                &&& caches@[k].spec_policy() == policy
            },
    {
        match AdjacencyLruCache::new_with_policy(capacity_per_shard, policy) {
            Ok(cache) => caches.push(cache),
            Err(_) => {
                return Err(String::from_str("Cache capacity must be greater than zero"));
            },
        }
    }
    proof {
        assert(cache_views(caches@) =~= start_caches(capacity_per_shard as nat, policy, false));
    }
    Ok(caches)
}

/// Inserts the targets of every hub into its shard's cache.
pub fn warm_hubs(caches: &mut Vec<AdjacencyLruCache>)
    requires
        caches_ready(old(caches)@),
    ensures
        caches_ready(final(caches)@),
        final(caches)@[0].same_settings(&old(caches)@[0]),
        cache_views(final(caches)@) == warmed(
            cache_views(old(caches)@),
            old(caches)@[0].spec_capacity(),
            old(caches)@[0].spec_byte_capacity(),
            old(caches)@[0].spec_policy(),
            HUB_COUNT as nat,
        ),
{
    let ghost settings = caches@[0];
    let ghost start = cache_views(caches@);
    for user_id in 1..HUB_COUNT + 1
        invariant
            caches_ready(caches@),
            caches@[0].same_settings(&settings),
            cache_views(caches@) == warmed(start, settings.spec_capacity(), settings.spec_byte_capacity(), settings.spec_policy(), (user_id - 1) as nat),
    {
        let s = shard_for(user_id);
        let ghost before = caches@;
        let targets = adjacency_for(user_id);
        caches[s].insert(user_id, targets);
        proof {
            assert(cache_views(before)[s as int] == before[s as int]@);
            assert forall|k: int| 0 <= k < caches@.len() implies (#[trigger] caches@[k]).wf() && caches@[k].same_settings(&caches@[0]) by {
                if k != s {
                    assert(caches@[k] == before[k]);
                }
                if s != 0 {
                    assert(caches@[0] == before[0]);
                }
            }
            let next = warmed(start, settings.spec_capacity(), settings.spec_byte_capacity(), settings.spec_policy(), user_id as nat);
            assert forall|k: int| 0 <= k < caches@.len() implies cache_views(caches@)[k] == next[k] by {
                if k != s {
                    assert(caches@[k] == before[k]);
                }
            }
            assert(cache_views(caches@) =~= next);
        }
    }
}

/// Whether `a` and `b` hold the same IDs in the same order.
fn same_ids(a: &Vec<u64>, b: &Vec<u64>) -> (result: bool)
    ensures
        result == (a@ == b@),
{
    if a.len() != b.len() {
        return false;
    }
    for i in 0..a.len()
        invariant
            a@.len() == b@.len(),
            forall|k: int| 0 <= k < i ==> a@[k] == b@[k],
    {
        if a[i] != b[i] {
            return false;
        }
    }
    proof {
        assert(a@ =~= b@);
    }
    true
}

} // verus!

verus! {

proof fn lemma_warmed_hold_targets(
    caches: Seq<Seq<CacheEntry>>,
    capacity: nat,
    byte_capacity: Option<usize>,
    policy: EvictionPolicy,
    k: nat,
)
    requires
        caches.len() == SHARD_COUNT,
        caches_hold_targets(caches),
    ensures
        warmed(caches, capacity, byte_capacity, policy, k).len() == SHARD_COUNT,
        caches_hold_targets(warmed(caches, capacity, byte_capacity, policy, k)),
    decreases k,
{
    if k > 0 {
        lemma_warmed_hold_targets(caches, capacity, byte_capacity, policy, (k - 1) as nat);
        let c = warmed(caches, capacity, byte_capacity, policy, (k - 1) as nat);
        let u = k as u64;
        let s = shard_of(u);
        assert(crate::properties::cache_agrees(c[s], target_map()));
        crate::properties::lemma_after_insert_agrees(c[s], target_map(), capacity, byte_capacity, policy, u);
        assert(crate::graph::list_of(target_map(), u) == adjacency_of(u));
        let next = warmed(caches, capacity, byte_capacity, policy, k);
        assert forall|i: int| 0 <= i < next.len() implies crate::properties::cache_agrees(#[trigger] next[i], target_map()) by {
            if i != s {
                assert(next[i] == c[i]);
            }
        }
    }
}

proof fn lemma_start_holds_targets(capacity: nat, policy: EvictionPolicy, warm: bool)
    ensures
        start_caches(capacity, policy, warm).len() == SHARD_COUNT,
        caches_hold_targets(start_caches(capacity, policy, warm)),
{
    let empty = Seq::new(SHARD_COUNT as nat, |i: int| Seq::<CacheEntry>::empty());
    assert(caches_hold_targets(empty));
    lemma_warmed_hold_targets(empty, capacity, None, policy, HUB_COUNT as nat);
}

fn mismatch_message(policy: EvictionPolicy, source: u64) -> (message: String)
    ensures
        message@ == policy_label(policy) + " returned incorrect two-hop results for source "@ + crate::text::decimal(source as nat),
{
    let mut message = String::new();
    crate::text::push_str(&mut message, policy_name(policy));
    crate::text::push_str(&mut message, " returned incorrect two-hop results for source ");
    crate::text::push_decimal(&mut message, source);
    message
}

fn count_message(expected: usize, measured: usize) -> (message: String)
    ensures
        message@ == "Expected "@ + crate::text::decimal(expected as nat) + " accesses, measured "@ + crate::text::decimal(
            measured as nat,
        ),
{
    let mut message = String::from_str("Expected ");
    crate::text::push_decimal(&mut message, expected as u64);
    crate::text::push_str(&mut message, " accesses, measured ");
    crate::text::push_decimal(&mut message, measured as u64);
    message
}

/// Runs every query through fresh shard caches (warmed with the hubs when `warmed`),
/// checking each result against the uncached query, and counts the cache hits and misses.
pub fn run_queries(capacity_per_shard: usize, policy: EvictionPolicy, warmed: bool) -> (result: Result<RunStats, String>)
    ensures
        capacity_per_shard == 0 ==> (result matches Err(e) && e@ == "Cache capacity must be greater than zero"@),
        capacity_per_shard > 0 ==> (result matches Ok(stats) && {
            let t = run_totals(
                start_caches(capacity_per_shard as nat, policy, warmed),
                capacity_per_shard as nat,
                None,
                policy,
                TOTAL_QUERIES as nat,
            );
            &&& stats.queries == TOTAL_QUERIES
            &&& stats.hits == t.hits
            &&& stats.misses == t.misses
            &&& stats.hits + stats.misses == TOTAL_QUERIES * FIRST_HOPS_PER_QUERY
        }),
{
    let mut caches = build_caches(capacity_per_shard, policy)?;
    let ghost capacity = capacity_per_shard as nat;
    if warmed {
        warm_hubs(&mut caches);
    }
    let ghost start = start_caches(capacity, policy, warmed);
    proof {
        lemma_start_holds_targets(capacity, policy, warmed);
    }
    let mut total_hits: usize = 0;
    let mut total_misses: usize = 0;
    for source in 1..TOTAL_QUERIES + 1
        invariant
            capacity == capacity_per_shard,
            capacity_per_shard > 0,
            caches_ready(caches@),
            caches@[0].spec_capacity() == capacity_per_shard,
            caches@[0].spec_byte_capacity() is None,
            caches@[0].spec_policy() == policy,
            start == start_caches(capacity, policy, warmed),
            ({
                let t = run_totals(start, capacity, None, policy, (source - 1) as nat);
                &&& cache_views(caches@) == t.caches
                &&& total_hits == t.hits
                &&& total_misses == t.misses
                &&& caches_hold_targets(t.caches)
                &&& t.caches.len() == SHARD_COUNT
            }),
            total_hits + total_misses == (source - 1) * FIRST_HOPS_PER_QUERY,
    {
        let ghost t = run_totals(start, capacity, None, policy, (source - 1) as nat);
        let expected = uncached_two_hop(source);
        let (actual, hits, misses) = cached_two_hop(source, &mut caches);
        proof {
            lemma_cached_reads_are_targets(t.caches, capacity, None, policy, first_hops_of(source));
            crate::distributed::lemma_ascending_unique(actual@, expected@);
        }
        if !same_ids(&actual, &expected) {
            return Err(mismatch_message(policy, source));
        }
        total_hits = total_hits + hits;
        total_misses = total_misses + misses;
    }
    let expected_accesses = TOTAL_QUERIES as usize * FIRST_HOPS_PER_QUERY;
    if total_hits + total_misses != expected_accesses {
        return Err(count_message(expected_accesses, total_hits + total_misses));
    }
    Ok(RunStats { queries: TOTAL_QUERIES as usize, hits: total_hits, misses: total_misses })
}

} // verus!
