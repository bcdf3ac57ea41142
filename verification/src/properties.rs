use vstd::prelude::*;
use crate::graph::{Graph, list_of, two_hop};
use crate::sharded::{ShardedGraph, Placement, placement_shard, caches_invalidated};
use crate::stats::{placed_only, placed_lists, lemma_same_users, lemma_batched_matches_direct, lemma_busy_shards_bounded};
use crate::stats::{first_shards, reached_shards, second_shards, first_cross, reached_cross, second_cross, placed_count, sat};

verus! {

/// The placement gives every user of `adjacency`, and every user in its lists, a shard.
pub open spec fn places_all(p: Placement, n: nat, adjacency: Map<u64, Seq<u64>>) -> bool {
    forall|s: u64| #[trigger] adjacency.contains_key(s) ==> {
        &&& placement_shard(p, n, s) is Some
        &&& forall|i: int| 0 <= i < adjacency[s].len() ==> placement_shard(p, n, #[trigger] adjacency[s][i]) is Some
    }
}

proof fn lemma_placed_only_all(p: Placement, n: nat, list: Seq<u64>)
    requires
        forall|i: int| 0 <= i < list.len() ==> placement_shard(p, n, #[trigger] list[i]) is Some,
    ensures
        placed_only(p, n, list) == list,
    decreases list.len(),
{
    if list.len() > 0 {
        let rest = list.drop_last();
        assert forall|i: int| 0 <= i < rest.len() implies placement_shard(p, n, #[trigger] rest[i]) is Some by {
            assert(rest[i] == list[i]);
        }
        lemma_placed_only_all(p, n, rest);
        assert(placement_shard(p, n, list[list.len() - 1]) is Some);
        assert(rest.push(list.last()) =~= list);
    }
}

proof fn lemma_placed_lists_all(p: Placement, n: nat, adjacency: Map<u64, Seq<u64>>, firsts: Seq<u64>)
    requires
        places_all(p, n, adjacency),
        forall|i: int| 0 <= i < firsts.len() ==> placement_shard(p, n, #[trigger] firsts[i]) is Some,
    ensures
        placed_lists(p, n, adjacency, firsts) == firsts.map_values(|f: u64| list_of(adjacency, f)),
    decreases firsts.len(),
{
    if firsts.len() > 0 {
        let rest = firsts.drop_last();
        let f = firsts.last();
        assert forall|i: int| 0 <= i < rest.len() implies placement_shard(p, n, #[trigger] rest[i]) is Some by {
            assert(rest[i] == firsts[i]);
        }
        lemma_placed_lists_all(p, n, adjacency, rest);
        assert(placement_shard(p, n, firsts[firsts.len() - 1]) is Some);
        if adjacency.contains_key(f) {
            assert forall|i: int| 0 <= i < list_of(adjacency, f).len()
                implies placement_shard(p, n, #[trigger] list_of(adjacency, f)[i]) is Some by {
                assert(adjacency[f][i] == list_of(adjacency, f)[i]);
            }
        }
        lemma_placed_only_all(p, n, list_of(adjacency, f));
        assert(firsts.map_values(|f: u64| list_of(adjacency, f)) =~= rest.map_values(|f: u64| list_of(adjacency, f)).push(
            list_of(adjacency, f),
        ));
    }
}

/// Once a sharded graph stores the edges of a reference graph, under a placement that gives
/// every user of those edges a shard, its two-hop query returns exactly the users, in the
/// same order, that the reference graph's two-hop query returns.
pub proof fn lemma_sharded_two_hop_matches_reference(graph: ShardedGraph, reference: Graph, source: u64)
    requires
        graph.wf(),
        graph.logical_adjacency() == reference.adjacency(),
        places_all(graph.spec_placement(), graph.shard_count_spec(), reference.adjacency()),
    ensures
        graph.direct_stats(source).user_ids == two_hop(reference.adjacency(), source),
{
    let adjacency = reference.adjacency();
    let p = graph.spec_placement();
    let n = graph.shard_count_spec();
    graph.lemma_logical_list(source);
    match graph.home(source) {
        None => {
            assert(!adjacency.contains_key(source));
            assert(list_of(adjacency, source).map_values(|f: u64| list_of(adjacency, f)) =~= Seq::<Seq<u64>>::empty());
        },
        Some(_) => {
            let firsts = list_of(adjacency, source);
            if adjacency.contains_key(source) {
                assert forall|i: int| 0 <= i < firsts.len() implies placement_shard(p, n, #[trigger] firsts[i]) is Some by {
                    assert(adjacency[source][i] == firsts[i]);
                }
            }
            lemma_placed_lists_all(p, n, adjacency, firsts);
        },
    }
}

/// The batched two-hop query finds the same users as the direct one, each once, touches the
/// same shards and counts the same cross-shard hops, with at most as many shard requests.
pub proof fn lemma_batched_matches_direct_query(graph: ShardedGraph, source: u64)
    requires
        graph.wf(),
    ensures
        graph.batched_stats(source).user_ids.to_set() == graph.direct_stats(source).user_ids.to_set(),
        graph.batched_stats(source).user_ids.no_duplicates(),
        graph.direct_stats(source).user_ids.no_duplicates(),
        graph.batched_stats(source).shards_touched == graph.direct_stats(source).shards_touched,
        graph.batched_stats(source).cross_shard_hops == graph.direct_stats(source).cross_shard_hops,
        graph.batched_stats(source).shard_requests <= graph.direct_stats(source).shard_requests,
{
    graph.lemma_wf_placement();
    let p = graph.spec_placement();
    let n = graph.shard_count_spec();
    let adjacency = graph.logical_adjacency();
    let firsts = graph.following(source);
    if graph.home(source) is Some {
        lemma_same_users(p, n, adjacency, firsts, source);
        lemma_batched_matches_direct(p, n, adjacency, firsts);
        lemma_busy_shards_bounded(p, n, firsts);
    } else {
        assert(Seq::<u64>::empty().no_duplicates());
    }
}

} // verus!

verus! {

/// Every cached list is the list `adjacency` holds for its user.
pub open spec fn cache_agrees(entries: Seq<crate::cache::CacheEntry>, adjacency: Map<u64, Seq<u64>>) -> bool {
    forall|i: int| 0 <= i < entries.len() ==> (#[trigger] entries[i]).adjacency == list_of(adjacency, entries[i].user_id)
}

pub(crate) proof fn lemma_lookup_agrees(entries: Seq<crate::cache::CacheEntry>, adjacency: Map<u64, Seq<u64>>, user_id: u64)
    requires
        cache_agrees(entries, adjacency),
    ensures
        crate::cache::lookup(entries, user_id) matches Some(list) ==> list == list_of(adjacency, user_id),
{
    if crate::cache::has_key(entries, user_id) {
        let k = crate::cache::key_position(entries, user_id);
        assert(entries[k].user_id == user_id);
    }
}

pub(crate) proof fn lemma_after_get_agrees(
    entries: Seq<crate::cache::CacheEntry>,
    adjacency: Map<u64, Seq<u64>>,
    policy: crate::cache::EvictionPolicy,
    user_id: u64,
)
    requires
        cache_agrees(entries, adjacency),
    ensures
        cache_agrees(crate::cache::after_get(entries, policy, user_id), adjacency),
{
    let after = crate::cache::after_get(entries, policy, user_id);
    if crate::cache::has_key(entries, user_id) {
        let pos = crate::cache::key_position(entries, user_id);
        assert(entries[pos].user_id == user_id);
        assert forall|i: int| 0 <= i < after.len() implies (#[trigger] after[i]).adjacency == list_of(adjacency, after[i].user_id) by {
            if policy == crate::cache::EvictionPolicy::Fifo {
                if i != pos {
                    assert(after[i] == entries[i]);
                }
            } else if i < after.len() - 1 {
                if i < pos {
                    assert(after[i] == entries[i]);
                } else {
                    assert(after[i] == entries[i + 1]);
                }
            }
        }
    }
}

proof fn lemma_remove_agrees(entries: Seq<crate::cache::CacheEntry>, adjacency: Map<u64, Seq<u64>>, k: int)
    requires
        cache_agrees(entries, adjacency),
        0 <= k < entries.len(),
    ensures
        cache_agrees(entries.remove(k), adjacency),
{
    let after = entries.remove(k);
    assert forall|i: int| 0 <= i < after.len() implies (#[trigger] after[i]).adjacency == list_of(adjacency, after[i].user_id) by {
        if i < k {
            assert(after[i] == entries[i]);
        } else {
            assert(after[i] == entries[i + 1]);
        }
    }
}

proof fn lemma_evict_agrees(
    entries: Seq<crate::cache::CacheEntry>,
    adjacency: Map<u64, Seq<u64>>,
    capacity: nat,
    byte_capacity: Option<usize>,
    need: nat,
    policy: crate::cache::EvictionPolicy,
)
    requires
        cache_agrees(entries, adjacency),
    ensures
        cache_agrees(crate::cache::evict_until_fits(entries, capacity, byte_capacity, need, policy), adjacency),
    decreases entries.len(),
{
    if entries.len() > 0 && (entries.len() >= capacity || crate::cache::over_budget(entries, byte_capacity, need)) {
        crate::cache::lemma_victim_in_range(entries, policy);
        let k = crate::cache::victim(entries, policy);
        lemma_remove_agrees(entries, adjacency, k);
        lemma_evict_agrees(entries.remove(k), adjacency, capacity, byte_capacity, need, policy);
    }
}

pub(crate) proof fn lemma_after_insert_agrees(
    entries: Seq<crate::cache::CacheEntry>,
    adjacency: Map<u64, Seq<u64>>,
    capacity: nat,
    byte_capacity: Option<usize>,
    policy: crate::cache::EvictionPolicy,
    user_id: u64,
)
    requires
        cache_agrees(entries, adjacency),
    ensures
        cache_agrees(
            crate::cache::after_insert(entries, capacity, byte_capacity, policy, user_id, list_of(adjacency, user_id)),
            adjacency,
        ),
{
    let rest = crate::cache::without_key(entries, user_id);
    if crate::cache::has_key(entries, user_id) {
        let k = crate::cache::key_position(entries, user_id);
        lemma_remove_agrees(entries, adjacency, k);
    }
    let need = crate::cache::entry_bytes(list_of(adjacency, user_id).len());
    lemma_evict_agrees(rest, adjacency, capacity, byte_capacity, need, policy);
}

/// Reading first hops through a cache that agrees with the graph reads exactly the graph's
/// lists, and leaves the cache agreeing with the graph.
pub proof fn lemma_cache_walk_reads_graph(
    entries: Seq<crate::cache::CacheEntry>,
    capacity: nat,
    byte_capacity: Option<usize>,
    policy: crate::cache::EvictionPolicy,
    firsts: Seq<u64>,
    adjacency: Map<u64, Seq<u64>>,
)
    requires
        cache_agrees(entries, adjacency),
    ensures
        ({
            let walk = crate::graph::cache_walk(entries, capacity, byte_capacity, policy, firsts, adjacency);
            &&& walk.lists == firsts.map_values(|f: u64| list_of(adjacency, f))
            &&& cache_agrees(walk.entries, adjacency)
            &&& walk.hits + walk.misses == firsts.len()
        }),
    decreases firsts.len(),
{
    if firsts.len() > 0 {
        let init = firsts.drop_last();
        lemma_cache_walk_reads_graph(entries, capacity, byte_capacity, policy, init, adjacency);
        let walk = crate::graph::cache_walk(entries, capacity, byte_capacity, policy, init, adjacency);
        let f = firsts.last();
        lemma_lookup_agrees(walk.entries, adjacency, f);
        lemma_after_get_agrees(walk.entries, adjacency, policy, f);
        lemma_after_insert_agrees(walk.entries, adjacency, capacity, byte_capacity, policy, f);
        assert(firsts.map_values(|f: u64| list_of(adjacency, f)) =~= init.map_values(|f: u64| list_of(adjacency, f)).push(
            list_of(adjacency, f),
        ));
    } else {
        assert(firsts.map_values(|f: u64| list_of(adjacency, f)) =~= Seq::<Seq<u64>>::empty());
    }
}

/// A two-hop query through an adjacency cache that agrees with the graph returns what the
/// uncached query returns, counts each first hop once as a hit or a miss, and leaves the
/// cache agreeing with the graph.
pub proof fn lemma_cached_two_hop_matches(graph: Graph, cache: crate::cache::AdjacencyLruCache, source: u64)
    requires
        graph.wf(),
        cache.wf(),
        cache_agrees(cache@, graph.adjacency()),
    ensures
        ({
            let walk = crate::graph::cache_walk(
                cache@,
                cache.spec_capacity(),
                cache.spec_byte_capacity(),
                cache.spec_policy(),
                graph.following(source),
                graph.adjacency(),
            );
            &&& crate::twohop::collect_lists(walk.lists, source) == two_hop(graph.adjacency(), source)
            &&& walk.hits + walk.misses == graph.following(source).len()
            &&& cache_agrees(walk.entries, graph.adjacency())
        }),
{
    graph.lemma_wf();
    lemma_cache_walk_reads_graph(
        cache@,
        cache.spec_capacity(),
        cache.spec_byte_capacity(),
        cache.spec_policy(),
        graph.following(source),
        graph.adjacency(),
    );
}

} // verus!

verus! {

/// Each shard's cache agrees with that shard's graph.
pub open spec fn caches_agree(caches: Seq<Seq<crate::cache::CacheEntry>>, graphs: Seq<Graph>) -> bool {
    &&& caches.len() == graphs.len()
    &&& forall|i: int| 0 <= i < caches.len() ==> cache_agrees(#[trigger] caches[i], graphs[i].adjacency())
}

proof fn lemma_local_only_placed(g: ShardedGraph, list: Seq<u64>, r: usize)
    requires
        g.wf(),
    ensures
        g.meta().local_only(list, r) == crate::stats::placed_only(g.spec_placement(), g.shard_count_spec(), list),
    decreases list.len(),
{
    g.lemma_wf_placement();
    if list.len() > 0 {
        lemma_local_only_placed(g, list.drop_last(), r);
        let u = list.last();
        if g.replicated().contains(u) {
            assert(g.home(u) is Some);
        }
    }
}

pub(crate) proof fn lemma_sharded_cache_walk(
    g: ShardedGraph,
    caches: Seq<Seq<crate::cache::CacheEntry>>,
    observed: Seq<Map<u64, u64>>,
    ss: usize,
    firsts: Seq<u64>,
    capacity: nat,
    byte_capacity: Option<usize>,
    policy: crate::cache::EvictionPolicy,
)
    requires
        g.wf(),
        forall|u: u64| #[trigger] g.replicated().contains(u) ==> g.replicas_agree(u),
        caches_agree(caches, g.graphs()),
    ensures
        ({
            let w = g.meta().cached_walk(caches, observed, ss, firsts, capacity, byte_capacity, policy);
            &&& w.lists == placed_lists(g.spec_placement(), g.shard_count_spec(), g.logical_adjacency(), firsts)
            &&& caches_agree(w.caches, g.graphs())
        }),
    decreases firsts.len(),
{
    g.lemma_wf_placement();
    if firsts.len() > 0 {
        let init = firsts.drop_last();
        lemma_sharded_cache_walk(g, caches, observed, ss, init, capacity, byte_capacity, policy);
        let w = g.meta().cached_walk(caches, observed, ss, init, capacity, byte_capacity, policy);
        let f = firsts.last();
        match g.home(f) {
            None => {},
            Some(home) => {
                let fs = g.meta().local_first(f, ss).unwrap();
                assert(g.meta().local_first(f, ss) is Some);
                if fs != home {
                    assert(g.replicated().contains(f));
                    assert(g.replicas_agree(f));
                    assert(g.graphs()[fs as int].following(f) == g.following(f));
                }
                assert(fs < g.shard_count_spec());
                let entries = w.caches[fs as int];
                assert(cache_agrees(entries, g.graphs()[fs as int].adjacency()));
                let shard_adj = g.graphs()[fs as int].adjacency();
                lemma_lookup_agrees(entries, shard_adj, f);
                lemma_after_get_agrees(entries, shard_adj, policy, f);
                lemma_after_insert_agrees(entries, shard_adj, capacity, byte_capacity, policy, f);
                assert(list_of(shard_adj, f) == list_of(g.logical_adjacency(), f));
                let list = list_of(g.logical_adjacency(), f);
                lemma_local_only_placed(g, list, fs);
                let after = match crate::cache::lookup(entries, f) {
                    Some(l) => crate::cache::after_get(entries, policy, f),
                    None => crate::cache::after_insert(entries, capacity, byte_capacity, policy, f, g.graphs()[fs as int].following(f)),
                };
                assert(cache_agrees(after, shard_adj));
                let updated = w.caches.update(fs as int, after);
                assert forall|i: int| 0 <= i < updated.len() implies cache_agrees(#[trigger] updated[i], g.graphs()[i].adjacency()) by {
                    if i != fs {
                        assert(updated[i] == w.caches[i]);
                    }
                }
            },
        }
    }
}

/// When every replicated user's copies agree with its home list, a two-hop query through
/// shard caches that agree with their shards returns what the uncached query returns, and
/// leaves the caches agreeing.
pub proof fn lemma_sharded_cached_two_hop_matches(graph: ShardedGraph, source: u64)
    requires
        graph.wf(),
        forall|u: u64| #[trigger] graph.replicated().contains(u) ==> graph.replicas_agree(u),
        graph.cache_list() is Some,
        caches_agree(graph.cache_views(), graph.graphs()),
        graph.home(source) is Some,
    ensures
        ({
            let settings = graph.cache_list().unwrap()[0];
            let w = graph.meta().cached_walk(
                graph.cache_views(),
                graph.observed(),
                graph.home(source).unwrap(),
                graph.following(source),
                settings.spec_capacity(),
                settings.spec_byte_capacity(),
                settings.spec_policy(),
            );
            &&& crate::twohop::collect_lists(w.lists, source) == graph.direct_stats(source).user_ids
            &&& caches_agree(w.caches, graph.graphs())
        }),
{
    graph.lemma_wf_placement();
    let settings = graph.cache_list().unwrap()[0];
    lemma_sharded_cache_walk(
        graph,
        graph.cache_views(),
        graph.observed(),
        graph.home(source).unwrap(),
        graph.following(source),
        settings.spec_capacity(),
        settings.spec_byte_capacity(),
        settings.spec_policy(),
    );
}

} // verus!

verus! {

/// Dropping the cached list of `source` on the shard whose list of `source` changed, and
/// nothing else, keeps every shard cache in agreement with its shard.
pub(crate) proof fn lemma_invalidated_caches_agree(before: ShardedGraph, after: ShardedGraph, h: int, source: u64)
    requires
        before.wf(),
        before.cache_list() is Some,
        caches_agree(before.cache_views(), before.graphs()),
        0 <= h < before.graphs().len(),
        after.same_shards_except(&before, h),
        forall|u: u64| u != source ==> #[trigger] list_of(after.graphs()[h].adjacency(), u) == list_of(before.graphs()[h].adjacency(), u),
        caches_invalidated(before.cache_list(), after.cache_list(), h, source),
    ensures
        after.cache_list() is Some,
        caches_agree(after.cache_views(), after.graphs()),
{
    before.lemma_wf_placement();
    let old_caches = before.cache_list().unwrap();
    let new_caches = after.cache_list().unwrap();
    let old_views = before.cache_views();
    let new_views = after.cache_views();
    assert forall|i: int| 0 <= i < new_views.len() implies cache_agrees(#[trigger] new_views[i], after.graphs()[i].adjacency()) by {
        assert(new_views[i] == new_caches[i]@);
        assert(old_views[i] == old_caches[i]@);
        assert(cache_agrees(old_views[i], before.graphs()[i].adjacency()));
        if i != h {
            assert(new_caches[i] == old_caches[i]);
            assert(after.graphs()[i] == before.graphs()[i]);
        } else {
            let old_entries = old_caches[h]@;
            let new_entries = new_caches[h]@;
            old_caches[h].lemma_keys_distinct();
            assert(new_entries == crate::cache::without_key(old_entries, source));
            assert forall|k: int| 0 <= k < new_entries.len() implies (#[trigger] new_entries[k]).adjacency == list_of(
                after.graphs()[h].adjacency(),
                new_entries[k].user_id,
            ) by {
                if crate::cache::has_key(old_entries, source) {
                    let pos = crate::cache::key_position(old_entries, source);
                    assert(old_entries[pos].user_id == source);
                    if k < pos {
                        assert(new_entries[k] == old_entries[k]);
                    } else {
                        assert(new_entries[k] == old_entries[k + 1]);
                    }
                } else {
                    assert(new_entries[k] == old_entries[k]);
                    assert(new_entries[k].user_id != source);
                }
            }
        }
    }
}

} // verus!

verus! {

/// Unchanged caches keep agreeing with shards whose lists did not change.
pub(crate) proof fn lemma_unchanged_caches_agree(before: ShardedGraph, after: ShardedGraph)
    requires
        before.cache_list() is Some,
        caches_agree(before.cache_views(), before.graphs()),
        after.cache_list() == before.cache_list(),
        after.graphs().len() == before.graphs().len(),
        forall|i: int| 0 <= i < before.graphs().len() ==> (#[trigger] after.graphs()[i]).adjacency() == before.graphs()[i].adjacency(),
    ensures
        caches_agree(after.cache_views(), after.graphs()),
{
    let views = after.cache_views();
    assert forall|i: int| 0 <= i < views.len() implies cache_agrees(#[trigger] views[i], after.graphs()[i].adjacency()) by {
        assert(views[i] == before.cache_views()[i]);
    }
}

} // verus!

verus! {

/// How many of the users 1 to `count` hash placement over `n` shards puts on shard `s`.
pub open spec fn hash_load(count: nat, n: nat, s: usize) -> nat
    decreases count,
{
    if count == 0 {
        0
    } else {
        hash_load((count - 1) as nat, n, s) + if placement_shard(Placement::Hash, n, count as u64) == Some(s) {
            1nat
        } else {
            0nat
        }
    }
}

/// Hash placement spreads the users 1 to `count` evenly: shard `s` gets `count / n` of them,
/// plus one when `1 <= s <= count % n`.
pub proof fn lemma_hash_spreads_evenly(count: nat, n: nat, s: usize)
    requires
        0 < n <= usize::MAX,
        s < n,
        count <= usize::MAX,
    ensures
        hash_load(count, n, s) == count / n + if 1 <= s <= count % n { 1nat } else { 0nat },
        count / n <= hash_load(count, n, s) <= count / n + 1,
    decreases count,
{
    if count > 0 {
        let c = (count - 1) as nat;
        lemma_hash_spreads_evenly(c, n, s);
        assert(((count as u64) as usize) as int == count);
        assert(placement_shard(Placement::Hash, n, count as u64) == Some((count % n) as usize));
        let q = c / n;
        let r = c % n;
        assert(c == q * n + r && 0 <= r < n) by (nonlinear_arith)
            requires
                n > 0,
                q == c / n,
                r == c % n,
        ;
        if r + 1 == n {
            assert(count / n == q + 1 && count % n == 0) by (nonlinear_arith)
                requires
                    n > 0,
                    count == c + 1,
                    c == q * n + r,
                    r + 1 == n,
            ;
        } else {
            assert(count / n == q && count % n == r + 1) by (nonlinear_arith)
                requires
                    n > 0,
                    count == c + 1,
                    c == q * n + r,
                    0 <= r,
                    r + 1 < n,
            ;
        }
    }
}

} // verus!

verus! {

/// How one shard's cache may follow a change of `user`'s list on that shard: kept when the
/// list did not change, dropped, or replaced by the new list.
pub open spec fn cache_follows_user(
    before: Seq<crate::cache::CacheEntry>,
    after: Seq<crate::cache::CacheEntry>,
    before_adjacency: Map<u64, Seq<u64>>,
    after_adjacency: Map<u64, Seq<u64>>,
    user: u64,
    capacity: nat,
    byte_capacity: Option<usize>,
    policy: crate::cache::EvictionPolicy,
) -> bool {
    ||| after == before && list_of(after_adjacency, user) == list_of(before_adjacency, user)
    ||| after == crate::cache::without_key(before, user)
    ||| after == crate::cache::after_insert(before, capacity, byte_capacity, policy, user, list_of(after_adjacency, user))
}

/// Caches that agree with their shards keep agreeing when every shard's lists change only
/// at `user` and every shard's cache follows that change.
pub(crate) proof fn lemma_caches_follow_user(
    before_caches: Seq<Seq<crate::cache::CacheEntry>>,
    before_graphs: Seq<Graph>,
    after_caches: Seq<Seq<crate::cache::CacheEntry>>,
    after_graphs: Seq<Graph>,
    user: u64,
    capacity: nat,
    byte_capacity: Option<usize>,
    policy: crate::cache::EvictionPolicy,
)
    requires
        caches_agree(before_caches, before_graphs),
        after_graphs.len() == before_graphs.len(),
        after_caches.len() == before_caches.len(),
        forall|s: int| 0 <= s < before_caches.len() ==> crate::cache::keys_distinct(#[trigger] before_caches[s]),
        forall|s: int, u: u64| 0 <= s < before_graphs.len() && u != user ==> #[trigger] list_of(after_graphs[s].adjacency(), u)
            == list_of(before_graphs[s].adjacency(), u),
        forall|s: int| 0 <= s < before_caches.len() ==> #[trigger] cache_follows_user(
            before_caches[s],
            after_caches[s],
            before_graphs[s].adjacency(),
            after_graphs[s].adjacency(),
            user,
            capacity,
            byte_capacity,
            policy,
        ),
    ensures
        caches_agree(after_caches, after_graphs),
{
    assert forall|s: int| 0 <= s < after_caches.len() implies cache_agrees(#[trigger] after_caches[s], after_graphs[s].adjacency()) by {
        let b = before_caches[s];
        let ba = before_graphs[s].adjacency();
        let aa = after_graphs[s].adjacency();
        assert(cache_agrees(b, ba));
        assert(cache_follows_user(b, after_caches[s], ba, aa, user, capacity, byte_capacity, policy));
        // the entries other than `user`'s agree with the new lists too
        let rest = crate::cache::without_key(b, user);
        crate::cache::lemma_without_key_drops(b, user);
        if crate::cache::has_key(b, user) {
            lemma_remove_agrees(b, ba, crate::cache::key_position(b, user));
        }
        assert(cache_agrees(rest, ba));
        assert forall|k: int| 0 <= k < rest.len() implies (#[trigger] rest[k]).adjacency == list_of(aa, rest[k].user_id) by {
            if rest[k].user_id == user {
                assert(crate::cache::has_key(rest, user));
            }
        }
        if after_caches[s] == b && list_of(aa, user) == list_of(ba, user) {
            assert forall|k: int| 0 <= k < b.len() implies (#[trigger] b[k]).adjacency == list_of(aa, b[k].user_id) by {
                if b[k].user_id != user {
                    assert(list_of(aa, b[k].user_id) == list_of(ba, b[k].user_id));
                }
            }
        } else if after_caches[s] == rest {
        } else {
            let need = crate::cache::entry_bytes(list_of(aa, user).len());
            lemma_evict_agrees(rest, aa, capacity, byte_capacity, need, policy);
            let kept = crate::cache::evict_until_fits(rest, capacity, byte_capacity, need, policy);
            let inserted = after_caches[s];
            if !(byte_capacity matches Some(limit) && need > limit) {
                assert forall|k: int| 0 <= k < inserted.len() implies (#[trigger] inserted[k]).adjacency == list_of(aa, inserted[k].user_id) by {
                    if k < kept.len() {
                        assert(inserted[k] == kept[k]);
                    }
                }
            }
        }
    }
}

} // verus!

verus! {

/// A cached two-hop walk keeps shard caches that agree with their shards in agreement.
pub(crate) proof fn lemma_cached_walk_keeps_agreement(
    g: ShardedGraph,
    caches: Seq<Seq<crate::cache::CacheEntry>>,
    observed: Seq<Map<u64, u64>>,
    ss: usize,
    firsts: Seq<u64>,
    capacity: nat,
    byte_capacity: Option<usize>,
    policy: crate::cache::EvictionPolicy,
)
    requires
        g.wf(),
        caches_agree(caches, g.graphs()),
    ensures
        caches_agree(g.meta().cached_walk(caches, observed, ss, firsts, capacity, byte_capacity, policy).caches, g.graphs()),
    decreases firsts.len(),
{
    g.lemma_wf_placement();
    if firsts.len() > 0 {
        let init = firsts.drop_last();
        lemma_cached_walk_keeps_agreement(g, caches, observed, ss, init, capacity, byte_capacity, policy);
        let w = g.meta().cached_walk(caches, observed, ss, init, capacity, byte_capacity, policy);
        let f = firsts.last();
        if g.meta().local_first(f, ss) is Some {
            let fs = g.meta().local_first(f, ss).unwrap();
            if g.replicated().contains(f) {
                assert(g.home(f) is Some);
            }
            assert(fs < g.shard_count_spec());
            let entries = w.caches[fs as int];
            let shard_adj = g.graphs()[fs as int].adjacency();
            assert(cache_agrees(entries, shard_adj));
            lemma_after_get_agrees(entries, shard_adj, policy, f);
            lemma_after_insert_agrees(entries, shard_adj, capacity, byte_capacity, policy, f);
            let after = match crate::cache::lookup(entries, f) {
                Some(l) => crate::cache::after_get(entries, policy, f),
                None => crate::cache::after_insert(entries, capacity, byte_capacity, policy, f, g.graphs()[fs as int].following(f)),
            };
            assert(cache_agrees(after, shard_adj));
            let updated = w.caches.update(fs as int, after);
            assert forall|i: int| 0 <= i < updated.len() implies cache_agrees(#[trigger] updated[i], g.graphs()[i].adjacency()) by {
                if i != fs {
                    assert(updated[i] == w.caches[i]);
                }
            }
        }
    }
}

} // verus!

verus! {

proof fn lemma_local_matches_second(g: ShardedGraph, list: Seq<u64>, r: usize)
    requires
        g.wf(),
        g.replicated() == Set::<u64>::empty(),
    ensures
        g.meta().local_shards(list, r) == second_shards(g.spec_placement(), g.shard_count_spec(), list),
        g.meta().local_cross(list, r) == second_cross(g.spec_placement(), g.shard_count_spec(), list, r),
    decreases list.len(),
{
    if list.len() > 0 {
        lemma_local_matches_second(g, list.drop_last(), r);
        assert(!g.replicated().contains(list.last()));
    }
}

proof fn lemma_cache_walk_counts_direct(
    g: ShardedGraph,
    caches: Seq<Seq<crate::cache::CacheEntry>>,
    observed: Seq<Map<u64, u64>>,
    ss: usize,
    firsts: Seq<u64>,
    capacity: nat,
    byte_capacity: Option<usize>,
    policy: crate::cache::EvictionPolicy,
)
    requires
        g.wf(),
        g.replicated() == Set::<u64>::empty(),
        caches_agree(caches, g.graphs()),
    ensures
        ({
            let p = g.spec_placement();
            let n = g.shard_count_spec();
            let adj = g.logical_adjacency();
            let w = g.meta().cached_walk(caches, observed, ss, firsts, capacity, byte_capacity, policy);
            &&& w.touched == first_shards(p, n, firsts).union(reached_shards(p, n, adj, firsts)).insert(ss)
            &&& w.hops == first_cross(p, n, ss, firsts) + reached_cross(p, n, adj, firsts)
            &&& w.requests == 1 + placed_count(p, n, firsts)
        }),
    decreases firsts.len(),
{
    g.lemma_wf_placement();
    let p = g.spec_placement();
    let n = g.shard_count_spec();
    let adj = g.logical_adjacency();
    if firsts.len() == 0 {
        assert(first_shards(p, n, firsts).union(reached_shards(p, n, adj, firsts)).insert(ss) =~= set![ss]);
    } else {
        let init = firsts.drop_last();
        lemma_cache_walk_counts_direct(g, caches, observed, ss, init, capacity, byte_capacity, policy);
        assert(forall|u: u64| #[trigger] g.replicated().contains(u) ==> g.replicas_agree(u));
        lemma_sharded_cache_walk(g, caches, observed, ss, init, capacity, byte_capacity, policy);
        let w = g.meta().cached_walk(caches, observed, ss, init, capacity, byte_capacity, policy);
        let f = firsts.last();
        assert(!g.replicated().contains(f));
        match g.home(f) {
            None => {},
            Some(fs) => {
                assert(g.meta().local_first(f, ss) == Some(fs));
                assert(fs < g.shard_count_spec());
                let entries = w.caches[fs as int];
                assert(cache_agrees(entries, g.graphs()[fs as int].adjacency()));
                let shard_adj = g.graphs()[fs as int].adjacency();
                lemma_lookup_agrees(entries, shard_adj, f);
                assert(list_of(shard_adj, f) == list_of(adj, f));
                let list = list_of(adj, f);
                lemma_local_matches_second(g, list, fs);
                let a = first_shards(p, n, init);
                let b = reached_shards(p, n, adj, init);
                assert(first_shards(p, n, firsts) == a.insert(fs));
                assert(reached_shards(p, n, adj, firsts) == b.union(second_shards(p, n, list)));
                assert(w.touched.insert(fs).union(second_shards(p, n, list))
                    =~= a.insert(fs).union(b.union(second_shards(p, n, list))).insert(ss));
            },
        }
    }
}

/// With no replicated users and shard caches that agree with their shards, a two-hop query
/// through the caches touches the same shards, counts the same cross-shard hops and makes the
/// same shard requests as the direct query, and counts one cache hit or miss per request
/// after the first.
pub proof fn lemma_cached_query_counts_match_direct(graph: ShardedGraph, source: u64)
    requires
        graph.wf(),
        graph.replicated() == Set::<u64>::empty(),
        graph.cache_list() is Some,
        caches_agree(graph.cache_views(), graph.graphs()),
        graph.home(source) is Some,
    ensures
        ({
            let settings = graph.cache_list().unwrap()[0];
            let w = graph.meta().cached_walk(
                graph.cache_views(),
                graph.observed(),
                graph.home(source).unwrap(),
                graph.following(source),
                settings.spec_capacity(),
                settings.spec_byte_capacity(),
                settings.spec_policy(),
            );
            let d = graph.direct_stats(source);
            &&& w.touched.len() == d.shards_touched
            &&& sat(w.hops as int) == d.cross_shard_hops
            &&& sat(w.requests as int) == d.shard_requests
            &&& w.hits + w.misses + 1 == w.requests
        }),
{
    let settings = graph.cache_list().unwrap()[0];
    lemma_cache_walk_counts_direct(
        graph,
        graph.cache_views(),
        graph.observed(),
        graph.home(source).unwrap(),
        graph.following(source),
        settings.spec_capacity(),
        settings.spec_byte_capacity(),
        settings.spec_policy(),
    );
    crate::hub::lemma_cached_walk_counts(
        graph.meta(),
        graph.cache_views(),
        graph.observed(),
        graph.home(source).unwrap(),
        graph.following(source),
        settings.spec_capacity(),
        settings.spec_byte_capacity(),
        settings.spec_policy(),
    );
}

} // verus!

verus! {

/// The user IDs of cache entries, in order.
pub open spec fn entry_keys(entries: Seq<crate::cache::CacheEntry>) -> Seq<u64> {
    entries.map_values(|e: crate::cache::CacheEntry| e.user_id)
}

/// The entries of an adjacency cache after one access of `user_id`: a `get`, and on a miss an
/// `insert` of `list`.
pub open spec fn get_then_insert(
    entries: Seq<crate::cache::CacheEntry>,
    capacity: nat,
    byte_capacity: Option<usize>,
    policy: crate::cache::EvictionPolicy,
    user_id: u64,
    list: Seq<u64>,
) -> Seq<crate::cache::CacheEntry> {
    match crate::cache::lookup(entries, user_id) {
        Some(_) => crate::cache::after_get(entries, policy, user_id),
        None => crate::cache::after_insert(entries, capacity, byte_capacity, policy, user_id, list),
    }
}

/// An LRU adjacency cache without a byte budget, accessed by `get` and, on a miss, `insert`,
/// hits exactly when an ID simulator of the same capacity holding its keys hits, and ends up
/// holding the keys the simulator holds after the same access, in the same usage order.
pub proof fn lemma_simulator_tracks_lru_cache(
    entries: Seq<crate::cache::CacheEntry>,
    capacity: nat,
    user_id: u64,
    list: Seq<u64>,
)
    requires
        crate::cache::keys_distinct(entries),
        0 < capacity,
        entries.len() <= capacity,
    ensures
        (crate::cache::lookup(entries, user_id) is Some) == entry_keys(entries).contains(user_id),
        entry_keys(get_then_insert(entries, capacity, None, crate::cache::EvictionPolicy::Lru, user_id, list))
            == crate::cache::lru_access(entry_keys(entries), capacity, user_id),
{
    let keys = entry_keys(entries);
    let policy = crate::cache::EvictionPolicy::Lru;
    if crate::cache::has_key(entries, user_id) {
        let pos = crate::cache::key_position(entries, user_id);
        assert(keys[pos] == user_id);
        assert(keys.contains(user_id));
        let k = keys.index_of(user_id);
        assert(keys[k] == user_id);
        assert(entries[k].user_id == user_id);
        assert(k == pos);
        let after = crate::cache::after_get(entries, policy, user_id);
        assert(entry_keys(after) =~= keys.remove(pos).push(user_id));
    } else {
        assert(!keys.contains(user_id)) by {
            if keys.contains(user_id) {
                let k = choose|k: int| 0 <= k < keys.len() && keys[k] == user_id;
                assert(entries[k].user_id == user_id);
            }
        }
        let need = crate::cache::entry_bytes(list.len());
        assert(crate::cache::without_key(entries, user_id) == entries);
        let kept = crate::cache::evict_until_fits(entries, capacity, None, need, policy);
        if entries.len() >= capacity {
            let rest = entries.remove(0);
            assert(crate::cache::victim(entries, policy) == 0);
            assert(crate::cache::evict_until_fits(rest, capacity, None, need, policy) == rest);
            assert(kept == rest);
            assert(entry_keys(rest) =~= keys.drop_first());
        } else {
            assert(kept == entries);
        }
        let after = crate::cache::after_insert(entries, capacity, None, policy, user_id, list);
        assert(after == kept.push(crate::cache::CacheEntry { user_id, adjacency: list, frequency: 1u64 }));
        assert(entry_keys(after) =~= entry_keys(kept).push(user_id));
    }
}

} // verus!

verus! {

/// An LRU simulator's usage order keeps its IDs distinct and within `capacity`.
pub proof fn lemma_lru_access_keeps_shape(entries: Seq<u64>, capacity: nat, user_id: u64)
    requires
        entries.no_duplicates(),
        entries.len() <= capacity,
        0 < capacity,
    ensures
        crate::cache::lru_access(entries, capacity, user_id).no_duplicates(),
        crate::cache::lru_access(entries, capacity, user_id).len() <= capacity,
{
    let after = crate::cache::lru_access(entries, capacity, user_id);
    if entries.contains(user_id) {
        let k = entries.index_of(user_id);
        let rest = entries.remove(k);
        assert forall|a: int, b: int| 0 <= a < after.len() && 0 <= b < after.len() && a != b
            implies after[a] != after[b] by {
            let oa = if a < k { a } else { a + 1 };
            let ob = if b < k { b } else { b + 1 };
            if a == after.len() - 1 {
                assert(entries[ob] == after[b]);
            } else if b == after.len() - 1 {
                assert(entries[oa] == after[a]);
            } else {
                assert(entries[oa] == after[a]);
                assert(entries[ob] == after[b]);
            }
        }
    } else {
        let mid = if entries.len() >= capacity { entries.drop_first() } else { entries };
        assert(after == mid.push(user_id));
        assert forall|a: int, b: int| 0 <= a < after.len() && 0 <= b < after.len() && a != b
            implies after[a] != after[b] by {
            if entries.len() >= capacity {
                if a < mid.len() { assert(mid[a] == entries[a + 1]); }
                if b < mid.len() { assert(mid[b] == entries[b + 1]); }
            }
        }
    }
}

/// An LRU adjacency cache without a byte budget after each access of `ids` in turn, each a
/// `get` and on a miss an `insert` of the matching list of `lists`.
pub open spec fn lru_cache_run(
    entries: Seq<crate::cache::CacheEntry>,
    capacity: nat,
    ids: Seq<u64>,
    lists: Seq<Seq<u64>>,
) -> Seq<crate::cache::CacheEntry>
    decreases ids.len(),
{
    if ids.len() == 0 {
        entries
    } else {
        get_then_insert(
            lru_cache_run(entries, capacity, ids.drop_last(), lists),
            capacity,
            None,
            crate::cache::EvictionPolicy::Lru,
            ids.last(),
            lists[ids.len() - 1],
        )
    }
}

/// How many accesses of such a run find their user cached.
pub open spec fn lru_cache_hits(
    entries: Seq<crate::cache::CacheEntry>,
    capacity: nat,
    ids: Seq<u64>,
    lists: Seq<Seq<u64>>,
) -> nat
    decreases ids.len(),
{
    if ids.len() == 0 {
        0
    } else {
        lru_cache_hits(entries, capacity, ids.drop_last(), lists) + if crate::cache::lookup(
            lru_cache_run(entries, capacity, ids.drop_last(), lists),
            ids.last(),
        ) is Some {
            1nat
        } else {
            0nat
        }
    }
}

proof fn lemma_keys_distinct_iff(entries: Seq<crate::cache::CacheEntry>)
    ensures
        crate::cache::keys_distinct(entries) == entry_keys(entries).no_duplicates(),
{
    let keys = entry_keys(entries);
    if crate::cache::keys_distinct(entries) {
        assert forall|i: int, j: int| 0 <= i < keys.len() && 0 <= j < keys.len() && i != j implies keys[i] != keys[j] by {
            assert(entries[i].user_id != entries[j].user_id);
        }
    }
    if keys.no_duplicates() {
        assert forall|i: int, j: int| 0 <= i < entries.len() && 0 <= j < entries.len() && i != j
            implies #[trigger] entries[i].user_id != #[trigger] entries[j].user_id by {
            assert(keys[i] != keys[j]);
        }
    }
}

/// Over any run of accesses, an LRU adjacency cache without a byte budget (each access a
/// `get`, and on a miss an `insert`) and an ID simulator of the same capacity holding its keys
/// hit on the same accesses: they keep the same keys in the same usage order and count the
/// same hits.
pub proof fn lemma_simulator_run_tracks_lru_cache(
    entries: Seq<crate::cache::CacheEntry>,
    capacity: nat,
    ids: Seq<u64>,
    lists: Seq<Seq<u64>>,
)
    requires
        crate::cache::keys_distinct(entries),
        0 < capacity,
        entries.len() <= capacity,
    ensures
        entry_keys(lru_cache_run(entries, capacity, ids, lists)) == crate::hub::lru_run(entry_keys(entries), capacity, ids),
        lru_cache_hits(entries, capacity, ids, lists) == crate::hub::lru_hits(entry_keys(entries), capacity, ids),
        crate::cache::keys_distinct(lru_cache_run(entries, capacity, ids, lists)),
        lru_cache_run(entries, capacity, ids, lists).len() <= capacity,
    decreases ids.len(),
{
    if ids.len() > 0 {
        let init = ids.drop_last();
        lemma_simulator_run_tracks_lru_cache(entries, capacity, init, lists);
        let before = lru_cache_run(entries, capacity, init, lists);
        let u = ids.last();
        let list = lists[ids.len() - 1];
        lemma_simulator_tracks_lru_cache(before, capacity, u, list);
        lemma_keys_distinct_iff(before);
        lemma_lru_access_keeps_shape(entry_keys(before), capacity, u);
        let after = lru_cache_run(entries, capacity, ids, lists);
        assert(after == get_then_insert(before, capacity, None, crate::cache::EvictionPolicy::Lru, u, list));
        lemma_keys_distinct_iff(after);
        assert(after.len() == entry_keys(after).len());
    }
}

} // verus!

verus! {

/// For an LRU adjacency cache without a byte budget, over its keys `k` from least to most
/// recently used: `get(u)` returns `u`'s list when `u` is cached and then makes `u` the most
/// recent key; `insert(u, l)` moves or adds `u` as the most recent key, evicting only the
/// least recent key when a new key meets a full cache, and a later `get(u)` finds `l`;
/// `invalidate(u)` drops `u` and keeps the other keys in order.
pub proof fn lemma_lru_cache_operations(
    entries: Seq<crate::cache::CacheEntry>,
    capacity: nat,
    user_id: u64,
    list: Seq<u64>,
)
    requires
        crate::cache::keys_distinct(entries),
        0 < capacity,
        entries.len() <= capacity,
    ensures
        ({
            let keys = entry_keys(entries);
            let policy = crate::cache::EvictionPolicy::Lru;
            &&& crate::cache::lookup(entries, user_id) == if keys.contains(user_id) {
                Some(entries[keys.index_of(user_id)].adjacency)
            } else {
                None::<Seq<u64>>
            }
            &&& entry_keys(crate::cache::after_get(entries, policy, user_id)) == if keys.contains(user_id) {
                keys.remove(keys.index_of(user_id)).push(user_id)
            } else {
                keys
            }
            &&& entry_keys(crate::cache::after_insert(entries, capacity, None, policy, user_id, list))
                == crate::cache::lru_access(keys, capacity, user_id)
            &&& crate::cache::lookup(crate::cache::after_insert(entries, capacity, None, policy, user_id, list), user_id)
                == Some(list)
            &&& entry_keys(crate::cache::without_key(entries, user_id)) == if keys.contains(user_id) {
                keys.remove(keys.index_of(user_id))
            } else {
                keys
            }
        }),
{
    let keys = entry_keys(entries);
    let policy = crate::cache::EvictionPolicy::Lru;
    let need = crate::cache::entry_bytes(list.len());
    if crate::cache::has_key(entries, user_id) {
        let pos = crate::cache::key_position(entries, user_id);
        assert(keys[pos] == user_id);
        assert(keys.contains(user_id));
        let k = keys.index_of(user_id);
        assert(entries[k].user_id == user_id);
        assert(k == pos);
        assert(entry_keys(crate::cache::after_get(entries, policy, user_id)) =~= keys.remove(pos).push(user_id));
        let rest = entries.remove(pos);
        assert(entry_keys(rest) =~= keys.remove(pos));
        assert(crate::cache::evict_until_fits(rest, capacity, None, need, policy) == rest);
    } else {
        assert(!keys.contains(user_id)) by {
            if keys.contains(user_id) {
                let k = choose|k: int| 0 <= k < keys.len() && keys[k] == user_id;
                assert(entries[k].user_id == user_id);
            }
        }
        assert(crate::cache::without_key(entries, user_id) == entries);
    }
    lemma_simulator_tracks_lru_cache(entries, capacity, user_id, list);
    let after = crate::cache::after_insert(entries, capacity, None, policy, user_id, list);
    let kept = crate::cache::evict_until_fits(crate::cache::without_key(entries, user_id), capacity, None, need, policy);
    assert(after == kept.push(crate::cache::CacheEntry {
        user_id,
        adjacency: list,
        frequency: after.last().frequency,
    }));
    assert(entry_keys(after) == crate::cache::lru_access(keys, capacity, user_id)) by {
        if keys.contains(user_id) {
            assert(entry_keys(after) =~= entry_keys(kept).push(user_id));
        }
    }
    assert(crate::cache::has_key(after, user_id)) by {
        assert(after[after.len() - 1].user_id == user_id);
    }
    let last = after.len() - 1;
    assert(crate::cache::keys_distinct(after)) by {
        lemma_keys_distinct_iff(after);
        lemma_lru_access_keeps_shape(keys, capacity, user_id);
        lemma_keys_distinct_iff(entries);
    }
    let q = crate::cache::key_position(after, user_id);
    assert(after[q].user_id == user_id);
    if q != last {
        assert(after[q].user_id != after[last].user_id);
    }
}

} // verus!

verus! {

proof fn lemma_shard_range(n: nat)
    ensures
        Set::new(|s: usize| (s as int) < n).finite(),
        n <= usize::MAX + 1 ==> Set::new(|s: usize| (s as int) < n).len() == n,
    decreases n,
{
    let r = Set::new(|s: usize| (s as int) < n);
    if n == 0 {
        assert(r =~= Set::<usize>::empty());
    } else if n > usize::MAX + 1 {
        lemma_shard_range(usize::MAX as nat + 1);
        assert(r =~= Set::new(|s: usize| (s as int) < usize::MAX as nat + 1));
    } else {
        lemma_shard_range((n - 1) as nat);
        let prev = Set::new(|s: usize| (s as int) < (n - 1) as nat);
        let top = (n - 1) as usize;
        assert(r =~= prev.insert(top));
        assert(!prev.contains(top));
    }
}

proof fn lemma_first_shards_below(p: Placement, n: nat, firsts: Seq<u64>)
    requires
        crate::sharded::placement_error(n, p) is None,
    ensures
        forall|s: usize| #[trigger] first_shards(p, n, firsts).contains(s) ==> (s as int) < n,
    decreases firsts.len(),
{
    if firsts.len() > 0 {
        lemma_first_shards_below(p, n, firsts.drop_last());
        crate::sharded::lemma_placement_shard_range(p, n, firsts.last());
        assert forall|s: usize| #[trigger] first_shards(p, n, firsts).contains(s) implies (s as int) < n by {
            if !first_shards(p, n, firsts.drop_last()).contains(s) {
                assert(placement_shard(p, n, firsts.last()) == Some(s));
            }
        }
    }
}

proof fn lemma_second_shards_below(p: Placement, n: nat, list: Seq<u64>)
    requires
        crate::sharded::placement_error(n, p) is None,
    ensures
        forall|s: usize| #[trigger] second_shards(p, n, list).contains(s) ==> (s as int) < n,
    decreases list.len(),
{
    if list.len() > 0 {
        lemma_second_shards_below(p, n, list.drop_last());
        crate::sharded::lemma_placement_shard_range(p, n, list.last());
        assert forall|s: usize| #[trigger] second_shards(p, n, list).contains(s) implies (s as int) < n by {
            if !second_shards(p, n, list.drop_last()).contains(s) {
                assert(placement_shard(p, n, list.last()) == Some(s));
            }
        }
    }
}

proof fn lemma_reached_shards_below(p: Placement, n: nat, adj: Map<u64, Seq<u64>>, firsts: Seq<u64>)
    requires
        crate::sharded::placement_error(n, p) is None,
    ensures
        forall|s: usize| #[trigger] reached_shards(p, n, adj, firsts).contains(s) ==> (s as int) < n,
    decreases firsts.len(),
{
    if firsts.len() > 0 {
        lemma_reached_shards_below(p, n, adj, firsts.drop_last());
        lemma_second_shards_below(p, n, list_of(adj, firsts.last()));
        assert forall|s: usize| #[trigger] reached_shards(p, n, adj, firsts).contains(s) implies (s as int) < n by {
            if !reached_shards(p, n, adj, firsts.drop_last()).contains(s) {
                assert(second_shards(p, n, list_of(adj, firsts.last())).contains(s));
            }
        }
    }
}

/// A direct query from a placed source touches at least its own shard and at most every
/// shard, and makes one request for the source's shard and one per placed first hop.
pub proof fn lemma_direct_query_counts(graph: ShardedGraph, source: u64)
    requires
        graph.wf(),
        graph.home(source) is Some,
    ensures
        1 <= graph.direct_stats(source).shards_touched <= graph.shard_count_spec(),
        graph.direct_stats(source).shard_requests
            == sat((1 + placed_count(graph.spec_placement(), graph.shard_count_spec(), graph.following(source))) as int),
{
    graph.lemma_wf_placement();
    let p = graph.spec_placement();
    let n = graph.shard_count_spec();
    let firsts = graph.following(source);
    let adj = graph.logical_adjacency();
    let ss = graph.home(source).unwrap();
    let t = first_shards(p, n, firsts).union(reached_shards(p, n, adj, firsts)).insert(ss);
    lemma_first_shards_below(p, n, firsts);
    lemma_reached_shards_below(p, n, adj, firsts);
    lemma_shard_range(n);
    let r = Set::new(|s: usize| (s as int) < n);
    assert(t.subset_of(r));
    vstd::set_lib::lemma_len_subset(t, r);
    assert(t.finite()) by {
        vstd::set_lib::lemma_set_subset_finite(r, t);
    }
    assert(t.contains(ss));
    if t.len() == 0 {
        t.lemma_len0_is_empty();
    }
}

} // verus!

verus! {

proof fn lemma_lookup_at(entries: Seq<crate::cache::CacheEntry>, i: int)
    requires
        crate::cache::keys_distinct(entries),
        0 <= i < entries.len(),
    ensures
        crate::cache::lookup(entries, entries[i].user_id) == Some(entries[i].adjacency),
{
    let k = entries[i].user_id;
    assert(crate::cache::has_key(entries, k));
    let q = crate::cache::key_position(entries, k);
    assert(entries[q].user_id == k);
    if q != i {
        assert(entries[q].user_id != entries[i].user_id);
    }
}

proof fn lemma_lookup_of_contained(entries: Seq<crate::cache::CacheEntry>, x: crate::cache::CacheEntry)
    requires
        crate::cache::keys_distinct(entries),
        entries.contains(x),
    ensures
        crate::cache::lookup(entries, x.user_id) == Some(x.adjacency),
{
    let i = choose|i: int| 0 <= i < entries.len() && entries[i] == x;
    lemma_lookup_at(entries, i);
}

/// For an LRU adjacency cache without a byte budget: `get` keeps the number of entries and
/// every key's list; `insert(u, l)` keeps the list of every other key it keeps.
pub proof fn lemma_lru_cache_keeps_lists(
    entries: Seq<crate::cache::CacheEntry>,
    capacity: nat,
    user_id: u64,
    list: Seq<u64>,
)
    requires
        crate::cache::keys_distinct(entries),
        0 < capacity,
        entries.len() <= capacity,
    ensures
        ({
            let policy = crate::cache::EvictionPolicy::Lru;
            let got = crate::cache::after_get(entries, policy, user_id);
            let inserted = crate::cache::after_insert(entries, capacity, None, policy, user_id, list);
            &&& got.len() == entries.len()
            &&& forall|k: u64| #[trigger] crate::cache::lookup(got, k) == crate::cache::lookup(entries, k)
            &&& forall|k: u64| k != user_id && #[trigger] crate::cache::has_key(inserted, k)
                ==> crate::cache::lookup(inserted, k) == crate::cache::lookup(entries, k)
        }),
{
    let policy = crate::cache::EvictionPolicy::Lru;
    let keys = entry_keys(entries);
    lemma_lru_cache_operations(entries, capacity, user_id, list);
    lemma_keys_distinct_iff(entries);
    lemma_lru_access_keeps_shape(keys, capacity, user_id);
    let got = crate::cache::after_get(entries, policy, user_id);
    let inserted = crate::cache::after_insert(entries, capacity, None, policy, user_id, list);
    // Every entry of `got` but the refreshed one, and every entry of `inserted` but the new
    // one, is an entry of `entries`.
    let need = crate::cache::entry_bytes(list.len());
    let rest = crate::cache::without_key(entries, user_id);
    let kept = crate::cache::evict_until_fits(rest, capacity, None, need, policy);
    if crate::cache::has_key(entries, user_id) {
        let pos = crate::cache::key_position(entries, user_id);
        assert(rest == entries.remove(pos));
        assert(kept == rest) by {
            assert(crate::cache::evict_until_fits(rest, capacity, None, need, policy) == rest);
        }
        assert forall|j: int| 0 <= j < rest.len() implies entries.contains(#[trigger] rest[j]) by {
            if j < pos {
                assert(rest[j] == entries[j]);
            } else {
                assert(rest[j] == entries[j + 1]);
            }
        }
        assert(got == rest.push(got.last()));
        assert(got.last().user_id == user_id && got.last().adjacency == entries[pos].adjacency);
        lemma_keys_distinct_iff(got);
        assert forall|k: u64| #[trigger] crate::cache::lookup(got, k) == crate::cache::lookup(entries, k) by {
            if crate::cache::has_key(got, k) {
                let j = crate::cache::key_position(got, k);
                lemma_lookup_at(got, j);
                if j == got.len() - 1 {
                    lemma_lookup_at(entries, pos);
                } else {
                    assert(got[j] == rest[j]);
                    lemma_lookup_of_contained(entries, rest[j]);
                }
            } else {
                if crate::cache::has_key(entries, k) {
                    let q = crate::cache::key_position(entries, k);
                    if q == pos {
                        assert(got[got.len() - 1].user_id == k);
                    } else if q < pos {
                        assert(got[q] == entries[q]);
                    } else {
                        assert(got[q - 1] == entries[q]);
                    }
                }
            }
        }
    } else {
        assert(rest == entries);
        assert(got == entries);
        if entries.len() >= capacity {
            assert(crate::cache::victim(entries, policy) == 0);
            assert(crate::cache::evict_until_fits(entries.remove(0), capacity, None, need, policy) == entries.remove(0));
            assert(kept == entries.remove(0));
            assert forall|j: int| 0 <= j < kept.len() implies entries.contains(#[trigger] kept[j]) by {
                assert(kept[j] == entries[j + 1]);
            }
        } else {
            assert(kept == entries);
            assert forall|j: int| 0 <= j < kept.len() implies entries.contains(#[trigger] kept[j]) by {}
        }
    }
    assert(inserted == kept.push(inserted.last()));
    assert forall|j: int| 0 <= j < kept.len() implies entries.contains(#[trigger] kept[j]) by {
        if crate::cache::has_key(entries, user_id) {
            let pos = crate::cache::key_position(entries, user_id);
            if j < pos {
                assert(kept[j] == entries[j]);
            } else {
                assert(kept[j] == entries[j + 1]);
            }
        } else if entries.len() >= capacity {
            assert(kept[j] == entries[j + 1]);
        }
    }
    lemma_keys_distinct_iff(inserted);
    assert forall|k: u64| k != user_id && #[trigger] crate::cache::has_key(inserted, k)
        implies crate::cache::lookup(inserted, k) == crate::cache::lookup(entries, k) by {
        let j = crate::cache::key_position(inserted, k);
        lemma_lookup_at(inserted, j);
        assert(j != inserted.len() - 1);
        assert(inserted[j] == kept[j]);
        lemma_lookup_of_contained(entries, kept[j]);
    }
}

} // verus!
