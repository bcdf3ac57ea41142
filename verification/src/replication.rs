use vstd::prelude::*;
use std::collections::HashSet;
use crate::error::GraphError;
use crate::graph::{added_edge, removed_edge, list_of, contains_id};
use crate::sharded::{ShardedGraph, Placement, placement_shard};
use crate::cache::{after_insert, without_key, CacheEntry, EvictionPolicy};
use crate::graph::Graph;
use crate::stats::sat;
use vstd::std_specs::iter::IteratorSpec;

verus! {

broadcast use vstd::std_specs::hash::group_hash_axioms;

/// How many users are replicated, and how many edges their replicas hold together.
#[derive(Debug, Clone)]
pub struct ReplicationStats {
    pub replicated_users: usize,
    pub total_replicated_edges: usize,
}

/// The sum of `weight` over `users`.
pub open spec fn user_sum(users: Seq<u64>, weight: spec_fn(u64) -> int) -> int
    decreases users.len(),
{
    if users.len() == 0 {
        0
    } else {
        user_sum(users.drop_last(), weight) + weight(users.last())
    }
}

pub proof fn lemma_user_sum_remove(users: Seq<u64>, k: int, weight: spec_fn(u64) -> int)
    requires
        0 <= k < users.len(),
    ensures
        user_sum(users, weight) == user_sum(users.remove(k), weight) + weight(users[k]),
    decreases users.len(),
{
    if k == users.len() - 1 {
        assert(users.remove(k) =~= users.drop_last());
    } else {
        lemma_user_sum_remove(users.drop_last(), k, weight);
        assert(users.remove(k).drop_last() =~= users.drop_last().remove(k));
        assert(users.remove(k).last() == users.last());
    }
}

/// A sum over users does not depend on the order in which they are listed.
pub proof fn lemma_user_sum_same_set(a: Seq<u64>, b: Seq<u64>, weight: spec_fn(u64) -> int)
    requires
        a.no_duplicates(),
        b.no_duplicates(),
        a.to_set() == b.to_set(),
    ensures
        user_sum(a, weight) == user_sum(b, weight),
    decreases a.len(),
{
    if a.len() == 0 {
        if b.len() > 0 {
            assert(b.to_set().contains(b[0]));
        }
    } else {
        let x = a.last();
        assert(a.to_set().contains(x));
        assert(b.to_set().contains(x));
        let k = choose|k: int| 0 <= k < b.len() && b[k] == x;
        let a2 = a.drop_last();
        let b2 = b.remove(k);
        lemma_user_sum_remove(b, k, weight);
        assert forall|y: u64| a2.to_set().contains(y) <==> b2.to_set().contains(y) by {
            if a2.to_set().contains(y) {
                let i = choose|i: int| 0 <= i < a2.len() && a2[i] == y;
                assert(a[i] == y);
                assert(y != x);
                assert(a.to_set().contains(y));
                assert(b.to_set().contains(y));
                let j = choose|j: int| 0 <= j < b.len() && b[j] == y;
                if j < k {
                    assert(b2[j] == y);
                } else {
                    assert(j != k);
                    assert(b2[j - 1] == y);
                }
            }
            if b2.to_set().contains(y) {
                let j = choose|j: int| 0 <= j < b2.len() && b2[j] == y;
                if j < k {
                    assert(b[j] == y);
                    assert(j != k);
                } else {
                    assert(b[j + 1] == y);
                }
                assert(y != x);
                assert(b.to_set().contains(y));
                assert(a.to_set().contains(y));
                let i = choose|i: int| 0 <= i < a.len() && a[i] == y;
                assert(i != a.len() - 1);
                assert(a2[i] == y);
            }
        }
        assert(a2.to_set() =~= b2.to_set());
        lemma_user_sum_same_set(a2, b2, weight);
    }
}

impl ShardedGraph {
    /// The edges one replicated user's replicas hold: its home list once per other shard.
    pub open spec fn replica_weight(&self) -> spec_fn(u64) -> int {
        |u: u64| self.following(u).len() * (self.shard_count_spec() - 1)
    }

    /// The edges all replicas hold together.
    pub open spec fn replicated_edge_total(&self) -> int {
        user_sum(
            choose|users: Seq<u64>| users.no_duplicates() && users.to_set() == self.replicated(),
            self.replica_weight(),
        )
    }

    /// Every shard holds `user_id` with the list its home shard holds.
    pub open spec fn replicas_agree(&self, user_id: u64) -> bool {
        forall|s: int| 0 <= s < self.shard_count_spec() ==> {
            &&& (#[trigger] self.graphs()[s]).has_user(user_id)
            &&& self.graphs()[s].following(user_id) == self.following(user_id)
        }
    }

    pub fn is_replicated(&self, user_id: u64) -> (result: bool)
        ensures
            result == self.replicated().contains(user_id),
    {
        self.replicated_users().contains(&user_id)
    }

    /// How many users are replicated and how many edges their replicas hold together
    /// (saturating at `usize::MAX`).
    pub fn replication_stats(&self) -> (result: ReplicationStats)
        requires
            self.wf(),
        ensures
            result.replicated_users == self.replicated().len(),
            result.total_replicated_edges == sat(self.replicated_edge_total()),
    {
        proof {
            self.lemma_wf_placement();
        }
        let n = self.shard_count();
        let users = self.replicated_users();
        let ghost weight = self.replica_weight();
        let ghost all = vstd::std_specs::hash::spec_hash_keys_iter(users).remaining().unref();
        let mut total: usize = 0;
        proof {
            vstd::std_specs::hash::axiom_spec_hash_keys_iter(users);
            assert(all.take(0) =~= Seq::<u64>::empty());
            assert(all.take(all.len() as int) =~= all);
        }
        for user_id in it: users.iter()
            invariant
                self.wf(),
                n == self.shard_count_spec(),
                0 < n,
                users@ == self.replicated(),
                weight == self.replica_weight(),
                it.seq().unref() == all,
                all.take(all.len() as int) == all,
                all.to_set() == self.replicated(),
                total == sat(user_sum(all.take(it.index() as int), weight)),
                user_sum(all.take(it.index() as int), weight) >= 0,
            ensures
                total == sat(user_sum(all, weight)),
        {
            let ghost i = it.index();
            proof {
                assert(all.take(i + 1).drop_last() =~= all.take(i as int));
                assert(all.take(i + 1).last() == *user_id);
                assert(all.to_set().contains(*user_id));
                self.lemma_wf_placement();
                assert(self.home(*user_id) is Some);
            }
            let home = match self.try_shard_for(*user_id) {
                Some(h) => h,
                None => 0,
            };
            let len = self.shard(home).get_following_ids(*user_id).len();
            let term: usize = match len.checked_mul(n - 1) {
                Some(t) => t,
                None => usize::MAX,
            };
            proof {
                assert(weight(*user_id) == len * (n - 1));
                assert(0 <= len * (n - 1)) by (nonlinear_arith)
                    requires
                        n >= 1,
                ;
                assert(term == sat(weight(*user_id)));
            }
            total = if usize::MAX - total < term { usize::MAX } else { total + term };
        }
        proof {
            assert(all.no_duplicates());
            let chosen = choose|u: Seq<u64>| u.no_duplicates() && u.to_set() == self.replicated();
            assert(all.no_duplicates() && all.to_set() == self.replicated());
            lemma_user_sum_same_set(all, chosen, weight);
        }
        ReplicationStats { replicated_users: users.len(), total_replicated_edges: total }
    }

    /// The list of `source` as its home shard stores it.
    pub fn get_following_ids_replicated(&self, source: u64) -> (result: &[u64])
        requires
            self.wf(),
        ensures
            result@ == self.following(source),
    {
        match self.try_shard_for(source) {
            Some(shard_id) => self.shard(shard_id).get_following_ids(source),
            None => &[],
        }
    }
}

/// `adjacency` after adding `source -> t` for each `t` of `targets` in turn.
pub open spec fn added_edges(adjacency: Map<u64, Seq<u64>>, source: u64, targets: Seq<u64>) -> Map<u64, Seq<u64>>
    decreases targets.len(),
{
    if targets.len() == 0 {
        adjacency
    } else {
        added_edge(added_edges(adjacency, source, targets.drop_last()), source, targets.last())
    }
}

/// `adjacency` after removing `source -> t` for each `t` of `targets` in turn.
pub open spec fn removed_edges(adjacency: Map<u64, Seq<u64>>, source: u64, targets: Seq<u64>) -> Map<u64, Seq<u64>>
    decreases targets.len(),
{
    if targets.len() == 0 {
        adjacency
    } else {
        removed_edge(removed_edges(adjacency, source, targets.drop_last()), source, targets.last())
    }
}

/// Copying a list without repeats to a user that has none gives that user the same list.
pub proof fn lemma_added_edges_fresh(adjacency: Map<u64, Seq<u64>>, source: u64, targets: Seq<u64>)
    requires
        targets.no_duplicates(),
        list_of(adjacency, source) == Seq::<u64>::empty(),
    ensures
        list_of(added_edges(adjacency, source, targets), source) == targets,
    decreases targets.len(),
{
    if targets.len() > 0 {
        let rest = targets.drop_last();
        lemma_added_edges_fresh(adjacency, source, rest);
        assert(!rest.contains(targets.last())) by {
            if rest.contains(targets.last()) {
                let i = choose|i: int| 0 <= i < rest.len() && rest[i] == targets.last();
                assert(targets[i] == targets[targets.len() - 1]);
            }
        }
        assert(rest.push(targets.last()) =~= targets);
    }
}

/// Adding edges from `source` leaves every other user's list as it was.
pub proof fn lemma_added_edges_other(adjacency: Map<u64, Seq<u64>>, source: u64, targets: Seq<u64>, other: u64)
    requires
        other != source,
    ensures
        added_edges(adjacency, source, targets).contains_key(other) == adjacency.contains_key(other),
        list_of(added_edges(adjacency, source, targets), other) == list_of(adjacency, other),
    decreases targets.len(),
{
    if targets.len() > 0 {
        lemma_added_edges_other(adjacency, source, targets.drop_last(), other);
    }
}

/// Removing edges from `source` and then `source`'s own entry is removing the entry.
pub proof fn lemma_removed_edges_then_entry(adjacency: Map<u64, Seq<u64>>, source: u64, targets: Seq<u64>)
    ensures
        removed_edges(adjacency, source, targets).remove(source) == adjacency.remove(source),
    decreases targets.len(),
{
    if targets.len() > 0 {
        lemma_removed_edges_then_entry(adjacency, source, targets.drop_last());
        let before = removed_edges(adjacency, source, targets.drop_last());
        assert(removed_edge(before, source, targets.last()).remove(source) =~= before.remove(source));
    }
}

impl ShardedGraph {
    /// Copies `user_id` and its list `list` onto shard `shard_id`.
    fn replicate_onto_shard(&mut self, shard_id: usize, user_id: u64, name: &str, list: &Vec<u64>)
        requires
            old(self).wf(),
            shard_id < old(self).shard_count_spec(),
            old(self).home(user_id) != Some(shard_id),
            old(self).replicated().contains(user_id),
        ensures
            final(self).wf(),
            final(self).same_meta(old(self)),
            final(self).same_shards_except(old(self), shard_id as int),
            final(self).graphs()[shard_id as int].names() == if old(self).graphs()[shard_id as int].has_user(user_id) {
                old(self).graphs()[shard_id as int].names()
            } else {
                old(self).graphs()[shard_id as int].names().insert(user_id, name@)
            },
            final(self).graphs()[shard_id as int].adjacency() == added_edges(old(self).graphs()[shard_id as int].adjacency(), user_id, list@),
    {
        proof {
            self.lemma_wf_placement();
        }
        if self.shard(shard_id).get_user(user_id).is_none() {
            let _ = self.shard_add_user(shard_id, user_id, name);
        }
        let ghost names = self.graphs()[shard_id as int].names();
        let ghost mid = self.graphs();
        proof {
            assert(list@.take(0) =~= Seq::<u64>::empty());
        }
        for e in 0..list.len()
            invariant
                self.wf(),
                self.same_meta(old(self)),
                self.replicated().contains(user_id),
                shard_id < self.shard_count_spec(),
                old(self).home(user_id) != Some(shard_id),
                self.graphs().len() == old(self).graphs().len(),
                forall|i: int| 0 <= i < old(self).graphs().len() && i != shard_id ==> #[trigger] self.graphs()[i] == old(self).graphs()[i],
                self.graphs()[shard_id as int].has_user(user_id),
                self.graphs()[shard_id as int].names() == names,
                names == if old(self).graphs()[shard_id as int].has_user(user_id) {
                    old(self).graphs()[shard_id as int].names()
                } else {
                    old(self).graphs()[shard_id as int].names().insert(user_id, name@)
                },
                self.graphs()[shard_id as int].adjacency() == added_edges(
                    old(self).graphs()[shard_id as int].adjacency(),
                    user_id,
                    list@.take(e as int),
                ),
        {
            let _ = self.shard_add_follow(shard_id, user_id, list[e]);
            proof {
                assert(list@.take(e + 1).drop_last() =~= list@.take(e as int));
            }
        }
        proof {
            assert(list@.take(list@.len() as int) =~= list@);
        }
    }

    /// Copies `user_id` and its adjacency list onto every shard, and into every other
    /// shard's cache when caching is on. The user must live on its home shard; a user that
    /// is replicated already is left as it is.
    pub fn replicate_user(&mut self, user_id: u64) -> (result: Result<ReplicationStats, GraphError>)
        requires
            old(self).wf(),
        ensures
            final(self).wf(),
            old(self).cache_list() is Some && crate::properties::caches_agree(old(self).cache_views(), old(self).graphs())
                ==> final(self).cache_list() is Some && crate::properties::caches_agree(final(self).cache_views(), final(self).graphs()),
            old(self).has_user(user_id) ==> final(self).replica_state() == replicated_state(
                old(self).replica_state(),
                old(self).home(user_id).unwrap() as int,
                user_id,
                old(self).cache_list().unwrap()[0].spec_capacity(),
                old(self).cache_list().unwrap()[0].spec_byte_capacity(),
                old(self).cache_list().unwrap()[0].spec_policy(),
            ),
            final(self).logical_names() == old(self).logical_names(),
            final(self).logical_adjacency() == old(self).logical_adjacency(),
            final(self).spec_placement() == old(self).spec_placement(),
            final(self).observed() == old(self).observed(),
            old(self).home(user_id) is None ==> result == Err::<ReplicationStats, GraphError>(GraphError::ShardNotFound(user_id)),
            old(self).home(user_id) is Some && !old(self).has_user(user_id) ==> result == Err::<ReplicationStats, GraphError>(
                GraphError::UserNotFound(user_id),
            ),
            !old(self).has_user(user_id) || old(self).replicated().contains(user_id) ==> {
                &&& final(self).graphs() == old(self).graphs()
                &&& final(self).cache_list() == old(self).cache_list()
                &&& final(self).replicated() == old(self).replicated()
            },
            old(self).has_user(user_id) ==> (result matches Ok(stats) && stats.replicated_users == final(self).replicated().len()
                && stats.total_replicated_edges == sat(final(self).replicated_edge_total())),
            old(self).has_user(user_id) ==> final(self).has_user(user_id) && final(self).replicated().contains(user_id),
            old(self).has_user(user_id) && !old(self).replicated().contains(user_id) ==> {
                let h = old(self).home(user_id).unwrap() as int;
                let list = old(self).following(user_id);
                let name = old(self).graphs()[h].names()[user_id];
                &&& final(self).replicated() == old(self).replicated().insert(user_id)
                &&& final(self).graphs().len() == old(self).graphs().len()
                &&& final(self).graphs()[h] == old(self).graphs()[h]
                &&& forall|s: int| 0 <= s < old(self).shard_count_spec() && s != h ==> {
                    &&& (#[trigger] final(self).graphs()[s]).names() == old(self).graphs()[s].names().insert(user_id, name)
                    &&& final(self).graphs()[s].adjacency() == added_edges(old(self).graphs()[s].adjacency(), user_id, list)
                }
                &&& final(self).replicas_agree(user_id)
                &&& old(self).cache_list() is None ==> final(self).cache_list() is None
                &&& old(self).cache_list() is Some ==> {
                    let settings = old(self).cache_list().unwrap()[0];
                    &&& final(self).cache_list() is Some
                    &&& final(self).cache_list().unwrap()[0].same_settings(&settings)
                    &&& final(self).cache_views() == Seq::new(
                        old(self).shard_count_spec(),
                        |s: int| if s == h {
                            old(self).cache_views()[s]
                        } else {
                            after_insert(
                                old(self).cache_views()[s],
                                settings.spec_capacity(),
                                settings.spec_byte_capacity(),
                                settings.spec_policy(),
                                user_id,
                                list,
                            )
                        },
                    )
                }
            },
    {
        proof {
            self.lemma_wf_placement();
        }
        let home_shard = match self.try_shard_for(user_id) {
            Some(h) => h,
            None => {
                return Err(GraphError::ShardNotFound(user_id));
            },
        };
        let user_name = match self.shard(home_shard).get_user(user_id) {
            Some(user) => user.name.clone(),
            None => {
                return Err(GraphError::UserNotFound(user_id));
            },
        };
        if self.replicated_users().contains(&user_id) {
            return Ok(self.replication_stats());
        }
        let adjacency_list = vstd::slice::slice_to_vec(self.shard(home_shard).get_following_ids(user_id));
        let ghost list = adjacency_list@;
        let ghost name = user_name@;
        let n = self.shard_count();
        proof {
            old(self).graphs()[home_shard as int].lemma_wf();
        }
        // Marked first, so that every intermediate state keeps the replicas invariant.
        self.mark_replicated(user_id);
        for s in 0..n
            invariant
                self.wf(),
                self.spec_placement() == old(self).spec_placement(),
                self.observed() == old(self).observed(),
                self.cache_list() == old(self).cache_list(),
                self.replicated() == old(self).replicated().insert(user_id),
                n == self.shard_count_spec(),
                n == old(self).shard_count_spec(),
                home_shard < n,
                old(self).home(user_id) == Some(home_shard),
                list == old(self).following(user_id),
                adjacency_list@ == list,
                name == old(self).graphs()[home_shard as int].names()[user_id],
                user_name@ == name,
                !old(self).replicated().contains(user_id),
                forall|t: int| 0 <= t < n && t != home_shard ==> !(#[trigger] old(self).graphs()[t]).has_user(user_id),
                self.graphs().len() == n,
                self.graphs()[home_shard as int] == old(self).graphs()[home_shard as int],
                forall|t: int| 0 <= t < s && t != home_shard ==> {
                    &&& (#[trigger] self.graphs()[t]).names() == old(self).graphs()[t].names().insert(user_id, name)
                    &&& self.graphs()[t].adjacency() == added_edges(old(self).graphs()[t].adjacency(), user_id, list)
                },
                forall|t: int| s <= t < n ==> #[trigger] self.graphs()[t] == old(self).graphs()[t],
        {
            if s != home_shard {
                self.replicate_onto_shard(s, user_id, user_name.as_str(), &adjacency_list);
            }
        }
        let ghost mid = self.graphs();
        proof {
            self.lemma_wf_placement();
            old(self).lemma_wf_placement();
        }
        if self.caches().is_some() {
            let ghost settings = self.cache_list().unwrap()[0];
            for s in 0..n
                invariant
                    self.wf(),
                    self.graphs() == mid,
                    self.spec_placement() == old(self).spec_placement(),
                    self.observed() == old(self).observed(),
                    self.replicated() == old(self).replicated().insert(user_id),
                    n == self.shard_count_spec(),
                    home_shard < n,
                    adjacency_list@ == list,
                    self.cache_list() is Some,
                    old(self).cache_list() is Some,
                    settings == old(self).cache_list().unwrap()[0],
                    self.cache_list().unwrap()[0].same_settings(&settings),
                    self.cache_views().len() == n,
                    old(self).cache_views().len() == n,
                    forall|t: int| 0 <= t < s && t != home_shard ==> #[trigger] self.cache_views()[t] == after_insert(
                        old(self).cache_views()[t],
                        settings.spec_capacity(),
                        settings.spec_byte_capacity(),
                        settings.spec_policy(),
                        user_id,
                        list,
                    ),
                    forall|t: int| (s <= t < n || t == home_shard) ==> #[trigger] self.cache_views()[t] == old(self).cache_views()[t],
            {
                if s != home_shard {
                    let copy = adjacency_list.clone();
                    proof {
                        assert(copy@ =~= adjacency_list@);
                    }
                    let _ = self.cache_insert(s, user_id, copy);
                }
            }
        }
        proof {
            if old(self).cache_list() is Some {
                let settings = old(self).cache_list().unwrap()[0];
                assert(self.cache_views() =~= Seq::new(
                    old(self).shard_count_spec(),
                    |s: int| if s == home_shard {
                        old(self).cache_views()[s]
                    } else {
                        after_insert(
                            old(self).cache_views()[s],
                            settings.spec_capacity(),
                            settings.spec_byte_capacity(),
                            settings.spec_policy(),
                            user_id,
                            list,
                        )
                    },
                ));
            }
            assert forall|t: int| 0 <= t < n implies {
                &&& (#[trigger] self.graphs()[t]).has_user(user_id)
                &&& self.graphs()[t].following(user_id) == self.following(user_id)
            } by {
                if t != home_shard {
                    old(self).graphs()[t].lemma_wf();
                    lemma_added_edges_fresh(old(self).graphs()[t].adjacency(), user_id, list);
                }
            }
            assert forall|u: u64| #[trigger] same_home_entry(*old(self), *self, u) by {
                if old(self).home(u) is Some && old(self).home(u).unwrap() != home_shard {
                    let h = old(self).home(u).unwrap();
                    assert(u != user_id);
                    lemma_added_edges_other(old(self).graphs()[h as int].adjacency(), user_id, list, u);
                    let a = added_edges(old(self).graphs()[h as int].adjacency(), user_id, list);
                    if a.contains_key(u) {
                        assert(list_of(a, u) == a[u]);
                        assert(list_of(old(self).graphs()[h as int].adjacency(), u) == old(self).graphs()[h as int].adjacency()[u]);
                    }
                }
            }
            lemma_logical_from_homes(*old(self), *self);
            let before = old(self).replica_state();
            let after = self.replica_state();
            let h = home_shard as int;
            assert(list == list_of(before.adjacency[h], user_id));
            assert(name == before.names[h][user_id]);
            assert(after.names =~= Seq::new(
                before.names.len(),
                |s: int| if s == h { before.names[s] } else { before.names[s].insert(user_id, name) },
            ));
            assert(after.adjacency =~= Seq::new(
                before.adjacency.len(),
                |s: int| if s == h { before.adjacency[s] } else { added_edges(before.adjacency[s], user_id, list) },
            ));
            let settings = old(self).cache_list().unwrap()[0];
            let expected = replicated_state(before, h, user_id, settings.spec_capacity(), settings.spec_byte_capacity(), settings.spec_policy());
            if old(self).cache_list() is Some {
                let c = old(self).cache_views();
                assert(before.caches == Some(c));
                assert(after.caches == Some(self.cache_views()));
                assert(self.cache_views() =~= Seq::new(
                    c.len(),
                    |s: int| if s == h { c[s] } else { after_insert(c[s], settings.spec_capacity(), settings.spec_byte_capacity(), settings.spec_policy(), user_id, list) },
                ));
                assert(after.caches == expected.caches);
            } else {
                assert(after.caches == expected.caches);
            }
            assert(after.replicated == expected.replicated);
            assert(after.names == expected.names);
            assert(after.adjacency == expected.adjacency);
            if old(self).cache_list() is Some && crate::properties::caches_agree(old(self).cache_views(), old(self).graphs()) {
                let bc = old(self).cache_views();
                let ac = self.cache_views();
                assert forall|t: int| 0 <= t < bc.len() implies crate::cache::keys_distinct(#[trigger] bc[t]) by {
                    old(self).cache_list().unwrap()[t].lemma_keys_distinct();
                }
                assert forall|t: int, u: u64| 0 <= t < n && u != user_id implies #[trigger] list_of(self.graphs()[t].adjacency(), u)
                    == list_of(old(self).graphs()[t].adjacency(), u) by {
                    if t != h {
                        lemma_added_edges_other(old(self).graphs()[t].adjacency(), user_id, list, u);
                    }
                }
                assert forall|t: int| 0 <= t < bc.len() implies #[trigger] crate::properties::cache_follows_user(
                    bc[t],
                    ac[t],
                    old(self).graphs()[t].adjacency(),
                    self.graphs()[t].adjacency(),
                    user_id,
                    settings.spec_capacity(),
                    settings.spec_byte_capacity(),
                    settings.spec_policy(),
                ) by {
                    if t != h {
                        assert(self.graphs()[t].following(user_id) == list);
                    }
                }
                crate::properties::lemma_caches_follow_user(
                    bc,
                    old(self).graphs(),
                    ac,
                    self.graphs(),
                    user_id,
                    settings.spec_capacity(),
                    settings.spec_byte_capacity(),
                    settings.spec_policy(),
                );
            }
        }
        Ok(self.replication_stats())
    }
}

impl ShardedGraph {
    /// Removes `user_id`, its list `list` and its own entry from shard `shard_id`, and its
    /// cached list from that shard's cache.
    fn unreplicate_from_shard(&mut self, shard_id: usize, user_id: u64, list: &Vec<u64>)
        requires
            old(self).wf(),
            shard_id < old(self).shard_count_spec(),
            old(self).home(user_id) != Some(shard_id),
        ensures
            final(self).wf(),
            final(self).spec_placement() == old(self).spec_placement(),
            final(self).observed() == old(self).observed(),
            final(self).replicated() == old(self).replicated(),
            final(self).same_shards_except(old(self), shard_id as int),
            final(self).graphs()[shard_id as int].names() == old(self).graphs()[shard_id as int].names().remove(user_id),
            final(self).graphs()[shard_id as int].adjacency() == old(self).graphs()[shard_id as int].adjacency().remove(user_id),
            crate::sharded::caches_invalidated(old(self).cache_list(), final(self).cache_list(), shard_id as int, user_id),
    {
        let ghost adjacency = self.graphs()[shard_id as int].adjacency();
        let ghost names = self.graphs()[shard_id as int].names();
        proof {
            assert(list@.take(0) =~= Seq::<u64>::empty());
        }
        for e in 0..list.len()
            invariant
                self.wf(),
                self.same_meta(old(self)),
                shard_id < self.shard_count_spec(),
                self.same_shards_except(old(self), shard_id as int),
                self.graphs()[shard_id as int].names() == names,
                names == old(self).graphs()[shard_id as int].names(),
                adjacency == old(self).graphs()[shard_id as int].adjacency(),
                self.graphs()[shard_id as int].adjacency() == removed_edges(adjacency, user_id, list@.take(e as int)),
        {
            proof {
                self.lemma_wf_placement();
                self.graphs()[shard_id as int].lemma_wf();
            }
            let _ = self.shard_remove_follow(shard_id, user_id, list[e]);
            proof {
                assert(list@.take(e + 1).drop_last() =~= list@.take(e as int));
            }
        }
        let _ = self.shard_remove_follow(shard_id, user_id, user_id);
        let _ = self.shard_remove_user(shard_id, user_id);
        proof {
            let all = list@.push(user_id);
            assert(list@.take(list@.len() as int) =~= list@);
            assert(all.drop_last() =~= list@);
            lemma_removed_edges_then_entry(adjacency, user_id, all);
        }
        let ghost before = self.cache_list();
        self.invalidate_cached_adjacency(shard_id, user_id);
    }

    /// Drops every replica of `user_id`: every shard but its home shard loses the user, its
    /// list and its cached list. A user that is not replicated is left as it is.
    pub fn unreplicate_user(&mut self, user_id: u64) -> (result: Result<(), GraphError>)
        requires
            old(self).wf(),
        ensures
            final(self).wf(),
            old(self).cache_list() is Some && crate::properties::caches_agree(old(self).cache_views(), old(self).graphs())
                ==> final(self).cache_list() is Some && crate::properties::caches_agree(final(self).cache_views(), final(self).graphs()),
            final(self).logical_names() == old(self).logical_names(),
            final(self).logical_adjacency() == old(self).logical_adjacency(),
            final(self).spec_placement() == old(self).spec_placement(),
            final(self).observed() == old(self).observed(),
            result is Ok,
            old(self).replicated().contains(user_id) ==> final(self).replica_state() == unreplicated_state(
                old(self).replica_state(),
                old(self).home(user_id).unwrap() as int,
                user_id,
            ),
            !old(self).replicated().contains(user_id) ==> {
                &&& final(self).graphs() == old(self).graphs()
                &&& final(self).cache_list() == old(self).cache_list()
                &&& final(self).replicated() == old(self).replicated()
            },
            old(self).replicated().contains(user_id) ==> {
                let h = old(self).home(user_id).unwrap() as int;
                &&& final(self).replicated() == old(self).replicated().remove(user_id)
                &&& final(self).graphs().len() == old(self).graphs().len()
                &&& final(self).graphs()[h] == old(self).graphs()[h]
                &&& forall|s: int| 0 <= s < old(self).shard_count_spec() && s != h ==> {
                    &&& (#[trigger] final(self).graphs()[s]).names() == old(self).graphs()[s].names().remove(user_id)
                    &&& final(self).graphs()[s].adjacency() == old(self).graphs()[s].adjacency().remove(user_id)
                }
                &&& old(self).cache_list() is None ==> final(self).cache_list() is None
                &&& old(self).cache_list() is Some ==> {
                    &&& final(self).cache_list() is Some
                    &&& final(self).cache_list().unwrap()[0].same_settings(&old(self).cache_list().unwrap()[0])
                    &&& final(self).cache_views() == Seq::new(
                        old(self).shard_count_spec(),
                        |s: int| if s == h {
                            old(self).cache_views()[s]
                        } else {
                            without_key(old(self).cache_views()[s], user_id)
                        },
                    )
                }
            },
    {
        proof {
            self.lemma_wf_placement();
        }
        if !self.replicated_users().contains(&user_id) {
            return Ok(());
        }
        let home_shard = match self.try_shard_for(user_id) {
            Some(h) => h,
            None => {
                return Err(GraphError::ShardNotFound(user_id));
            },
        };
        let adjacency_list = vstd::slice::slice_to_vec(self.shard(home_shard).get_following_ids(user_id));
        let n = self.shard_count();
        for s in 0..n
            invariant
                self.wf(),
                self.spec_placement() == old(self).spec_placement(),
                self.observed() == old(self).observed(),
                self.replicated() == old(self).replicated(),
                n == self.shard_count_spec(),
                n == old(self).shard_count_spec(),
                home_shard < n,
                old(self).home(user_id) == Some(home_shard),
                self.graphs().len() == n,
                self.graphs()[home_shard as int] == old(self).graphs()[home_shard as int],
                forall|t: int| 0 <= t < s && t != home_shard ==> {
                    &&& (#[trigger] self.graphs()[t]).names() == old(self).graphs()[t].names().remove(user_id)
                    &&& self.graphs()[t].adjacency() == old(self).graphs()[t].adjacency().remove(user_id)
                },
                forall|t: int| s <= t < n ==> #[trigger] self.graphs()[t] == old(self).graphs()[t],
                old(self).cache_list() is None ==> self.cache_list() is None,
                old(self).cache_list() is Some ==> {
                    &&& self.cache_list() is Some
                    &&& self.cache_list().unwrap().len() == n
                    &&& old(self).cache_list().unwrap().len() == n
                    &&& self.cache_list().unwrap()[0].same_settings(&old(self).cache_list().unwrap()[0])
                    &&& forall|t: int| 0 <= t < s && t != home_shard ==> (#[trigger] self.cache_list().unwrap()[t])@
                        == without_key(old(self).cache_list().unwrap()[t]@, user_id)
                    &&& forall|t: int| (s <= t < n || t == home_shard) ==> #[trigger] self.cache_list().unwrap()[t]
                        == old(self).cache_list().unwrap()[t]
                },
        {
            if s != home_shard {
                let ghost before = self.cache_list();
                self.unreplicate_from_shard(s, user_id, &adjacency_list);
                proof {
                    if old(self).cache_list() is Some {
                        let b = before.unwrap();
                        let a = self.cache_list().unwrap();
                        if s == 0 {
                            assert(a[0].same_settings(&b[0]));
                        } else {
                            assert(a[0] == b[0]);
                        }
                    }
                }
            }
        }
        proof {
            assert forall|t: int| 0 <= t < n && old(self).home(user_id) != Some(t as usize)
                implies !#[trigger] self.graphs()[t].has_user(user_id) by {
                assert(t != home_shard);
            }
        }
        self.unmark_replicated(user_id);
        proof {
            if old(self).cache_list() is Some {
                assert(self.cache_views() =~= Seq::new(
                    old(self).shard_count_spec(),
                    |s: int| if s == home_shard {
                        old(self).cache_views()[s]
                    } else {
                        without_key(old(self).cache_views()[s], user_id)
                    },
                ));
            }
            assert forall|u: u64| #[trigger] same_home_entry(*old(self), *self, u) by {
                if old(self).home(u) is Some && old(self).home(u).unwrap() != home_shard {
                    assert(u != user_id);
                }
            }
            lemma_logical_from_homes(*old(self), *self);
            if old(self).cache_list() is Some && crate::properties::caches_agree(old(self).cache_views(), old(self).graphs()) {
                let settings = old(self).cache_list().unwrap()[0];
                let bc = old(self).cache_views();
                let ac = self.cache_views();
                assert forall|t: int| 0 <= t < bc.len() implies crate::cache::keys_distinct(#[trigger] bc[t]) by {
                    old(self).cache_list().unwrap()[t].lemma_keys_distinct();
                }
                assert forall|t: int, u: u64| 0 <= t < old(self).shard_count_spec() && u != user_id implies #[trigger] list_of(
                    self.graphs()[t].adjacency(),
                    u,
                ) == list_of(old(self).graphs()[t].adjacency(), u) by {}
                assert forall|t: int| 0 <= t < bc.len() implies #[trigger] crate::properties::cache_follows_user(
                    bc[t],
                    ac[t],
                    old(self).graphs()[t].adjacency(),
                    self.graphs()[t].adjacency(),
                    user_id,
                    settings.spec_capacity(),
                    settings.spec_byte_capacity(),
                    settings.spec_policy(),
                ) by {}
                crate::properties::lemma_caches_follow_user(
                    bc,
                    old(self).graphs(),
                    ac,
                    self.graphs(),
                    user_id,
                    settings.spec_capacity(),
                    settings.spec_byte_capacity(),
                    settings.spec_policy(),
                );
            }
            let st = old(self).replica_state();
            let back = unreplicated_state(st, home_shard as int, user_id);
            let now = self.replica_state();
            assert(now.names =~= back.names);
            assert(now.adjacency =~= back.adjacency);
            if old(self).cache_list() is Some {
                assert(now.caches.unwrap() =~= back.caches.unwrap());
            }
        }
        Ok(())
    }
}

impl ShardedGraph {
    /// Adds `source -> target` on the source's home shard and, when the edge is new and the
    /// source is replicated, on every replica; a new edge drops the source's cached lists
    /// wherever the source's list changed or is replicated. Both users must exist.
    pub fn add_follow_replicated(&mut self, source: u64, target: u64) -> (result: Result<(), GraphError>)
        requires
            old(self).wf(),
        ensures
            final(self).wf(),
            old(self).cache_list() is Some && crate::properties::caches_agree(old(self).cache_views(), old(self).graphs())
                ==> final(self).cache_list() is Some && crate::properties::caches_agree(final(self).cache_views(), final(self).graphs()),
            final(self).spec_placement() == old(self).spec_placement(),
            final(self).observed() == old(self).observed(),
            final(self).replicated() == old(self).replicated(),
            !old(self).has_user(source) ==> result == Err::<(), GraphError>(GraphError::SourceUserNotFound(source)),
            old(self).has_user(source) && !old(self).has_user(target) ==> result == Err::<(), GraphError>(
                GraphError::TargetUserNotFound(target),
            ),
            result is Err ==> final(self).graphs() == old(self).graphs() && final(self).cache_list() == old(self).cache_list(),
            old(self).has_user(source) && old(self).has_user(target) ==> result is Ok && ({
                let h = old(self).home(source).unwrap() as int;
                let spread = !old(self).following(source).contains(target) && old(self).replicated().contains(source);
                &&& final(self).graphs().len() == old(self).graphs().len()
                &&& final(self).graphs()[h].names() == old(self).graphs()[h].names()
                &&& final(self).graphs()[h].adjacency() == added_edge(old(self).graphs()[h].adjacency(), source, target)
                &&& forall|s: int| 0 <= s < old(self).shard_count_spec() && s != h ==> {
                    &&& (#[trigger] final(self).graphs()[s]).names() == old(self).graphs()[s].names()
                    &&& final(self).graphs()[s].adjacency() == if spread && old(self).graphs()[s].has_user(source) {
                        added_edge(old(self).graphs()[s].adjacency(), source, target)
                    } else {
                        old(self).graphs()[s].adjacency()
                    }
                }
                &&& old(self).following(source).contains(target) ==> final(self).cache_list() == old(self).cache_list()
                &&& !old(self).following(source).contains(target) && old(self).cache_list() is None ==> final(self).cache_list() is None
                &&& !old(self).following(source).contains(target) && old(self).cache_list() is Some ==> {
                    &&& final(self).cache_list() is Some
                    &&& final(self).cache_list().unwrap()[0].same_settings(&old(self).cache_list().unwrap()[0])
                    &&& final(self).cache_views() == Seq::new(
                        old(self).shard_count_spec(),
                        |s: int| if s == h || spread {
                            without_key(old(self).cache_views()[s], source)
                        } else {
                            old(self).cache_views()[s]
                        },
                    )
                }
                &&& old(self).replicas_agree(source) ==> final(self).replicas_agree(source)
                &&& old(self).replicas_agree(source) ==> forall|s: int| 0 <= s < old(self).shard_count_spec()
                    ==> #[trigger] final(self).graphs()[s].following(source)
                        == list_of(added_edge(old(self).graphs()[h].adjacency(), source, target), source)
            }),
    {
        proof {
            self.lemma_wf_placement();
        }
        if self.get_user(source).is_none() {
            return Err(GraphError::SourceUserNotFound(source));
        }
        if self.get_user(target).is_none() {
            return Err(GraphError::TargetUserNotFound(target));
        }
        let source_shard = match self.try_shard_for(source) {
            Some(s) => s,
            None => {
                return Err(GraphError::ShardNotFound(source));
            },
        };
        let changed = !contains_id(self.shard(source_shard).get_following_ids(source), target);
        match self.shard_add_follow(source_shard, source, target) {
            Ok(()) => {},
            Err(e) => {
                return Err(e);
            },
        }
        let ghost after_home = self.graphs();
        let ghost h = source_shard as int;
        let ghost spread = changed && old(self).replicated().contains(source);
        let n = self.shard_count();
        proof {
            old(self).lemma_wf_placement();
        }
        if changed && self.is_replicated(source) {
            for shard_id in 0..n
                invariant
                    self.wf(),
                    self.spec_placement() == old(self).spec_placement(),
                    self.observed() == old(self).observed(),
                    self.replicated() == old(self).replicated(),
                    n == self.shard_count_spec(),
                    n == old(self).shard_count_spec(),
                    source_shard < n,
                    old(self).home(source) == Some(source_shard),
                    spread,
                    self.graphs().len() == n,
                    h == source_shard as int,
                    after_home.len() == n,
                    self.graphs()[h] == after_home[h],
                    forall|t: int| 0 <= t < shard_id && t != h ==> {
                        &&& (#[trigger] self.graphs()[t]).names() == old(self).graphs()[t].names()
                        &&& self.graphs()[t].adjacency() == if old(self).graphs()[t].has_user(source) {
                            added_edge(old(self).graphs()[t].adjacency(), source, target)
                        } else {
                            old(self).graphs()[t].adjacency()
                        }
                    },
                    forall|t: int| shard_id <= t < n && t != h ==> #[trigger] self.graphs()[t] == old(self).graphs()[t],
                    old(self).cache_list() is None ==> self.cache_list() is None,
                    old(self).cache_list() is Some ==> {
                        &&& self.cache_list() is Some
                        &&& self.cache_list().unwrap().len() == n
                        &&& old(self).cache_list().unwrap().len() == n
                        &&& self.cache_list().unwrap()[0].same_settings(&old(self).cache_list().unwrap()[0])
                        &&& forall|t: int| 0 <= t < shard_id && t != h ==> (#[trigger] self.cache_list().unwrap()[t])@
                            == without_key(old(self).cache_list().unwrap()[t]@, source)
                        &&& forall|t: int| (shard_id <= t < n || t == h) ==> #[trigger] self.cache_list().unwrap()[t]
                            == old(self).cache_list().unwrap()[t]
                    },
            {
                if shard_id != source_shard {
                    let _ = self.shard_add_follow(shard_id, source, target);
                    let ghost before = self.cache_list();
                    self.invalidate_cached_adjacency(shard_id, source);
                    proof {
                        if old(self).cache_list() is Some {
                            let b = before.unwrap();
                            let a = self.cache_list().unwrap();
                            let o = old(self).cache_list().unwrap();
                            if shard_id == 0 {
                                assert(a[0].same_settings(&b[0]));
                            } else {
                                assert(a[0] == b[0]);
                            }
                            assert forall|t: int| 0 <= t < shard_id + 1 && t != h
                                implies (#[trigger] a[t])@ == without_key(o[t]@, source) by {
                                if t != shard_id {
                                    assert(a[t] == b[t]);
                                }
                            }
                            assert forall|t: int| (shard_id + 1 <= t < n || t == h) implies #[trigger] a[t] == o[t] by {
                                assert(a[t] == b[t]);
                            }
                        }
                    }
                }
            }
        }
        if changed {
            let ghost before = self.cache_list();
            self.invalidate_cached_adjacency(source_shard, source);
            proof {
                if old(self).cache_list() is Some {
                    let b = before.unwrap();
                    let a = self.cache_list().unwrap();
                    if source_shard == 0 {
                        assert(a[0].same_settings(&b[0]));
                    } else {
                        assert(a[0] == b[0]);
                    }
                    assert(self.cache_views() =~= Seq::new(
                        old(self).shard_count_spec(),
                        |s: int| if s == h || spread {
                            without_key(old(self).cache_views()[s], source)
                        } else {
                            old(self).cache_views()[s]
                        },
                    ));
                }
            }
        }
        proof {
            if old(self).replicas_agree(source) {
                assert forall|t: int| 0 <= t < n implies {
                    &&& (#[trigger] self.graphs()[t]).has_user(source)
                    &&& self.graphs()[t].following(source) == self.following(source)
                } by {
                    assert(old(self).graphs()[t].has_user(source));
                    assert(old(self).graphs()[t].following(source) == old(self).following(source));
                    if t != h && !old(self).replicated().contains(source) {
                        assert(!old(self).graphs()[t].has_user(source));
                    }
                }
            }
        }
        proof {
            if old(self).cache_list() is Some && crate::properties::caches_agree(old(self).cache_views(), old(self).graphs()) {
                old(self).lemma_wf_placement();
                let settings = old(self).cache_list().unwrap()[0];
                let h = old(self).home(source).unwrap() as int;
                let changed = !old(self).following(source).contains(target);
                let spread = changed && old(self).replicated().contains(source);
                let bc = old(self).cache_views();
                let ac = self.cache_views();
                assert forall|t: int| 0 <= t < bc.len() implies crate::cache::keys_distinct(#[trigger] bc[t]) by {
                    old(self).cache_list().unwrap()[t].lemma_keys_distinct();
                }
                assert forall|t: int, u: u64| 0 <= t < old(self).shard_count_spec() && u != source implies #[trigger] list_of(
                    self.graphs()[t].adjacency(),
                    u,
                ) == list_of(old(self).graphs()[t].adjacency(), u) by {}
                assert forall|t: int| 0 <= t < bc.len() implies #[trigger] crate::properties::cache_follows_user(
                    bc[t],
                    ac[t],
                    old(self).graphs()[t].adjacency(),
                    self.graphs()[t].adjacency(),
                    source,
                    settings.spec_capacity(),
                    settings.spec_byte_capacity(),
                    settings.spec_policy(),
                ) by {
                    if !changed {
                        assert(ac[t] == bc[t]);
                        if t == h {
                            assert(list_of(self.graphs()[t].adjacency(), source) == list_of(old(self).graphs()[t].adjacency(), source));
                        }
                    } else if t != h && !spread {
                        assert(ac[t] == bc[t]);
                    }
                }
                crate::properties::lemma_caches_follow_user(
                    bc,
                    old(self).graphs(),
                    ac,
                    self.graphs(),
                    source,
                    settings.spec_capacity(),
                    settings.spec_byte_capacity(),
                    settings.spec_policy(),
                );
            }
        }
        Ok(())
    }

    /// Removes `source -> target` from the source's home shard and, when the edge existed and
    /// the source is replicated, from every replica; a removed edge drops the source's cached
    /// lists wherever the source's list changed or is replicated. Both users must exist.
    /// Returns whether the edge existed.
    pub fn remove_follow_replicated(&mut self, source: u64, target: u64) -> (result: Result<bool, GraphError>)
        requires
            old(self).wf(),
        ensures
            final(self).wf(),
            old(self).cache_list() is Some && crate::properties::caches_agree(old(self).cache_views(), old(self).graphs())
                ==> final(self).cache_list() is Some && crate::properties::caches_agree(final(self).cache_views(), final(self).graphs()),
            final(self).spec_placement() == old(self).spec_placement(),
            final(self).observed() == old(self).observed(),
            final(self).replicated() == old(self).replicated(),
            !old(self).has_user(source) ==> result == Err::<bool, GraphError>(GraphError::SourceUserNotFound(source)),
            old(self).has_user(source) && !old(self).has_user(target) ==> result == Err::<bool, GraphError>(
                GraphError::TargetUserNotFound(target),
            ),
            result is Err ==> final(self).graphs() == old(self).graphs() && final(self).cache_list() == old(self).cache_list(),
            old(self).has_user(source) && old(self).has_user(target) ==> result == Ok::<bool, GraphError>(old(self).following(source).contains(target)) && ({
                let h = old(self).home(source).unwrap() as int;
                let spread = old(self).following(source).contains(target) && old(self).replicated().contains(source);
                &&& final(self).graphs().len() == old(self).graphs().len()
                &&& final(self).graphs()[h].names() == old(self).graphs()[h].names()
                &&& final(self).graphs()[h].adjacency() == removed_edge(old(self).graphs()[h].adjacency(), source, target)
                &&& forall|s: int| 0 <= s < old(self).shard_count_spec() && s != h ==> {
                    &&& (#[trigger] final(self).graphs()[s]).names() == old(self).graphs()[s].names()
                    &&& final(self).graphs()[s].adjacency() == if spread && old(self).graphs()[s].has_user(source) {
                        removed_edge(old(self).graphs()[s].adjacency(), source, target)
                    } else {
                        old(self).graphs()[s].adjacency()
                    }
                }
                &&& !old(self).following(source).contains(target) ==> final(self).cache_list() == old(self).cache_list()
                &&& old(self).following(source).contains(target) && old(self).cache_list() is None ==> final(self).cache_list() is None
                &&& old(self).following(source).contains(target) && old(self).cache_list() is Some ==> {
                    &&& final(self).cache_list() is Some
                    &&& final(self).cache_list().unwrap()[0].same_settings(&old(self).cache_list().unwrap()[0])
                    &&& final(self).cache_views() == Seq::new(
                        old(self).shard_count_spec(),
                        |s: int| if s == h || spread {
                            without_key(old(self).cache_views()[s], source)
                        } else {
                            old(self).cache_views()[s]
                        },
                    )
                }
                &&& old(self).replicas_agree(source) ==> final(self).replicas_agree(source)
                &&& old(self).replicas_agree(source) ==> forall|s: int| 0 <= s < old(self).shard_count_spec()
                    ==> #[trigger] final(self).graphs()[s].following(source)
                        == list_of(removed_edge(old(self).graphs()[h].adjacency(), source, target), source)
            }),
    {
        proof {
            self.lemma_wf_placement();
        }
        if self.get_user(source).is_none() {
            return Err(GraphError::SourceUserNotFound(source));
        }
        if self.get_user(target).is_none() {
            return Err(GraphError::TargetUserNotFound(target));
        }
        let source_shard = match self.try_shard_for(source) {
            Some(s) => s,
            None => {
                return Err(GraphError::ShardNotFound(source));
            },
        };
        let changed = match self.shard_remove_follow(source_shard, source, target) {
            Ok(removed) => removed,
            Err(e) => {
                return Err(e);
            },
        };
        let ghost after_home = self.graphs();
        let ghost h = source_shard as int;
        let ghost spread = changed && old(self).replicated().contains(source);
        let n = self.shard_count();
        proof {
            old(self).lemma_wf_placement();
        }
        if changed && self.is_replicated(source) {
            for shard_id in 0..n
                invariant
                    self.wf(),
                    self.spec_placement() == old(self).spec_placement(),
                    self.observed() == old(self).observed(),
                    self.replicated() == old(self).replicated(),
                    n == self.shard_count_spec(),
                    n == old(self).shard_count_spec(),
                    source_shard < n,
                    old(self).home(source) == Some(source_shard),
                    spread,
                    self.graphs().len() == n,
                    h == source_shard as int,
                    after_home.len() == n,
                    self.graphs()[h] == after_home[h],
                    forall|t: int| 0 <= t < shard_id && t != h ==> {
                        &&& (#[trigger] self.graphs()[t]).names() == old(self).graphs()[t].names()
                        &&& self.graphs()[t].adjacency() == if old(self).graphs()[t].has_user(source) {
                            removed_edge(old(self).graphs()[t].adjacency(), source, target)
                        } else {
                            old(self).graphs()[t].adjacency()
                        }
                    },
                    forall|t: int| shard_id <= t < n && t != h ==> #[trigger] self.graphs()[t] == old(self).graphs()[t],
                    old(self).cache_list() is None ==> self.cache_list() is None,
                    old(self).cache_list() is Some ==> {
                        &&& self.cache_list() is Some
                        &&& self.cache_list().unwrap().len() == n
                        &&& old(self).cache_list().unwrap().len() == n
                        &&& self.cache_list().unwrap()[0].same_settings(&old(self).cache_list().unwrap()[0])
                        &&& forall|t: int| 0 <= t < shard_id && t != h ==> (#[trigger] self.cache_list().unwrap()[t])@
                            == without_key(old(self).cache_list().unwrap()[t]@, source)
                        &&& forall|t: int| (shard_id <= t < n || t == h) ==> #[trigger] self.cache_list().unwrap()[t]
                            == old(self).cache_list().unwrap()[t]
                    },
            {
                if shard_id != source_shard {
                    let _ = self.shard_remove_follow(shard_id, source, target);
                    let ghost before = self.cache_list();
                    self.invalidate_cached_adjacency(shard_id, source);
                    proof {
                        if old(self).cache_list() is Some {
                            let b = before.unwrap();
                            let a = self.cache_list().unwrap();
                            let o = old(self).cache_list().unwrap();
                            if shard_id == 0 {
                                assert(a[0].same_settings(&b[0]));
                            } else {
                                assert(a[0] == b[0]);
                            }
                            assert forall|t: int| 0 <= t < shard_id + 1 && t != h
                                implies (#[trigger] a[t])@ == without_key(o[t]@, source) by {
                                if t != shard_id {
                                    assert(a[t] == b[t]);
                                }
                            }
                            assert forall|t: int| (shard_id + 1 <= t < n || t == h) implies #[trigger] a[t] == o[t] by {
                                assert(a[t] == b[t]);
                            }
                        }
                    }
                }
            }
        }
        if changed {
            let ghost before = self.cache_list();
            self.invalidate_cached_adjacency(source_shard, source);
            proof {
                if old(self).cache_list() is Some {
                    let b = before.unwrap();
                    let a = self.cache_list().unwrap();
                    if source_shard == 0 {
                        assert(a[0].same_settings(&b[0]));
                    } else {
                        assert(a[0] == b[0]);
                    }
                    assert(self.cache_views() =~= Seq::new(
                        old(self).shard_count_spec(),
                        |s: int| if s == h || spread {
                            without_key(old(self).cache_views()[s], source)
                        } else {
                            old(self).cache_views()[s]
                        },
                    ));
                }
            }
        }
        proof {
            if old(self).replicas_agree(source) {
                assert forall|t: int| 0 <= t < n implies {
                    &&& (#[trigger] self.graphs()[t]).has_user(source)
                    &&& self.graphs()[t].following(source) == self.following(source)
                } by {
                    assert(old(self).graphs()[t].has_user(source));
                    assert(old(self).graphs()[t].following(source) == old(self).following(source));
                    if t != h && !old(self).replicated().contains(source) {
                        assert(!old(self).graphs()[t].has_user(source));
                    }
                }
            }
        }
        proof {
            if old(self).cache_list() is Some && crate::properties::caches_agree(old(self).cache_views(), old(self).graphs()) {
                old(self).lemma_wf_placement();
                let settings = old(self).cache_list().unwrap()[0];
                let h = old(self).home(source).unwrap() as int;
                let changed = old(self).following(source).contains(target);
                let spread = changed && old(self).replicated().contains(source);
                let bc = old(self).cache_views();
                let ac = self.cache_views();
                assert forall|t: int| 0 <= t < bc.len() implies crate::cache::keys_distinct(#[trigger] bc[t]) by {
                    old(self).cache_list().unwrap()[t].lemma_keys_distinct();
                }
                assert forall|t: int, u: u64| 0 <= t < old(self).shard_count_spec() && u != source implies #[trigger] list_of(
                    self.graphs()[t].adjacency(),
                    u,
                ) == list_of(old(self).graphs()[t].adjacency(), u) by {}
                assert forall|t: int| 0 <= t < bc.len() implies #[trigger] crate::properties::cache_follows_user(
                    bc[t],
                    ac[t],
                    old(self).graphs()[t].adjacency(),
                    self.graphs()[t].adjacency(),
                    source,
                    settings.spec_capacity(),
                    settings.spec_byte_capacity(),
                    settings.spec_policy(),
                ) by {
                    if !changed {
                        assert(ac[t] == bc[t]);
                        if t == h {
                            assert(list_of(self.graphs()[t].adjacency(), source) == list_of(old(self).graphs()[t].adjacency(), source));
                        }
                    } else if t != h && !spread {
                        assert(ac[t] == bc[t]);
                    }
                }
                crate::properties::lemma_caches_follow_user(
                    bc,
                    old(self).graphs(),
                    ac,
                    self.graphs(),
                    source,
                    settings.spec_capacity(),
                    settings.spec_byte_capacity(),
                    settings.spec_policy(),
                );
            }
        }
        Ok(changed)
    }
}

impl ShardedGraph {
    /// The first of `hubs` that has a home shard but is missing there.
    pub open spec fn first_missing_hub(&self, hubs: Seq<u64>) -> Option<u64>
        decreases hubs.len(),
    {
        if hubs.len() == 0 {
            None
        } else {
            match self.first_missing_hub(hubs.drop_last()) {
                Some(m) => Some(m),
                None => if self.home(hubs.last()) is Some && !self.has_user(hubs.last()) {
                    Some(hubs.last())
                } else {
                    None
                },
            }
        }
    }

    /// The users of `hubs` that have a home shard.
    pub open spec fn placed_hubs(&self, hubs: Seq<u64>) -> Set<u64> {
        hubs.to_set().filter(|u: u64| self.home(u) is Some)
    }

    proof fn lemma_placed_hubs_push(&self, hubs: Seq<u64>, hub: u64)
        ensures
            self.placed_hubs(hubs.push(hub)) == if self.home(hub) is Some {
                self.placed_hubs(hubs).insert(hub)
            } else {
                self.placed_hubs(hubs)
            },
    {
        hubs.lemma_push_to_set_commute(hub);
        assert(self.placed_hubs(hubs.push(hub)) =~= if self.home(hub) is Some {
            self.placed_hubs(hubs).insert(hub)
        } else {
            self.placed_hubs(hubs)
        });
    }

    /// The position of the first of `hubs` that has a home shard but is missing there.
    pub open spec fn missing_index(&self, hubs: Seq<u64>) -> Option<int>
        decreases hubs.len(),
    {
        if hubs.len() == 0 {
            None
        } else {
            match self.missing_index(hubs.drop_last()) {
                Some(k) => Some(k),
                None => if self.home(hubs.last()) is Some && !self.has_user(hubs.last()) {
                    Some(hubs.len() - 1)
                } else {
                    None
                },
            }
        }
    }

    proof fn lemma_missing_index(&self, hubs: Seq<u64>)
        ensures
            self.missing_index(hubs) is None <==> self.first_missing_hub(hubs) is None,
            self.missing_index(hubs) matches Some(k) ==> 0 <= k < hubs.len(),
        decreases hubs.len(),
    {
        if hubs.len() > 0 {
            self.lemma_missing_index(hubs.drop_last());
        }
    }

    proof fn lemma_missing_index_prefix(&self, hubs: Seq<u64>, k: int)
        requires
            0 <= k <= hubs.len(),
            self.missing_index(hubs.take(k)) is Some,
        ensures
            self.missing_index(hubs) == self.missing_index(hubs.take(k)),
        decreases hubs.len() - k,
    {
        if k < hubs.len() {
            assert(hubs.take(k + 1).drop_last() =~= hubs.take(k));
            self.lemma_missing_index_prefix(hubs, k + 1);
        } else {
            assert(hubs.take(k) =~= hubs);
        }
    }

    proof fn lemma_first_missing_prefix(&self, hubs: Seq<u64>, k: int)
        requires
            0 <= k <= hubs.len(),
            self.first_missing_hub(hubs.take(k)) is Some,
        ensures
            self.first_missing_hub(hubs) == self.first_missing_hub(hubs.take(k)),
        decreases hubs.len() - k,
    {
        if k < hubs.len() {
            assert(hubs.take(k + 1).drop_last() =~= hubs.take(k));
            self.lemma_first_missing_prefix(hubs, k + 1);
        } else {
            assert(hubs.take(k) =~= hubs);
        }
    }

    /// Replicates every user of `hub_ids` that has a home shard, in order, and reports the
    /// replication afterwards; stops at the first such user that is missing on its home shard.
    pub fn auto_replicate_hubs(&mut self, hub_ids: &[u64]) -> (result: Result<ReplicationStats, GraphError>)
        requires
            old(self).wf(),
        ensures
            final(self).wf(),
            old(self).cache_list() is Some && crate::properties::caches_agree(old(self).cache_views(), old(self).graphs())
                ==> final(self).cache_list() is Some && crate::properties::caches_agree(final(self).cache_views(), final(self).graphs()),
            final(self).replica_state() == replicated_all(
                old(self).replica_state(),
                old(self).spec_placement(),
                old(self).shard_count_spec(),
                old(self).cache_list().unwrap()[0].spec_capacity(),
                old(self).cache_list().unwrap()[0].spec_byte_capacity(),
                old(self).cache_list().unwrap()[0].spec_policy(),
                match old(self).missing_index(hub_ids@) {
                    Some(k) => hub_ids@.take(k),
                    None => hub_ids@,
                },
            ),
            final(self).logical_names() == old(self).logical_names(),
            final(self).logical_adjacency() == old(self).logical_adjacency(),
            final(self).spec_placement() == old(self).spec_placement(),
            final(self).observed() == old(self).observed(),
            old(self).first_missing_hub(hub_ids@) matches Some(m) ==> result == Err::<ReplicationStats, GraphError>(
                GraphError::UserNotFound(m),
            ),
            old(self).first_missing_hub(hub_ids@) is None ==> {
                &&& result matches Ok(stats) && stats.replicated_users == final(self).replicated().len()
                    && stats.total_replicated_edges == sat(final(self).replicated_edge_total())
                &&& final(self).replicated() == old(self).replicated().union(old(self).placed_hubs(hub_ids@))
                &&& forall|u: u64| #[trigger] old(self).placed_hubs(hub_ids@).contains(u) && !old(self).replicated().contains(u)
                    ==> final(self).replicas_agree(u)
            },
    {
        proof {
            assert(hub_ids@.take(0) =~= Seq::<u64>::empty());
            assert(old(self).placed_hubs(Seq::<u64>::empty()) =~= Set::<u64>::empty());
        }
        for i in 0..hub_ids.len()
            invariant
                self.wf(),
                self.spec_placement() == old(self).spec_placement(),
                self.observed() == old(self).observed(),
                self.shard_count_spec() == old(self).shard_count_spec(),
                forall|x: u64| #[trigger] self.has_user(x) == old(self).has_user(x),
                self.logical_names() == old(self).logical_names(),
                self.logical_adjacency() == old(self).logical_adjacency(),
                self.cache_list() is Some == old(self).cache_list() is Some,
                old(self).cache_list() is Some ==> self.cache_list().unwrap()[0].same_settings(&old(self).cache_list().unwrap()[0]),
                old(self).missing_index(hub_ids@.take(i as int)) is None,
                old(self).cache_list() is Some && crate::properties::caches_agree(old(self).cache_views(), old(self).graphs())
                    ==> self.cache_list() is Some && crate::properties::caches_agree(self.cache_views(), self.graphs()),
                self.replica_state() == replicated_all(
                    old(self).replica_state(),
                    old(self).spec_placement(),
                    old(self).shard_count_spec(),
                    old(self).cache_list().unwrap()[0].spec_capacity(),
                    old(self).cache_list().unwrap()[0].spec_byte_capacity(),
                    old(self).cache_list().unwrap()[0].spec_policy(),
                    hub_ids@.take(i as int),
                ),
                old(self).first_missing_hub(hub_ids@.take(i as int)) is None,
                self.replicated() == old(self).replicated().union(old(self).placed_hubs(hub_ids@.take(i as int))),
                forall|u: u64| old(self).placed_hubs(hub_ids@.take(i as int)).contains(u)
                    && !old(self).replicated().contains(u) ==> #[trigger] self.replicas_agree(u),
        {
            let hub = hub_ids[i];
            let ghost prefix = hub_ids@.take(i as int);
            let ghost next = hub_ids@.take(i + 1);
            proof {
                assert(next.drop_last() =~= prefix);
                assert(next =~= prefix.push(hub));
                assert(next.last() == hub);
                old(self).lemma_placed_hubs_push(prefix, hub);
            }
            if self.try_shard_for(hub).is_some() {
                let ghost pre = *self;
                match self.replicate_user(hub) {
                    Ok(_) => {},
                    Err(e) => {
                        proof {
                            old(self).lemma_first_missing_prefix(hub_ids@, i + 1);
                            assert(old(self).home(hub) == pre.home(hub));
                            assert(!old(self).has_user(hub));
                            assert(old(self).missing_index(next) == Some(i as int));
                            old(self).lemma_missing_index_prefix(hub_ids@, i + 1);
                            assert(self.replica_state() == pre.replica_state());
                        }
                        return Err(e);
                    },
                }
                proof {
                    pre.lemma_wf_placement();
                    let hv = pre.home(hub).unwrap() as int;
                    assert(pre.has_user(hub));
                    assert(old(self).home(hub) == pre.home(hub));
                    assert(old(self).has_user(hub));
                    assert(old(self).missing_index(next) is None);
                    assert(placement_shard(old(self).spec_placement(), old(self).shard_count_spec(), hub) == Some(hv as usize));
                    if old(self).cache_list() is Some {
                        assert(pre.cache_list().unwrap()[0].same_settings(&old(self).cache_list().unwrap()[0]));
                    }

                    assert forall|x: u64| #[trigger] self.has_user(x) == pre.has_user(x) by {
                        if pre.home(x) is Some {
                            let hx = pre.home(x).unwrap() as int;
                            assert(self.home(x) == pre.home(x));
                            if hx == hv || pre.replicated().contains(hub) {
                                assert(self.graphs()[hx] == pre.graphs()[hx]);
                            } else {
                                assert(x != hub);
                                assert(self.graphs()[hx].names() == pre.graphs()[hx].names().insert(
                                    hub,
                                    pre.graphs()[hv].names()[hub],
                                ));
                            }
                        }
                    }
                    assert(self.replicated() =~= old(self).replicated().union(old(self).placed_hubs(next)));
                    assert forall|u: u64| #[trigger] old(self).placed_hubs(next).contains(u)
                        && !old(self).replicated().contains(u) implies self.replicas_agree(u) by {
                        if u != hub && !pre.replicated().contains(hub) {
                            assert(old(self).placed_hubs(prefix).contains(u));
                            assert(pre.replicas_agree(u));
                            let list = pre.following(hub);
                            assert forall|t: int| 0 <= t < self.shard_count_spec() implies {
                                &&& (#[trigger] self.graphs()[t]).has_user(u)
                                &&& self.graphs()[t].following(u) == self.following(u)
                            } by {
                                assert(pre.graphs()[t].has_user(u));
                                if t != hv {
                                    lemma_added_edges_other(pre.graphs()[t].adjacency(), hub, list, u);
                                }
                                let hu = pre.home(u).unwrap() as int;
                                if hu != hv {
                                    lemma_added_edges_other(pre.graphs()[hu].adjacency(), hub, list, u);
                                }
                            }
                        } else if u != hub {
                            assert(old(self).placed_hubs(prefix).contains(u));
                            assert(pre.replicas_agree(u));
                            assert(self.graphs() == pre.graphs());
                            assert forall|t: int| 0 <= t < self.shard_count_spec() implies {
                                &&& (#[trigger] self.graphs()[t]).has_user(u)
                                &&& self.graphs()[t].following(u) == self.following(u)
                            } by {
                                assert(pre.graphs()[t].has_user(u));
                            }
                        } else if pre.replicated().contains(hub) {
                            assert(old(self).placed_hubs(prefix).contains(u));
                            assert(pre.replicas_agree(u));
                            assert(self.graphs() == pre.graphs());
                            assert forall|t: int| 0 <= t < self.shard_count_spec() implies {
                                &&& (#[trigger] self.graphs()[t]).has_user(u)
                                &&& self.graphs()[t].following(u) == self.following(u)
                            } by {
                                assert(pre.graphs()[t].has_user(u));
                            }
                        }
                    }
                }
            } else {
                proof {
                    assert(old(self).home(hub) is None);
                    assert(old(self).missing_index(next) is None);
                    assert(self.replicated() =~= old(self).replicated().union(old(self).placed_hubs(next)));
                    assert forall|u: u64| #[trigger] old(self).placed_hubs(next).contains(u)
                        && !old(self).replicated().contains(u) implies self.replicas_agree(u) by {
                        assert(old(self).placed_hubs(prefix).contains(u));
                    }
                }
            }
        }
        proof {
            assert(hub_ids@.take(hub_ids@.len() as int) =~= hub_ids@);
            old(self).lemma_missing_index(hub_ids@);
        }
        Ok(self.replication_stats())
    }
}

} // verus!

verus! {

/// `after` holds `u`'s name and list at `u`'s home shard exactly as `before` does.
spec fn same_home_entry(before: ShardedGraph, after: ShardedGraph, u: u64) -> bool {
    match before.home(u) {
        Some(h) => {
            &&& after.graphs()[h as int].names().contains_key(u) == before.graphs()[h as int].names().contains_key(u)
            &&& before.graphs()[h as int].names().contains_key(u) ==> after.graphs()[h as int].names()[u]
                == before.graphs()[h as int].names()[u]
            &&& after.graphs()[h as int].adjacency().contains_key(u) == before.graphs()[h as int].adjacency().contains_key(u)
            &&& before.graphs()[h as int].adjacency().contains_key(u) ==> after.graphs()[h as int].adjacency()[u]
                == before.graphs()[h as int].adjacency()[u]
        },
        None => true,
    }
}

/// The logical graph reads each user at its home shard only: two graphs over the same
/// placement whose home shards hold the same entry for every user store the same logical
/// graph.
proof fn lemma_logical_from_homes(before: ShardedGraph, after: ShardedGraph)
    requires
        before.wf(),
        after.spec_placement() == before.spec_placement(),
        after.graphs().len() == before.graphs().len(),
        forall|u: u64| #[trigger] same_home_entry(before, after, u),
    ensures
        after.logical_names() == before.logical_names(),
        after.logical_adjacency() == before.logical_adjacency(),
{
    assert forall|u: u64| #[trigger] after.home(u) == before.home(u) by {}
    assert(after.logical_names() =~= before.logical_names()) by {
        assert forall|u: u64| after.logical_names().contains_key(u) == before.logical_names().contains_key(u) by {
            assert(same_home_entry(before, after, u));
        }
        assert forall|u: u64| #[trigger] after.logical_names().contains_key(u) implies after.logical_names()[u] == before.logical_names()[u] by {
            assert(same_home_entry(before, after, u));
        }
    }
    assert(after.logical_adjacency() =~= before.logical_adjacency()) by {
        assert forall|u: u64| after.logical_adjacency().contains_key(u) == before.logical_adjacency().contains_key(u) by {
            assert(same_home_entry(before, after, u));
        }
        assert forall|u: u64| #[trigger] after.logical_adjacency().contains_key(u) implies after.logical_adjacency()[u] == before.logical_adjacency()[u] by {
            assert(same_home_entry(before, after, u));
        }
    }
}

} // verus!

verus! {

/// What replication reads and changes: each shard's names and lists, the replicated users and
/// the cached lists (`None` without caches).
pub struct ReplicaState {
    pub names: Seq<Map<u64, Seq<char>>>,
    pub adjacency: Seq<Map<u64, Seq<u64>>>,
    pub replicated: Set<u64>,
    pub caches: Option<Seq<Seq<CacheEntry>>>,
}

impl ShardedGraph {
    pub open spec fn replica_state(&self) -> ReplicaState {
        ReplicaState {
            names: self.graphs().map_values(|g: Graph| g.names()),
            adjacency: self.graphs().map_values(|g: Graph| g.adjacency()),
            replicated: self.replicated(),
            caches: match self.cache_list() {
                Some(_) => Some(self.cache_views()),
                None => None,
            },
        }
    }
}

/// `st` after copying user `u`, whose home is shard `h`, with its name and list onto every
/// other shard, and inserting its list into every other shard's cache; unchanged when `u`
/// is replicated already.
pub open spec fn replicated_state(
    st: ReplicaState,
    h: int,
    u: u64,
    capacity: nat,
    byte_capacity: Option<usize>,
    policy: EvictionPolicy,
) -> ReplicaState {
    if st.replicated.contains(u) {
        st
    } else {
        let list = list_of(st.adjacency[h], u);
        let name = st.names[h][u];
        ReplicaState {
            names: Seq::new(st.names.len(), |s: int| if s == h { st.names[s] } else { st.names[s].insert(u, name) }),
            adjacency: Seq::new(
                st.adjacency.len(),
                |s: int| if s == h { st.adjacency[s] } else { added_edges(st.adjacency[s], u, list) },
            ),
            replicated: st.replicated.insert(u),
            caches: match st.caches {
                None => None,
                Some(c) => Some(
                    Seq::new(
                        c.len(),
                        |s: int| if s == h { c[s] } else { after_insert(c[s], capacity, byte_capacity, policy, u, list) },
                    ),
                ),
            },
        }
    }
}

/// `st` after `unreplicate_user(u)` with `u` replicated and home shard `h`: every other shard
/// drops `u`, its list and its cached list, and `u` is no longer replicated.
pub open spec fn unreplicated_state(st: ReplicaState, h: int, u: u64) -> ReplicaState {
    if !st.replicated.contains(u) {
        st
    } else {
        ReplicaState {
            names: Seq::new(st.names.len(), |s: int| if s == h { st.names[s] } else { st.names[s].remove(u) }),
            adjacency: Seq::new(st.adjacency.len(), |s: int| if s == h { st.adjacency[s] } else { st.adjacency[s].remove(u) }),
            replicated: st.replicated.remove(u),
            caches: match st.caches {
                None => None,
                Some(c) => Some(Seq::new(c.len(), |s: int| if s == h { c[s] } else { without_key(c[s], u) })),
            },
        }
    }
}

proof fn lemma_added_edges_then_removed(adjacency: Map<u64, Seq<u64>>, u: u64, targets: Seq<u64>)
    ensures
        added_edges(adjacency, u, targets).remove(u) == adjacency.remove(u),
    decreases targets.len(),
{
    if targets.len() > 0 {
        lemma_added_edges_then_removed(adjacency, u, targets.drop_last());
        assert(added_edges(adjacency, u, targets).remove(u) =~= added_edges(adjacency, u, targets.drop_last()).remove(u));
    }
}

/// Unreplicating a user right after replicating it gives every shard back the users and the
/// lists it held before, and the replicated users they were: per-shard user and edge counts
/// are restored. (Caches are not: replicating may have evicted entries.)
pub proof fn lemma_unreplicate_undoes_replicate(
    st: ReplicaState,
    h: int,
    u: u64,
    capacity: nat,
    byte_capacity: Option<usize>,
    policy: EvictionPolicy,
)
    requires
        0 <= h < st.names.len(),
        st.adjacency.len() == st.names.len(),
        !st.replicated.contains(u),
        forall|s: int| 0 <= s < st.names.len() && s != h ==> !(#[trigger] st.names[s]).contains_key(u)
            && !st.adjacency[s].contains_key(u),
    ensures
        ({
            let back = unreplicated_state(replicated_state(st, h, u, capacity, byte_capacity, policy), h, u);
            &&& back.names == st.names
            &&& back.adjacency == st.adjacency
            &&& back.replicated == st.replicated
        }),
{
    let r = replicated_state(st, h, u, capacity, byte_capacity, policy);
    let back = unreplicated_state(r, h, u);
    assert(r.replicated.contains(u));
    assert forall|s: int| 0 <= s < st.names.len() implies #[trigger] back.names[s] == st.names[s] by {
        if s != h {
            assert(!st.names[s].contains_key(u));
            assert(back.names[s] =~= st.names[s]);
        }
    }
    assert forall|s: int| 0 <= s < st.adjacency.len() implies #[trigger] back.adjacency[s] == st.adjacency[s] by {
        if s != h {
            assert(!st.names[s].contains_key(u));
            lemma_added_edges_then_removed(st.adjacency[s], u, list_of(st.adjacency[h], u));
            assert(st.adjacency[s].remove(u) =~= st.adjacency[s]);
        }
    }
    assert(back.names =~= st.names);
    assert(back.adjacency =~= st.adjacency);
    assert(back.replicated =~= st.replicated);
}

/// `st` after replicating, in order, each of `hubs` that the placement gives a home shard.
pub open spec fn replicated_all(
    st: ReplicaState,
    p: Placement,
    n: nat,
    capacity: nat,
    byte_capacity: Option<usize>,
    policy: EvictionPolicy,
    hubs: Seq<u64>,
) -> ReplicaState
    decreases hubs.len(),
{
    if hubs.len() == 0 {
        st
    } else {
        let prev = replicated_all(st, p, n, capacity, byte_capacity, policy, hubs.drop_last());
        match placement_shard(p, n, hubs.last()) {
            Some(h) => replicated_state(prev, h as int, hubs.last(), capacity, byte_capacity, policy),
            None => prev,
        }
    }
}

} // verus!

verus! {

/// Two sharded graphs with the same shards, placement and replicated users report the same
/// replication statistics. After `replicate_user(u)` succeeds, `u` is stored and replicated,
/// so a second `replicate_user(u)` keeps shards, caches and replicated users as they are and,
/// by this, reports the same statistics as the first.
pub proof fn lemma_same_replicas_same_stats(first: ShardedGraph, second: ShardedGraph)
    requires
        second.graphs() == first.graphs(),
        second.spec_placement() == first.spec_placement(),
        second.replicated() == first.replicated(),
    ensures
        second.replicated().len() == first.replicated().len(),
        second.replicated_edge_total() == first.replicated_edge_total(),
{
    assert(second.replica_weight() =~= first.replica_weight());
}

} // verus!

verus! {

/// Replicating a user that is already replicated leaves the replica state as it is: a
/// second `replicate_user` changes no shard, list, cache or replicated user.
pub proof fn lemma_replicate_twice(
    st: ReplicaState,
    h: int,
    u: u64,
    capacity: nat,
    byte_capacity: Option<usize>,
    policy: EvictionPolicy,
)
    ensures
        replicated_state(replicated_state(st, h, u, capacity, byte_capacity, policy), h, u, capacity, byte_capacity, policy)
            == replicated_state(st, h, u, capacity, byte_capacity, policy),
{
}

} // verus!
