use vstd::prelude::*;
use std::collections::{HashMap, HashSet};
use crate::error::GraphError;
use vstd::std_specs::iter::IteratorSpec;
use crate::twohop::{collect_lists, append_new, lemma_append_new};
use crate::cache::{AdjacencyLruCache, CacheEntry, after_get, after_insert, lookup};

verus! {

broadcast use vstd::std_specs::hash::group_hash_axioms;

#[derive(Debug)]
pub struct User {
    pub id: u64,
    pub name: String,
}

/// The directed edges that an adjacency map stores: `(source, target)` for each target in
/// the source's list.
pub open spec fn edge_set(adjacency: Map<u64, Seq<u64>>) -> Set<(u64, u64)> {
    Set::new(|e: (u64, u64)| adjacency.contains_key(e.0) && adjacency[e.0].contains(e.1))
}

/// The edges of the sources `keys`.
pub open spec fn edges_of_keys(keys: Seq<u64>, adjacency: Map<u64, Seq<u64>>) -> Set<(u64, u64)> {
    Set::new(
        |e: (u64, u64)| keys.contains(e.0) && adjacency.contains_key(e.0) && adjacency[e.0].contains(e.1),
    )
}

/// The edges of one source.
pub open spec fn edges_of_source(source: u64, targets: Seq<u64>) -> Set<(u64, u64)> {
    Set::new(|e: (u64, u64)| e.0 == source && targets.contains(e.1))
}

/// Sum of the list lengths of `keys`.
pub open spec fn list_length_sum(keys: Seq<u64>, adjacency: Map<u64, Seq<u64>>) -> nat
    decreases keys.len(),
{
    if keys.len() == 0 {
        0
    } else {
        list_length_sum(keys.drop_last(), adjacency) + adjacency[keys.last()].len()
    }
}

pub open spec fn saturate(n: nat) -> nat {
    if n <= usize::MAX {
        n
    } else {
        usize::MAX as nat
    }
}

pub proof fn lemma_edges_of_source(source: u64, targets: Seq<u64>)
    requires
        targets.no_duplicates(),
    ensures
        edges_of_source(source, targets).finite(),
        edges_of_source(source, targets).len() == targets.len(),
{
    let pairs = targets.map_values(|t: u64| (source, t));
    assert(pairs.no_duplicates()) by {
        assert forall|i: int, j: int| 0 <= i < pairs.len() && 0 <= j < pairs.len() && i != j
            implies pairs[i] != pairs[j] by {
            assert(targets[i] != targets[j]);
        }
    }
    pairs.unique_seq_to_set();
    assert(pairs.to_set() =~= edges_of_source(source, targets)) by {
        assert forall|e: (u64, u64)| edges_of_source(source, targets).contains(e) implies pairs.to_set().contains(e) by {
            let i = choose|i: int| 0 <= i < targets.len() && targets[i] == e.1;
            assert(pairs[i] == e);
        }
    }
}

pub proof fn lemma_edges_of_keys(keys: Seq<u64>, adjacency: Map<u64, Seq<u64>>)
    requires
        keys.no_duplicates(),
        forall|k: u64| keys.contains(k) ==> adjacency.contains_key(k),
        forall|k: u64| #[trigger] adjacency.contains_key(k) ==> adjacency[k].no_duplicates(),
    ensures
        edges_of_keys(keys, adjacency).finite(),
        edges_of_keys(keys, adjacency).len() == list_length_sum(keys, adjacency),
    decreases keys.len(),
{
    if keys.len() == 0 {
        assert(edges_of_keys(keys, adjacency) =~= Set::empty());
    } else {
        let rest = keys.drop_last();
        let k = keys.last();
        assert forall|x: u64| rest.contains(x) implies keys.contains(x) by {
            let i = choose|i: int| 0 <= i < rest.len() && rest[i] == x;
            assert(keys[i] == x);
        }
        assert(rest.no_duplicates());
        lemma_edges_of_keys(rest, adjacency);
        assert(keys.contains(k)) by {
            assert(keys[keys.len() - 1] == k);
        }
        lemma_edges_of_source(k, adjacency[k]);
        let a = edges_of_keys(rest, adjacency);
        let b = edges_of_source(k, adjacency[k]);
        assert(!rest.contains(k)) by {
            if rest.contains(k) {
                let i = choose|i: int| 0 <= i < rest.len() && rest[i] == k;
                assert(keys[i] == keys[keys.len() - 1]);
            }
        }
        assert(a.disjoint(b));
        assert(edges_of_keys(keys, adjacency) =~= a.union(b)) by {
            assert forall|e: (u64, u64)| edges_of_keys(keys, adjacency).contains(e) implies a.union(b).contains(e) by {
                let i = choose|i: int| 0 <= i < keys.len() && keys[i] == e.0;
                if i < keys.len() - 1 {
                    assert(rest[i] == e.0);
                }
            }
        }
        vstd::set_lib::lemma_set_disjoint_lens(a, b);
    }
}

/// Lists a finite set without repetition.
pub proof fn lemma_set_to_unique_seq(s: Set<u64>) -> (keys: Seq<u64>)
    requires
        s.finite(),
    ensures
        keys.no_duplicates(),
        keys.to_set() == s,
    decreases s.len(),
{
    if s.len() == 0 {
        assert(s =~= Set::empty());
        let keys = Seq::<u64>::empty();
        assert(keys.to_set() =~= s);
        keys
    } else {
        let x = s.choose();
        let rest = lemma_set_to_unique_seq(s.remove(x));
        let keys = rest.push(x);
        assert(!rest.contains(x)) by {
            assert(!rest.to_set().contains(x));
        }
        assert(keys.no_duplicates()) by {
            assert forall|i: int, j: int| 0 <= i < keys.len() && 0 <= j < keys.len() && i != j
                implies keys[i] != keys[j] by {
                if i < rest.len() && j < rest.len() {
                    assert(keys[i] == rest[i]);
                    assert(keys[j] == rest[j]);
                } else if i < rest.len() {
                    assert(rest.contains(keys[i]));
                } else {
                    assert(rest.contains(keys[j]));
                }
            }
        }
        assert(keys.to_set() =~= s) by {
            assert forall|y: u64| s.contains(y) implies keys.to_set().contains(y) by {
                if y != x {
                    assert(rest.to_set().contains(y));
                    let i = choose|i: int| 0 <= i < rest.len() && rest[i] == y;
                    assert(keys[i] == y);
                } else {
                    assert(keys[rest.len() as int] == y);
                }
            }
            assert forall|y: u64| keys.to_set().contains(y) implies s.contains(y) by {
                let i = choose|i: int| 0 <= i < keys.len() && keys[i] == y;
                if i < rest.len() {
                    assert(rest[i] == y);
                    assert(rest.to_set().contains(y));
                }
            }
        }
        keys
    }
}

/// Reading the list of `source` from an adjacency map, empty where it has none.
pub open spec fn list_of(adjacency: Map<u64, Seq<u64>>, source: u64) -> Seq<u64> {
    if adjacency.contains_key(source) {
        adjacency[source]
    } else {
        Seq::empty()
    }
}

/// What a two-hop query from `source` returns on the adjacency map `adjacency`.
pub open spec fn two_hop(adjacency: Map<u64, Seq<u64>>, source: u64) -> Seq<u64> {
    collect_lists(list_of(adjacency, source).map_values(|f: u64| list_of(adjacency, f)), source)
}

/// The result of a two-hop query together with its cache counters.
#[derive(Debug, PartialEq, Eq)]
pub struct CachedTwoHopResult {
    pub user_ids: Vec<u64>,
    pub cache_hits: usize,
    pub cache_misses: usize,
}

/// An in-memory directed follow graph.
#[derive(Debug)]
pub struct Graph {
    users: HashMap<u64, User>,
    follows: HashMap<u64, Vec<u64>>,
}

impl Graph {
    /// User ID to user name.
    pub closed spec fn names(&self) -> Map<u64, Seq<char>> {
        self.users@.map_values(|u: User| u.name@)
    }

    /// Source user to the users it follows, in insertion order. A user may hold an empty list.
    pub closed spec fn adjacency(&self) -> Map<u64, Seq<u64>> {
        self.follows@.map_values(|v: Vec<u64>| v@)
    }

    pub open spec fn has_user(&self, id: u64) -> bool {
        self.names().contains_key(id)
    }

    pub open spec fn following(&self, source: u64) -> Seq<u64> {
        list_of(self.adjacency(), source)
    }

    pub open spec fn edges(&self) -> Set<(u64, u64)> {
        edge_set(self.adjacency())
    }

    /// Every graph built by `new` keeps this.
    pub closed spec fn wf(&self) -> bool {
        &&& self.users@.dom().finite()
        &&& self.follows@.dom().finite()
        &&& forall|k: u64| #[trigger] self.users@.contains_key(k) ==> self.users@[k].id == k
        &&& forall|k: u64| #[trigger] self.follows@.contains_key(k) ==> self.users@.contains_key(k)
        &&& forall|k: u64| #[trigger] self.follows@.contains_key(k) ==> self.follows@[k]@.no_duplicates()
    }

    pub proof fn lemma_wf(&self)
        requires
            self.wf(),
        ensures
            self.names().dom().finite(),
            self.adjacency().dom().finite(),
            forall|k: u64| #[trigger] self.adjacency().contains_key(k) ==> self.has_user(k),
            forall|k: u64| #[trigger] self.following(k).no_duplicates(),
            self.edges().finite(),
    {
        assert(self.names().dom() =~= self.users@.dom());
        assert(self.adjacency().dom() =~= self.follows@.dom());
        assert forall|k: u64| #[trigger] self.following(k).no_duplicates() by {
            if self.follows@.contains_key(k) {
                assert(self.following(k) == self.follows@[k]@);
            }
        }
        let keys = lemma_set_to_unique_seq(self.follows@.dom());
        self.lemma_keys_seq(keys);
    }

    proof fn lemma_keys_seq(&self, keys: Seq<u64>)
        requires
            self.wf(),
            keys.no_duplicates(),
            keys.to_set() == self.follows@.dom(),
        ensures
            edges_of_keys(keys, self.adjacency()) == self.edges(),
            self.edges().finite(),
            self.edges().len() == list_length_sum(keys, self.adjacency()),
    {
        let adj = self.adjacency();
        assert(adj.dom() =~= self.follows@.dom());
        assert forall|k: u64| keys.contains(k) implies adj.contains_key(k) by {
            assert(keys.to_set().contains(k));
        }
        assert forall|k: u64| #[trigger] adj.contains_key(k) implies adj[k].no_duplicates() by {
            assert(self.follows@.contains_key(k));
        }
        lemma_edges_of_keys(keys, adj);
        assert(edges_of_keys(keys, adj) =~= self.edges()) by {
            assert forall|e: (u64, u64)| self.edges().contains(e) implies keys.contains(e.0) by {
                assert(keys.to_set().contains(e.0));
            }
        }
    }

    pub fn new() -> (graph: Self)
        ensures
            graph.wf(),
            graph.names() == Map::<u64, Seq<char>>::empty(),
            graph.adjacency() == Map::<u64, Seq<u64>>::empty(),
    {
        let graph = Graph { users: HashMap::new(), follows: HashMap::new() };
        proof {
            assert(graph.names() =~= Map::<u64, Seq<char>>::empty());
            assert(graph.adjacency() =~= Map::<u64, Seq<u64>>::empty());
        }
        graph
    }

    /// Adds a user; an existing ID is refused.
    pub fn add_user(&mut self, id: u64, name: &str) -> (result: Result<(), GraphError>)
        requires
            old(self).wf(),
        ensures
            final(self).wf(),
            old(self).has_user(id) ==> result == Err::<(), GraphError>(GraphError::UserAlreadyExists(id))
                && final(self).names() == old(self).names(),
            !old(self).has_user(id) ==> result is Ok && final(self).names() == old(self).names().insert(id, name@),
            final(self).adjacency() == old(self).adjacency(),
    {
        if self.users.contains_key(&id) {
            return Err(GraphError::UserAlreadyExists(id));
        }
        let user = User { id, name: name.to_string() };
        self.users.insert(id, user);
        proof {
            assert(self.names() =~= old(self).names().insert(id, name@));
        }
        Ok(())
    }

    /// Adds the edge `source -> target`; both users must exist.
    pub fn add_follow(&mut self, source: u64, target: u64) -> (result: Result<(), GraphError>)
        requires
            old(self).wf(),
        ensures
            final(self).wf(),
            final(self).names() == old(self).names(),
            !old(self).has_user(source) ==> result == Err::<(), GraphError>(GraphError::SourceUserNotFound(source)),
            old(self).has_user(source) && !old(self).has_user(target) ==> result == Err::<(), GraphError>(GraphError::TargetUserNotFound(target)),
            result is Err ==> final(self).adjacency() == old(self).adjacency(),
            old(self).has_user(source) && old(self).has_user(target) ==> result is Ok
                && final(self).adjacency() == added_edge(old(self).adjacency(), source, target),
    {
        if !self.users.contains_key(&source) {
            return Err(GraphError::SourceUserNotFound(source));
        }
        if !self.users.contains_key(&target) {
            return Err(GraphError::TargetUserNotFound(target));
        }
        self.add_follow_unchecked(source, target)
    }

    /// Adds `source -> target` where only the source must exist here; the target may live
    /// on another shard.
    pub fn add_follow_unchecked(&mut self, source: u64, target: u64) -> (result: Result<(), GraphError>)
        requires
            old(self).wf(),
        ensures
            final(self).wf(),
            final(self).names() == old(self).names(),
            !old(self).has_user(source) ==> result == Err::<(), GraphError>(GraphError::SourceUserNotFound(source))
                && final(self).adjacency() == old(self).adjacency(),
            old(self).has_user(source) ==> result is Ok
                && final(self).adjacency() == added_edge(old(self).adjacency(), source, target),
    {
        if !self.users.contains_key(&source) {
            return Err(GraphError::SourceUserNotFound(source));
        }
        let mut targets = match self.follows.remove(&source) {
            Some(targets) => targets,
            None => Vec::new(),
        };
        let ghost before = targets@;
        if !contains_id(&targets, target) {
            targets.push(target);
        }
        proof {
            if !before.contains(target) {
                assert(targets@.no_duplicates()) by {
                    assert forall|i: int, j: int| 0 <= i < targets@.len() && 0 <= j < targets@.len() && i != j
                        implies targets@[i] != targets@[j] by {
                        if i == before.len() {
                            assert(before[j] == targets@[j]);
                        } else if j == before.len() {
                            assert(before[i] == targets@[i]);
                        } else {
                            assert(before[i] == targets@[i]);
                            assert(before[j] == targets@[j]);
                        }
                    }
                }
            }
        }
        self.follows.insert(source, targets);
        proof {
            assert(self.adjacency() =~= added_edge(old(self).adjacency(), source, target));
        }
        Ok(())
    }

    /// Removes the edge `source -> target`; both users must exist. Returns whether the edge
    /// existed.
    pub fn remove_follow(&mut self, source: u64, target: u64) -> (result: Result<bool, GraphError>)
        requires
            old(self).wf(),
        ensures
            final(self).wf(),
            final(self).names() == old(self).names(),
            !old(self).has_user(source) ==> result == Err::<bool, GraphError>(GraphError::SourceUserNotFound(source)),
            old(self).has_user(source) && !old(self).has_user(target) ==> result == Err::<bool, GraphError>(GraphError::TargetUserNotFound(target)),
            result is Err ==> final(self).adjacency() == old(self).adjacency(),
            old(self).has_user(source) && old(self).has_user(target) ==> result == Ok::<bool, GraphError>(old(self).following(source).contains(target))
                && final(self).adjacency() == removed_edge(old(self).adjacency(), source, target),
    {
        if !self.users.contains_key(&source) {
            return Err(GraphError::SourceUserNotFound(source));
        }
        if !self.users.contains_key(&target) {
            return Err(GraphError::TargetUserNotFound(target));
        }
        self.remove_follow_unchecked(source, target)
    }

    /// Removes `source -> target` where only the source must exist here.
    pub(crate) fn remove_follow_unchecked(&mut self, source: u64, target: u64) -> (result: Result<bool, GraphError>)
        requires
            old(self).wf(),
        ensures
            final(self).wf(),
            final(self).names() == old(self).names(),
            !old(self).has_user(source) ==> result == Err::<bool, GraphError>(GraphError::SourceUserNotFound(source))
                && final(self).adjacency() == old(self).adjacency(),
            old(self).has_user(source) ==> result == Ok::<bool, GraphError>(old(self).following(source).contains(target))
                && final(self).adjacency() == removed_edge(old(self).adjacency(), source, target),
    {
        if !self.users.contains_key(&source) {
            return Err(GraphError::SourceUserNotFound(source));
        }
        let mut targets = match self.follows.remove(&source) {
            Some(targets) => targets,
            None => {
                proof {
                    assert(self.follows@ =~= old(self).follows@);
                }
                return Ok(false);
            },
        };
        let ghost before = targets@;
        let removed = match position_of(&targets, target) {
            Some(position) => {
                targets.remove(position);
                proof {
                    assert(before[position as int] == target);
                    assert(targets@.no_duplicates()) by {
                        assert forall|i: int, j: int| 0 <= i < targets@.len() && 0 <= j < targets@.len() && i != j
                            implies targets@[i] != targets@[j] by {
                            let oi = if i < position { i } else { i + 1 };
                            let oj = if j < position { j } else { j + 1 };
                            assert(targets@[i] == before[oi]);
                            assert(targets@[j] == before[oj]);
                        }
                    }
                    assert(before.contains(target));
                    assert(before.index_of(target) == position as int) by {
                        let q = before.index_of(target);
                        assert(before[q] == target);
                    }
                }
                true
            },
            None => false,
        };
        self.follows.insert(source, targets);
        proof {
            assert(self.adjacency() =~= removed_edge(old(self).adjacency(), source, target));
        }
        Ok(removed)
    }

    /// Removes a user together with the user's own adjacency list. Returns whether the user
    /// existed.
    pub(crate) fn remove_user(&mut self, id: u64) -> (removed: bool)
        requires
            old(self).wf(),
        ensures
            final(self).wf(),
            removed == old(self).has_user(id),
            final(self).names() == old(self).names().remove(id),
            final(self).adjacency() == old(self).adjacency().remove(id),
    {
        let removed = self.users.remove(&id).is_some();
        self.follows.remove(&id);
        proof {
            assert(self.names() =~= old(self).names().remove(id));
            assert(self.adjacency() =~= old(self).adjacency().remove(id));
        }
        removed
    }

    pub fn get_user(&self, id: u64) -> (result: Option<&User>)
        requires
            self.wf(),
        ensures
            match result {
                Some(user) => self.has_user(id) && user.id == id && user.name@ == self.names()[id],
                None => !self.has_user(id),
            },
    {
        self.users.get(&id)
    }

    pub fn get_following_ids(&self, source: u64) -> (result: &[u64])
        ensures
            result@ == self.following(source),
    {
        match self.follows.get(&source) {
            Some(targets) => targets.as_slice(),
            None => &[],
        }
    }

    pub fn user_count(&self) -> (result: usize)
        requires
            self.wf(),
        ensures
            result == self.names().len(),
    {
        proof {
            assert(self.names().dom() =~= self.users@.dom());
        }
        self.users.len()
    }

    /// The number of stored edges (saturating at `usize::MAX`).
    pub fn edge_count(&self) -> (result: usize)
        requires
            self.wf(),
        ensures
            self.edges().finite(),
            result == saturate(self.edges().len()),
    {
        let mut total: usize = 0;
        let ghost all = vstd::std_specs::hash::spec_keys_iter(&self.follows).remaining().unref();
        proof {
            vstd::std_specs::hash::axiom_spec_keys_iter(&self.follows);
            assert(all.take(all.len() as int) =~= all);
        }
        for key in it: self.follows.keys()
            invariant
                self.wf(),
                it.seq().unref() == all,
                all.take(all.len() as int) == all,
                total == saturate(list_length_sum(all.take(it.index() as int), self.adjacency())),
            ensures
                total == saturate(list_length_sum(all, self.adjacency())),
        {
            let len = match self.follows.get(key) {
                Some(targets) => targets.len(),
                None => 0,
            };
            proof {
                let next = all.take(it.index() + 1);
                assert(next.drop_last() =~= all.take(it.index() as int));
                assert(next.last() == *key);
            }
            total = if total > usize::MAX - len { usize::MAX } else { total + len };
        }
        proof {
            assert(all.no_duplicates());
            assert(all.to_set() == self.follows@.dom());
            self.lemma_keys_seq(all);
        }
        total
    }

    /// The users reached in two hops from `source`, excluding `source`, each once, in the
    /// order in which they are first reached.
    pub fn get_two_hop_ids(&self, source: u64) -> (result: Vec<u64>)
        requires
            self.wf(),
        ensures
            result@ == two_hop(self.adjacency(), source),
    {
        let ghost adj = self.adjacency();
        let firsts = self.get_following_ids(source);
        let ghost lists = firsts@.map_values(|f: u64| list_of(adj, f));
        let mut result: Vec<u64> = Vec::new();
        let mut seen: HashSet<u64> = HashSet::new();
        proof {
            assert(lists.take(0) =~= Seq::<Seq<u64>>::empty());
            assert(result@.to_set() =~= seen@);
        }
        for i in 0..firsts.len()
            invariant
                adj == self.adjacency(),
                firsts@ == self.following(source),
                lists == firsts@.map_values(|f: u64| list_of(adj, f)),
                result@ == collect_lists(lists.take(i as int), source),
                seen@ == result@.to_set(),
        {
            let seconds = self.get_following_ids(firsts[i]);
            proof {
                let t = lists.take(i + 1);
                assert(t.drop_last() =~= lists.take(i as int));
                assert(t.last() == seconds@);
            }
            append_new_exec(&mut result, &mut seen, seconds, source);
        }
        proof {
            assert(lists.take(firsts@.len() as int) =~= lists);
        }
        result
    }

    /// The two-hop query reading first-hop adjacency lists through `cache`: a hit uses the
    /// cached list, a miss reads the graph and caches the list read.
    pub fn get_two_hop_ids_with_cache(&self, source: u64, cache: &mut AdjacencyLruCache) -> (result: CachedTwoHopResult)
        requires
            self.wf(),
            old(cache).wf(),
        ensures
            final(cache).wf(),
            final(cache).same_settings(old(cache)),
            ({
                let walk = cache_walk(
                    old(cache)@,
                    old(cache).spec_capacity(),
                    old(cache).spec_byte_capacity(),
                    old(cache).spec_policy(),
                    self.following(source),
                    self.adjacency(),
                );
                &&& final(cache)@ == walk.entries
                &&& result.user_ids@ == collect_lists(walk.lists, source)
                &&& result.cache_hits == walk.hits
                &&& result.cache_misses == walk.misses
            }),
    {
        let ghost adj = self.adjacency();
        let ghost capacity = cache.spec_capacity();
        let ghost byte_capacity = cache.spec_byte_capacity();
        let ghost policy = cache.spec_policy();
        let ghost start = cache@;
        let firsts = self.get_following_ids(source);
        let mut result: Vec<u64> = Vec::new();
        let mut seen: HashSet<u64> = HashSet::new();
        let mut cache_hits: usize = 0;
        let mut cache_misses: usize = 0;
        proof {
            assert(firsts@.take(0) =~= Seq::<u64>::empty());
            assert(result@.to_set() =~= seen@);
        }
        for i in 0..firsts.len()
            invariant
                adj == self.adjacency(),
                cache.wf(),
                cache.spec_capacity() == capacity,
                cache.spec_byte_capacity() == byte_capacity,
                cache.spec_policy() == policy,
                ({
                    let walk = cache_walk(start, capacity, byte_capacity, policy, firsts@.take(i as int), adj);
                    &&& cache@ == walk.entries
                    &&& result@ == collect_lists(walk.lists, source)
                    &&& cache_hits == walk.hits
                    &&& cache_misses == walk.misses
                    &&& walk.hits + walk.misses == i
                }),
                seen@ == result@.to_set(),
        {
            let first_hop = firsts[i];
            let ghost prefix = firsts@.take(i + 1);
            proof {
                assert(prefix.drop_last() =~= firsts@.take(i as int));
                assert(prefix.last() == first_hop);
            }
            let second_hops = match cache.get(first_hop) {
                Some(cached_adjacency_list) => {
                    cache_hits = cache_hits + 1;
                    cached_adjacency_list
                },
                None => {
                    cache_misses = cache_misses + 1;
                    let adjacency_list = vstd::slice::slice_to_vec(self.get_following_ids(first_hop));
                    let copy = vstd::slice::slice_to_vec(adjacency_list.as_slice());
                    cache.insert(first_hop, copy);
                    adjacency_list
                },
            };
            proof {
                let w0 = cache_walk(start, capacity, byte_capacity, policy, firsts@.take(i as int), adj);
                assert(w0.lists.push(second_hops@).drop_last() =~= w0.lists);
                assert(w0.lists.push(second_hops@).last() == second_hops@);
            }
            append_new_exec(&mut result, &mut seen, second_hops.as_slice(), source);
        }
        proof {
            assert(firsts@.take(firsts@.len() as int) =~= firsts@);
        }
        CachedTwoHopResult { user_ids: result, cache_hits, cache_misses }
    }

    /// The IDs of all users, each once, in the order the hash index yields them.
    pub fn user_ids(&self) -> (result: Vec<u64>)
        requires
            self.wf(),
        ensures
            result@.no_duplicates(),
            result@.to_set() == self.names().dom(),
    {
        let mut ids: Vec<u64> = Vec::new();
        let ghost all = vstd::std_specs::hash::spec_keys_iter(&self.users).remaining().unref();
        proof {
            vstd::std_specs::hash::axiom_spec_keys_iter(&self.users);
            assert(all.take(all.len() as int) =~= all);
        }
        for key in it: self.users.keys()
            invariant
                it.seq().unref() == all,
                all.take(all.len() as int) == all,
                ids@ == all.take(it.index() as int),
            ensures
                ids@ == all,
        {
            proof {
                assert(all.take(it.index() + 1) =~= all.take(it.index() as int).push(*key));
            }
            ids.push(*key);
        }
        proof {
            assert(self.names().dom() =~= self.users@.dom());
        }
        ids
    }
}

impl Default for Graph {
    fn default() -> (graph: Self)
        ensures
            graph.wf(),
            graph.names() == Map::<u64, Seq<char>>::empty(),
            graph.adjacency() == Map::<u64, Seq<u64>>::empty(),
    {
        Self::new()
    }
}

/// The adjacency map after adding `source -> target` (an existing edge is kept once).
pub open spec fn added_edge(adjacency: Map<u64, Seq<u64>>, source: u64, target: u64) -> Map<u64, Seq<u64>> {
    let list = list_of(adjacency, source);
    adjacency.insert(source, if list.contains(target) { list } else { list.push(target) })
}

/// The adjacency map after removing `source -> target`; a present source keeps its
/// (possibly empty) list.
pub open spec fn removed_edge(adjacency: Map<u64, Seq<u64>>, source: u64, target: u64) -> Map<u64, Seq<u64>> {
    if adjacency.contains_key(source) {
        let list = adjacency[source];
        if list.contains(target) {
            adjacency.insert(source, list.remove(list.index_of(target)))
        } else {
            adjacency
        }
    } else {
        adjacency
    }
}

/// The state of a cached two-hop walk after reading the first hops `firsts`.
pub struct CacheWalk {
    pub entries: Seq<CacheEntry>,
    pub lists: Seq<Seq<u64>>,
    pub hits: nat,
    pub misses: nat,
}

/// Reads the adjacency list of each of `firsts` in turn through a cache holding `entries`:
/// a cached list is used as it is (a hit); otherwise the list of `adjacency` is read and
/// inserted (a miss).
pub open spec fn cache_walk(
    entries: Seq<CacheEntry>,
    capacity: nat,
    byte_capacity: Option<usize>,
    policy: crate::cache::EvictionPolicy,
    firsts: Seq<u64>,
    adjacency: Map<u64, Seq<u64>>,
) -> CacheWalk
    decreases firsts.len(),
{
    if firsts.len() == 0 {
        CacheWalk { entries, lists: Seq::empty(), hits: 0, misses: 0 }
    } else {
        let walk = cache_walk(entries, capacity, byte_capacity, policy, firsts.drop_last(), adjacency);
        let f = firsts.last();
        match lookup(walk.entries, f) {
            Some(list) => CacheWalk {
                entries: after_get(walk.entries, policy, f),
                lists: walk.lists.push(list),
                hits: walk.hits + 1,
                misses: walk.misses,
            },
            None => CacheWalk {
                entries: after_insert(walk.entries, capacity, byte_capacity, policy, f, list_of(adjacency, f)),
                lists: walk.lists.push(list_of(adjacency, f)),
                hits: walk.hits,
                misses: walk.misses + 1,
            },
        }
    }
}

/// Appends to `result` each candidate that is neither `source` nor already in `seen`, which
/// mirrors `result`.
pub fn append_new_exec(result: &mut Vec<u64>, seen: &mut HashSet<u64>, candidates: &[u64], source: u64)
    requires
        old(seen)@ == old(result)@.to_set(),
    ensures
        final(result)@ == append_new(old(result)@, candidates@, source),
        final(seen)@ == final(result)@.to_set(),
{
    proof {
        assert(candidates@.take(0) =~= Seq::<u64>::empty());
    }
    for j in 0..candidates.len()
        invariant
            result@ == append_new(old(result)@, candidates@.take(j as int), source),
            seen@ == result@.to_set(),
    {
        let x = candidates[j];
        proof {
            let t = candidates@.take(j + 1);
            assert(t.drop_last() =~= candidates@.take(j as int));
            assert(t.last() == x);
            result@.lemma_push_to_set_commute(x);
        }
        if x != source && seen.insert(x) {
            result.push(x);
        }
    }
    proof {
        assert(candidates@.take(candidates@.len() as int) =~= candidates@);
    }
}

pub fn contains_id(ids: &[u64], id: u64) -> (result: bool)
    ensures
        result == ids@.contains(id),
{
    let mut i: usize = 0;
    while i < ids.len()
        invariant
            i <= ids@.len(),
            forall|j: int| 0 <= j < i ==> ids@[j] != id,
        decreases ids@.len() - i,
    {
        if ids[i] == id {
            return true;
        }
        i = i + 1;
    }
    false
}

pub fn position_of(ids: &[u64], id: u64) -> (result: Option<usize>)
    ensures
        match result {
            Some(i) => i < ids@.len() && ids@[i as int] == id && forall|j: int| 0 <= j < i ==> ids@[j] != id,
            None => !ids@.contains(id),
        },
{
    let mut i: usize = 0;
    while i < ids.len()
        invariant
            i <= ids@.len(),
            forall|j: int| 0 <= j < i ==> ids@[j] != id,
        decreases ids@.len() - i,
    {
        if ids[i] == id {
            return Some(i);
        }
        i = i + 1;
    }
    None
}

} // verus!

verus! {

/// Adding an edge that is already there changes nothing: following twice stores one edge.
pub proof fn lemma_added_edge_idempotent(adjacency: Map<u64, Seq<u64>>, source: u64, target: u64)
    ensures
        added_edge(added_edge(adjacency, source, target), source, target) == added_edge(adjacency, source, target),
{
    let once = added_edge(adjacency, source, target);
    let list = list_of(adjacency, source);
    if !list.contains(target) {
        assert(list.push(target)[list.len() as int] == target);
    }
    assert(once.contains_key(source));
    assert(list_of(once, source).contains(target));
    assert(added_edge(once, source, target) =~= once);
}

/// Removing an edge just added to a source that did not follow the target gives every user
/// the list it had before.
pub proof fn lemma_removed_edge_undoes_added(adjacency: Map<u64, Seq<u64>>, source: u64, target: u64, user: u64)
    requires
        !list_of(adjacency, source).contains(target),
    ensures
        list_of(removed_edge(added_edge(adjacency, source, target), source, target), user) == list_of(adjacency, user),
{
    let list = list_of(adjacency, source);
    let pushed = list.push(target);
    assert(pushed[list.len() as int] == target);
    assert(pushed.contains(target));
    let k = pushed.index_of(target);
    assert(pushed[k] == target);
    if k < list.len() {
        assert(list[k] == target);
    }
    assert(pushed.remove(k) =~= list);
}

} // verus!
