use vstd::prelude::*;
use crate::error::GraphError;
use crate::graph::{added_edge, removed_edge, list_of};
use crate::sharded::{ShardedGraph, Placement, placement_shard, balanced_error};
use crate::placement_text::{PlacementView, placement_view, placement_text, parse_placement_text, parse_placement_info, lemma_placement_text_round_trip};
use crate::splitting::follows_after;
use crate::graph::{Graph, saturate};
use crate::sharded::{total_users, total_edges};
use crate::text::{decimal, push_decimal, push_str};

verus! {

/// A point-in-time copy of a sharded graph.
#[derive(Debug, Clone)]
pub struct Snapshot {
    pub timestamp: u64,
    pub shard_count: usize,
    pub placement_info: String,
    pub users: Vec<SnapshotUser>,
    pub edges: Vec<SnapshotEdge>,
}

/// A user as a shard stores it.
#[derive(Debug, Clone)]
pub struct SnapshotUser {
    pub id: u64,
    pub name: String,
    pub shard_id: usize,
}

/// An edge as the source's shard stores it.
#[derive(Debug, Clone)]
pub struct SnapshotEdge {
    pub source: u64,
    pub target: u64,
    pub source_shard: usize,
}

/// One change to replay, with its position in the log.
#[derive(Debug, Clone)]
pub struct OperationLogEntry {
    pub sequence: u64,
    pub operation: Operation,
}

/// A change to a sharded graph.
#[derive(Debug, Clone)]
pub enum Operation {
    AddUser { id: u64, name: String },
    AddFollow { source: u64, target: u64 },
    RemoveFollow { source: u64, target: u64 },
}

/// How many operations a replay applied, by kind.
#[derive(Debug, Clone)]
pub struct LogStats {
    pub total_operations: usize,
    pub add_user_ops: usize,
    pub add_follow_ops: usize,
    pub remove_follow_ops: usize,
}

pub open spec fn user_views(users: Seq<SnapshotUser>) -> Seq<(u64, Seq<char>, usize)> {
    users.map_values(|u: SnapshotUser| (u.id, u.name@, u.shard_id))
}

pub open spec fn edge_views(edges: Seq<SnapshotEdge>) -> Seq<(u64, u64, usize)> {
    edges.map_values(|e: SnapshotEdge| (e.source, e.target, e.source_shard))
}

/// A listing names each user of each shard once, as `(shard, user)`, shard after shard.
pub open spec fn lists_all_users(graph: ShardedGraph, listing: Seq<(usize, u64)>) -> bool {
    &&& listing.no_duplicates()
    &&& forall|s: usize, u: u64| #[trigger] listing.contains((s, u)) <==> (s < graph.shard_count_spec() && graph.graphs()[s as int].has_user(u))
    &&& forall|i: int, j: int| 0 <= i < j < listing.len() ==> (#[trigger] listing[i]).0 <= (#[trigger] listing[j]).0
}

/// The users of a listing with their names, in order.
pub open spec fn listed_users(graph: ShardedGraph, listing: Seq<(usize, u64)>) -> Seq<(u64, Seq<char>, usize)> {
    listing.map_values(|e: (usize, u64)| (e.1, graph.graphs()[e.0 as int].names()[e.1], e.0))
}

/// For each listed user in turn, its list on its shard, as `(source, target, shard)`.
pub open spec fn listed_edges(graph: ShardedGraph, listing: Seq<(usize, u64)>) -> Seq<(u64, u64, usize)>
    decreases listing.len(),
{
    if listing.len() == 0 {
        Seq::empty()
    } else {
        let (s, u) = listing.last();
        listed_edges(graph, listing.drop_last()) + graph.graphs()[s as int].following(u).map_values(
            |t: u64| (u, t, s),
        )
    }
}

/// `snapshot` holds every user of every shard of `graph`, shard after shard, with the
/// user's list on that shard, and the placement as text.
pub open spec fn is_snapshot_of(snapshot: Snapshot, graph: ShardedGraph, timestamp: u64) -> bool {
    &&& snapshot.timestamp == timestamp
    &&& snapshot.shard_count == graph.shard_count_spec()
    &&& snapshot.placement_info@ == placement_text(placement_view(graph.spec_placement()))
    &&& exists|listing: Seq<(usize, u64)>| {
        &&& lists_all_users(graph, listing)
        &&& user_views(snapshot.users@) == listed_users(graph, listing)
        &&& edge_views(snapshot.edges@) == listed_edges(graph, listing)
    }
}

/// Takes a snapshot: every user of every shard, shard after shard, with the user's list on
/// that shard, and the placement as text.
pub fn create_snapshot(graph: &ShardedGraph, timestamp: u64) -> (snapshot: Snapshot)
    requires
        graph.wf(),
    ensures
        is_snapshot_of(snapshot, *graph, timestamp),
{
    let mut users: Vec<SnapshotUser> = Vec::new();
    let mut edges: Vec<SnapshotEdge> = Vec::new();
    let ghost mut listing: Seq<(usize, u64)> = Seq::empty();
    let n = graph.shard_count();
    proof {
        graph.lemma_wf_placement();
    }
    for shard_id in 0..n
        invariant
            graph.wf(),
            n == graph.shard_count_spec(),
            listing.no_duplicates(),
            forall|s: usize, u: u64| #[trigger] listing.contains((s, u)) <==> (s < shard_id && graph.graphs()[s as int].has_user(u)),
            forall|i: int| 0 <= i < listing.len() ==> (#[trigger] listing[i]).0 < shard_id,
            forall|i: int, j: int| 0 <= i < j < listing.len() ==> (#[trigger] listing[i]).0 <= (#[trigger] listing[j]).0,
            user_views(users@) == listed_users(*graph, listing),
            edge_views(edges@) == listed_edges(*graph, listing),
    {
        let shard = graph.shard(shard_id);
        proof {
            graph.lemma_wf_placement();
        }
        let ids = shard.user_ids();
        let ghost start = listing;
        for k in 0..ids.len()
            invariant
                graph.wf(),
                *shard == graph.graphs()[shard_id as int],
                shard.wf(),
                shard_id < n,
                n == graph.shard_count_spec(),
                ids@.no_duplicates(),
                ids@.to_set() == shard.names().dom(),
                listing == start + ids@.take(k as int).map_values(|u: u64| (shard_id, u)),
                start.no_duplicates(),
                forall|i: int| 0 <= i < start.len() ==> (#[trigger] start[i]).0 < shard_id,
                forall|i: int, j: int| 0 <= i < j < start.len() ==> (#[trigger] start[i]).0 <= (#[trigger] start[j]).0,
                user_views(users@) == listed_users(*graph, listing),
                edge_views(edges@) == listed_edges(*graph, listing),
        {
            let user_id = ids[k];
            proof {
                assert(ids@.to_set().contains(user_id));
            }
            match shard.get_user(user_id) {
                Some(user) => {
                    let ghost prev_users = users@;
                    let name = user.name.clone();
                    proof {
                        assert(name@ == shard.names()[user_id]);
                    }
                    users.push(SnapshotUser { id: user.id, name, shard_id });
                    proof {
                        assert(user_views(users@) =~= user_views(prev_users).push((user_id, shard.names()[user_id], shard_id)));
                    }
                    let targets = shard.get_following_ids(user_id);
                    let ghost before_edges = edges@;
                    for t in 0..targets.len()
                        invariant
                            edge_views(edges@) == edge_views(before_edges) + targets@.take(t as int).map_values(
                                |x: u64| (user_id, x, shard_id),
                            ),
                    {
                        let ghost prev_edges = edges@;
                        edges.push(SnapshotEdge { source: user_id, target: targets[t], source_shard: shard_id });
                        proof {
                            assert(edge_views(edges@) =~= edge_views(prev_edges).push((user_id, targets@[t as int], shard_id)));
                            assert(targets@.take(t + 1).map_values(|x: u64| (user_id, x, shard_id)) =~= targets@.take(
                                t as int,
                            ).map_values(|x: u64| (user_id, x, shard_id)).push((user_id, targets@[t as int], shard_id)));
                            assert(edge_views(edges@) =~= edge_views(before_edges) + targets@.take(t + 1).map_values(
                                |x: u64| (user_id, x, shard_id),
                            ));
                        }
                    }
                    proof {
                        assert(targets@.take(targets@.len() as int) =~= targets@);
                        let next = listing.push((shard_id, user_id));
                        assert(next.drop_last() =~= listing);
                        assert(user_views(users@) =~= listed_users(*graph, next));
                        assert(next =~= start + ids@.take(k + 1).map_values(|u: u64| (shard_id, u)));
                        listing = next;
                    }
                },
                None => {},
            }
        }
        proof {
            assert(ids@.take(ids@.len() as int) =~= ids@);
            let added = ids@.map_values(|u: u64| (shard_id, u));
            assert forall|i: int, j: int| 0 <= i < j < listing.len() implies (#[trigger] listing[i]).0 <= (#[trigger] listing[j]).0 by {
                if j >= start.len() {
                    assert(listing[j].0 == shard_id);
                    if i < start.len() {
                        assert(listing[i] == start[i]);
                    }
                } else {
                    assert(listing[i] == start[i] && listing[j] == start[j]);
                }
            }
            assert forall|i: int, j: int| 0 <= i < listing.len() && 0 <= j < listing.len() && i != j implies listing[i] != listing[j] by {
                if i < start.len() && j < start.len() {
                    assert(listing[i] == start[i] && listing[j] == start[j]);
                } else if i >= start.len() && j >= start.len() {
                    assert(listing[i] == added[i - start.len()] && listing[j] == added[j - start.len()]);
                    assert(ids@[i - start.len()] != ids@[j - start.len()]);
                } else if i < start.len() {
                    assert(listing[i] == start[i]);
                } else {
                    assert(listing[j] == start[j]);
                }
            }
            assert forall|s: usize, u: u64| #[trigger] listing.contains((s, u)) <==> (s < shard_id + 1 && graph.graphs()[s as int].has_user(u)) by {
                if listing.contains((s, u)) {
                    let i = choose|i: int| 0 <= i < listing.len() && listing[i] == (s, u);
                    if i < start.len() {
                        assert(start[i] == (s, u));
                        assert(start.contains((s, u)));
                    } else {
                        assert(added[i - start.len()] == (s, u));
                        assert(ids@.to_set().contains(u));
                    }
                }
                if s < shard_id + 1 && graph.graphs()[s as int].has_user(u) {
                    if s < shard_id {
                        assert(start.contains((s, u)));
                        let i = choose|i: int| 0 <= i < start.len() && start[i] == (s, u);
                        assert(listing[i] == (s, u));
                    } else {
                        assert(ids@.to_set().contains(u));
                        let i = choose|i: int| 0 <= i < ids@.len() && ids@[i] == u;
                        assert(listing[start.len() + i] == (s, u));
                    }
                }
            }
            assert forall|i: int| 0 <= i < listing.len() implies (#[trigger] listing[i]).0 < shard_id + 1 by {
                if i < start.len() {
                    assert(listing[i] == start[i]);
                }
            }
        }
    }
    Snapshot { timestamp, shard_count: n, placement_info: graph.placement_info(), users, edges }
}

/// Why a placement with this view cannot serve `shard_count` shards, checked in this order.
pub open spec fn view_error(shard_count: nat, view: PlacementView) -> Option<GraphError> {
    if shard_count == 0 {
        Some(GraphError::ZeroShardCount)
    } else {
        match view {
            PlacementView::Hash => None,
            PlacementView::Community(size) => if size == 0 {
                Some(GraphError::ZeroCommunitySize)
            } else {
                None
            },
            PlacementView::BalancedCommunity(sizes, shards) => balanced_error(shard_count, sizes, shards),
        }
    }
}

/// The users and edges a sharded graph holds, as plain values.
pub struct LogicalGraph {
    pub names: Map<u64, Seq<char>>,
    pub adjacency: Map<u64, Seq<u64>>,
}

impl ShardedGraph {
    pub open spec fn logical(&self) -> LogicalGraph {
        LogicalGraph { names: self.logical_names(), adjacency: self.logical_adjacency() }
    }
}

/// `names` after adding each `(id, name)` whose user the placement gives a shard and is not
/// there yet.
pub open spec fn names_added(names: Map<u64, Seq<char>>, entries: Seq<(u64, Seq<char>)>, p: Placement, n: nat) -> Map<u64, Seq<char>>
    decreases entries.len(),
{
    if entries.len() == 0 {
        names
    } else {
        let prev = names_added(names, entries.drop_last(), p, n);
        let (id, name) = entries.last();
        if id != 0 && placement_shard(p, n, id) is Some && !prev.contains_key(id) {
            prev.insert(id, name)
        } else {
            prev
        }
    }
}

pub open spec fn user_entries(users: Seq<SnapshotUser>) -> Seq<(u64, Seq<char>)> {
    users.map_values(|u: SnapshotUser| (u.id, u.name@))
}

pub open spec fn edge_pairs(edges: Seq<SnapshotEdge>) -> Seq<(u64, u64)> {
    edges.map_values(|e: SnapshotEdge| (e.source, e.target))
}

/// A graph as a constructor hands it out, with this shard count and placement view.
pub open spec fn plain_graph(graph: ShardedGraph, shard_count: nat, view: PlacementView) -> bool {
    &&& graph.wf()
    &&& graph.shard_count_spec() == shard_count
    &&& placement_view(graph.spec_placement()) == view
    &&& graph.cache_list() is None
    &&& graph.replicated() == Set::<u64>::empty()
    &&& forall|i: int| 0 <= i < shard_count ==> #[trigger] graph.observed()[i] == Map::<u64, u64>::empty()
}

proof fn lemma_view_error(shard_count: nat, p: Placement)
    ensures
        crate::sharded::placement_error(shard_count, p) == view_error(shard_count, placement_view(p)),
{
}

/// `graph` is the graph `restore_from_snapshot` builds from `snapshot` with the placement
/// `view`.
pub open spec fn is_restored_from(graph: ShardedGraph, snapshot: Snapshot, view: PlacementView) -> bool {
    &&& plain_graph(graph, snapshot.shard_count as nat, view)
    &&& graph.logical_names() == names_added(
        Map::empty(),
        user_entries(snapshot.users@),
        graph.spec_placement(),
        snapshot.shard_count as nat,
    )
    &&& graph.logical_adjacency() == follows_after(Map::empty(), graph.logical_names().dom(), edge_pairs(snapshot.edges@))
}

/// Rebuilds a sharded graph from a snapshot: the placement read back from its text, then
/// every user (on its home shard), then every edge whose users exist.
pub fn restore_from_snapshot(snapshot: &Snapshot) -> (result: Result<ShardedGraph, GraphError>)
    ensures
        match parse_placement_text(snapshot.placement_info@) {
            Err(message) => result matches Err(GraphError::IoError(m)) && m@ == message,
            Ok(view) => match view_error(snapshot.shard_count as nat, view) {
                Some(e) => result == Err::<ShardedGraph, GraphError>(e),
                None => result matches Ok(graph) && is_restored_from(graph, *snapshot, view),
            },
        },
{
    let placement = match parse_placement_info(snapshot.placement_info.as_str()) {
        Ok(p) => p,
        Err(e) => {
            return Err(e);
        },
    };
    let ghost p = placement;
    proof {
        lemma_view_error(snapshot.shard_count as nat, placement);
    }
    let mut graph = match ShardedGraph::with_placement(snapshot.shard_count, placement) {
        Ok(g) => g,
        Err(e) => {
            return Err(e);
        },
    };
    let ghost n = snapshot.shard_count as nat;
    let ghost entries = user_entries(snapshot.users@);
    proof {
        graph.lemma_fresh_is_empty(n, p);
        assert(entries.take(0) =~= Seq::<(u64, Seq<char>)>::empty());
    }
    for i in 0..snapshot.users.len()
        invariant
            entries == user_entries(snapshot.users@),
            plain_graph(graph, n, placement_view(p)),
            graph.spec_placement() == p,
            graph.logical_adjacency() == Map::<u64, Seq<u64>>::empty(),
            graph.logical_names() == names_added(Map::empty(), entries.take(i as int), p, n),
    {
        let user = &snapshot.users[i];
        let _ = graph.add_user(user.id, user.name.as_str());
        proof {
            assert(entries.take(i + 1).drop_last() =~= entries.take(i as int));
            assert(entries.take(i + 1).last() == (user.id, user.name@));
        }
    }
    proof {
        assert(entries.take(entries.len() as int) =~= entries);
    }
    let ghost names = graph.logical_names();
    let ghost pairs = edge_pairs(snapshot.edges@);
    proof {
        assert(pairs.take(0) =~= Seq::<(u64, u64)>::empty());
    }
    for i in 0..snapshot.edges.len()
        invariant
            pairs == edge_pairs(snapshot.edges@),
            plain_graph(graph, n, placement_view(p)),
            graph.spec_placement() == p,
            graph.logical_names() == names,
            graph.logical_adjacency() == follows_after(Map::empty(), names.dom(), pairs.take(i as int)),
    {
        let edge = &snapshot.edges[i];
        let _ = graph.add_follow(edge.source, edge.target);
        proof {
            assert(pairs.take(i + 1).drop_last() =~= pairs.take(i as int));
            assert(pairs.take(i + 1).last() == (edge.source, edge.target));
        }
    }
    proof {
        assert(pairs.take(pairs.len() as int) =~= pairs);
    }
    Ok(graph)
}

/// The users and edges after one operation: a user whose placement gives it a shard is added
/// unless present; an edge is added or removed when both its users exist.
pub open spec fn apply_operation(state: LogicalGraph, op: Operation, p: Placement, n: nat) -> LogicalGraph {
    match op {
        Operation::AddUser { id, name } => if id != 0 && placement_shard(p, n, id) is Some && !state.names.contains_key(id) {
            LogicalGraph { names: state.names.insert(id, name@), adjacency: state.adjacency }
        } else {
            state
        },
        Operation::AddFollow { source, target } => if state.names.contains_key(source) && state.names.contains_key(target) {
            LogicalGraph { names: state.names, adjacency: added_edge(state.adjacency, source, target) }
        } else {
            state
        },
        Operation::RemoveFollow { source, target } => if state.names.contains_key(source) && state.names.contains_key(target) {
            LogicalGraph { names: state.names, adjacency: removed_edge(state.adjacency, source, target) }
        } else {
            state
        },
    }
}

/// The users and edges after every entry from sequence number `from` on, in log order.
pub open spec fn replayed(state: LogicalGraph, entries: Seq<OperationLogEntry>, from: u64, p: Placement, n: nat) -> LogicalGraph
    decreases entries.len(),
{
    if entries.len() == 0 {
        state
    } else {
        let prev = replayed(state, entries.drop_last(), from, p, n);
        let e = entries.last();
        if e.sequence >= from {
            apply_operation(prev, e.operation, p, n)
        } else {
            prev
        }
    }
}

/// How many entries from sequence number `from` on are of each kind: all of them, user
/// additions, edge additions, edge removals.
pub open spec fn op_counts(entries: Seq<OperationLogEntry>, from: u64) -> (nat, nat, nat, nat)
    decreases entries.len(),
{
    if entries.len() == 0 {
        (0, 0, 0, 0)
    } else {
        let (t, a, f, r) = op_counts(entries.drop_last(), from);
        let e = entries.last();
        if e.sequence < from {
            (t, a, f, r)
        } else {
            match e.operation {
                Operation::AddUser { .. } => (t + 1, a + 1, f, r),
                Operation::AddFollow { .. } => (t + 1, a, f + 1, r),
                Operation::RemoveFollow { .. } => (t + 1, a, f, r + 1),
            }
        }
    }
}

proof fn lemma_op_counts_bounded(entries: Seq<OperationLogEntry>, from: u64)
    ensures
        op_counts(entries, from).0 <= entries.len(),
        op_counts(entries, from).1 <= op_counts(entries, from).0,
        op_counts(entries, from).2 <= op_counts(entries, from).0,
        op_counts(entries, from).3 <= op_counts(entries, from).0,
    decreases entries.len(),
{
    if entries.len() > 0 {
        lemma_op_counts_bounded(entries.drop_last(), from);
    }
}

/// Applies every entry from sequence number `from_sequence` on, in order, ignoring the
/// outcome of each operation, and counts them.
pub fn replay_operation_log(graph: &mut ShardedGraph, entries: &[OperationLogEntry], from_sequence: u64) -> (stats: LogStats)
    requires
        old(graph).wf(),
    ensures
        final(graph).wf(),
        final(graph).shard_count_spec() == old(graph).shard_count_spec(),
        final(graph).spec_placement() == old(graph).spec_placement(),
        final(graph).replicated() == old(graph).replicated(),
        final(graph).observed() == old(graph).observed(),
        old(graph).cache_list() is None ==> final(graph).cache_list() is None,
        final(graph).logical() == replayed(
            old(graph).logical(),
            entries@,
            from_sequence,
            old(graph).spec_placement(),
            old(graph).shard_count_spec(),
        ),
        (stats.total_operations as nat, stats.add_user_ops as nat, stats.add_follow_ops as nat, stats.remove_follow_ops as nat)
            == op_counts(entries@, from_sequence),
{
    let mut stats = LogStats { total_operations: 0, add_user_ops: 0, add_follow_ops: 0, remove_follow_ops: 0 };
    let ghost p = graph.spec_placement();
    let ghost n = graph.shard_count_spec();
    proof {
        assert(entries@.take(0) =~= Seq::<OperationLogEntry>::empty());
    }
    for i in 0..entries.len()
        invariant
            graph.wf(),
            graph.shard_count_spec() == n,
            graph.spec_placement() == p,
            p == old(graph).spec_placement(),
            n == old(graph).shard_count_spec(),
            graph.replicated() == old(graph).replicated(),
            graph.observed() == old(graph).observed(),
            old(graph).cache_list() is None ==> graph.cache_list() is None,
            graph.logical() == replayed(old(graph).logical(), entries@.take(i as int), from_sequence, p, n),
            (stats.total_operations as nat, stats.add_user_ops as nat, stats.add_follow_ops as nat, stats.remove_follow_ops as nat)
                == op_counts(entries@.take(i as int), from_sequence),
    {
        let entry = &entries[i];
        proof {
            assert(entries@.take(i + 1).drop_last() =~= entries@.take(i as int));
            assert(entries@.take(i + 1).last() == *entry);
            lemma_op_counts_bounded(entries@.take(i + 1), from_sequence);
        }
        if entry.sequence >= from_sequence {
            stats.total_operations = stats.total_operations + 1;
            match &entry.operation {
                Operation::AddUser { id, name } => {
                    let _ = graph.add_user(*id, name.as_str());
                    stats.add_user_ops = stats.add_user_ops + 1;
                },
                Operation::AddFollow { source, target } => {
                    let _ = graph.add_follow(*source, *target);
                    stats.add_follow_ops = stats.add_follow_ops + 1;
                },
                Operation::RemoveFollow { source, target } => {
                    let _ = graph.remove_follow(*source, *target);
                    stats.remove_follow_ops = stats.remove_follow_ops + 1;
                },
            }
        }
    }
    proof {
        assert(entries@.take(entries@.len() as int) =~= entries@);
    }
    stats
}

/// Restores a snapshot and replays the log entries from the snapshot's timestamp on.
pub fn recover_from_snapshot_and_log(snapshot: &Snapshot, entries: &[OperationLogEntry]) -> (result: Result<(ShardedGraph, LogStats), GraphError>)
    ensures
        match parse_placement_text(snapshot.placement_info@) {
            Err(message) => result matches Err(GraphError::IoError(m)) && m@ == message,
            Ok(view) => match view_error(snapshot.shard_count as nat, view) {
                Some(e) => result == Err::<(ShardedGraph, LogStats), GraphError>(e),
                None => result matches Ok((graph, stats)) && {
                    let p = graph.spec_placement();
                    let n = snapshot.shard_count as nat;
                    let names = names_added(Map::empty(), user_entries(snapshot.users@), p, n);
                    let restored = LogicalGraph {
                        names,
                        adjacency: follows_after(Map::empty(), names.dom(), edge_pairs(snapshot.edges@)),
                    };
                    &&& plain_graph(graph, n, view)
                    &&& graph.logical() == replayed(restored, entries@, snapshot.timestamp, p, n)
                    &&& (stats.total_operations as nat, stats.add_user_ops as nat, stats.add_follow_ops as nat, stats.remove_follow_ops as nat)
                        == op_counts(entries@, snapshot.timestamp)
                },
            },
        },
{
    let mut graph = match restore_from_snapshot(snapshot) {
        Ok(g) => g,
        Err(e) => {
            return Err(e);
        },
    };
    let stats = replay_operation_log(&mut graph, entries, snapshot.timestamp);
    Ok((graph, stats))
}

/// The targets of the pairs whose source is `source`, in order.
pub open spec fn targets_of(pairs: Seq<(u64, u64)>, source: u64) -> Seq<u64>
    decreases pairs.len(),
{
    if pairs.len() == 0 {
        Seq::empty()
    } else {
        targets_of(pairs.drop_last(), source) + if pairs.last().0 == source {
            seq![pairs.last().1]
        } else {
            Seq::empty()
        }
    }
}

proof fn lemma_targets_of_single(x: (u64, u64), source: u64)
    ensures
        targets_of(seq![x], source) == if x.0 == source { seq![x.1] } else { Seq::<u64>::empty() },
{
    assert(seq![x].drop_last() =~= Seq::<(u64, u64)>::empty());
    assert(seq![x].last() == x);
    assert(targets_of(Seq::<(u64, u64)>::empty(), source) == Seq::<u64>::empty());
    if x.0 == source {
        assert(Seq::<u64>::empty() + seq![x.1] =~= seq![x.1]);
    } else {
        assert(Seq::<u64>::empty() + Seq::<u64>::empty() =~= Seq::<u64>::empty());
    }
}

proof fn lemma_targets_of_concat(a: Seq<(u64, u64)>, b: Seq<(u64, u64)>, source: u64)
    ensures
        targets_of(a + b, source) == targets_of(a, source) + targets_of(b, source),
    decreases b.len(),
{
    if b.len() == 0 {
        assert(a + b =~= a);
    } else {
        lemma_targets_of_concat(a, b.drop_last(), source);
        assert((a + b).drop_last() =~= a + b.drop_last());
    }
}

proof fn lemma_targets_of_block(list: Seq<u64>, v: u64, source: u64)
    ensures
        targets_of(list.map_values(|t: u64| (v, t)), source) == if v == source { list } else { Seq::<u64>::empty() },
    decreases list.len(),
{
    if list.len() > 0 {
        lemma_targets_of_block(list.drop_last(), v, source);
        assert(list.map_values(|t: u64| (v, t)).drop_last() =~= list.drop_last().map_values(|t: u64| (v, t)));
        assert(list.drop_last().push(list.last()) =~= list);
    } else {
        assert(list.map_values(|t: u64| (v, t)) =~= Seq::<(u64, u64)>::empty());
        assert(list =~= Seq::<u64>::empty());
    }
}

/// Adding pairs in order, each whose users are in `users`, gives every source the targets
/// of its pairs in order, when no source has a repeated target.
proof fn lemma_follows_after_lists(users: Set<u64>, pairs: Seq<(u64, u64)>, source: u64)
    requires
        forall|i: int| 0 <= i < pairs.len() ==> users.contains((#[trigger] pairs[i]).0) && users.contains(pairs[i].1),
        forall|u: u64| (#[trigger] targets_of(pairs, u)).no_duplicates(),
    ensures
        list_of(follows_after(Map::empty(), users, pairs), source) == targets_of(pairs, source),
    decreases pairs.len(),
{
    if pairs.len() > 0 {
        let prev = pairs.drop_last();
        let (s, t) = pairs.last();
        assert forall|u: u64| (#[trigger] targets_of(prev, u)).no_duplicates() by {
            let full = targets_of(pairs, u);
            assert(full == targets_of(prev, u) + if s == u { seq![t] } else { Seq::<u64>::empty() });
            assert forall|i: int, j: int| 0 <= i < targets_of(prev, u).len() && 0 <= j < targets_of(prev, u).len() && i != j
                implies targets_of(prev, u)[i] != targets_of(prev, u)[j] by {
                assert(full[i] == targets_of(prev, u)[i] && full[j] == targets_of(prev, u)[j]);
            }
        }
        assert(users.contains(pairs[pairs.len() - 1].0));
        lemma_follows_after_lists(users, prev, source);
        lemma_follows_after_lists(users, prev, s);
        if source == s {
            let before = targets_of(prev, s);
            let full = targets_of(pairs, s);
            assert(full =~= before.push(t));
            assert(!before.contains(t)) by {
                if before.contains(t) {
                    let i = choose|i: int| 0 <= i < before.len() && before[i] == t;
                    assert(full[i] == full[full.len() - 1]);
                }
            }
        } else {
            assert(targets_of(pairs, source) =~= targets_of(prev, source));
        }
    }
}

/// The pairs of the edges listed for `listing`, and what they give one source.
proof fn lemma_listed_targets(graph: ShardedGraph, listing: Seq<(usize, u64)>, source: u64)
    requires
        graph.wf(),
        listing.no_duplicates(),
        forall|i: int| 0 <= i < listing.len() ==> (#[trigger] listing[i]).0 < graph.shard_count_spec(),
        forall|i: int| 0 <= i < listing.len() ==> Some((#[trigger] listing[i]).0) == graph.home(listing[i].1),
    ensures
        targets_of(listed_edges(graph, listing).map_values(|e: (u64, u64, usize)| (e.0, e.1)), source) == if exists|i: int|
            0 <= i < listing.len() && (#[trigger] listing[i]).1 == source {
            graph.following(source)
        } else {
            Seq::<u64>::empty()
        },
    decreases listing.len(),
{
    let f = |e: (u64, u64, usize)| (e.0, e.1);
    if listing.len() == 0 {
        assert(listed_edges(graph, listing).map_values(f) =~= Seq::<(u64, u64)>::empty());
    } else {
        let prev = listing.drop_last();
        let (s, v) = listing.last();
        assert forall|i: int, j: int| 0 <= i < prev.len() && 0 <= j < prev.len() && i != j implies prev[i] != prev[j] by {
            assert(listing[i] == prev[i] && listing[j] == prev[j]);
        }
        assert forall|i: int| 0 <= i < prev.len() implies (#[trigger] prev[i]).0 < graph.shard_count_spec()
            && Some(prev[i].0) == graph.home(prev[i].1) by {
            assert(listing[i] == prev[i]);
        }
        lemma_listed_targets(graph, prev, source);
        let block = graph.graphs()[s as int].following(v).map_values(|t: u64| (v, t, s));
        assert(listed_edges(graph, listing).map_values(f) =~= listed_edges(graph, prev).map_values(f) + block.map_values(f));
        assert(block.map_values(f) =~= graph.graphs()[s as int].following(v).map_values(|t: u64| (v, t)));
        lemma_targets_of_concat(listed_edges(graph, prev).map_values(f), block.map_values(f), source);
        lemma_targets_of_block(graph.graphs()[s as int].following(v), v, source);
        assert(Some(listing[listing.len() - 1].0) == graph.home(listing[listing.len() - 1].1));
        if v == source {
            assert(!exists|i: int| 0 <= i < prev.len() && (#[trigger] prev[i]).1 == source) by {
                if exists|i: int| 0 <= i < prev.len() && (#[trigger] prev[i]).1 == source {
                    let i = choose|i: int| 0 <= i < prev.len() && (#[trigger] prev[i]).1 == source;
                    assert(listing[i] == prev[i]);
                    assert(Some(prev[i].0) == graph.home(source));
                    assert(listing[i] == listing[listing.len() - 1]);
                }
            }
            assert(listing[listing.len() - 1].1 == source);
        } else {
            if exists|i: int| 0 <= i < listing.len() && (#[trigger] listing[i]).1 == source {
                let i = choose|i: int| 0 <= i < listing.len() && (#[trigger] listing[i]).1 == source;
                assert(i != listing.len() - 1);
                assert(prev[i] == listing[i]);
            }
            if exists|i: int| 0 <= i < prev.len() && (#[trigger] prev[i]).1 == source {
                let i = choose|i: int| 0 <= i < prev.len() && (#[trigger] prev[i]).1 == source;
                assert(listing[i] == prev[i]);
            }
            assert(targets_of(listed_edges(graph, listing).map_values(f), source) =~= targets_of(
                listed_edges(graph, prev).map_values(f),
                source,
            ));
        }
    }
}

/// Adding named users in order, each with a shard and none twice, names exactly them.
proof fn lemma_names_added_distinct(entries: Seq<(u64, Seq<char>)>, p: Placement, n: nat)
    requires
        forall|i: int| 0 <= i < entries.len() ==> (#[trigger] entries[i]).0 != 0 && placement_shard(p, n, entries[i].0) is Some,
        forall|i: int, j: int| 0 <= i < j < entries.len() ==> (#[trigger] entries[i]).0 != (#[trigger] entries[j]).0,
    ensures
        forall|u: u64| #[trigger] names_added(Map::empty(), entries, p, n).contains_key(u)
            <==> exists|i: int| 0 <= i < entries.len() && (#[trigger] entries[i]).0 == u,
        forall|i: int| 0 <= i < entries.len() ==> names_added(Map::empty(), entries, p, n)[(#[trigger] entries[i]).0] == entries[i].1,
    decreases entries.len(),
{
    if entries.len() > 0 {
        let prev = entries.drop_last();
        assert forall|i: int| 0 <= i < prev.len() implies (#[trigger] prev[i]).0 != 0 && placement_shard(p, n, prev[i].0) is Some by {
            assert(entries[i] == prev[i]);
        }
        assert forall|i: int, j: int| 0 <= i < j < prev.len() implies (#[trigger] prev[i]).0 != (#[trigger] prev[j]).0 by {
            assert(entries[i] == prev[i] && entries[j] == prev[j]);
        }
        lemma_names_added_distinct(prev, p, n);
        let last = entries.last();
        let k = entries.len() - 1;
        assert(entries[k] == last);
        assert(!names_added(Map::empty(), prev, p, n).contains_key(last.0)) by {
            if names_added(Map::empty(), prev, p, n).contains_key(last.0) {
                let i = choose|i: int| 0 <= i < prev.len() && (#[trigger] prev[i]).0 == last.0;
                assert(entries[i] == prev[i]);
            }
        }
        assert forall|u: u64| #[trigger] names_added(Map::empty(), entries, p, n).contains_key(u)
            <==> exists|i: int| 0 <= i < entries.len() && (#[trigger] entries[i]).0 == u by {
            if u != last.0 {
                if names_added(Map::empty(), prev, p, n).contains_key(u) {
                    let i = choose|i: int| 0 <= i < prev.len() && (#[trigger] prev[i]).0 == u;
                    assert(entries[i] == prev[i]);
                }
                if exists|i: int| 0 <= i < entries.len() && (#[trigger] entries[i]).0 == u {
                    let i = choose|i: int| 0 <= i < entries.len() && (#[trigger] entries[i]).0 == u;
                    assert(i != k);
                    assert(prev[i] == entries[i]);
                }
            }
        }
        assert forall|i: int| 0 <= i < entries.len() implies names_added(Map::empty(), entries, p, n)[(#[trigger] entries[i]).0] == entries[i].1 by {
            if i < k {
                assert(prev[i] == entries[i]);
                assert(entries[i].0 != entries[k].0);
            }
        }
    }
}

/// Taking a snapshot of a graph without replicas, and restoring it, gives back the same users with the same names and every user's list in
/// the same order; the restore succeeds.
pub proof fn lemma_snapshot_round_trip(graph: ShardedGraph, snapshot: Snapshot, timestamp: u64, restored: ShardedGraph)
    requires
        graph.wf(),
        graph.replicated() == Set::<u64>::empty(),
        is_snapshot_of(snapshot, graph, timestamp),
        is_restored_from(restored, snapshot, placement_view(graph.spec_placement())),
    ensures
        parse_placement_text(snapshot.placement_info@) == Ok::<PlacementView, Seq<char>>(placement_view(graph.spec_placement())),
        view_error(snapshot.shard_count as nat, placement_view(graph.spec_placement())) is None,
        restored.logical_names() == graph.logical_names(),
        forall|u: u64| #[trigger] restored.following(u) == graph.following(u),
{
    graph.lemma_wf_placement();
    graph.lemma_edges_lead_to_users();
    let p = graph.spec_placement();
    let n = graph.shard_count_spec();
    lemma_view_error(n, p);
    lemma_placement_text_round_trip(placement_view(p));
    let listing = choose|listing: Seq<(usize, u64)>| {
        &&& lists_all_users(graph, listing)
        &&& user_views(snapshot.users@) == listed_users(graph, listing)
        &&& edge_views(snapshot.edges@) == listed_edges(graph, listing)
    };
    let rp = restored.spec_placement();
    assert forall|u: u64| #[trigger] placement_shard(rp, n, u) == placement_shard(p, n, u) by {
        assert(placement_view(rp) == placement_view(p));
    }
    // Every listed user lives on its home shard.
    assert forall|i: int| 0 <= i < listing.len() implies (#[trigger] listing[i]).0 < n
        && Some(listing[i].0) == graph.home(listing[i].1) && graph.has_user(listing[i].1) by {
        assert(listing.contains(listing[i]));
        let (s, u) = listing[i];
        assert(graph.graphs()[s as int].has_user(u));
        if graph.home(u) != Some(s) {
            assert(!graph.graphs()[s as int].has_user(u));
        }
    }
    // Names.
    let entries = user_entries(snapshot.users@);
    assert(user_views(snapshot.users@) == listed_users(graph, listing));
    assert(edge_views(snapshot.edges@) == listed_edges(graph, listing));
    assert(user_views(snapshot.users@).len() == listed_users(graph, listing).len());
    assert(entries.len() == listing.len());
    assert forall|i: int| 0 <= i < entries.len() implies (#[trigger] entries[i]) == (listing[i].1, graph.logical_names()[listing[i].1]) by {
        assert(user_views(snapshot.users@)[i] == listed_users(graph, listing)[i]);
    }
    assert forall|i: int| 0 <= i < entries.len() implies (#[trigger] entries[i]).0 != 0 && placement_shard(rp, n, entries[i].0) is Some by {
        assert(entries[i].0 == listing[i].1);
    }
    assert forall|i: int, j: int| 0 <= i < j < entries.len() implies (#[trigger] entries[i]).0 != (#[trigger] entries[j]).0 by {
        assert(entries[i].0 == listing[i].1 && entries[j].0 == listing[j].1);
        if listing[i].1 == listing[j].1 {
            assert(listing[i] == listing[j]);
        }
    }
    lemma_names_added_distinct(entries, rp, n);
    assert forall|u: u64| #[trigger] restored.logical_names().contains_key(u) == graph.logical_names().contains_key(u) by {
        if graph.logical_names().contains_key(u) {
            let h = graph.home(u).unwrap();
            assert(listing.contains((h, u)));
            let i = choose|i: int| 0 <= i < listing.len() && listing[i] == (h, u);
            assert(entries[i].0 == u);
        }
        if restored.logical_names().contains_key(u) {
            let i = choose|i: int| 0 <= i < entries.len() && (#[trigger] entries[i]).0 == u;
            assert(listing[i].1 == u);
        }
    }
    assert forall|u: u64| #[trigger] restored.logical_names().contains_key(u) implies restored.logical_names()[u] == graph.logical_names()[u] by {
        let i = choose|i: int| 0 <= i < entries.len() && (#[trigger] entries[i]).0 == u;
        assert(listing[i].1 == u);
    }
    assert(restored.logical_names() =~= graph.logical_names());
    // Lists.
    let f = |e: (u64, u64, usize)| (e.0, e.1);
    let pairs = edge_pairs(snapshot.edges@);
    assert(pairs =~= listed_edges(graph, listing).map_values(f)) by {
        assert forall|i: int| 0 <= i < pairs.len() implies pairs[i] == listed_edges(graph, listing).map_values(f)[i] by {
            assert(edge_views(snapshot.edges@)[i] == listed_edges(graph, listing)[i]);
        }
    }
    assert forall|u: u64| #[trigger] targets_of(pairs, u) == if exists|i: int| 0 <= i < listing.len() && (#[trigger] listing[i]).1 == u {
        graph.following(u)
    } else {
        Seq::<u64>::empty()
    } by {
        lemma_listed_targets(graph, listing, u);
    }
    assert forall|u: u64| (#[trigger] targets_of(pairs, u)).no_duplicates() by {
        if exists|i: int| 0 <= i < listing.len() && (#[trigger] listing[i]).1 == u {
            let h = graph.home(u).unwrap();
            graph.graphs()[h as int].lemma_wf();
        }
    }
    assert forall|i: int| 0 <= i < pairs.len() implies graph.logical_names().contains_key((#[trigger] pairs[i]).0)
        && graph.logical_names().contains_key(pairs[i].1) by {
        let (s, t) = pairs[i];
        assert(targets_of(pairs, s).len() > 0) by {
            lemma_targets_of_concat(pairs.take(i + 1), pairs.skip(i + 1), s);
            assert(pairs.take(i + 1) + pairs.skip(i + 1) =~= pairs);
            lemma_targets_of_concat(pairs.take(i), seq![pairs[i]], s);
            assert(pairs.take(i) + seq![pairs[i]] =~= pairs.take(i + 1));
            assert(seq![pairs[i]].drop_last() =~= Seq::<(u64, u64)>::empty());
            lemma_targets_of_single(pairs[i], s);
        }
        assert(exists|i: int| 0 <= i < listing.len() && (#[trigger] listing[i]).1 == s);
        let k = choose|k: int| 0 <= k < listing.len() && (#[trigger] listing[k]).1 == s;
        assert(graph.has_user(s));
        assert(targets_of(pairs, s).contains(t)) by {
            lemma_targets_of_concat(pairs.take(i + 1), pairs.skip(i + 1), s);
            assert(pairs.take(i + 1) + pairs.skip(i + 1) =~= pairs);
            lemma_targets_of_concat(pairs.take(i), seq![pairs[i]], s);
            assert(pairs.take(i) + seq![pairs[i]] =~= pairs.take(i + 1));
            assert(seq![pairs[i]].drop_last() =~= Seq::<(u64, u64)>::empty());
            lemma_targets_of_single(pairs[i], s);
            assert(targets_of(pairs.take(i + 1), s) =~= targets_of(pairs.take(i), s).push(t));
            assert(targets_of(pairs, s)[targets_of(pairs.take(i), s).len() as int] == t);
        }
        graph.lemma_logical_list(s);
        let list = graph.following(s);
        let j = choose|j: int| 0 <= j < list.len() && list[j] == t;
        let h = graph.home(s).unwrap();
        graph.graphs()[h as int].lemma_wf();
        assert(graph.logical_adjacency().contains_key(s));
        assert(graph.logical_adjacency()[s][j] == t);
    }
    assert forall|u: u64| #[trigger] restored.following(u) == graph.following(u) by {
        restored.lemma_logical_list(u);
        graph.lemma_logical_list(u);
        lemma_follows_after_lists(graph.logical_names().dom(), pairs, u);
        if !exists|i: int| 0 <= i < listing.len() && (#[trigger] listing[i]).1 == u {
            if let Some(h) = graph.home(u) {
                graph.graphs()[h as int].lemma_wf();
                if graph.graphs()[h as int].has_user(u) {
                    assert(listing.contains((h, u)));
                    let i = choose|i: int| 0 <= i < listing.len() && listing[i] == (h, u);
                    assert(listing[i].1 == u);
                }
            }
        }
    }
}

/// The users stored on any shard.
pub open spec fn stored_users(graph: ShardedGraph) -> Set<u64> {
    Set::new(|u: u64| exists|s: int| 0 <= s < graph.shard_count_spec() && (#[trigger] graph.graphs()[s]).has_user(u))
}

/// How user `u` differs between the two graphs, first presence, then name, then the set of
/// users it follows; `None` when it does not.
pub open spec fn user_mismatch(original: ShardedGraph, recovered: ShardedGraph, u: u64) -> Option<Seq<char>> {
    if original.has_user(u) != recovered.has_user(u) {
        Some("User "@ + decimal(u as nat) + " presence mismatch"@)
    } else if original.has_user(u) && original.logical_names()[u] != recovered.logical_names()[u] {
        Some(
            "User "@ + decimal(u as nat) + " name mismatch: "@ + original.logical_names()[u] + " vs "@
                + recovered.logical_names()[u],
        )
    } else if original.following(u).to_set() != recovered.following(u).to_set() {
        Some("Edges mismatch for user "@ + decimal(u as nat))
    } else {
        None
    }
}

/// The smallest stored user of `original` that differs in `recovered`.
pub open spec fn first_mismatch(original: ShardedGraph, recovered: ShardedGraph) -> Option<u64> {
    if exists|u: u64| stored_users(original).contains(u) && #[trigger] user_mismatch(original, recovered, u) is Some {
        Some(
            choose|u: u64| {
                &&& stored_users(original).contains(u)
                &&& user_mismatch(original, recovered, u) is Some
                &&& forall|v: u64| stored_users(original).contains(v) && #[trigger] user_mismatch(original, recovered, v) is Some ==> u <= v
            },
        )
    } else {
        None
    }
}

/// The message of the first difference `verify_recovery` finds, if any.
pub open spec fn recovery_mismatch(original: ShardedGraph, recovered: ShardedGraph) -> Option<Seq<char>> {
    let oc = original.shard_count_spec();
    let rc = recovered.shard_count_spec();
    let ou = saturate(total_users(original.graphs()));
    let ru = saturate(total_users(recovered.graphs()));
    let oe = saturate(total_edges(original.graphs()));
    let re = saturate(total_edges(recovered.graphs()));
    if oc != rc {
        Some("Shard count mismatch: "@ + decimal(oc) + " vs "@ + decimal(rc))
    } else if ou != ru {
        Some("User count mismatch: "@ + decimal(ou) + " vs "@ + decimal(ru))
    } else if oe != re {
        Some("Edge count mismatch: "@ + decimal(oe) + " vs "@ + decimal(re))
    } else {
        match first_mismatch(original, recovered) {
            Some(u) => user_mismatch(original, recovered, u),
            None => None,
        }
    }
}

fn count_message(prefix: &str, a: usize, b: usize) -> (message: String)
    ensures
        message@ == prefix@ + decimal(a as nat) + " vs "@ + decimal(b as nat),
{
    let mut message = String::from_str(prefix);
    push_decimal(&mut message, a as u64);
    push_str(&mut message, " vs ");
    push_decimal(&mut message, b as u64);
    message
}

/// Whether both lists hold the same users.
fn same_members(a: &[u64], b: &[u64]) -> (result: bool)
    ensures
        result == (a@.to_set() == b@.to_set()),
{
    for i in 0..a.len()
        invariant
            forall|k: int| 0 <= k < i ==> b@.contains(#[trigger] a@[k]),
    {
        if !crate::graph::contains_id(b, a[i]) {
            proof {
                assert(a@.to_set().contains(a@[i as int]));
                assert(!b@.to_set().contains(a@[i as int]));
            }
            return false;
        }
    }
    for i in 0..b.len()
        invariant
            forall|k: int| 0 <= k < a@.len() ==> b@.contains(#[trigger] a@[k]),
            forall|k: int| 0 <= k < i ==> a@.contains(#[trigger] b@[k]),
    {
        if !crate::graph::contains_id(a, b[i]) {
            proof {
                assert(b@.to_set().contains(b@[i as int]));
                assert(!a@.to_set().contains(b@[i as int]));
            }
            return false;
        }
    }
    proof {
        assert forall|x: u64| a@.to_set().contains(x) <==> b@.to_set().contains(x) by {
            if a@.contains(x) {
                let k = choose|k: int| 0 <= k < a@.len() && a@[k] == x;
                assert(b@.contains(a@[k]));
            }
            if b@.contains(x) {
                let k = choose|k: int| 0 <= k < b@.len() && b@[k] == x;
                assert(a@.contains(b@[k]));
            }
        }
        assert(a@.to_set() =~= b@.to_set());
    }
    true
}

/// The message of `user_mismatch` for `u`, if any.
fn user_mismatch_message(original: &ShardedGraph, recovered: &ShardedGraph, u: u64) -> (message: Option<String>)
    requires
        original.wf(),
        recovered.wf(),
    ensures
        match user_mismatch(*original, *recovered, u) {
            Some(m) => message matches Some(s) && s@ == m,
            None => message is None,
        },
{
    let orig_user = original.get_user(u);
    let rec_user = recovered.get_user(u);
    if orig_user.is_none() != rec_user.is_none() {
        let mut message = String::from_str("User ");
        push_decimal(&mut message, u);
        push_str(&mut message, " presence mismatch");
        return Some(message);
    }
    match (orig_user, rec_user) {
        (Some(orig), Some(rec)) => {
            if orig.name != rec.name {
                let mut message = String::from_str("User ");
                push_decimal(&mut message, u);
                push_str(&mut message, " name mismatch: ");
                push_str(&mut message, orig.name.as_str());
                push_str(&mut message, " vs ");
                push_str(&mut message, rec.name.as_str());
                return Some(message);
            }
        },
        _ => {},
    }
    if !same_members(original.get_following_ids(u), recovered.get_following_ids(u)) {
        let mut message = String::from_str("Edges mismatch for user ");
        push_decimal(&mut message, u);
        return Some(message);
    }
    None
}

/// `u` is stored on one of the shards below `s`.
pub open spec fn stored_before(graph: ShardedGraph, s: int, u: u64) -> bool {
    exists|t: int| 0 <= t < s && (#[trigger] graph.graphs()[t]).has_user(u)
}

/// The best mismatch so far: the smallest seen user that differs, with its message.
pub open spec fn best_so_far(original: ShardedGraph, recovered: ShardedGraph, best: Option<(u64, Seq<char>)>, seen: spec_fn(u64) -> bool) -> bool {
    match best {
        Some((b, m)) => {
            &&& stored_users(original).contains(b)
            &&& user_mismatch(original, recovered, b) == Some(m)
            &&& forall|v: u64| #[trigger] user_mismatch(original, recovered, v) is Some && seen(v) ==> b <= v
        },
        None => forall|v: u64| #[trigger] user_mismatch(original, recovered, v) is Some ==> !seen(v),
    }
}

pub open spec fn best_view(best: Option<(u64, String)>) -> Option<(u64, Seq<char>)> {
    match best {
        Some((b, m)) => Some((b, m@)),
        None => None,
    }
}

/// The message of the smallest stored user of `original` that differs in `recovered`.
fn first_mismatch_message(original: &ShardedGraph, recovered: &ShardedGraph) -> (message: Option<String>)
    requires
        original.wf(),
        recovered.wf(),
    ensures
        match first_mismatch(*original, *recovered) {
            Some(u) => message matches Some(m) && Some(m@) == user_mismatch(*original, *recovered, u),
            None => message is None,
        },
{
    let ids = original.user_ids_per_shard();
    let mut best: Option<(u64, String)> = None;
    let ghost o = *original;
    let ghost r = *recovered;
    for s in 0..ids.len()
        invariant
            o == *original,
            r == *recovered,
            original.wf(),
            recovered.wf(),
            ids@.len() == original.shard_count_spec(),
            forall|i: int| 0 <= i < ids@.len() ==> (#[trigger] ids@[i])@.to_set() == original.graphs()[i].names().dom(),
            best_so_far(o, r, best_view(best), |v: u64| stored_before(o, s as int, v)),
    {
        let shard_ids = &ids[s];
        let ghost before = best_view(best);
        for k in 0..shard_ids.len()
            invariant
                o == *original,
                r == *recovered,
                original.wf(),
                recovered.wf(),
                ids@.len() == original.shard_count_spec(),
                s < ids@.len(),
                shard_ids@.to_set() == original.graphs()[s as int].names().dom(),
                best_so_far(o, r, best_view(best), |v: u64| stored_before(o, s as int, v) || shard_ids@.take(k as int).contains(v)),
        {
            let u = shard_ids[k];
            proof {
                assert(shard_ids@.to_set().contains(u));
                assert(original.graphs()[s as int].has_user(u));
                assert(stored_users(o).contains(u));
                assert(shard_ids@.take(k + 1) =~= shard_ids@.take(k as int).push(u));
            }
            let better = match &best {
                Some((b, _)) => u < *b,
                None => true,
            };
            if better {
                match user_mismatch_message(original, recovered, u) {
                    Some(message) => {
                        best = Some((u, message));
                    },
                    None => {},
                }
            }
            proof {
                let seen = |v: u64| stored_before(o, s as int, v) || shard_ids@.take(k + 1).contains(v);
                let seen_before = |v: u64| stored_before(o, s as int, v) || shard_ids@.take(k as int).contains(v);
                assert forall|v: u64| #[trigger] seen(v) <==> seen_before(v) || v == u by {
                    let pre = shard_ids@.take(k + 1);
                    assert(pre == shard_ids@.take(k as int).push(u));
                    if v == u {
                        assert(pre[k as int] == u);
                    }
                    if shard_ids@.take(k as int).contains(v) {
                        let j = choose|j: int| 0 <= j < k && shard_ids@.take(k as int)[j] == v;
                        assert(pre[j] == v);
                    }
                    if shard_ids@.take(k + 1).contains(v) && v != u {
                        let pre = shard_ids@.take(k + 1);
                        let j = choose|j: int| 0 <= j < pre.len() && pre[j] == v;
                        assert(shard_ids@.take(k as int)[j] == v);
                    }
                }
            }
        }
        proof {
            assert(shard_ids@.take(shard_ids@.len() as int) =~= shard_ids@);
            assert forall|v: u64| #[trigger] stored_before(o, s + 1, v) <==> stored_before(o, s as int, v) || shard_ids@.contains(v) by {
                if stored_before(o, s + 1, v) {
                    let t = choose|t: int| 0 <= t < s + 1 && (#[trigger] o.graphs()[t]).has_user(v);
                    if t == s {
                        assert(shard_ids@.to_set().contains(v));
                    }
                }
                if shard_ids@.contains(v) {
                    assert(shard_ids@.to_set().contains(v));
                    assert(o.graphs()[s as int].has_user(v));
                }
                if stored_before(o, s as int, v) {
                    let t = choose|t: int| 0 <= t < s && (#[trigger] o.graphs()[t]).has_user(v);
                    assert(0 <= t < s + 1);
                }
            }
        }
    }
    proof {
        assert forall|v: u64| #[trigger] stored_users(o).contains(v) <==> stored_before(o, ids@.len() as int, v) by {
            if stored_users(o).contains(v) {
                let t = choose|t: int| 0 <= t < o.shard_count_spec() && (#[trigger] o.graphs()[t]).has_user(v);
            }
        }
        match best_view(best) {
            Some((b, m)) => {
                assert(exists|u: u64| stored_users(o).contains(u) && #[trigger] user_mismatch(o, r, u) is Some);
                let u = first_mismatch(o, r)->Some_0;
                assert({
                    &&& stored_users(o).contains(b)
                    &&& user_mismatch(o, r, b) is Some
                    &&& forall|v: u64| stored_users(o).contains(v) && #[trigger] user_mismatch(o, r, v) is Some ==> b <= v
                });
                assert(b <= u && u <= b);
            },
            None => {
                assert(!exists|u: u64| stored_users(o).contains(u) && #[trigger] user_mismatch(o, r, u) is Some);
            },
        }
    }
    match best {
        Some((_, message)) => Some(message),
        None => None,
    }
}

/// Checks that a recovered graph matches the original: shard count, user count and edge
/// count, then, for each stored user in ascending ID order, presence, name and the users it
/// follows. The first difference is an `IoError` that says what differs.
pub fn verify_recovery(original: &ShardedGraph, recovered: &ShardedGraph) -> (result: Result<(), GraphError>)
    requires
        original.wf(),
        recovered.wf(),
    ensures
        match recovery_mismatch(*original, *recovered) {
            Some(m) => result matches Err(GraphError::IoError(s)) && s@ == m,
            None => result is Ok,
        },
{
    let oc = original.shard_count();
    let rc = recovered.shard_count();
    if oc != rc {
        return Err(GraphError::IoError(count_message("Shard count mismatch: ", oc, rc)));
    }
    let ou = original.user_count();
    let ru = recovered.user_count();
    if ou != ru {
        return Err(GraphError::IoError(count_message("User count mismatch: ", ou, ru)));
    }
    let oe = original.edge_count();
    let re = recovered.edge_count();
    if oe != re {
        return Err(GraphError::IoError(count_message("Edge count mismatch: ", oe, re)));
    }
    match first_mismatch_message(original, recovered) {
        Some(message) => Err(GraphError::IoError(message)),
        None => Ok(()),
    }
}

} // verus!

verus! {

/// A graph always passes `verify_recovery` against itself.
pub proof fn lemma_self_recovery(graph: ShardedGraph)
    ensures
        recovery_mismatch(graph, graph) is None,
{
    assert forall|u: u64| #[trigger] user_mismatch(graph, graph, u) is None by {}
}

} // verus!

verus! {

proof fn lemma_same_view_same_home(p1: Placement, p2: Placement, n: nat, u: u64)
    requires
        placement_view(p1) == placement_view(p2),
    ensures
        placement_shard(p1, n, u) == placement_shard(p2, n, u),
{
    match p1 {
        Placement::Hash => {},
        Placement::Community { community_size } => {},
        Placement::BalancedCommunity { community_sizes, community_to_shard } => {
            assert(p2 matches Placement::BalancedCommunity { .. });
        },
    }
}

/// With no user replicated, shard `s` holds exactly the users whose home it is, under their
/// names, and each of their lists.
proof fn lemma_shard_contents(g: ShardedGraph, s: int)
    requires
        g.wf(),
        g.replicated() == Set::<u64>::empty(),
        0 <= s < g.shard_count_spec(),
    ensures
        forall|u: u64| #[trigger] g.graphs()[s].has_user(u) <==> (g.has_user(u) && g.home(u) == Some(s as usize)),
        forall|u: u64| #[trigger] g.graphs()[s].has_user(u) ==> g.graphs()[s].names()[u] == g.logical_names()[u],
        forall|a: u64, b: u64| #[trigger] g.graphs()[s].edges().contains((a, b)) <==> (g.home(a) == Some(s as usize) && g.following(a).contains(b)),
{
    g.lemma_wf_placement();
    let shard = g.graphs()[s];
    shard.lemma_wf();
    assert forall|u: u64| #[trigger] shard.has_user(u) implies g.home(u) == Some(s as usize) by {
        if g.home(u) != Some(s as usize) {
            assert(!g.replicated().contains(u));
        }
    }
    assert forall|a: u64, b: u64| #[trigger] shard.edges().contains((a, b)) <==> (g.home(a) == Some(s as usize) && g.following(a).contains(b)) by {
        if shard.adjacency().contains_key(a) {
            assert(shard.has_user(a));
        }
    }
}

proof fn lemma_totals_equal(a: Seq<Graph>, b: Seq<Graph>)
    requires
        a.len() == b.len(),
        forall|i: int| 0 <= i < a.len() ==> (#[trigger] a[i]).names().len() == b[i].names().len() && a[i].edges().len() == b[i].edges().len(),
    ensures
        total_users(a) == total_users(b),
        total_edges(a) == total_edges(b),
    decreases a.len(),
{
    if a.len() > 0 {
        lemma_totals_equal(a.drop_last(), b.drop_last());
        assert(a.last() == a[a.len() - 1]);
        assert(b.last() == b[b.len() - 1]);
    }
}

/// Two graphs without replicas, over the same shards and placement, that store the same
/// users under the same names with the same lists pass `verify_recovery` against each other.
pub proof fn lemma_same_contents_verify(original: ShardedGraph, recovered: ShardedGraph)
    requires
        original.wf(),
        recovered.wf(),
        original.replicated() == Set::<u64>::empty(),
        recovered.replicated() == Set::<u64>::empty(),
        original.shard_count_spec() == recovered.shard_count_spec(),
        placement_view(original.spec_placement()) == placement_view(recovered.spec_placement()),
        original.logical_names() == recovered.logical_names(),
        forall|u: u64| #[trigger] original.following(u) == recovered.following(u),
    ensures
        recovery_mismatch(original, recovered) is None,
{
    let n = original.shard_count_spec();
    assert forall|u: u64| #[trigger] original.home(u) == recovered.home(u) by {
        lemma_same_view_same_home(original.spec_placement(), recovered.spec_placement(), n, u);
    }
    assert forall|u: u64| #[trigger] original.has_user(u) == recovered.has_user(u) by {
        assert(original.logical_names().contains_key(u) == original.has_user(u));
        assert(recovered.logical_names().contains_key(u) == recovered.has_user(u));
    }
    let a = original.graphs();
    let b = recovered.graphs();
    assert forall|i: int| 0 <= i < a.len() implies (#[trigger] a[i]).names().len() == b[i].names().len() && a[i].edges().len() == b[i].edges().len() by {
        lemma_shard_contents(original, i);
        lemma_shard_contents(recovered, i);
        assert(a[i].names() =~= b[i].names()) by {
            assert forall|u: u64| a[i].names().contains_key(u) == b[i].names().contains_key(u) by {
                assert(a[i].has_user(u) == a[i].names().contains_key(u));
                assert(b[i].has_user(u) == b[i].names().contains_key(u));
            }
            assert forall|u: u64| #[trigger] a[i].names().contains_key(u) implies a[i].names()[u] == b[i].names()[u] by {
                assert(a[i].has_user(u));
                assert(b[i].has_user(u));
            }
        }
        assert(a[i].edges() =~= b[i].edges()) by {
            assert forall|e: (u64, u64)| a[i].edges().contains(e) == b[i].edges().contains(e) by {
                let (x, y) = e;
                assert(a[i].edges().contains((x, y)) == (original.home(x) == Some(i as usize) && original.following(x).contains(y)));
                assert(b[i].edges().contains((x, y)) == (recovered.home(x) == Some(i as usize) && recovered.following(x).contains(y)));
            }
        }
    }
    lemma_totals_equal(a, b);
    assert forall|u: u64| #[trigger] user_mismatch(original, recovered, u) is None by {}
}

/// A graph restored from its own snapshot passes `verify_recovery` against it, whenever no
/// user is replicated.
pub proof fn lemma_restored_snapshot_verifies(graph: ShardedGraph, snapshot: Snapshot, timestamp: u64, restored: ShardedGraph)
    requires
        graph.wf(),
        graph.replicated() == Set::<u64>::empty(),
        is_snapshot_of(snapshot, graph, timestamp),
        is_restored_from(restored, snapshot, placement_view(graph.spec_placement())),
    ensures
        recovery_mismatch(graph, restored) is None,
{
    lemma_snapshot_round_trip(graph, snapshot, timestamp, restored);
    lemma_same_contents_verify(graph, restored);
}

} // verus!

verus! {

/// Restoring a snapshot of a graph without replicas gives that graph back: the placement text
/// reads back and is accepted, so `restore_from_snapshot` succeeds, and the graph it builds has
/// the same shard count and placement, the same users with the same names, every user's list
/// in the same order, caching disabled, and passes `verify_recovery` against the original.
pub proof fn lemma_restore_gives_back_snapshot_graph(graph: ShardedGraph, snapshot: Snapshot, timestamp: u64, restored: ShardedGraph)
    requires
        graph.wf(),
        graph.replicated() == Set::<u64>::empty(),
        is_snapshot_of(snapshot, graph, timestamp),
        is_restored_from(restored, snapshot, placement_view(graph.spec_placement())),
    ensures
        parse_placement_text(snapshot.placement_info@) == Ok::<PlacementView, Seq<char>>(placement_view(graph.spec_placement())),
        view_error(snapshot.shard_count as nat, placement_view(graph.spec_placement())) is None,
        restored.shard_count_spec() == graph.shard_count_spec(),
        placement_view(restored.spec_placement()) == placement_view(graph.spec_placement()),
        restored.cache_list() is None,
        restored.logical_names() == graph.logical_names(),
        forall|u: u64| #[trigger] restored.following(u) == graph.following(u),
        recovery_mismatch(graph, restored) is None,
{
    lemma_snapshot_round_trip(graph, snapshot, timestamp, restored);
    lemma_restored_snapshot_verifies(graph, snapshot, timestamp, restored);
}

} // verus!

verus! {

/// What replaying one logged operation does. When both users exist, `AddFollow` leaves the
/// target in the source's list and `RemoveFollow` leaves it out (lists without repeats), each
/// keeping every other follow of the source, every other user's list and every name; with a
/// missing user nothing changes. `AddUser` of a new, placeable ID adds it with its name and
/// changes nothing else; otherwise nothing changes.
pub proof fn lemma_operation_effects(state: LogicalGraph, op: Operation, p: Placement, n: nat)
    requires
        forall|s: u64| #[trigger] state.adjacency.contains_key(s) ==> state.adjacency[s].no_duplicates(),
    ensures
        ({
            let after = apply_operation(state, op, p, n);
            match op {
                Operation::AddFollow { source, target } => if state.names.contains_key(source) && state.names.contains_key(target) {
                    &&& list_of(after.adjacency, source).contains(target)
                    &&& forall|t: u64| t != target ==> (list_of(after.adjacency, source).contains(t)
                        <==> #[trigger] list_of(state.adjacency, source).contains(t))
                    &&& forall|u: u64| u != source ==> #[trigger] list_of(after.adjacency, u) == list_of(state.adjacency, u)
                    &&& after.names == state.names
                } else {
                    after == state
                },
                Operation::RemoveFollow { source, target } => if state.names.contains_key(source) && state.names.contains_key(target) {
                    &&& !list_of(after.adjacency, source).contains(target)
                    &&& forall|t: u64| t != target ==> (list_of(after.adjacency, source).contains(t)
                        <==> #[trigger] list_of(state.adjacency, source).contains(t))
                    &&& forall|u: u64| u != source ==> #[trigger] list_of(after.adjacency, u) == list_of(state.adjacency, u)
                    &&& after.names == state.names
                } else {
                    after == state
                },
                Operation::AddUser { id, name } => if id != 0 && placement_shard(p, n, id) is Some && !state.names.contains_key(id) {
                    &&& after.names.contains_key(id)
                    &&& after.names[id] == name@
                    &&& forall|u: u64| u != id ==> (#[trigger] after.names.contains_key(u) <==> state.names.contains_key(u))
                    &&& after.adjacency == state.adjacency
                } else {
                    after == state
                },
            }
        }),
{
    let after = apply_operation(state, op, p, n);
    match op {
        Operation::AddFollow { source, target } => {
            if state.names.contains_key(source) && state.names.contains_key(target) {
                let list = list_of(state.adjacency, source);
                let newl = list_of(after.adjacency, source);
                if list.contains(target) {
                    assert(newl == list);
                } else {
                    assert(newl == list.push(target));
                    assert(newl[list.len() as int] == target);
                    assert forall|t: u64| t != target implies (newl.contains(t) <==> #[trigger] list.contains(t)) by {
                        if newl.contains(t) {
                            let k = choose|k: int| 0 <= k < newl.len() && newl[k] == t;
                            assert(list[k] == t);
                        }
                        if list.contains(t) {
                            let k = choose|k: int| 0 <= k < list.len() && list[k] == t;
                            assert(newl[k] == t);
                        }
                    }
                }
            }
        },
        Operation::RemoveFollow { source, target } => {
            if state.names.contains_key(source) && state.names.contains_key(target) {
                let list = list_of(state.adjacency, source);
                let newl = list_of(after.adjacency, source);
                if state.adjacency.contains_key(source) && list.contains(target) {
                    let q = list.index_of(target);
                    assert(list[q] == target);
                    assert(newl == list.remove(q));
                    assert(list.no_duplicates());
                    assert(!newl.contains(target)) by {
                        if newl.contains(target) {
                            let k = choose|k: int| 0 <= k < newl.len() && newl[k] == target;
                            if k < q {
                                assert(list[k] == target);
                            } else {
                                assert(list[k + 1] == target);
                            }
                        }
                    }
                    assert forall|t: u64| t != target implies (newl.contains(t) <==> #[trigger] list.contains(t)) by {
                        if newl.contains(t) {
                            let k = choose|k: int| 0 <= k < newl.len() && newl[k] == t;
                            if k < q {
                                assert(list[k] == t);
                            } else {
                                assert(list[k + 1] == t);
                            }
                        }
                        if list.contains(t) {
                            let k = choose|k: int| 0 <= k < list.len() && list[k] == t;
                            assert(k != q);
                            if k < q {
                                assert(newl[k] == t);
                            } else {
                                assert(newl[k - 1] == t);
                            }
                        }
                    }
                } else {
                    assert(newl == list);
                }
            }
        },
        Operation::AddUser { id, name } => {},
    }
}

} // verus!

verus! {

/// Logging a follow of a target the source does not follow and then its removal leaves every
/// list as it was.
pub proof fn lemma_add_then_remove_follow(state: LogicalGraph, source: u64, target: u64, p: Placement, n: nat)
    requires
        state.names.contains_key(source),
        state.names.contains_key(target),
        !list_of(state.adjacency, source).contains(target),
    ensures
        ({
            let added = apply_operation(state, Operation::AddFollow { source, target }, p, n);
            let removed = apply_operation(added, Operation::RemoveFollow { source, target }, p, n);
            forall|u: u64| #[trigger] list_of(removed.adjacency, u) == list_of(state.adjacency, u)
        }),
{
    let list = list_of(state.adjacency, source);
    let added = apply_operation(state, Operation::AddFollow { source, target }, p, n);
    let pushed = list.push(target);
    assert(list_of(added.adjacency, source) == pushed);
    assert(pushed[list.len() as int] == target);
    assert(pushed.contains(target));
    let q = pushed.index_of(target);
    assert(pushed[q] == target);
    assert(q == list.len()) by {
        if q < list.len() {
            assert(list[q] == target);
        }
    }
    assert(pushed.remove(q) =~= list);
    let removed = apply_operation(added, Operation::RemoveFollow { source, target }, p, n);
    assert forall|u: u64| #[trigger] list_of(removed.adjacency, u) == list_of(state.adjacency, u) by {}
}

} // verus!
