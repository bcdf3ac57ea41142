use vstd::prelude::*;
use std::collections::{HashMap, VecDeque};
use crate::error::GraphError;

verus! {

/// A lightweight LRU simulator that stores only user IDs.
///
/// Its view is the sequence of cached IDs from least to most recently used.
#[derive(Debug)]
pub struct IdLruSimulator {
    capacity: usize,
    entries: VecDeque<u64>,
}

impl View for IdLruSimulator {
    type V = Seq<u64>;

    closed spec fn view(&self) -> Seq<u64> {
        self.entries@
    }
}

/// The sequence an LRU simulator holds after one access of `user_id`.
pub open spec fn lru_access(entries: Seq<u64>, capacity: nat, user_id: u64) -> Seq<u64> {
    if entries.contains(user_id) {
        entries.remove(entries.index_of(user_id)).push(user_id)
    } else if entries.len() >= capacity {
        entries.drop_first().push(user_id)
    } else {
        entries.push(user_id)
    }
}

impl IdLruSimulator {
    pub closed spec fn spec_capacity(&self) -> nat {
        self.capacity as nat
    }

    /// Every simulator built by `new` keeps this.
    pub closed spec fn wf(&self) -> bool {
        &&& self.capacity > 0
        &&& self.entries@.len() <= self.capacity
        &&& self.entries@.no_duplicates()
    }

    pub fn new(capacity: usize) -> (result: Result<Self, GraphError>)
        ensures
            capacity == 0 <==> result is Err,
            capacity == 0 ==> result == Err::<Self, GraphError>(GraphError::ZeroCacheCapacity),
            result matches Ok(sim) ==> sim.wf() && sim@ == Seq::<u64>::empty()
                && sim.spec_capacity() == capacity,
    {
        if capacity == 0 {
            return Err(GraphError::ZeroCacheCapacity);
        }
        Ok(IdLruSimulator { capacity, entries: VecDeque::with_capacity(capacity) })
    }

    /// Finds where `user_id` stands in the usage order.
    fn position(&self, user_id: u64) -> (result: Option<usize>)
        ensures
            match result {
                Some(i) => i < self@.len() && self@[i as int] == user_id,
                None => !self@.contains(user_id),
            },
    {
        let len = self.entries.len();
        let mut i: usize = 0;
        while i < len
            invariant
                len == self.entries@.len(),
                i <= len,
                forall|j: int| 0 <= j < i ==> self.entries@[j] != user_id,
            decreases len - i,
        {
            if self.entries[i] == user_id {
                return Some(i);
            }
            i = i + 1;
        }
        None
    }

    /// Returns true for a cache hit and false for a cache miss.
    pub fn access(&mut self, user_id: u64) -> (hit: bool)
        requires
            old(self).wf(),
        ensures
            final(self).wf(),
            hit == old(self)@.contains(user_id),
            final(self)@ == lru_access(old(self)@, old(self).spec_capacity(), user_id),
            final(self).spec_capacity() == old(self).spec_capacity(),
    {
        let ghost before = self.entries@;
        match self.position(user_id) {
            Some(i) => {
                proof {
                    assert(before.contains(user_id));
                    let c = before.index_of(user_id);
                    assert(before[c] == user_id);
                    assert(c == i);
                }
                self.entries.remove(i);
                self.entries.push_back(user_id);
                proof {
                    assert(self.entries@.no_duplicates()) by {
                        assert forall|a: int, b: int|
                            0 <= a < self.entries@.len() && 0 <= b < self.entries@.len() && a != b
                            implies self.entries@[a] != self.entries@[b] by {
                            let oa = if a < i { a } else { a + 1 };
                            let ob = if b < i { b } else { b + 1 };
                            if a == self.entries@.len() - 1 {
                                assert(before[ob] == self.entries@[b]);
                            } else if b == self.entries@.len() - 1 {
                                assert(before[oa] == self.entries@[a]);
                            } else {
                                assert(before[oa] == self.entries@[a]);
                                assert(before[ob] == self.entries@[b]);
                            }
                        }
                    }
                }
                true
            },
            None => {
                if self.entries.len() == self.capacity {
                    self.entries.pop_front();
                }
                self.entries.push_back(user_id);
                proof {
                    if before.len() >= self.capacity {
                        assert(before.drop_first() =~= before.subrange(1, before.len() as int));
                    }
                    assert(self.entries@.no_duplicates()) by {
                        let mid = if before.len() >= self.capacity { before.drop_first() } else { before };
                        assert(self.entries@ == mid.push(user_id));
                        assert forall|a: int, b: int|
                            0 <= a < self.entries@.len() && 0 <= b < self.entries@.len() && a != b
                            implies self.entries@[a] != self.entries@[b] by {
                            if before.len() >= self.capacity {
                                if a < mid.len() { assert(mid[a] == before[a + 1]); }
                                if b < mid.len() { assert(mid[b] == before[b + 1]); }
                            }
                        }
                    }
                }
                false
            },
        }
    }

    pub fn contains(&self, user_id: u64) -> (result: bool)
        ensures
            result == self@.contains(user_id),
    {
        let len = self.entries.len();
        let mut i: usize = 0;
        while i < len
            invariant
                len == self.entries@.len(),
                i <= len,
                forall|j: int| 0 <= j < i ==> self.entries@[j] != user_id,
            decreases len - i,
        {
            if self.entries[i] == user_id {
                return true;
            }
            i = i + 1;
        }
        false
    }

    pub fn len(&self) -> (result: usize)
        requires
            self.wf(),
        ensures
            result == self@.len(),
            result <= self.spec_capacity(),
    {
        self.entries.len()
    }

    pub fn is_empty(&self) -> (result: bool)
        ensures
            result == (self@.len() == 0),
    {
        self.entries.len() == 0
    }

    pub fn capacity(&self) -> (result: usize)
        ensures
            result == self.spec_capacity(),
    {
        self.capacity
    }
}

} // verus!

verus! {

/// Which entry a full adjacency cache gives up first.
#[derive(Clone, Copy, Debug, PartialEq, Eq, Structural)]
pub enum EvictionPolicy {
    /// The least recently used entry; reads refresh an entry.
    Lru,
    /// The entry inserted first; reads do not reorder entries.
    Fifo,
    /// The least frequently used entry; among equals, the least recently used.
    Lfu,
}

/// One cached adjacency list as the contracts see it.
pub struct CacheEntry {
    pub user_id: u64,
    pub adjacency: Seq<u64>,
    pub frequency: u64,
}

/// Bytes charged for caching one adjacency list of `len` targets: the key and each target
/// take eight bytes; the charge saturates at `usize::MAX`.
pub open spec fn entry_bytes(len: nat) -> nat {
    if 8 * (len + 1) <= usize::MAX {
        8 * (len + 1)
    } else {
        usize::MAX as nat
    }
}

/// Bytes charged for every entry of `entries`.
pub open spec fn total_bytes(entries: Seq<CacheEntry>) -> nat
    decreases entries.len(),
{
    if entries.len() == 0 {
        0
    } else {
        total_bytes(entries.drop_last()) + entry_bytes(entries.last().adjacency.len())
    }
}

pub open spec fn has_key(entries: Seq<CacheEntry>, user_id: u64) -> bool {
    exists|i: int| 0 <= i < entries.len() && #[trigger] entries[i].user_id == user_id
}

/// Where the entry of `user_id` stands (meaningful when `has_key`).
pub open spec fn key_position(entries: Seq<CacheEntry>, user_id: u64) -> int {
    choose|i: int| 0 <= i < entries.len() && #[trigger] entries[i].user_id == user_id
}

pub open spec fn keys_distinct(entries: Seq<CacheEntry>) -> bool {
    forall|i: int, j: int|
        0 <= i < entries.len() && 0 <= j < entries.len() && i != j
            ==> #[trigger] entries[i].user_id != #[trigger] entries[j].user_id
}

pub open spec fn without_key(entries: Seq<CacheEntry>, user_id: u64) -> Seq<CacheEntry> {
    if has_key(entries, user_id) {
        entries.remove(key_position(entries, user_id))
    } else {
        entries
    }
}

/// A frequency counter after one more use.
pub open spec fn bumped(frequency: u64) -> u64 {
    if frequency == u64::MAX {
        frequency
    } else {
        (frequency + 1) as u64
    }
}

/// The first entry with the smallest frequency.
pub open spec fn lfu_victim(entries: Seq<CacheEntry>) -> int
    decreases entries.len(),
{
    if entries.len() <= 1 {
        0
    } else {
        let best = lfu_victim(entries.drop_last());
        if entries.last().frequency < entries[best].frequency {
            entries.len() - 1
        } else {
            best
        }
    }
}

/// The entry that `policy` evicts next.
pub open spec fn victim(entries: Seq<CacheEntry>, policy: EvictionPolicy) -> int {
    match policy {
        EvictionPolicy::Lfu => lfu_victim(entries),
        _ => 0,
    }
}

pub proof fn lemma_lfu_victim_in_range(entries: Seq<CacheEntry>)
    requires
        entries.len() > 0,
    ensures
        0 <= lfu_victim(entries) < entries.len(),
    decreases entries.len(),
{
    if entries.len() > 1 {
        lemma_lfu_victim_in_range(entries.drop_last());
    }
}

pub proof fn lemma_victim_in_range(entries: Seq<CacheEntry>, policy: EvictionPolicy)
    requires
        entries.len() > 0,
    ensures
        0 <= victim(entries, policy) < entries.len(),
{
    lemma_lfu_victim_in_range(entries);
}

pub open spec fn over_budget(entries: Seq<CacheEntry>, byte_capacity: Option<usize>, need: nat) -> bool {
    match byte_capacity {
        Some(limit) => total_bytes(entries) + need > limit,
        None => false,
    }
}

/// Evicts entries until one more entry of `need` bytes fits.
pub open spec fn evict_until_fits(
    entries: Seq<CacheEntry>,
    capacity: nat,
    byte_capacity: Option<usize>,
    need: nat,
    policy: EvictionPolicy,
) -> Seq<CacheEntry>
    decreases entries.len(),
{
    if entries.len() > 0 && (entries.len() >= capacity || over_budget(entries, byte_capacity, need)) {
        proof {
            lemma_victim_in_range(entries, policy);
        }
        evict_until_fits(
            entries.remove(victim(entries, policy)),
            capacity,
            byte_capacity,
            need,
            policy,
        )
    } else {
        entries
    }
}

/// The entries after `insert(user_id, adjacency)`.
pub open spec fn after_insert(
    entries: Seq<CacheEntry>,
    capacity: nat,
    byte_capacity: Option<usize>,
    policy: EvictionPolicy,
    user_id: u64,
    adjacency: Seq<u64>,
) -> Seq<CacheEntry> {
    let frequency = if has_key(entries, user_id) {
        bumped(entries[key_position(entries, user_id)].frequency)
    } else {
        1u64
    };
    let rest = without_key(entries, user_id);
    let need = entry_bytes(adjacency.len());
    if byte_capacity matches Some(limit) && need > limit {
        rest
    } else {
        evict_until_fits(rest, capacity, byte_capacity, need, policy).push(
            CacheEntry { user_id, adjacency, frequency },
        )
    }
}

/// The entries after `get(user_id)`.
pub open spec fn after_get(entries: Seq<CacheEntry>, policy: EvictionPolicy, user_id: u64) -> Seq<
    CacheEntry,
> {
    if has_key(entries, user_id) {
        let pos = key_position(entries, user_id);
        let e = entries[pos];
        let refreshed = CacheEntry {
            user_id: e.user_id,
            adjacency: e.adjacency,
            frequency: bumped(e.frequency),
        };
        if policy == EvictionPolicy::Fifo {
            entries.update(pos, refreshed)
        } else {
            entries.remove(pos).push(refreshed)
        }
    } else {
        entries
    }
}

/// What `get(user_id)` returns.
pub open spec fn lookup(entries: Seq<CacheEntry>, user_id: u64) -> Option<Seq<u64>> {
    if has_key(entries, user_id) {
        Some(entries[key_position(entries, user_id)].adjacency)
    } else {
        None
    }
}

#[derive(Debug)]
struct CacheNode {
    user_id: u64,
    adjacency_list: Vec<u64>,
    frequency: u64,
    previous: Option<usize>,
    next: Option<usize>,
}

spec fn prev_of(order: Seq<usize>, i: int) -> Option<usize> {
    if i == 0 {
        None
    } else {
        Some(order[i - 1])
    }
}

spec fn next_of(order: Seq<usize>, i: int) -> Option<usize> {
    if i + 1 >= order.len() {
        None
    } else {
        Some(order[i + 1])
    }
}

spec fn first_of(order: Seq<usize>) -> Option<usize> {
    if order.len() == 0 {
        None
    } else {
        Some(order[0])
    }
}

spec fn last_of(order: Seq<usize>) -> Option<usize> {
    if order.len() == 0 {
        None
    } else {
        Some(order[order.len() - 1])
    }
}

spec fn node_linked(nodes: Seq<Option<CacheNode>>, order: Seq<usize>, i: int) -> bool {
    &&& order[i] < nodes.len()
    &&& nodes[order[i] as int] is Some
    &&& nodes[order[i] as int].unwrap().previous == prev_of(order, i)
    &&& nodes[order[i] as int].unwrap().next == next_of(order, i)
}

/// `order` lists the linked nodes from head to tail.
spec fn links_wf(
    nodes: Seq<Option<CacheNode>>,
    order: Seq<usize>,
    head: Option<usize>,
    tail: Option<usize>,
) -> bool {
    &&& order.no_duplicates()
    &&& head == first_of(order)
    &&& tail == last_of(order)
    &&& forall|i: int| 0 <= i < order.len() ==> #[trigger] node_linked(nodes, order, i)
}

/// Two slots hold the same entry data, whatever their links.
spec fn same_slot(a: Option<CacheNode>, b: Option<CacheNode>) -> bool {
    &&& (a is Some <==> b is Some)
    &&& a is Some ==> {
        &&& a.unwrap().user_id == b.unwrap().user_id
        &&& a.unwrap().adjacency_list@ == b.unwrap().adjacency_list@
        &&& a.unwrap().frequency == b.unwrap().frequency
    }
}

spec fn same_slots(a: Seq<Option<CacheNode>>, b: Seq<Option<CacheNode>>) -> bool {
    &&& a.len() == b.len()
    &&& forall|j: int| 0 <= j < a.len() ==> same_slot(#[trigger] a[j], b[j])
}

spec fn node_entry(n: Option<CacheNode>) -> CacheEntry {
    CacheEntry {
        user_id: n.unwrap().user_id,
        adjacency: n.unwrap().adjacency_list@,
        frequency: n.unwrap().frequency,
    }
}

spec fn entries_of(nodes: Seq<Option<CacheNode>>, order: Seq<usize>) -> Seq<CacheEntry> {
    Seq::new(order.len(), |i: int| node_entry(nodes[order[i] as int]))
}

/// Executable form of `entry_bytes`.
fn bytes_for(len: usize) -> (result: usize)
    ensures
        result == entry_bytes(len as nat),
{
    if len < usize::MAX / 8 {
        proof {
            assert(8 * (len + 1) <= usize::MAX) by (nonlinear_arith)
                requires len < usize::MAX / 8;
        }
        (len + 1) * 8
    } else {
        proof {
            assert(8 * (len + 1) > usize::MAX) by (nonlinear_arith)
                requires len >= usize::MAX / 8;
        }
        usize::MAX
    }
}

fn set_next(nodes: &mut Vec<Option<CacheNode>>, index: usize, next: Option<usize>)
    requires
        index < old(nodes).len(),
        old(nodes)@[index as int] is Some,
    ensures
        final(nodes)@.len() == old(nodes)@.len(),
        forall|j: int| 0 <= j < old(nodes)@.len() && j != index ==> final(nodes)@[j] == old(nodes)@[j],
        same_slot(final(nodes)@[index as int], old(nodes)@[index as int]),
        final(nodes)@[index as int].unwrap().next == next,
        final(nodes)@[index as int].unwrap().previous == old(nodes)@[index as int].unwrap().previous,
{
    match &mut nodes[index] {
        Some(node) => {
            node.next = next;
        },
        None => {},
    }
}

fn set_previous(nodes: &mut Vec<Option<CacheNode>>, index: usize, previous: Option<usize>)
    requires
        index < old(nodes).len(),
        old(nodes)@[index as int] is Some,
    ensures
        final(nodes)@.len() == old(nodes)@.len(),
        forall|j: int| 0 <= j < old(nodes)@.len() && j != index ==> final(nodes)@[j] == old(nodes)@[j],
        same_slot(final(nodes)@[index as int], old(nodes)@[index as int]),
        final(nodes)@[index as int].unwrap().previous == previous,
        final(nodes)@[index as int].unwrap().next == old(nodes)@[index as int].unwrap().next,
{
    match &mut nodes[index] {
        Some(node) => {
            node.previous = previous;
        },
        None => {},
    }
}

/// A shard-local adjacency-list cache: user ID to the IDs that user follows.
///
/// Entries form a doubly linked usage order over reusable node slots, with a hash index from
/// user ID to slot. Its view lists the entries from the head of that order (evicted first
/// under LRU and FIFO) to the tail (the newest).
pub struct AdjacencyLruCache {
    capacity: usize,
    byte_capacity: Option<usize>,
    policy: EvictionPolicy,
    // Bytes charged for the entries; kept only when the cache is byte-bounded.
    stored_bytes: usize,
    // Finds a cached user without scanning every entry.
    locations: HashMap<u64, usize>,
    // Nodes form a doubly linked usage-order list.
    nodes: Vec<Option<CacheNode>>,
    // Empty node positions that can be reused.
    free_indices: Vec<usize>,
    // Least recently used entry.
    head: Option<usize>,
    // Most recently used entry.
    tail: Option<usize>,
    order: Ghost<Seq<usize>>,
}

impl View for AdjacencyLruCache {
    type V = Seq<CacheEntry>;

    closed spec fn view(&self) -> Seq<CacheEntry> {
        entries_of(self.nodes@, self.order@)
    }
}


proof fn lemma_entries_remove(nodes: Seq<Option<CacheNode>>, order: Seq<usize>, k: int)
    requires
        0 <= k < order.len(),
    ensures
        entries_of(nodes, order.remove(k)) == entries_of(nodes, order).remove(k),
{
    assert(entries_of(nodes, order.remove(k)) =~= entries_of(nodes, order).remove(k));
}

proof fn lemma_entries_push(nodes: Seq<Option<CacheNode>>, order: Seq<usize>, x: usize)
    ensures
        entries_of(nodes, order.push(x)) == entries_of(nodes, order).push(node_entry(nodes[x as int])),
{
    assert(entries_of(nodes, order.push(x)) =~= entries_of(nodes, order).push(node_entry(nodes[x as int])));
}

pub proof fn lemma_total_bytes_push(s: Seq<CacheEntry>, e: CacheEntry)
    ensures
        total_bytes(s.push(e)) == total_bytes(s) + entry_bytes(e.adjacency.len()),
{
    assert(s.push(e).drop_last() =~= s);
}

pub proof fn lemma_total_bytes_remove(s: Seq<CacheEntry>, k: int)
    requires
        0 <= k < s.len(),
    ensures
        total_bytes(s.remove(k)) + entry_bytes(s[k].adjacency.len()) == total_bytes(s),
    decreases s.len(),
{
    if k == s.len() - 1 {
        assert(s.remove(k) =~= s.drop_last());
    } else {
        lemma_total_bytes_remove(s.drop_last(), k);
        assert(s.remove(k).drop_last() =~= s.drop_last().remove(k));
        assert(s.remove(k).last() == s.last());
    }
}

pub proof fn lemma_total_bytes_update(s: Seq<CacheEntry>, k: int, e: CacheEntry)
    requires
        0 <= k < s.len(),
        e.adjacency.len() == s[k].adjacency.len(),
    ensures
        total_bytes(s.update(k, e)) == total_bytes(s),
    decreases s.len(),
{
    if k == s.len() - 1 {
        assert(s.update(k, e).drop_last() =~= s.drop_last());
    } else {
        lemma_total_bytes_update(s.drop_last(), k, e);
        assert(s.update(k, e).drop_last() =~= s.drop_last().update(k, e));
    }
}

proof fn lemma_has_key_remove(s: Seq<CacheEntry>, i: int, k: u64)
    requires
        0 <= i < s.len(),
        has_key(s.remove(i), k),
    ensures
        has_key(s, k),
{
    let j = choose|j: int| 0 <= j < s.remove(i).len() && #[trigger] s.remove(i)[j].user_id == k;
    if j < i {
        assert(s[j].user_id == k);
    } else {
        assert(s[j + 1].user_id == k);
    }
}

impl AdjacencyLruCache {
    pub closed spec fn spec_capacity(&self) -> nat {
        self.capacity as nat
    }

    pub closed spec fn spec_byte_capacity(&self) -> Option<usize> {
        self.byte_capacity
    }

    pub closed spec fn spec_policy(&self) -> EvictionPolicy {
        self.policy
    }

    /// The three settings fixed at construction are equal.
    pub open spec fn same_settings(&self, other: &Self) -> bool {
        &&& self.spec_capacity() == other.spec_capacity()
        &&& self.spec_byte_capacity() == other.spec_byte_capacity()
        &&& self.spec_policy() == other.spec_policy()
    }

    spec fn key_at(&self, i: int) -> u64 {
        self.nodes@[self.order@[i] as int].unwrap().user_id
    }

    spec fn locations_wf(&self) -> bool {
        &&& self.locations@.dom().finite()
        &&& self.locations@.len() == self.order@.len()
        &&& forall|i: int|
            #![trigger self.order@[i]]
            0 <= i < self.order@.len() ==> self.locations@.contains_key(self.key_at(i))
                && self.locations@[self.key_at(i)] == self.order@[i]
        &&& forall|k: u64| #[trigger]
            self.locations@.contains_key(k) ==> {
                &&& self.order@.contains(self.locations@[k])
                &&& self.nodes@[self.locations@[k] as int].unwrap().user_id == k
            }
    }

    spec fn free_wf(&self) -> bool {
        &&& self.free_indices@.no_duplicates()
        &&& forall|j: int|
            0 <= j < self.free_indices@.len() ==> #[trigger] self.free_indices@[j] < self.nodes@.len()
                && self.nodes@[self.free_indices@[j] as int] is None
    }

    spec fn bytes_wf(&self) -> bool {
        match self.byte_capacity {
            Some(limit) => {
                &&& limit > 0
                &&& self.stored_bytes == total_bytes(self@)
                &&& total_bytes(self@) <= limit
            },
            None => self.stored_bytes == 0,
        }
    }

    /// Every cache built by a constructor keeps this.
    pub closed spec fn wf(&self) -> bool {
        &&& self.capacity > 0
        &&& self.order@.len() <= self.capacity
        &&& links_wf(self.nodes@, self.order@, self.head, self.tail)
        &&& self.locations_wf()
        &&& self.free_wf()
        &&& self.bytes_wf()
    }

    /// A well-formed cache holds at most one entry per user.
    pub proof fn lemma_keys_distinct(&self)
        requires
            self.wf(),
        ensures
            keys_distinct(self@),
    {
        self.lemma_locations(0);
    }

    proof fn lemma_locations(&self, user_id: u64)
        requires
            self.wf(),
        ensures
            keys_distinct(self@),
            self@.len() == self.order@.len(),
            has_key(self@, user_id) == self.locations@.contains_key(user_id),
            has_key(self@, user_id) ==> {
                &&& self.order@.contains(self.locations@[user_id])
                &&& key_position(self@, user_id) == self.order@.index_of(self.locations@[user_id])
                &&& self.order@[key_position(self@, user_id)] == self.locations@[user_id]
            },
    {
        assert forall|i: int, j: int|
            0 <= i < self@.len() && 0 <= j < self@.len() && i != j
                implies #[trigger] self@[i].user_id != #[trigger] self@[j].user_id by {
            assert(self.order@[i] == self.order@[i]);
            assert(self.order@[j] == self.order@[j]);
            assert(self@[i].user_id == self.key_at(i));
            assert(self@[j].user_id == self.key_at(j));
        }
        if self.locations@.contains_key(user_id) {
            let idx = self.locations@[user_id];
            assert(self.order@.contains(idx));
            let p = self.order@.index_of(idx);
            assert(self.order@[p] == idx);
            assert(self@[p].user_id == user_id);
            assert(has_key(self@, user_id));
            let q = key_position(self@, user_id);
            assert(self@[q].user_id == user_id);
        }
        if has_key(self@, user_id) {
            let q = key_position(self@, user_id);
            assert(self@[q].user_id == user_id);
            assert(self.order@[q] == self.order@[q]);
            assert(self.key_at(q) == user_id);
        }
    }

    /// Unlinks one slot from the usage order.
    fn detach(&mut self, index: usize)
        requires
            links_wf(old(self).nodes@, old(self).order@, old(self).head, old(self).tail),
            old(self).order@.contains(index),
        ensures
            links_wf(final(self).nodes@, final(self).order@, final(self).head, final(self).tail),
            final(self).order@ == old(self).order@.remove(old(self).order@.index_of(index)),
            same_slots(old(self).nodes@, final(self).nodes@),
            final(self).capacity == old(self).capacity,
            final(self).byte_capacity == old(self).byte_capacity,
            final(self).policy == old(self).policy,
            final(self).stored_bytes == old(self).stored_bytes,
            final(self).locations@ == old(self).locations@,
            final(self).free_indices@ == old(self).free_indices@,
            final(self).nodes@[index as int] is Some,
            final(self).nodes@[index as int].unwrap().previous is None,
            final(self).nodes@[index as int].unwrap().next is None,
    {
        let ghost o = self.order@;
        let ghost k = o.index_of(index);
        let ghost n0 = self.nodes@;
        proof {
            assert(o[k] == index);
            assert(node_linked(n0, o, k));
        }
        let (previous, next) = match &self.nodes[index] {
            Some(node) => (node.previous, node.next),
            None => (None, None),
        };
        match previous {
            Some(p) => {
                proof {
                    assert(node_linked(n0, o, k - 1));
                }
                set_next(&mut self.nodes, p, next);
            },
            None => {
                self.head = next;
            },
        }
        let ghost n1 = self.nodes@;
        match next {
            Some(n) => {
                proof {
                    assert(node_linked(n0, o, k + 1));
                    assert(n != index);
                    if k > 0 {
                        assert(o[k - 1] != o[k + 1]);
                    }
                }
                set_previous(&mut self.nodes, n, previous);
            },
            None => {
                self.tail = previous;
            },
        }
        let ghost n2 = self.nodes@;
        set_previous(&mut self.nodes, index, None);
        set_next(&mut self.nodes, index, None);
        proof {
            let o2 = o.remove(k);
            self.order@ = o2;
            let nf = self.nodes@;
            assert(same_slots(n0, nf));
            assert forall|i: int| 0 <= i < o2.len() implies #[trigger] node_linked(nf, o2, i) by {
                if i < k {
                    assert(o2[i] == o[i]);
                    assert(node_linked(n0, o, i));
                    assert(o[i] != index);
                    if i == k - 1 {
                        assert(nf[o[i] as int] == n2[o[i] as int]);
                        if k + 1 < o.len() {
                            assert(o[k + 1] != o[i]);
                            assert(o2[i + 1] == o[k + 1]);
                        }
                    } else {
                        assert(o[i] != o[k - 1]);
                        if k + 1 < o.len() {
                            assert(o[i] != o[k + 1]);
                        }
                        assert(nf[o[i] as int] == n0[o[i] as int]);
                        assert(o2[i + 1] == o[i + 1]);
                        if i > 0 {
                            assert(o2[i - 1] == o[i - 1]);
                        }
                    }
                } else {
                    assert(o2[i] == o[i + 1]);
                    assert(node_linked(n0, o, i + 1));
                    assert(o[i + 1] != index);
                    if k > 0 {
                        assert(o[i + 1] != o[k - 1]);
                    }
                    if i == k {
                        assert(nf[o[i + 1] as int] == n2[o[i + 1] as int]);
                        if k > 0 {
                            assert(o2[i - 1] == o[k - 1]);
                        }
                    } else {
                        assert(o[i + 1] != o[k + 1]);
                        assert(nf[o[i + 1] as int] == n0[o[i + 1] as int]);
                        assert(o2[i - 1] == o[i]);
                        if i + 1 < o2.len() {
                            assert(o2[i + 1] == o[i + 2]);
                        }
                    }
                }
            }
            assert(o2.no_duplicates()) by {
                assert forall|a: int, b: int| 0 <= a < o2.len() && 0 <= b < o2.len() && a != b
                    implies o2[a] != o2[b] by {
                    let oa = if a < k { a } else { a + 1 };
                    let ob = if b < k { b } else { b + 1 };
                    assert(o2[a] == o[oa]);
                    assert(o2[b] == o[ob]);
                }
            }
            if o2.len() > 0 {
                if k == 0 {
                    assert(o2[0] == o[1]);
                } else {
                    assert(o2[0] == o[0]);
                }
                if k == o.len() - 1 {
                    assert(o2[o2.len() - 1] == o[k - 1]);
                } else {
                    assert(o2[o2.len() - 1] == o[o.len() - 1]);
                }
            }
        }
    }

    /// Links a slot in as the newest entry.
    fn attach_as_most_recent(&mut self, index: usize)
        requires
            links_wf(old(self).nodes@, old(self).order@, old(self).head, old(self).tail),
            !old(self).order@.contains(index),
            index < old(self).nodes@.len(),
            old(self).nodes@[index as int] is Some,
        ensures
            links_wf(final(self).nodes@, final(self).order@, final(self).head, final(self).tail),
            final(self).order@ == old(self).order@.push(index),
            same_slots(old(self).nodes@, final(self).nodes@),
            final(self).capacity == old(self).capacity,
            final(self).byte_capacity == old(self).byte_capacity,
            final(self).policy == old(self).policy,
            final(self).stored_bytes == old(self).stored_bytes,
            final(self).locations@ == old(self).locations@,
            final(self).free_indices@ == old(self).free_indices@,
    {
        let ghost o = self.order@;
        let ghost n0 = self.nodes@;
        let previous_tail = self.tail;
        set_previous(&mut self.nodes, index, previous_tail);
        set_next(&mut self.nodes, index, None);
        match previous_tail {
            Some(t) => {
                proof {
                    assert(node_linked(n0, o, o.len() - 1));
                    assert(o[o.len() - 1] != index);
                }
                set_next(&mut self.nodes, t, Some(index));
            },
            None => {
                self.head = Some(index);
            },
        }
        self.tail = Some(index);
        proof {
            let o2 = o.push(index);
            self.order@ = o2;
            let nf = self.nodes@;
            assert forall|i: int| 0 <= i < o2.len() implies #[trigger] node_linked(nf, o2, i) by {
                if i < o.len() {
                    assert(o2[i] == o[i]);
                    assert(node_linked(n0, o, i));
                    assert(o[i] != index);
                    if i + 1 < o.len() {
                        assert(o2[i + 1] == o[i + 1]);
                    }
                    if i > 0 {
                        assert(o2[i - 1] == o[i - 1]);
                    }
                    if i < o.len() - 1 {
                        assert(o[i] != o[o.len() - 1]);
                        assert(nf[o[i] as int] == n0[o[i] as int]);
                    }
                }
            }
            assert(o2.no_duplicates()) by {
                assert forall|a: int, b: int| 0 <= a < o2.len() && 0 <= b < o2.len() && a != b
                    implies o2[a] != o2[b] by {
                    if a < o.len() {
                        assert(o2[a] == o[a]);
                    }
                    if b < o.len() {
                        assert(o2[b] == o[b]);
                    }
                }
            }
            if o.len() > 0 {
                assert(o2[0] == o[0]);
            }
        }
    }

    /// Removes a node from the cache, slot, index and usage order alike.
    fn remove_node(&mut self, index: usize)
        requires
            old(self).wf(),
            old(self).order@.contains(index),
        ensures
            final(self).wf(),
            final(self)@ == old(self)@.remove(old(self).order@.index_of(index)),
            final(self).same_settings(old(self)),
    {
        let ghost old_view = self@;
        let ghost o = self.order@;
        let ghost k = o.index_of(index);
        let ghost n0 = self.nodes@;
        proof {
            assert(o[k] == index);
            assert(node_linked(n0, o, k));
            self.lemma_locations(self.key_at(k));
        }
        let (user_id, bytes) = match &self.nodes[index] {
            Some(node) => (node.user_id, bytes_for(node.adjacency_list.len())),
            None => (0, 0),
        };
        self.detach(index);
        let ghost nd = self.nodes@;
        self.locations.remove(&user_id);
        self.nodes.set(index, None);
        self.free_indices.push(index);
        match self.byte_capacity {
            Some(_) => {
                proof {
                    lemma_total_bytes_remove(old_view, k);
                }
                self.stored_bytes = self.stored_bytes - bytes;
            },
            None => {},
        }
        proof {
            let o2 = self.order@;
            let nf = self.nodes@;
            assert(o2 == o.remove(k));
            assert forall|i: int| 0 <= i < o2.len() implies o2[i] != index by {
                if i < k {
                    assert(o2[i] == o[i]);
                } else {
                    assert(o2[i] == o[i + 1]);
                }
            }
            assert forall|i: int| 0 <= i < o2.len() implies #[trigger] node_linked(nf, o2, i) by {
                assert(o2[i] != index);
                assert(node_linked(nd, o2, i));
                assert(nf[o2[i] as int] == nd[o2[i] as int]);
            }
            assert forall|j: int| 0 <= j < o2.len() implies #[trigger] o2[j] < n0.len() by {
                assert(node_linked(nf, o2, j));
            }
            assert(entries_of(nf, o2) =~= old_view.remove(k)) by {
                lemma_entries_remove(n0, o, k);
                assert forall|i: int| 0 <= i < o2.len() implies entries_of(nf, o2)[i] == entries_of(n0, o2)[i] by {
                    assert(o2[i] != index);
                    assert(nf[o2[i] as int] == nd[o2[i] as int]);
                    assert(same_slot(n0[o2[i] as int], nd[o2[i] as int]));
                }
            }
            // the index
            assert forall|i: int|
                #![trigger o2[i]]
                0 <= i < o2.len() implies self.locations@.contains_key(self.key_at(i))
                    && self.locations@[self.key_at(i)] == o2[i] by {
                let oi = if i < k { i } else { i + 1 };
                assert(o2[i] == o[oi]);
                assert(o[oi] == o[oi]);
                assert(old(self).key_at(oi) != user_id);
            }
            assert forall|key: u64| #[trigger] self.locations@.contains_key(key) implies {
                &&& self.order@.contains(self.locations@[key])
                &&& self.nodes@[self.locations@[key] as int].unwrap().user_id == key
            } by {
                assert(old(self).locations@.contains_key(key));
                let loc = self.locations@[key];
                assert(o.contains(loc));
                let p = o.index_of(loc);
                assert(o[p] == loc);
                assert(loc != index);
                assert(p != k);
                if p < k {
                    assert(o2[p] == loc);
                } else {
                    assert(o2[p - 1] == loc);
                }
            }
            assert(self.free_indices@.no_duplicates()) by {
                assert forall|a: int, b: int|
                    0 <= a < self.free_indices@.len() && 0 <= b < self.free_indices@.len() && a != b
                    implies self.free_indices@[a] != self.free_indices@[b] by {
                    if a < old(self).free_indices@.len() {
                        assert(n0[old(self).free_indices@[a] as int] is None);
                    }
                    if b < old(self).free_indices@.len() {
                        assert(n0[old(self).free_indices@[b] as int] is None);
                    }
                }
            }
            assert forall|j: int| 0 <= j < self.free_indices@.len() implies
                #[trigger] self.free_indices@[j] < self.nodes@.len()
                && self.nodes@[self.free_indices@[j] as int] is None by {
                if j < old(self).free_indices@.len() {
                    assert(old(self).free_indices@[j] == self.free_indices@[j]);
                }
            }
        }
    }

    /// Creates a new node for a key the cache does not hold, reusing a deleted slot when
    /// possible, and links it in as the newest entry.
    fn allocate_node(&mut self, user_id: u64, adjacency_list: Vec<u64>, frequency: u64)
        requires
            old(self).wf(),
            !has_key(old(self)@, user_id),
            old(self)@.len() < old(self).capacity,
            old(self).byte_capacity matches Some(limit) ==> total_bytes(old(self)@)
                + entry_bytes(adjacency_list@.len()) <= limit,
        ensures
            final(self).wf(),
            final(self)@ == old(self)@.push(CacheEntry { user_id, adjacency: adjacency_list@, frequency }),
            final(self).same_settings(old(self)),
    {
        let ghost old_view = self@;
        let ghost o = self.order@;
        let ghost list = adjacency_list@;
        proof {
            self.lemma_locations(user_id);
        }
        let bytes = bytes_for(adjacency_list.len());
        let node = CacheNode { user_id, adjacency_list, frequency, previous: None, next: None };
        let ghost n0 = self.nodes@;
        let index = match self.free_indices.pop() {
            Some(index) => {
                proof {
                    let last = old(self).free_indices@.len() - 1;
                    assert(old(self).free_indices@[last] == index);
                }
                self.nodes.set(index, Some(node));
                index
            },
            None => {
                self.nodes.push(Some(node));
                self.nodes.len() - 1
            },
        };
        let ghost n1 = self.nodes@;
        proof {
            assert(!o.contains(index)) by {
                if o.contains(index) {
                    let p = o.index_of(index);
                    assert(node_linked(n0, o, p));
                }
            }
            assert forall|i: int| 0 <= i < o.len() implies #[trigger] node_linked(n1, o, i) by {
                assert(node_linked(n0, o, i));
                assert(o[i] != index);
                assert(n1[o[i] as int] == n0[o[i] as int]);
            }
            assert(links_wf(n1, o, self.head, self.tail));
        }
        self.locations.insert(user_id, index);
        self.attach_as_most_recent(index);
        match self.byte_capacity {
            Some(_) => {
                self.stored_bytes = self.stored_bytes + bytes;
            },
            None => {},
        }
        proof {
            let o2 = self.order@;
            let nf = self.nodes@;
            let e = CacheEntry { user_id, adjacency: list, frequency };
            assert(o2 == o.push(index));
            assert forall|j: int| 0 <= j < o.len() implies #[trigger] o[j] < n0.len() by {
                assert(node_linked(n0, o, j));
            }
            assert(entries_of(nf, o2) =~= old_view.push(e)) by {
                lemma_entries_push(nf, o, index);
                assert forall|i: int| 0 <= i < o.len() implies entries_of(nf, o)[i] == old_view[i] by {
                    assert(o[i] != index);
                    assert(same_slot(n1[o[i] as int], nf[o[i] as int]));
                    assert(n1[o[i] as int] == n0[o[i] as int]);
                }
                assert(same_slot(n1[index as int], nf[index as int]));
            }
            lemma_total_bytes_push(old_view, e);
            assert forall|i: int|
                #![trigger o2[i]]
                0 <= i < o2.len() implies self.locations@.contains_key(self.key_at(i))
                    && self.locations@[self.key_at(i)] == o2[i] by {
                if i < o.len() {
                    assert(o2[i] == o[i]);
                    assert(o[i] == o[i]);
                    assert(n1[o[i] as int] == n0[o[i] as int]);
                    assert(same_slot(n1[o[i] as int], nf[o[i] as int]));
                    assert(old(self).key_at(i) == self.key_at(i));
                    assert(old(self).key_at(i) != user_id) by {
                        assert(old_view[i].user_id == old(self).key_at(i));
                    }
                } else {
                    assert(same_slot(n1[index as int], nf[index as int]));
                }
            }
            assert forall|key: u64| #[trigger] self.locations@.contains_key(key) implies {
                &&& self.order@.contains(self.locations@[key])
                &&& self.nodes@[self.locations@[key] as int].unwrap().user_id == key
            } by {
                if key == user_id {
                    assert(o2[o.len() as int] == index);
                    assert(same_slot(n1[index as int], nf[index as int]));
                } else {
                    assert(old(self).locations@.contains_key(key));
                    let loc = self.locations@[key];
                    let p = o.index_of(loc);
                    assert(o[p] == loc);
                    assert(o2[p] == loc);
                    assert(node_linked(n0, o, p));
                    assert(loc != index);
                    assert(n1[loc as int] == n0[loc as int]);
                    assert(same_slot(n1[loc as int], nf[loc as int]));
                }
            }
            assert forall|j: int| 0 <= j < self.free_indices@.len() implies
                #[trigger] self.free_indices@[j] < self.nodes@.len()
                && self.nodes@[self.free_indices@[j] as int] is None by {
                assert(old(self).free_indices@[j] == self.free_indices@[j]);
                assert(self.free_indices@[j] != index);
                assert(same_slot(n1[self.free_indices@[j] as int], nf[self.free_indices@[j] as int]));
            }
            assert(self.free_indices@.no_duplicates()) by {
                assert forall|a: int, b: int|
                    0 <= a < self.free_indices@.len() && 0 <= b < self.free_indices@.len() && a != b
                    implies self.free_indices@[a] != self.free_indices@[b] by {
                    assert(old(self).free_indices@[a] == self.free_indices@[a]);
                    assert(old(self).free_indices@[b] == self.free_indices@[b]);
                }
            }
        }
    }

    /// The slot that the policy evicts next.
    fn victim_slot(&self) -> (index: usize)
        requires
            self.wf(),
            self@.len() > 0,
        ensures
            self.order@.contains(index),
            self.order@.index_of(index) == victim(self@, self.policy),
    {
        proof {
            assert(node_linked(self.nodes@, self.order@, 0));
        }
        let first = match self.head {
            Some(h) => h,
            None => 0,
        };
        proof {
            assert(self.order@[0] == first);
            assert(self.order@.contains(first));
            let q = self.order@.index_of(first);
            assert(self.order@[q] == first);
        }
        if self.policy != EvictionPolicy::Lfu {
            return first;
        }
        let ghost view = self@;
        let ghost len = self.order@.len();
        let mut best = first;
        let mut best_frequency = match &self.nodes[first] {
            Some(node) => node.frequency,
            None => 0,
        };
        let mut cursor = match &self.nodes[first] {
            Some(node) => node.next,
            None => None,
        };
        let ghost mut pos: int = 1;
        let ghost mut best_pos: int = 0;
        proof {
            assert(view.take(1).len() == 1);
        }
        while cursor.is_some()
            invariant
                self.wf(),
                view == self@,
                len == self.order@.len(),
                1 <= pos <= len,
                cursor == (if pos < len { Some(self.order@[pos]) } else { None::<usize> }),
                0 <= best_pos < pos,
                best == self.order@[best_pos],
                best_frequency == view[best_pos].frequency,
                best_pos == lfu_victim(view.take(pos)),
            decreases len - pos,
        {
            let c = match cursor {
                Some(c) => c,
                None => 0,
            };
            proof {
                assert(node_linked(self.nodes@, self.order@, pos));
            }
            let (frequency, next) = match &self.nodes[c] {
                Some(node) => (node.frequency, node.next),
                None => (0, None),
            };
            proof {
                let t = view.take(pos + 1);
                assert(t.drop_last() =~= view.take(pos));
                assert(t.last() == view[pos]);
                assert(t[best_pos] == view[best_pos]);
            }
            if frequency < best_frequency {
                best = c;
                best_frequency = frequency;
                proof {
                    best_pos = pos;
                }
            }
            cursor = next;
            proof {
                pos = pos + 1;
            }
        }
        proof {
            assert(view.take(len as int) =~= view);
            let q = self.order@.index_of(best);
            assert(self.order@[q] == best);
            assert(self.order@.contains(best));
        }
        best
    }

    /// Creates an empty LRU cache with room for `capacity` entries and no byte limit.
    pub fn new(capacity: usize) -> (result: Result<Self, GraphError>)
        ensures
            capacity == 0 <==> result is Err,
            capacity == 0 ==> result == Err::<Self, GraphError>(GraphError::ZeroCacheCapacity),
            result matches Ok(cache) ==> {
                &&& cache.wf()
                &&& cache@ == Seq::<CacheEntry>::empty()
                &&& cache.spec_capacity() == capacity
                &&& cache.spec_byte_capacity() is None
                &&& cache.spec_policy() == EvictionPolicy::Lru
            },
    {
        Self::new_with_policy(capacity, EvictionPolicy::Lru)
    }

    /// Creates an empty cache that evicts by `policy`, with no byte limit.
    pub fn new_with_policy(capacity: usize, policy: EvictionPolicy) -> (result: Result<Self, GraphError>)
        ensures
            capacity == 0 <==> result is Err,
            capacity == 0 ==> result == Err::<Self, GraphError>(GraphError::ZeroCacheCapacity),
            result matches Ok(cache) ==> {
                &&& cache.wf()
                &&& cache@ == Seq::<CacheEntry>::empty()
                &&& cache.spec_capacity() == capacity
                &&& cache.spec_byte_capacity() is None
                &&& cache.spec_policy() == policy
            },
    {
        if capacity == 0 {
            return Err(GraphError::ZeroCacheCapacity);
        }
        Ok(Self::empty(capacity, None, policy))
    }

    /// Creates an empty LRU cache bounded both by entries and by bytes.
    pub fn new_with_byte_capacity(capacity: usize, byte_capacity: usize) -> (result: Result<Self, GraphError>)
        ensures
            (capacity == 0 || byte_capacity == 0) <==> result is Err,
            capacity == 0 ==> result == Err::<Self, GraphError>(GraphError::ZeroCacheCapacity),
            capacity != 0 && byte_capacity == 0 ==> result == Err::<Self, GraphError>(GraphError::ZeroByteCapacity),
            result matches Ok(cache) ==> {
                &&& cache.wf()
                &&& cache@ == Seq::<CacheEntry>::empty()
                &&& cache.spec_capacity() == capacity
                &&& cache.spec_byte_capacity() == Some(byte_capacity)
                &&& cache.spec_policy() == EvictionPolicy::Lru
            },
    {
        Self::new_with_policy_and_byte_capacity(capacity, byte_capacity, EvictionPolicy::Lru)
    }

    /// Creates an empty cache that evicts by `policy`, bounded both by entries and by bytes.
    pub fn new_with_policy_and_byte_capacity(
        capacity: usize,
        byte_capacity: usize,
        policy: EvictionPolicy,
    ) -> (result: Result<Self, GraphError>)
        ensures
            (capacity == 0 || byte_capacity == 0) <==> result is Err,
            capacity == 0 ==> result == Err::<Self, GraphError>(GraphError::ZeroCacheCapacity),
            capacity != 0 && byte_capacity == 0 ==> result == Err::<Self, GraphError>(GraphError::ZeroByteCapacity),
            result matches Ok(cache) ==> {
                &&& cache.wf()
                &&& cache@ == Seq::<CacheEntry>::empty()
                &&& cache.spec_capacity() == capacity
                &&& cache.spec_byte_capacity() == Some(byte_capacity)
                &&& cache.spec_policy() == policy
            },
    {
        if capacity == 0 {
            return Err(GraphError::ZeroCacheCapacity);
        }
        if byte_capacity == 0 {
            return Err(GraphError::ZeroByteCapacity);
        }
        Ok(Self::empty(capacity, Some(byte_capacity), policy))
    }

    fn empty(capacity: usize, byte_capacity: Option<usize>, policy: EvictionPolicy) -> (cache: Self)
        requires
            capacity > 0,
            byte_capacity matches Some(limit) ==> limit > 0,
        ensures
            cache.wf(),
            cache@ == Seq::<CacheEntry>::empty(),
            cache.capacity == capacity,
            cache.byte_capacity == byte_capacity,
            cache.policy == policy,
    {
        let cache = AdjacencyLruCache {
            capacity,
            byte_capacity,
            policy,
            stored_bytes: 0,
            locations: HashMap::with_capacity(capacity),
            nodes: Vec::with_capacity(capacity),
            free_indices: Vec::new(),
            head: None,
            tail: None,
            order: Ghost(Seq::empty()),
        };
        proof {
            assert(cache@ =~= Seq::<CacheEntry>::empty());
        }
        cache
    }

    /// Returns the cached adjacency list of `user_id`.
    ///
    /// Reading an entry counts as one more use; under LRU and LFU it also makes the entry the
    /// newest one.
    #[verifier::spinoff_prover]
    #[verifier::rlimit(30)]
    pub fn get(&mut self, user_id: u64) -> (result: Option<Vec<u64>>)
        requires
            old(self).wf(),
        ensures
            final(self).wf(),
            final(self).same_settings(old(self)),
            final(self)@ == after_get(old(self)@, old(self).spec_policy(), user_id),
            match result {
                Some(list) => lookup(old(self)@, user_id) == Some(list@),
                None => lookup(old(self)@, user_id) is None,
            },
    {
        let ghost old_view = self@;
        proof {
            self.lemma_locations(user_id);
        }
        let index = match self.locations.get(&user_id) {
            Some(index) => *index,
            None => {
                return None;
            },
        };
        let ghost o = self.order@;
        let ghost k = o.index_of(index);
        proof {
            assert(o[k] == index);
            assert(node_linked(self.nodes@, o, k));
        }
        let adjacency_list = match &self.nodes[index] {
            Some(node) => copy_list(&node.adjacency_list),
            None => Vec::new(),
        };
        let ghost n0 = self.nodes@;
        bump_frequency(&mut self.nodes, index);
        proof {
            let nb = self.nodes@;
            assert forall|i: int| 0 <= i < o.len() implies #[trigger] node_linked(nb, o, i) by {
                assert(node_linked(n0, o, i));
            }
            assert forall|j: int| 0 <= j < self.free_indices@.len() implies
                #[trigger] self.free_indices@[j] < self.nodes@.len()
                && self.nodes@[self.free_indices@[j] as int] is None by {
                assert(n0[self.free_indices@[j] as int] is None);
            }
            let e = old_view[k];
            let refreshed = CacheEntry { user_id: e.user_id, adjacency: e.adjacency, frequency: bumped(e.frequency) };
            assert(entries_of(nb, o) =~= old_view.update(k, refreshed)) by {
                assert forall|i: int| 0 <= i < o.len() && i != k implies entries_of(nb, o)[i] == old_view[i] by {
                    assert(node_linked(n0, o, i));
                    assert(o[i] != index);
                }
            }
            lemma_total_bytes_update(old_view, k, refreshed);
            assert forall|i: int|
                #![trigger o[i]]
                0 <= i < o.len() implies self.locations@.contains_key(self.key_at(i))
                    && self.locations@[self.key_at(i)] == o[i] by {
                assert(o[i] == o[i]);
                assert(node_linked(n0, o, i));
                assert(old(self).key_at(i) == self.key_at(i));
            }
            assert forall|key: u64| #[trigger] self.locations@.contains_key(key) implies {
                &&& self.order@.contains(self.locations@[key])
                &&& self.nodes@[self.locations@[key] as int].unwrap().user_id == key
            } by {
                assert(old(self).locations@.contains_key(key));
                let loc = self.locations@[key];
                let p = o.index_of(loc);
                assert(o[p] == loc);
                assert(node_linked(n0, o, p));
            }
            assert(self.wf());
        }
        if self.policy != EvictionPolicy::Fifo {
            let ghost mid = self@;
            self.detach(index);
            proof {
                let o2 = self.order@;
                assert(!o2.contains(index)) by {
                    if o2.contains(index) {
                        let p = o2.index_of(index);
                        if p < k {
                            assert(o2[p] == o[p]);
                        } else {
                            assert(o2[p] == o[p + 1]);
                        }
                    }
                }
            }
            self.attach_as_most_recent(index);
            proof {
                let nf = self.nodes@;
                let nb = mid;
                let o3 = self.order@;
                assert(o3 == o.remove(k).push(index));
                assert forall|j: int| 0 <= j < o.len() implies #[trigger] o[j] < n0.len() by {
                    assert(node_linked(n0, o, j));
                }
                lemma_entries_remove(old(self).nodes@, o, k);
                assert(self@ =~= mid.remove(k).push(mid[k])) by {
                    assert forall|i: int| 0 <= i < o3.len() implies self@[i] == mid.remove(k).push(mid[k])[i] by {
                        let oi = if i < k { i } else if i < o.len() - 1 { i + 1 } else { k };
                        assert(o3[i] == o[oi]);
                    }
                }
                assert forall|i: int|
                    #![trigger o3[i]]
                    0 <= i < o3.len() implies self.locations@.contains_key(self.key_at(i))
                        && self.locations@[self.key_at(i)] == o3[i] by {
                    let oi = if i < k { i } else if i < o.len() - 1 { i + 1 } else { k };
                    assert(o3[i] == o[oi]);
                    assert(o[oi] == o[oi]);
                }
                assert forall|key: u64| #[trigger] self.locations@.contains_key(key) implies {
                    &&& self.order@.contains(self.locations@[key])
                    &&& self.nodes@[self.locations@[key] as int].unwrap().user_id == key
                } by {
                    assert(old(self).locations@.contains_key(key));
                    let loc = self.locations@[key];
                    let p = o.index_of(loc);
                    assert(o[p] == loc);
                    if p < k {
                        assert(o3[p] == loc);
                    } else if p == k {
                        assert(o3[o3.len() - 1] == loc);
                    } else {
                        assert(o3[p - 1] == loc);
                    }
                }
                lemma_total_bytes_remove(mid, k);
                lemma_total_bytes_push(mid.remove(k), mid[k]);
                assert(self.wf());
            }
        }
        Some(adjacency_list)
    }

    /// Same as `get`: the shard-local read path of the two-hop queries.
    pub fn get_shared(&mut self, user_id: u64) -> (result: Option<Vec<u64>>)
        requires
            old(self).wf(),
        ensures
            final(self).wf(),
            final(self).same_settings(old(self)),
            final(self)@ == after_get(old(self)@, old(self).spec_policy(), user_id),
            match result {
                Some(list) => lookup(old(self)@, user_id) == Some(list@),
                None => lookup(old(self)@, user_id) is None,
            },
    {
        self.get(user_id)
    }

    fn exceeds_budget(&self, need: usize) -> (result: bool)
        requires
            self.wf(),
            self.byte_capacity matches Some(limit) ==> need <= limit,
        ensures
            result == over_budget(self@, self.byte_capacity, need as nat),
    {
        match self.byte_capacity {
            Some(limit) => self.stored_bytes > limit - need,
            None => false,
        }
    }

    /// Inserts or replaces one user's adjacency list.
    ///
    /// A replaced entry counts one more use. An entry larger than the byte limit is not kept.
    /// Otherwise entries are evicted by the policy until the new one fits both limits, and
    /// the new entry becomes the newest.
    pub fn insert(&mut self, user_id: u64, adjacency_list: Vec<u64>)
        requires
            old(self).wf(),
        ensures
            final(self).wf(),
            final(self).same_settings(old(self)),
            final(self)@ == after_insert(
                old(self)@,
                old(self).spec_capacity(),
                old(self).spec_byte_capacity(),
                old(self).spec_policy(),
                user_id,
                adjacency_list@,
            ),
    {
        let ghost old_view = self@;
        proof {
            self.lemma_locations(user_id);
        }
        let mut frequency: u64 = 1;
        match self.locations.get(&user_id) {
            Some(index) => {
                let index = *index;
                let ghost k = self.order@.index_of(index);
                proof {
                    assert(self.order@[k] == index);
                    assert(node_linked(self.nodes@, self.order@, k));
                }
                frequency = match &self.nodes[index] {
                    Some(node) => if node.frequency < u64::MAX {
                        node.frequency + 1
                    } else {
                        node.frequency
                    },
                    None => 1,
                };
                self.remove_node(index);
                proof {
                    let s = self@;
                    if has_key(s, user_id) {
                        let j = key_position(s, user_id);
                        if j < k {
                            assert(old_view[j].user_id == user_id);
                        } else {
                            assert(old_view[j + 1].user_id == user_id);
                        }
                    }
                }
            },
            None => {},
        }
        let ghost rest = self@;
        proof {
            assert(rest == without_key(old_view, user_id));
        }
        let need = bytes_for(adjacency_list.len());
        match self.byte_capacity {
            Some(limit) => {
                if need > limit {
                    return;
                }
            },
            None => {},
        }
        let ghost capacity = self.capacity as nat;
        let ghost byte_capacity = self.byte_capacity;
        let ghost policy = self.policy;
        while self.locations.len() > 0 && (self.locations.len() >= self.capacity
            || self.exceeds_budget(need))
            invariant
                self.wf(),
                self.capacity == capacity,
                self.byte_capacity == byte_capacity,
                self.policy == policy,
                byte_capacity matches Some(limit) ==> need <= limit,
                !has_key(self@, user_id),
                evict_until_fits(self@, capacity, byte_capacity, need as nat, policy)
                    == evict_until_fits(rest, capacity, byte_capacity, need as nat, policy),
            decreases self@.len(),
        {
            proof {
                self.lemma_locations(user_id);
            }
            let victim_index = self.victim_slot();
            let ghost before = self@;
            let ghost v = victim(before, policy);
            proof {
                lemma_victim_in_range(before, policy);
            }
            self.remove_node(victim_index);
            proof {
                if has_key(self@, user_id) {
                    lemma_has_key_remove(before, v, user_id);
                }
            }
        }
        proof {
            self.lemma_locations(user_id);
            if self@.len() == 0 {
                assert(total_bytes(self@) == 0);
            }
        }
        let ghost list = adjacency_list@;
        self.allocate_node(user_id, adjacency_list, frequency);
        proof {
            if has_key(old_view, user_id) {
                let k = key_position(old_view, user_id);
                assert(old_view[k].user_id == user_id);
            }
        }
    }

    /// Inserts like `insert` and hands the list back to the caller.
    pub fn insert_shared(&mut self, user_id: u64, adjacency_list: Vec<u64>) -> (result: Vec<u64>)
        requires
            old(self).wf(),
        ensures
            final(self).wf(),
            final(self).same_settings(old(self)),
            final(self)@ == after_insert(
                old(self)@,
                old(self).spec_capacity(),
                old(self).spec_byte_capacity(),
                old(self).spec_policy(),
                user_id,
                adjacency_list@,
            ),
            result@ == adjacency_list@,
    {
        let shared = copy_list(&adjacency_list);
        self.insert(user_id, adjacency_list);
        shared
    }

    /// Removes one user's cached adjacency list; returns whether it was cached.
    pub fn invalidate(&mut self, user_id: u64) -> (removed: bool)
        requires
            old(self).wf(),
        ensures
            final(self).wf(),
            final(self).same_settings(old(self)),
            removed == has_key(old(self)@, user_id),
            final(self)@ == without_key(old(self)@, user_id),
    {
        proof {
            self.lemma_locations(user_id);
        }
        let index = match self.locations.get(&user_id) {
            Some(index) => *index,
            None => {
                return false;
            },
        };
        self.remove_node(index);
        true
    }

    /// Removes every entry.
    pub fn clear(&mut self)
        requires
            old(self).wf(),
        ensures
            final(self).wf(),
            final(self).same_settings(old(self)),
            final(self)@ == Seq::<CacheEntry>::empty(),
    {
        self.locations.clear();
        self.nodes.clear();
        self.free_indices.clear();
        self.head = None;
        self.tail = None;
        self.stored_bytes = 0;
        self.order = Ghost(Seq::empty());
        proof {
            assert(self@ =~= Seq::<CacheEntry>::empty());
        }
    }

    pub fn contains(&self, user_id: u64) -> (result: bool)
        requires
            self.wf(),
        ensures
            result == has_key(self@, user_id),
    {
        proof {
            self.lemma_locations(user_id);
        }
        self.locations.contains_key(&user_id)
    }

    pub fn len(&self) -> (result: usize)
        requires
            self.wf(),
        ensures
            result == self@.len(),
            result <= self.spec_capacity(),
    {
        proof {
            self.lemma_locations(0);
        }
        self.locations.len()
    }

    pub fn is_empty(&self) -> (result: bool)
        requires
            self.wf(),
        ensures
            result == (self@.len() == 0),
    {
        proof {
            self.lemma_locations(0);
        }
        self.locations.len() == 0
    }

    pub fn capacity(&self) -> (result: usize)
        ensures
            result == self.spec_capacity(),
    {
        self.capacity
    }

    pub fn policy(&self) -> (result: EvictionPolicy)
        ensures
            result == self.spec_policy(),
    {
        self.policy
    }

    pub fn byte_capacity(&self) -> (result: Option<usize>)
        ensures
            result == self.spec_byte_capacity(),
    {
        self.byte_capacity
    }

    /// Bytes charged for the cached entries (saturating at `usize::MAX`).
    pub fn current_bytes(&self) -> (result: usize)
        requires
            self.wf(),
        ensures
            result == (if total_bytes(self@) <= usize::MAX { total_bytes(self@) } else { usize::MAX as nat }),
    {
        match self.byte_capacity {
            Some(_) => {
                return self.stored_bytes;
            },
            None => {},
        }
        let ghost view = self@;
        let ghost len = self.order@.len();
        let mut sum: usize = 0;
        let mut cursor = self.head;
        let ghost mut pos: int = 0;
        proof {
            if len > 0 {
                assert(node_linked(self.nodes@, self.order@, 0));
            }
            assert(view.take(0) =~= Seq::<CacheEntry>::empty());
        }
        while cursor.is_some()
            invariant
                self.wf(),
                view == self@,
                len == self.order@.len(),
                0 <= pos <= len,
                cursor == (if pos < len { Some(self.order@[pos]) } else { None::<usize> }),
                sum == (if total_bytes(view.take(pos)) <= usize::MAX { total_bytes(view.take(pos)) } else { usize::MAX as nat }),
            decreases len - pos,
        {
            let c = match cursor {
                Some(c) => c,
                None => 0,
            };
            proof {
                assert(node_linked(self.nodes@, self.order@, pos));
            }
            let (bytes, next) = match &self.nodes[c] {
                Some(node) => (bytes_for(node.adjacency_list.len()), node.next),
                None => (0, None),
            };
            proof {
                let t = view.take(pos + 1);
                assert(t.drop_last() =~= view.take(pos));
                assert(t.last() == view[pos]);
            }
            sum = if sum > usize::MAX - bytes { usize::MAX } else { sum + bytes };
            cursor = next;
            proof {
                pos = pos + 1;
                if pos < len {
                    assert(node_linked(self.nodes@, self.order@, pos - 1));
                }
            }
        }
        proof {
            assert(view.take(len as int) =~= view);
        }
        sum
    }
}

fn bump_frequency(nodes: &mut Vec<Option<CacheNode>>, index: usize)
    requires
        index < old(nodes).len(),
        old(nodes)@[index as int] is Some,
    ensures
        final(nodes)@.len() == old(nodes)@.len(),
        forall|j: int| 0 <= j < old(nodes)@.len() && j != index ==> final(nodes)@[j] == old(nodes)@[j],
        final(nodes)@[index as int] is Some,
        final(nodes)@[index as int].unwrap().user_id == old(nodes)@[index as int].unwrap().user_id,
        final(nodes)@[index as int].unwrap().adjacency_list@ == old(nodes)@[index as int].unwrap().adjacency_list@,
        final(nodes)@[index as int].unwrap().frequency == bumped(old(nodes)@[index as int].unwrap().frequency),
        final(nodes)@[index as int].unwrap().previous == old(nodes)@[index as int].unwrap().previous,
        final(nodes)@[index as int].unwrap().next == old(nodes)@[index as int].unwrap().next,
{
    match &mut nodes[index] {
        Some(node) => {
            if node.frequency < u64::MAX {
                node.frequency = node.frequency + 1;
            }
        },
        None => {},
    }
}

fn copy_list(list: &Vec<u64>) -> (result: Vec<u64>)
    ensures
        result@ == list@,
{
    let copy = list.clone();
    proof {
        assert(copy@ =~= list@);
    }
    copy
}

} // verus!

verus! {

proof fn lemma_no_key_after_remove(entries: Seq<CacheEntry>, k: int, user_id: u64)
    requires
        0 <= k < entries.len(),
        !has_key(entries, user_id),
    ensures
        !has_key(entries.remove(k), user_id),
{
    if has_key(entries.remove(k), user_id) {
        let i = choose|i: int| 0 <= i < entries.remove(k).len() && #[trigger] entries.remove(k)[i].user_id == user_id;
        if i < k {
            assert(entries[i].user_id == user_id);
        } else {
            assert(entries[i + 1].user_id == user_id);
        }
    }
}

proof fn lemma_evict_keeps_key_out(
    entries: Seq<CacheEntry>,
    capacity: nat,
    byte_capacity: Option<usize>,
    need: nat,
    policy: EvictionPolicy,
    user_id: u64,
)
    requires
        !has_key(entries, user_id),
    ensures
        !has_key(evict_until_fits(entries, capacity, byte_capacity, need, policy), user_id),
    decreases entries.len(),
{
    if entries.len() > 0 && (entries.len() >= capacity || over_budget(entries, byte_capacity, need)) {
        lemma_victim_in_range(entries, policy);
        let k = victim(entries, policy);
        lemma_no_key_after_remove(entries, k, user_id);
        lemma_evict_keeps_key_out(entries.remove(k), capacity, byte_capacity, need, policy, user_id);
    }
}

/// Dropping a user's entry from entries with distinct keys leaves none for that user.
pub proof fn lemma_without_key_drops(entries: Seq<CacheEntry>, user_id: u64)
    requires
        keys_distinct(entries),
    ensures
        !has_key(without_key(entries, user_id), user_id),
{
    if has_key(entries, user_id) {
        let pos = key_position(entries, user_id);
        let rest = entries.remove(pos);
        if has_key(rest, user_id) {
            let i = choose|i: int| 0 <= i < rest.len() && #[trigger] rest[i].user_id == user_id;
            if i < pos {
                assert(entries[i].user_id == user_id);
            } else {
                assert(entries[i + 1].user_id == user_id);
            }
        }
    }
}

/// A list inserted into a cache is read back by the next lookup of its user, unless the
/// list alone is larger than the cache's byte budget; after an invalidation the user is not
/// found.
pub proof fn lemma_read_after_write(cache: AdjacencyLruCache, user_id: u64, list: Seq<u64>)
    requires
        cache.wf(),
    ensures
        (cache.spec_byte_capacity() matches Some(limit) && entry_bytes(list.len()) > limit) || lookup(
            after_insert(cache@, cache.spec_capacity(), cache.spec_byte_capacity(), cache.spec_policy(), user_id, list),
            user_id,
        ) == Some(list),
        lookup(without_key(cache@, user_id), user_id) is None,
{
    cache.lemma_keys_distinct();
    lemma_without_key_drops(cache@, user_id);
    let rest = without_key(cache@, user_id);
    let need = entry_bytes(list.len());
    if !(cache.spec_byte_capacity() matches Some(limit) && need > limit) {
        lemma_evict_keeps_key_out(rest, cache.spec_capacity(), cache.spec_byte_capacity(), need, cache.spec_policy(), user_id);
        let kept = evict_until_fits(rest, cache.spec_capacity(), cache.spec_byte_capacity(), need, cache.spec_policy());
        let after = after_insert(cache@, cache.spec_capacity(), cache.spec_byte_capacity(), cache.spec_policy(), user_id, list);
        assert(after[kept.len() as int].user_id == user_id);
        let k = key_position(after, user_id);
        if k != kept.len() {
            assert(kept[k].user_id == user_id);
        }
    }
}

} // verus!

verus! {

/// Under LFU the evicted entry is used least often: no cached entry has a smaller frequency,
/// and every entry before it in the usage order (less recently used) has a larger one, so
/// among the least used it is the least recently used. Under LRU and FIFO the first entry,
/// the least recently used or the oldest, is evicted.
pub proof fn lemma_victim_is_least_used(entries: Seq<CacheEntry>, policy: EvictionPolicy)
    requires
        entries.len() > 0,
    ensures
        0 <= victim(entries, policy) < entries.len(),
        policy != EvictionPolicy::Lfu ==> victim(entries, policy) == 0,
        policy == EvictionPolicy::Lfu ==> forall|j: int| 0 <= j < entries.len()
            ==> entries[victim(entries, policy)].frequency <= #[trigger] entries[j].frequency,
        policy == EvictionPolicy::Lfu ==> forall|j: int| 0 <= j < victim(entries, policy)
            ==> entries[victim(entries, policy)].frequency < #[trigger] entries[j].frequency,
{
    lemma_victim_in_range(entries, policy);
    lemma_lfu_victim_least(entries);
}

proof fn lemma_lfu_victim_least(entries: Seq<CacheEntry>)
    requires
        entries.len() > 0,
    ensures
        forall|j: int| 0 <= j < entries.len() ==> entries[lfu_victim(entries)].frequency <= #[trigger] entries[j].frequency,
        forall|j: int| 0 <= j < lfu_victim(entries) ==> entries[lfu_victim(entries)].frequency < #[trigger] entries[j].frequency,
    decreases entries.len(),
{
    lemma_lfu_victim_in_range(entries);
    if entries.len() > 1 {
        let init = entries.drop_last();
        lemma_lfu_victim_least(init);
        lemma_lfu_victim_in_range(init);
        let best = lfu_victim(init);
        assert(init[best] == entries[best]);
        assert forall|j: int| 0 <= j < entries.len() implies entries[lfu_victim(entries)].frequency <= #[trigger] entries[j].frequency by {
            if j < entries.len() - 1 {
                assert(init[j] == entries[j]);
            }
        }
        assert forall|j: int| 0 <= j < lfu_victim(entries) implies entries[lfu_victim(entries)].frequency < #[trigger] entries[j].frequency by {
            if j < entries.len() - 1 {
                assert(init[j] == entries[j]);
            }
        }
    }
}

} // verus!
