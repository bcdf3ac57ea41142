use vstd::prelude::*;
use crate::graph::list_of;
use crate::sharded::{Placement, placement_shard, placement_error, lemma_placement_shard_range};
use crate::twohop::{in_some_list, collect_lists, lemma_collect_lists};

verus! {

/// The users of `list` that the placement covers, in order.
pub open spec fn placed_only(p: Placement, n: nat, list: Seq<u64>) -> Seq<u64>
    decreases list.len(),
{
    if list.len() == 0 {
        Seq::empty()
    } else {
        let rest = placed_only(p, n, list.drop_last());
        if placement_shard(p, n, list.last()) is Some {
            rest.push(list.last())
        } else {
            rest
        }
    }
}

/// The shards of the users of `list` that the placement covers.
pub open spec fn second_shards(p: Placement, n: nat, list: Seq<u64>) -> Set<usize>
    decreases list.len(),
{
    if list.len() == 0 {
        Set::empty()
    } else {
        let rest = second_shards(p, n, list.drop_last());
        match placement_shard(p, n, list.last()) {
            Some(s) => rest.insert(s),
            None => rest,
        }
    }
}

/// How many users of `list` live on a shard other than `from`.
pub open spec fn second_cross(p: Placement, n: nat, list: Seq<u64>, from: usize) -> nat
    decreases list.len(),
{
    if list.len() == 0 {
        0
    } else {
        let rest = second_cross(p, n, list.drop_last(), from);
        match placement_shard(p, n, list.last()) {
            Some(s) => if s != from {
                rest + 1
            } else {
                rest
            },
            None => rest,
        }
    }
}

/// For each first hop the placement covers, the covered users of its adjacency list.
pub open spec fn placed_lists(p: Placement, n: nat, adj: Map<u64, Seq<u64>>, firsts: Seq<u64>) -> Seq<Seq<u64>>
    decreases firsts.len(),
{
    if firsts.len() == 0 {
        Seq::empty()
    } else {
        let rest = placed_lists(p, n, adj, firsts.drop_last());
        let f = firsts.last();
        if placement_shard(p, n, f) is Some {
            rest.push(placed_only(p, n, list_of(adj, f)))
        } else {
            rest
        }
    }
}

/// How many first hops the placement covers.
pub open spec fn placed_count(p: Placement, n: nat, firsts: Seq<u64>) -> nat
    decreases firsts.len(),
{
    if firsts.len() == 0 {
        0
    } else {
        placed_count(p, n, firsts.drop_last()) + if placement_shard(p, n, firsts.last()) is Some {
            1nat
        } else {
            0nat
        }
    }
}

/// The shards of the covered first hops.
pub open spec fn first_shards(p: Placement, n: nat, firsts: Seq<u64>) -> Set<usize>
    decreases firsts.len(),
{
    if firsts.len() == 0 {
        Set::empty()
    } else {
        let rest = first_shards(p, n, firsts.drop_last());
        match placement_shard(p, n, firsts.last()) {
            Some(s) => rest.insert(s),
            None => rest,
        }
    }
}

/// How many covered first hops live on a shard other than `source_shard`.
pub open spec fn first_cross(p: Placement, n: nat, source_shard: usize, firsts: Seq<u64>) -> nat
    decreases firsts.len(),
{
    if firsts.len() == 0 {
        0
    } else {
        let rest = first_cross(p, n, source_shard, firsts.drop_last());
        match placement_shard(p, n, firsts.last()) {
            Some(s) => if s != source_shard {
                rest + 1
            } else {
                rest
            },
            None => rest,
        }
    }
}

/// The shards of the covered second hops, over all covered first hops.
pub open spec fn reached_shards(p: Placement, n: nat, adj: Map<u64, Seq<u64>>, firsts: Seq<u64>) -> Set<usize>
    decreases firsts.len(),
{
    if firsts.len() == 0 {
        Set::empty()
    } else {
        let rest = reached_shards(p, n, adj, firsts.drop_last());
        let f = firsts.last();
        if placement_shard(p, n, f) is Some {
            rest.union(second_shards(p, n, list_of(adj, f)))
        } else {
            rest
        }
    }
}

/// Second hops that cross from their first hop's shard, over all covered first hops.
pub open spec fn reached_cross(p: Placement, n: nat, adj: Map<u64, Seq<u64>>, firsts: Seq<u64>) -> nat
    decreases firsts.len(),
{
    if firsts.len() == 0 {
        0
    } else {
        let rest = reached_cross(p, n, adj, firsts.drop_last());
        let f = firsts.last();
        match placement_shard(p, n, f) {
            Some(s) => rest + second_cross(p, n, list_of(adj, f), s),
            None => rest,
        }
    }
}

/// The first hops on shard `s`, in order.
pub open spec fn firsts_on(p: Placement, n: nat, firsts: Seq<u64>, s: usize) -> Seq<u64>
    decreases firsts.len(),
{
    if firsts.len() == 0 {
        Seq::empty()
    } else {
        let rest = firsts_on(p, n, firsts.drop_last(), s);
        if placement_shard(p, n, firsts.last()) == Some(s) {
            rest.push(firsts.last())
        } else {
            rest
        }
    }
}

/// Covered second-hop lists of a group of first hops, in order.
pub open spec fn group_lists(p: Placement, n: nat, adj: Map<u64, Seq<u64>>, group: Seq<u64>) -> Seq<Seq<u64>> {
    group.map_values(|f: u64| placed_only(p, n, list_of(adj, f)))
}

/// The lists read by the batched query: shard by shard in ascending order (shards below
/// `k`), each shard's first hops in order.
pub open spec fn batched_lists(p: Placement, n: nat, adj: Map<u64, Seq<u64>>, firsts: Seq<u64>, k: nat) -> Seq<Seq<u64>>
    decreases k,
{
    if k == 0 {
        Seq::empty()
    } else {
        batched_lists(p, n, adj, firsts, (k - 1) as nat) + group_lists(p, n, adj, firsts_on(p, n, firsts, (k - 1) as usize))
    }
}

/// The shards of the second hops of a group.
pub open spec fn group_shards(p: Placement, n: nat, adj: Map<u64, Seq<u64>>, group: Seq<u64>) -> Set<usize>
    decreases group.len(),
{
    if group.len() == 0 {
        Set::empty()
    } else {
        group_shards(p, n, adj, group.drop_last()).union(second_shards(p, n, list_of(adj, group.last())))
    }
}

/// Second hops of a group that cross from shard `s`.
pub open spec fn group_cross(p: Placement, n: nat, adj: Map<u64, Seq<u64>>, group: Seq<u64>, s: usize) -> nat
    decreases group.len(),
{
    if group.len() == 0 {
        0
    } else {
        group_cross(p, n, adj, group.drop_last(), s) + second_cross(p, n, list_of(adj, group.last()), s)
    }
}

pub open spec fn batched_shards(p: Placement, n: nat, adj: Map<u64, Seq<u64>>, firsts: Seq<u64>, k: nat) -> Set<usize>
    decreases k,
{
    if k == 0 {
        Set::empty()
    } else {
        batched_shards(p, n, adj, firsts, (k - 1) as nat).union(group_shards(p, n, adj, firsts_on(p, n, firsts, (k - 1) as usize)))
    }
}

pub open spec fn batched_cross(p: Placement, n: nat, adj: Map<u64, Seq<u64>>, firsts: Seq<u64>, k: nat) -> nat
    decreases k,
{
    if k == 0 {
        0
    } else {
        batched_cross(p, n, adj, firsts, (k - 1) as nat) + group_cross(p, n, adj, firsts_on(p, n, firsts, (k - 1) as usize), (k - 1) as usize)
    }
}

/// How many of the shards below `k` hold at least one first hop.
pub open spec fn busy_shards(p: Placement, n: nat, firsts: Seq<u64>, k: nat) -> nat
    decreases k,
{
    if k == 0 {
        0
    } else {
        busy_shards(p, n, firsts, (k - 1) as nat) + if firsts_on(p, n, firsts, (k - 1) as usize).len() > 0 {
            1nat
        } else {
            0nat
        }
    }
}

pub open spec fn sat(x: int) -> nat {
    if x <= usize::MAX {
        x as nat
    } else {
        usize::MAX as nat
    }
}


pub proof fn lemma_firsts_on_push(p: Placement, n: nat, firsts: Seq<u64>, f: u64, s: usize)
    ensures
        firsts_on(p, n, firsts.push(f), s) == if placement_shard(p, n, f) == Some(s) {
            firsts_on(p, n, firsts, s).push(f)
        } else {
            firsts_on(p, n, firsts, s)
        },
{
    assert(firsts.push(f).drop_last() =~= firsts);
}

pub proof fn lemma_in_some_list_concat(a: Seq<Seq<u64>>, b: Seq<Seq<u64>>, x: u64)
    ensures
        in_some_list(a + b, x) <==> (in_some_list(a, x) || in_some_list(b, x)),
{
    if in_some_list(a + b, x) {
        let i = choose|i: int| 0 <= i < (a + b).len() && #[trigger] (a + b)[i].contains(x);
        if i < a.len() {
            assert(a[i] == (a + b)[i]);
        } else {
            assert(b[i - a.len()] == (a + b)[i]);
        }
    }
    if in_some_list(a, x) {
        let i = choose|i: int| 0 <= i < a.len() && #[trigger] a[i].contains(x);
        assert((a + b)[i] == a[i]);
    }
    if in_some_list(b, x) {
        let i = choose|i: int| 0 <= i < b.len() && #[trigger] b[i].contains(x);
        assert((a + b)[i + a.len()] == b[i]);
    }
}

pub proof fn lemma_in_some_list_push(a: Seq<Seq<u64>>, l: Seq<u64>, x: u64)
    ensures
        in_some_list(a.push(l), x) <==> (in_some_list(a, x) || l.contains(x)),
{
    lemma_in_some_list_concat(a, seq![l], x);
    assert(a.push(l) =~= a + seq![l]);
    if in_some_list(seq![l], x) {
        let i = choose|i: int| 0 <= i < 1 && #[trigger] seq![l][i].contains(x);
    }
    if l.contains(x) {
        assert(seq![l][0] == l);
    }
}

/// Adding one more first hop adds its list to exactly one shard's group.
pub proof fn lemma_batched_push(p: Placement, n: nat, adj: Map<u64, Seq<u64>>, firsts: Seq<u64>, f: u64, k: nat, x: u64)
    requires
        k <= usize::MAX,
    ensures
        in_some_list(batched_lists(p, n, adj, firsts.push(f), k), x) <==> (in_some_list(batched_lists(p, n, adj, firsts, k), x)
            || (placement_shard(p, n, f) matches Some(s) && s < k && placed_only(p, n, list_of(adj, f)).contains(x))),
        batched_shards(p, n, adj, firsts.push(f), k) == if placement_shard(p, n, f) matches Some(s) && s < k {
            batched_shards(p, n, adj, firsts, k).union(second_shards(p, n, list_of(adj, f)))
        } else {
            batched_shards(p, n, adj, firsts, k)
        },
        batched_cross(p, n, adj, firsts.push(f), k) == batched_cross(p, n, adj, firsts, k) + if placement_shard(p, n, f) is Some
            && placement_shard(p, n, f).unwrap() < k {
            second_cross(p, n, list_of(adj, f), placement_shard(p, n, f).unwrap())
        } else {
            0
        },
    decreases k,
{
    if k > 0 {
        let j = (k - 1) as nat;
        lemma_batched_push(p, n, adj, firsts, f, j, x);
        let s = j as usize;
        lemma_firsts_on_push(p, n, firsts, f, s);
        let g = firsts_on(p, n, firsts, s);
        let l = placed_only(p, n, list_of(adj, f));
        assert(g.push(f).drop_last() =~= g);
        assert(s as int == j);
        if placement_shard(p, n, f) == Some(s) {
            assert(group_lists(p, n, adj, g.push(f)) =~= group_lists(p, n, adj, g).push(l));
            lemma_in_some_list_concat(batched_lists(p, n, adj, firsts.push(f), j), group_lists(p, n, adj, g.push(f)), x);
            lemma_in_some_list_concat(batched_lists(p, n, adj, firsts, j), group_lists(p, n, adj, g), x);
            lemma_in_some_list_push(group_lists(p, n, adj, g), l, x);
            assert(g.push(f).drop_last() =~= g);
            assert(batched_shards(p, n, adj, firsts.push(f), k) =~= batched_shards(p, n, adj, firsts, k).union(second_shards(p, n, list_of(adj, f))));
        } else {
            lemma_in_some_list_concat(batched_lists(p, n, adj, firsts.push(f), j), group_lists(p, n, adj, g), x);
            lemma_in_some_list_concat(batched_lists(p, n, adj, firsts, j), group_lists(p, n, adj, g), x);
            if placement_shard(p, n, f) matches Some(t) && t < k {
                assert(batched_shards(p, n, adj, firsts.push(f), k) =~= batched_shards(p, n, adj, firsts, k).union(second_shards(p, n, list_of(adj, f))));
            }
        }
    }
}

pub proof fn lemma_placed_lists_push(p: Placement, n: nat, adj: Map<u64, Seq<u64>>, firsts: Seq<u64>, f: u64, x: u64)
    ensures
        in_some_list(placed_lists(p, n, adj, firsts.push(f)), x) <==> (in_some_list(placed_lists(p, n, adj, firsts), x)
            || (placement_shard(p, n, f) is Some && placed_only(p, n, list_of(adj, f)).contains(x))),
{
    assert(firsts.push(f).drop_last() =~= firsts);
    if placement_shard(p, n, f) is Some {
        lemma_in_some_list_push(placed_lists(p, n, adj, firsts), placed_only(p, n, list_of(adj, f)), x);
    }
}

pub proof fn lemma_batched_empty(p: Placement, n: nat, adj: Map<u64, Seq<u64>>, k: nat, x: u64)
    requires
        k <= usize::MAX,
    ensures
        !in_some_list(batched_lists(p, n, adj, Seq::empty(), k), x),
        batched_shards(p, n, adj, Seq::empty(), k) == Set::<usize>::empty(),
        batched_cross(p, n, adj, Seq::empty(), k) == 0,
    decreases k,
{
    if k > 0 {
        lemma_batched_empty(p, n, adj, (k - 1) as nat, x);
        let g = firsts_on(p, n, Seq::<u64>::empty(), (k - 1) as usize);
        assert(g.len() == 0);
        assert(group_lists(p, n, adj, g) =~= Seq::<Seq<u64>>::empty());
        assert(batched_lists(p, n, adj, Seq::empty(), k) =~= batched_lists(p, n, adj, Seq::empty(), (k - 1) as nat));
        assert(batched_shards(p, n, adj, Seq::empty(), k) =~= Set::<usize>::empty());
    }
}

/// Batched and direct execution read the same lists, touch the same shards and count the
/// same cross-shard hops.
pub proof fn lemma_batched_matches_direct(p: Placement, n: nat, adj: Map<u64, Seq<u64>>, firsts: Seq<u64>)
    requires
        placement_error(n, p) is None,
        n <= usize::MAX,
    ensures
        forall|x: u64| #[trigger] in_some_list(batched_lists(p, n, adj, firsts, n), x) <==> in_some_list(placed_lists(p, n, adj, firsts), x),
        batched_shards(p, n, adj, firsts, n) == reached_shards(p, n, adj, firsts),
        batched_cross(p, n, adj, firsts, n) == reached_cross(p, n, adj, firsts),
    decreases firsts.len(),
{
    if firsts.len() == 0 {
        assert(firsts =~= Seq::<u64>::empty());
        assert forall|x: u64| #[trigger] in_some_list(batched_lists(p, n, adj, firsts, n), x) <==> in_some_list(placed_lists(p, n, adj, firsts), x) by {
            lemma_batched_empty(p, n, adj, n, x);
        }
        lemma_batched_empty(p, n, adj, n, 0);
    } else {
        let rest = firsts.drop_last();
        let f = firsts.last();
        assert(rest.push(f) =~= firsts);
        lemma_batched_matches_direct(p, n, adj, rest);
        lemma_placement_shard_range(p, n, f);
        assert forall|x: u64| #[trigger] in_some_list(batched_lists(p, n, adj, firsts, n), x) <==> in_some_list(placed_lists(p, n, adj, firsts), x) by {
            lemma_batched_push(p, n, adj, rest, f, n, x);
            lemma_placed_lists_push(p, n, adj, rest, f, x);
        }
        lemma_batched_push(p, n, adj, rest, f, n, 0);
    }
}

/// Both executions return the same users.
pub proof fn lemma_same_users(p: Placement, n: nat, adj: Map<u64, Seq<u64>>, firsts: Seq<u64>, source: u64)
    requires
        placement_error(n, p) is None,
        n <= usize::MAX,
    ensures
        collect_lists(batched_lists(p, n, adj, firsts, n), source).to_set() == collect_lists(placed_lists(p, n, adj, firsts), source).to_set(),
        collect_lists(batched_lists(p, n, adj, firsts, n), source).no_duplicates(),
        collect_lists(placed_lists(p, n, adj, firsts), source).no_duplicates(),
{
    lemma_batched_matches_direct(p, n, adj, firsts);
    lemma_collect_lists(batched_lists(p, n, adj, firsts, n), source);
    lemma_collect_lists(placed_lists(p, n, adj, firsts), source);
    assert(collect_lists(batched_lists(p, n, adj, firsts, n), source).to_set() =~= collect_lists(placed_lists(p, n, adj, firsts), source).to_set());
}

/// How many first hops lie on the shards below `k`.
pub open spec fn on_total(p: Placement, n: nat, firsts: Seq<u64>, k: nat) -> nat
    decreases k,
{
    if k == 0 {
        0
    } else {
        on_total(p, n, firsts, (k - 1) as nat) + firsts_on(p, n, firsts, (k - 1) as usize).len()
    }
}

proof fn lemma_busy_below_total(p: Placement, n: nat, firsts: Seq<u64>, k: nat)
    ensures
        busy_shards(p, n, firsts, k) <= on_total(p, n, firsts, k),
    decreases k,
{
    if k > 0 {
        lemma_busy_below_total(p, n, firsts, (k - 1) as nat);
    }
}

proof fn lemma_on_total_push(p: Placement, n: nat, firsts: Seq<u64>, f: u64, k: nat)
    requires
        k <= usize::MAX + 1,
    ensures
        on_total(p, n, firsts.push(f), k) == on_total(p, n, firsts, k) + match placement_shard(p, n, f) {
            Some(s) => if s < k { 1nat } else { 0nat },
            None => 0nat,
        },
    decreases k,
{
    if k > 0 {
        lemma_on_total_push(p, n, firsts, f, (k - 1) as nat);
        lemma_firsts_on_push(p, n, firsts, f, (k - 1) as usize);
    }
}

proof fn lemma_on_total_empty(p: Placement, n: nat, k: nat)
    ensures
        on_total(p, n, Seq::empty(), k) == 0,
    decreases k,
{
    if k > 0 {
        lemma_on_total_empty(p, n, (k - 1) as nat);
    }
}

proof fn lemma_on_total_all(p: Placement, n: nat, firsts: Seq<u64>)
    requires
        placement_error(n, p) is None,
        n <= usize::MAX,
    ensures
        on_total(p, n, firsts, n) == placed_count(p, n, firsts),
    decreases firsts.len(),
{
    if firsts.len() == 0 {
        lemma_on_total_empty(p, n, n);
        assert(firsts =~= Seq::<u64>::empty());
    } else {
        let rest = firsts.drop_last();
        let f = firsts.last();
        assert(rest.push(f) =~= firsts);
        lemma_on_total_all(p, n, rest);
        lemma_on_total_push(p, n, rest, f, n);
        lemma_placement_shard_range(p, n, f);
    }
}

/// Batching never sends more shard requests than reading each first hop separately: the
/// shards that hold a covered first hop are at most as many as the covered first hops.
pub proof fn lemma_busy_shards_bounded(p: Placement, n: nat, firsts: Seq<u64>)
    requires
        placement_error(n, p) is None,
        n <= usize::MAX,
    ensures
        busy_shards(p, n, firsts, n) <= placed_count(p, n, firsts),
{
    lemma_busy_below_total(p, n, firsts, n);
    lemma_on_total_all(p, n, firsts);
}

} // verus!
