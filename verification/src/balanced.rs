use vstd::prelude::*;
use crate::error::GraphError;
use crate::rank::{is_ranked, rank_by_weight, lemma_ranking_unique, lemma_ranked_no_duplicates};

verus! {

#[derive(Debug, PartialEq, Eq)]
pub struct BalancedAssignment {
    // Index = community ID, value = assigned shard ID.
    pub community_to_shard: Vec<usize>,
    // Final number of users assigned to every shard.
    pub users_per_shard: Vec<u64>,
}

/// The first position holding the smallest value.
pub open spec fn first_min(values: Seq<int>) -> int
    decreases values.len(),
{
    if values.len() <= 1 {
        0
    } else {
        let best = first_min(values.drop_last());
        if values.last() < values[best] {
            values.len() - 1
        } else {
            best
        }
    }
}

pub proof fn lemma_first_min(values: Seq<int>)
    requires
        values.len() > 0,
    ensures
        0 <= first_min(values) < values.len(),
        forall|i: int| 0 <= i < values.len() ==> values[first_min(values)] <= #[trigger] values[i],
        forall|i: int| 0 <= i < first_min(values) ==> values[first_min(values)] < #[trigger] values[i],
    decreases values.len(),
{
    if values.len() > 1 {
        let rest = values.drop_last();
        lemma_first_min(rest);
        assert forall|i: int| 0 <= i < rest.len() implies rest[i] == values[i] by {}
    }
}

pub open spec fn size_sum(sizes: Seq<u64>) -> int
    decreases sizes.len(),
{
    if sizes.len() == 0 {
        0
    } else {
        size_sum(sizes.drop_last()) + sizes.last()
    }
}

pub open spec fn weight_sum(items: Seq<(u64, u64)>) -> int
    decreases items.len(),
{
    if items.len() == 0 {
        0
    } else {
        weight_sum(items.drop_last()) + items.last().0
    }
}

pub open spec fn load_sum(loads: Seq<int>) -> int
    decreases loads.len(),
{
    if loads.len() == 0 {
        0
    } else {
        load_sum(loads.drop_last()) + loads.last()
    }
}

/// Each community paired with its ID: `(size, id)`.
pub open spec fn community_items(sizes: Seq<u64>) -> Seq<(u64, u64)> {
    Seq::new(sizes.len(), |c: int| (sizes[c], c as u64))
}

/// The communities from largest to smallest, lower ID first among equal sizes.
pub open spec fn community_ranking(sizes: Seq<u64>) -> Seq<(u64, u64)> {
    choose|r: Seq<(u64, u64)>| is_ranked(r) && r.to_set() == community_items(sizes).to_set()
}

/// Assignment and shard loads while communities are placed.
pub struct Placement {
    pub assignment: Seq<usize>,
    pub loads: Seq<int>,
}

/// Places the communities of `order` one at a time, each on the first of the least-loaded
/// shards.
pub open spec fn greedy_place(sizes: Seq<u64>, order: Seq<(u64, u64)>, shard_count: nat) -> Placement
    decreases order.len(),
{
    if order.len() == 0 {
        Placement {
            assignment: Seq::new(sizes.len(), |i: int| 0usize),
            loads: Seq::new(shard_count, |i: int| 0int),
        }
    } else {
        let before = greedy_place(sizes, order.drop_last(), shard_count);
        let item = order.last();
        let shard = first_min(before.loads);
        Placement {
            assignment: before.assignment.update(item.1 as int, shard as usize),
            loads: before.loads.update(shard, before.loads[shard] + item.0),
        }
    }
}

/// The greedy largest-first placement of communities of `sizes` on `shard_count` shards.
pub open spec fn balanced_placement(sizes: Seq<u64>, shard_count: nat) -> Placement {
    greedy_place(sizes, community_ranking(sizes), shard_count)
}

pub proof fn lemma_greedy_shape(sizes: Seq<u64>, order: Seq<(u64, u64)>, shard_count: nat)
    requires
        shard_count > 0,
        forall|i: int| 0 <= i < order.len() ==> (#[trigger] order[i]).1 < sizes.len(),
    ensures
        greedy_place(sizes, order, shard_count).assignment.len() == sizes.len(),
        greedy_place(sizes, order, shard_count).loads.len() == shard_count,
        forall|c: int| 0 <= c < sizes.len() ==> #[trigger] greedy_place(sizes, order, shard_count).assignment[c] < shard_count,
        forall|s: int| 0 <= s < shard_count ==> #[trigger] greedy_place(sizes, order, shard_count).loads[s] >= 0,
        load_sum(greedy_place(sizes, order, shard_count).loads) == weight_sum(order),
    decreases order.len(),
{
    if order.len() == 0 {
        lemma_load_sum_zero(Seq::new(shard_count, |i: int| 0int));
    } else {
        let before = greedy_place(sizes, order.drop_last(), shard_count);
        assert forall|i: int| 0 <= i < order.drop_last().len() implies (#[trigger] order.drop_last()[i]).1 < sizes.len() by {
            assert(order.drop_last()[i] == order[i]);
        }
        assert(order.last() == order[order.len() - 1]);
        lemma_greedy_shape(sizes, order.drop_last(), shard_count);
        lemma_first_min(before.loads);
        let shard = first_min(before.loads);
        lemma_load_sum_update(before.loads, shard, before.loads[shard] + order.last().0);
    }
}

/// The balanced placement assigns every community to an existing shard.
pub proof fn lemma_greedy_shape_ranking(sizes: Seq<u64>, shard_count: nat)
    requires
        shard_count > 0,
        sizes.len() <= usize::MAX,
        exists|r: Seq<(u64, u64)>| is_ranked(r) && r.to_set() == community_items(sizes).to_set(),
    ensures
        balanced_placement(sizes, shard_count).assignment.len() == sizes.len(),
        forall|c: int| 0 <= c < sizes.len() ==> #[trigger] balanced_placement(sizes, shard_count).assignment[c] < shard_count,
        balanced_placement(sizes, shard_count).loads.len() == shard_count,
        load_sum(balanced_placement(sizes, shard_count).loads) == size_sum(sizes),
{
    let r = community_ranking(sizes);
    assert(is_ranked(r) && r.to_set() == community_items(sizes).to_set());
    assert forall|i: int| 0 <= i < r.len() implies (#[trigger] r[i]).1 < sizes.len() by {
        assert(r.to_set().contains(r[i]));
        assert(community_items(sizes).to_set().contains(r[i]));
        let c = choose|c: int| 0 <= c < sizes.len() && community_items(sizes)[c] == r[i];
    }
    lemma_greedy_shape(sizes, r, shard_count);
    lemma_ranked_no_duplicates(r);
    let items = community_items(sizes);
    assert(items.no_duplicates()) by {
        assert forall|i: int, j: int| 0 <= i < items.len() && 0 <= j < items.len() && i != j
            implies items[i] != items[j] by {
            assert(usize::MAX <= u64::MAX);
            assert(items[i].1 == i as u64 && items[j].1 == j as u64);
        }
    }
    lemma_weight_sum_permutation(r, items);
    lemma_weight_sum_items(sizes);
}

pub proof fn lemma_load_sum_zero(loads: Seq<int>)
    requires
        forall|i: int| 0 <= i < loads.len() ==> loads[i] == 0,
    ensures
        load_sum(loads) == 0,
    decreases loads.len(),
{
    if loads.len() > 0 {
        lemma_load_sum_zero(loads.drop_last());
    }
}

pub proof fn lemma_load_sum_update(loads: Seq<int>, i: int, v: int)
    requires
        0 <= i < loads.len(),
    ensures
        load_sum(loads.update(i, v)) == load_sum(loads) - loads[i] + v,
    decreases loads.len(),
{
    if i == loads.len() - 1 {
        assert(loads.update(i, v).drop_last() =~= loads.drop_last());
    } else {
        lemma_load_sum_update(loads.drop_last(), i, v);
        assert(loads.update(i, v).drop_last() =~= loads.drop_last().update(i, v));
    }
}

pub proof fn lemma_load_bounded(loads: Seq<int>, i: int)
    requires
        0 <= i < loads.len(),
        forall|j: int| 0 <= j < loads.len() ==> #[trigger] loads[j] >= 0,
    ensures
        loads[i] <= load_sum(loads),
    decreases loads.len(),
{
    if i < loads.len() - 1 {
        lemma_load_bounded(loads.drop_last(), i);
        assert(loads.drop_last()[i] == loads[i]);
    }
    lemma_load_nonneg(loads.drop_last());
}

pub proof fn lemma_load_nonneg(loads: Seq<int>)
    requires
        forall|j: int| 0 <= j < loads.len() ==> #[trigger] loads[j] >= 0,
    ensures
        load_sum(loads) >= 0,
    decreases loads.len(),
{
    if loads.len() > 0 {
        lemma_load_nonneg(loads.drop_last());
    }
}

pub proof fn lemma_weight_sum_items(sizes: Seq<u64>)
    ensures
        weight_sum(community_items(sizes)) == size_sum(sizes),
    decreases sizes.len(),
{
    if sizes.len() > 0 {
        lemma_weight_sum_items(sizes.drop_last());
        assert(community_items(sizes).drop_last() =~= community_items(sizes.drop_last()));
    }
}

pub proof fn lemma_weight_sum_remove(s: Seq<(u64, u64)>, k: int)
    requires
        0 <= k < s.len(),
    ensures
        weight_sum(s.remove(k)) + s[k].0 == weight_sum(s),
    decreases s.len(),
{
    if k == s.len() - 1 {
        assert(s.remove(k) =~= s.drop_last());
    } else {
        lemma_weight_sum_remove(s.drop_last(), k);
        assert(s.remove(k).drop_last() =~= s.drop_last().remove(k));
    }
}

/// Two listings without repetition of one set weigh the same.
pub proof fn lemma_weight_sum_permutation(a: Seq<(u64, u64)>, b: Seq<(u64, u64)>)
    requires
        a.no_duplicates(),
        b.no_duplicates(),
        a.to_set() == b.to_set(),
    ensures
        weight_sum(a) == weight_sum(b),
    decreases a.len(),
{
    a.unique_seq_to_set();
    b.unique_seq_to_set();
    if a.len() > 0 {
        let x = a.last();
        assert(a.to_set().contains(x)) by {
            assert(a[a.len() - 1] == x);
        }
        let k = choose|k: int| 0 <= k < b.len() && b[k] == x;
        let ra = a.drop_last();
        let rb = b.remove(k);
        assert(ra.no_duplicates());
        assert(rb.no_duplicates()) by {
            assert forall|i: int, j: int| 0 <= i < rb.len() && 0 <= j < rb.len() && i != j implies rb[i] != rb[j] by {
                let oi = if i < k { i } else { i + 1 };
                let oj = if j < k { j } else { j + 1 };
                assert(rb[i] == b[oi] && rb[j] == b[oj]);
            }
        }
        assert(ra.to_set() =~= rb.to_set()) by {
            assert forall|y: (u64, u64)| ra.to_set().contains(y) <==> rb.to_set().contains(y) by {
                if ra.to_set().contains(y) {
                    let i = choose|i: int| 0 <= i < ra.len() && ra[i] == y;
                    assert(a[i] == y);
                    assert(y != x);
                    assert(b.to_set().contains(y));
                    let j = choose|j: int| 0 <= j < b.len() && b[j] == y;
                    assert(j != k);
                    if j < k {
                        assert(rb[j] == y);
                    } else {
                        assert(rb[j - 1] == y);
                    }
                }
                if rb.to_set().contains(y) {
                    let i = choose|i: int| 0 <= i < rb.len() && rb[i] == y;
                    let oi = if i < k { i } else { i + 1 };
                    assert(b[oi] == y);
                    assert(y != x);
                    assert(a.to_set().contains(y));
                    let j = choose|j: int| 0 <= j < a.len() && a[j] == y;
                    assert(j != a.len() - 1);
                    assert(ra[j] == y);
                }
            }
        }
        lemma_weight_sum_permutation(ra, rb);
        lemma_weight_sum_remove(b, k);
    } else {
        assert(b.len() == 0) by {
            if b.len() > 0 {
                assert(b.to_set().contains(b[0]));
            }
        }
    }
}

/// Assigns whole communities to shards, largest community first, each to the shard that
/// holds the fewest users so far (the lowest shard ID among equals).
pub fn assign_communities_balanced(community_sizes: &[u64], shard_count: usize) -> (result: Result<
    BalancedAssignment,
    GraphError,
>)
    requires
        size_sum(community_sizes@) <= u64::MAX,
    ensures
        shard_count == 0 ==> result == Err::<BalancedAssignment, GraphError>(GraphError::ZeroShardCount),
        shard_count != 0 && community_sizes@.len() == 0 ==> result == Err::<BalancedAssignment, GraphError>(
            GraphError::EmptyCommunities,
        ),
        shard_count != 0 && community_sizes@.len() != 0 && community_sizes@.contains(0) ==> result
            == Err::<BalancedAssignment, GraphError>(GraphError::ZeroCommunitySizes),
        shard_count != 0 && community_sizes@.len() != 0 && !community_sizes@.contains(0) ==> result is Ok,
        result is Ok ==> exists|r: Seq<(u64, u64)>| is_ranked(r) && r.to_set() == community_items(community_sizes@).to_set(),
        result matches Ok(assignment) ==> {
            let placed = balanced_placement(community_sizes@, shard_count as nat);
            &&& assignment.community_to_shard@ == placed.assignment
            &&& assignment.users_per_shard@.map_values(|load: u64| load as int) == placed.loads
        },
{
    if shard_count == 0 {
        return Err(GraphError::ZeroShardCount);
    }
    if community_sizes.len() == 0 {
        return Err(GraphError::EmptyCommunities);
    }
    if crate::graph::contains_id(community_sizes, 0) {
        return Err(GraphError::ZeroCommunitySizes);
    }
    let ghost sizes = community_sizes@;
    let mut items: Vec<(u64, u64)> = Vec::new();
    for c in 0..community_sizes.len()
        invariant
            sizes == community_sizes@,
            items@ == community_items(sizes).take(c as int),
    {
        proof {
            assert(community_items(sizes).take(c + 1) =~= items@.push((sizes[c as int], c as u64)));
        }
        items.push((community_sizes[c], c as u64));
    }
    proof {
        assert(items@ =~= community_items(sizes));
        assert(items@.no_duplicates()) by {
            assert forall|i: int, j: int| 0 <= i < items@.len() && 0 <= j < items@.len() && i != j
                implies items@[i] != items@[j] by {
                assert(items@[i].1 == i as u64 && items@[j].1 == j as u64);
            }
        }
    }
    let order = rank_by_weight(&items);
    proof {
        let r = community_ranking(sizes);
        assert(is_ranked(order@) && order@.to_set() == community_items(sizes).to_set());
        lemma_ranking_unique(r, order@);
        lemma_ranked_no_duplicates(order@);
        lemma_weight_sum_permutation(order@, items@);
        lemma_weight_sum_items(sizes);
        assert forall|i: int| 0 <= i < order@.len() implies (#[trigger] order@[i]).1 < sizes.len() by {
            assert(order@.to_set().contains(order@[i]));
            assert(community_items(sizes).to_set().contains(order@[i]));
            let c = choose|c: int| 0 <= c < sizes.len() && community_items(sizes)[c] == order@[i];
        }
    }
    let mut community_to_shard: Vec<usize> = Vec::new();
    for c in 0..community_sizes.len()
        invariant
            community_to_shard@ == Seq::new(c as nat, |i: int| 0usize),
    {
        proof {
            assert(Seq::new((c + 1) as nat, |i: int| 0usize) =~= community_to_shard@.push(0usize));
        }
        community_to_shard.push(0);
    }
    let mut users_per_shard: Vec<u64> = Vec::new();
    for s in 0..shard_count
        invariant
            users_per_shard@ == Seq::new(s as nat, |i: int| 0u64),
    {
        proof {
            assert(Seq::new((s + 1) as nat, |i: int| 0u64) =~= users_per_shard@.push(0u64));
        }
        users_per_shard.push(0);
    }
    proof {
        assert(users_per_shard@.map_values(|load: u64| load as int) =~= Seq::new(shard_count as nat, |i: int| 0int));
        assert(order@.take(0) =~= Seq::<(u64, u64)>::empty());
    }
    for k in 0..order.len()
        invariant
            shard_count > 0,
            sizes == community_sizes@,
            order@ == community_ranking(sizes),
            order@.len() == sizes.len(),
            order@.to_set() == community_items(sizes).to_set(),
            weight_sum(order@) == size_sum(sizes),
            size_sum(sizes) <= u64::MAX,
            forall|i: int| 0 <= i < order@.len() ==> (#[trigger] order@[i]).1 < sizes.len(),
            ({
                let placed = greedy_place(sizes, order@.take(k as int), shard_count as nat);
                &&& community_to_shard@ == placed.assignment
                &&& users_per_shard@.map_values(|load: u64| load as int) == placed.loads
            }),
    {
        let (size, id) = order[k];
        let ghost prefix = order@.take(k + 1);
        let ghost placed = greedy_place(sizes, order@.take(k as int), shard_count as nat);
        proof {
            assert(prefix.drop_last() =~= order@.take(k as int));
            assert(prefix.last() == (size, id));
            assert forall|i: int| 0 <= i < order@.take(k as int).len() implies (#[trigger] order@.take(k as int)[i]).1 < sizes.len() by {
                assert(order@.take(k as int)[i] == order@[i]);
            }
            lemma_greedy_shape(sizes, order@.take(k as int), shard_count as nat);
            assert(order@.to_set().contains((size, id))) by {
                assert(order@[k as int] == (size, id));
            }
            assert(community_items(sizes).to_set().contains((size, id)));
            let c = choose|c: int| 0 <= c < sizes.len() && community_items(sizes)[c] == (size, id);
            assert(id == c as u64 && size == sizes[c]);
            // the placed prefix weighs no more than all communities
            lemma_weight_sum_prefix(order@, k + 1);
        }
        let shard = least_loaded(&users_per_shard);
        let c = id as usize;
        community_to_shard.set(c, shard);
        proof {
            lemma_first_min(placed.loads);
            lemma_load_bounded(placed.loads, shard as int);
            assert(users_per_shard@[shard as int] as int == placed.loads[shard as int]);
        }
        let load = users_per_shard[shard] + size;
        users_per_shard.set(shard, load);
        proof {
            assert(users_per_shard@.map_values(|load: u64| load as int) =~= placed.loads.update(
                shard as int,
                placed.loads[shard as int] + size,
            ));
        }
    }
    proof {
        assert(order@.take(order@.len() as int) =~= order@);
    }
    Ok(BalancedAssignment { community_to_shard, users_per_shard })
}

pub proof fn lemma_weight_sum_prefix(s: Seq<(u64, u64)>, k: int)
    requires
        0 <= k <= s.len(),
    ensures
        weight_sum(s.take(k)) <= weight_sum(s),
    decreases s.len(),
{
    if k < s.len() {
        lemma_weight_sum_prefix(s.drop_last(), k);
        assert(s.drop_last().take(k) =~= s.take(k));
    } else {
        assert(s.take(k) =~= s);
    }
}

/// The first of the shards holding the fewest users.
fn least_loaded(loads: &Vec<u64>) -> (shard: usize)
    requires
        loads@.len() > 0,
    ensures
        shard == first_min(loads@.map_values(|load: u64| load as int)),
{
    let ghost values = loads@.map_values(|load: u64| load as int);
    let mut best: usize = 0;
    let mut i: usize = 1;
    proof {
        assert(values.take(1).len() == 1);
    }
    while i < loads.len()
        invariant
            values == loads@.map_values(|load: u64| load as int),
            1 <= i <= loads@.len(),
            best < i,
            best == first_min(values.take(i as int)),
        decreases loads@.len() - i,
    {
        proof {
            let t = values.take(i + 1);
            assert(t.drop_last() =~= values.take(i as int));
            assert(t.last() == values[i as int]);
            assert(t[best as int] == values[best as int]);
        }
        if loads[i] < loads[best] {
            best = i;
        }
        i = i + 1;
    }
    proof {
        assert(values.take(loads@.len() as int) =~= values);
    }
    best
}

} // verus!

verus! {

/// The weight of the items of `order` that `assignment` puts on shard `s`.
pub open spec fn shard_weight(order: Seq<(u64, u64)>, assignment: Seq<usize>, s: usize) -> int
    decreases order.len(),
{
    if order.len() == 0 {
        0
    } else {
        shard_weight(order.drop_last(), assignment, s) + if assignment[order.last().1 as int] == s {
            order.last().0 as int
        } else {
            0
        }
    }
}

/// The users of communities `0..k` that `assignment` puts on shard `s`.
pub open spec fn prefix_load(sizes: Seq<u64>, assignment: Seq<usize>, s: usize, k: int) -> int
    decreases k,
{
    if k <= 0 {
        0
    } else {
        prefix_load(sizes, assignment, s, k - 1) + if assignment[k - 1] == s { sizes[k - 1] as int } else { 0 }
    }
}

spec fn masked(order: Seq<(u64, u64)>, assignment: Seq<usize>, s: usize) -> Seq<(u64, u64)> {
    order.map_values(|it: (u64, u64)| (if assignment[it.1 as int] == s { it.0 } else { 0u64 }, it.1))
}

proof fn lemma_masked_weight(order: Seq<(u64, u64)>, assignment: Seq<usize>, s: usize)
    ensures
        weight_sum(masked(order, assignment, s)) == shard_weight(order, assignment, s),
    decreases order.len(),
{
    if order.len() > 0 {
        assert(masked(order, assignment, s).drop_last() =~= masked(order.drop_last(), assignment, s));
        lemma_masked_weight(order.drop_last(), assignment, s);
    }
}

proof fn lemma_shard_weight_agree(order: Seq<(u64, u64)>, a1: Seq<usize>, a2: Seq<usize>, s: usize)
    requires
        forall|i: int| 0 <= i < order.len() ==> a1[(#[trigger] order[i]).1 as int] == a2[order[i].1 as int],
    ensures
        shard_weight(order, a1, s) == shard_weight(order, a2, s),
    decreases order.len(),
{
    if order.len() > 0 {
        assert forall|i: int| 0 <= i < order.drop_last().len() implies a1[(#[trigger] order.drop_last()[i]).1 as int]
            == a2[order.drop_last()[i].1 as int] by {
            assert(order.drop_last()[i] == order[i]);
        }
        lemma_shard_weight_agree(order.drop_last(), a1, a2, s);
        assert(order.last() == order[order.len() - 1]);
    }
}

/// Each shard's load after greedy placement is the weight of the items placed on it.
proof fn lemma_greedy_loads(sizes: Seq<u64>, order: Seq<(u64, u64)>, shard_count: nat, s: usize)
    requires
        0 < shard_count <= usize::MAX,
        s < shard_count,
        forall|i: int| 0 <= i < order.len() ==> (#[trigger] order[i]).1 < sizes.len(),
        forall|i: int, j: int| 0 <= i < j < order.len() ==> (#[trigger] order[i]).1 != (#[trigger] order[j]).1,
    ensures
        greedy_place(sizes, order, shard_count).loads[s as int]
            == shard_weight(order, greedy_place(sizes, order, shard_count).assignment, s),
    decreases order.len(),
{
    if order.len() > 0 {
        let init = order.drop_last();
        assert forall|i: int| 0 <= i < init.len() implies (#[trigger] init[i]).1 < sizes.len() by {
            assert(init[i] == order[i]);
        }
        assert forall|i: int, j: int| 0 <= i < j < init.len() implies (#[trigger] init[i]).1 != (#[trigger] init[j]).1 by {
            assert(init[i] == order[i] && init[j] == order[j]);
        }
        lemma_greedy_loads(sizes, init, shard_count, s);
        lemma_greedy_shape(sizes, init, shard_count);
        let before = greedy_place(sizes, init, shard_count);
        let x = order.last();
        assert(x == order[order.len() - 1]);
        lemma_first_min(before.loads);
        let after = greedy_place(sizes, order, shard_count);
        assert forall|i: int| 0 <= i < init.len() implies after.assignment[(#[trigger] init[i]).1 as int]
            == before.assignment[init[i].1 as int] by {
            assert(init[i] == order[i]);
            assert(order[i].1 != x.1);
        }
        lemma_shard_weight_agree(init, after.assignment, before.assignment, s);
        let m = first_min(before.loads);
        assert(0 <= m < before.loads.len());
        assert(after.assignment[x.1 as int] == m as usize);
        assert(after.loads[s as int] == before.loads[s as int] + if m == s { x.0 as int } else { 0 });
        assert(shard_weight(order, after.assignment, s) == shard_weight(init, after.assignment, s)
            + if after.assignment[x.1 as int] == s { x.0 as int } else { 0 });
        assert(shard_weight(init, after.assignment, s) == shard_weight(init, before.assignment, s));
        assert(before.loads[s as int] == shard_weight(init, before.assignment, s));
        assert(after.loads[s as int] == shard_weight(order, after.assignment, s));
    } else {
        assert(greedy_place(sizes, order, shard_count).loads[s as int] == 0);
    }
}

/// Under the balanced placement, each shard's load is the total size of the communities
/// assigned to it.
pub proof fn lemma_balanced_loads(sizes: Seq<u64>, shard_count: nat, s: usize)
    requires
        0 < shard_count <= usize::MAX,
        s < shard_count,
        sizes.len() <= usize::MAX,
        exists|r: Seq<(u64, u64)>| is_ranked(r) && r.to_set() == community_items(sizes).to_set(),
    ensures
        balanced_placement(sizes, shard_count).loads[s as int]
            == prefix_load(sizes, balanced_placement(sizes, shard_count).assignment, s, sizes.len() as int),
{
    let r = community_ranking(sizes);
    let items = community_items(sizes);
    let a = balanced_placement(sizes, shard_count).assignment;
    assert(is_ranked(r) && r.to_set() == items.to_set());
    lemma_ranked_no_duplicates(r);
    assert forall|i: int| 0 <= i < r.len() implies (#[trigger] r[i]).1 < sizes.len() && r[i] == items[r[i].1 as int] by {
        assert(r.to_set().contains(r[i]));
        assert(items.to_set().contains(r[i]));
        let c = choose|c: int| 0 <= c < items.len() && items[c] == r[i];
        assert(usize::MAX <= u64::MAX);
        assert(items[c].1 == c as u64);
    }
    assert forall|i: int, j: int| 0 <= i < j < r.len() implies (#[trigger] r[i]).1 != (#[trigger] r[j]).1 by {
        if r[i].1 == r[j].1 {
            assert(r[i] == items[r[i].1 as int]);
            assert(r[j] == items[r[j].1 as int]);
        }
    }
    lemma_greedy_loads(sizes, r, shard_count, s);
    // The ranking and the community list weigh the same on shard `s`.
    let mr = masked(r, a, s);
    let mi = masked(items, a, s);
    assert(items.no_duplicates()) by {
        assert forall|i: int, j: int| 0 <= i < items.len() && 0 <= j < items.len() && i != j
            implies items[i] != items[j] by {
            assert(usize::MAX <= u64::MAX);
            assert(items[i].1 == i as u64 && items[j].1 == j as u64);
        }
    }
    assert(mr.no_duplicates()) by {
        assert forall|i: int, j: int| 0 <= i < mr.len() && 0 <= j < mr.len() && i != j implies mr[i] != mr[j] by {
            if i < j {
                assert(r[i].1 != r[j].1);
            } else {
                assert(r[j].1 != r[i].1);
            }
        }
    }
    assert(mi.no_duplicates()) by {
        assert forall|i: int, j: int| 0 <= i < mi.len() && 0 <= j < mi.len() && i != j implies mi[i] != mi[j] by {
            assert(usize::MAX <= u64::MAX);
            assert(items[i].1 == i as u64 && items[j].1 == j as u64);
        }
    }
    assert(mr.to_set() =~= mi.to_set()) by {
        assert forall|x: (u64, u64)| mr.to_set().contains(x) implies mi.to_set().contains(x) by {
            let i = choose|i: int| 0 <= i < mr.len() && mr[i] == x;
            assert(r.to_set().contains(r[i]));
            let c = choose|c: int| 0 <= c < items.len() && items[c] == r[i];
            assert(mi[c] == x);
        }
        assert forall|x: (u64, u64)| mi.to_set().contains(x) implies mr.to_set().contains(x) by {
            let c = choose|c: int| 0 <= c < mi.len() && mi[c] == x;
            assert(items.to_set().contains(items[c]));
            let i = choose|i: int| 0 <= i < r.len() && r[i] == items[c];
            assert(mr[i] == x);
        }
    }
    lemma_weight_sum_permutation(mr, mi);
    lemma_masked_weight(r, a, s);
    lemma_masked_weight(items, a, s);
    lemma_items_weight(sizes, a, s, sizes.len() as int);
    assert(items.take(sizes.len() as int) =~= items);
    assert(greedy_place(sizes, r, shard_count).assignment == a);
    assert(balanced_placement(sizes, shard_count).loads[s as int] == shard_weight(r, a, s));
    assert(weight_sum(mr) == weight_sum(mi));
}

proof fn lemma_items_weight(sizes: Seq<u64>, a: Seq<usize>, s: usize, k: int)
    requires
        0 <= k <= sizes.len(),
        sizes.len() <= usize::MAX,
    ensures
        shard_weight(community_items(sizes).take(k), a, s) == prefix_load(sizes, a, s, k),
    decreases k,
{
    if k > 0 {
        assert(community_items(sizes).take(k).drop_last() =~= community_items(sizes).take(k - 1));
        lemma_items_weight(sizes, a, s, k - 1);
        assert(usize::MAX <= u64::MAX);
        assert(community_items(sizes).take(k).last() == (sizes[k - 1], (k - 1) as u64));
    } else {
        assert(community_items(sizes).take(k) =~= Seq::<(u64, u64)>::empty());
    }
    if k == sizes.len() {
        assert(community_items(sizes).take(k) =~= community_items(sizes));
    }
}

} // verus!
