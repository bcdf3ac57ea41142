use vstd::prelude::*;
use std::collections::HashSet;
use crate::sharded::{Placement, placement_shard};
use crate::stats::firsts_on;
use crate::twohop::{collect_lists, lemma_collect_lists};
use crate::rank::{is_ranked, ranks_before, rank_by_weight, lemma_ranking_unique};
use crate::graph::append_new_exec;
use crate::text::{decimal, push_decimal, push_str};

verus! {

broadcast use vstd::std_specs::hash::group_hash_axioms;

/// What a two-hop query over shard workers returns: the users found, in ascending order,
/// and how many messages were sent to workers.
#[derive(Debug, PartialEq, Eq)]
pub struct DistributedQueryResult {
    pub user_ids: Vec<u64>,
    pub shard_requests: usize,
}

/// The worker of `user_id` among `shard_count` workers: `user_id as usize % shard_count`;
/// user 0 has none.
pub open spec fn worker_for(user_id: u64, shard_count: usize) -> Option<usize> {
    if user_id == 0 {
        None
    } else {
        Some(((user_id as usize) as int % shard_count as int) as usize)
    }
}

pub fn shard_for_user(user_id: u64, shard_count: usize) -> (result: Option<usize>)
    requires
        shard_count > 0,
    ensures
        result == worker_for(user_id, shard_count),
{
    if user_id == 0 {
        return None;
    }
    Some(#[verifier::truncate] (user_id as usize) % shard_count)
}

/// Why a coordinator with these settings cannot start.
pub open spec fn config_error(shard_count: usize, channel_capacity: usize) -> Option<Seq<char>> {
    if shard_count == 0 {
        Some("Shard count must be greater than zero"@)
    } else if channel_capacity == 0 {
        Some("Channel capacity must be greater than zero"@)
    } else {
        None
    }
}

pub fn check_config(shard_count: usize, channel_capacity: usize) -> (result: Result<(), String>)
    ensures
        match config_error(shard_count, channel_capacity) {
            Some(m) => result matches Err(e) && e@ == m,
            None => result is Ok,
        },
{
    if shard_count == 0 {
        return Err(String::from_str("Shard count must be greater than zero"));
    }
    if channel_capacity == 0 {
        return Err(String::from_str("Channel capacity must be greater than zero"));
    }
    Ok(())
}

fn numbered(prefix: &str, id: u64, suffix: &str) -> (message: String)
    ensures
        message@ == prefix@ + decimal(id as nat) + suffix@,
{
    let mut message = String::from_str(prefix);
    push_decimal(&mut message, id);
    push_str(&mut message, suffix);
    message
}

/// Where the coordinator sends a new user, or why it refuses it.
pub fn plan_add_user(known_users: &HashSet<u64>, id: u64, shard_count: usize) -> (result: Result<usize, String>)
    requires
        shard_count > 0,
    ensures
        id == 0 ==> (result matches Err(e) && e@ == "User ID must be greater than zero"@),
        id != 0 && known_users@.contains(id) ==> (result matches Err(e) && e@ == "User "@ + decimal(id as nat) + " already exists"@),
        id != 0 && !known_users@.contains(id) ==> result == Ok::<usize, String>(worker_for(id, shard_count).unwrap()),
{
    if id == 0 {
        return Err(String::from_str("User ID must be greater than zero"));
    }
    if known_users.contains(&id) {
        return Err(numbered("User ", id, " already exists"));
    }
    match shard_for_user(id, shard_count) {
        Some(shard_id) => Ok(shard_id),
        None => Err(numbered("Cannot find shard for user ", id, "")),
    }
}

/// The worker that stores a new edge (the source's), or why the coordinator refuses it.
pub fn plan_add_follow(known_users: &HashSet<u64>, source: u64, target: u64, shard_count: usize) -> (result: Result<usize, String>)
    requires
        shard_count > 0,
    ensures
        !known_users@.contains(source) ==> (result matches Err(e) && e@ == "Source user "@ + decimal(source as nat)
            + " does not exist"@),
        known_users@.contains(source) && !known_users@.contains(target) ==> (result matches Err(e) && e@ == "Target user "@
            + decimal(target as nat) + " does not exist"@),
        known_users@.contains(source) && known_users@.contains(target) ==> match worker_for(source, shard_count) {
            Some(s) => result == Ok::<usize, String>(s),
            None => result matches Err(e) && e@ == "Cannot find shard for user "@ + decimal(source as nat),
        },
{
    if !known_users.contains(&source) {
        return Err(numbered("Source user ", source, " does not exist"));
    }
    if !known_users.contains(&target) {
        return Err(numbered("Target user ", target, " does not exist"));
    }
    match shard_for_user(source, shard_count) {
        Some(shard_id) => Ok(shard_id),
        None => {
            let message = numbered("Cannot find shard for user ", source, "");
            proof {
                reveal_strlit("");
                assert(message@ =~= "Cannot find shard for user "@ + decimal(source as nat));
            }
            Err(message)
        },
    }
}

/// The worker to ask for a user's list, or why the coordinator refuses.
pub fn plan_get_following(known_users: &HashSet<u64>, source: u64, shard_count: usize) -> (result: Result<usize, String>)
    requires
        shard_count > 0,
    ensures
        !known_users@.contains(source) ==> (result matches Err(e) && e@ == "User "@ + decimal(source as nat) + " does not exist"@),
        known_users@.contains(source) ==> match worker_for(source, shard_count) {
            Some(s) => result == Ok::<usize, String>(s),
            None => result matches Err(e) && e@ == "Cannot find shard for user "@ + decimal(source as nat),
        },
{
    if !known_users.contains(&source) {
        return Err(numbered("User ", source, " does not exist"));
    }
    match shard_for_user(source, shard_count) {
        Some(shard_id) => Ok(shard_id),
        None => {
            let message = numbered("Cannot find shard for user ", source, "");
            proof {
                reveal_strlit("");
                assert(message@ =~= "Cannot find shard for user "@ + decimal(source as nat));
            }
            Err(message)
        },
    }
}

/// The first hops grouped by worker: one group for each worker below `k` that owns some of
/// them, in ascending worker order, each group in first-hop order.
pub open spec fn worker_groups(first_hops: Seq<u64>, shard_count: usize, k: nat) -> Seq<(usize, Seq<u64>)>
    decreases k,
{
    if k == 0 {
        Seq::empty()
    } else {
        let group = firsts_on(Placement::Hash, shard_count as nat, first_hops, (k - 1) as usize);
        worker_groups(first_hops, shard_count, (k - 1) as nat) + if group.len() > 0 {
            seq![((k - 1) as usize, group)]
        } else {
            Seq::empty()
        }
    }
}

proof fn lemma_hash_is_worker(user_id: u64, shard_count: usize)
    requires
        shard_count > 0,
    ensures
        placement_shard(Placement::Hash, shard_count as nat, user_id) == worker_for(user_id, shard_count),
{
}

/// The first hops of worker `shard_id`, in order.
fn first_hops_on(first_hops: &[u64], shard_count: usize, shard_id: usize) -> (group: Vec<u64>)
    requires
        shard_count > 0,
    ensures
        group@ == firsts_on(Placement::Hash, shard_count as nat, first_hops@, shard_id),
{
    let mut group: Vec<u64> = Vec::new();
    proof {
        assert(first_hops@.take(0) =~= Seq::<u64>::empty());
    }
    for i in 0..first_hops.len()
        invariant
            shard_count > 0,
            group@ == firsts_on(Placement::Hash, shard_count as nat, first_hops@.take(i as int), shard_id),
    {
        let f = first_hops[i];
        proof {
            assert(first_hops@.take(i + 1).drop_last() =~= first_hops@.take(i as int));
            lemma_hash_is_worker(f, shard_count);
        }
        if shard_for_user(f, shard_count) == Some(shard_id) {
            group.push(f);
        }
    }
    proof {
        assert(first_hops@.take(first_hops@.len() as int) =~= first_hops@);
    }
    group
}

/// Groups the first hops by worker, for one batch message per worker. A first hop without a
/// worker (user 0) is refused.
pub fn group_by_shard(first_hops: &[u64], shard_count: usize) -> (result: Result<Vec<(usize, Vec<u64>)>, String>)
    requires
        shard_count > 0,
    ensures
        first_hops@.contains(0) ==> (result matches Err(e) && e@ == "Cannot find shard for user 0"@),
        !first_hops@.contains(0) ==> (result matches Ok(groups) && groups@.map_values(|g: (usize, Vec<u64>)| (g.0, g.1@))
            == worker_groups(first_hops@, shard_count, shard_count as nat)),
{
    if crate::graph::contains_id(first_hops, 0) {
        let message = numbered("Cannot find shard for user ", 0, "");
        proof {
            reveal_strlit("");
            reveal_strlit("Cannot find shard for user 0");
            reveal_strlit("Cannot find shard for user ");
            assert(decimal(0) =~= seq!['0']);
            assert(message@ =~= "Cannot find shard for user 0"@);
        }
        return Err(message);
    }
    let mut groups: Vec<(usize, Vec<u64>)> = Vec::new();
    for s in 0..shard_count
        invariant
            shard_count > 0,
            groups@.map_values(|g: (usize, Vec<u64>)| (g.0, g.1@)) == worker_groups(first_hops@, shard_count, s as nat),
    {
        let group = first_hops_on(first_hops, shard_count, s);
        if group.len() > 0 {
            let ghost before = groups@;
            groups.push((s, group));
            proof {
                assert(groups@.map_values(|g: (usize, Vec<u64>)| (g.0, g.1@)) =~= before.map_values(
                    |g: (usize, Vec<u64>)| (g.0, g.1@),
                ) + seq![(s, firsts_on(Placement::Hash, shard_count as nat, first_hops@, s))]);
            }
        } else {
            proof {
                assert(worker_groups(first_hops@, shard_count, (s + 1) as nat) =~= worker_groups(first_hops@, shard_count, s as nat));
            }
        }
    }
    Ok(groups)
}

/// `ids` in strictly ascending order.
pub open spec fn strictly_ascending(ids: Seq<u64>) -> bool {
    forall|i: int, j: int| 0 <= i < j < ids.len() ==> ids[i] < ids[j]
}

pub open spec fn as_ranked(ids: Seq<u64>) -> Seq<(u64, u64)> {
    ids.map_values(|id: u64| (0u64, id))
}

proof fn lemma_ascending_ranked(ids: Seq<u64>)
    ensures
        strictly_ascending(ids) <==> is_ranked(as_ranked(ids)),
{
    let r = as_ranked(ids);
    if strictly_ascending(ids) {
        assert forall|i: int, j: int| 0 <= i < j < r.len() implies ranks_before(#[trigger] r[i], #[trigger] r[j]) by {
            assert(ids[i] < ids[j]);
        }
    }
    if is_ranked(r) {
        assert forall|i: int, j: int| 0 <= i < j < ids.len() implies ids[i] < ids[j] by {
            assert(ranks_before(r[i], r[j]));
        }
    }
}

/// Two strictly ascending lists of the same users are the same list.
pub proof fn lemma_ascending_unique(a: Seq<u64>, b: Seq<u64>)
    requires
        strictly_ascending(a),
        strictly_ascending(b),
        a.to_set() == b.to_set(),
    ensures
        a == b,
{
    lemma_ascending_ranked(a);
    lemma_ascending_ranked(b);
    let ra = as_ranked(a);
    let rb = as_ranked(b);
    assert forall|p: (u64, u64)| ra.to_set().contains(p) <==> rb.to_set().contains(p) by {
        if ra.to_set().contains(p) {
            let i = choose|i: int| 0 <= i < ra.len() && ra[i] == p;
            assert(a.to_set().contains(a[i]));
            assert(b.to_set().contains(a[i]));
            let j = choose|j: int| 0 <= j < b.len() && b[j] == a[i];
            assert(rb[j] == p);
        }
        if rb.to_set().contains(p) {
            let j = choose|j: int| 0 <= j < rb.len() && rb[j] == p;
            assert(b.to_set().contains(b[j]));
            assert(a.to_set().contains(b[j]));
            let i = choose|i: int| 0 <= i < a.len() && a[i] == b[j];
            assert(ra[i] == p);
        }
    }
    assert(ra.to_set() =~= rb.to_set());
    lemma_ranking_unique(ra, rb);
    assert(a.len() == ra.len() && b.len() == rb.len());
    assert forall|i: int| 0 <= i < a.len() implies a[i] == b[i] by {
        assert(ra[i] == rb[i]);
    }
    assert(a =~= b);
}

/// The second hops of `lists`, each once and never `source`, in ascending order.
pub fn merge_second_hops(lists: &Vec<Vec<u64>>, source: u64) -> (user_ids: Vec<u64>)
    ensures
        strictly_ascending(user_ids@),
        user_ids@.to_set() == collect_lists(lists@.map_values(|l: Vec<u64>| l@), source).to_set(),
{
    let ghost views = lists@.map_values(|l: Vec<u64>| l@);
    let mut found: Vec<u64> = Vec::new();
    let mut seen: HashSet<u64> = HashSet::new();
    proof {
        assert(views.take(0) =~= Seq::<Seq<u64>>::empty());
        assert(found@.to_set() =~= seen@);
    }
    for i in 0..lists.len()
        invariant
            views == lists@.map_values(|l: Vec<u64>| l@),
            found@ == collect_lists(views.take(i as int), source),
            seen@ == found@.to_set(),
    {
        proof {
            assert(views.take(i + 1).drop_last() =~= views.take(i as int));
            assert(views.take(i + 1).last() == lists@[i as int]@);
        }
        append_new_exec(&mut found, &mut seen, lists[i].as_slice(), source);
    }
    proof {
        assert(views.take(views.len() as int) =~= views);
        lemma_collect_lists(views, source);
    }
    let mut items: Vec<(u64, u64)> = Vec::new();
    for i in 0..found.len()
        invariant
            items@ == as_ranked(found@.take(i as int)),
    {
        items.push((0, found[i]));
        proof {
            assert(items@ =~= as_ranked(found@.take(i + 1)));
        }
    }
    proof {
        assert(found@.take(found@.len() as int) =~= found@);
        assert forall|a: int, b: int| 0 <= a < items@.len() && 0 <= b < items@.len() && a != b implies items@[a] != items@[b] by {
            assert(found@[a] != found@[b]);
        }
    }
    let ranked = rank_by_weight(&items);
    let mut user_ids: Vec<u64> = Vec::new();
    for i in 0..ranked.len()
        invariant
            user_ids@ == ranked@.take(i as int).map_values(|p: (u64, u64)| p.1),
    {
        user_ids.push(ranked[i].1);
        proof {
            assert(user_ids@ =~= ranked@.take(i + 1).map_values(|p: (u64, u64)| p.1));
        }
    }
    proof {
        assert(ranked@.take(ranked@.len() as int) =~= ranked@);
        assert forall|p: (u64, u64)| ranked@.to_set().contains(p) implies p.0 == 0 by {
            assert(items@.to_set().contains(p));
            let k = choose|k: int| 0 <= k < items@.len() && items@[k] == p;
        }
        assert forall|i: int, j: int| 0 <= i < j < user_ids@.len() implies user_ids@[i] < user_ids@[j] by {
            assert(ranks_before(ranked@[i], ranked@[j]));
            assert(ranked@.to_set().contains(ranked@[i]));
            assert(ranked@.to_set().contains(ranked@[j]));
        }
        assert forall|x: u64| user_ids@.to_set().contains(x) <==> found@.to_set().contains(x) by {
            if user_ids@.to_set().contains(x) {
                let k = choose|k: int| 0 <= k < user_ids@.len() && user_ids@[k] == x;
                assert(ranked@.to_set().contains(ranked@[k]));
                assert(items@.to_set().contains(ranked@[k]));
                let m = choose|m: int| 0 <= m < items@.len() && items@[m] == ranked@[k];
                assert(found@[m] == x);
            }
            if found@.to_set().contains(x) {
                let m = choose|m: int| 0 <= m < found@.len() && found@[m] == x;
                assert(items@[m] == (0u64, x));
                assert(items@.to_set().contains((0u64, x)));
                assert(ranked@.to_set().contains((0u64, x)));
                let k = choose|k: int| 0 <= k < ranked@.len() && ranked@[k] == (0u64, x);
                assert(user_ids@[k] == x);
            }
        }
        assert(user_ids@.to_set() =~= found@.to_set());
    }
    user_ids
}

} // verus!

verus! {

/// The first hops of `groups`, group after group.
pub open spec fn grouped_hops(groups: Seq<(usize, Seq<u64>)>) -> Seq<u64>
    decreases groups.len(),
{
    if groups.len() == 0 {
        Seq::empty()
    } else {
        grouped_hops(groups.drop_last()) + groups.last().1
    }
}

proof fn lemma_firsts_on_member(shard_count: usize, firsts: Seq<u64>, s: usize, f: u64)
    requires
        shard_count > 0,
    ensures
        firsts_on(Placement::Hash, shard_count as nat, firsts, s).contains(f) <==> (firsts.contains(f) && worker_for(f, shard_count)
            == Some(s)),
    decreases firsts.len(),
{
    lemma_hash_is_worker(f, shard_count);
    if firsts.len() > 0 {
        let init = firsts.drop_last();
        lemma_firsts_on_member(shard_count, init, s, f);
        assert(firsts.contains(f) <==> (init.contains(f) || firsts.last() == f)) by {
            if firsts.contains(f) {
                let i = choose|i: int| 0 <= i < firsts.len() && firsts[i] == f;
                if i < firsts.len() - 1 {
                    assert(init[i] == f);
                }
            }
            if init.contains(f) {
                let i = choose|i: int| 0 <= i < init.len() && init[i] == f;
                assert(firsts[i] == f);
            }
            if firsts.last() == f {
                assert(firsts[firsts.len() - 1] == f);
            }
        }
        let rest = firsts_on(Placement::Hash, shard_count as nat, init, s);
        assert(rest.push(firsts.last()).contains(f) <==> (rest.contains(f) || firsts.last() == f)) by {
            let pushed = rest.push(firsts.last());
            if pushed.contains(f) {
                let i = choose|i: int| 0 <= i < pushed.len() && pushed[i] == f;
                if i < rest.len() {
                    assert(rest[i] == f);
                }
            }
            if rest.contains(f) {
                let i = choose|i: int| 0 <= i < rest.len() && rest[i] == f;
                assert(pushed[i] == f);
            }
            if firsts.last() == f {
                assert(pushed[rest.len() as int] == f);
            }
        }
    } else {
        assert(!firsts.contains(f));
    }
}

proof fn lemma_grouped_member(firsts: Seq<u64>, shard_count: usize, k: nat, f: u64)
    requires
        shard_count > 0,
    ensures
        grouped_hops(worker_groups(firsts, shard_count, k)).contains(f) <==> (firsts.contains(f) && (worker_for(
            f,
            shard_count,
        ) matches Some(w) && w < k)),
    decreases k,
{
    if k > 0 {
        lemma_grouped_member(firsts, shard_count, (k - 1) as nat, f);
        let s = (k - 1) as usize;
        lemma_firsts_on_member(shard_count, firsts, s, f);
        let group = firsts_on(Placement::Hash, shard_count as nat, firsts, s);
        let before = worker_groups(firsts, shard_count, (k - 1) as nat);
        let hops = grouped_hops(before);
        if group.len() > 0 {
            let groups = before + seq![(s, group)];
            assert(groups.drop_last() =~= before);
            assert(grouped_hops(groups) == hops + group);
            assert((hops + group).contains(f) <==> (hops.contains(f) || group.contains(f))) by {
                let all = hops + group;
                if all.contains(f) {
                    let i = choose|i: int| 0 <= i < all.len() && all[i] == f;
                    if i < hops.len() {
                        assert(hops[i] == f);
                    } else {
                        assert(group[i - hops.len()] == f);
                    }
                }
                if hops.contains(f) {
                    let i = choose|i: int| 0 <= i < hops.len() && hops[i] == f;
                    assert(all[i] == f);
                }
                if group.contains(f) {
                    let i = choose|i: int| 0 <= i < group.len() && group[i] == f;
                    assert(all[hops.len() + i] == f);
                }
            }
        } else {
            assert(before + Seq::<(usize, Seq<u64>)>::empty() =~= before);
            assert(!group.contains(f));
        }
    }
}

proof fn lemma_in_mapped_lists(hops: Seq<u64>, adjacency: Map<u64, Seq<u64>>, x: u64)
    ensures
        crate::twohop::in_some_list(hops.map_values(|f: u64| crate::graph::list_of(adjacency, f)), x) <==> exists|f: u64|
            hops.contains(f) && #[trigger] crate::graph::list_of(adjacency, f).contains(x),
{
    let lists = hops.map_values(|f: u64| crate::graph::list_of(adjacency, f));
    if crate::twohop::in_some_list(lists, x) {
        let i = choose|i: int| 0 <= i < lists.len() && #[trigger] lists[i].contains(x);
        assert(hops.contains(hops[i]));
        assert(crate::graph::list_of(adjacency, hops[i]).contains(x));
    }
    if exists|f: u64| hops.contains(f) && #[trigger] crate::graph::list_of(adjacency, f).contains(x) {
        let f = choose|f: u64| hops.contains(f) && #[trigger] crate::graph::list_of(adjacency, f).contains(x);
        let i = choose|i: int| 0 <= i < hops.len() && hops[i] == f;
        assert(lists[i].contains(x));
    }
}

/// Reading the lists of the first hops worker by worker, as a batched query does, reaches
/// the same second hops as reading them one by one, as a direct query does.
pub proof fn lemma_batched_reaches_same_users(firsts: Seq<u64>, shard_count: usize, adjacency: Map<u64, Seq<u64>>, source: u64)
    requires
        shard_count > 0,
        !firsts.contains(0),
    ensures
        collect_lists(
            grouped_hops(worker_groups(firsts, shard_count, shard_count as nat)).map_values(|f: u64| crate::graph::list_of(adjacency, f)),
            source,
        ).to_set() == collect_lists(firsts.map_values(|f: u64| crate::graph::list_of(adjacency, f)), source).to_set(),
{
    let grouped = grouped_hops(worker_groups(firsts, shard_count, shard_count as nat));
    let a = grouped.map_values(|f: u64| crate::graph::list_of(adjacency, f));
    let b = firsts.map_values(|f: u64| crate::graph::list_of(adjacency, f));
    lemma_collect_lists(a, source);
    lemma_collect_lists(b, source);
    assert forall|f: u64| grouped.contains(f) <==> firsts.contains(f) by {
        lemma_grouped_member(firsts, shard_count, shard_count as nat, f);
        if firsts.contains(f) {
            assert(f != 0);
        }
    }
    assert forall|x: u64| collect_lists(a, source).to_set().contains(x) <==> collect_lists(b, source).to_set().contains(x) by {
        lemma_in_mapped_lists(grouped, adjacency, x);
        lemma_in_mapped_lists(firsts, adjacency, x);
    }
    assert(collect_lists(a, source).to_set() =~= collect_lists(b, source).to_set());
}

} // verus!

verus! {

proof fn lemma_groups_push(firsts: Seq<u64>, f: u64, shard_count: usize, k: nat)
    requires
        shard_count > 0,
        k <= shard_count,
    ensures
        worker_groups(firsts.push(f), shard_count, k).len() == worker_groups(firsts, shard_count, k).len() + if (
        worker_for(f, shard_count) matches Some(w) && w < k && firsts_on(Placement::Hash, shard_count as nat, firsts, w).len()
            == 0) {
            1int
        } else {
            0int
        },
    decreases k,
{
    if k > 0 {
        lemma_groups_push(firsts, f, shard_count, (k - 1) as nat);
        let s = (k - 1) as usize;
        assert(s as int == k - 1);
        crate::stats::lemma_firsts_on_push(Placement::Hash, shard_count as nat, firsts, f, s);
        lemma_hash_is_worker(f, shard_count);
        let old_group = firsts_on(Placement::Hash, shard_count as nat, firsts, s);
        let new_group = firsts_on(Placement::Hash, shard_count as nat, firsts.push(f), s);
        let old_groups = worker_groups(firsts, shard_count, (k - 1) as nat);
        let new_groups = worker_groups(firsts.push(f), shard_count, (k - 1) as nat);
        let extra_old = if old_group.len() > 0 { seq![(s, old_group)] } else { Seq::<(usize, Seq<u64>)>::empty() };
        let extra_new = if new_group.len() > 0 { seq![(s, new_group)] } else { Seq::<(usize, Seq<u64>)>::empty() };
        assert(worker_groups(firsts, shard_count, k) == old_groups + extra_old);
        assert(worker_groups(firsts.push(f), shard_count, k) == new_groups + extra_new);
        if worker_for(f, shard_count) == Some(s) {
            assert(new_group.len() == old_group.len() + 1);
        } else {
            assert(new_group == old_group);
        }
    }
}

/// Grouping first hops by worker never makes more groups than there are first hops, so a
/// batched query never sends more messages than a direct one.
pub proof fn lemma_groups_at_most_first_hops(firsts: Seq<u64>, shard_count: usize)
    requires
        shard_count > 0,
    ensures
        worker_groups(firsts, shard_count, shard_count as nat).len() <= firsts.len(),
    decreases firsts.len(),
{
    if firsts.len() == 0 {
        lemma_no_groups(firsts, shard_count, shard_count as nat);
    } else {
        let init = firsts.drop_last();
        lemma_groups_at_most_first_hops(init, shard_count);
        lemma_groups_push(init, firsts.last(), shard_count, shard_count as nat);
        assert(init.push(firsts.last()) =~= firsts);
    }
}

proof fn lemma_no_groups(firsts: Seq<u64>, shard_count: usize, k: nat)
    requires
        firsts.len() == 0,
    ensures
        worker_groups(firsts, shard_count, k).len() == 0,
    decreases k,
{
    if k > 0 {
        lemma_no_groups(firsts, shard_count, (k - 1) as nat);
        assert(firsts_on(Placement::Hash, shard_count as nat, firsts, (k - 1) as usize) =~= Seq::<u64>::empty());
    }
}

} // verus!
