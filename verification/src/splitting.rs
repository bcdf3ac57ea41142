use vstd::prelude::*;
use crate::error::GraphError;
use crate::graph::contains_id;
use crate::sharded::{Placement, ShardedGraph, placement_shard, balanced_error};
use crate::balanced::size_sum;
use crate::graph::added_edge;
use crate::text::{decimal, push_decimal};

verus! {

/// One community of a splitting plan and the chunks it is stored in.
#[derive(Debug, Clone)]
pub struct SplitCommunity {
    pub community_id: usize,
    pub original_size: u64,
    pub split_into: Vec<SplitChunk>,
}

/// A run of a community's users, `user_range.0 <= offset < user_range.1` within the
/// community, stored together on one shard.
#[derive(Debug, Clone, Copy)]
pub struct SplitChunk {
    pub shard_id: usize,
    pub user_range: (u64, u64),
    pub size: u64,
}

/// How each community is stored over `total_shards` shards.
#[derive(Debug, Clone)]
pub struct SplittingPlan {
    pub communities: Vec<SplitCommunity>,
    pub total_shards: usize,
}

/// The chunks of a community of `size` users cut into runs of `max_size` (the last one
/// shorter), the `i`-th on shard `i % shard_count`.
pub open spec fn split_chunks(size: u64, shard_count: usize, max_size: u64) -> Seq<SplitChunk>
    recommends
        max_size > 0,
        shard_count > 0,
{
    let count = (size + max_size - 1) / max_size as int;
    Seq::new(
        count as nat,
        |i: int| {
            let start = i * max_size;
            let len = if size - start < max_size { size - start } else { max_size as int };
            SplitChunk {
                shard_id: (i % shard_count as int) as usize,
                user_range: (start as u64, (start + len) as u64),
                size: len as u64,
            }
        },
    )
}

/// The chunks of community `community_id` of `size` users: one chunk on shard
/// `community_id % shard_count` when the community fits, else `split_chunks`.
pub open spec fn community_chunks(community_id: int, size: u64, shard_count: usize, max_size: u64) -> Seq<SplitChunk> {
    if size <= max_size {
        seq![SplitChunk {
            shard_id: (community_id % shard_count as int) as usize,
            user_range: (0u64, size),
            size,
        }]
    } else {
        split_chunks(size, shard_count, max_size)
    }
}

/// Why `community_sizes` cannot be planned over `shard_count` shards, checked in this order.
pub open spec fn splitting_error(community_sizes: Seq<u64>, shard_count: usize) -> Option<GraphError> {
    if shard_count == 0 {
        Some(GraphError::ZeroShardCount)
    } else if community_sizes.len() == 0 {
        Some(GraphError::EmptyCommunities)
    } else if community_sizes.contains(0) {
        Some(GraphError::ZeroCommunitySizes)
    } else {
        None
    }
}

/// The number of users over `chunks`.
pub open spec fn chunk_total(chunks: Seq<SplitChunk>) -> int
    decreases chunks.len(),
{
    if chunks.len() == 0 {
        0
    } else {
        chunk_total(chunks.drop_last()) + chunks.last().size
    }
}

/// Every chunk of `chunks` follows on from the previous one, from offset 0 to offset `size`,
/// and none is empty or longer than `max_size`.
pub open spec fn covers_exactly(chunks: Seq<SplitChunk>, size: u64, max_size: u64) -> bool {
    &&& chunks.len() > 0
    &&& chunks[0].user_range.0 == 0
    &&& chunks.last().user_range.1 == size
    &&& forall|i: int| 0 <= i < chunks.len() - 1 ==> (#[trigger] chunks[i]).user_range.1 == chunks[i + 1].user_range.0
    &&& forall|i: int| 0 <= i < chunks.len() ==> {
        &&& 0 < (#[trigger] chunks[i]).size <= max_size
        &&& chunks[i].user_range.1 == chunks[i].user_range.0 + chunks[i].size
    }
}

proof fn lemma_split_count(size: u64, max_size: u64)
    requires
        max_size > 0,
        size > max_size,
    ensures
        ({
            let count = (size + max_size - 1) / max_size as int;
            &&& count >= 2
            &&& (count - 1) * max_size < size
            &&& size <= count * max_size
        }),
{
    let count = (size + max_size - 1) / max_size as int;
    let m = max_size as int;
    let s = size as int;
    assert(count * m <= s + m - 1 && s + m - 1 < count * m + m) by (nonlinear_arith)
        requires
            count == (s + m - 1) / m,
            m > 0,
            s >= 0,
    ;
    assert(count >= 2) by (nonlinear_arith)
        requires
            count * m + m > s + m - 1,
            s > m,
            m > 0,
    ;
    assert((count - 1) * m < s) by (nonlinear_arith)
        requires
            count * m <= s + m - 1,
            m > 0,
    ;
    assert(s <= count * m) by (nonlinear_arith)
        requires
            s + m - 1 < count * m + m,
    ;
}

proof fn lemma_chunk_total_prefix(size: u64, shard_count: usize, max_size: u64, k: int)
    requires
        max_size > 0,
        shard_count > 0,
        size > max_size,
        0 <= k <= split_chunks(size, shard_count, max_size).len(),
    ensures
        chunk_total(split_chunks(size, shard_count, max_size).take(k)) == if k * max_size <= size {
            k * max_size
        } else {
            size as int
        },
    decreases k,
{
    let chunks = split_chunks(size, shard_count, max_size);
    lemma_split_count(size, max_size);
    if k > 0 {
        assert(chunks.take(k).drop_last() =~= chunks.take(k - 1));
        lemma_chunk_total_prefix(size, shard_count, max_size, k - 1);
        let m = max_size as int;
        assert((k - 1) * m + m == k * m) by (nonlinear_arith);
        assert((k - 1) * m < size) by (nonlinear_arith)
            requires
                k - 1 <= (size + m - 1) / m - 1,
                ((size + m - 1) / m - 1) * m < size,
                m > 0,
        ;
        assert(0 <= (k - 1) * m) by (nonlinear_arith)
            requires
                k >= 1,
                m > 0,
        ;
        let c = chunks[k - 1];
        assert(chunks.take(k).last() == c);
        assert(c.size == if size - (k - 1) * m < m { size - (k - 1) * m } else { m });
        assert(chunk_total(chunks.take(k)) == chunk_total(chunks.take(k - 1)) + c.size);
        if k * m <= size {
            assert(chunk_total(chunks.take(k)) == k * m);
        } else {
            assert(chunk_total(chunks.take(k)) == size);
        }
    } else {
        assert(chunks.take(0) =~= Seq::<SplitChunk>::empty());
        assert(0 * max_size == 0);
    }
}

/// Cutting a community into chunks covers it exactly: the chunks follow on from each other
/// from offset 0 to the community's size, each holds between 1 and `max_size` users, and
/// together they hold all of it.
pub proof fn lemma_split_chunks_cover(size: u64, shard_count: usize, max_size: u64)
    requires
        max_size > 0,
        shard_count > 0,
        size > max_size,
    ensures
        covers_exactly(split_chunks(size, shard_count, max_size), size, max_size),
        chunk_total(split_chunks(size, shard_count, max_size)) == size,
        forall|i: int| 0 <= i < split_chunks(size, shard_count, max_size).len()
            ==> (#[trigger] split_chunks(size, shard_count, max_size)[i]).shard_id < shard_count,
{
    let chunks = split_chunks(size, shard_count, max_size);
    let m = max_size as int;
    let count = (size + m - 1) / m;
    lemma_split_count(size, max_size);
    assert forall|i: int| 0 <= i < chunks.len() implies {
        &&& 0 < (#[trigger] chunks[i]).size <= max_size
        &&& chunks[i].user_range.1 == chunks[i].user_range.0 + chunks[i].size
        &&& chunks[i].shard_id < shard_count
    } by {
        assert(i * m <= (count - 1) * m) by (nonlinear_arith)
            requires
                i <= count - 1,
                m > 0,
        ;
        assert(0 <= i * m) by (nonlinear_arith)
            requires
                i >= 0,
                m > 0,
        ;
    }
    assert forall|i: int| 0 <= i < chunks.len() - 1 implies (#[trigger] chunks[i]).user_range.1 == chunks[i + 1].user_range.0 by {
        assert((i + 1) * m <= (count - 1) * m) by (nonlinear_arith)
            requires
                i + 1 <= count - 1,
                m > 0,
        ;
        assert(i * m + m == (i + 1) * m) by (nonlinear_arith);
    }
    assert(chunks.last().user_range.1 == size) by {
        assert((count - 1) * m + m == count * m) by (nonlinear_arith);
    }
    lemma_chunk_total_prefix(size, shard_count, max_size, count);
    assert(chunks.take(count) =~= chunks);
}

fn compute_split_chunks(size: u64, shard_count: usize, max_size: u64) -> (chunks: Vec<SplitChunk>)
    requires
        max_size > 0,
        shard_count > 0,
        size > max_size,
    ensures
        chunks@ == split_chunks(size, shard_count, max_size),
{
    let mut chunks: Vec<SplitChunk> = Vec::new();
    let chunk_size = if size < max_size { size } else { max_size };
    let ghost m = max_size as int;
    proof {
        assert(size % chunk_size != 0 ==> size / chunk_size + 1 <= u64::MAX) by (nonlinear_arith)
            requires
                chunk_size >= 1,
        {
            if size % chunk_size != 0 {
                assert(chunk_size >= 2);
                assert(size / chunk_size <= size / 2);
            }
        }
    }
    let num_chunks = size / chunk_size + if size % chunk_size == 0 { 0 } else { 1 };
    proof {
        lemma_split_count(size, max_size);
        let s = size as int;
        assert(num_chunks == (s + m - 1) / m) by (nonlinear_arith)
            requires
                num_chunks == s / m + if s % m == 0 { 0int } else { 1int },
                m > 0,
                s >= 0,
        ;
    }
    let mut offset: u64 = 0;
    let mut chunk_index: u64 = 0;
    while chunk_index < num_chunks
        invariant
            chunk_size == max_size,
            num_chunks == split_chunks(size, shard_count, max_size).len(),
            chunk_index <= num_chunks,
            m == max_size,
            chunk_index < num_chunks ==> offset == chunk_index * max_size,
            offset <= size,
            chunks@ == split_chunks(size, shard_count, max_size).take(chunk_index as int),
            max_size > 0,
            shard_count > 0,
            size > max_size,
            (num_chunks - 1) * max_size < size,
        decreases num_chunks - chunk_index,
    {
        let remaining = size - offset;
        let this_chunk_size = if remaining < chunk_size { remaining } else { chunk_size };
        proof {
            assert(chunk_index * m <= (num_chunks - 1) * m) by (nonlinear_arith)
                requires
                    chunk_index <= num_chunks - 1,
                    m > 0,
            ;
        }
        chunks.push(SplitChunk {
            shard_id: (chunk_index % (shard_count as u64)) as usize,
            user_range: (offset, offset + this_chunk_size),
            size: this_chunk_size,
        });
        proof {
            assert(chunks@ =~= split_chunks(size, shard_count, max_size).take(chunk_index + 1));
            assert(chunk_index * m + m == (chunk_index + 1) * m) by (nonlinear_arith);
            if chunk_index + 1 < num_chunks {
                assert((chunk_index + 1) * m <= (num_chunks - 1) * m) by (nonlinear_arith)
                    requires
                        chunk_index + 1 <= num_chunks - 1,
                        m > 0,
                ;
            }
        }
        offset = offset + this_chunk_size;
        chunk_index = chunk_index + 1;
    }
    proof {
        assert(split_chunks(size, shard_count, max_size).take(num_chunks as int) =~= split_chunks(size, shard_count, max_size));
    }
    chunks
}

/// The chunks of every community, in community order.
pub open spec fn planned_chunks(community_sizes: Seq<u64>, shard_count: usize, max_size: u64) -> Seq<Seq<SplitChunk>> {
    Seq::new(community_sizes.len(), |c: int| community_chunks(c, community_sizes[c], shard_count, max_size))
}

/// All chunks, community after community.
pub open spec fn flatten_chunks(chunks: Seq<Seq<SplitChunk>>) -> Seq<SplitChunk>
    decreases chunks.len(),
{
    if chunks.len() == 0 {
        Seq::empty()
    } else {
        flatten_chunks(chunks.drop_last()) + chunks.last()
    }
}

/// Every community of a plan is stored whole: its chunks follow on from each other from
/// offset 0 to its size, none is empty or over the limit (a community within the limit
/// stays in one chunk), together they hold its users, and each lies on an existing shard.
pub proof fn lemma_planned_chunks_cover(community_sizes: Seq<u64>, shard_count: usize, max_size: u64)
    requires
        splitting_error(community_sizes, shard_count) is None,
        max_size > 0,
    ensures
        forall|c: int| 0 <= c < community_sizes.len() ==> {
            let chunks = #[trigger] planned_chunks(community_sizes, shard_count, max_size)[c];
            &&& covers_exactly(chunks, community_sizes[c], max_size)
            &&& chunk_total(chunks) == community_sizes[c]
            &&& forall|i: int| 0 <= i < chunks.len() ==> (#[trigger] chunks[i]).shard_id < shard_count
            &&& community_sizes[c] <= max_size ==> chunks.len() == 1
        },
{
    assert forall|c: int| 0 <= c < community_sizes.len() implies {
        let chunks = #[trigger] planned_chunks(community_sizes, shard_count, max_size)[c];
        &&& covers_exactly(chunks, community_sizes[c], max_size)
        &&& chunk_total(chunks) == community_sizes[c]
        &&& forall|i: int| 0 <= i < chunks.len() ==> (#[trigger] chunks[i]).shard_id < shard_count
        &&& community_sizes[c] <= max_size ==> chunks.len() == 1
    } by {
        let size = community_sizes[c];
        assert(community_sizes.contains(size));
        if size > max_size {
            lemma_split_chunks_cover(size, shard_count, max_size);
        } else {
            let chunks = planned_chunks(community_sizes, shard_count, max_size)[c];
            assert(chunks.len() == 1);
            assert(chunks.drop_last() =~= Seq::<SplitChunk>::empty());
            assert(size != 0);
            assert(0 <= c % (shard_count as int) < shard_count);
            assert(chunks[0].shard_id < shard_count);
            assert(chunk_total(chunks) == chunk_total(chunks.drop_last()) + chunks[0].size);
        }
    }
}

/// Plans how each community is stored over `shard_count` shards: a community within
/// `max_community_size` users stays whole on shard `community_id % shard_count`; a larger
/// one is cut into chunks of `max_community_size` users (the last one shorter), the `i`-th
/// on shard `i % shard_count`.
pub fn plan_community_splitting(community_sizes: &[u64], shard_count: usize, max_community_size: u64) -> (result: Result<SplittingPlan, GraphError>)
    requires
        max_community_size > 0 || splitting_error(community_sizes@, shard_count) is Some,
    ensures
        match result {
            Err(e) => splitting_error(community_sizes@, shard_count) == Some(e),
            Ok(plan) => {
                &&& splitting_error(community_sizes@, shard_count) is None
                &&& plan.total_shards == shard_count
                &&& plan.communities@.len() == community_sizes@.len()
                &&& forall|c: int| 0 <= c < community_sizes@.len() ==> {
                    &&& (#[trigger] plan.communities@[c]).community_id == c
                    &&& plan.communities@[c].original_size == community_sizes@[c]
                    &&& plan.communities@[c].split_into@ == planned_chunks(community_sizes@, shard_count, max_community_size)[c]
                }
                &&& size_sum(community_sizes@) < u64::MAX ==> plan_fits(plan.communities@)
            },
        },
{
    if shard_count == 0 {
        return Err(GraphError::ZeroShardCount);
    }
    if community_sizes.len() == 0 {
        return Err(GraphError::EmptyCommunities);
    }
    if contains_id(community_sizes, 0) {
        return Err(GraphError::ZeroCommunitySizes);
    }
    let mut communities: Vec<SplitCommunity> = Vec::new();
    for community_id in 0..community_sizes.len()
        invariant
            shard_count > 0,
            max_community_size > 0,
            !community_sizes@.contains(0),
            communities@.len() == community_id,
            forall|c: int| 0 <= c < community_id ==> {
                &&& (#[trigger] communities@[c]).community_id == c
                &&& communities@[c].original_size == community_sizes@[c]
                &&& communities@[c].split_into@ == planned_chunks(community_sizes@, shard_count, max_community_size)[c]
            },
    {
        let size = community_sizes[community_id];
        if size <= max_community_size {
            let mut split_into: Vec<SplitChunk> = Vec::new();
            split_into.push(SplitChunk { shard_id: community_id % shard_count, user_range: (0, size), size });
            proof {
                assert(split_into@ =~= community_chunks(community_id as int, size, shard_count, max_community_size));
            }
            communities.push(SplitCommunity { community_id, original_size: size, split_into });
        } else {
            let chunks = compute_split_chunks(size, shard_count, max_community_size);
            communities.push(SplitCommunity { community_id, original_size: size, split_into: chunks });
        }
    }
    proof {
        if size_sum(community_sizes@) < u64::MAX {
            lemma_plan_fits(community_sizes@, shard_count, max_community_size, communities@);
        }
    }
    Ok(SplittingPlan { communities, total_shards: shard_count })
}

/// The placement that stores each chunk of the plan as a community of its own, chunk after
/// chunk.
pub fn create_split_placement(community_sizes: &[u64], shard_count: usize, max_community_size: u64) -> (result: Result<Placement, GraphError>)
    requires
        max_community_size > 0 || splitting_error(community_sizes@, shard_count) is Some,
    ensures
        match result {
            Err(e) => splitting_error(community_sizes@, shard_count) == Some(e),
            Ok(placement) => splitting_error(community_sizes@, shard_count) is None && (placement matches Placement::BalancedCommunity {
                community_sizes: sizes,
                community_to_shard: shards,
            } && {
                let chunks = flatten_chunks(planned_chunks(community_sizes@, shard_count, max_community_size));
                &&& sizes@ == chunks.map_values(|chunk: SplitChunk| chunk.size)
                &&& shards@ == chunks.map_values(|chunk: SplitChunk| chunk.shard_id)
            }),
        },
{
    let plan = match plan_community_splitting(community_sizes, shard_count, max_community_size) {
        Ok(plan) => plan,
        Err(e) => {
            return Err(e);
        },
    };
    let ghost planned = planned_chunks(community_sizes@, shard_count, max_community_size);
    let mut pseudo_sizes: Vec<u64> = Vec::new();
    let mut pseudo_shards: Vec<usize> = Vec::new();
    proof {
        assert(planned.take(0) =~= Seq::<Seq<SplitChunk>>::empty());
    }
    for c in 0..plan.communities.len()
        invariant
            plan.communities@.len() == planned.len(),
            planned == planned_chunks(community_sizes@, shard_count, max_community_size),
            planned.len() == community_sizes@.len(),
            forall|k: int| 0 <= k < planned.len() ==> (#[trigger] plan.communities@[k]).split_into@ == planned[k],
            pseudo_sizes@ == flatten_chunks(planned.take(c as int)).map_values(|chunk: SplitChunk| chunk.size),
            pseudo_shards@ == flatten_chunks(planned.take(c as int)).map_values(|chunk: SplitChunk| chunk.shard_id),
    {
        let chunks = &plan.communities[c].split_into;
        let ghost before = flatten_chunks(planned.take(c as int));
        proof {
            assert(planned.take(c + 1).drop_last() =~= planned.take(c as int));
            assert(chunks@ == planned[c as int]);
        }
        for k in 0..chunks.len()
            invariant
                chunks@ == planned[c as int],
                pseudo_sizes@ == (before + chunks@.take(k as int)).map_values(|chunk: SplitChunk| chunk.size),
                pseudo_shards@ == (before + chunks@.take(k as int)).map_values(|chunk: SplitChunk| chunk.shard_id),
        {
            pseudo_sizes.push(chunks[k].size);
            pseudo_shards.push(chunks[k].shard_id);
            proof {
                assert(before + chunks@.take(k + 1) =~= (before + chunks@.take(k as int)).push(chunks@[k as int]));
                assert(pseudo_sizes@ =~= (before + chunks@.take(k + 1)).map_values(|chunk: SplitChunk| chunk.size));
                assert(pseudo_shards@ =~= (before + chunks@.take(k + 1)).map_values(|chunk: SplitChunk| chunk.shard_id));
            }
        }
        proof {
            assert(chunks@.take(chunks@.len() as int) =~= chunks@);
        }
    }
    proof {
        assert(planned.take(planned.len() as int) =~= planned);
    }
    Ok(Placement::BalancedCommunity { community_sizes: pseudo_sizes, community_to_shard: pseudo_shards })
}

/// The community sizes a plan stores, in order.
pub open spec fn plan_sizes(communities: Seq<SplitCommunity>) -> Seq<u64> {
    communities.map_values(|c: SplitCommunity| c.original_size)
}

/// The shard of each community's first chunk (shard 0 for a community without chunks).
pub open spec fn plan_primaries(communities: Seq<SplitCommunity>) -> Seq<usize> {
    communities.map_values(|c: SplitCommunity| if c.split_into@.len() > 0 { c.split_into@[0].shard_id } else { 0usize })
}

/// Why a plan cannot be stored over `shard_count` shards, checked in this order.
pub open spec fn plan_error(shard_count: usize, communities: Seq<SplitCommunity>) -> Option<GraphError> {
    if shard_count == 0 {
        Some(GraphError::ZeroShardCount)
    } else {
        balanced_error(shard_count as nat, plan_sizes(communities), plan_primaries(communities))
    }
}

/// The first user ID of community `id`: one after the users of the communities before it.
pub open spec fn community_base(communities: Seq<SplitCommunity>, id: int) -> int {
    size_sum(plan_sizes(communities).take(id)) + 1
}

/// The user IDs of `chunks`, chunk after chunk, counted from `base`.
pub open spec fn chunk_ids(base: int, chunks: Seq<SplitChunk>) -> Seq<u64>
    decreases chunks.len(),
{
    if chunks.len() == 0 {
        Seq::empty()
    } else {
        let c = chunks.last();
        chunk_ids(base, chunks.drop_last()) + Seq::new(c.size as nat, |o: int| (base + c.user_range.0 + o) as u64)
    }
}

/// The user IDs of the first `k` communities of a plan.
pub open spec fn plan_user_ids(communities: Seq<SplitCommunity>, k: int) -> Seq<u64>
    decreases k,
{
    if k <= 0 {
        Seq::empty()
    } else {
        let c = communities[k - 1];
        plan_user_ids(communities, k - 1) + chunk_ids(community_base(communities, c.community_id as int), c.split_into@)
    }
}

/// Every user ID a plan names fits in a `u64`.
pub open spec fn plan_fits(communities: Seq<SplitCommunity>) -> bool {
    forall|c: int| 0 <= c < communities.len() ==> {
        let base = community_base(communities, (#[trigger] communities[c]).community_id as int);
        &&& communities[c].community_id <= communities.len()
        &&& base <= u64::MAX
        &&& forall|k: int| 0 <= k < communities[c].split_into@.len() && (#[trigger] communities[c].split_into@[k]).size > 0
            ==> base + communities[c].split_into@[k].user_range.0 + communities[c].split_into@[k].size - 1 <= u64::MAX
    }
}

/// The name given to user `id`: `user-` and its decimal digits.
pub open spec fn user_label(id: u64) -> Seq<char> {
    seq!['u', 's', 'e', 'r', '-'] + decimal(id as nat)
}

/// `names` after adding each of `ids` that the placement gives a shard and that is not
/// there yet, named by `user_label`.
pub open spec fn names_after(names: Map<u64, Seq<char>>, ids: Seq<u64>, p: Placement, n: nat) -> Map<u64, Seq<char>>
    decreases ids.len(),
{
    if ids.len() == 0 {
        names
    } else {
        let prev = names_after(names, ids.drop_last(), p, n);
        let id = ids.last();
        if id != 0 && placement_shard(p, n, id) is Some && !prev.contains_key(id) {
            prev.insert(id, user_label(id))
        } else {
            prev
        }
    }
}

/// `adjacency` after adding each of `edges` whose two users are in `users`.
pub open spec fn follows_after(adjacency: Map<u64, Seq<u64>>, users: Set<u64>, edges: Seq<(u64, u64)>) -> Map<u64, Seq<u64>>
    decreases edges.len(),
{
    if edges.len() == 0 {
        adjacency
    } else {
        let prev = follows_after(adjacency, users, edges.drop_last());
        let (source, target) = edges.last();
        if users.contains(source) && users.contains(target) {
            added_edge(prev, source, target)
        } else {
            prev
        }
    }
}

fn user_label_string(id: u64) -> (label: String)
    ensures
        label@ == user_label(id),
{
    let mut label = String::from_str("user-");
    proof {
        reveal_strlit("user-");
    }
    push_decimal(&mut label, id);
    label
}

/// The users of the communities before community `id`.
fn users_before(communities: &Vec<SplitCommunity>, id: usize) -> (total: u64)
    requires
        id <= communities@.len(),
        community_base(communities@, id as int) <= u64::MAX,
    ensures
        total + 1 == community_base(communities@, id as int),
{
    let mut total: u64 = 0;
    let mut i: usize = 0;
    while i < id
        invariant
            i <= id <= communities@.len(),
            community_base(communities@, id as int) <= u64::MAX,
            total == size_sum(plan_sizes(communities@).take(i as int)),
        decreases id - i,
    {
        proof {
            assert(plan_sizes(communities@).take(i + 1).drop_last() =~= plan_sizes(communities@).take(i as int));
            crate::sharded::lemma_size_sum_prefix(plan_sizes(communities@).take(id as int), i + 1);
            assert(plan_sizes(communities@).take(id as int).take(i + 1) =~= plan_sizes(communities@).take(i + 1));
        }
        total = total + communities[i].original_size;
        i = i + 1;
    }
    total
}

/// Builds the sharded graph a plan describes: each community stored as one placement
/// community on its first chunk's shard, every user of every chunk added (named
/// `user-<id>`), then every edge whose users exist.
pub fn apply_splitting_plan(shard_count: usize, plan: &SplittingPlan, edges: &[(u64, u64)]) -> (result: Result<ShardedGraph, GraphError>)
    requires
        plan_error(shard_count, plan.communities@) is None ==> plan_fits(plan.communities@),
    ensures
        match result {
            Err(e) => plan_error(shard_count, plan.communities@) == Some(e),
            Ok(graph) => {
                &&& plan_error(shard_count, plan.communities@) is None
                &&& graph.wf()
                &&& graph.shard_count_spec() == shard_count
                &&& graph.spec_placement() matches Placement::BalancedCommunity { community_sizes, community_to_shard }
                    && community_sizes@ == plan_sizes(plan.communities@)
                    && community_to_shard@ == plan_primaries(plan.communities@)
                &&& graph.cache_list() is None
                &&& graph.replicated() == Set::<u64>::empty()
                &&& forall|i: int| 0 <= i < shard_count ==> #[trigger] graph.observed()[i] == Map::<u64, u64>::empty()
                &&& graph.logical_names() == names_after(
                    Map::empty(),
                    plan_user_ids(plan.communities@, plan.communities@.len() as int),
                    graph.spec_placement(),
                    shard_count as nat,
                )
                &&& graph.logical_adjacency() == follows_after(Map::empty(), graph.logical_names().dom(), edges@)
            },
        },
{
    let mut placement_map: Vec<usize> = Vec::new();
    let mut community_sizes: Vec<u64> = Vec::new();
    for c in 0..plan.communities.len()
        invariant
            community_sizes@ == plan_sizes(plan.communities@.take(c as int)),
            placement_map@ == plan_primaries(plan.communities@.take(c as int)),
    {
        community_sizes.push(plan.communities[c].original_size);
        let primary = if plan.communities[c].split_into.len() > 0 {
            plan.communities[c].split_into[0].shard_id
        } else {
            0
        };
        placement_map.push(primary);
        proof {
            assert(community_sizes@ =~= plan_sizes(plan.communities@.take(c + 1)));
            assert(placement_map@ =~= plan_primaries(plan.communities@.take(c + 1)));
        }
    }
    proof {
        assert(plan.communities@.take(plan.communities@.len() as int) =~= plan.communities@);
    }
    let placement = Placement::BalancedCommunity { community_sizes, community_to_shard: placement_map };
    let ghost p = placement;
    let mut graph = match ShardedGraph::with_placement(shard_count, placement) {
        Ok(graph) => graph,
        Err(e) => {
            return Err(e);
        },
    };
    let ghost communities = plan.communities@;
    let ghost mut ids: Seq<u64> = Seq::empty();
    proof {
        graph.lemma_fresh_is_empty(shard_count as nat, p);
    }
    for c in 0..plan.communities.len()
        invariant
            communities == plan.communities@,
            plan_fits(communities),
            graph.wf(),
            graph.shard_count_spec() == shard_count,
            graph.spec_placement() == p,
            graph.cache_list() is None,
            graph.replicated() == Set::<u64>::empty(),
            forall|i: int| 0 <= i < shard_count ==> #[trigger] graph.observed()[i] == Map::<u64, u64>::empty(),
            graph.logical_adjacency() == Map::<u64, Seq<u64>>::empty(),
            ids == plan_user_ids(communities, c as int),
            graph.logical_names() == names_after(Map::empty(), ids, p, shard_count as nat),
    {
        let community = &plan.communities[c];
        let base: u64 = users_before(&plan.communities, community.community_id) + 1;
        let chunks = &community.split_into;
        let ghost before = ids;
        proof {
            assert(chunks@.take(0) =~= Seq::<SplitChunk>::empty());
            assert(before + chunk_ids(base as int, chunks@.take(0)) =~= before);
        }
        for k in 0..chunks.len()
            invariant
                communities == plan.communities@,
                plan_fits(communities),
                0 <= c < communities.len(),
                community == communities[c as int],
                chunks@ == community.split_into@,
                base == community_base(communities, community.community_id as int),
                graph.wf(),
                graph.shard_count_spec() == shard_count,
                graph.spec_placement() == p,
                graph.cache_list() is None,
                graph.replicated() == Set::<u64>::empty(),
                forall|i: int| 0 <= i < shard_count ==> #[trigger] graph.observed()[i] == Map::<u64, u64>::empty(),
                graph.logical_adjacency() == Map::<u64, Seq<u64>>::empty(),
                before == plan_user_ids(communities, c as int),
                ids == before + chunk_ids(base as int, chunks@.take(k as int)),
                graph.logical_names() == names_after(Map::empty(), ids, p, shard_count as nat),
        {
            let chunk = chunks[k];
            let ghost mid = ids;
            let mut offset: u64 = 0;
            proof {
                assert(mid + Seq::new(0nat, |o: int| (base + chunk.user_range.0 + o) as u64) =~= mid);
                assert(communities[c as int].split_into@[k as int] == chunk);
            }
            while offset < chunk.size
                invariant
                    communities == plan.communities@,
                    plan_fits(communities),
                    0 <= c < communities.len(),
                    0 <= k < communities[c as int].split_into@.len(),
                    communities[c as int].split_into@[k as int] == chunk,
                    base == community_base(communities, communities[c as int].community_id as int),
                    offset <= chunk.size,
                    graph.wf(),
                    graph.shard_count_spec() == shard_count,
                    graph.spec_placement() == p,
                    graph.cache_list() is None,
                    graph.replicated() == Set::<u64>::empty(),
                    forall|i: int| 0 <= i < shard_count ==> #[trigger] graph.observed()[i] == Map::<u64, u64>::empty(),
                    graph.logical_adjacency() == Map::<u64, Seq<u64>>::empty(),
                    ids == mid + Seq::new(offset as nat, |o: int| (base + chunk.user_range.0 + o) as u64),
                    graph.logical_names() == names_after(Map::empty(), ids, p, shard_count as nat),
                decreases chunk.size - offset,
            {
                assert(chunk.size > 0);
                let user_id = base + chunk.user_range.0 + offset;
                let label = user_label_string(user_id);
                let _ = graph.add_user(user_id, label.as_str());
                proof {
                    let next = mid + Seq::new((offset + 1) as nat, |o: int| (base + chunk.user_range.0 + o) as u64);
                    assert(next =~= ids.push(user_id));
                    assert(ids.push(user_id).drop_last() =~= ids);
                    ids = ids.push(user_id);
                }
                offset = offset + 1;
            }
            proof {
                assert(chunks@.take(k + 1).drop_last() =~= chunks@.take(k as int));
                assert(chunks@.take(k + 1).last() == chunk);
                assert(ids =~= before + chunk_ids(base as int, chunks@.take(k + 1)));
            }
        }
        proof {
            assert(chunks@.take(chunks@.len() as int) =~= chunks@);
        }
    }
    let ghost users = graph.logical_names().dom();
    let ghost names = graph.logical_names();
    proof {
        assert(edges@.take(0) =~= Seq::<(u64, u64)>::empty());
    }
    for e in 0..edges.len()
        invariant
            graph.wf(),
            graph.shard_count_spec() == shard_count,
            graph.spec_placement() == p,
            graph.cache_list() is None,
            graph.replicated() == Set::<u64>::empty(),
            forall|i: int| 0 <= i < shard_count ==> #[trigger] graph.observed()[i] == Map::<u64, u64>::empty(),
            graph.logical_names() == names,
            users == names.dom(),
            graph.logical_adjacency() == follows_after(Map::empty(), users, edges@.take(e as int)),
    {
        let (source, target) = edges[e];
        let _ = graph.add_follow(source, target);
        proof {
            assert(edges@.take(e + 1).drop_last() =~= edges@.take(e as int));
            assert(edges@.take(e + 1).last() == (source, target));
        }
    }
    proof {
        assert(edges@.take(edges@.len() as int) =~= edges@);
    }
    Ok(graph)
}

} // verus!

verus! {

proof fn lemma_chunk_end_le_last(chunks: Seq<SplitChunk>, size: u64, max_size: u64, i: int)
    requires
        covers_exactly(chunks, size, max_size),
        0 <= i < chunks.len(),
    ensures
        chunks[i].user_range.1 <= size,
    decreases chunks.len() - i,
{
    if i < chunks.len() - 1 {
        lemma_chunk_end_le_last(chunks, size, max_size, i + 1);
        assert(chunks[i].user_range.1 == chunks[i + 1].user_range.0);
        assert(chunks[i + 1].user_range.1 == chunks[i + 1].user_range.0 + chunks[i + 1].size);
    }
}

/// The plan for communities whose sizes add up to less than `u64::MAX` numbers every user
/// of every chunk within `u64`.
pub proof fn lemma_plan_fits(community_sizes: Seq<u64>, shard_count: usize, max_size: u64, communities: Seq<SplitCommunity>)
    requires
        splitting_error(community_sizes, shard_count) is None,
        max_size > 0,
        size_sum(community_sizes) < u64::MAX,
        communities.len() == community_sizes.len(),
        forall|c: int| 0 <= c < community_sizes.len() ==> {
            &&& (#[trigger] communities[c]).community_id == c
            &&& communities[c].original_size == community_sizes[c]
            &&& communities[c].split_into@ == planned_chunks(community_sizes, shard_count, max_size)[c]
        },
    ensures
        plan_fits(communities),
{
    lemma_planned_chunks_cover(community_sizes, shard_count, max_size);
    assert(plan_sizes(communities) =~= community_sizes);
    assert forall|c: int| 0 <= c < communities.len() implies {
        let base = community_base(communities, (#[trigger] communities[c]).community_id as int);
        &&& communities[c].community_id <= communities.len()
        &&& base <= u64::MAX
        &&& forall|k: int| 0 <= k < communities[c].split_into@.len() && (#[trigger] communities[c].split_into@[k]).size > 0
            ==> base + communities[c].split_into@[k].user_range.0 + communities[c].split_into@[k].size - 1 <= u64::MAX
    } by {
        let chunks = planned_chunks(community_sizes, shard_count, max_size)[c];
        assert(covers_exactly(chunks, community_sizes[c], max_size));
        assert(community_sizes.take(c + 1).drop_last() =~= community_sizes.take(c));
        crate::sharded::lemma_size_sum_prefix(community_sizes, c + 1);
        assert(size_sum(community_sizes.take(c + 1)) == size_sum(community_sizes.take(c)) + community_sizes[c]);
        assert forall|k: int| 0 <= k < chunks.len() implies (#[trigger] chunks[k]).user_range.1 <= community_sizes[c] by {
            lemma_chunk_end_le_last(chunks, community_sizes[c], max_size, k);
        }
    }
}

} // verus!
