use vstd::prelude::*;

verus! {

/// Moving one user from one shard to another.
#[derive(Debug, Clone)]
pub struct RebalanceAction {
    pub user_id: u64,
    pub from_shard: usize,
    pub to_shard: usize,
}

/// The moves of a rebalancing and the user count each shard ends with.
#[derive(Debug, Clone)]
pub struct RebalancePlan {
    pub actions: Vec<RebalanceAction>,
    pub target_shard_counts: Vec<usize>,
}

/// Position `i` holds the smallest count, and no earlier position does.
pub open spec fn is_first_least(counts: Seq<usize>, i: int) -> bool {
    &&& 0 <= i < counts.len()
    &&& forall|j: int| 0 <= j < counts.len() ==> counts[i] <= #[trigger] counts[j]
    &&& forall|j: int| 0 <= j < i ==> counts[i] < #[trigger] counts[j]
}

/// The first position of the smallest count; 0 when there are no counts.
pub open spec fn least_loaded(counts: Seq<usize>) -> int {
    if counts.len() == 0 {
        0
    } else {
        choose|i: int| #[trigger] is_first_least(counts, i)
    }
}

/// The shard holding the fewest users (the first of them on a tie); shard 0 when there are
/// no shards.
pub fn find_least_loaded_shard(counts: &[usize]) -> (shard: usize)
    ensures
        shard == least_loaded(counts@),
        counts@.len() > 0 ==> shard < counts@.len(),
{
    if counts.len() == 0 {
        return 0;
    }
    let mut best: usize = 0;
    for i in 1..counts.len()
        invariant
            counts@.len() > 0,
            best < i <= counts@.len(),
            forall|j: int| 0 <= j < i ==> counts@[best as int] <= #[trigger] counts@[j],
            forall|j: int| 0 <= j < best ==> counts@[best as int] < #[trigger] counts@[j],
    {
        if counts[i] < counts[best] {
            best = i;
        }
    }
    proof {
        assert(is_first_least(counts@, best as int));
        let c = least_loaded(counts@);
        assert(0 <= c < counts@.len());
        if c < best {
            assert(counts@[best as int] < counts@[c]);
        } else if c > best {
            assert(counts@[c] < counts@[best as int]);
        }
    }
    best
}

} // verus!
