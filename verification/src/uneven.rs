use vstd::prelude::*;
use std::collections::HashSet;
use rand::{Rng, SeedableRng};
use rand::rngs::StdRng;
use crate::balanced::size_sum;
use crate::workload::CommunityWorkload;
use crate::text::{decimal, push_decimal, push_str};
use crate::sharded::lemma_size_sum_prefix;

verus! {

broadcast use vstd::std_specs::hash::group_hash_axioms;

/// The seeded random number generator of the `rand` crate.
#[verifier::external_type_specification]
#[verifier::external_body]
pub struct ExStdRng(StdRng);

/// The random source of the workload generator: a `StdRng` seeded from `seed()`, together
/// with every range `(low, high)` requested from it so far, in order.
pub struct Draws {
    rng: StdRng,
    seed: Ghost<u64>,
    requested: Ghost<Seq<(u64, u64)>>,
}

impl Draws {
    pub closed spec fn seed(&self) -> u64 {
        self.seed@
    }

    pub closed spec fn requested(&self) -> Seq<(u64, u64)> {
        self.requested@
    }

    /// `StdRng::seed_from_u64(seed)`: a generator seeded with `seed`, from which nothing has
    /// been requested yet. Nothing is claimed of the draws it will give.
    #[verifier::external_body]
    fn seeded(seed: u64) -> (draws: Self)
        ensures
            draws.seed() == seed,
            draws.requested() == Seq::<(u64, u64)>::empty(),
    {
        Draws { rng: StdRng::seed_from_u64(seed), seed: Ghost(seed), requested: Ghost(Seq::empty()) }
    }

    /// `Rng::gen_range(low..=high)`: some value between `low` and `high`, both included, and
    /// the range `(low, high)` is recorded as requested. Which value depends on the
    /// generator's state; nothing more is claimed of it.
    #[verifier::external_body]
    fn draw(&mut self, low: u64, high: u64) -> (value: u64)
        requires
            low <= high,
        ensures
            low <= value <= high,
            final(self).seed() == old(self).seed(),
            final(self).requested() == old(self).requested().push((low, high)),
    {
        self.rng.gen_range(low..=high)
    }
}

pub open spec fn community_start(sizes: Seq<u64>, c: int) -> int {
    size_sum(sizes.take(c)) + 1
}

/// The last user ID of community `c`.
pub open spec fn community_end(sizes: Seq<u64>, c: int) -> int {
    size_sum(sizes.take(c + 1))
}

/// Why a community of `size` users, among `total` users, cannot give each of its users
/// `local` local and `external` external targets, checked in that order.
pub open spec fn community_issue(size: u64, total: int, local: u64, external: u64) -> Option<Seq<char>> {
    if local > size - 1 {
        Some(
            "A community of size "@ + decimal(size as nat) + " cannot provide "@ + decimal(local as nat)
                + " unique local targets per user"@,
        )
    } else if external > total - size {
        Some(
            "A community of size "@ + decimal(size as nat) + " cannot provide "@ + decimal(external as nat)
                + " unique external targets per user"@,
        )
    } else {
        None
    }
}

/// The issue of the first of the first `k` communities that has one.
pub open spec fn first_issue(sizes: Seq<u64>, k: int, total: int, local: u64, external: u64) -> Option<Seq<char>>
    decreases k,
{
    if k <= 0 {
        None
    } else {
        match first_issue(sizes, k - 1, total, local, external) {
            Some(m) => Some(m),
            None => community_issue(sizes[k - 1], total, local, external),
        }
    }
}

/// Why the workload cannot be generated, as the message the generator gives.
pub open spec fn workload_error(sizes: Seq<u64>, edges_per_user: u64, local: u64) -> Option<Seq<char>> {
    if sizes.len() == 0 {
        Some("At least one community is required"@)
    } else if sizes.contains(0) {
        Some("Community sizes must be greater than zero"@)
    } else if local > edges_per_user {
        Some("Local edges cannot exceed total edges per user"@)
    } else if size_sum(sizes) > u64::MAX {
        Some("Total user count is too large"@)
    } else {
        first_issue(sizes, sizes.len() as int, size_sum(sizes), local, (edges_per_user - local) as u64)
    }
}

/// The message given when the random draws never complete the workload.
pub open spec fn exhausted_message() -> Seq<char> {
    "Random sampling did not complete the workload"@
}

/// The edges of `source`, which lies in `start..=end`, are valid: the first `local` lead to
/// other users of `start..=end`, the rest to users of `1..=total` outside it, and no target
/// repeats.
pub open spec fn block_ok(block: Seq<(u64, u64)>, source: int, local: int, start: int, end: int, total: int) -> bool {
    &&& forall|j: int| 0 <= j < block.len() ==> (#[trigger] block[j]).0 == source
    &&& forall|j: int| 0 <= j < block.len() && j < local ==> start <= (#[trigger] block[j]).1 <= end && block[j].1 != source
    &&& forall|j: int| 0 <= j < block.len() && j >= local ==> 1 <= (#[trigger] block[j]).1 <= total && ((block[j].1 as int) < start
        || block[j].1 > end)
    &&& forall|j1: int, j2: int| 0 <= j1 < j2 < block.len() ==> (#[trigger] block[j1]).1 != (#[trigger] block[j2]).1
}

/// The edges of user `u`, the `u`-th block of `edges_per_user`.
pub open spec fn user_block(edges: Seq<(u64, u64)>, edges_per_user: int, u: int) -> Seq<(u64, u64)> {
    edges.subrange((u - 1) * edges_per_user, u * edges_per_user)
}

fn message_of(text: &str) -> (message: String)
    ensures
        message@ == text@,
{
    String::from_str(text)
}

fn issue_message(size: u64, count: u64, kind: &str) -> (message: String)
    ensures
        message@ == "A community of size "@ + decimal(size as nat) + " cannot provide "@ + decimal(count as nat) + kind@,
{
    let mut message = String::from_str("A community of size ");
    push_decimal(&mut message, size);
    push_str(&mut message, " cannot provide ");
    push_decimal(&mut message, count);
    push_str(&mut message, kind);
    message
}

/// Whether a drawn `target` joins the edges of `source`: while local edges are drawn
/// (`local_phase`), any user other than `source`; afterwards, any user outside
/// `start..=end`; in both phases only a user not `selected` already.
pub open spec fn draw_accepted(target: u64, source: u64, start: u64, end: u64, local_phase: bool, selected: Set<u64>) -> bool {
    &&& if local_phase { target != source } else { target < start || target > end }
    &&& !selected.contains(target)
}

/// Decides whether the drawn `target` becomes the next edge of `source` (see
/// `draw_accepted`).
pub fn accepts_draw(target: u64, source: u64, start: u64, end: u64, local_phase: bool, selected: &HashSet<u64>) -> (accepted: bool)
    ensures
        accepted == draw_accepted(target, source, start, end, local_phase, selected@),
{
    let qualifies = if local_phase { target != source } else { target < start || target > end };
    qualifies && !selected.contains(&target)
}

/// A range the workload generator may request for communities of `sizes`: a community's ID
/// range when local edges are wanted, every user's ID when external edges are wanted.
pub open spec fn requested_range_ok(sizes: Seq<u64>, edges_per_user: u64, local: u64, range: (u64, u64)) -> bool {
    ||| local > 0 && exists|c: int| 0 <= c < sizes.len() && range.0 == #[trigger] community_start(sizes, c)
        && range.1 == community_end(sizes, c)
    ||| edges_per_user - local > 0 && range.0 == 1 && range.1 == size_sum(sizes)
}

/// A range requested while drawing the edges of a user of `start..=end`: the user's
/// community while local edges are wanted, every user while external edges are wanted.
pub open spec fn block_range_ok(range: (u64, u64), start: u64, end: u64, total: u64, local: u64, external: u64) -> bool {
    ||| local > 0 && range == (start, end)
    ||| external > 0 && range == (1u64, total)
}

/// Draws the edges of `source`, which lies in `start..=end`: first `local` distinct other
/// users of `start..=end`, then `external` distinct users of `1..=total` outside it, each
/// redrawn until it qualifies. Gives up (returning `false`) when `budget` draws run out.
fn generate_block(
    draws: &mut Draws,
    edges: &mut Vec<(u64, u64)>,
    budget: &mut u64,
    source: u64,
    start: u64,
    end: u64,
    total: u64,
    local: u64,
    external: u64,
) -> (done: bool)
    requires
        1 <= start <= source <= end <= total,
    ensures
        final(edges)@.take(old(edges)@.len() as int) == old(edges)@,
        done ==> final(edges)@.len() == old(edges)@.len() + local + external
            && block_ok(final(edges)@.skip(old(edges)@.len() as int), source as int, local as int, start as int, end as int, total as int),
        !done ==> *final(budget) == 0 && final(edges)@.len() < old(edges)@.len() + local + external,
        final(edges)@.len() >= old(edges)@.len(),
        final(edges)@.len() - old(edges)@.len() <= *old(budget) - *final(budget),
        local + external == 0 ==> done && *final(budget) == *old(budget),
        final(draws).seed() == old(draws).seed(),
        final(draws).requested().take(old(draws).requested().len() as int) == old(draws).requested(),
        final(draws).requested().len() == old(draws).requested().len() + (*old(budget) - *final(budget)),
        forall|i: int| old(draws).requested().len() <= i < final(draws).requested().len()
            ==> block_range_ok(#[trigger] final(draws).requested()[i], start, end, total, local, external),
{
    let ghost base = edges@.len();
    proof {
        assert(draws.requested().take(draws.requested().len() as int) =~= draws.requested());
    }
    let mut selected: HashSet<u64> = HashSet::new();
    let mut added: u64 = 0;
    proof {
        assert(edges@.skip(base as int) =~= Seq::<(u64, u64)>::empty());
        assert(edges@.take(base as int) =~= edges@);
    }
    while added < local
        invariant
            1 <= start <= source <= end <= total,
            added <= local,
            base <= edges@.len(),
            edges@.take(base as int) == old(edges)@,
            base == old(edges)@.len(),
            edges@.len() == base + added,
            *budget <= *old(budget),
            added <= *old(budget) - *budget,
            local + external == 0 ==> *budget == *old(budget),
            draws.seed() == old(draws).seed(),
            draws.requested().take(old(draws).requested().len() as int) == old(draws).requested(),
            draws.requested().len() == old(draws).requested().len() + (*old(budget) - *budget),
            forall|i: int| old(draws).requested().len() <= i < draws.requested().len()
                ==> block_range_ok(#[trigger] draws.requested()[i], start, end, total, local, external),
            block_ok(edges@.skip(base as int), source as int, local as int, start as int, end as int, total as int),
            forall|t: u64| #[trigger] selected@.contains(t) <==> edges@.skip(base as int).map_values(|e: (u64, u64)| e.1).contains(t),
        decreases *budget,
    {
        if *budget == 0 {
            return false;
        }
        *budget = *budget - 1;
        let ghost before = draws.requested();
        let target = draws.draw(start, end);
        proof {
            assert(draws.requested().take(old(draws).requested().len() as int)
                =~= before.take(old(draws).requested().len() as int));
        }
        if accepts_draw(target, source, start, end, true, &selected) {
            selected.insert(target);
            let ghost before = edges@;
            edges.push((source, target));
            added = added + 1;
            proof {
                let block = edges@.skip(base as int);
                let prev = before.skip(base as int);
                assert(block =~= prev.push((source, target)));
                assert(edges@.take(base as int) =~= before.take(base as int));
                assert(!prev.map_values(|e: (u64, u64)| e.1).contains(target));
                assert forall|j1: int, j2: int| 0 <= j1 < j2 < block.len() implies (#[trigger] block[j1]).1 != (#[trigger] block[j2]).1 by {
                    if j2 == block.len() - 1 {
                        assert(prev.map_values(|e: (u64, u64)| e.1)[j1] == block[j1].1);
                    } else {
                        assert(block[j1] == prev[j1] && block[j2] == prev[j2]);
                    }
                }
                let m = prev.map_values(|e: (u64, u64)| e.1);
                let m2 = block.map_values(|e: (u64, u64)| e.1);
                assert(m2 =~= m.push(target));
                assert forall|t: u64| #[trigger] selected@.contains(t) <==> m2.contains(t) by {
                    if m2.contains(t) {
                        let k = choose|k: int| 0 <= k < m2.len() && m2[k] == t;
                        if k < m.len() {
                            assert(m[k] == t);
                        }
                    }
                    if m.contains(t) {
                        let k = choose|k: int| 0 <= k < m.len() && m[k] == t;
                        assert(m2[k] == t);
                    }
                    if t == target {
                        assert(m2[m.len() as int] == target);
                    }
                }
            }
        }
    }
    let mut external_added: u64 = 0;
    while external_added < external
        invariant
            1 <= start <= source <= end <= total,
            added == local,
            external_added <= external,
            base <= edges@.len(),
            edges@.take(base as int) == old(edges)@,
            base == old(edges)@.len(),
            edges@.len() == base + local + external_added,
            *budget <= *old(budget),
            local + external_added <= *old(budget) - *budget,
            local + external == 0 ==> *budget == *old(budget),
            draws.seed() == old(draws).seed(),
            draws.requested().take(old(draws).requested().len() as int) == old(draws).requested(),
            draws.requested().len() == old(draws).requested().len() + (*old(budget) - *budget),
            forall|i: int| old(draws).requested().len() <= i < draws.requested().len()
                ==> block_range_ok(#[trigger] draws.requested()[i], start, end, total, local, external),
            block_ok(edges@.skip(base as int), source as int, local as int, start as int, end as int, total as int),
            forall|t: u64| #[trigger] selected@.contains(t) <==> edges@.skip(base as int).map_values(|e: (u64, u64)| e.1).contains(t),
        decreases *budget,
    {
        if *budget == 0 {
            return false;
        }
        *budget = *budget - 1;
        let ghost before = draws.requested();
        let target = draws.draw(1, total);
        proof {
            assert(draws.requested().take(old(draws).requested().len() as int)
                =~= before.take(old(draws).requested().len() as int));
        }
        if accepts_draw(target, source, start, end, false, &selected) {
            selected.insert(target);
            let ghost before = edges@;
            edges.push((source, target));
            external_added = external_added + 1;
            proof {
                let block = edges@.skip(base as int);
                let prev = before.skip(base as int);
                assert(block =~= prev.push((source, target)));
                assert(edges@.take(base as int) =~= before.take(base as int));
                assert(!prev.map_values(|e: (u64, u64)| e.1).contains(target));
                assert forall|j1: int, j2: int| 0 <= j1 < j2 < block.len() implies (#[trigger] block[j1]).1 != (#[trigger] block[j2]).1 by {
                    if j2 == block.len() - 1 {
                        assert(prev.map_values(|e: (u64, u64)| e.1)[j1] == block[j1].1);
                    } else {
                        assert(block[j1] == prev[j1] && block[j2] == prev[j2]);
                    }
                }
                let m = prev.map_values(|e: (u64, u64)| e.1);
                let m2 = block.map_values(|e: (u64, u64)| e.1);
                assert(m2 =~= m.push(target));
                assert forall|t: u64| #[trigger] selected@.contains(t) <==> m2.contains(t) by {
                    if m2.contains(t) {
                        let k = choose|k: int| 0 <= k < m2.len() && m2[k] == t;
                        if k < m.len() {
                            assert(m[k] == t);
                        }
                    }
                    if m.contains(t) {
                        let k = choose|k: int| 0 <= k < m.len() && m[k] == t;
                        assert(m2[k] == t);
                    }
                    if t == target {
                        assert(m2[m.len() as int] == target);
                    }
                }
            }
        }
    }
    true
}

/// The workload holds users `1..=total` and, for each user in ID order, a valid block of
/// `edges_per_user` edges (see `block_ok`) for the community it belongs to.
pub open spec fn workload_ok(w: CommunityWorkload, sizes: Seq<u64>, edges_per_user: u64, local: u64) -> bool {
    let total = size_sum(sizes);
    &&& w.user_count == total
    &&& w.community_count == sizes.len()
    &&& w.edges@.len() == total * edges_per_user
    &&& forall|c: int, u: int|
        #![trigger community_start(sizes, c), user_block(w.edges@, edges_per_user as int, u)]
        0 <= c < sizes.len() && community_start(sizes, c) <= u <= community_end(sizes, c) ==> block_ok(
            user_block(w.edges@, edges_per_user as int, u),
            u,
            local as int,
            community_start(sizes, c),
            community_end(sizes, c),
            total,
        )
}

proof fn lemma_first_issue_prefix(sizes: Seq<u64>, k: int, n: int, total: int, local: u64, external: u64)
    requires
        0 <= k <= n,
        first_issue(sizes, k, total, local, external) is Some,
    ensures
        first_issue(sizes, n, total, local, external) == first_issue(sizes, k, total, local, external),
    decreases n - k,
{
    if k < n {
        lemma_first_issue_prefix(sizes, k, n - 1, total, local, external);
    }
}

proof fn lemma_size_sum_nonneg(s: Seq<u64>)
    ensures
        size_sum(s) >= 0,
    decreases s.len(),
{
    if s.len() > 0 {
        lemma_size_sum_nonneg(s.drop_last());
    }
}

proof fn lemma_block_kept(before: Seq<(u64, u64)>, after: Seq<(u64, u64)>, e: int, u: int)
    requires
        after.take(before.len() as int) == before,
        before.len() <= after.len(),
        1 <= u,
        e >= 0,
        u * e <= before.len(),
    ensures
        user_block(after, e, u) == user_block(before, e, u),
{
    assert((u - 1) * e <= u * e) by (nonlinear_arith)
        requires
            e >= 0,
    ;
    assert(0 <= (u - 1) * e) by (nonlinear_arith)
        requires
            e >= 0,
            u >= 1,
    ;
    assert(user_block(after, e, u) =~= user_block(before, e, u)) by {
        assert forall|j: int| 0 <= j < u * e - (u - 1) * e implies user_block(after, e, u)[j] == user_block(before, e, u)[j] by {
            assert(after.take(before.len() as int)[(u - 1) * e + j] == after[(u - 1) * e + j]);
        }
    }
}

/// What a generation run with at most `draw_limit` draws from a source seeded with `seed`
/// may end in: `result`, after `made` draws, the source `source` having recorded every range
/// requested from it. Each validation error comes with no draw; sampling fails only once all
/// `draw_limit` draws are spent, and never when no edges are asked for; a workload is valid
/// and took at least one draw per edge; every requested range is a community's ID range
/// (while local edges are wanted) or every user's (while external edges are wanted).
pub open spec fn generation_outcome(
    sizes: Seq<u64>,
    edges_per_user: u64,
    local: u64,
    seed: u64,
    draw_limit: u64,
    result: Result<CommunityWorkload, String>,
    made: u64,
    source: Draws,
) -> bool {
    &&& made <= draw_limit
    &&& match workload_error(sizes, edges_per_user, local) {
        Some(m) => result matches Err(e) && e@ == m && made == 0,
        None => match result {
            Err(e) => e@ == exhausted_message() && made == draw_limit,
            Ok(w) => workload_ok(w, sizes, edges_per_user, local) && w.edges@.len() <= made,
        },
    }
    &&& workload_error(sizes, edges_per_user, local) is None && edges_per_user == 0 ==> result is Ok
    &&& source.seed() == seed
    &&& source.requested().len() == made
    &&& forall|i: int| 0 <= i < source.requested().len()
        ==> requested_range_ok(sizes, edges_per_user, local, #[trigger] source.requested()[i])
}

/// Generates a seeded workload of communities of the given sizes, with consecutive user IDs
/// from 1: each user, in ID order, gets `local_edges_per_user` edges to distinct other users
/// of its community, then the rest of its `edges_per_user` edges to distinct users outside
/// it, each target drawn from the allowed ID range and redrawn until it qualifies (see
/// `accepts_draw`). The draws come from a generator seeded with `seed`; which targets they
/// pick is left open. At most `draw_limit` draws are made; the second part of the result is
/// how many were made. Sampling fails only once all `draw_limit` draws are spent, and never
/// when no edges are asked for.
pub fn generate_uneven_community_workload_within(
    community_sizes: &[u64],
    edges_per_user: u64,
    local_edges_per_user: u64,
    seed: u64,
    draw_limit: u64,
) -> (result: (Result<CommunityWorkload, String>, u64, Draws))
    requires
        workload_error(community_sizes@, edges_per_user, local_edges_per_user) is None ==> size_sum(community_sizes@) < u64::MAX,
    ensures
        generation_outcome(
            community_sizes@,
            edges_per_user,
            local_edges_per_user,
            seed,
            draw_limit,
            result.0,
            result.1,
            result.2,
        ),
{
    let ghost sizes = community_sizes@;
    let mut draws = Draws::seeded(seed);
    if community_sizes.len() == 0 {
        return (Err(message_of("At least one community is required")), 0, draws);
    }
    if crate::graph::contains_id(community_sizes, 0) {
        return (Err(message_of("Community sizes must be greater than zero")), 0, draws);
    }
    if local_edges_per_user > edges_per_user {
        return (Err(message_of("Local edges cannot exceed total edges per user")), 0, draws);
    }
    let mut user_count: u64 = 0;
    for i in 0..community_sizes.len()
        invariant
            sizes == community_sizes@,
            sizes.len() > 0,
            !sizes.contains(0),
            local_edges_per_user <= edges_per_user,
            user_count == size_sum(sizes.take(i as int)),
            draws.seed() == seed,
            draws.requested() == Seq::<(u64, u64)>::empty(),
    {
        proof {
            assert(sizes.take(i + 1).drop_last() =~= sizes.take(i as int));
        }
        match user_count.checked_add(community_sizes[i]) {
            Some(t) => {
                user_count = t;
            },
            None => {
                proof {
                    lemma_size_sum_prefix(sizes, i + 1);
                }
                return (Err(message_of("Total user count is too large")), 0, draws);
            },
        }
    }
    proof {
        assert(sizes.take(sizes.len() as int) =~= sizes);
    }
    let external_edges_per_user = edges_per_user - local_edges_per_user;
    for i in 0..community_sizes.len()
        invariant
            sizes == community_sizes@,
            !sizes.contains(0),
            sizes.len() > 0,
            local_edges_per_user <= edges_per_user,
            size_sum(sizes) <= u64::MAX,
            user_count == size_sum(sizes),
            external_edges_per_user == edges_per_user - local_edges_per_user,
            first_issue(sizes, i as int, size_sum(sizes), local_edges_per_user, external_edges_per_user) is None,
            draws.seed() == seed,
            draws.requested() == Seq::<(u64, u64)>::empty(),
    {
        let community_size = community_sizes[i];
        proof {
            assert(sizes.contains(community_size));
            lemma_size_sum_prefix(sizes, i + 1);
            assert(sizes.take(i + 1).drop_last() =~= sizes.take(i as int));
            lemma_size_sum_nonneg(sizes.take(i as int));
            assert(first_issue(sizes, i + 1, size_sum(sizes), local_edges_per_user, external_edges_per_user)
                == community_issue(sizes[i as int], size_sum(sizes), local_edges_per_user, external_edges_per_user));
            if first_issue(sizes, i + 1, size_sum(sizes), local_edges_per_user, external_edges_per_user) is Some {
                lemma_first_issue_prefix(sizes, i + 1, sizes.len() as int, size_sum(sizes), local_edges_per_user, external_edges_per_user);
            }
        }
        let possible_local_targets = community_size - 1;
        let possible_external_targets = user_count - community_size;
        if local_edges_per_user > possible_local_targets {
            return (Err(issue_message(community_size, local_edges_per_user, " unique local targets per user")), 0, draws);
        }
        if external_edges_per_user > possible_external_targets {
            return (Err(issue_message(community_size, external_edges_per_user, " unique external targets per user")), 0, draws);
        }
    }
    let mut edges: Vec<(u64, u64)> = Vec::new();
    let mut budget: u64 = draw_limit;
    let mut next_start: u64 = 1;
    let ghost e = edges_per_user as int;
    let ghost local = local_edges_per_user as int;
    let ghost total = size_sum(sizes);
    proof {
        assert(sizes.take(0) =~= Seq::<u64>::empty());
    }
    for c in 0..community_sizes.len()
        invariant
            sizes == community_sizes@,
            !sizes.contains(0),
            workload_error(sizes, edges_per_user, local_edges_per_user) is None,
            local_edges_per_user <= edges_per_user,
            user_count == total,
            total == size_sum(sizes),
            total < u64::MAX,
            e == edges_per_user,
            local == local_edges_per_user,
            external_edges_per_user == edges_per_user - local_edges_per_user,
            next_start == community_start(sizes, c as int),
            edges@.len() == (next_start - 1) * e,
            budget <= draw_limit,
            edges@.len() <= draw_limit - budget,
            e == 0 ==> budget == draw_limit,
            draws.seed() == seed,
            draws.requested().len() == draw_limit - budget,
            forall|i: int| 0 <= i < draws.requested().len() ==> requested_range_ok(
                sizes,
                edges_per_user,
                local_edges_per_user,
                #[trigger] draws.requested()[i],
            ),
            forall|c2: int, u: int|
                #![trigger community_start(sizes, c2), user_block(edges@, e, u)]
                0 <= c2 < c && community_start(sizes, c2) <= u <= community_end(sizes, c2) ==> block_ok(
                    user_block(edges@, e, u),
                    u,
                    local,
                    community_start(sizes, c2),
                    community_end(sizes, c2),
                    total,
                ),
    {
        let community_size = community_sizes[c];
        proof {
            assert(sizes.contains(community_size));
            assert(sizes.take(c + 1).drop_last() =~= sizes.take(c as int));
            assert(size_sum(sizes.take(c + 1)) == size_sum(sizes.take(c as int)) + sizes[c as int]);
            lemma_size_sum_prefix(sizes, c + 1);
            lemma_size_sum_nonneg(sizes.take(c as int));
        }
        let community_start_id = next_start;
        let community_end_id = next_start + community_size - 1;
        let mut i: u64 = 0;
        while i < community_size
            invariant
                sizes == community_sizes@,
                workload_error(sizes, edges_per_user, local_edges_per_user) is None,
                user_count == total,
                total == size_sum(sizes),
                total < u64::MAX,
                e == edges_per_user,
                local == local_edges_per_user,
                0 <= c < sizes.len(),
                community_size == sizes[c as int],
                community_size > 0,
                community_start_id == community_start(sizes, c as int),
                community_end_id == community_end(sizes, c as int),
                community_end_id <= total,
                community_start_id >= 1,
                community_end_id == community_start_id + community_size - 1,
                local_edges_per_user <= edges_per_user,
                external_edges_per_user == edges_per_user - local_edges_per_user,
                i <= community_size,
                edges@.len() == (community_start_id + i - 1) * e,
                budget <= draw_limit,
                edges@.len() <= draw_limit - budget,
                e == 0 ==> budget == draw_limit,
                draws.seed() == seed,
                draws.requested().len() == draw_limit - budget,
                forall|i: int| 0 <= i < draws.requested().len() ==> requested_range_ok(
                    sizes,
                    edges_per_user,
                    local_edges_per_user,
                    #[trigger] draws.requested()[i],
                ),
                forall|c2: int, u: int|
                    #![trigger community_start(sizes, c2), user_block(edges@, e, u)]
                    0 <= c2 < c && community_start(sizes, c2) <= u <= community_end(sizes, c2) ==> block_ok(
                        user_block(edges@, e, u),
                        u,
                        local,
                        community_start(sizes, c2),
                        community_end(sizes, c2),
                        total,
                    ),
                forall|u: int| #![trigger user_block(edges@, e, u)]
                    community_start_id <= u < community_start_id + i ==> block_ok(
                        user_block(edges@, e, u),
                        u,
                        local,
                        community_start_id as int,
                        community_end_id as int,
                        total,
                    ),
            decreases community_size - i,
        {
            let source = community_start_id + i;
            let ghost before = edges@;
            let ghost before_requested = draws.requested();
            let done = generate_block(
                &mut draws,
                &mut edges,
                &mut budget,
                source,
                community_start_id,
                community_end_id,
                user_count,
                local_edges_per_user,
                external_edges_per_user,
            );
            proof {
                let req = draws.requested();
                assert forall|k: int| 0 <= k < req.len() implies requested_range_ok(
                    sizes,
                    edges_per_user,
                    local_edges_per_user,
                    #[trigger] req[k],
                ) by {
                    if k < before_requested.len() {
                        assert(req.take(before_requested.len() as int)[k] == req[k]);
                        assert(before_requested[k] == req[k]);
                    } else {
                        assert(block_range_ok(req[k], community_start_id, community_end_id, user_count,
                            local_edges_per_user, external_edges_per_user));
                        assert(community_start(sizes, c as int) == community_start_id);
                    }
                }
            }
            if !done {
                return (Err(message_of("Random sampling did not complete the workload")), draw_limit - budget, draws);
            }
            proof {
                assert((source - 1) * e + e == source * e) by (nonlinear_arith);
                assert(user_block(edges@, e, source as int) =~= edges@.skip(before.len() as int));
                assert forall|c2: int, u: int|
                    #![trigger community_start(sizes, c2), user_block(edges@, e, u)]
                    0 <= c2 < c && community_start(sizes, c2) <= u <= community_end(sizes, c2) implies block_ok(
                        user_block(edges@, e, u),
                        u,
                        local,
                        community_start(sizes, c2),
                        community_end(sizes, c2),
                        total,
                    ) by {
                    lemma_size_sum_prefix(sizes.take(c as int), c2 + 1);
                    assert(sizes.take(c as int).take(c2 + 1) =~= sizes.take(c2 + 1));
                    assert(u * e <= (source - 1) * e) by (nonlinear_arith)
                        requires
                            u <= source - 1,
                            e >= 0,
                    ;
                    assert(community_start(sizes, c2) >= 1) by {
                        lemma_size_sum_nonneg(sizes.take(c2));
                    }
                    lemma_block_kept(before, edges@, e, u);
                }
                assert forall|u: int| #![trigger user_block(edges@, e, u)]
                    community_start_id <= u < community_start_id + i + 1 implies block_ok(
                        user_block(edges@, e, u),
                        u,
                        local,
                        community_start_id as int,
                        community_end_id as int,
                        total,
                    ) by {
                    if u < source {
                        assert(u * e <= (source - 1) * e) by (nonlinear_arith)
                            requires
                                u <= source - 1,
                                e >= 0,
                        ;
                        lemma_block_kept(before, edges@, e, u);
                    }
                }
            }
            i = i + 1;
        }
        proof {
            assert(community_start_id + community_size - 1 == community_end_id);
        }
        next_start = community_end_id + 1;
    }
    proof {
        assert(sizes.take(sizes.len() as int) =~= sizes);
    }
    (Ok(CommunityWorkload { user_count, community_count: community_sizes.len() as u64, edges }), draw_limit - budget, draws)
}

/// Generates a seeded community workload as `generate_uneven_community_workload_within`
/// does, with `u64::MAX` draws at most: its result is the outcome of a run from a source
/// seeded with `seed` (see `generation_outcome`), so sampling fails only once that many
/// draws are spent.
pub fn generate_uneven_community_workload(
    community_sizes: &[u64],
    edges_per_user: u64,
    local_edges_per_user: u64,
    seed: u64,
) -> (result: Result<CommunityWorkload, String>)
    requires
        workload_error(community_sizes@, edges_per_user, local_edges_per_user) is None ==> size_sum(community_sizes@) < u64::MAX,
    ensures
        match workload_error(community_sizes@, edges_per_user, local_edges_per_user) {
            Some(m) => result matches Err(e) && e@ == m,
            None => match result {
                Err(e) => e@ == exhausted_message(),
                Ok(w) => workload_ok(w, community_sizes@, edges_per_user, local_edges_per_user),
            },
        },
        workload_error(community_sizes@, edges_per_user, local_edges_per_user) is None && edges_per_user == 0 ==> result is Ok,
        exists|made: u64, source: Draws| #[trigger] generation_outcome(
            community_sizes@,
            edges_per_user,
            local_edges_per_user,
            seed,
            u64::MAX,
            result,
            made,
            source,
        ),
{
    let (result, _draws, _source) = generate_uneven_community_workload_within(
        community_sizes,
        edges_per_user,
        local_edges_per_user,
        seed,
        u64::MAX,
    );
    result
}

} // verus!
