use vstd::prelude::*;
use crate::error::GraphError;
use crate::sharded::{Placement, ShardedGraph};
use crate::text::{
    IntIssue, decimal, joined, parse_uint, issue_text, split_on, push_char, push_decimal, push_str,
    chars_of, starts_with, same_chars, chars_from, split_chars, parse_uint_chars, string_of,
};

verus! {

/// A placement as plain values.
pub enum PlacementView {
    Hash,
    Community(u64),
    BalancedCommunity(Seq<u64>, Seq<usize>),
}

pub open spec fn placement_view(p: Placement) -> PlacementView {
    match p {
        Placement::Hash => PlacementView::Hash,
        Placement::Community { community_size } => PlacementView::Community(community_size),
        Placement::BalancedCommunity { community_sizes, community_to_shard } => PlacementView::BalancedCommunity(
            community_sizes@,
            community_to_shard@,
        ),
    }
}

pub open spec fn nat_values_u64(values: Seq<u64>) -> Seq<nat> {
    values.map_values(|v: u64| v as nat)
}

pub open spec fn nat_values_usize(values: Seq<usize>) -> Seq<nat> {
    values.map_values(|v: usize| v as nat)
}

/// The text `placement_info` gives a placement.
pub open spec fn placement_text(p: PlacementView) -> Seq<char> {
    match p {
        PlacementView::Hash => "Hash"@,
        PlacementView::Community(size) => "Community:"@ + decimal(size as nat),
        PlacementView::BalancedCommunity(sizes, shards) => "BalancedCommunity:"@ + joined(nat_values_u64(sizes)) + seq![':']
            + joined(nat_values_usize(shards)),
    }
}

pub open spec fn has_prefix(s: Seq<char>, prefix: Seq<char>) -> bool {
    prefix.len() <= s.len() && s.take(prefix.len() as int) == prefix
}

/// Reads every piece as an unsigned integer up to `max`; the first piece that is not one
/// decides the error.
pub open spec fn parse_all(pieces: Seq<Seq<char>>, max: nat) -> Result<Seq<nat>, IntIssue>
    decreases pieces.len(),
{
    if pieces.len() == 0 {
        Ok(Seq::empty())
    } else {
        match parse_all(pieces.drop_last(), max) {
            Err(issue) => Err(issue),
            Ok(values) => match parse_uint(pieces.last(), max) {
                Err(issue) => Err(issue),
                Ok(v) => Ok(values.push(v)),
            },
        }
    }
}

/// What `parse_placement_info` reads from `info`, or the message of its error.
pub open spec fn parse_placement_text(info: Seq<char>) -> Result<PlacementView, Seq<char>> {
    if info == "Hash"@ {
        Ok(PlacementView::Hash)
    } else if has_prefix(info, "Community:"@) {
        match parse_uint(info.skip("Community:"@.len() as int), u64::MAX as nat) {
            Ok(v) => Ok(PlacementView::Community(v as u64)),
            Err(issue) => Err("Invalid community size: "@ + issue_text(issue)),
        }
    } else if has_prefix(info, "BalancedCommunity:"@) {
        let parts = split_on(info.skip("BalancedCommunity:"@.len() as int), ':');
        if parts.len() != 2 {
            Err("Invalid BalancedCommunity format"@)
        } else {
            match parse_all(split_on(parts[0], ','), u64::MAX as nat) {
                Err(issue) => Err("Invalid community size: "@ + issue_text(issue)),
                Ok(sizes) => match parse_all(split_on(parts[1], ','), usize::MAX as nat) {
                    Err(issue) => Err("Invalid shard assignment: "@ + issue_text(issue)),
                    Ok(shards) => Ok(
                        PlacementView::BalancedCommunity(
                            sizes.map_values(|v: nat| v as u64),
                            shards.map_values(|v: nat| v as usize),
                        ),
                    ),
                },
            }
        }
    } else {
        Err("Unknown placement type: "@ + info)
    }
}

fn push_joined_u64(s: &mut String, values: &Vec<u64>)
    ensures
        final(s)@ == old(s)@ + joined(nat_values_u64(values@)),
{
    proof {
        assert(nat_values_u64(values@.take(0)) =~= Seq::<nat>::empty());
    }
    for i in 0..values.len()
        invariant
            s@ == old(s)@ + joined(nat_values_u64(values@.take(i as int))),
    {
        let ghost before = s@;
        if i > 0 {
            push_char(s, ',');
        }
        push_decimal(s, values[i]);
        proof {
            let next = nat_values_u64(values@.take(i + 1));
            assert(next.drop_last() =~= nat_values_u64(values@.take(i as int)));
            if i == 0 {
                assert(next =~= seq![values@[0] as nat]);
            }
        }
    }
    proof {
        assert(values@.take(values@.len() as int) =~= values@);
    }
}

fn push_joined_usize(s: &mut String, values: &Vec<usize>)
    ensures
        final(s)@ == old(s)@ + joined(nat_values_usize(values@)),
{
    proof {
        assert(nat_values_usize(values@.take(0)) =~= Seq::<nat>::empty());
    }
    for i in 0..values.len()
        invariant
            s@ == old(s)@ + joined(nat_values_usize(values@.take(i as int))),
    {
        if i > 0 {
            push_char(s, ',');
        }
        push_decimal(s, values[i] as u64);
        proof {
            let next = nat_values_usize(values@.take(i + 1));
            assert(next.drop_last() =~= nat_values_usize(values@.take(i as int)));
            if i == 0 {
                assert(next =~= seq![values@[0] as nat]);
            }
        }
    }
    proof {
        assert(values@.take(values@.len() as int) =~= values@);
    }
}

impl ShardedGraph {
    /// The placement as text: `Hash`, `Community:<size>` or
    /// `BalancedCommunity:<sizes>:<shards>` with comma-separated lists.
    pub fn placement_info(&self) -> (info: String)
        ensures
            info@ == placement_text(placement_view(self.spec_placement())),
    {
        match self.placement() {
            Placement::Hash => {
                let info = String::from_str("Hash");
                proof {
                    reveal_strlit("Hash");
                }
                info
            },
            Placement::Community { community_size } => {
                let mut info = String::from_str("Community:");
                push_decimal(&mut info, *community_size);
                info
            },
            Placement::BalancedCommunity { community_sizes, community_to_shard } => {
                let mut info = String::from_str("BalancedCommunity:");
                push_joined_u64(&mut info, community_sizes);
                push_char(&mut info, ':');
                push_joined_usize(&mut info, community_to_shard);
                info
            },
        }
    }
}

fn parse_all_chars(pieces: &Vec<Vec<char>>, max: u64) -> (result: Result<Vec<u64>, IntIssue>)
    ensures
        match parse_all(pieces@.map_values(|p: Vec<char>| p@), max as nat) {
            Ok(values) => result matches Ok(v) && v@.map_values(|x: u64| x as nat) == values,
            Err(issue) => result == Err::<Vec<u64>, IntIssue>(issue),
        },
{
    let ghost views = pieces@.map_values(|p: Vec<char>| p@);
    let mut values: Vec<u64> = Vec::new();
    proof {
        assert(views.take(0) =~= Seq::<Seq<char>>::empty());
    }
    for i in 0..pieces.len()
        invariant
            views == pieces@.map_values(|p: Vec<char>| p@),
            parse_all(views.take(i as int), max as nat) matches Ok(vs) && values@.map_values(|x: u64| x as nat) == vs,
    {
        proof {
            assert(views.take(i + 1).drop_last() =~= views.take(i as int));
            assert(views.take(i + 1).last() == pieces@[i as int]@);
        }
        match parse_uint_chars(pieces[i].as_slice(), max) {
            Ok(v) => {
                values.push(v);
                proof {
                    let vs = parse_all(views.take(i as int), max as nat)->Ok_0;
                    assert(values@.map_values(|x: u64| x as nat) =~= vs.push(v as nat));
                }
            },
            Err(issue) => {
                proof {
                    lemma_parse_all_prefix_err(views, i + 1, max as nat);
                }
                return Err(issue);
            },
        }
    }
    proof {
        assert(views.take(views.len() as int) =~= views);
    }
    Ok(values)
}

proof fn lemma_parse_all_bounded(pieces: Seq<Seq<char>>, max: nat)
    ensures
        parse_all(pieces, max) matches Ok(values) ==> values.len() == pieces.len()
            && forall|k: int| 0 <= k < values.len() ==> #[trigger] values[k] <= max,
    decreases pieces.len(),
{
    if pieces.len() > 0 {
        lemma_parse_all_bounded(pieces.drop_last(), max);
        crate::text::lemma_parse_uint_bounded(pieces.last(), max);
    }
}

proof fn lemma_parse_all_prefix_err(pieces: Seq<Seq<char>>, k: int, max: nat)
    requires
        0 <= k <= pieces.len(),
        parse_all(pieces.take(k), max) is Err,
    ensures
        parse_all(pieces, max) == parse_all(pieces.take(k), max),
    decreases pieces.len() - k,
{
    if k < pieces.len() {
        assert(pieces.take(k + 1).drop_last() =~= pieces.take(k));
        lemma_parse_all_prefix_err(pieces, k + 1, max);
    } else {
        assert(pieces.take(k) =~= pieces);
    }
}

pub(crate) fn io_error(prefix: &str, text: String) -> (error: GraphError)
    ensures
        error == GraphError::IoError(error->IoError_0) && (error->IoError_0)@ == prefix@ + text@,
{
    let mut message = String::from_str(prefix);
    push_str(&mut message, text.as_str());
    GraphError::IoError(message)
}

pub(crate) fn issue_string(issue: IntIssue) -> (text: String)
    ensures
        text@ == issue_text(issue),
{
    match issue {
        IntIssue::Empty => String::from_str("cannot parse integer from empty string"),
        IntIssue::InvalidDigit => String::from_str("invalid digit found in string"),
        IntIssue::PosOverflow => String::from_str("number too large to fit in target type"),
    }
}

/// Reads the text `placement_info` writes; other text is an `IoError` whose message says
/// what is wrong.
pub fn parse_placement_info(info: &str) -> (result: Result<Placement, GraphError>)
    ensures
        match parse_placement_text(info@) {
            Ok(view) => result matches Ok(p) && placement_view(p) == view,
            Err(message) => result matches Err(GraphError::IoError(m)) && m@ == message,
        },
{
    let chars = chars_of(info);
    let hash = chars_of("Hash");
    let community = chars_of("Community:");
    let balanced = chars_of("BalancedCommunity:");
    if same_chars(&chars, &hash) {
        return Ok(Placement::Hash);
    }
    if starts_with(&chars, &community) {
        let rest = chars_from(&chars, community.len());
        return match parse_uint_chars(&rest, u64::MAX) {
            Ok(community_size) => Ok(Placement::Community { community_size }),
            Err(issue) => Err(io_error("Invalid community size: ", issue_string(issue))),
        };
    }
    if starts_with(&chars, &balanced) {
        let rest = chars_from(&chars, balanced.len());
        let parts = split_chars(&rest, ':');
        if parts.len() != 2 {
            let message = String::from_str("Invalid BalancedCommunity format");
            return Err(GraphError::IoError(message));
        }
        let size_texts = split_chars(&parts[0], ',');
        proof {
            assert(size_texts@.map_values(|p: Vec<char>| p@) =~= split_on(parts@[0]@, ','));
        }
        let community_sizes = match parse_all_chars(&size_texts, u64::MAX) {
            Ok(values) => values,
            Err(issue) => {
                return Err(io_error("Invalid community size: ", issue_string(issue)));
            },
        };
        let shard_texts = split_chars(&parts[1], ',');
        proof {
            assert(shard_texts@.map_values(|p: Vec<char>| p@) =~= split_on(parts@[1]@, ','));
        }
        let shard_values = match parse_all_chars(&shard_texts, usize::MAX as u64) {
            Ok(values) => values,
            Err(issue) => {
                return Err(io_error("Invalid shard assignment: ", issue_string(issue)));
            },
        };
        proof {
            lemma_parse_all_bounded(split_on(parts@[1]@, ','), usize::MAX as nat);
            let shards = parse_all(split_on(parts@[1]@, ','), usize::MAX as nat)->Ok_0;
            assert forall|k: int| 0 <= k < shard_values@.len() implies shard_values@[k] <= usize::MAX by {
                assert(shard_values@.map_values(|x: u64| x as nat)[k] == shards[k]);
            }
        }
        let mut community_to_shard: Vec<usize> = Vec::new();
        for i in 0..shard_values.len()
            invariant
                forall|k: int| 0 <= k < shard_values@.len() ==> shard_values@[k] <= usize::MAX,
                community_to_shard@ == shard_values@.take(i as int).map_values(|x: u64| x as usize),
        {
            community_to_shard.push(shard_values[i] as usize);
            proof {
                assert(community_to_shard@ =~= shard_values@.take(i + 1).map_values(|x: u64| x as usize));
            }
        }
        proof {
            assert(shard_values@.take(shard_values@.len() as int) =~= shard_values@);
            let sizes = parse_all(split_on(parts@[0]@, ','), u64::MAX as nat)->Ok_0;
            let shards = parse_all(split_on(parts@[1]@, ','), usize::MAX as nat)->Ok_0;
            assert(community_sizes@ =~= sizes.map_values(|v: nat| v as u64)) by {
                assert forall|k: int| 0 <= k < community_sizes@.len() implies community_sizes@[k] == sizes[k] as u64 by {
                    assert(community_sizes@.map_values(|x: u64| x as nat)[k] == sizes[k]);
                }
            }
            assert(community_to_shard@ =~= shards.map_values(|v: nat| v as usize)) by {
                assert forall|k: int| 0 <= k < community_to_shard@.len() implies community_to_shard@[k] == shards[k] as usize by {
                    assert(shard_values@.map_values(|x: u64| x as nat)[k] == shards[k]);
                }
            }
        }
        return Ok(Placement::BalancedCommunity { community_sizes, community_to_shard });
    }
    let mut message = String::from_str("Unknown placement type: ");
    push_str(&mut message, info);
    Err(GraphError::IoError(message))
}

proof fn lemma_parse_all_decimals(values: Seq<nat>, max: nat)
    requires
        forall|k: int| 0 <= k < values.len() ==> #[trigger] values[k] <= max,
    ensures
        parse_all(values.map_values(|v: nat| decimal(v)), max) == Ok::<Seq<nat>, IntIssue>(values),
    decreases values.len(),
{
    if values.len() > 0 {
        let rest = values.drop_last();
        lemma_parse_all_decimals(rest, max);
        crate::text::lemma_parse_decimal(values.last(), max);
        assert(values.map_values(|v: nat| decimal(v)).drop_last() =~= rest.map_values(|v: nat| decimal(v)));
        assert(rest.push(values.last()) =~= values);
    } else {
        assert(values.map_values(|v: nat| decimal(v)) =~= Seq::<Seq<char>>::empty());
        assert(values =~= Seq::<nat>::empty());
    }
}

/// Reading back the text of a placement gives the placement, for every placement whose
/// community lists (if any) are not empty.
pub proof fn lemma_placement_text_round_trip(p: PlacementView)
    requires
        p matches PlacementView::BalancedCommunity(sizes, shards) ==> sizes.len() > 0 && shards.len() > 0,
    ensures
        parse_placement_text(placement_text(p)) == Ok::<PlacementView, Seq<char>>(p),
{
    reveal_strlit("Hash");
    reveal_strlit("Community:");
    reveal_strlit("BalancedCommunity:");
    let text = placement_text(p);
    match p {
        PlacementView::Hash => {},
        PlacementView::Community(size) => {
            crate::text::lemma_parse_decimal(size as nat, u64::MAX as nat);
            assert(text.len() != "Hash"@.len() || text[0] != 'H');
            assert(text.take("Community:"@.len() as int) =~= "Community:"@);
            assert(text.skip("Community:"@.len() as int) =~= decimal(size as nat));
        },
        PlacementView::BalancedCommunity(sizes, shards) => {
            let ns = nat_values_u64(sizes);
            let nh = nat_values_usize(shards);
            assert(text[0] == 'B');
            assert(text.len() != "Hash"@.len() || text[0] != 'H');
            assert(!has_prefix(text, "Community:"@)) by {
                if has_prefix(text, "Community:"@) {
                    assert(text.take("Community:"@.len() as int)[0] == 'C');
                }
            }
            assert(text.take("BalancedCommunity:"@.len() as int) =~= "BalancedCommunity:"@);
            let rest = text.skip("BalancedCommunity:"@.len() as int);
            assert(rest =~= joined(ns) + seq![':'] + joined(nh));
            crate::text::lemma_split_joined(ns);
            crate::text::lemma_split_joined(nh);
            crate::text::lemma_split_no_sep(joined(ns), ':');
            crate::text::lemma_split_append(joined(ns), ':', joined(nh));
            assert(split_on(rest, ':') =~= seq![joined(ns), joined(nh)]);
            lemma_parse_all_decimals(ns, u64::MAX as nat);
            lemma_parse_all_decimals(nh, usize::MAX as nat);
            assert(ns.map_values(|v: nat| v as u64) =~= sizes);
            assert(nh.map_values(|v: nat| v as usize) =~= shards);
        },
    }
}

} // verus!
