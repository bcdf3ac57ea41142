use vstd::prelude::*;

verus! {

/// Appends, in order, each candidate that is neither `source` nor already collected.
pub open spec fn append_new(acc: Seq<u64>, candidates: Seq<u64>, source: u64) -> Seq<u64>
    decreases candidates.len(),
{
    if candidates.len() == 0 {
        acc
    } else {
        let before = append_new(acc, candidates.drop_last(), source);
        let x = candidates.last();
        if x != source && !before.contains(x) {
            before.push(x)
        } else {
            before
        }
    }
}

/// The users reached through the adjacency lists `lists`, read in order: duplicates and
/// `source` itself are left out, first occurrences keep their order.
pub open spec fn collect_lists(lists: Seq<Seq<u64>>, source: u64) -> Seq<u64>
    decreases lists.len(),
{
    if lists.len() == 0 {
        Seq::empty()
    } else {
        append_new(collect_lists(lists.drop_last(), source), lists.last(), source)
    }
}

/// `x` occurs in one of `lists`.
pub open spec fn in_some_list(lists: Seq<Seq<u64>>, x: u64) -> bool {
    exists|i: int| 0 <= i < lists.len() && #[trigger] lists[i].contains(x)
}

pub proof fn lemma_append_new(acc: Seq<u64>, candidates: Seq<u64>, source: u64)
    requires
        acc.no_duplicates(),
        !acc.contains(source),
    ensures
        append_new(acc, candidates, source).no_duplicates(),
        !append_new(acc, candidates, source).contains(source),
        forall|x: u64|
            #[trigger] append_new(acc, candidates, source).contains(x) <==> (acc.contains(x) || (x
                != source && candidates.contains(x))),
        append_new(acc, candidates, source).len() >= acc.len(),
        forall|i: int| 0 <= i < acc.len() ==> #[trigger] append_new(acc, candidates, source)[i] == acc[i],
    decreases candidates.len(),
{
    if candidates.len() > 0 {
        let rest = candidates.drop_last();
        lemma_append_new(acc, rest, source);
        let before = append_new(acc, rest, source);
        let x = candidates.last();
        assert forall|y: u64| candidates.contains(y) <==> (rest.contains(y) || y == x) by {
            if candidates.contains(y) {
                let i = choose|i: int| 0 <= i < candidates.len() && candidates[i] == y;
                if i < candidates.len() - 1 {
                    assert(rest[i] == y);
                }
            }
            if rest.contains(y) {
                let i = choose|i: int| 0 <= i < rest.len() && rest[i] == y;
                assert(candidates[i] == y);
            }
        }
        if x != source && !before.contains(x) {
            let after = before.push(x);
            assert forall|y: u64| #[trigger] after.contains(y) <==> (before.contains(y) || y == x) by {
                if after.contains(y) {
                    let i = choose|i: int| 0 <= i < after.len() && after[i] == y;
                    if i < before.len() {
                        assert(before[i] == y);
                    }
                }
                if before.contains(y) {
                    let i = choose|i: int| 0 <= i < before.len() && before[i] == y;
                    assert(after[i] == y);
                }
                if y == x {
                    assert(after[before.len() as int] == y);
                }
            }
        }
    }
}

pub proof fn lemma_collect_lists(lists: Seq<Seq<u64>>, source: u64)
    ensures
        collect_lists(lists, source).no_duplicates(),
        !collect_lists(lists, source).contains(source),
        forall|x: u64|
            #[trigger] collect_lists(lists, source).contains(x) <==> (x != source && in_some_list(
                lists,
                x,
            )),
    decreases lists.len(),
{
    if lists.len() > 0 {
        let rest = lists.drop_last();
        lemma_collect_lists(rest, source);
        lemma_append_new(collect_lists(rest, source), lists.last(), source);
        assert forall|x: u64| in_some_list(lists, x) <==> (in_some_list(rest, x) || lists.last().contains(x)) by {
            if in_some_list(lists, x) {
                let i = choose|i: int| 0 <= i < lists.len() && #[trigger] lists[i].contains(x);
                if i < lists.len() - 1 {
                    assert(rest[i] == lists[i]);
                }
            }
            if in_some_list(rest, x) {
                let i = choose|i: int| 0 <= i < rest.len() && #[trigger] rest[i].contains(x);
                assert(lists[i] == rest[i]);
            }
        }
    }
}

} // verus!
