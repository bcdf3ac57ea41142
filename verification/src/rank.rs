use vstd::prelude::*;

verus! {

/// `a` comes before `b` when its weight (first component) is larger, or when the weights
/// are equal and its ID (second component) is smaller.
pub open spec fn ranks_before(a: (u64, u64), b: (u64, u64)) -> bool {
    a.0 > b.0 || (a.0 == b.0 && a.1 < b.1)
}

/// Heaviest first, lower ID first among equal weights.
pub open spec fn is_ranked(s: Seq<(u64, u64)>) -> bool {
    forall|i: int, j: int| 0 <= i < j < s.len() ==> ranks_before(#[trigger] s[i], #[trigger] s[j])
}

/// Ranks `items` heaviest first, lower ID first among equal weights.
pub fn rank_by_weight(items: &Vec<(u64, u64)>) -> (ranked: Vec<(u64, u64)>)
    requires
        items@.no_duplicates(),
    ensures
        is_ranked(ranked@),
        ranked@.to_set() == items@.to_set(),
        ranked@.len() == items@.len(),
{
    let mut ranked: Vec<(u64, u64)> = Vec::new();
    proof {
        assert(items@.take(0).to_set() =~= ranked@.to_set());
    }
    for i in 0..items.len()
        invariant
            items@.no_duplicates(),
            is_ranked(ranked@),
            ranked@.to_set() == items@.take(i as int).to_set(),
            ranked@.len() == i,
    {
        let x = items[i];
        let mut p: usize = 0;
        while p < ranked.len() && !item_ranks_before(x, ranked[p])
            invariant
                p <= ranked@.len(),
                forall|q: int| 0 <= q < p ==> !ranks_before(x, #[trigger] ranked@[q]),
            decreases ranked@.len() - p,
        {
            p = p + 1;
        }
        let ghost before = ranked@;
        proof {
            assert(!before.contains(x)) by {
                if before.contains(x) {
                    assert(before.to_set().contains(x));
                    assert(items@.take(i as int).to_set().contains(x));
                    let k = choose|k: int| 0 <= k < i && items@.take(i as int)[k] == x;
                    assert(items@[k] == items@[i as int]);
                }
            }
        }
        ranked.insert(p, x);
        proof {
            let after = ranked@;
            assert(after == before.insert(p as int, x));
            assert forall|a: int, b: int| 0 <= a < b < after.len() implies ranks_before(#[trigger] after[a], #[trigger] after[b]) by {
                if b < p {
                    assert(after[a] == before[a] && after[b] == before[b]);
                } else if b == p {
                    assert(after[a] == before[a]);
                    assert(!ranks_before(x, before[a]));
                    assert(before[a] != x);
                } else if a == p {
                    assert(after[b] == before[b - 1]);
                    if p < before.len() {
                        assert(ranks_before(x, before[p as int]));
                        if b - 1 > p {
                            assert(ranks_before(before[p as int], before[b - 1]));
                        }
                    }
                } else if a < p {
                    assert(after[a] == before[a] && after[b] == before[b - 1]);
                } else {
                    assert(after[a] == before[a - 1] && after[b] == before[b - 1]);
                }
            }
            assert(after.to_set() =~= items@.take(i + 1).to_set()) by {
                assert(items@.take(i + 1) =~= items@.take(i as int).push(x));
                items@.take(i as int).lemma_push_to_set_commute(x);
                assert forall|y: (u64, u64)| after.to_set().contains(y) <==> before.to_set().insert(x).contains(y) by {
                    if after.to_set().contains(y) {
                        let k = choose|k: int| 0 <= k < after.len() && after[k] == y;
                        if k < p {
                            assert(before[k] == y);
                        } else if k > p {
                            assert(before[k - 1] == y);
                        }
                    }
                    if before.to_set().contains(y) {
                        let k = choose|k: int| 0 <= k < before.len() && before[k] == y;
                        if k < p {
                            assert(after[k] == y);
                        } else {
                            assert(after[k + 1] == y);
                        }
                    }
                    if y == x {
                        assert(after[p as int] == x);
                    }
                }
            }
        }
    }
    proof {
        assert(items@.take(items@.len() as int) =~= items@);
    }
    ranked
}

fn item_ranks_before(a: (u64, u64), b: (u64, u64)) -> (result: bool)
    ensures
        result == ranks_before(a, b),
{
    a.0 > b.0 || (a.0 == b.0 && a.1 < b.1)
}

/// A ranking of a set is unique.
pub proof fn lemma_ranking_unique(a: Seq<(u64, u64)>, b: Seq<(u64, u64)>)
    requires
        is_ranked(a),
        is_ranked(b),
        a.to_set() == b.to_set(),
    ensures
        a == b,
    decreases a.len(),
{
    lemma_ranked_no_duplicates(a);
    lemma_ranked_no_duplicates(b);
    a.unique_seq_to_set();
    b.unique_seq_to_set();
    if a.len() > 0 {
        assert(a.to_set().contains(a[0]));
        assert(b.to_set().contains(b[0]));
        if a[0] != b[0] {
            let j = choose|j: int| 0 <= j < a.len() && a[j] == b[0];
            let k = choose|k: int| 0 <= k < b.len() && b[k] == a[0];
            assert(j > 0 && k > 0);
            assert(ranks_before(a[0], a[j]));
            assert(ranks_before(b[0], b[k]));
        }
        let ra = a.drop_first();
        let rb = b.drop_first();
        assert(is_ranked(ra)) by {
            assert forall|i: int, j: int| 0 <= i < j < ra.len() implies ranks_before(#[trigger] ra[i], #[trigger] ra[j]) by {
                assert(ra[i] == a[i + 1] && ra[j] == a[j + 1]);
            }
        }
        assert(is_ranked(rb)) by {
            assert forall|i: int, j: int| 0 <= i < j < rb.len() implies ranks_before(#[trigger] rb[i], #[trigger] rb[j]) by {
                assert(rb[i] == b[i + 1] && rb[j] == b[j + 1]);
            }
        }
        assert(ra.to_set() =~= a.to_set().remove(a[0])) by {
            assert forall|y: (u64, u64)| ra.to_set().contains(y) <==> a.to_set().remove(a[0]).contains(y) by {
                if ra.to_set().contains(y) {
                    let k = choose|k: int| 0 <= k < ra.len() && ra[k] == y;
                    assert(a[k + 1] == y);
                    assert(ranks_before(a[0], a[k + 1]));
                }
                if a.to_set().remove(a[0]).contains(y) {
                    let k = choose|k: int| 0 <= k < a.len() && a[k] == y;
                    assert(k != 0);
                    assert(ra[k - 1] == y);
                }
            }
        }
        assert(rb.to_set() =~= b.to_set().remove(b[0])) by {
            assert forall|y: (u64, u64)| rb.to_set().contains(y) <==> b.to_set().remove(b[0]).contains(y) by {
                if rb.to_set().contains(y) {
                    let k = choose|k: int| 0 <= k < rb.len() && rb[k] == y;
                    assert(b[k + 1] == y);
                    assert(ranks_before(b[0], b[k + 1]));
                }
                if b.to_set().remove(b[0]).contains(y) {
                    let k = choose|k: int| 0 <= k < b.len() && b[k] == y;
                    assert(k != 0);
                    assert(rb[k - 1] == y);
                }
            }
        }
        lemma_ranking_unique(ra, rb);
        assert(a =~= seq![a[0]] + ra);
        assert(b =~= seq![b[0]] + rb);
    } else {
        assert(b.len() == 0) by {
            if b.len() > 0 {
                assert(b.to_set().contains(b[0]));
            }
        }
        assert(a =~= b);
    }
}

pub proof fn lemma_ranked_no_duplicates(s: Seq<(u64, u64)>)
    requires
        is_ranked(s),
    ensures
        s.no_duplicates(),
{
    assert forall|i: int, j: int| 0 <= i < s.len() && 0 <= j < s.len() && i != j implies s[i] != s[j] by {
        if i < j {
            assert(ranks_before(s[i], s[j]));
        } else {
            assert(ranks_before(s[j], s[i]));
        }
    }
}

} // verus!

verus! {

/// `ranked` with `x` put in its place.
pub open spec fn insert_ranked(ranked: Seq<(u64, u64)>, x: (u64, u64)) -> Seq<(u64, u64)>
    decreases ranked.len(),
{
    if ranked.len() == 0 {
        seq![x]
    } else if ranks_before(x, ranked[0]) {
        seq![x] + ranked
    } else {
        seq![ranked[0]] + insert_ranked(ranked.drop_first(), x)
    }
}

proof fn lemma_insert_ranked(ranked: Seq<(u64, u64)>, x: (u64, u64))
    requires
        is_ranked(ranked),
        !ranked.contains(x),
    ensures
        is_ranked(insert_ranked(ranked, x)),
        insert_ranked(ranked, x).to_set() == ranked.to_set().insert(x),
    decreases ranked.len(),
{
    let r = insert_ranked(ranked, x);
    if ranked.len() == 0 {
        assert(r.to_set() =~= ranked.to_set().insert(x)) by {
            assert(r[0] == x);
        }
    } else {
        let rest = ranked.drop_first();
        assert(is_ranked(rest)) by {
            assert forall|i: int, j: int| 0 <= i < j < rest.len() implies ranks_before(#[trigger] rest[i], #[trigger] rest[j]) by {
                assert(rest[i] == ranked[i + 1] && rest[j] == ranked[j + 1]);
            }
        }
        assert(ranked =~= seq![ranked[0]] + rest);
        if ranks_before(x, ranked[0]) {
            assert forall|i: int, j: int| 0 <= i < j < r.len() implies ranks_before(#[trigger] r[i], #[trigger] r[j]) by {
                if i == 0 {
                    assert(r[j] == ranked[j - 1]);
                    if j > 1 {
                        assert(ranks_before(ranked[0], ranked[j - 1]));
                    }
                } else {
                    assert(r[i] == ranked[i - 1] && r[j] == ranked[j - 1]);
                }
            }
            assert(r.to_set() =~= ranked.to_set().insert(x)) by {
                assert forall|y: (u64, u64)| r.to_set().contains(y) <==> ranked.to_set().insert(x).contains(y) by {
                    if r.to_set().contains(y) {
                        let k = choose|k: int| 0 <= k < r.len() && r[k] == y;
                        if k > 0 {
                            assert(ranked[k - 1] == y);
                        }
                    }
                    if ranked.to_set().contains(y) {
                        let k = choose|k: int| 0 <= k < ranked.len() && ranked[k] == y;
                        assert(r[k + 1] == y);
                    }
                    if y == x {
                        assert(r[0] == x);
                    }
                }
            }
        } else {
            assert(!rest.contains(x)) by {
                if rest.contains(x) {
                    let k = choose|k: int| 0 <= k < rest.len() && rest[k] == x;
                    assert(ranked[k + 1] == x);
                }
            }
            lemma_insert_ranked(rest, x);
            let tail = insert_ranked(rest, x);
            assert(x != ranked[0]) by {
                assert(ranked[0] == ranked[0]);
            }
            assert(ranks_before(ranked[0], x));
            assert forall|m: int| 0 <= m < tail.len() implies ranks_before(ranked[0], #[trigger] tail[m]) by {
                assert(tail.to_set().contains(tail[m]));
                if tail[m] != x {
                    assert(rest.to_set().contains(tail[m]));
                    let k = choose|k: int| 0 <= k < rest.len() && rest[k] == tail[m];
                    assert(ranked[k + 1] == tail[m]);
                }
            }
            assert forall|i: int, j: int| 0 <= i < j < r.len() implies ranks_before(#[trigger] r[i], #[trigger] r[j]) by {
                if i == 0 {
                    assert(r[j] == tail[j - 1]);
                } else {
                    assert(r[i] == tail[i - 1] && r[j] == tail[j - 1]);
                }
            }
            assert(r.to_set() =~= ranked.to_set().insert(x)) by {
                assert forall|y: (u64, u64)| r.to_set().contains(y) <==> ranked.to_set().insert(x).contains(y) by {
                    if r.to_set().contains(y) {
                        let k = choose|k: int| 0 <= k < r.len() && r[k] == y;
                        if k > 0 {
                            assert(tail[k - 1] == y);
                            assert(tail.to_set().contains(y));
                            if y != x {
                                let q = choose|q: int| 0 <= q < rest.len() && rest[q] == y;
                                assert(ranked[q + 1] == y);
                            }
                        }
                    }
                    if ranked.to_set().contains(y) {
                        let k = choose|k: int| 0 <= k < ranked.len() && ranked[k] == y;
                        if k > 0 {
                            assert(rest[k - 1] == y);
                            assert(rest.to_set().contains(y));
                            assert(tail.to_set().contains(y));
                            let q = choose|q: int| 0 <= q < tail.len() && tail[q] == y;
                            assert(r[q + 1] == y);
                        }
                    }
                    if y == x {
                        assert(tail.to_set().contains(x));
                        let q = choose|q: int| 0 <= q < tail.len() && tail[q] == x;
                        assert(r[q + 1] == x);
                    }
                }
            }
        }
    }
}

/// Every finite set of pairs has a ranking.
pub proof fn lemma_ranking_exists(items: Set<(u64, u64)>)
    requires
        items.finite(),
    ensures
        exists|r: Seq<(u64, u64)>| is_ranked(r) && r.to_set() == items,
    decreases items.len(),
{
    if items.len() == 0 {
        items.lemma_len0_is_empty();
        let r = Seq::<(u64, u64)>::empty();
        assert(r.to_set() =~= items);
        assert(is_ranked(r));
    } else {
        let x = items.choose();
        assert(items.contains(x)) by {
            if !items.contains(x) {
                items.lemma_len0_is_empty();
            }
        }
        lemma_ranking_exists(items.remove(x));
        let r = choose|r: Seq<(u64, u64)>| is_ranked(r) && r.to_set() == items.remove(x);
        assert(!r.contains(x)) by {
            if r.contains(x) {
                assert(r.to_set().contains(x));
            }
        }
        lemma_insert_ranked(r, x);
        assert(insert_ranked(r, x).to_set() =~= items);
    }
}

} // verus!
