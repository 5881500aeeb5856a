//! Ranking: the documents with the greatest weights first.

use vstd::prelude::*;
use vstd::relations;
use vstd::seq_lib;

verus! {

/// A (document, weight) pair ranks before another where its weight is greater or, with
/// equal weights, its document number is smaller.
pub open spec fn ranks_before(a: (u64, u64), b: (u64, u64)) -> bool {
    a.1 > b.1 || (a.1 == b.1 && a.0 < b.0)
}

/// The ranking order as a relation: the second pair does not rank before the first.
pub open spec fn rank_order() -> spec_fn((u64, u64), (u64, u64)) -> bool {
    |a: (u64, u64), b: (u64, u64)| !ranks_before(b, a)
}

/// The pairs in ranking order.
pub open spec fn ranked(hits: Seq<(u64, u64)>) -> Seq<(u64, u64)> {
    hits.sort_by(rank_order())
}

/// The first `k` of the pairs in ranking order, or all where there are fewer.
pub open spec fn top(hits: Seq<(u64, u64)>, k: nat) -> Seq<(u64, u64)> {
    if k <= hits.len() {
        ranked(hits).take(k as int)
    } else {
        ranked(hits)
    }
}

/// The order of pairs of integers: by the first, then by the second.
pub open spec fn pair_le(a: (u64, u64), b: (u64, u64)) -> bool {
    a.0 < b.0 || (a.0 == b.0 && a.1 <= b.1)
}

/// Sorts pairs of integers with `slice::sort_unstable`: afterwards the same pairs stand in
/// ascending order, by the first component and then by the second.
#[verifier::external_body]
fn sort_pairs(pairs: &mut Vec<(u64, u64)>)
    ensures
        final(pairs)@.to_multiset() == old(pairs)@.to_multiset(),
        forall|i: int, j: int|
            0 <= i < j < final(pairs)@.len() ==> pair_le(
                #[trigger] final(pairs)@[i],
                #[trigger] final(pairs)@[j],
            ),
{
    pairs.sort_unstable();
}

/// The pair under which a (document, weight) pair is sorted, and back.
spec fn flipped(p: (u64, u64)) -> (u64, u64) {
    ((u64::MAX - p.1) as u64, p.0)
}

spec fn unflipped(p: (u64, u64)) -> (u64, u64) {
    (p.1, (u64::MAX - p.0) as u64)
}

proof fn lemma_unflip_count(s: Seq<(u64, u64)>, x: (u64, u64))
    ensures
        s.map_values(|p: (u64, u64)| unflipped(p)).to_multiset().count(x)
            == s.to_multiset().count(flipped(x)),
    decreases s.len(),
{
    broadcast use vstd::multiset::group_multiset_axioms;

    let f = |p: (u64, u64)| unflipped(p);
    if s.len() > 0 {
        let t = s.drop_last();
        let a = s.last();
        lemma_unflip_count(t, x);
        assert(s =~= t.push(a));
        assert(s.map_values(f) =~= t.map_values(f).push(f(a)));
        seq_lib::to_multiset_build(t, a);
        seq_lib::to_multiset_build(t.map_values(f), f(a));
        assert(f(a) == x <==> a == flipped(x));
    } else {
        seq_lib::to_multiset_contains(s, flipped(x));
        seq_lib::to_multiset_contains(s.map_values(f), x);
    }
}

proof fn lemma_rank_order()
    ensures
        relations::total_ordering(rank_order()),
{
}

/// The pairs in ranking order are the given pairs, and each ranks at or before those
/// behind it.
pub proof fn law_ranked(hits: Seq<(u64, u64)>)
    ensures
        ranked(hits).len() == hits.len(),
        ranked(hits).to_multiset() == hits.to_multiset(),
        forall|i: int, j: int|
            0 <= i < j < ranked(hits).len() ==> !ranks_before(
                #[trigger] ranked(hits)[j],
                #[trigger] ranked(hits)[i],
            ),
{
    let order = rank_order();
    lemma_rank_order();
    hits.lemma_sort_by_ensures(order);
    seq_lib::to_multiset_len(hits);
    seq_lib::to_multiset_len(ranked(hits));
    assert forall|i: int, j: int| 0 <= i < j < ranked(hits).len() implies !ranks_before(
        #[trigger] ranked(hits)[j],
        #[trigger] ranked(hits)[i],
    ) by {
        assert(order(ranked(hits)[i], ranked(hits)[j]));
    }
}

/// The ranking does not depend on the order in which the pairs are given.
pub proof fn law_ranking_ignores_order(a: Seq<(u64, u64)>, b: Seq<(u64, u64)>, k: nat)
    requires
        a.to_multiset() == b.to_multiset(),
    ensures
        top(a, k) == top(b, k),
{
    let order = rank_order();
    lemma_rank_order();
    a.lemma_sort_by_ensures(order);
    b.lemma_sort_by_ensures(order);
    seq_lib::lemma_sorted_unique(ranked(a), ranked(b), order);
    seq_lib::to_multiset_len(a);
    seq_lib::to_multiset_len(b);
}

/// The first `k` (document, weight) pairs: greatest weight first, then smallest document.
pub fn rank_hits(hits: Vec<(u64, u64)>, k: usize) -> (r: Vec<(u64, u64)>)
    ensures
        r@ == top(hits@, k as nat),
{
    let mut pairs: Vec<(u64, u64)> = Vec::new();
    let mut i: usize = 0;
    while i < hits.len()
        invariant
            i <= hits.len(),
            pairs.len() == i,
            forall|x: int| 0 <= x < i ==> #[trigger] pairs@[x] == flipped(hits@[x]),
        decreases hits.len() - i,
    {
        pairs.push((u64::MAX - hits[i].1, hits[i].0));
        i += 1;
    }
    let ghost before = pairs@;
    sort_pairs(&mut pairs);
    let ghost f = |p: (u64, u64)| unflipped(p);
    let ghost all = pairs@.map_values(f);
    proof {
        let order = rank_order();
        lemma_rank_order();
        hits@.lemma_sort_by_ensures(order);
        assert(before.map_values(f) =~= hits@);
        assert(all.to_multiset() =~= hits@.to_multiset()) by {
            assert forall|x: (u64, u64)| all.to_multiset().count(x) == hits@.to_multiset().count(
                x,
            ) by {
                lemma_unflip_count(pairs@, x);
                lemma_unflip_count(before, x);
            }
        }
        assert(relations::sorted_by(all, order)) by {
            assert forall|x: int, y: int| 0 <= x < y < all.len() implies #[trigger] order(
                all[x],
                all[y],
            ) by {
                assert(pair_le(pairs@[x], pairs@[y]));
            }
        }
        seq_lib::lemma_sorted_unique(all, ranked(hits@), order);
        seq_lib::to_multiset_len(all);
        seq_lib::to_multiset_len(hits@);
    }
    let mut out: Vec<(u64, u64)> = Vec::new();
    let mut n: usize = 0;
    while n < pairs.len() && n < k
        invariant
            n <= pairs.len(),
            n <= k,
            out.len() == n,
            f == (|p: (u64, u64)| unflipped(p)),
            all == pairs@.map_values(f),
            forall|x: int| 0 <= x < n ==> #[trigger] out@[x] == all[x],
        decreases pairs.len() - n,
    {
        out.push((pairs[n].1, u64::MAX - pairs[n].0));
        n += 1;
    }
    assert(out@ =~= top(hits@, k as nat));
    out
}

} // verus!
