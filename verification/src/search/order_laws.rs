//! The order of the words in a query does not matter to what it finds.

use crate::error::Error;
use crate::glass::table::TableSpec;
use crate::search::grouping;
use crate::search::grouping::{DocMatches, DocSpec, Part};
use crate::search::query;
use crate::search::rank;
use crate::search::searcher;
use crate::search::searcher::MatchesSpec;
use vstd::multiset::Multiset;
use vstd::prelude::*;
use vstd::seq_lib;
use vstd::utf8;

verus! {

// Sums over a sequence.

/// What `f` gives for the elements of `s`, all together.
spec fn total<A, B>(s: Seq<A>, f: spec_fn(A) -> Multiset<B>) -> Multiset<B>
    decreases s.len(),
{
    if s.len() == 0 {
        Multiset::empty()
    } else {
        total(s.drop_last(), f).add(f(s.last()))
    }
}

proof fn lemma_total_concat<A, B>(a: Seq<A>, b: Seq<A>, f: spec_fn(A) -> Multiset<B>)
    ensures
        total(a + b, f) =~= total(a, f).add(total(b, f)),
    decreases b.len(),
{
    broadcast use vstd::multiset::group_multiset_axioms;

    if b.len() == 0 {
        assert(a + b =~= a);
    } else {
        assert((a + b).drop_last() =~= a + b.drop_last());
        lemma_total_concat(a, b.drop_last(), f);
    }
}

proof fn lemma_total_one<A, B>(x: A, f: spec_fn(A) -> Multiset<B>)
    ensures
        total(seq![x], f) =~= f(x),
{
    broadcast use vstd::multiset::group_multiset_axioms;

    assert(seq![x].drop_last() =~= Seq::<A>::empty());
    assert(total(Seq::<A>::empty(), f) =~= Multiset::<B>::empty());
}

/// A sum does not depend on the order of the elements.
proof fn lemma_total_permutes<A, B>(a: Seq<A>, b: Seq<A>, f: spec_fn(A) -> Multiset<B>)
    requires
        a.to_multiset() == b.to_multiset(),
    ensures
        total(a, f) == total(b, f),
    decreases a.len(),
{
    broadcast use vstd::multiset::group_multiset_axioms;

    seq_lib::to_multiset_len(a);
    seq_lib::to_multiset_len(b);
    if a.len() > 0 {
        let x = a.last();
        let most = a.drop_last();
        assert(a.contains(x)) by {
            assert(a[a.len() - 1] == x);
        }
        seq_lib::to_multiset_contains(a, x);
        seq_lib::to_multiset_contains(b, x);
        let i = b.index_of(x);
        assert(b.contains(x));
        assert(0 <= i < b.len() && b[i] == x);
        seq_lib::to_multiset_remove(a, a.len() - 1);
        seq_lib::to_multiset_remove(b, i);
        assert(a.remove(a.len() - 1) =~= most);
        lemma_total_permutes(most, b.remove(i), f);
        let front = b.take(i);
        let back = b.skip(i + 1);
        assert(b.remove(i) =~= front + back);
        assert(b =~= front + (seq![x] + back));
        lemma_total_concat(front, back, f);
        lemma_total_concat(front, seq![x] + back, f);
        lemma_total_concat(seq![x], back, f);
        lemma_total_one(x, f);
        assert(total(a, f) =~= total(b, f));
    } else {
        assert(a =~= b);
    }
}

/// Mapping two arrangements of the same elements gives two arrangements of the same
/// elements.
proof fn lemma_map_permutes<A, B>(a: Seq<A>, b: Seq<A>, g: spec_fn(A) -> B)
    requires
        a.to_multiset() == b.to_multiset(),
    ensures
        a.map_values(g).to_multiset() == b.map_values(g).to_multiset(),
{
    let f = |x: A| Multiset::singleton(g(x));
    lemma_total_permutes(a, b, f);
    lemma_map_total(a, g);
    lemma_map_total(b, g);
}

proof fn lemma_map_total<A, B>(a: Seq<A>, g: spec_fn(A) -> B)
    ensures
        a.map_values(g).to_multiset() == total(a, |x: A| Multiset::singleton(g(x))),
    decreases a.len(),
{
    broadcast use vstd::multiset::group_multiset_axioms;

    let f = |x: A| Multiset::singleton(g(x));
    if a.len() > 0 {
        let most = a.drop_last();
        lemma_map_total(most, g);
        assert(a.map_values(g) =~= most.map_values(g).push(g(a.last())));
        seq_lib::to_multiset_build(most.map_values(g), g(a.last()));
        assert(a.map_values(g).to_multiset() =~= total(a, f));
    } else {
        assert(a.map_values(g).to_multiset() =~= total(a, f)) by {
            assert forall|x: B| a.map_values(g).to_multiset().count(x) == 0 by {
                seq_lib::to_multiset_contains(a.map_values(g), x);
            }
        }
    }
}

// Counted terms.

proof fn lemma_occurrences(stems: Seq<Seq<char>>, term: Seq<char>)
    ensures
        query::occurrences(stems, term) == stems.to_multiset().count(term),
    decreases stems.len(),
{
    broadcast use vstd::multiset::group_multiset_axioms;

    if stems.len() > 0 {
        let most = stems.drop_last();
        lemma_occurrences(most, term);
        seq_lib::to_multiset_build(most, stems.last());
        assert(stems =~= most.push(stems.last()));
    } else {
        seq_lib::to_multiset_contains(stems, term);
    }
}

/// A counted term is listed exactly where the term occurs, and that often.
proof fn lemma_counted(stems: Seq<Seq<char>>, c: (Seq<char>, nat))
    ensures
        query::counted(stems).no_duplicates(),
        query::counted(stems).contains(c) <==> c.1 > 0 && c.1 == query::occurrences(stems, c.0),
{
    let list = query::counted(stems);
    query::law_counts(stems);
    if list.contains(c) {
        let i = list.index_of(c);
        assert(list[i] == c);
    }
    if c.1 > 0 && c.1 == query::occurrences(stems, c.0) {
        lemma_occurrences(stems, c.0);
        seq_lib::to_multiset_contains(stems, c.0);
        let k = stems.index_of(c.0);
        assert(stems[k] == c.0);
        query::lemma_place_bounds(list, stems[k]);
        let p = query::place_of(list, stems[k]);
        assert(list[p].0 == c.0);
        assert(list[p] == c);
    }
    assert forall|i: int, j: int| 0 <= i < list.len() && 0 <= j < list.len() && i != j implies list[i]
        != list[j] by {
        if i < j {
            assert(list[i].0 != list[j].0);
        } else {
            assert(list[j].0 != list[i].0);
        }
    }
}

/// The same stems in another order give the same counted terms, in some order.
proof fn lemma_counted_permutes(a: Seq<Seq<char>>, b: Seq<Seq<char>>)
    requires
        a.to_multiset() == b.to_multiset(),
    ensures
        query::counted(a).to_multiset() == query::counted(b).to_multiset(),
{
    assert forall|c: (Seq<char>, nat)| query::counted(a).to_multiset().count(c) == query::counted(
        b,
    ).to_multiset().count(c) by {
        lemma_counted(a, c);
        lemma_counted(b, c);
        lemma_occurrences(a, c.0);
        lemma_occurrences(b, c.0);
        lemma_unique_count(query::counted(a), c);
        lemma_unique_count(query::counted(b), c);
    }
    assert(query::counted(a).to_multiset() =~= query::counted(b).to_multiset());
}

proof fn lemma_unique_count<A>(s: Seq<A>, x: A)
    requires
        s.no_duplicates(),
    ensures
        s.to_multiset().count(x) == (if s.contains(x) {
            1nat
        } else {
            0nat
        }),
{
    seq_lib::to_multiset_contains(s, x);
    s.lemma_multiset_has_no_duplicates();
    if s.contains(x) {
        assert(s.to_multiset().contains(x));
    }
}

// Matches.

/// What one counted term adds.
spec fn parts_of_term(t: TableSpec, lens: Seq<u32>, c: (Seq<char>, nat)) -> Seq<(u64, Part)> {
    match searcher::matches_of(t, lens, utf8::encode_utf8(c.0)) {
        Ok(Some(m)) => grouping::term_parts(m, c.1),
        _ => Seq::empty(),
    }
}

/// What counted terms add, one behind the other.
spec fn parts_of_terms(t: TableSpec, lens: Seq<u32>, terms: Seq<(Seq<char>, nat)>) -> Seq<
    (u64, Part),
>
    decreases terms.len(),
{
    if terms.len() == 0 {
        Seq::empty()
    } else {
        parts_of_term(t, lens, terms[0]) + parts_of_terms(t, lens, terms.drop_first())
    }
}

proof fn lemma_all_parts_front(first: (nat, MatchesSpec), rest: Seq<(nat, MatchesSpec)>)
    ensures
        grouping::all_parts(seq![first] + rest) == grouping::term_parts(first.1, first.0)
            + grouping::all_parts(rest),
    decreases rest.len(),
{
    let all = seq![first] + rest;
    if rest.len() == 0 {
        assert(all.drop_last() =~= Seq::<(nat, MatchesSpec)>::empty());
        assert(grouping::all_parts(all.drop_last()).len() == 0);
        assert(grouping::all_parts(all) =~= grouping::term_parts(first.1, first.0)
            + grouping::all_parts(rest));
    } else {
        lemma_all_parts_front(first, rest.drop_last());
        assert(all.drop_last() =~= seq![first] + rest.drop_last());
        assert(all.last() == rest.last());
        assert(grouping::all_parts(all) =~= grouping::term_parts(first.1, first.0)
            + grouping::all_parts(rest));
    }
}

proof fn lemma_candidate_parts(t: TableSpec, lens: Seq<u32>, terms: Seq<(Seq<char>, nat)>)
    requires
        searcher::candidates_of(t, lens, terms) is Ok,
    ensures
        grouping::all_parts(searcher::candidates_of(t, lens, terms).unwrap()) == parts_of_terms(
            t,
            lens,
            terms,
        ),
    decreases terms.len(),
{
    if terms.len() > 0 {
        let rest = terms.drop_first();
        lemma_candidate_parts(t, lens, rest);
        let later = searcher::candidates_of(t, lens, rest).unwrap();
        match searcher::matches_of(t, lens, utf8::encode_utf8(terms[0].0)) {
            Ok(Some(m)) => {
                lemma_all_parts_front((terms[0].1, m), later);
            },
            _ => {
                assert(Seq::<(u64, Part)>::empty() + parts_of_terms(t, lens, rest)
                    =~= parts_of_terms(t, lens, rest));
            },
        }
    }
}

/// Candidates exist where every term can be looked up.
proof fn lemma_candidates_exist(t: TableSpec, lens: Seq<u32>, terms: Seq<(Seq<char>, nat)>)
    requires
        forall|k: int|
            0 <= k < terms.len() ==> searcher::matches_of(
                t,
                lens,
                utf8::encode_utf8((#[trigger] terms[k]).0),
            ) is Ok,
    ensures
        searcher::candidates_of(t, lens, terms) is Ok,
    decreases terms.len(),
{
    if terms.len() > 0 {
        let rest = terms.drop_first();
        assert forall|k: int| 0 <= k < rest.len() implies searcher::matches_of(
            t,
            lens,
            utf8::encode_utf8((#[trigger] rest[k]).0),
        ) is Ok by {
            assert(rest[k] == terms[k + 1]);
        }
        assert(searcher::matches_of(t, lens, utf8::encode_utf8(terms[0].0)) is Ok);
        lemma_candidates_exist(t, lens, rest);
    }
}

proof fn lemma_parts_for_concat(a: Seq<(u64, Part)>, b: Seq<(u64, Part)>, did: u64)
    ensures
        grouping::parts_for(a + b, did) == grouping::parts_for(a, did) + grouping::parts_for(
            b,
            did,
        ),
    decreases b.len(),
{
    if b.len() == 0 {
        assert(a + b =~= a);
        assert(grouping::parts_for(a, did) + grouping::parts_for(b, did) =~= grouping::parts_for(
            a,
            did,
        ));
    } else {
        assert((a + b).drop_last() =~= a + b.drop_last());
        lemma_parts_for_concat(a, b.drop_last(), did);
        assert(grouping::parts_for(a + b, did) =~= grouping::parts_for(a, did)
            + grouping::parts_for(b, did));
    }
}

/// What one counted term adds to a document.
spec fn term_share(t: TableSpec, lens: Seq<u32>, did: u64) -> spec_fn((Seq<char>, nat)) -> Multiset<
    Part,
> {
    |c: (Seq<char>, nat)| grouping::parts_for(parts_of_term(t, lens, c), did).to_multiset()
}

proof fn lemma_shares(t: TableSpec, lens: Seq<u32>, terms: Seq<(Seq<char>, nat)>, did: u64)
    ensures
        grouping::parts_for(parts_of_terms(t, lens, terms), did).to_multiset() == total(
            terms,
            term_share(t, lens, did),
        ),
    decreases terms.len(),
{
    broadcast use vstd::multiset::group_multiset_axioms;

    let f = term_share(t, lens, did);
    let whole = grouping::parts_for(parts_of_terms(t, lens, terms), did);
    if terms.len() > 0 {
        let rest = terms.drop_first();
        let head = parts_of_term(t, lens, terms[0]);
        let tail = parts_of_terms(t, lens, rest);
        lemma_shares(t, lens, rest, did);
        lemma_parts_for_concat(head, tail, did);
        seq_lib::lemma_multiset_commutative(
            grouping::parts_for(head, did),
            grouping::parts_for(tail, did),
        );
        lemma_total_concat(seq![terms[0]], rest, f);
        lemma_total_one(terms[0], f);
        assert(terms =~= seq![terms[0]] + rest);
        assert(whole.to_multiset() =~= total(terms, f));
    } else {
        assert(whole.to_multiset() =~= total(terms, f)) by {
            assert forall|x: Part| whole.to_multiset().count(x) == 0 by {
                seq_lib::to_multiset_contains(whole, x);
            }
        }
    }
}

/// The order of the words in a query, their letter case and what stands between them do
/// not matter: two queries with the same lower-case words, in any order, find the same
/// matches in every document.
pub proof fn law_word_order(t: TableSpec, lens: Seq<u32>, one: Seq<char>, other: Seq<char>)
    requires
        query::tokens(one).to_multiset() == query::tokens(other).to_multiset(),
        searcher::parts_found(t, lens, one) is Ok,
    ensures
        searcher::parts_found(t, lens, other) is Ok,
        forall|did: u64|
            (#[trigger] grouping::parts_for(
                searcher::parts_found(t, lens, one).unwrap(),
                did,
            )).to_multiset() == grouping::parts_for(
                searcher::parts_found(t, lens, other).unwrap(),
                did,
            ).to_multiset(),
{
    let a = query::tokens(one);
    let b = query::tokens(other);
    assert forall|k: int| 0 <= k < b.len() implies query::stemmer_takes(
        utf8::encode_utf8(#[trigger] b[k]).len(),
    ) by {
        assert(b.contains(b[k]));
        seq_lib::to_multiset_contains(b, b[k]);
        seq_lib::to_multiset_contains(a, b[k]);
        let i = a.index_of(b[k]);
        assert(a[i] == b[k]);
    }
    let g = |w: Seq<char>| query::stem_of(w);
    lemma_map_permutes(a, b, g);
    lemma_counted_permutes(a.map_values(g), b.map_values(g));
    let x = query::counted(a.map_values(g));
    let y = query::counted(b.map_values(g));
    assert(query::query_terms_of(one) == Ok::<Seq<(Seq<char>, nat)>, Error>(x));
    assert(query::query_terms_of(other) == Ok::<Seq<(Seq<char>, nat)>, Error>(y));
    searcher::law_any_term_matches(t, lens, x);
    assert forall|k: int| 0 <= k < y.len() implies searcher::matches_of(
        t,
        lens,
        utf8::encode_utf8((#[trigger] y[k]).0),
    ) is Ok by {
        assert(y.contains(y[k]));
        seq_lib::to_multiset_contains(y, y[k]);
        seq_lib::to_multiset_contains(x, y[k]);
        let i = x.index_of(y[k]);
        assert(x[i] == y[k]);
    }
    lemma_candidates_exist(t, lens, y);
    lemma_candidate_parts(t, lens, x);
    lemma_candidate_parts(t, lens, y);
    assert forall|did: u64|
        (#[trigger] grouping::parts_for(searcher::parts_found(t, lens, one).unwrap(), did)).to_multiset()
            == grouping::parts_for(searcher::parts_found(t, lens, other).unwrap(), did).to_multiset() by {
        lemma_shares(t, lens, x, did);
        lemma_shares(t, lens, y, did);
        lemma_total_permutes(x, y, term_share(t, lens, did));
    }
}

// Ranking.

/// Documents with the weights that `weight` gives them, by number and matches.
pub open spec fn weighted(docs: Seq<DocSpec>, weight: spec_fn(u64, Multiset<Part>) -> u64) -> Seq<
    (u64, u64),
> {
    docs.map_values(|d: DocSpec| (d.docid, weight(d.docid, d.parts.to_multiset())))
}

/// A weighted document is listed exactly where it has a match.
proof fn lemma_weighted(
    parts: Seq<(u64, Part)>,
    weight: spec_fn(u64, Multiset<Part>) -> u64,
    p: (u64, u64),
)
    ensures
        weighted(grouping::grouped(parts), weight).no_duplicates(),
        weighted(grouping::grouped(parts), weight).contains(p) <==> grouping::parts_for(
            parts,
            p.0,
        ).len() > 0 && p.1 == weight(p.0, grouping::parts_for(parts, p.0).to_multiset()),
{
    let docs = grouping::grouped(parts);
    let list = weighted(docs, weight);
    grouping::law_grouped(parts);
    assert forall|i: int, j: int| 0 <= i < list.len() && 0 <= j < list.len() && i != j implies list[i]
        != list[j] by {
        if i < j {
            assert(docs[i].docid != docs[j].docid);
        } else {
            assert(docs[j].docid != docs[i].docid);
        }
    }
    if list.contains(p) {
        let i = list.index_of(p);
        assert(list[i] == p);
        assert(docs[i].docid == p.0);
    }
    let mine = grouping::parts_for(parts, p.0);
    if mine.len() > 0 && p.1 == weight(p.0, mine.to_multiset()) {
        let k = lemma_part_exists(parts, p.0);
        assert(parts[k].0 == p.0);
        grouping::lemma_place_bounds(docs, parts[k].0);
        let i = grouping::place_of(docs, parts[k].0);
        assert(docs[i].docid == p.0);
        assert(list[i] == p);
    }
}

proof fn lemma_part_exists(parts: Seq<(u64, Part)>, did: u64) -> (k: int)
    requires
        grouping::parts_for(parts, did).len() > 0,
    ensures
        0 <= k < parts.len(),
        parts[k].0 == did,
    decreases parts.len(),
{
    if parts.last().0 == did {
        parts.len() - 1
    } else {
        lemma_part_exists(parts.drop_last(), did)
    }
}

/// Two queries with the same lower-case words, in any order, have the same hits, with the
/// same paths and in the same order, whatever weight a document's number and matches give
/// it.
pub proof fn law_word_order_keeps_hits(
    t: TableSpec,
    docdata: TableSpec,
    lens: Seq<u32>,
    one: Seq<char>,
    other: Seq<char>,
    weight: spec_fn(u64, Multiset<Part>) -> u64,
    k: nat,
)
    requires
        query::tokens(one).to_multiset() == query::tokens(other).to_multiset(),
        searcher::parts_found(t, lens, one) is Ok,
    ensures
        searcher::parts_found(t, lens, other) is Ok,
        ({
            let a = weighted(
                grouping::grouped(searcher::parts_found(t, lens, one).unwrap()),
                weight,
            );
            let b = weighted(
                grouping::grouped(searcher::parts_found(t, lens, other).unwrap()),
                weight,
            );
            &&& rank::top(a, k) == rank::top(b, k)
            &&& searcher::resolved(docdata, rank::top(a, k)) == searcher::resolved(
                docdata,
                rank::top(b, k),
            )
        }),
{
    law_word_order(t, lens, one, other);
    let a = searcher::parts_found(t, lens, one).unwrap();
    let b = searcher::parts_found(t, lens, other).unwrap();
    let x = weighted(grouping::grouped(a), weight);
    let y = weighted(grouping::grouped(b), weight);
    assert forall|p: (u64, u64)| x.to_multiset().count(p) == y.to_multiset().count(p) by {
        lemma_weighted(a, weight, p);
        lemma_weighted(b, weight, p);
        lemma_unique_count(x, p);
        lemma_unique_count(y, p);
        let mine = grouping::parts_for(a, p.0);
        let theirs = grouping::parts_for(b, p.0);
        assert(mine.to_multiset() == theirs.to_multiset());
        seq_lib::to_multiset_len(mine);
        seq_lib::to_multiset_len(theirs);
    }
    assert(x.to_multiset() =~= y.to_multiset());
    rank::law_ranking_ignores_order(x, y, k);
}

/// The weights that a search computes are those of `rule`, where its weight function
/// returns what `rule` says.
pub proof fn law_weights<F: Fn(&DocMatches) -> u64>(
    weight: F,
    rule: spec_fn(u64, Multiset<Part>) -> u64,
    docs: Seq<DocSpec>,
    scored: Seq<(u64, u64)>,
)
    requires
        forall|m: &DocMatches, w: u64| #[trigger]
            call_ensures(weight, (m,), w) ==> w == rule(m.docid, m.parts@.to_multiset()),
        searcher::weighed_by(weight, docs, scored),
    ensures
        scored == weighted(docs, rule),
{
    assert forall|i: int| 0 <= i < docs.len() implies #[trigger] scored[i] == weighted(
        docs,
        rule,
    )[i] by {
        assert(searcher::weighs(weight, docs[i], scored[i].1));
        let m = choose|m: DocMatches| m@ == docs[i] && #[trigger] call_ensures(
            weight,
            (&m,),
            scored[i].1,
        );
        assert(m.docid == docs[i].docid && m.parts@ == docs[i].parts);
    }
    assert(scored =~= weighted(docs, rule));
}

} // verus!
