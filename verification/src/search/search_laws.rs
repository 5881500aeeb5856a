//! What queries, matches and hits must satisfy, whatever way they are computed.

use crate::error::Error;
use crate::glass::entries;
use crate::glass::inflate;
use crate::glass::list_laws;
use crate::glass::postlist;
use crate::glass::postlist::PostlistSpec;
use crate::glass::sortable;
use crate::glass::store_laws;
use crate::glass::table::TableSpec;
use crate::glass::tree;
use crate::glass::version::RootInfo;
use crate::search::grouping;
use crate::search::grouping::{DocMatches, DocSpec, Part};
use crate::search::query;
use crate::search::rank;
use crate::search::searcher;
use crate::search::searcher::{DumpSpec, HitSpec, MatchesSpec, RankedHit, Searcher, TermMatches};
use vstd::prelude::*;
use vstd::seq_lib;
use vstd::utf8;

verus! {

// Ranking.

/// Of the given pairs the best `k` are returned, or all where there are fewer, the best
/// first: a greater weight is better, and with equal weights a smaller document number.
/// The returned pairs and those left out together are the given pairs, and none that is
/// left out is better than one that is returned.
pub proof fn law_top_is_best(hits: Seq<(u64, u64)>, k: nat) -> (rest: Seq<(u64, u64)>)
    ensures
        rank::top(hits, k).len() == (if k <= hits.len() {
            k
        } else {
            hits.len()
        }),
        (rank::top(hits, k) + rest).to_multiset() == hits.to_multiset(),
        forall|i: int, j: int|
            0 <= i < rank::top(hits, k).len() && 0 <= j < rest.len() ==> (#[trigger] rest[j]).1 < (
            #[trigger] rank::top(hits, k)[i]).1 || (rest[j].1 == rank::top(hits, k)[i].1
                && rest[j].0 >= rank::top(hits, k)[i].0),
        forall|i: int, j: int|
            0 <= i < j < rank::top(hits, k).len() ==> (#[trigger] rank::top(hits, k)[j]).1 < (
            #[trigger] rank::top(hits, k)[i]).1 || (rank::top(hits, k)[j].1 == rank::top(
                hits,
                k,
            )[i].1 && rank::top(hits, k)[j].0 >= rank::top(hits, k)[i].0),
{
    let all = rank::ranked(hits);
    let best = rank::top(hits, k);
    let n = best.len() as int;
    rank::law_ranked(hits);
    let rest = all.skip(n);
    assert(best =~= all.take(n));
    assert(best + rest =~= all);
    assert forall|i: int, j: int| 0 <= i < n && 0 <= j < rest.len() implies (#[trigger] rest[j]).1 < (
    #[trigger] best[i]).1 || (rest[j].1 == best[i].1 && rest[j].0 >= best[i].0) by {
        assert(!rank::ranks_before(all[n + j], all[i]));
    }
    assert forall|i: int, j: int| 0 <= i < j < n implies (#[trigger] best[j]).1 < (
    #[trigger] best[i]).1 || (best[j].1 == best[i].1 && best[j].0 >= best[i].0) by {
        assert(!rank::ranks_before(all[j], all[i]));
    }
    rest
}

// Words.

/// The spans of a text's words: each is a maximal run of alphanumeric characters, they
/// stand in order, and every alphanumeric character lies in one.
pub open spec fn marks_words(s: Seq<char>, words: Seq<Seq<char>>, spans: Seq<(int, int)>) -> bool {
    &&& spans.len() == words.len()
    &&& forall|k: int|
        0 <= k < spans.len() ==> 0 <= (#[trigger] spans[k]).0 < spans[k].1 <= s.len() && words[k]
            == s.subrange(spans[k].0, spans[k].1)
    &&& forall|k: int, x: int|
        0 <= k < spans.len() && spans[k].0 <= x < spans[k].1 ==> query::alphanumeric(
            #[trigger] s[x],
        ) && (#[trigger] spans[k]).0 <= x
    &&& forall|k: int|
        0 <= k < spans.len() && 0 < (#[trigger] spans[k]).0 ==> !query::alphanumeric(
            s[spans[k].0 - 1],
        )
    &&& forall|k: int|
        0 <= k < spans.len() && (#[trigger] spans[k]).1 < s.len() ==> !query::alphanumeric(
            s[spans[k].1],
        )
    &&& forall|k: int, l: int|
        0 <= k < l < spans.len() ==> (#[trigger] spans[k]).1 <= (#[trigger] spans[l]).0
    &&& forall|x: int|
        0 <= x < s.len() && query::alphanumeric(#[trigger] s[x]) ==> exists|k: int|
            0 <= k < spans.len() && (#[trigger] spans[k]).0 <= x < spans[k].1
}

proof fn lemma_spans(s: Seq<char>, i: int) -> (spans: Seq<(int, int)>)
    requires
        0 <= i <= s.len(),
        i == 0 || i == s.len() || !query::alphanumeric(s[i - 1]) || !query::alphanumeric(s[i]),
    ensures
        ({
            let words = query::words_from(s, i);
            &&& spans.len() == words.len()
            &&& forall|k: int|
                0 <= k < spans.len() ==> i <= (#[trigger] spans[k]).0 < spans[k].1 <= s.len()
                    && words[k] == s.subrange(spans[k].0, spans[k].1)
            &&& forall|k: int, x: int|
                0 <= k < spans.len() && spans[k].0 <= x < spans[k].1 ==> query::alphanumeric(
                    #[trigger] s[x],
                ) && (#[trigger] spans[k]).0 <= x
            &&& forall|k: int|
                0 <= k < spans.len() && 0 < (#[trigger] spans[k]).0 ==> !query::alphanumeric(
                    s[spans[k].0 - 1],
                )
            &&& forall|k: int|
                0 <= k < spans.len() && (#[trigger] spans[k]).1 < s.len() ==> !query::alphanumeric(
                    s[spans[k].1],
                )
            &&& forall|k: int, l: int|
                0 <= k < l < spans.len() ==> (#[trigger] spans[k]).1 <= (#[trigger] spans[l]).0
            &&& forall|x: int|
                i <= x < s.len() && query::alphanumeric(#[trigger] s[x]) ==> exists|k: int|
                    0 <= k < spans.len() && (#[trigger] spans[k]).0 <= x < spans[k].1
        }),
    decreases s.len() - i,
{
    if i >= s.len() {
        Seq::empty()
    } else if !query::alphanumeric(s[i]) {
        lemma_spans(s, i + 1)
    } else {
        let e = query::word_end(s, i + 1);
        query::lemma_word_end(s, i + 1);
        let rest = lemma_spans(s, e);
        let spans = seq![(i, e)] + rest;
        let words = query::words_from(s, i);
        assert(words == seq![s.subrange(i, e)] + query::words_from(s, e));
        assert forall|k: int| 1 <= k < spans.len() implies #[trigger] spans[k] == rest[k - 1] by {}
        assert forall|x: int| i <= x < s.len() && query::alphanumeric(#[trigger] s[x]) implies exists|
            k: int,
        |
            0 <= k < spans.len() && (#[trigger] spans[k]).0 <= x < spans[k].1 by {
            if x < e {
                assert(spans[0].0 <= x < spans[0].1);
            } else {
                let k = choose|k: int|
                    0 <= k < rest.len() && (#[trigger] rest[k]).0 <= x < rest[k].1;
                assert(spans[k + 1] == rest[k]);
            }
        }
        spans
    }
}

/// The words of a text are its maximal runs of alphanumeric characters: each starts at the
/// start of the text or behind another character, and ends at the end of the text or
/// before another character; together they hold every alphanumeric character.
pub proof fn law_words_are_maximal(s: Seq<char>)
    ensures
        exists|spans: Seq<(int, int)>| #[trigger] marks_words(s, query::words(s), spans),
{
    let spans = lemma_spans(s, 0);
    assert(marks_words(s, query::words(s), spans));
}

/// The tokens of a text are its words, one for one, in lower case.
pub proof fn law_tokens(s: Seq<char>)
    ensures
        query::tokens(s).len() == query::words(s).len(),
        forall|k: int|
            0 <= k < query::words(s).len() ==> #[trigger] query::tokens(s)[k] == query::lowercased(
                query::words(s)[k],
            ),
{
}

/// Strings that hold texts hold them one for one.
pub proof fn law_texts(v: Seq<String>, texts: Seq<Seq<char>>)
    requires
        query::texts_are(v, texts),
    ensures
        v.map_values(|s: String| s@) == texts,
{
    assert forall|k: int| 0 <= k < texts.len() implies v.map_values(|s: String| s@)[k]
        == texts[k] by {
        assert(v[k]@ == texts[k]);
    }
    assert(v.map_values(|s: String| s@) =~= texts);
}

/// Pairs that hold counted terms hold them one for one.
pub proof fn law_counted_pairs(v: Seq<(String, usize)>, list: Seq<(Seq<char>, nat)>)
    requires
        query::counts_are(v, list),
    ensures
        v.map_values(|p: (String, usize)| (p.0@, p.1 as nat)) == list,
        query::counts_of(v) == list,
{
    assert forall|k: int| 0 <= k < list.len() implies v.map_values(
        |p: (String, usize)| (p.0@, p.1 as nat),
    )[k] == list[k] by {
        assert(v[k].0@ == list[k].0);
    }
    assert(v.map_values(|p: (String, usize)| (p.0@, p.1 as nat)) =~= list);
}

/// The stems of words are the stemmer's, one for one, where every word can be stemmed.
pub proof fn law_stems(words: Seq<Seq<char>>)
    requires
        forall|k: int|
            0 <= k < words.len() ==> utf8::encode_utf8(#[trigger] words[k]).len() <= 0x7fff_ffff,
    ensures
        query::stems_of(words) == Ok::<Seq<Seq<char>>, Error>(
            words.map_values(|w: Seq<char>| query::stemmed(w)),
        ),
{
    assert forall|k: int| 0 <= k < words.len() implies query::stemmer_takes(
        utf8::encode_utf8(#[trigger] words[k]).len(),
    ) by {}
    let a = words.map_values(|w: Seq<char>| query::stem_of(w));
    let b = words.map_values(|w: Seq<char>| query::stemmed(w));
    assert forall|k: int| 0 <= k < words.len() implies a[k] == b[k] by {
        assert(utf8::encode_utf8(words[k]).len() <= 0x7fff_ffff);
    }
    assert(a =~= b);
}

/// A term is among counted terms.
pub open spec fn lists_term(terms: Seq<(Seq<char>, nat)>, term: Seq<char>) -> bool {
    exists|i: int| 0 <= i < terms.len() && (#[trigger] terms[i]).0 == term
}

/// A query searches for the stems of its lower-case words: every one of them, each once,
/// with the number of words that have it.
pub proof fn law_query_terms(text: Seq<char>, stems: Seq<Seq<char>>)
    requires
        stems.len() == query::words(text).len(),
        forall|k: int|
            0 <= k < stems.len() ==> utf8::encode_utf8(
                query::lowercased(#[trigger] query::words(text)[k]),
            ).len() <= 0x7fff_ffff,
        forall|k: int|
            0 <= k < stems.len() ==> #[trigger] stems[k] == query::stemmed(
                query::lowercased(query::words(text)[k]),
            ),
    ensures
        query::query_terms_of(text) matches Ok(terms) && {
            &&& forall|i: int, j: int|
                0 <= i < j < terms.len() ==> (#[trigger] terms[i]).0 != (#[trigger] terms[j]).0
            &&& forall|i: int|
                0 <= i < terms.len() ==> (#[trigger] terms[i]).1 > 0 && terms[i].1
                    == stems.to_multiset().count(terms[i].0)
            &&& forall|k: int|
                0 <= k < stems.len() ==> lists_term(terms, #[trigger] stems[k])
        },
{
    let words = query::words(text);
    let tokens = query::tokens(text);
    assert forall|k: int| 0 <= k < tokens.len() implies utf8::encode_utf8(
        #[trigger] tokens[k],
    ).len() <= 0x7fff_ffff by {
        assert(tokens[k] == query::lowercased(words[k]));
    }
    law_stems(tokens);
    assert(tokens.map_values(|w: Seq<char>| query::stemmed(w)) =~= stems);
    let terms = query::counted(stems);
    assert(query::query_terms_of(text) == Ok::<Seq<(Seq<char>, nat)>, Error>(terms));
    query::law_counts(stems);
    assert forall|i: int| 0 <= i < terms.len() implies (#[trigger] terms[i]).1 > 0 && terms[i].1
        == stems.to_multiset().count(terms[i].0) by {
        lemma_occurrences(stems, terms[i].0);
    }
    assert forall|k: int| 0 <= k < stems.len() implies lists_term(terms, #[trigger] stems[k]) by {
        query::lemma_place_bounds(terms, stems[k]);
        let p = query::place_of(terms, stems[k]);
        assert(terms[p].0 == stems[k]);
    }
}

proof fn lemma_occurrences(stems: Seq<Seq<char>>, term: Seq<char>)
    ensures
        query::occurrences(stems, term) == stems.to_multiset().count(term),
    decreases stems.len(),
{
    broadcast use vstd::multiset::group_multiset_axioms;

    if stems.len() > 0 {
        let most = stems.drop_last();
        lemma_occurrences(most, term);
        seq_lib::to_multiset_build(most, stems.last());
        assert(stems =~= most.push(stems.last()));
    } else {
        seq_lib::to_multiset_contains(stems, term);
    }
}

// Matches.

/// The posting list table that an index's first root describes.
pub open spec fn list_table(raw: Seq<u8>, base: usize, root: RootInfo) -> TableSpec {
    TableSpec {
        file: raw,
        base: base as nat,
        block_size: root.blocksize as nat,
        root: root.root,
        level: root.level as nat,
        root_is_fake: root.root_is_fake,
        name: "postlist",
    }
}

proof fn lemma_filled(lens: Seq<u32>, pairs: Seq<(u64, u32)>)
    ensures
        searcher::filled(lens, pairs).len() == lens.len(),
    decreases pairs.len(),
{
    if pairs.len() > 0 {
        lemma_filled(lens, pairs.drop_last());
    }
}

/// Where the posting list table stores a list of lengths in which no document occurs
/// twice, a searcher's length of each document in it is the stored one, and that of every
/// other document is zero.
pub proof fn law_lengths_loaded(
    raw: Seq<u8>,
    base: usize,
    roots: Seq<RootInfo>,
    last_docid: u64,
    termfreq: u64,
    collfreq: u64,
    lists: Seq<Seq<(u64, u32)>>,
    at: int,
)
    requires
        roots.len() > 0,
        (last_docid + 1) * 4 <= isize::MAX,
        store_laws::stores_list(
            list_table(raw, base, roots[0]),
            Seq::empty(),
            termfreq,
            collfreq,
            lists,
            at,
        ),
        forall|i: int, j: int|
            0 <= i < j < lists.flatten().len() ==> (#[trigger] lists.flatten()[i]).0 != (
            #[trigger] lists.flatten()[j]).0,
    ensures
        searcher::doclens_of(raw, base, roots, last_docid) matches Ok(lens) && {
            &&& lens.len() == last_docid + 1
            &&& forall|i: int|
                0 <= i < lists.flatten().len() && (#[trigger] lists.flatten()[i]).0 <= last_docid
                    ==> lens[lists.flatten()[i].0 as int] == lists.flatten()[i].1
            &&& forall|did: u64|
                did <= last_docid && (forall|i: int|
                    0 <= i < lists.flatten().len() ==> (#[trigger] lists.flatten()[i]).0 != did)
                    ==> #[trigger] lens[did as int] == 0
        },
{
    let list = lists.flatten();
    let zeros = Seq::new((last_docid + 1) as nat, |i: int| 0u32);
    store_laws::law_stored_list(
        list_table(raw, base, roots[0]),
        Seq::empty(),
        termfreq,
        collfreq,
        lists,
        at,
    );
    assert(searcher::table_of(raw, base, roots[0], "postlist") == list_table(
        raw,
        base,
        roots[0],
    ));
    let lens = searcher::doclens_of(raw, base, roots, last_docid).unwrap();
    assert(lens == searcher::filled(zeros, list));
    lemma_filled(zeros, list);
    assert forall|i: int| 0 <= i < list.len() && (#[trigger] list[i]).0 <= last_docid implies lens[list[i].0 as int]
        == list[i].1 by {
        searcher::law_filled(zeros, list, list[i].0);
    }
    assert forall|did: u64|
        did <= last_docid && (forall|i: int|
            0 <= i < list.len() ==> (#[trigger] list[i]).0 != did) implies #[trigger] lens[did as int]
        == 0 by {
        searcher::law_filled(zeros, list, did);
    }
}

/// Where the posting list table stores no list of lengths, every length is zero.
pub proof fn law_lengths_missing(raw: Seq<u8>, base: usize, roots: Seq<RootInfo>, last_docid: u64)
    requires
        roots.len() > 0,
        (last_docid + 1) * 4 <= isize::MAX,
        tree::table_ok(list_table(raw, base, roots[0])),
        forall|i: int|
            !tree::is_first_of(
                tree::items_of(list_table(raw, base, roots[0])),
                seq![0x00u8, 0xe0u8],
                i,
            ),
    ensures
        searcher::doclens_of(raw, base, roots, last_docid) matches Ok(lens) && lens.len()
            == last_docid + 1 && forall|k: int| 0 <= k <= last_docid ==> #[trigger] lens[k] == 0,
{
    let t = list_table(raw, base, roots[0]);
    assert(searcher::table_of(raw, base, roots[0], "postlist") == t);
    store_laws::law_postlist_missing(t, Seq::empty());
}

/// The length of a document that is listed is the listed one, and of any other zero.
pub proof fn law_length_of(lens: Seq<u32>, did: u64)
    ensures
        did < lens.len() ==> searcher::doclen(lens, did) == lens[did as int],
        did >= lens.len() ==> searcher::doclen(lens, did) == 0,
{
}

/// The matches of a term whose list is stored are its postings, one for one, each with the
/// length of its document, or zero where that is not known. A list for no documents is as
/// good as none.
pub proof fn law_matches_stored(
    t: TableSpec,
    lens: Seq<u32>,
    term: Seq<u8>,
    termfreq: u64,
    collfreq: u64,
    lists: Seq<Seq<(u64, u32)>>,
    at: int,
)
    requires
        store_laws::stores_list(t, term, termfreq, collfreq, lists, at),
    ensures
        termfreq == 0 ==> searcher::matches_of(t, lens, term) == Ok::<Option<MatchesSpec>, Error>(
            None,
        ),
        termfreq > 0 ==> (searcher::matches_of(t, lens, term) matches Ok(Some(m)) && {
            &&& m.termfreq == termfreq
            &&& m.postings.len() == lists.flatten().len()
            &&& forall|i: int|
                0 <= i < m.postings.len() ==> (#[trigger] m.postings[i]).0 == lists.flatten()[i].0
                    && m.postings[i].1 == lists.flatten()[i].1 && m.postings[i].2 == (if m.postings[i].0
                    < lens.len() {
                    lens[m.postings[i].0 as int]
                } else {
                    0
                })
        }),
{
    store_laws::law_stored_list(t, term, termfreq, collfreq, lists, at);
}

/// A term whose list is not stored matches nothing.
pub proof fn law_matches_missing(t: TableSpec, lens: Seq<u32>, term: Seq<u8>)
    requires
        tree::table_ok(t),
        forall|i: int| !tree::is_first_of(tree::items_of(t), postlist::list_key(term), i),
    ensures
        searcher::matches_of(t, lens, term) == Ok::<Option<MatchesSpec>, Error>(None),
{
    store_laws::law_postlist_missing(t, term);
}

/// The dump of a term whose list is stored has a row for each posting, in order: the
/// document, its count and its length.
pub proof fn law_dump_stored(
    t: TableSpec,
    lens: Seq<u32>,
    term: Seq<u8>,
    termfreq: u64,
    collfreq: u64,
    lists: Seq<Seq<(u64, u32)>>,
    at: int,
)
    requires
        store_laws::stores_list(t, term, termfreq, collfreq, lists, at),
        forall|i: int|
            0 <= i < lists.flatten().len() ==> (#[trigger] lists.flatten()[i]).0 < lens.len(),
    ensures
        searcher::dump_of(t, lens, term) matches Ok(Some(dump)) && {
            &&& dump.termfreq == termfreq
            &&& dump.collfreq == collfreq
            &&& dump.rows.len() == lists.flatten().len()
            &&& forall|i: int|
                0 <= i < dump.rows.len() ==> (#[trigger] dump.rows[i]).0 == lists.flatten()[i].0
                    && dump.rows[i].1 == lists.flatten()[i].1 && dump.rows[i].2
                    == lens[lists.flatten()[i].0 as int]
        },
{
    store_laws::law_stored_list(t, term, termfreq, collfreq, lists, at);
}

/// The dump of a term whose list is not stored is nothing.
pub proof fn law_dump_missing(t: TableSpec, lens: Seq<u32>, term: Seq<u8>)
    requires
        tree::table_ok(t),
        forall|i: int| !tree::is_first_of(tree::items_of(t), postlist::list_key(term), i),
    ensures
        searcher::dump_of(t, lens, term) == Ok::<Option<DumpSpec>, Error>(None),
{
    store_laws::law_postlist_missing(t, term);
}

proof fn lemma_filter_front<A>(s: Seq<A>, pred: spec_fn(A) -> bool)
    requires
        s.len() > 0,
    ensures
        s.filter(pred) == (if pred(s[0]) {
            seq![s[0]] + s.drop_first().filter(pred)
        } else {
            s.drop_first().filter(pred)
        }),
{
    let rest = s.drop_first();
    assert(s =~= seq![s[0]] + rest);
    Seq::filter_distributes_over_add(seq![s[0]], rest, pred);
    assert(seq![s[0]].filter(pred) =~= (if pred(s[0]) {
        seq![s[0]]
    } else {
        Seq::empty()
    })) by {
        reveal(Seq::filter);
        assert(seq![s[0]].drop_last() =~= Seq::<A>::empty());
        assert(Seq::<A>::empty().filter(pred) =~= Seq::<A>::empty());
    }
    assert(Seq::<A>::empty() + rest.filter(pred) =~= rest.filter(pred));
}

/// The candidates of a query are the matches of exactly those of its terms that match
/// anything, each once and in the order of the terms, with the term's count.
pub proof fn law_candidates(t: TableSpec, lens: Seq<u32>, terms: Seq<(Seq<char>, nat)>)
    requires
        forall|k: int|
            0 <= k < terms.len() ==> searcher::matches_of(
                t,
                lens,
                utf8::encode_utf8((#[trigger] terms[k]).0),
            ) is Ok,
    ensures
        searcher::candidates_of(t, lens, terms) == Ok::<Seq<(nat, MatchesSpec)>, Error>(
            terms.filter(
                |c: (Seq<char>, nat)|
                    searcher::matches_of(t, lens, utf8::encode_utf8(c.0)).unwrap() is Some,
            ).map_values(
                |c: (Seq<char>, nat)|
                    (c.1, searcher::matches_of(t, lens, utf8::encode_utf8(c.0)).unwrap().unwrap()),
            ),
        ),
    decreases terms.len(),
{
    let pred = |c: (Seq<char>, nat)|
        searcher::matches_of(t, lens, utf8::encode_utf8(c.0)).unwrap() is Some;
    let f = |c: (Seq<char>, nat)|
        (c.1, searcher::matches_of(t, lens, utf8::encode_utf8(c.0)).unwrap().unwrap());
    if terms.len() > 0 {
        let rest = terms.drop_first();
        assert forall|k: int| 0 <= k < rest.len() implies searcher::matches_of(
            t,
            lens,
            utf8::encode_utf8((#[trigger] rest[k]).0),
        ) is Ok by {
            assert(rest[k] == terms[k + 1]);
        }
        law_candidates(t, lens, rest);
        lemma_filter_front(terms, pred);
        assert(searcher::matches_of(t, lens, utf8::encode_utf8(terms[0].0)) is Ok);
        if pred(terms[0]) {
            assert((seq![terms[0]] + rest.filter(pred)).map_values(f) =~= seq![f(terms[0])]
                + rest.filter(pred).map_values(f));
        }
    } else {
        assert(terms.filter(pred).map_values(f) =~= Seq::empty()) by {
            reveal(Seq::filter);
        }
    }
}

/// Vectors that hold candidates hold them one for one.
pub proof fn law_candidate_pairs(v: Seq<(usize, TermMatches)>, list: Seq<(nat, MatchesSpec)>)
    requires
        searcher::candidates_are(v, list),
    ensures
        v.map_values(|c: (usize, TermMatches)| (c.0 as nat, c.1@)) == list,
{
    assert forall|k: int| 0 <= k < list.len() implies v.map_values(
        |c: (usize, TermMatches)| (c.0 as nat, c.1@),
    )[k] == list[k] by {
        assert(v[k].0 == list[k].0);
    }
    assert(v.map_values(|c: (usize, TermMatches)| (c.0 as nat, c.1@)) =~= list);
}

// Documents.

proof fn lemma_flatten_push<A>(s: Seq<Seq<A>>, x: Seq<A>)
    ensures
        s.push(x).flatten() == s.flatten() + x,
    decreases s.len(),
{
    if s.len() == 0 {
        assert(s.push(x).drop_first() =~= Seq::<Seq<A>>::empty());
        assert(Seq::<Seq<A>>::empty().flatten() =~= Seq::<A>::empty());
        assert(s.push(x).flatten() =~= s.flatten() + x);
    } else {
        lemma_flatten_push(s.drop_first(), x);
        assert(s.push(x).drop_first() =~= s.drop_first().push(x));
        assert(s.push(x).flatten() =~= s.flatten() + x);
    }
}

/// The matches of all terms are those of each term, in order: every posting gives its
/// document a match with the term's statistics, the posting's count and the length.
pub proof fn law_all_parts(found: Seq<(nat, MatchesSpec)>)
    ensures
        grouping::all_parts(found) == found.map_values(
            |f: (nat, MatchesSpec)|
                f.1.postings.map_values(
                    |p: (u64, u32, u32)|
                        (
                            p.0,
                            Part {
                                termfreq: f.1.termfreq,
                                wqf: f.0 as usize,
                                wdf: p.1,
                                doclen: p.2,
                            },
                        ),
                ),
        ).flatten(),
    decreases found.len(),
{
    let g = |f: (nat, MatchesSpec)|
        f.1.postings.map_values(
            |p: (u64, u32, u32)|
                (
                    p.0,
                    Part { termfreq: f.1.termfreq, wqf: f.0 as usize, wdf: p.1, doclen: p.2 },
                ),
        );
    if found.len() > 0 {
        let most = found.drop_last();
        law_all_parts(most);
        assert(found.map_values(g) =~= most.map_values(g).push(g(found.last())));
        lemma_flatten_push(most.map_values(g), g(found.last()));
        assert(grouping::term_parts(found.last().1, found.last().0) =~= g(found.last()));
    } else {
        assert(found.map_values(g).flatten() =~= Seq::empty());
    }
}

proof fn lemma_parts_for(parts: Seq<(u64, Part)>, did: u64)
    ensures
        grouping::parts_for(parts, did) == parts.filter(|e: (u64, Part)| e.0 == did).map_values(
            |e: (u64, Part)| e.1,
        ),
    decreases parts.len(),
{
    let pred = |e: (u64, Part)| e.0 == did;
    let f = |e: (u64, Part)| e.1;
    reveal(Seq::filter);
    if parts.len() > 0 {
        let most = parts.drop_last();
        lemma_parts_for(most, did);
        if pred(parts.last()) {
            assert(most.filter(pred).push(parts.last()).map_values(f) =~= most.filter(
                pred,
            ).map_values(f).push(f(parts.last())));
        }
    } else {
        assert(parts.filter(pred).map_values(f) =~= Seq::<Part>::empty());
    }
}

/// Grouping lists each document that has a match once, with exactly its own matches, all
/// of them and in order.
pub proof fn law_documents(parts: Seq<(u64, Part)>)
    ensures
        forall|i: int, j: int|
            0 <= i < j < grouping::grouped(parts).len() ==> (#[trigger] grouping::grouped(
                parts,
            )[i]).docid != (#[trigger] grouping::grouped(parts)[j]).docid,
        forall|i: int|
            0 <= i < grouping::grouped(parts).len() ==> (#[trigger] grouping::grouped(
                parts,
            )[i]).parts == parts.filter(
                |e: (u64, Part)| e.0 == grouping::grouped(parts)[i].docid,
            ).map_values(|e: (u64, Part)| e.1) && grouping::grouped(parts)[i].parts.len() > 0,
        forall|k: int|
            0 <= k < parts.len() ==> exists|i: int|
                0 <= i < grouping::grouped(parts).len() && (#[trigger] grouping::grouped(
                    parts,
                )[i]).docid == (#[trigger] parts[k]).0,
{
    let docs = grouping::grouped(parts);
    grouping::law_grouped(parts);
    assert forall|i: int| 0 <= i < docs.len() implies (#[trigger] docs[i]).parts == parts.filter(
        |e: (u64, Part)| e.0 == docs[i].docid,
    ).map_values(|e: (u64, Part)| e.1) && docs[i].parts.len() > 0 by {
        lemma_parts_for(parts, docs[i].docid);
    }
    assert forall|k: int| 0 <= k < parts.len() implies exists|i: int|
        0 <= i < docs.len() && (#[trigger] docs[i]).docid == (#[trigger] parts[k]).0 by {
        grouping::lemma_place_bounds(docs, parts[k].0);
        let p = grouping::place_of(docs, parts[k].0);
        assert(docs[p].docid == parts[k].0);
    }
}

/// Vectors that hold documents hold them one for one.
pub proof fn law_document_vectors(v: Seq<DocMatches>, list: Seq<DocSpec>)
    requires
        grouping::docs_are(v, list),
    ensures
        v.map_values(|d: DocMatches| d@) == list,
{
    assert forall|k: int| 0 <= k < list.len() implies v.map_values(|d: DocMatches| d@)[k]
        == list[k] by {
        assert(v[k]@ == list[k]);
    }
    assert(v.map_values(|d: DocMatches| d@) =~= list);
}

/// What a query finds are the matches of its terms.
pub proof fn law_parts_found(t: TableSpec, lens: Seq<u32>, text: Seq<char>)
    requires
        query::query_terms_of(text) is Ok,
        searcher::candidates_of(t, lens, query::query_terms_of(text).unwrap()) is Ok,
    ensures
        searcher::parts_found(t, lens, text) == Ok::<Seq<(u64, Part)>, Error>(
            grouping::all_parts(
                searcher::candidates_of(t, lens, query::query_terms_of(text).unwrap()).unwrap(),
            ),
        ),
{
}

// Hits.

/// Resolving keeps the hits, one for one and in order, and gives each the path of its own
/// document.
pub proof fn law_resolved(t: TableSpec, hits: Seq<(u64, u64)>)
    requires
        forall|i: int| 0 <= i < hits.len() ==> searcher::path_of(t, (#[trigger] hits[i]).0) is Ok,
    ensures
        searcher::resolved(t, hits) matches Ok(out) && out.len() == hits.len() && forall|i: int|
            0 <= i < hits.len() ==> (#[trigger] out[i]).docid == hits[i].0 && out[i].weight
                == hits[i].1 && searcher::path_of(t, hits[i].0) == Ok::<Seq<char>, Error>(
                out[i].path,
            ),
    decreases hits.len(),
{
    if hits.len() > 0 {
        let rest = hits.drop_first();
        assert forall|i: int| 0 <= i < rest.len() implies searcher::path_of(
            t,
            (#[trigger] rest[i]).0,
        ) is Ok by {
            assert(rest[i] == hits[i + 1]);
        }
        law_resolved(t, rest);
        assert(searcher::path_of(t, hits[0].0) is Ok);
        let tail = searcher::resolved(t, rest).unwrap();
        let out = searcher::resolved(t, hits).unwrap();
        assert forall|i: int| 0 <= i < hits.len() implies (#[trigger] out[i]).docid == hits[i].0
            && out[i].weight == hits[i].1 && searcher::path_of(t, hits[i].0) == Ok::<
            Seq<char>,
            Error,
        >(out[i].path) by {
            if i > 0 {
                assert(out[i] == tail[i - 1]);
                assert(rest[i - 1] == hits[i]);
            }
        }
    }
}

/// Where a document's path cannot be read, resolving fails, with the first such failure.
pub proof fn law_resolve_fails(t: TableSpec, hits: Seq<(u64, u64)>, i: int, e: Error)
    requires
        0 <= i < hits.len(),
        forall|k: int| 0 <= k < i ==> searcher::path_of(t, (#[trigger] hits[k]).0) is Ok,
        searcher::path_of(t, hits[i].0) == Err::<Seq<char>, Error>(e),
    ensures
        searcher::resolved(t, hits) == Err::<Seq<HitSpec>, Error>(e),
    decreases hits.len(),
{
    if i > 0 {
        let rest = hits.drop_first();
        assert forall|k: int| 0 <= k < i - 1 implies searcher::path_of(
            t,
            (#[trigger] rest[k]).0,
        ) is Ok by {
            assert(rest[k] == hits[k + 1]);
        }
        assert(rest[i - 1] == hits[i]);
        law_resolve_fails(t, rest, i - 1, e);
        assert(searcher::path_of(t, hits[0].0) is Ok);
    }
}

/// Vectors that hold hits hold them one for one.
pub proof fn law_hit_vectors(v: Seq<RankedHit>, list: Seq<HitSpec>)
    requires
        searcher::hits_are(v, list),
    ensures
        v.map_values(|h: RankedHit| h@) == list,
{
    assert forall|k: int| 0 <= k < list.len() implies v.map_values(|h: RankedHit| h@)[k]
        == list[k] by {
        assert(v[k]@ == list[k]);
    }
    assert(v.map_values(|h: RankedHit| h@) =~= list);
}

/// Every document is weighed, and its weight is one that the weight function returns for
/// it.
pub proof fn law_all_weighed<F: Fn(&DocMatches) -> u64>(
    weight: F,
    docs: Seq<DocSpec>,
    scored: Seq<(u64, u64)>,
    i: int,
) -> (m: DocMatches)
    requires
        searcher::weighed_by(weight, docs, scored),
        0 <= i < docs.len(),
    ensures
        scored.len() == docs.len(),
        scored[i].0 == docs[i].docid,
        m@ == docs[i],
        call_ensures(weight, (&m,), scored[i].1),
{
    assert(scored[i].0 == docs[i].docid);
    choose|m: DocMatches| m@ == docs[i] && #[trigger] call_ensures(weight, (&m,), scored[i].1)
}

/// The path of a document whose data is stored uncompressed is the text of that data.
pub proof fn law_plain_path(t: TableSpec, did: u64, i: int, n: int)
    requires
        tree::table_ok(t),
        !t.root_is_fake,
        tree::is_first_of(tree::items_of(t), sortable::sortable(did), i),
        store_laws::one_tag(tree::items_of(t), i, n),
        !tree::items_of(t)[i].compressed,
    ensures
        searcher::path_of(t, did) == Ok::<Seq<char>, Error>(
            searcher::lossy_text(
                tree::items_of(t).subrange(i, i + n).map_values(
                    |x: crate::glass::block::Leaf| x.chunk,
                ).flatten(),
            ),
        ),
{
    sortable::lemma_sortable_len(did);
    store_laws::law_plain_tag_returned(t, sortable::sortable(did), i, n);
}

/// A title has the characters of the path behind a leading "C/", one for one, underscores
/// as spaces.
pub proof fn law_title(path: Seq<char>)
    ensures
        ({
            let skip: int = if path.len() >= 2 && path[0] == 'C' && path[1] == '/' {
                2
            } else {
                0
            };
            &&& searcher::title_of(path).len() == path.len() - skip
            &&& forall|i: int|
                0 <= i < path.len() - skip ==> #[trigger] searcher::title_of(path)[i] == (if path[i
                    + skip] == '_' {
                    ' '
                } else {
                    path[i + skip]
                })
        }),
{
}

/// A searcher reads its lists from table 0 of the database and its documents from table 1,
/// each as its root info describes it.
pub proof fn law_tables(s: Searcher)
    ensures
        s.postlist_spec() == (TableSpec {
            file: s.raw@,
            base: s.base as nat,
            block_size: s.version.roots@[0].blocksize as nat,
            root: s.version.roots@[0].root,
            level: s.version.roots@[0].level as nat,
            root_is_fake: s.version.roots@[0].root_is_fake,
            name: "postlist",
        }),
        s.docdata_spec() == (TableSpec {
            file: s.raw@,
            base: s.base as nat,
            block_size: s.version.roots@[1].blocksize as nat,
            root: s.version.roots@[1].root,
            level: s.version.roots@[1].level as nat,
            root_is_fake: s.version.roots@[1].root_is_fake,
            name: "docdata",
        }),
{
}

// Order of terms and documents.

/// Place `p` is the first at which `x` stands in `s`.
pub open spec fn first_at<A>(s: Seq<A>, x: A, p: int) -> bool {
    0 <= p < s.len() && s[p] == x && forall|k: int| 0 <= k < p ==> #[trigger] s[k] != x
}

proof fn lemma_counted_occurs(stems: Seq<Seq<char>>, i: int) -> (k: int)
    requires
        0 <= i < query::counted(stems).len(),
    ensures
        0 <= k < stems.len(),
        stems[k] == query::counted(stems)[i].0,
{
    let term = query::counted(stems)[i].0;
    query::law_counts(stems);
    lemma_occurrences(stems, term);
    seq_lib::to_multiset_contains(stems, term);
    choose|k: int| 0 <= k < stems.len() && stems[k] == term
}

/// Counted terms stand in the order in which they first occur.
pub proof fn law_terms_in_order(stems: Seq<Seq<char>>, i: int, j: int, p: int, q: int)
    requires
        0 <= i < j < query::counted(stems).len(),
        first_at(stems, query::counted(stems)[i].0, p),
        first_at(stems, query::counted(stems)[j].0, q),
    ensures
        p < q,
    decreases stems.len(),
{
    if stems.len() > 0 {
        let before = stems.drop_last();
        let old_list = query::counted(before);
        let list = query::counted(stems);
        query::lemma_place_bounds(old_list, stems.last());
        assert(list[i].0 == old_list[i].0);
        let k = lemma_counted_occurs(before, i);
        assert(stems[k] == before[k]);
        assert(p <= k);
        assert(first_at(before, old_list[i].0, p));
        if j < old_list.len() {
            assert(list[j].0 == old_list[j].0);
            let m = lemma_counted_occurs(before, j);
            assert(stems[m] == before[m]);
            assert(q <= m);
            assert(first_at(before, old_list[j].0, q));
            law_terms_in_order(before, i, j, p, q);
        } else {
            let term = stems.last();
            assert(list[j].0 == term);
            if q < before.len() {
                assert(before[q] == term);
                query::law_counts(before);
                assert(query::place_of(old_list, before[q]) < old_list.len());
            }
        }
    }
}

proof fn lemma_part_occurs(parts: Seq<(u64, Part)>, did: u64) -> (k: int)
    requires
        grouping::parts_for(parts, did).len() > 0,
    ensures
        0 <= k < parts.len(),
        parts[k].0 == did,
    decreases parts.len(),
{
    if parts.last().0 == did {
        parts.len() - 1
    } else {
        lemma_part_occurs(parts.drop_last(), did)
    }
}

/// Documents stand in the order in which they first have a match.
pub proof fn law_documents_in_order(parts: Seq<(u64, Part)>, ids: Seq<u64>, i: int, j: int, p: int, q: int)
    requires
        0 <= i < j < grouping::grouped(parts).len(),
        ids.len() == parts.len(),
        forall|k: int| 0 <= k < parts.len() ==> #[trigger] ids[k] == parts[k].0,
        first_at(ids, grouping::grouped(parts)[i].docid, p),
        first_at(ids, grouping::grouped(parts)[j].docid, q),
    ensures
        p < q,
    decreases parts.len(),
{
    if parts.len() > 0 {
        let before = parts.drop_last();
        let most = ids.drop_last();
        let old_list = grouping::grouped(before);
        let list = grouping::grouped(parts);
        let did = parts.last().0;
        grouping::lemma_place_bounds(old_list, did);
        grouping::law_grouped(before);
        assert(list[i].docid == old_list[i].docid);
        let k = lemma_part_occurs(before, old_list[i].docid);
        assert(ids[k] == parts[k].0);
        assert(p <= k);
        assert(first_at(most, old_list[i].docid, p));
        if j < old_list.len() {
            assert(list[j].docid == old_list[j].docid);
            let m = lemma_part_occurs(before, old_list[j].docid);
            assert(ids[m] == parts[m].0);
            assert(q <= m);
            assert(first_at(most, old_list[j].docid, q));
            law_documents_in_order(before, most, i, j, p, q);
        } else {
            assert(list[j].docid == did);
            if q < before.len() {
                assert(ids[q] == parts[q].0);
                assert(before[q].0 == did);
                assert(grouping::place_of(old_list, before[q].0) < old_list.len());
            }
        }
    }
}

// Failures.

/// Without a posting list table, or with more documents than a vector can list, there is no
/// searcher.
pub proof fn law_lengths_refused(raw: Seq<u8>, base: usize, roots: Seq<RootInfo>, last_docid: u64)
    requires
        roots.len() == 0 || (last_docid + 1) * 4 > isize::MAX,
    ensures
        searcher::doclens_of(raw, base, roots, last_docid) == Err::<Seq<u32>, Error>(
            Error::Malformed,
        ),
{
}

/// Where a list cannot be read, whatever needs it fails with the same failure.
pub proof fn law_list_unreadable(t: TableSpec, lens: Seq<u32>, term: Seq<u8>, e: Error)
    requires
        postlist::postlist_of(t, term) == Err::<Option<PostlistSpec>, Error>(e),
    ensures
        searcher::matches_of(t, lens, term) == Err::<Option<MatchesSpec>, Error>(e),
        searcher::dump_of(t, lens, term) == Err::<Option<DumpSpec>, Error>(e),
{
}

/// Where the list of lengths cannot be read, there is no searcher.
pub proof fn law_lengths_unreadable(
    raw: Seq<u8>,
    base: usize,
    roots: Seq<RootInfo>,
    last_docid: u64,
    e: Error,
)
    requires
        roots.len() > 0,
        (last_docid + 1) * 4 <= isize::MAX,
        postlist::postlist_of(list_table(raw, base, roots[0]), Seq::empty()) == Err::<
            Option<PostlistSpec>,
            Error,
        >(e),
    ensures
        searcher::doclens_of(raw, base, roots, last_docid) == Err::<Seq<u32>, Error>(e),
{
    assert(searcher::table_of(raw, base, roots[0], "postlist") == list_table(raw, base, roots[0]));
}

/// The dump of a term with a document whose length is not known is refused.
pub proof fn law_dump_refused(
    t: TableSpec,
    lens: Seq<u32>,
    term: Seq<u8>,
    list: PostlistSpec,
    i: int,
)
    requires
        postlist::postlist_of(t, term) == Ok::<Option<PostlistSpec>, Error>(Some(list)),
        0 <= i < list.postings.len(),
        list.postings[i].0 >= lens.len(),
    ensures
        searcher::dump_of(t, lens, term) == Err::<Option<DumpSpec>, Error>(Error::Malformed),
{
}

/// A query fails with the failure of the first of its terms whose matches cannot be read.
pub proof fn law_candidates_fail(
    t: TableSpec,
    lens: Seq<u32>,
    terms: Seq<(Seq<char>, nat)>,
    i: int,
    e: Error,
)
    requires
        0 <= i < terms.len(),
        forall|k: int|
            0 <= k < i ==> searcher::matches_of(
                t,
                lens,
                utf8::encode_utf8((#[trigger] terms[k]).0),
            ) is Ok,
        searcher::matches_of(t, lens, utf8::encode_utf8(terms[i].0)) == Err::<
            Option<MatchesSpec>,
            Error,
        >(e),
    ensures
        searcher::candidates_of(t, lens, terms) == Err::<Seq<(nat, MatchesSpec)>, Error>(e),
    decreases terms.len(),
{
    if i > 0 {
        let rest = terms.drop_first();
        assert forall|k: int| 0 <= k < i - 1 implies searcher::matches_of(
            t,
            lens,
            utf8::encode_utf8((#[trigger] rest[k]).0),
        ) is Ok by {
            assert(rest[k] == terms[k + 1]);
        }
        assert(rest[i - 1] == terms[i]);
        law_candidates_fail(t, lens, rest, i - 1, e);
        assert(searcher::matches_of(t, lens, utf8::encode_utf8(terms[0].0)) is Ok);
    }
}

/// A query whose terms or matches cannot be had finds nothing but that failure.
pub proof fn law_query_fails(t: TableSpec, lens: Seq<u32>, text: Seq<char>, e: Error)
    requires
        query::query_terms_of(text) == Err::<Seq<(Seq<char>, nat)>, Error>(e) || (
        query::query_terms_of(text) is Ok && searcher::candidates_of(
            t,
            lens,
            query::query_terms_of(text).unwrap(),
        ) == Err::<Seq<(nat, MatchesSpec)>, Error>(e)),
    ensures
        searcher::parts_found(t, lens, text) == Err::<Seq<(u64, Part)>, Error>(e),
{
}

/// A word of more than 0x7fff_ffff bytes that the stemmer takes stands for itself, and a list
/// with a word that it does not take has no stems.
pub proof fn law_long_words(word: Seq<char>, words: Seq<Seq<char>>, k: int)
    ensures
        utf8::encode_utf8(word).len() > 0x7fff_ffff ==> query::stem_of(word) == word,
        0 <= k < words.len() && utf8::encode_utf8(words[k]).len() >= 0x1_0000_0000 && 3
            <= utf8::encode_utf8(words[k]).len() as int % 0x1_0000_0000 <= 0x7fff_ffff
            ==> query::stems_of(words) == Err::<Seq<Seq<char>>, Error>(Error::Malformed),
        (forall|i: int|
            0 <= i < words.len() ==> utf8::encode_utf8(#[trigger] words[i]).len() <= 0x7fff_ffff
                || utf8::encode_utf8(words[i]).len() as int % 0x1_0000_0000 > 0x7fff_ffff
                || utf8::encode_utf8(words[i]).len() as int % 0x1_0000_0000 < 3)
            ==> query::stems_of(words) is Ok && query::stems_of(words).unwrap().len()
            == words.len() && forall|i: int|
            0 <= i < words.len() ==> #[trigger] query::stems_of(words).unwrap()[i]
                == query::stem_of(words[i]),
{
}

/// A document without stored data has a path that says so.
pub proof fn law_path_missing(t: TableSpec, did: u64)
    requires
        t.root_is_fake || (tree::table_ok(t) && forall|i: int|
            !tree::is_first_of(tree::items_of(t), sortable::sortable(did), i)),
    ensures
        searcher::path_of(t, did) == Ok::<Seq<char>, Error>("<no docdata>"@),
{
    if !t.root_is_fake {
        store_laws::law_lookup_missing(t, sortable::sortable(did));
    }
}

/// The path of a document whose data is stored compressed is the text of what flate2 makes
/// of it, or its failure.
pub proof fn law_compressed_path(t: TableSpec, did: u64, i: int, n: int)
    requires
        tree::table_ok(t),
        !t.root_is_fake,
        tree::is_first_of(tree::items_of(t), sortable::sortable(did), i),
        store_laws::one_tag(tree::items_of(t), i, n),
        tree::items_of(t)[i].compressed,
    ensures
        searcher::path_of(t, did) == (match inflate::inflated(
            tree::items_of(t).subrange(i, i + n).map_values(
                |x: crate::glass::block::Leaf| x.chunk,
            ).flatten(),
        ) {
            Ok(tag) => Ok(searcher::lossy_text(tag)),
            Err(true) => Err(Error::DeflateIncomplete),
            Err(false) => Err(Error::DeflateCorrupt),
        }),
{
    sortable::lemma_sortable_len(did);
    store_laws::law_compressed_tag_returned(t, sortable::sortable(did), i, n);
}

/// Where a document's data cannot be read, neither can its path.
pub proof fn law_path_fails(t: TableSpec, did: u64, e: Error)
    requires
        entries::entry_of(t, sortable::sortable(did)) == Err::<Option<Seq<u8>>, Error>(e),
    ensures
        searcher::path_of(t, did) == Err::<Seq<char>, Error>(e),
{
}

} // verus!
