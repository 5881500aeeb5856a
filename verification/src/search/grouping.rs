//! From the matches of terms to documents: what each document matches.

use crate::search::searcher::{MatchesSpec, TermMatches};
use std::collections::HashMap;
use vstd::prelude::*;

verus! {

/// One term's match in a document.
#[derive(Debug, Clone, Copy, PartialEq, Eq, Structural)]
pub struct Part {
    /// The number of documents that the term occurs in.
    pub termfreq: u64,
    /// The number of the term's occurrences in the query.
    pub wqf: usize,
    /// The number of the term's occurrences in the document.
    pub wdf: u32,
    /// The length of the document.
    pub doclen: u32,
}

/// A document and the terms that it matches.
pub struct DocMatches {
    pub docid: u64,
    pub parts: Vec<Part>,
}

/// What a document matches.
pub struct DocSpec {
    pub docid: u64,
    pub parts: Seq<Part>,
}

impl View for DocMatches {
    type V = DocSpec;

    open spec fn view(&self) -> DocSpec {
        DocSpec { docid: self.docid, parts: self.parts@ }
    }
}

/// A term's matches, document by document.
pub open spec fn term_parts(m: MatchesSpec, wqf: nat) -> Seq<(u64, Part)> {
    m.postings.map_values(
        |p: (u64, u32, u32)|
            (p.0, Part { termfreq: m.termfreq, wqf: wqf as usize, wdf: p.1, doclen: p.2 }),
    )
}

/// The matches of all terms, one term behind the other.
pub open spec fn all_parts(found: Seq<(nat, MatchesSpec)>) -> Seq<(u64, Part)>
    decreases found.len(),
{
    if found.len() == 0 {
        Seq::empty()
    } else {
        all_parts(found.drop_last()) + term_parts(found.last().1, found.last().0)
    }
}

/// The place of document `did` in a list, or the list's length.
pub open spec fn place_of(list: Seq<DocSpec>, did: u64) -> int
    decreases list.len(),
{
    if list.len() == 0 || list[0].docid == did {
        0
    } else {
        1 + place_of(list.drop_first(), did)
    }
}

/// A list of documents with one more match.
pub open spec fn with_part(list: Seq<DocSpec>, did: u64, part: Part) -> Seq<DocSpec> {
    let k = place_of(list, did);
    if k < list.len() {
        list.update(k, DocSpec { docid: did, parts: list[k].parts.push(part) })
    } else {
        list.push(DocSpec { docid: did, parts: seq![part] })
    }
}

/// The documents among `parts`, in the order in which they first occur, each with all its
/// matches in order.
pub open spec fn grouped(parts: Seq<(u64, Part)>) -> Seq<DocSpec>
    decreases parts.len(),
{
    if parts.len() == 0 {
        Seq::empty()
    } else {
        with_part(grouped(parts.drop_last()), parts.last().0, parts.last().1)
    }
}

/// Whether documents are those that a vector holds.
pub open spec fn docs_are(v: Seq<DocMatches>, list: Seq<DocSpec>) -> bool {
    v.len() == list.len() && forall|k: int| 0 <= k < list.len() ==> (#[trigger] v[k])@ == list[k]
}

/// The map gives each document's place in the list, and lists no other document.
spec fn indexes(index: Map<u64, usize>, list: Seq<DocSpec>) -> bool {
    &&& forall|k: int|
        0 <= k < list.len() ==> index.contains_key((#[trigger] list[k]).docid)
            && index[list[k].docid] == k
    &&& forall|did: u64| #[trigger]
        index.contains_key(did) ==> index[did] < list.len() && list[index[did] as int].docid == did
}

proof fn lemma_place(list: Seq<DocSpec>, did: u64, k: int)
    requires
        0 <= k <= list.len(),
        forall|i: int| 0 <= i < k ==> (#[trigger] list[i]).docid != did,
        k < list.len() ==> list[k].docid == did,
    ensures
        place_of(list, did) == k,
    decreases list.len(),
{
    if k > 0 {
        assert(list[0].docid != did);
        assert forall|i: int| 0 <= i < k - 1 implies (#[trigger] list.drop_first()[i]).docid
            != did by {
            assert(list.drop_first()[i] == list[i + 1]);
        }
        lemma_place(list.drop_first(), did, k - 1);
    }
}

/// What the map says of a document is its place in the list.
proof fn lemma_indexed(index: Map<u64, usize>, list: Seq<DocSpec>, did: u64)
    requires
        indexes(index, list),
    ensures
        place_of(list, did) == (if index.contains_key(did) {
            index[did] as int
        } else {
            list.len() as int
        }),
{
    let k = if index.contains_key(did) {
        index[did] as int
    } else {
        list.len() as int
    };
    assert forall|i: int| 0 <= i < k implies (#[trigger] list[i]).docid != did by {
        assert(index.contains_key(list[i].docid));
    }
    lemma_place(list, did, k);
}

/// Add one match to the documents and the map of their places.
fn add_part(
    docs: &mut Vec<DocMatches>,
    index: &mut HashMap<u64, usize>,
    did: u64,
    part: Part,
    Ghost(list): Ghost<Seq<DocSpec>>,
)
    requires
        docs_are(old(docs)@, list),
        indexes(old(index)@, list),
    ensures
        docs_are(final(docs)@, with_part(list, did, part)),
        indexes(final(index)@, with_part(list, did, part)),
{
    broadcast use vstd::std_specs::hash::group_hash_axioms;

    proof {
        lemma_indexed(index@, list, did);
    }
    let place: Option<usize> = match index.get(&did) {
        Some(k) => Some(*k),
        None => None,
    };
    match place {
        Some(k) => {
            assert(docs@[k as int]@ == list[k as int]);
            docs[k].parts.push(part);
        },
        None => {
            index.insert(did, docs.len());
            let parts: Vec<Part> = vec![part];
            assert(parts@ =~= seq![part]);
            docs.push(DocMatches { docid: did, parts });
        },
    }
}

/// Gather the matches of terms by document: each document once, in the order in which the
/// documents first occur, with all its matches in the order of the terms.
pub fn gather(found: &Vec<(usize, TermMatches)>) -> (r: Vec<DocMatches>)
    ensures
        docs_are(r@, grouped(all_parts(found@.map_values(|f: (usize, TermMatches)| (f.0 as nat, f.1@))))),
{
    broadcast use vstd::std_specs::hash::group_hash_axioms;

    let ghost spec = found@.map_values(|f: (usize, TermMatches)| (f.0 as nat, f.1@));
    let mut docs: Vec<DocMatches> = Vec::new();
    let mut index: HashMap<u64, usize> = HashMap::new();
    let mut i: usize = 0;
    while i < found.len()
        invariant
            i <= found.len(),
            spec == found@.map_values(|f: (usize, TermMatches)| (f.0 as nat, f.1@)),
            docs_are(docs@, grouped(all_parts(spec.take(i as int)))),
            indexes(index@, grouped(all_parts(spec.take(i as int)))),
        decreases found.len() - i,
    {
        let wqf: usize = found[i].0;
        let m: &TermMatches = &found[i].1;
        let ghost before = all_parts(spec.take(i as int));
        let ghost more = term_parts(m@, wqf as nat);
        let mut k: usize = 0;
        assert(before + more.take(0) =~= before);
        while k < m.postings.len()
            invariant
                k <= m.postings.len(),
                more == term_parts(m@, wqf as nat),
                docs_are(docs@, grouped(before + more.take(k as int))),
                indexes(index@, grouped(before + more.take(k as int))),
            decreases m.postings.len() - k,
        {
            let (did, wdf, doclen): (u64, u32, u32) = m.postings[k];
            let part: Part = Part { termfreq: m.termfreq, wqf, wdf, doclen };
            proof {
                let next = before + more.take(k + 1);
                assert(next.drop_last() =~= before + more.take(k as int));
                assert(next.last() == (did, part));
            }
            add_part(
                &mut docs,
                &mut index,
                did,
                part,
                Ghost(grouped(before + more.take(k as int))),
            );
            k += 1;
        }
        proof {
            assert(more.take(k as int) =~= more);
            assert(spec.take(i + 1).drop_last() =~= spec.take(i as int));
            assert(spec.take(i + 1).last() == (wqf as nat, m@));
        }
        i += 1;
    }
    assert(spec.take(i as int) =~= spec);
    docs
}

/// A place in a list is that of its first match, or the list's length.
pub proof fn lemma_place_bounds(list: Seq<DocSpec>, did: u64)
    ensures
        0 <= place_of(list, did) <= list.len(),
        place_of(list, did) < list.len() ==> list[place_of(list, did)].docid == did,
        forall|i: int| 0 <= i < place_of(list, did) ==> (#[trigger] list[i]).docid != did,
    decreases list.len(),
{
    if list.len() > 0 && list[0].docid != did {
        let rest = list.drop_first();
        lemma_place_bounds(rest, did);
        assert forall|i: int| 0 <= i < place_of(list, did) implies (#[trigger] list[i]).docid
            != did by {
            if i > 0 {
                assert(rest[i - 1] == list[i]);
            }
        }
    }
}

/// The matches of one document, in order.
pub open spec fn parts_for(parts: Seq<(u64, Part)>, did: u64) -> Seq<Part>
    decreases parts.len(),
{
    if parts.len() == 0 {
        Seq::empty()
    } else if parts.last().0 == did {
        parts_for(parts.drop_last(), did).push(parts.last().1)
    } else {
        parts_for(parts.drop_last(), did)
    }
}

/// Gathering loses and adds nothing: the documents are those that occur, each once, with
/// exactly its own matches in order.
pub proof fn law_grouped(parts: Seq<(u64, Part)>)
    ensures
        forall|i: int, j: int|
            0 <= i < j < grouped(parts).len() ==> (#[trigger] grouped(parts)[i]).docid != (
            #[trigger] grouped(parts)[j]).docid,
        forall|i: int|
            0 <= i < grouped(parts).len() ==> (#[trigger] grouped(parts)[i]).parts.len() > 0
                && grouped(parts)[i].parts == parts_for(parts, grouped(parts)[i].docid),
        forall|k: int|
            0 <= k < parts.len() ==> place_of(grouped(parts), (#[trigger] parts[k]).0) < grouped(
                parts,
            ).len(),
    decreases parts.len(),
{
    if parts.len() > 0 {
        let before = parts.drop_last();
        let old_list = grouped(before);
        let list = grouped(parts);
        let (did, part) = parts.last();
        let at = place_of(old_list, did);
        law_grouped(before);
        lemma_place_bounds(old_list, did);
        if at == old_list.len() {
            lemma_absent(before, did);
        }
        assert forall|k: int| 0 <= k < parts.len() implies place_of(list, (#[trigger] parts[k]).0)
            < list.len() by {
            lemma_place_bounds(list, parts[k].0);
            if k < before.len() {
                assert(before[k] == parts[k]);
                lemma_place_bounds(old_list, before[k].0);
                let p = place_of(old_list, before[k].0);
                assert(list[p].docid == parts[k].0);
            } else {
                assert(list[at].docid == did);
            }
        }
    }
}

/// A document that is not listed has no match.
proof fn lemma_absent(parts: Seq<(u64, Part)>, did: u64)
    requires
        place_of(grouped(parts), did) == grouped(parts).len(),
    ensures
        parts_for(parts, did).len() == 0,
    decreases parts.len(),
{
    if parts.len() > 0 {
        let before = parts.drop_last();
        let old_list = grouped(before);
        let list = grouped(parts);
        lemma_place_bounds(list, did);
        lemma_place_bounds(old_list, parts.last().0);
        assert(list[place_of(old_list, parts.last().0)].docid == parts.last().0);
        assert forall|i: int| 0 <= i < old_list.len() implies (#[trigger] old_list[i]).docid
            != did by {
            assert(list[i].docid == old_list[i].docid);
        }
        lemma_place(old_list, did, old_list.len() as int);
        lemma_absent(before, did);
    }
}

} // verus!
