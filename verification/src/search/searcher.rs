//! Matching terms against the index, and resolving documents to paths.

use crate::error::Error;
use crate::glass::entries;
use crate::glass::inflate;
use crate::glass::list_laws;
use crate::glass::postlist;
use crate::glass::postlist::{Postlist, PostlistSpec};
use crate::glass::sortable;
use crate::glass::sortable::pack_sortable;
use crate::glass::store_laws;
use crate::glass::table::{Table, TableSpec};
use crate::glass::tree;
use crate::glass::version::{RootInfo, Version, DOCDATA, POSTLIST};
use crate::search::grouping;
use crate::search::grouping::{gather, DocMatches, DocSpec, Part};
use crate::search::query;
use crate::search::query::query_terms;
use crate::search::rank;
use crate::search::rank::rank_hits;
use vstd::prelude::*;
use vstd::string::{StrSliceExecFns, StringExecFns};
use vstd::utf8;

verus! {

/// An index that is ready to be searched.
pub struct Searcher<'a> {
    /// The bytes of the file that holds the index.
    pub raw: &'a [u8],
    /// The offset at which the index starts in the file.
    pub base: usize,
    pub version: Version,
    /// The length of each document, by document number (number 0 is not used).
    pub doclens: Vec<u32>,
}

/// The documents that a term occurs in.
pub struct TermMatches {
    /// The number of documents that the term occurs in.
    pub termfreq: u64,
    /// Document, number of occurrences in it, and its length.
    pub postings: Vec<(u64, u32, u32)>,
}

/// What the matches of a term are.
pub struct MatchesSpec {
    pub termfreq: u64,
    pub postings: Seq<(u64, u32, u32)>,
}

impl View for TermMatches {
    type V = MatchesSpec;

    open spec fn view(&self) -> MatchesSpec {
        MatchesSpec { termfreq: self.termfreq, postings: self.postings@ }
    }
}

/// A ranked document and its path.
pub struct RankedHit {
    pub docid: u64,
    pub weight: u64,
    pub path: String,
}

/// What a ranked document is.
pub struct HitSpec {
    pub docid: u64,
    pub weight: u64,
    pub path: Seq<char>,
}

impl View for RankedHit {
    type V = HitSpec;

    open spec fn view(&self) -> HitSpec {
        HitSpec { docid: self.docid, weight: self.weight, path: self.path@ }
    }
}

/// A term's posting list with the length of each document.
pub struct TermDump {
    pub termfreq: u64,
    pub collfreq: u64,
    /// Document, number of occurrences in it, and its length.
    pub rows: Vec<(u64, u32, u32)>,
}

/// What a dumped posting list is.
pub struct DumpSpec {
    pub termfreq: u64,
    pub collfreq: u64,
    pub rows: Seq<(u64, u32, u32)>,
}

impl View for TermDump {
    type V = DumpSpec;

    open spec fn view(&self) -> DumpSpec {
        DumpSpec { termfreq: self.termfreq, collfreq: self.collfreq, rows: self.rows@ }
    }
}

/// The table that `info` describes.
pub open spec fn table_of(raw: Seq<u8>, base: usize, info: RootInfo, name: &'static str) -> TableSpec {
    TableSpec {
        file: raw,
        base: base as nat,
        block_size: info.blocksize as nat,
        root: info.root,
        level: info.level as nat,
        root_is_fake: info.root_is_fake,
        name,
    }
}

/// Document lengths, updated by (document, length) pairs. A pair for a document beyond the
/// list is ignored.
pub open spec fn filled(lens: Seq<u32>, pairs: Seq<(u64, u32)>) -> Seq<u32>
    decreases pairs.len(),
{
    if pairs.len() == 0 {
        lens
    } else {
        let before = filled(lens, pairs.drop_last());
        let (did, len) = pairs.last();
        if did < before.len() {
            before.update(did as int, len)
        } else {
            before
        }
    }
}

/// Update document lengths by (document, length) pairs. A pair for a document beyond the
/// list is ignored.
pub fn fill_doclens(lens: Vec<u32>, pairs: &Vec<(u64, u32)>) -> (r: Vec<u32>)
    ensures
        r@ == filled(lens@, pairs@),
{
    let mut out: Vec<u32> = lens;
    let ghost start = out@;
    let mut i: usize = 0;
    while i < pairs.len()
        invariant
            i <= pairs.len(),
            out@ == filled(start, pairs@.take(i as int)),
        decreases pairs.len() - i,
    {
        assert(pairs@.take(i + 1).drop_last() =~= pairs@.take(i as int));
        let (did, len): (u64, u32) = pairs[i];
        if did < out.len() as u64 {
            out[did as usize] = len;
        }
        i += 1;
    }
    assert(pairs@.take(i as int) =~= pairs@);
    out
}

/// The lengths of the documents up to number `last_docid`: those in the stored list, and
/// zero for the others.
pub open spec fn doclens_of(raw: Seq<u8>, base: usize, roots: Seq<RootInfo>, last_docid: u64) -> Result<
    Seq<u32>,
    Error,
> {
    if roots.len() <= POSTLIST || (last_docid + 1) * 4 > isize::MAX {
        Err(Error::Malformed)
    } else {
        let zeros = Seq::new((last_docid + 1) as nat, |i: int| 0u32);
        let t = table_of(raw, base, roots[POSTLIST as int], "postlist");
        match postlist::postlist_of(t, Seq::empty()) {
            Err(e) => Err(e),
            Ok(None) => Ok(zeros),
            Ok(Some(list)) => Ok(filled(zeros, list.postings)),
        }
    }
}

/// The length of document `did`, or zero where it is not known.
pub open spec fn doclen(lens: Seq<u32>, did: u64) -> u32 {
    if did < lens.len() {
        lens[did as int]
    } else {
        0
    }
}

/// The documents that a term occurs in, each with its length. `None` where the index does
/// not have the term.
pub open spec fn matches_of(t: TableSpec, lens: Seq<u32>, term: Seq<u8>) -> Result<
    Option<MatchesSpec>,
    Error,
> {
    match postlist::postlist_of(t, term) {
        Err(e) => Err(e),
        Ok(None) => Ok(None),
        Ok(Some(list)) => if list.termfreq == 0 {
            Ok(None)
        } else {
            Ok(
                Some(
                    MatchesSpec {
                        termfreq: list.termfreq,
                        postings: with_lengths(list.postings, lens),
                    },
                ),
            )
        },
    }
}

/// Postings with the length of each document.
pub open spec fn with_lengths(postings: Seq<(u64, u32)>, lens: Seq<u32>) -> Seq<(u64, u32, u32)> {
    postings.map_values(|p: (u64, u32)| (p.0, p.1, doclen(lens, p.0)))
}

/// The matches of the terms of a query that the index has, in the order of the terms, each
/// with the number of the term's occurrences in the query.
pub open spec fn candidates_of(
    t: TableSpec,
    lens: Seq<u32>,
    terms: Seq<(Seq<char>, nat)>,
) -> Result<Seq<(nat, MatchesSpec)>, Error>
    decreases terms.len(),
{
    if terms.len() == 0 {
        Ok(Seq::empty())
    } else {
        match matches_of(t, lens, utf8::encode_utf8(terms[0].0)) {
            Err(e) => Err(e),
            Ok(found) => match candidates_of(t, lens, terms.drop_first()) {
                Err(e) => Err(e),
                Ok(rest) => match found {
                    None => Ok(rest),
                    Some(m) => Ok(seq![(terms[0].1, m)] + rest),
                },
            },
        }
    }
}

/// `done` with the candidates that are still to come behind it.
spec fn with_more(
    done: Seq<(nat, MatchesSpec)>,
    more: Result<Seq<(nat, MatchesSpec)>, Error>,
) -> Result<Seq<(nat, MatchesSpec)>, Error> {
    match more {
        Ok(more) => Ok(done + more),
        Err(e) => Err(e),
    }
}

proof fn lemma_candidates(
    t: TableSpec,
    lens: Seq<u32>,
    terms: Seq<(Seq<char>, nat)>,
    i: int,
    done: Seq<(nat, MatchesSpec)>,
)
    requires
        0 <= i < terms.len(),
    ensures
        with_more(done, candidates_of(t, lens, terms.skip(i))) == (match matches_of(
            t,
            lens,
            utf8::encode_utf8(terms[i].0),
        ) {
            Err(e) => Err(e),
            Ok(None) => with_more(done, candidates_of(t, lens, terms.skip(i + 1))),
            Ok(Some(m)) => with_more(
                done.push((terms[i].1, m)),
                candidates_of(t, lens, terms.skip(i + 1)),
            ),
        }),
{
    let left = terms.skip(i);
    assert(left[0] == terms[i]);
    assert(left.drop_first() =~= terms.skip(i + 1));
    if let Ok(Some(m)) = matches_of(t, lens, utf8::encode_utf8(terms[i].0)) {
        if let Ok(rest) = candidates_of(t, lens, terms.skip(i + 1)) {
            assert(done + (seq![(terms[i].1, m)] + rest) =~= done.push((terms[i].1, m)) + rest);
        }
    }
}

/// What `String::from_utf8_lossy` makes of bytes.
pub uninterp spec fn lossy_text(b: Seq<u8>) -> Seq<char>;

/// Calls `String::from_utf8_lossy`. Bytes that are UTF-8 give the text that they encode;
/// how other bytes are replaced is left to the standard library.
#[verifier::external_body]
fn lossy(b: &[u8]) -> (r: String)
    ensures
        r@ == lossy_text(b@),
        utf8::valid_utf8(b@) ==> r@ == utf8::decode_utf8(b@),
{
    String::from_utf8_lossy(b).into_owned()
}

/// The path that a document's stored data stands for.
pub open spec fn path_text(tag: Option<Seq<u8>>) -> Seq<char> {
    match tag {
        Some(tag) => lossy_text(tag),
        None => "<no docdata>"@,
    }
}

/// The path of document `did`.
pub open spec fn path_of(t: TableSpec, did: u64) -> Result<Seq<char>, Error> {
    match entries::entry_of(t, sortable::sortable(did)) {
        Err(e) => Err(e),
        Ok(tag) => Ok(path_text(tag)),
    }
}

/// The given documents with their paths.
pub open spec fn resolved(t: TableSpec, hits: Seq<(u64, u64)>) -> Result<Seq<HitSpec>, Error>
    decreases hits.len(),
{
    if hits.len() == 0 {
        Ok(Seq::empty())
    } else {
        match path_of(t, hits[0].0) {
            Err(e) => Err(e),
            Ok(path) => match resolved(t, hits.drop_first()) {
                Err(e) => Err(e),
                Ok(rest) => Ok(seq![HitSpec { docid: hits[0].0, weight: hits[0].1, path }] + rest),
            },
        }
    }
}

/// `done` with the hits that are still to come behind it.
spec fn followed_by(done: Seq<HitSpec>, more: Result<Seq<HitSpec>, Error>) -> Result<
    Seq<HitSpec>,
    Error,
> {
    match more {
        Ok(more) => Ok(done + more),
        Err(e) => Err(e),
    }
}

proof fn lemma_resolved(t: TableSpec, hits: Seq<(u64, u64)>, i: int, done: Seq<HitSpec>)
    requires
        0 <= i < hits.len(),
    ensures
        followed_by(done, resolved(t, hits.skip(i))) == (match path_of(t, hits[i].0) {
            Err(e) => Err(e),
            Ok(path) => followed_by(
                done.push(HitSpec { docid: hits[i].0, weight: hits[i].1, path }),
                resolved(t, hits.skip(i + 1)),
            ),
        }),
{
    let left = hits.skip(i);
    assert(left[0] == hits[i]);
    assert(left.drop_first() =~= hits.skip(i + 1));
    if let Ok(path) = path_of(t, hits[i].0) {
        let hit = HitSpec { docid: hits[i].0, weight: hits[i].1, path };
        if let Ok(rest) = resolved(t, hits.skip(i + 1)) {
            assert(done + (seq![hit] + rest) =~= done.push(hit) + rest);
        }
    }
}

/// A term's posting list with the length of each document, all of which must be known.
pub open spec fn dump_of(t: TableSpec, lens: Seq<u32>, term: Seq<u8>) -> Result<
    Option<DumpSpec>,
    Error,
> {
    match postlist::postlist_of(t, term) {
        Err(e) => Err(e),
        Ok(None) => Ok(None),
        Ok(Some(list)) => if exists|k: int|
            0 <= k < list.postings.len() && (#[trigger] list.postings[k]).0 >= lens.len() {
            Err(Error::Malformed)
        } else {
            Ok(
                Some(
                    DumpSpec {
                        termfreq: list.termfreq,
                        collfreq: list.collfreq,
                        rows: with_lengths(list.postings, lens),
                    },
                ),
            )
        },
    }
}

/// The matches that a query finds, one term behind the other.
pub open spec fn parts_found(t: TableSpec, lens: Seq<u32>, text: Seq<char>) -> Result<
    Seq<(u64, Part)>,
    Error,
> {
    match query::query_terms_of(text) {
        Err(e) => Err(e),
        Ok(terms) => match candidates_of(t, lens, terms) {
            Err(e) => Err(e),
            Ok(found) => Ok(grouping::all_parts(found)),
        },
    }
}

/// The weight function can return `w` for a document.
pub open spec fn weighs<F: Fn(&DocMatches) -> u64>(weight: F, doc: DocSpec, w: u64) -> bool {
    exists|m: DocMatches| m@ == doc && #[trigger] call_ensures(weight, (&m,), w)
}

/// The documents, each with a weight that the weight function returned for it.
pub open spec fn weighed_by<F: Fn(&DocMatches) -> u64>(
    weight: F,
    docs: Seq<DocSpec>,
    scored: Seq<(u64, u64)>,
) -> bool {
    &&& scored.len() == docs.len()
    &&& forall|i: int|
        0 <= i < docs.len() ==> (#[trigger] scored[i]).0 == docs[i].docid && weighs(
            weight,
            docs[i],
            scored[i].1,
        )
}

/// Weigh each of the given documents.
fn weigh_all<F: Fn(&DocMatches) -> u64>(docs: &Vec<DocMatches>, weight: &F) -> (r: Vec<(u64, u64)>)
    requires
        forall|m: &DocMatches| #[trigger] call_requires(*weight, (m,)),
    ensures
        r@.len() == docs@.len(),
        forall|i: int|
            0 <= i < docs@.len() ==> (#[trigger] r@[i]).0 == docs@[i].docid && call_ensures(
                *weight,
                (&docs@[i],),
                r@[i].1,
            ),
{
    let mut out: Vec<(u64, u64)> = Vec::new();
    let mut i: usize = 0;
    while i < docs.len()
        invariant
            forall|m: &DocMatches| #[trigger] call_requires(*weight, (m,)),
            i <= docs.len(),
            out.len() == i,
            forall|k: int|
                0 <= k < i ==> (#[trigger] out@[k]).0 == docs@[k].docid && call_ensures(
                    *weight,
                    (&docs@[k],),
                    out@[k].1,
                ),
        decreases docs.len() - i,
    {
        let w: u64 = weight(&docs[i]);
        out.push((docs[i].docid, w));
        i += 1;
    }
    out
}

impl<'a> Searcher<'a> {
    /// The posting list table.
    pub open spec fn postlist_spec(&self) -> TableSpec {
        table_of(self.raw@, self.base, self.version.roots@[POSTLIST as int], "postlist")
    }

    /// The document data table.
    pub open spec fn docdata_spec(&self) -> TableSpec {
        table_of(self.raw@, self.base, self.version.roots@[DOCDATA as int], "docdata")
    }

    /// Build a searcher; decodes the list of document lengths up front.
    pub fn new(raw: &'a [u8], base: usize, version: Version) -> (r: Result<Searcher<'a>, Error>)
        ensures
            match doclens_of(raw@, base, version.roots@, version.last_docid) {
                Ok(lens) => r matches Ok(s) && s.raw@ == raw@ && s.base == base && s.version
                    == version && s.doclens@ == lens,
                Err(e) => r == Err::<Searcher<'a>, Error>(e),
            },
    {
        if version.roots.len() <= POSTLIST {
            return Err(Error::Malformed);
        }
        if version.last_docid >= isize::MAX as u64 / 4 {
            return Err(Error::Malformed);
        }
        let t: Table<'a> = Table::new(raw, base, &version.roots[POSTLIST], "postlist");
        let zeros: Vec<u32> = vec![0u32; (version.last_docid + 1) as usize];
        assert(zeros@ =~= Seq::new((version.last_docid + 1) as nat, |i: int| 0u32));
        let none: Vec<u8> = Vec::new();
        assert(none@ =~= Seq::<u8>::empty());
        let doclens: Vec<u32> = match t.read_postlist(&none) {
            Ok(Some(list)) => fill_doclens(zeros, &list.postings),
            Ok(None) => zeros,
            Err(e) => return Err(e),
        };
        Ok(Searcher { raw, base, version, doclens })
    }

    /// The length of a document, or zero where it is not known.
    pub fn doclen_of(&self, did: u64) -> (r: u32)
        ensures
            r == doclen(self.doclens@, did),
    {
        if did < self.doclens.len() as u64 {
            self.doclens[did as usize]
        } else {
            0
        }
    }

    fn with_lengths(&self, postings: &Vec<(u64, u32)>) -> (r: Vec<(u64, u32, u32)>)
        ensures
            r@ == with_lengths(postings@, self.doclens@),
    {
        let mut out: Vec<(u64, u32, u32)> = Vec::new();
        let mut i: usize = 0;
        while i < postings.len()
            invariant
                i <= postings.len(),
                out@ == with_lengths(postings@.take(i as int), self.doclens@),
            decreases postings.len() - i,
        {
            let (did, wdf): (u64, u32) = postings[i];
            out.push((did, wdf, self.doclen_of(did)));
            assert(out@ =~= with_lengths(postings@.take(i + 1), self.doclens@));
            i += 1;
        }
        assert(postings@.take(i as int) =~= postings@);
        out
    }

    /// The documents that a term occurs in, each with its length. `None` where the index
    /// does not have the term.
    pub fn term_matches(&self, term: &str) -> (r: Result<Option<TermMatches>, Error>)
        requires
            self.version.roots@.len() > POSTLIST,
        ensures
            match matches_of(self.postlist_spec(), self.doclens@, utf8::encode_utf8(term@)) {
                Ok(Some(m)) => r matches Ok(Some(out)) && out@ == m,
                Ok(None) => r matches Ok(None),
                Err(e) => r == Err::<Option<TermMatches>, Error>(e),
            },
    {
        let t: Table<'a> = Table::new(
            self.raw,
            self.base,
            &self.version.roots[POSTLIST],
            "postlist",
        );
        match t.read_postlist(term.as_bytes()) {
            Ok(Some(list)) => if list.termfreq > 0 {
                let postings: Vec<(u64, u32, u32)> = self.with_lengths(&list.postings);
                Ok(Some(TermMatches { termfreq: list.termfreq, postings }))
            } else {
                Ok(None)
            },
            Ok(None) => Ok(None),
            Err(e) => Err(e),
        }
    }

    /// The matches of counted terms that the index has, in the order of the terms, each
    /// with the term's count.
    #[verifier::rlimit(40)]
    pub fn match_terms(&self, terms: &Vec<(String, usize)>) -> (r: Result<
        Vec<(usize, TermMatches)>,
        Error,
    >)
        requires
            self.version.roots@.len() > POSTLIST,
        ensures
            match candidates_of(self.postlist_spec(), self.doclens@, query::counts_of(terms@)) {
                Ok(found) => r matches Ok(out) && candidates_are(out@, found),
                Err(e) => r == Err::<Vec<(usize, TermMatches)>, Error>(e),
            },
    {
        let ghost t = self.postlist_spec();
        let ghost list = query::counts_of(terms@);
        let ghost whole = candidates_of(t, self.doclens@, list);
        let mut out: Vec<(usize, TermMatches)> = Vec::new();
        let ghost mut done: Seq<(nat, MatchesSpec)> = Seq::empty();
        let mut i: usize = 0;
        proof {
            assert(list.skip(0) =~= list);
            if let Ok(rest) = whole {
                assert(done + rest =~= rest);
            }
        }
        while i < terms.len()
            invariant
                self.version.roots@.len() > POSTLIST,
                i <= terms.len(),
                t == self.postlist_spec(),
                list == query::counts_of(terms@),
                candidates_are(out@, done),
                whole == candidates_of(t, self.doclens@, list),
                whole == with_more(done, candidates_of(t, self.doclens@, list.skip(i as int))),
            decreases terms.len() - i,
        {
            let found: Result<Option<TermMatches>, Error> = self.term_matches(terms[i].0.as_str());
            proof {
                lemma_candidates(t, self.doclens@, list, i as int, done);
                assert(list[i as int] == (terms@[i as int].0@, terms@[i as int].1 as nat));
            }
            match found {
                Ok(Some(m)) => {
                    proof {
                        done = done.push((terms@[i as int].1 as nat, m@));
                    }
                    out.push((terms[i].1, m));
                },
                Ok(None) => {},
                Err(e) => return Err(e),
            }
            i += 1;
        }
        assert(list.skip(i as int) =~= Seq::empty());
        assert(done + Seq::<(nat, MatchesSpec)>::empty() =~= done);
        Ok(out)
    }

    /// The matches of the terms of a query that the index has, each with the number of the
    /// term's occurrences in the query.
    pub fn candidates(&self, text: &str) -> (r: Result<Vec<(usize, TermMatches)>, Error>)
        requires
            self.version.roots@.len() > POSTLIST,
        ensures
            match query::query_terms_of(text@) {
                Ok(terms) => match candidates_of(self.postlist_spec(), self.doclens@, terms) {
                    Ok(found) => r matches Ok(out) && candidates_are(out@, found),
                    Err(e) => r == Err::<Vec<(usize, TermMatches)>, Error>(e),
                },
                Err(e) => r == Err::<Vec<(usize, TermMatches)>, Error>(e),
            },
    {
        match query_terms(text) {
            Ok(terms) => {
                proof {
                    if let Ok(list) = query::query_terms_of(text@) {
                        assert(query::counts_of(terms@) =~= list);
                    }
                }
                self.match_terms(&terms)
            },
            Err(e) => Err(e),
        }
    }

    /// The documents that match any term of a query, each with the terms that it matches.
    pub fn documents(&self, text: &str) -> (r: Result<Vec<DocMatches>, Error>)
        requires
            self.version.roots@.len() > POSTLIST,
        ensures
            match parts_found(self.postlist_spec(), self.doclens@, text@) {
                Ok(parts) => r matches Ok(out) && grouping::docs_are(out@, grouping::grouped(parts)),
                Err(e) => r == Err::<Vec<DocMatches>, Error>(e),
            },
    {
        match self.candidates(text) {
            Ok(found) => {
                proof {
                    let list = candidates_of(
                        self.postlist_spec(),
                        self.doclens@,
                        query::query_terms_of(text@).unwrap(),
                    ).unwrap();
                    assert(found@.map_values(|f: (usize, TermMatches)| (f.0 as nat, f.1@)) =~= list);
                }
                Ok(gather(&found))
            },
            Err(e) => Err(e),
        }
    }

    /// The path of a document.
    pub fn path(&self, did: u64) -> (r: Result<String, Error>)
        requires
            self.version.roots@.len() > DOCDATA,
        ensures
            match path_of(self.docdata_spec(), did) {
                Ok(path) => r matches Ok(out) && out@ == path,
                Err(e) => r == Err::<String, Error>(e),
            },
    {
        let t: Table<'a> = Table::new(
            self.raw,
            self.base,
            &self.version.roots[DOCDATA],
            "docdata",
        );
        match t.get_exact_entry(&pack_sortable(did)) {
            Ok(Some(tag)) => Ok(lossy(&tag)),
            Ok(None) => Ok(String::from_str("<no docdata>")),
            Err(e) => Err(e),
        }
    }

    /// Resolve the paths of ranked documents.
    #[verifier::rlimit(40)]
    pub fn resolve(&self, hits: &Vec<(u64, u64)>) -> (r: Result<Vec<RankedHit>, Error>)
        requires
            self.version.roots@.len() > DOCDATA,
        ensures
            match resolved(self.docdata_spec(), hits@) {
                Ok(list) => r matches Ok(out) && hits_are(out@, list),
                Err(e) => r == Err::<Vec<RankedHit>, Error>(e),
            },
    {
        let ghost t = self.docdata_spec();
        let ghost whole = resolved(t, hits@);
        let mut out: Vec<RankedHit> = Vec::new();
        let ghost mut done: Seq<HitSpec> = Seq::empty();
        let mut i: usize = 0;
        proof {
            assert(hits@.skip(0) =~= hits@);
            if let Ok(rest) = whole {
                assert(done + rest =~= rest);
            }
        }
        while i < hits.len()
            invariant
                self.version.roots@.len() > DOCDATA,
                i <= hits.len(),
                t == self.docdata_spec(),
                hits_are(out@, done),
                whole == resolved(t, hits@),
                whole == followed_by(done, resolved(t, hits@.skip(i as int))),
            decreases hits.len() - i,
        {
            let (docid, weight): (u64, u64) = hits[i];
            let path: Result<String, Error> = self.path(docid);
            proof {
                lemma_resolved(t, hits@, i as int, done);
            }
            match path {
                Ok(path) => {
                    let hit: RankedHit = RankedHit { docid, weight, path };
                    proof {
                        done = done.push(hit@);
                    }
                    out.push(hit);
                },
                Err(e) => return Err(e),
            }
            i += 1;
        }
        assert(hits@.skip(i as int) =~= Seq::empty());
        assert(done + Seq::<HitSpec>::empty() =~= done);
        Ok(out)
    }

    /// Rank weighted documents and resolve the paths of the first `k`.
    pub fn top_hits(&self, scored: Vec<(u64, u64)>, k: usize) -> (r: Result<
        Vec<RankedHit>,
        Error,
    >)
        requires
            self.version.roots@.len() > DOCDATA,
        ensures
            match resolved(self.docdata_spec(), rank::top(scored@, k as nat)) {
                Ok(hits) => r matches Ok(out) && hits_are(out@, hits),
                Err(e) => r == Err::<Vec<RankedHit>, Error>(e),
            },
    {
        let top: Vec<(u64, u64)> = rank_hits(scored, k);
        self.resolve(&top)
    }

    /// Run an OR query, returning the top `k` hits by the weight that `weight` gives to each
    /// matching document.
    pub fn search<F: Fn(&DocMatches) -> u64>(&self, text: &str, k: usize, weight: F) -> (r: Result<
        Vec<RankedHit>,
        Error,
    >)
        requires
            self.version.roots@.len() > DOCDATA,
            forall|m: &DocMatches| #[trigger] call_requires(weight, (m,)),
        ensures
            match parts_found(self.postlist_spec(), self.doclens@, text@) {
                Err(e) => r == Err::<Vec<RankedHit>, Error>(e),
                Ok(parts) => exists|scored: Seq<(u64, u64)>| #[trigger]
                    weighed_by(weight, grouping::grouped(parts), scored) && match resolved(
                        self.docdata_spec(),
                        rank::top(scored, k as nat),
                    ) {
                        Ok(hits) => r matches Ok(out) && hits_are(out@, hits),
                        Err(e) => r == Err::<Vec<RankedHit>, Error>(e),
                    },
            },
    {
        let docs: Vec<DocMatches> = match self.documents(text) {
            Ok(docs) => docs,
            Err(e) => return Err(e),
        };
        let scored: Vec<(u64, u64)> = weigh_all(&docs, &weight);
        proof {
            let parts = parts_found(self.postlist_spec(), self.doclens@, text@).unwrap();
            let list = grouping::grouped(parts);
            assert forall|i: int| 0 <= i < list.len() implies (#[trigger] scored@[i]).0
                == list[i].docid && weighs(weight, list[i], scored@[i].1) by {
                assert(docs@[i]@ == list[i]);
                assert(call_ensures(weight, (&docs@[i],), scored@[i].1));
            }
            assert(weighed_by(weight, list, scored@));
        }
        self.top_hits(scored, k)
    }

    /// A term's posting list with the length of each document.
    pub fn dump_term(&self, term: &str) -> (r: Result<Option<TermDump>, Error>)
        requires
            self.version.roots@.len() > POSTLIST,
        ensures
            match dump_of(self.postlist_spec(), self.doclens@, utf8::encode_utf8(term@)) {
                Ok(Some(dump)) => r matches Ok(Some(out)) && out@ == dump,
                Ok(None) => r matches Ok(None),
                Err(e) => r == Err::<Option<TermDump>, Error>(e),
            },
    {
        let t: Table<'a> = Table::new(
            self.raw,
            self.base,
            &self.version.roots[POSTLIST],
            "postlist",
        );
        let list: Postlist = match t.read_postlist(term.as_bytes()) {
            Ok(Some(list)) => list,
            Ok(None) => return Ok(None),
            Err(e) => return Err(e),
        };
        let mut i: usize = 0;
        while i < list.postings.len()
            invariant
                i <= list.postings.len(),
                postlist::postlist_of(self.postlist_spec(), utf8::encode_utf8(term@)) == Ok::<
                    Option<PostlistSpec>,
                    Error,
                >(Some(list@)),
                forall|k: int|
                    0 <= k < i ==> (#[trigger] list.postings@[k]).0 < self.doclens@.len(),
            decreases list.postings.len() - i,
        {
            if list.postings[i].0 >= self.doclens.len() as u64 {
                assert(list@.postings[i as int].0 >= self.doclens@.len());
                return Err(Error::Malformed);
            }
            i += 1;
        }
        let rows: Vec<(u64, u32, u32)> = self.with_lengths(&list.postings);
        Ok(Some(TermDump { termfreq: list.termfreq, collfreq: list.collfreq, rows }))
    }
}

/// Whether candidates are those that pairs of a number and matches hold.
pub open spec fn candidates_are(v: Seq<(usize, TermMatches)>, list: Seq<(nat, MatchesSpec)>) -> bool {
    v.len() == list.len() && forall|k: int|
        0 <= k < list.len() ==> (#[trigger] v[k]).0 == list[k].0 && v[k].1@ == list[k].1
}

/// Whether hits are those that ranked hits hold.
pub open spec fn hits_are(v: Seq<RankedHit>, list: Seq<HitSpec>) -> bool {
    v.len() == list.len() && forall|k: int| 0 <= k < list.len() ==> (#[trigger] v[k])@ == list[k]
}

/// A path without the content namespace in front, underscores shown as spaces.
pub open spec fn title_of(path: Seq<char>) -> Seq<char> {
    let name = if path.len() >= 2 && path[0] == 'C' && path[1] == '/' {
        path.skip(2)
    } else {
        path
    };
    name.map_values(
        |c: char|
            if c == '_' {
                ' '
            } else {
                c
            },
    )
}

/// The title to show for a path: without a leading "C/", underscores as spaces.
pub fn display_title(path: &str) -> (r: String)
    ensures
        r@ == title_of(path@),
{
    let mut chars: Vec<char> = Vec::new();
    for c in it: path.chars()
        invariant
            it.seq() == path@,
            chars@ == path@.take(it.index() as int),
    {
        chars.push(c);
    }
    assert(chars@ =~= path@);
    let start: usize = if chars.len() >= 2 && chars[0] == 'C' && chars[1] == '/' {
        2
    } else {
        0
    };
    let ghost title = title_of(path@);
    assert(title.len() == path@.len() - start);
    let mut out: String = String::new();
    let mut i: usize = start;
    proof {
        reveal_strlit(" ");
    }
    while i < chars.len()
        invariant
            chars@ == path@,
            start <= i <= chars.len(),
            title == title_of(path@),
            title.len() == path@.len() - start,
            start == 2 <==> path@.len() >= 2 && path@[0] == 'C' && path@[1] == '/',
            start == 2 || start == 0,
            " "@ == seq![' '],
            out@ == title.take(i - start),
        decreases chars.len() - i,
    {
        let from: usize = i;
        if chars[i] == '_' {
            out.append(" ");
            i += 1;
        } else {
            while i < chars.len() && chars[i] != '_'
                invariant
                    chars@ == path@,
                    from <= i <= chars.len(),
                    forall|k: int| from <= k < i ==> #[trigger] path@[k] != '_',
                decreases chars.len() - i,
            {
                i += 1;
            }
            out.append(path.substring_char(from, i));
        }
        assert(out@ =~= title.take(i - start));
    }
    assert(title.take(i - start) =~= title);
    out
}

proof fn lemma_filled_len(lens: Seq<u32>, pairs: Seq<(u64, u32)>)
    ensures
        filled(lens, pairs).len() == lens.len(),
    decreases pairs.len(),
{
    if pairs.len() > 0 {
        lemma_filled_len(lens, pairs.drop_last());
    }
}

/// Each document in a list of lengths gets the length that the list gives last, and
/// every other document keeps the length that it had.
pub proof fn law_filled(lens: Seq<u32>, pairs: Seq<(u64, u32)>, did: u64)
    requires
        did < lens.len(),
    ensures
        filled(lens, pairs).len() == lens.len(),
        (forall|k: int| 0 <= k < pairs.len() ==> (#[trigger] pairs[k]).0 != did) ==> filled(
            lens,
            pairs,
        )[did as int] == lens[did as int],
        forall|k: int|
            0 <= k < pairs.len() && (#[trigger] pairs[k]).0 == did && (forall|x: int|
                k < x < pairs.len() ==> (#[trigger] pairs[x]).0 != did) ==> filled(
                lens,
                pairs,
            )[did as int] == pairs[k].1,
    decreases pairs.len(),
{
    if pairs.len() > 0 {
        let before = pairs.drop_last();
        lemma_filled_len(lens, before);
        law_filled(lens, before, did);
        assert forall|k: int| 0 <= k < before.len() implies #[trigger] before[k] == pairs[k] by {}
        assert forall|k: int|
            0 <= k < pairs.len() && (#[trigger] pairs[k]).0 == did && (forall|x: int|
                k < x < pairs.len() ==> (#[trigger] pairs[x]).0 != did) implies filled(
            lens,
            pairs,
        )[did as int] == pairs[k].1 by {
            if k < before.len() {
                assert(before[k].0 == did);
                assert(pairs[pairs.len() - 1].0 != did);
            }
        }
        if forall|k: int| 0 <= k < pairs.len() ==> (#[trigger] pairs[k]).0 != did {
            assert(pairs[pairs.len() - 1].0 != did);
        }
    }
}

/// A document with an entry in an ascending list of lengths gets that entry's length.
pub proof fn law_doclens(n: nat, list: Seq<(u64, u32)>, k: int)
    requires
        list_laws::ascending(list),
        0 <= k < list.len(),
        list[k].0 < n,
    ensures
        filled(Seq::new(n, |i: int| 0u32), list)[list[k].0 as int] == list[k].1,
{
    law_filled(Seq::new(n, |i: int| 0u32), list, list[k].0);
    assert forall|x: int| k < x < list.len() implies (#[trigger] list[x]).0 != list[k].0 by {}
}

/// A query matches what any of its terms matches: the candidates are the matches of
/// exactly those terms that the index has.
pub proof fn law_any_term_matches(t: TableSpec, lens: Seq<u32>, terms: Seq<(Seq<char>, nat)>)
    requires
        candidates_of(t, lens, terms) is Ok,
    ensures
        forall|k: int|
            0 <= k < terms.len() ==> match matches_of(
                t,
                lens,
                utf8::encode_utf8((#[trigger] terms[k]).0),
            ) {
                Err(_) => false,
                Ok(None) => true,
                Ok(Some(m)) => candidates_of(t, lens, terms).unwrap().contains((terms[k].1, m)),
            },
        forall|x: int|
            0 <= x < candidates_of(t, lens, terms).unwrap().len() ==> exists|k: int|
                0 <= k < terms.len() && matches_of(
                    t,
                    lens,
                    utf8::encode_utf8((#[trigger] terms[k]).0),
                ) == Ok::<Option<MatchesSpec>, Error>(
                    Some((#[trigger] candidates_of(t, lens, terms).unwrap()[x]).1),
                ) && terms[k].1 == candidates_of(t, lens, terms).unwrap()[x].0,
    decreases terms.len(),
{
    if terms.len() > 0 {
        let rest = terms.drop_first();
        let all = candidates_of(t, lens, terms).unwrap();
        let later = candidates_of(t, lens, rest).unwrap();
        law_any_term_matches(t, lens, rest);
        let first = matches_of(t, lens, utf8::encode_utf8(terms[0].0));
        let shift: int = if first matches Ok(Some(_)) {
            1
        } else {
            0
        };
        assert forall|x: int| 0 <= x < later.len() implies all[x + shift] == #[trigger] later[x] by {}
        assert forall|k: int| 0 <= k < terms.len() implies match matches_of(
            t,
            lens,
            utf8::encode_utf8((#[trigger] terms[k]).0),
        ) {
            Err(_) => false,
            Ok(None) => true,
            Ok(Some(m)) => all.contains((terms[k].1, m)),
        } by {
            if k == 0 {
                if let Ok(Some(m)) = first {
                    assert(all[0] == (terms[0].1, m));
                }
            } else {
                assert(rest[k - 1] == terms[k]);
                if let Ok(Some(m)) = matches_of(t, lens, utf8::encode_utf8(terms[k].0)) {
                    let x = later.index_of((terms[k].1, m));
                    assert(later.contains((terms[k].1, m)));
                    assert(all[x + shift] == later[x]);
                }
            }
        }
        assert forall|x: int| 0 <= x < all.len() implies exists|k: int|
            0 <= k < terms.len() && matches_of(t, lens, utf8::encode_utf8((#[trigger] terms[k]).0))
                == Ok::<Option<MatchesSpec>, Error>(Some((#[trigger] all[x]).1)) && terms[k].1
                == all[x].0 by {
            if x < shift {
                assert(terms[0].1 == all[x].0);
            } else {
                assert(all[x] == later[x - shift]);
                let k = choose|k: int|
                    0 <= k < rest.len() && matches_of(
                        t,
                        lens,
                        utf8::encode_utf8((#[trigger] rest[k]).0),
                    ) == Ok::<Option<MatchesSpec>, Error>(Some(later[x - shift].1)) && rest[k].1
                        == later[x - shift].0;
                assert(terms[k + 1] == rest[k]);
            }
        }
    }
}

/// The path of a document in a well-formed document data table is the text of the bytes
/// that are stored under its number, or of what they decompress to.
pub proof fn law_path_of_stored(t: TableSpec, did: u64, i: int, n: int)
    requires
        tree::table_ok(t),
        !t.root_is_fake,
        tree::is_first_of(tree::items_of(t), sortable::sortable(did), i),
        store_laws::one_tag(tree::items_of(t), i, n),
    ensures
        path_of(t, did) == (match inflate::unpacked(
            store_laws::joined(tree::items_of(t).subrange(i, i + n)),
            tree::items_of(t)[i].compressed,
        ) {
            Ok(tag) => Ok(lossy_text(tag)),
            Err(e) => Err(e),
        }),
{
    sortable::lemma_sortable_len(did);
    store_laws::law_lookup_returns_stored(t, sortable::sortable(did), i, n);
}

/// A document whose number a well-formed document data table does not hold has the path
/// that stands for none.
pub proof fn law_path_missing(t: TableSpec, did: u64)
    requires
        tree::table_ok(t),
        forall|i: int| !tree::is_first_of(tree::items_of(t), sortable::sortable(did), i),
    ensures
        path_of(t, did) == Ok::<Seq<char>, Error>("<no docdata>"@),
{
    store_laws::law_lookup_missing(t, sortable::sortable(did));
}

} // verus!
