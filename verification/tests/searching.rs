//! Queries, matches, ranking and paths, over an index inside an archive.

use flate2::write::DeflateEncoder;
use flate2::Compression;
use std::io::Write;
use zxr::error::Error;
use zxr::glass::{pack_sortable, RootInfo, Version};
use zxr::search::query::{count_terms, stem_all};
use zxr::search::searcher::fill_doclens;
use zxr::search::{
    display_title, gather, query_terms, rank_hits, tokenize, DocMatches, Part, Searcher,
    TermMatches,
};
use zxr::zim::Zim;

const SIZE: usize = 2048;

fn pack_uint(mut n: u64) -> Vec<u8> {
    let mut out: Vec<u8> = Vec::new();
    while n >= 128 {
        out.push((n % 128) as u8 + 128);
        n /= 128;
    }
    out.push(n as u8);
    out
}

fn list_tag(termfreq: u64, list: &[(u64, u32)]) -> Vec<u8> {
    let mut out: Vec<u8> = pack_uint(termfreq);
    out.extend(pack_uint(list.iter().map(|p| p.1 as u64).sum::<u64>()));
    out.extend(pack_uint(list[0].0 - 1));
    out.push(b'1');
    out.extend(pack_uint(list[list.len() - 1].0 - list[0].0));
    out.extend(pack_uint(list[0].1 as u64));
    for k in 1..list.len() {
        out.extend(pack_uint(list[k].0 - list[k - 1].0 - 1));
        out.extend(pack_uint(list[k].1 as u64));
    }
    out
}

fn item(key: &[u8], tag: &[u8]) -> Vec<u8> {
    let mut out: Vec<u8> = ((key.len() + tag.len()) as u16).to_be_bytes().to_vec();
    out[0] |= 0x60;
    out.push(key.len() as u8);
    out.extend(key);
    out.extend(tag);
    out
}

fn block(items: &[Vec<u8>]) -> Vec<u8> {
    let mut out: Vec<u8> = vec![0u8; SIZE];
    out[9..11].copy_from_slice(&((11 + 2 * items.len()) as u16).to_be_bytes());
    let mut end: usize = SIZE;
    for (i, item) in items.iter().enumerate() {
        end -= item.len();
        out[end..end + item.len()].copy_from_slice(item);
        out[11 + 2 * i..13 + 2 * i].copy_from_slice(&(end as u16).to_be_bytes());
    }
    out
}

/// An index of three documents: version header, posting lists, document data.
fn index() -> Vec<u8> {
    let mut head: Vec<u8> = b"\x0f\x0dXapian Glass".to_vec();
    head.extend(1134u16.to_be_bytes());
    head.extend([1u8; 16]);
    head.extend(pack_uint(1));
    for root in [1u64, 2, 0, 0, 0, 0] {
        for field in [root, if root == 0 { 1 } else { 0 }, 0, 1, 0, 0] {
            head.extend(pack_uint(field));
        }
    }
    for stat in [3u64, 1, 1, 9, 20, 0, 60, 0] {
        head.extend(pack_uint(stat));
    }
    head.resize(SIZE, 0);
    head.extend(block(&[
        item(&[0x00, 0xe0], &list_tag(3, &[(1, 10), (2, 20), (4, 30)])),
        item(b"albert", &list_tag(2, &[(1, 2), (4, 1)])),
        item(b"einstein", &list_tag(1, &[(1, 3)])),
        item(b"nobody", &list_tag(0, &[(2, 1)])),
        item(b"run", &list_tag(2, &[(2, 5), (9, 1)])),
    ]));
    head.extend(block(&[
        item(&pack_sortable(1), b"C/Albert_Einstein"),
        item(&pack_sortable(2), b"C/Running_man"),
        item(&pack_sortable(4), b"C/\xff_broken"),
    ]));
    head
}

/// The index as blob 0 of the only cluster of an archive.
fn archive() -> Vec<u8> {
    let index: Vec<u8> = index();
    let mut out: Vec<u8> = vec![0u8; 81];
    out[0..4].copy_from_slice(&0x044D_495Au32.to_le_bytes());
    out[24..28].copy_from_slice(&1u32.to_le_bytes());
    out[28..32].copy_from_slice(&1u32.to_le_bytes());
    out[56..64].copy_from_slice(&80u64.to_le_bytes());
    let entry: u64 = out.len() as u64;
    out.extend([1, 0, 0, b'X', 0, 0, 0, 0, 0, 0, 0, 0, 0, 0, 0, 0]);
    out.extend(b"fulltext/xapian\0");
    let at: u64 = out.len() as u64;
    out[32..40].copy_from_slice(&at.to_le_bytes());
    out.extend(entry.to_le_bytes());
    let cluster: u64 = out.len() as u64;
    out.push(1);
    out.extend(8u32.to_le_bytes());
    out.extend((8 + index.len() as u32).to_le_bytes());
    out.extend(index);
    let at: u64 = out.len() as u64;
    out[48..56].copy_from_slice(&at.to_le_bytes());
    out.extend(cluster.to_le_bytes());
    out
}

fn searcher(data: &[u8]) -> Searcher<'_> {
    let z = Zim::open(data).unwrap();
    let (_, loc) = z.find_fulltext_index().unwrap();
    let (base, bytes) = z.blob_bytes(&loc).unwrap();
    let version = Version::parse(bytes).unwrap();
    Searcher::new(z.raw(), base, version).unwrap()
}

fn strings(words: &[&str]) -> Vec<String> {
    words.iter().map(|w| w.to_string()).collect()
}

#[test]
fn queries_are_split_and_lowercased() {
    assert_eq!(tokenize("Albert  EINSTEIN, 1905!"), strings(&["albert", "einstein", "1905"]));
    assert_eq!(tokenize("don't re-run"), strings(&["don", "t", "re", "run"]));
    assert_eq!(tokenize(" ... "), strings(&[]));
    assert_eq!(tokenize(""), strings(&[]));
    assert_eq!(tokenize("\u{c4}PFEL\u{2014}Stra\u{df}e"), strings(&["\u{e4}pfel", "stra\u{df}e"]));
}

#[test]
fn words_are_stemmed() {
    let stems = stem_all(&strings(&["running", "fruitlessly", "cats", "water"])).unwrap();
    assert_eq!(stems, strings(&["run", "fruitless", "cat", "water"]));
}

#[test]
fn equal_terms_are_counted() {
    let counted = count_terms(strings(&["b", "a", "b", "c", "b", "a"]));
    let expected: Vec<(String, usize)> =
        vec![("b".to_string(), 3), ("a".to_string(), 2), ("c".to_string(), 1)];
    assert_eq!(counted, expected);
    assert_eq!(count_terms(strings(&[])).len(), 0);
}

#[test]
fn a_query_becomes_counted_stems() {
    let expected: Vec<(String, usize)> = vec![("run", 3), ("cat", 1)]
        .into_iter()
        .map(|(t, n)| (t.to_string(), n))
        .collect();
    assert_eq!(query_terms("Running run: RUNS (cats)").unwrap(), expected);
    assert_eq!(query_terms("?!").unwrap().len(), 0);
}

#[test]
fn hits_rank_by_weight_then_by_document() {
    let hits: Vec<(u64, u64)> = vec![(5, 10), (3, 10), (9, 99), (1, 0), (2, u64::MAX)];
    let ranked: Vec<(u64, u64)> = vec![(2, u64::MAX), (9, 99), (3, 10), (5, 10), (1, 0)];
    assert_eq!(rank_hits(hits.clone(), 5), ranked);
    assert_eq!(rank_hits(hits.clone(), 100), ranked);
    assert_eq!(rank_hits(hits.clone(), 3), ranked[..3].to_vec());
    assert_eq!(rank_hits(hits, 0).len(), 0);
    assert_eq!(rank_hits(Vec::new(), 4).len(), 0);
}

#[test]
fn document_lengths_beyond_the_list_are_ignored() {
    assert_eq!(fill_doclens(vec![0, 0, 0], &vec![(1, 5), (3, 7), (2, 6)]), vec![0, 5, 6]);
    assert_eq!(fill_doclens(vec![1, 2], &vec![(0, 5), (0, 9)]), vec![9, 2]);
    assert_eq!(fill_doclens(vec![], &vec![(u64::MAX, 5)]), Vec::<u32>::new());
}

#[test]
fn a_searcher_knows_the_document_lengths() {
    let data: Vec<u8> = archive();
    let s = searcher(&data);
    assert_eq!(s.version.last_docid, 4);
    assert_eq!(s.doclens, vec![0, 10, 20, 0, 30]);
    assert_eq!(s.doclen_of(4), 30);
    assert_eq!(s.doclen_of(5), 0);
    assert_eq!(s.doclen_of(u64::MAX), 0);
}

#[test]
fn a_searcher_needs_a_posting_list_table() {
    let data: Vec<u8> = archive();
    let s = searcher(&data);
    let mut version = s.version.clone();
    version.roots.clear();
    assert!(matches!(Searcher::new(s.raw, s.base, version), Err(Error::Malformed)));
    let mut version = s.version.clone();
    version.last_docid = u64::MAX;
    assert!(matches!(Searcher::new(s.raw, s.base, version), Err(Error::Malformed)));
    let mut version = s.version.clone();
    version.roots[0].root = 50;
    assert!(matches!(
        Searcher::new(s.raw, s.base, version),
        Err(Error::BlockOutOfRange { block: 50, table: "postlist" })
    ));
}

#[test]
fn a_searcher_without_stored_lengths_has_zeros() {
    let mut file: Vec<u8> = vec![0u8; SIZE];
    file.extend(block(&[item(b"x", &list_tag(1, &[(1, 1)]))]));
    let data: Vec<u8> = archive();
    let mut version = searcher(&data).version;
    version.last_docid = 2;
    let root: RootInfo = version.roots[0];
    assert_eq!(root.root, 1);
    let s = Searcher::new(&file, 0, version).unwrap();
    assert_eq!(s.doclens, vec![0, 0, 0]);
}

#[test]
fn terms_match_documents_with_their_lengths() {
    let data: Vec<u8> = archive();
    let s = searcher(&data);
    let m = s.term_matches("albert").unwrap().unwrap();
    assert_eq!(m.termfreq, 2);
    assert_eq!(m.postings, vec![(1, 2, 10), (4, 1, 30)]);
    let m = s.term_matches("run").unwrap().unwrap();
    assert_eq!(m.postings, vec![(2, 5, 20), (9, 1, 0)]);
    assert!(s.term_matches("missing").unwrap().is_none());
    assert!(s.term_matches("nobody").unwrap().is_none());
}

#[test]
fn a_query_matches_what_any_term_matches() {
    let data: Vec<u8> = archive();
    let s = searcher(&data);
    let found = s.candidates("Running nobody missing Albert runs").unwrap();
    assert_eq!(found.len(), 2);
    assert_eq!((found[0].0, found[0].1.termfreq), (2, 2));
    assert_eq!(found[0].1.postings, vec![(2, 5, 20), (9, 1, 0)]);
    assert_eq!((found[1].0, found[1].1.termfreq), (1, 2));
    assert_eq!(found[1].1.postings, vec![(1, 2, 10), (4, 1, 30)]);
    assert_eq!(s.candidates("").unwrap().len(), 0);
}

#[test]
fn matches_are_gathered_by_document() {
    let found: Vec<(usize, TermMatches)> = vec![
        (1, TermMatches { termfreq: 2, postings: vec![(7, 1, 10), (3, 2, 20)] }),
        (4, TermMatches { termfreq: 3, postings: vec![(3, 5, 20), (9, 6, 30), (7, 8, 10)] }),
    ];
    let docs = gather(&found);
    assert_eq!(docs.iter().map(|d| d.docid).collect::<Vec<u64>>(), vec![7, 3, 9]);
    let a = Part { termfreq: 2, wqf: 1, wdf: 1, doclen: 10 };
    let b = Part { termfreq: 3, wqf: 4, wdf: 8, doclen: 10 };
    assert_eq!(docs[0].parts, vec![a, b]);
    let a = Part { termfreq: 2, wqf: 1, wdf: 2, doclen: 20 };
    let b = Part { termfreq: 3, wqf: 4, wdf: 5, doclen: 20 };
    assert_eq!(docs[1].parts, vec![a, b]);
    assert_eq!(docs[2].parts, vec![Part { termfreq: 3, wqf: 4, wdf: 6, doclen: 30 }]);
    assert_eq!(gather(&Vec::new()).len(), 0);
}

#[test]
fn a_query_gives_documents_with_their_matches() {
    let data: Vec<u8> = archive();
    let s = searcher(&data);
    let docs = s.documents("albert einstein, Albert").unwrap();
    assert_eq!(docs.len(), 2);
    assert_eq!(docs[0].docid, 1);
    let a = Part { termfreq: 2, wqf: 2, wdf: 2, doclen: 10 };
    let b = Part { termfreq: 1, wqf: 1, wdf: 3, doclen: 10 };
    assert_eq!(docs[0].parts, vec![a, b]);
    assert_eq!(docs[1].docid, 4);
    assert_eq!(docs[1].parts, vec![Part { termfreq: 2, wqf: 2, wdf: 1, doclen: 30 }]);
    assert_eq!(s.documents("missing").unwrap().len(), 0);
}

#[test]
fn broken_lists_stop_a_query() {
    let mut file: Vec<u8> = vec![0u8; SIZE];
    file.extend(block(&[item(b"albert", b""), item(b"einstein", &list_tag(1, &[(1, 3)]))]));
    let data: Vec<u8> = archive();
    let version = searcher(&data).version;
    let s = Searcher::new(&file, 0, version).unwrap();
    assert_eq!(s.documents("einstein").unwrap().len(), 1);
    assert!(matches!(s.documents("albert einstein"), Err(Error::PostlistTruncated)));
    assert!(matches!(s.path(1), Err(Error::BlockOutOfRange { block: 2, table: "docdata" })));
    assert!(matches!(s.top_hits(vec![(1, 1)], 1), Err(Error::BlockOutOfRange { .. })));
    assert_eq!(s.top_hits(vec![(1, 1)], 0).unwrap().len(), 0);
}

#[test]
fn words_keep_every_alphanumeric_character() {
    let text: &str = "a1-b2__c3!!\u{3b1}\u{3b2} 9";
    let kept: String = text.chars().filter(|c| c.is_alphanumeric()).collect();
    assert_eq!(tokenize(text).concat(), kept);
}

#[test]
fn paths_come_from_the_document_data() {
    let data: Vec<u8> = archive();
    let s = searcher(&data);
    assert_eq!(s.path(1).unwrap(), "C/Albert_Einstein");
    assert_eq!(s.path(2).unwrap(), "C/Running_man");
    assert_eq!(s.path(3).unwrap(), "<no docdata>");
    assert_eq!(s.path(4).unwrap(), "C/\u{fffd}_broken");
}

#[test]
fn the_first_hits_are_resolved() {
    let data: Vec<u8> = archive();
    let s = searcher(&data);
    let hits = s.top_hits(vec![(4, 7), (1, 7), (2, 9), (3, 1)], 3).unwrap();
    let shown: Vec<(u64, u64, &str)> =
        hits.iter().map(|h| (h.docid, h.weight, h.path.as_str())).collect();
    assert_eq!(
        shown,
        vec![
            (2, 9, "C/Running_man"),
            (1, 7, "C/Albert_Einstein"),
            (4, 7, "C/\u{fffd}_broken"),
        ]
    );
    let same = s.resolve(&vec![(3, 5)]).unwrap();
    assert_eq!((same[0].docid, same[0].weight, same[0].path.as_str()), (3, 5, "<no docdata>"));
}

#[test]
fn a_term_is_dumped_with_document_lengths() {
    let data: Vec<u8> = archive();
    let s = searcher(&data);
    let dump = s.dump_term("albert").unwrap().unwrap();
    assert_eq!((dump.termfreq, dump.collfreq), (2, 3));
    assert_eq!(dump.rows, vec![(1, 2, 10), (4, 1, 30)]);
    assert!(s.dump_term("missing").unwrap().is_none());
    assert!(matches!(s.dump_term("run"), Err(Error::Malformed)));
}

#[test]
fn titles_drop_the_namespace_and_show_spaces() {
    assert_eq!(display_title("C/Albert_Einstein"), "Albert Einstein");
    assert_eq!(display_title("A/Albert_Einstein"), "A/Albert Einstein");
    assert_eq!(display_title("C/C/_x"), "C/ x");
    assert_eq!(display_title("C"), "C");
    assert_eq!(display_title(""), "");
}

#[test]
fn word_order_case_and_punctuation_do_not_matter() {
    let data: Vec<u8> = archive();
    let s = searcher(&data);
    let weigh = |query: &str| -> Vec<(u64, u64, String)> {
        let docs = s.documents(query).unwrap();
        let scored: Vec<(u64, u64)> = docs
            .iter()
            .map(|d| (d.docid, d.parts.iter().map(|p| p.wdf as u64 * p.wqf as u64).sum::<u64>()))
            .collect();
        let hits = s.top_hits(scored, 10).unwrap();
        hits.into_iter().map(|h| (h.docid, h.weight, h.path)).collect()
    };
    let hits = weigh("albert einstein run albert");
    assert_eq!(hits.iter().map(|h| (h.0, h.1)).collect::<Vec<(u64, u64)>>(), vec![(1, 7), (2, 5), (4, 2), (9, 1)]);
    assert_eq!(weigh("Run, ALBERT! Einstein (albert)"), hits);
    assert_eq!(weigh("einstein albert albert run"), hits);
}

#[test]
fn ranking_ignores_the_order_of_the_hits() {
    let a: Vec<(u64, u64)> = vec![(1, 5), (2, 9), (3, 5), (4, 0)];
    let b: Vec<(u64, u64)> = vec![(4, 0), (3, 5), (2, 9), (1, 5)];
    assert_eq!(rank_hits(a.clone(), 3), rank_hits(b.clone(), 3));
    assert_eq!(rank_hits(a, 3), vec![(2, 9), (1, 5), (3, 5)]);
}

#[test]
fn compressed_document_data_gives_paths() {
    let path: &[u8] = b"C/Aaaaaaaaaaaaaaaaaaaaaaaaaaaaaaaaaaaaaaaaa";
    let mut e = DeflateEncoder::new(Vec::new(), Compression::default());
    e.write_all(path).unwrap();
    let raw: Vec<u8> = e.finish().unwrap();
    let mut whole: Vec<u8> = item(&pack_sortable(1), &raw);
    whole[0] |= 0x80;
    let mut broken: Vec<u8> = item(&pack_sortable(2), &[0xff; 8]);
    broken[0] |= 0x80;
    let mut file: Vec<u8> = vec![0u8; SIZE];
    file.extend(block(&[item(b"x", &list_tag(1, &[(1, 1)]))]));
    file.extend(block(&[whole, broken]));
    let data: Vec<u8> = archive();
    let s = Searcher::new(&file, 0, searcher(&data).version).unwrap();
    assert_eq!(s.path(1).unwrap().as_bytes(), path);
    assert!(matches!(s.path(2), Err(Error::DeflateCorrupt)));
}

#[test]
fn a_search_returns_the_heaviest_documents() {
    let data: Vec<u8> = archive();
    let s = searcher(&data);
    let weigh = |d: &DocMatches| d.parts.iter().map(|p| p.wdf as u64).sum::<u64>();
    let shown = |query: &str, k: usize| -> Vec<(u64, u64, String)> {
        let hits = s.search(query, k, weigh).unwrap();
        hits.into_iter().map(|h| (h.docid, h.weight, h.path)).collect()
    };
    let all: Vec<(u64, u64, String)> = vec![
        (1, 5, "C/Albert_Einstein".to_string()),
        (2, 5, "C/Running_man".to_string()),
        (4, 1, "C/\u{fffd}_broken".to_string()),
        (9, 1, "<no docdata>".to_string()),
    ];
    assert_eq!(shown("albert einstein running", 10), all);
    assert_eq!(shown("RUN? Einstein-Albert", 10), all);
    assert_eq!(shown("albert einstein running", 2), all[..2].to_vec());
    assert_eq!(shown("missing", 10).len(), 0);
    assert_eq!(shown("albert", 0).len(), 0);
}

#[test]
fn a_search_reports_broken_tables() {
    let mut file: Vec<u8> = vec![0u8; SIZE];
    file.extend(block(&[item(b"albert", b""), item(b"einstein", &list_tag(1, &[(1, 3)]))]));
    let data: Vec<u8> = archive();
    let s = Searcher::new(&file, 0, searcher(&data).version).unwrap();
    let weigh = |d: &DocMatches| d.docid;
    assert!(matches!(s.search("albert", 3, weigh), Err(Error::PostlistTruncated)));
    assert!(matches!(s.search("einstein", 3, weigh), Err(Error::BlockOutOfRange { block: 2, .. })));
    assert_eq!(s.search("einstein", 0, weigh).unwrap().len(), 0);
}
