# zxr: a verified reader for the full-text index of ZIM archives

Searches the Xapian full-text index embedded inside a Kiwix ZIM file (a Wikipedia dump,
for example). The library under `src/` is written in Verus: each function's behaviour is
stated in a contract and proved.

- `src/zim.rs`: the ZIM container, to locate the `X/fulltext/xapian` blob.
- `src/glass/`: the single-file glass database. The version header (`version.rs`), the
  integer encodings (`varint.rs`, `sortable.rs`), blocks (`block.rs`), tables and cursors
  (`table.rs`), tags and key dumps (`entries.rs`, `inflate.rs`) and posting lists
  (`postlist.rs`).
- `src/glass/tree.rs`, `store_laws.rs`, `list_laws.rs`, `version_laws.rs`: what holds of a
  well-formed database as a whole. A lookup finds a key exactly where it is stored and gives back the stored
  bytes; a dump lists every item in order; a posting list read back is the one that was
  stored.
- `src/search/`: queries to counted stems, terms to matching documents, the matches of
  each document, ranking, paths; `order_laws.rs` shows that word order does not matter.
- `src/error.rs`: failures. `Malformed` stands for data on which no offset can be
  followed; the command line treats it as fatal.
- `app/`: the command line, file mapping, and the BM25 weights, which are floating point.

```
zxr --zim /path/to/wikipedia.zim albert einstein
zxr --zim /path/to/wikipedia.zim --info
zxr --zim /path/to/wikipedia.zim --dump-term einstein
```

What is believed rather than proved stands in a few small functions around outside calls:
decompression (flate2), stemming (rust-stemmers) and, of the standard library, UTF-8
decoding, lower-casing, character classes and sorting. Each says in its comment what it
takes for granted.
